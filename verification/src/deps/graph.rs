//! Bounded dependency-graph resolution over `.SRCINFO` metadata supplied by a provider.
//!
//! This part holds the version-interval algebra of graph constraints, the configuration bounds
//! and the per-run expansion memo.
use crate::deps::version::{requirement_parts, requirement_parts_chars, version_order, version_order_chars, ReqOp};
use crate::error::ArchToolkitError;
use crate::deps::parse::dep_spec_chars;
use crate::text::{to_chars, Order};
use core::time::Duration;
use vstd::prelude::*;

verus! {

// ---------------------------------------------------------------------------------------------
// Configuration
// ---------------------------------------------------------------------------------------------

/// Whether a duration is zero (`Duration::is_zero`).
pub uninterp spec fn is_zero_duration(d: Duration) -> bool;

/// `Duration::is_zero`.
#[verifier::external_body]
fn duration_is_zero(d: &Duration) -> (r: bool)
    ensures
        r == is_zero_duration(*d),
{
    d.is_zero()
}

/// Bounds of one graph resolution.
#[derive(Debug, Clone)]
pub struct DependencyGraphConfig {
    /// Deepest edge depth expanded from a root (0 resolves root metadata only).
    pub max_depth: usize,
    /// Most nodes in the graph.
    pub max_nodes: usize,
    /// Time allowed to each provider batch.
    pub metadata_timeout: Duration,
    /// Most names requested from the provider in one batch.
    pub max_concurrency: usize,
}

impl Default for DependencyGraphConfig {
    /// Depth 10, 1000 nodes, 30 s per batch, 8 names per batch.
    fn default() -> (r: DependencyGraphConfig)
        ensures
            r.max_depth == 10,
            r.max_nodes == 1000,
            r.metadata_timeout == crate::cache::config::secs(30),
            r.max_concurrency == 8,
    {
        DependencyGraphConfig {
            max_depth: 10,
            max_nodes: 1000,
            metadata_timeout: crate::cache::config::duration_from_secs(30),
            max_concurrency: 8,
        }
    }
}

/// Refuses bounds that disable a safety limit: zero nodes, a zero timeout, or zero names per
/// batch (checked in that order). A zero depth is accepted.
pub fn validate_graph_config(config: &DependencyGraphConfig) -> (r: Result<(), ArchToolkitError>)
    ensures
        r is Ok <==> (config.max_nodes > 0 && !is_zero_duration(config.metadata_timeout)
            && config.max_concurrency > 0),
        r matches Err(e) ==> e matches ArchToolkitError::InvalidInput(m) && m@ == (if config.max_nodes
            == 0 {
            "dependency graph max_nodes must be greater than zero"@
        } else if is_zero_duration(config.metadata_timeout) {
            "dependency graph metadata_timeout must be greater than zero"@
        } else {
            "dependency graph max_concurrency must be greater than zero"@
        }),
{
    if config.max_nodes == 0 {
        return Err(
            ArchToolkitError::InvalidInput(
                "dependency graph max_nodes must be greater than zero".to_owned(),
            ),
        );
    }
    if duration_is_zero(&config.metadata_timeout) {
        return Err(
            ArchToolkitError::InvalidInput(
                "dependency graph metadata_timeout must be greater than zero".to_owned(),
            ),
        );
    }
    if config.max_concurrency == 0 {
        return Err(
            ArchToolkitError::InvalidInput(
                "dependency graph max_concurrency must be greater than zero".to_owned(),
            ),
        );
    }
    Ok(())
}

// ---------------------------------------------------------------------------------------------
// Version intervals
// ---------------------------------------------------------------------------------------------

/// One end of a version interval.
#[derive(Debug, Clone, PartialEq, Eq)]
pub struct DependencyVersionBound {
    /// Bounding version.
    pub version: String,
    /// Whether the bounding version itself is allowed.
    pub inclusive: bool,
}

/// A version interval; a missing end is unbounded.
#[derive(Debug, Clone, PartialEq, Eq)]
pub struct DependencyConstraintRange {
    /// Lower end.
    pub lower: Option<DependencyVersionBound>,
    /// Upper end.
    pub upper: Option<DependencyVersionBound>,
}

impl Default for DependencyConstraintRange {
    /// The unbounded interval.
    fn default() -> (r: DependencyConstraintRange)
        ensures
            r.lower is None,
            r.upper is None,
    {
        DependencyConstraintRange { lower: None, upper: None }
    }
}

/// A bound as (version, inclusive).
pub type BoundView = (Seq<char>, bool);

/// View of an optional bound.
pub open spec fn bound_view(b: Option<DependencyVersionBound>) -> Option<BoundView> {
    match b {
        Some(x) => Some((x.version@, x.inclusive)),
        None => None,
    }
}

/// The lower end after adding `cand`: the larger version; at equal versions an exclusive end
/// replaces an inclusive one.
pub open spec fn lower_after(cur: Option<BoundView>, cand: BoundView) -> Option<BoundView> {
    match cur {
        None => Some(cand),
        Some(e) => if version_order(cand.0, e.0) == Order::Greater || (cand.0 == e.0 && !cand.1
            && e.1) {
            Some(cand)
        } else {
            cur
        },
    }
}

/// The upper end after adding `cand`: the smaller version; at equal versions an exclusive end
/// replaces an inclusive one.
pub open spec fn upper_after(cur: Option<BoundView>, cand: BoundView) -> Option<BoundView> {
    match cur {
        None => Some(cand),
        Some(e) => if version_order(cand.0, e.0) == Order::Less || (cand.0 == e.0 && !cand.1
            && e.1) {
            Some(cand)
        } else {
            cur
        },
    }
}

/// Whether an interval holds some version: unbounded on a side, lower below upper, or equal
/// ends that are both inclusive.
pub open spec fn range_ok(lo: Option<BoundView>, up: Option<BoundView>) -> bool {
    match (lo, up) {
        (Some(l), Some(u)) => match version_order(l.0, u.0) {
            Order::Less => true,
            Order::Greater => false,
            Order::Equal => l.1 && u.1,
        },
        _ => true,
    }
}

/// The interval `(lo, up)` narrowed by a requirement (`>=`, `<=`, `=`, `>` or `<` and a
/// version; empty for none), or `None` when the requirement is malformed or leaves no
/// version.
pub open spec fn intersect(lo: Option<BoundView>, up: Option<BoundView>, req: Seq<char>) -> Option<
    (Option<BoundView>, Option<BoundView>),
> {
    if req.len() == 0 {
        Some((lo, up))
    } else {
        match requirement_parts(req) {
            None => None,
            Some((op, v)) => if v.len() == 0 {
                None
            } else {
                let inclusive = op == ReqOp::Ge || op == ReqOp::Le || op == ReqOp::Eq;
                let b = (v, inclusive);
                let nl = if op == ReqOp::Gt || op == ReqOp::Ge || op == ReqOp::Eq {
                    lower_after(lo, b)
                } else {
                    lo
                };
                let nu = if op == ReqOp::Lt || op == ReqOp::Le || op == ReqOp::Eq {
                    upper_after(up, b)
                } else {
                    up
                };
                if range_ok(nl, nu) {
                    Some((nl, nu))
                } else {
                    None
                }
            },
        }
    }
}

/// Copies a bound.
fn clone_bound(b: &Option<DependencyVersionBound>) -> (r: Option<DependencyVersionBound>)
    ensures
        bound_view(r) == bound_view(*b),
{
    match b {
        Some(x) => Some(DependencyVersionBound { version: x.version.clone(), inclusive: x.inclusive }),
        None => None,
    }
}

/// Narrows a lower end by `candidate`.
fn update_lower(current: &mut Option<DependencyVersionBound>, candidate: DependencyVersionBound)
    ensures
        bound_view(*final(current)) == lower_after(
            bound_view(*old(current)),
            (candidate.version@, candidate.inclusive),
        ),
{
    let replace = match current {
        None => true,
        Some(e) => {
            let c = to_chars(candidate.version.as_str());
            let x = to_chars(e.version.as_str());
            version_order_chars(c.as_slice(), x.as_slice()) == Order::Greater || (
            candidate.version == e.version && !candidate.inclusive && e.inclusive)
        },
    };
    if replace {
        *current = Some(candidate);
    }
}

/// Narrows an upper end by `candidate`.
fn update_upper(current: &mut Option<DependencyVersionBound>, candidate: DependencyVersionBound)
    ensures
        bound_view(*final(current)) == upper_after(
            bound_view(*old(current)),
            (candidate.version@, candidate.inclusive),
        ),
{
    let replace = match current {
        None => true,
        Some(e) => {
            let c = to_chars(candidate.version.as_str());
            let x = to_chars(e.version.as_str());
            version_order_chars(c.as_slice(), x.as_slice()) == Order::Less || (candidate.version
                == e.version && !candidate.inclusive && e.inclusive)
        },
    };
    if replace {
        *current = Some(candidate);
    }
}

/// Whether an interval holds some version.
pub fn range_is_valid(range: &DependencyConstraintRange) -> (r: bool)
    ensures
        r == range_ok(bound_view(range.lower), bound_view(range.upper)),
{
    match (&range.lower, &range.upper) {
        (Some(l), Some(u)) => {
            let a = to_chars(l.version.as_str());
            let b = to_chars(u.version.as_str());
            match version_order_chars(a.as_slice(), b.as_slice()) {
                Order::Less => true,
                Order::Greater => false,
                Order::Equal => l.inclusive && u.inclusive,
            }
        },
        _ => true,
    }
}

/// The interval narrowed by `requirement`, or `None` when it is malformed or leaves no version.
pub fn intersect_requirement(range: &DependencyConstraintRange, requirement: &str) -> (r: Option<
    DependencyConstraintRange,
>)
    ensures
        match r {
            Some(x) => intersect(bound_view(range.lower), bound_view(range.upper), requirement@)
                == Some((bound_view(x.lower), bound_view(x.upper))),
            None => intersect(bound_view(range.lower), bound_view(range.upper), requirement@) is None,
        },
{
    if requirement.is_empty() {
        return Some(
            DependencyConstraintRange {
                lower: clone_bound(&range.lower),
                upper: clone_bound(&range.upper),
            },
        );
    }
    let q = to_chars(requirement);
    let (op, v) = match requirement_parts_chars(q.as_slice()) {
        Some(x) => x,
        None => {
            return None;
        },
    };
    if v.len() == 0 {
        return None;
    }
    let inclusive = match op {
        ReqOp::Ge | ReqOp::Le | ReqOp::Eq => true,
        _ => false,
    };
    let vs = crate::text::chars_to_string(v.as_slice());
    let mut candidate = DependencyConstraintRange {
        lower: clone_bound(&range.lower),
        upper: clone_bound(&range.upper),
    };
    match op {
        ReqOp::Gt | ReqOp::Ge => {
            update_lower(&mut candidate.lower, DependencyVersionBound { version: vs, inclusive });
        },
        ReqOp::Lt | ReqOp::Le => {
            update_upper(&mut candidate.upper, DependencyVersionBound { version: vs, inclusive });
        },
        ReqOp::Eq => {
            let vs2 = vs.clone();
            update_lower(&mut candidate.lower, DependencyVersionBound { version: vs, inclusive });
            update_upper(&mut candidate.upper, DependencyVersionBound { version: vs2, inclusive });
        },
    }
    if range_is_valid(&candidate) {
        Some(candidate)
    } else {
        None
    }
}

/// Whether a requirement is empty or an operator with a non-empty version.
pub open spec fn well_formed_requirement(req: Seq<char>) -> bool {
    req.len() == 0 || match requirement_parts(req) {
        Some((_, v)) => v.len() > 0,
        None => false,
    }
}

/// Whether a requirement is empty or an operator (`>=`, `<=`, `=`, `>`, `<`) with a non-empty
/// version.
pub fn requirement_is_well_formed(requirement: &str) -> (r: bool)
    ensures
        r == well_formed_requirement(requirement@),
{
    if requirement.is_empty() {
        return true;
    }
    let q = to_chars(requirement);
    match requirement_parts_chars(q.as_slice()) {
        Some((_, v)) => v.len() > 0,
        None => false,
    }
}

// ---------------------------------------------------------------------------------------------
// Expansion memo
// ---------------------------------------------------------------------------------------------

/// View of the expansion memo: package and shallowest expanded depth.
pub open spec fn memo_view(m: Seq<(String, usize)>) -> Seq<(Seq<char>, usize)> {
    m.map_values(|p: (String, usize)| (p.0@, p.1))
}

/// Value of the first entry keyed `package` at or after `i` (for the expansion memo, the
/// shallowest expanded depth of `package`).
pub open spec fn memo_get<V>(m: Seq<(Seq<char>, V)>, package: Seq<char>, i: int) -> Option<V>
    decreases m.len() - i,
{
    if i < 0 || i >= m.len() {
        None
    } else if m[i].0 == package {
        Some(m[i].1)
    } else {
        memo_get(m, package, i + 1)
    }
}

/// Index of the first entry keyed `package` at or after `i`.
pub open spec fn memo_index<V>(m: Seq<(Seq<char>, V)>, package: Seq<char>, i: int) -> Option<int>
    decreases m.len() - i,
{
    if i < 0 || i >= m.len() {
        None
    } else if m[i].0 == package {
        Some(i)
    } else {
        memo_index(m, package, i + 1)
    }
}

/// Lemma: entries without key `p` between `j` and `i` are skipped by `memo_index`.
proof fn lemma_memo_index_skip<V>(m: Seq<(Seq<char>, V)>, p: Seq<char>, j: int, i: int)
    requires
        0 <= j <= i <= m.len(),
        forall|x: int| j <= x < i ==> m[x].0 != p,
    ensures
        memo_index(m, p, j) == memo_index(m, p, i),
    decreases i - j,
{
    if j < i {
        lemma_memo_index_skip(m, p, j + 1, i);
    }
}

/// Whether a package reached at `depth` is expanded under memo `m`: unless it was already
/// expanded at that depth or shallower.
pub open spec fn expansion_granted(m: Seq<(Seq<char>, usize)>, package: Seq<char>, depth: usize) -> bool {
    !(memo_get(m, package, 0) matches Some(k) && k <= depth)
}

/// Decides whether `package`, reached at `depth`, is expanded: not when it was already expanded
/// at that depth or shallower; otherwise it is, and `depth` is remembered as its shallowest
/// expansion.
pub fn mark_expansion(expanded_depths: &mut Vec<(String, usize)>, package: &str, depth: usize) -> (r:
    bool)
    ensures
        r == expansion_granted(memo_view(old(expanded_depths)@), package@, depth),
        r ==> memo_get(memo_view(final(expanded_depths)@), package@, 0) == Some(depth),
        r ==> forall|q: Seq<char>|
            q != package@ ==> memo_get(memo_view(final(expanded_depths)@), q, 0) == memo_get(
                memo_view(old(expanded_depths)@),
                q,
                0,
            ),
        !r ==> final(expanded_depths)@ == old(expanded_depths)@,
        match memo_index(memo_view(old(expanded_depths)@), package@, 0) {
            Some(i) => r == (memo_view(old(expanded_depths)@)[i].1 > depth) && (r ==> memo_view(
                final(expanded_depths)@,
            ) == memo_view(old(expanded_depths)@).update(i, (package@, depth))),
            None => r && memo_view(final(expanded_depths)@) == memo_view(old(expanded_depths)@).push(
                (package@, depth),
            ),
        },
{
    let ghost m0 = memo_view(expanded_depths@);
    let mut i: usize = 0;
    while i < expanded_depths.len()
        invariant
            i <= expanded_depths@.len(),
            m0 == memo_view(expanded_depths@),
            expanded_depths@ == old(expanded_depths)@,
            forall|x: int| 0 <= x < i ==> m0[x].0 != package@,
        decreases expanded_depths@.len() - i,
    {
        if crate::text::str_eq(expanded_depths[i].0.as_str(), package) {
            proof {
                lemma_memo_skip(m0, package@, 0, i as int);
                lemma_memo_index_skip(m0, package@, 0, i as int);
            }
            if expanded_depths[i].1 <= depth {
                return false;
            }
            let k = expanded_depths[i].0.clone();
            expanded_depths.set(i, (k, depth));
            proof {
                lemma_memo_update(m0, i as int, package@, depth);
                assert(memo_view(expanded_depths@) =~= m0.update(i as int, (package@, depth)));
            }
            return true;
        }
        i += 1;
    }
    proof {
        lemma_memo_skip(m0, package@, 0, m0.len() as int);
        lemma_memo_index_skip(m0, package@, 0, m0.len() as int);
    }
    expanded_depths.push((package.to_owned(), depth));
    proof {
        lemma_memo_push(m0, package@, depth);
        assert(memo_view(expanded_depths@) =~= m0.push((package@, depth)));
    }
    true
}

/// Lemma: entries without key `p` between `j` and `i` are skipped.
proof fn lemma_memo_skip<V>(m: Seq<(Seq<char>, V)>, p: Seq<char>, j: int, i: int)
    requires
        0 <= j <= i <= m.len(),
        forall|x: int| j <= x < i ==> m[x].0 != p,
    ensures
        memo_get(m, p, j) == memo_get(m, p, i),
    decreases i - j,
{
    if j < i {
        lemma_memo_skip(m, p, j + 1, i);
    }
}

/// Lemma: lookups of `q` agree on sequences that agree on the entries of `q`.
proof fn lemma_memo_frame<V>(m: Seq<(Seq<char>, V)>, m2: Seq<(Seq<char>, V)>, q: Seq<char>, j: int)
    requires
        0 <= j <= m.len(),
        m2.len() == m.len(),
        forall|x: int| j <= x < m.len() ==> ((m[x].0 == q) == (m2[x].0 == q)),
        forall|x: int| j <= x < m.len() && m[x].0 == q ==> m[x].1 == m2[x].1,
    ensures
        memo_get(m, q, j) == memo_get(m2, q, j),
    decreases m.len() - j,
{
    if j < m.len() {
        lemma_memo_frame(m, m2, q, j + 1);
    }
}

/// Lemma: a pushed entry for `p` leaves the lookups of other keys unchanged.
proof fn lemma_memo_push_other<V>(m: Seq<(Seq<char>, V)>, p: Seq<char>, d: V, q: Seq<char>, j: int)
    requires
        0 <= j <= m.len(),
        q != p,
    ensures
        memo_get(m.push((p, d)), q, j) == memo_get(m, q, j),
    decreases m.len() - j,
{
    let m2 = m.push((p, d));
    if j < m.len() {
        lemma_memo_push_other(m, p, d, q, j + 1);
        assert(m2[j] == m[j]);
    } else {
        assert(m2[j].0 == p);
        assert(memo_get(m2, q, j + 1) is None);
    }
}

/// Lemma: replacing the value of the first entry of `p` changes only the value found for `p`.
proof fn lemma_memo_update<V>(m: Seq<(Seq<char>, V)>, i: int, p: Seq<char>, d: V)
    requires
        0 <= i < m.len(),
        m[i].0 == p,
        forall|x: int| 0 <= x < i ==> m[x].0 != p,
    ensures
        memo_get(m.update(i, (p, d)), p, 0) == Some(d),
        forall|q: Seq<char>| q != p ==> memo_get(m.update(i, (p, d)), q, 0) == memo_get(m, q, 0),
{
    let m2 = m.update(i, (p, d));
    lemma_memo_skip(m2, p, 0, i);
    assert forall|q: Seq<char>| q != p implies memo_get(m2, q, 0) == memo_get(m, q, 0) by {
        lemma_memo_frame(m, m2, q, 0);
    }
}

/// Lemma: adding an entry for an absent key adds only the value found for that key.
proof fn lemma_memo_push<V>(m: Seq<(Seq<char>, V)>, p: Seq<char>, d: V)
    requires
        forall|x: int| 0 <= x < m.len() ==> m[x].0 != p,
    ensures
        memo_get(m.push((p, d)), p, 0) == Some(d),
        forall|q: Seq<char>| q != p ==> memo_get(m.push((p, d)), q, 0) == memo_get(m, q, 0),
{
    let m2 = m.push((p, d));
    lemma_memo_skip(m2, p, 0, m.len() as int);
    assert forall|q: Seq<char>| q != p implies memo_get(m2, q, 0) == memo_get(m, q, 0) by {
        lemma_memo_push_other(m, p, d, q, 0);
    }
}

} // verus!

verus! {

// ---------------------------------------------------------------------------------------------
// Graph data
// ---------------------------------------------------------------------------------------------

/// Category of a graph diagnostic.
#[derive(Debug, Clone, Copy, PartialEq, Eq)]
pub enum DependencyGraphDiagnosticKind {
    /// The provider broke the batch protocol.
    MetadataProtocol,
    /// The node limit stopped a branch.
    NodeLimit,
    /// A requirement has no supported operator and version.
    MalformedConstraint,
    /// Requirements on one package leave no version.
    IncompatibleConstraints,
    /// No metadata exists for a name.
    MissingMetadata,
    /// Metadata retrieval failed.
    MetadataFailure,
    /// Metadata lacks the selected package output.
    MalformedSrcinfo,
    /// A dependency cycle stopped a branch.
    Cycle,
    /// The depth limit stopped a branch.
    DepthLimit,
    /// Two resolved packages conflict.
    Conflict,
    /// The provider exceeded its time.
    Timeout,
}

/// Name of a diagnostic category (as `Debug` writes it).
pub open spec fn kind_text(k: DependencyGraphDiagnosticKind) -> Seq<char> {
    match k {
        DependencyGraphDiagnosticKind::MetadataProtocol => "MetadataProtocol"@,
        DependencyGraphDiagnosticKind::NodeLimit => "NodeLimit"@,
        DependencyGraphDiagnosticKind::MalformedConstraint => "MalformedConstraint"@,
        DependencyGraphDiagnosticKind::IncompatibleConstraints => "IncompatibleConstraints"@,
        DependencyGraphDiagnosticKind::MissingMetadata => "MissingMetadata"@,
        DependencyGraphDiagnosticKind::MetadataFailure => "MetadataFailure"@,
        DependencyGraphDiagnosticKind::MalformedSrcinfo => "MalformedSrcinfo"@,
        DependencyGraphDiagnosticKind::Cycle => "Cycle"@,
        DependencyGraphDiagnosticKind::DepthLimit => "DepthLimit"@,
        DependencyGraphDiagnosticKind::Conflict => "Conflict"@,
        DependencyGraphDiagnosticKind::Timeout => "Timeout"@,
    }
}

/// Name of a diagnostic category.
pub fn kind_name(k: DependencyGraphDiagnosticKind) -> (r: &'static str)
    ensures
        r@ == kind_text(k),
{
    let r = match k {
        DependencyGraphDiagnosticKind::MetadataProtocol => "MetadataProtocol",
        DependencyGraphDiagnosticKind::NodeLimit => "NodeLimit",
        DependencyGraphDiagnosticKind::MalformedConstraint => "MalformedConstraint",
        DependencyGraphDiagnosticKind::IncompatibleConstraints => "IncompatibleConstraints",
        DependencyGraphDiagnosticKind::MissingMetadata => "MissingMetadata",
        DependencyGraphDiagnosticKind::MetadataFailure => "MetadataFailure",
        DependencyGraphDiagnosticKind::MalformedSrcinfo => "MalformedSrcinfo",
        DependencyGraphDiagnosticKind::Cycle => "Cycle",
        DependencyGraphDiagnosticKind::DepthLimit => "DepthLimit",
        DependencyGraphDiagnosticKind::Conflict => "Conflict",
        DependencyGraphDiagnosticKind::Timeout => "Timeout",
    };
    r
}

/// An event of graph resolution that did not stop it.
#[derive(Debug, Clone)]
pub struct DependencyGraphDiagnostic {
    /// Category.
    pub kind: DependencyGraphDiagnosticKind,
    /// Affected package or requested name.
    pub package: String,
    /// Related package, if any.
    pub related_package: Option<String>,
    /// Detail.
    pub message: String,
}

/// A dependency from one selected package to another.
#[derive(Debug, Clone)]
pub struct DependencyGraphEdge {
    /// Depending package.
    pub from: String,
    /// Selected or missing dependency.
    pub to: String,
    /// Name written by the depending package.
    pub requested_name: String,
    /// Version requirement written by the depending package.
    pub version_req: String,
}

/// State of a graph node.
#[derive(Debug, Clone, Copy, PartialEq, Eq)]
pub enum DependencyGraphNodeStatus {
    /// Metadata verified.
    Resolved,
    /// Metadata unavailable or invalid.
    Missing,
    /// Conflicts with another resolved node.
    Conflicting,
}

/// How a node was reached: the name requested, the metadata source, and the provider when a
/// virtual name was satisfied by another package.
#[derive(Debug, Clone)]
pub struct DependencyProvenance {
    /// Requested name.
    pub requested_name: String,
    /// Verified source, when metadata was found.
    pub source: Option<crate::types::DependencySource>,
    /// Providing package of a virtual name.
    pub provider: Option<String>,
}

/// A package of the graph.
#[derive(Debug, Clone)]
pub struct DependencyGraphNode {
    /// Package name.
    pub name: String,
    /// Package base.
    pub pkgbase: Option<String>,
    /// Full version (`epoch:pkgver-pkgrel`).
    pub version: Option<String>,
    /// How it was reached.
    pub provenance: DependencyProvenance,
    /// State.
    pub status: DependencyGraphNodeStatus,
    /// Versions allowed by the requirements on it.
    pub constraints: DependencyConstraintRange,
    /// Names it provides.
    pub provides: Vec<String>,
    /// Names it conflicts with.
    pub conflicts: Vec<String>,
    /// Shallowest depth at which it was reached.
    pub depth: usize,
}

/// `.SRCINFO` metadata found for a requested name.
#[derive(Debug, Clone)]
pub struct DependencyMetadata {
    /// Requested name.
    pub requested_name: String,
    /// Selected package output (the requested name, or its provider).
    pub package_name: String,
    /// Where the metadata comes from.
    pub source: crate::types::DependencySource,
    /// Raw `.SRCINFO` text.
    pub srcinfo: String,
}

/// A provider's answer for one requested name.
#[derive(Debug, Clone)]
pub enum DependencyMetadataResponse {
    /// Metadata found.
    Found(DependencyMetadata),
    /// No metadata exists.
    Missing {
        /// Requested name.
        requested_name: String,
        /// Why.
        reason: String,
    },
    /// Retrieval failed.
    Failure {
        /// Requested name.
        requested_name: String,
        /// Why.
        message: String,
    },
}

/// A resolved dependency graph.
#[derive(Debug, Clone)]
pub struct DependencyGraphResolution {
    /// Names of the root nodes, in order.
    pub roots: Vec<String>,
    /// Nodes, by name.
    pub nodes: Vec<DependencyGraphNode>,
    /// Edges, in order of (from, to, requested name, requirement).
    pub edges: Vec<DependencyGraphEdge>,
    /// Diagnostics, in order of (category name, package, related package, message).
    pub diagnostics: Vec<DependencyGraphDiagnostic>,
}

/// Supplies `.SRCINFO` metadata for batches of requested names; implemented by callers (for
/// example over the AUR, a local mirror or fixtures). It should answer every name once.
pub trait DependencyMetadataProvider {
    /// Metadata for `requested_names` (sorted, unique), within `timeout`.
    fn fetch_metadata(&self, requested_names: &[String], timeout: Duration) -> Vec<
        DependencyMetadataResponse,
    >
        requires
            requested_names@.len() > 0,
            strictly_sorted(crate::text::sv(requested_names@)),
    ;
}

/// Requested name of a response.
pub open spec fn response_name(r: DependencyMetadataResponse) -> Seq<char> {
    match r {
        DependencyMetadataResponse::Found(m) => m.requested_name@,
        DependencyMetadataResponse::Missing { requested_name, .. } => requested_name@,
        DependencyMetadataResponse::Failure { requested_name, .. } => requested_name@,
    }
}

/// Requested name of a response.
fn response_requested_name(response: &DependencyMetadataResponse) -> (r: &str)
    ensures
        r@ == response_name(*response),
{
    match response {
        DependencyMetadataResponse::Found(metadata) => metadata.requested_name.as_str(),
        DependencyMetadataResponse::Missing { requested_name, .. } => requested_name.as_str(),
        DependencyMetadataResponse::Failure { requested_name, .. } => requested_name.as_str(),
    }
}

/// Adds a diagnostic.
fn push_diagnostic(
    diagnostics: &mut Vec<DependencyGraphDiagnostic>,
    kind: DependencyGraphDiagnosticKind,
    package: &str,
    related_package: Option<String>,
    message: String,
)
    ensures
        final(diagnostics)@.len() == old(diagnostics)@.len() + 1,
        forall|i: int| 0 <= i < old(diagnostics)@.len() ==> final(diagnostics)@[i] == old(diagnostics)@[i],
        final(diagnostics)@.last().kind == kind,
        final(diagnostics)@.last().package@ == package@,
        final(diagnostics)@.last().related_package == related_package,
        final(diagnostics)@.last().message == message,
{
    diagnostics.push(
        DependencyGraphDiagnostic { kind, package: package.to_owned(), related_package, message },
    );
}

/// Copies an optional string.
fn clone_opt(o: &Option<String>) -> (r: Option<String>)
    ensures
        crate::deps::query::opt_view(r) == crate::deps::query::opt_view(*o),
{
    match o {
        Some(s) => Some(s.clone()),
        None => None,
    }
}

/// View of an edge.
pub open spec fn edge_view(e: DependencyGraphEdge) -> (Seq<char>, Seq<char>, Seq<char>, Seq<char>) {
    (e.from@, e.to@, e.requested_name@, e.version_req@)
}

/// Views of edges.
pub open spec fn edges_view(v: Seq<DependencyGraphEdge>) -> Seq<(Seq<char>, Seq<char>, Seq<char>, Seq<char>)> {
    v.map_values(|e: DependencyGraphEdge| edge_view(e))
}

/// Adds the edge `parent -> child` (for the requested name and requirement) unless present; a
/// root request (no parent) adds none.
fn add_edge(
    edges: &mut Vec<DependencyGraphEdge>,
    parent: Option<&str>,
    child: &str,
    requested_name: &str,
    version_req: &str,
)
    ensures
        edges_view(final(edges)@) == (match parent {
            None => edges_view(old(edges)@),
            Some(p) => {
                let e = (p@, child@, requested_name@, version_req@);
                if edges_view(old(edges)@).contains(e) {
                    edges_view(old(edges)@)
                } else {
                    edges_view(old(edges)@).push(e)
                }
            },
        }),
{
    let pp = match parent {
        Some(p) => p,
        None => {
            return ;
        },
    };
    let ghost e = (pp@, child@, requested_name@, version_req@);
    let mut i: usize = 0;
    while i < edges.len()
        invariant
            i <= edges@.len(),
            edges@ == old(edges)@,
            parent == Some(pp),
            e == (pp@, child@, requested_name@, version_req@),
            forall|k: int| 0 <= k < i ==> edges_view(edges@)[k] != e,
        decreases edges@.len() - i,
    {
        let x = &edges[i];
        if crate::text::str_eq(x.from.as_str(), pp) && crate::text::str_eq(x.to.as_str(), child)
            && crate::text::str_eq(x.requested_name.as_str(), requested_name)
            && crate::text::str_eq(x.version_req.as_str(), version_req) {
            assert(edges_view(edges@)[i as int] == e);
            assert(edges_view(old(edges)@).contains(e));
            return ;
        }
        i += 1;
    }
    let ghost before = edges_view(edges@);
    edges.push(
        DependencyGraphEdge {
            from: pp.to_owned(),
            to: child.to_owned(),
            requested_name: requested_name.to_owned(),
            version_req: version_req.to_owned(),
        },
    );
    assert(edges_view(edges@) =~= before.push(e));
}

/// Whether names are in strictly increasing lexicographic order.
pub open spec fn strictly_sorted(v: Seq<Seq<char>>) -> bool {
    forall|i: int, j: int|
        0 <= i < j < v.len() ==> crate::text::lex_order(#[trigger] v[i], #[trigger] v[j])
            == Order::Less
}

/// Names of nodes.
pub open spec fn node_names(v: Seq<DependencyGraphNode>) -> Seq<Seq<char>> {
    v.map_values(|n: DependencyGraphNode| n.name@)
}

/// Whether nodes are in strictly increasing order of name (so each name occurs once).
pub open spec fn nodes_sorted(v: Seq<DependencyGraphNode>) -> bool {
    strictly_sorted(node_names(v))
}

/// Whether no node is marked as conflicting.
pub open spec fn no_conflicting(v: Seq<DependencyGraphNode>) -> bool {
    forall|k: int| 0 <= k < v.len() ==> (#[trigger] v[k]).status != DependencyGraphNodeStatus::Conflicting
}

/// Whether every name of `a` is a name of `b`.
pub open spec fn names_grow(a: Seq<DependencyGraphNode>, b: Seq<DependencyGraphNode>) -> bool {
    forall|n: Seq<char>| node_names(a).contains(n) ==> #[trigger] node_names(b).contains(n)
}

/// Lemma: `Less` is transitive.
proof fn lemma_lex_less_trans(a: Seq<char>, b: Seq<char>, c: Seq<char>)
    requires
        crate::text::lex_order(a, b) == Order::Less,
        crate::text::lex_order(b, c) == Order::Less,
    ensures
        crate::text::lex_order(a, c) == Order::Less,
{
    crate::text::lemma_lex_order_trans(a, b, c);
    crate::text::lemma_lex_order_flip(a, b);
    crate::text::lemma_lex_order_flip(b, c);
    crate::text::lemma_lex_order_flip(a, c);
    if a == c {
        crate::text::lemma_lex_order_flip(b, a);
    }
}

/// Lemma: strictly sorted names are distinct.
pub proof fn lemma_sorted_distinct(v: Seq<Seq<char>>)
    requires
        strictly_sorted(v),
    ensures
        v.no_duplicates(),
{
    assert forall|i: int, j: int| 0 <= i < v.len() && 0 <= j < v.len() && i != j implies v[i]
        != v[j] by {
        if i < j {
            crate::text::lemma_lex_order_refl(v[i]);
        } else {
            crate::text::lemma_lex_order_refl(v[j]);
        }
    }
}

/// Lemma: inserting `x` between the names below it and those above it keeps the order.
proof fn lemma_sorted_insert(v: Seq<Seq<char>>, k: int, x: Seq<char>)
    requires
        strictly_sorted(v),
        0 <= k <= v.len(),
        forall|a: int| 0 <= a < k ==> crate::text::lex_order(#[trigger] v[a], x) == Order::Less,
        k < v.len() ==> crate::text::lex_order(x, v[k]) == Order::Less,
    ensures
        strictly_sorted(v.insert(k, x)),
{
    let w = v.insert(k, x);
    assert forall|i: int, j: int| 0 <= i < j < w.len() implies crate::text::lex_order(
        #[trigger] w[i],
        #[trigger] w[j],
    ) == Order::Less by {
        if j < k {
            assert(w[i] == v[i] && w[j] == v[j]);
        } else if j == k {
            assert(w[i] == v[i]);
        } else if i < k {
            assert(w[i] == v[i] && w[j] == v[j - 1]);
        } else if i == k {
            assert(w[j] == v[j - 1]);
            if j - 1 > k {
                lemma_lex_less_trans(x, v[k], v[j - 1]);
            }
        } else {
            assert(w[i] == v[i - 1] && w[j] == v[j - 1]);
        }
    }
}

/// Lemma: the names of `v` with a node inserted.
proof fn lemma_names_insert(v: Seq<DependencyGraphNode>, k: int, x: DependencyGraphNode)
    requires
        0 <= k <= v.len(),
    ensures
        node_names(v.insert(k, x)) == node_names(v).insert(k, x.name@),
        forall|n: Seq<char>| #[trigger] node_names(v.insert(k, x)).contains(n) <==> (node_names(v).contains(n)
            || n == x.name@),
{
    let a = node_names(v.insert(k, x));
    let b = node_names(v).insert(k, x.name@);
    assert(a =~= b);
    assert forall|n: Seq<char>| #[trigger] a.contains(n) <==> (node_names(v).contains(n) || n == x.name@) by {
        if a.contains(n) {
            let i = choose|i: int| 0 <= i < a.len() && a[i] == n;
            if i < k {
                assert(node_names(v)[i] == n);
            } else if i > k {
                assert(node_names(v)[i - 1] == n);
            }
        }
        if node_names(v).contains(n) {
            let i = choose|i: int| 0 <= i < node_names(v).len() && node_names(v)[i] == n;
            if i < k {
                assert(a[i] == n);
            } else {
                assert(a[i + 1] == n);
            }
        }
        if n == x.name@ {
            assert(a[k] == n);
        }
    }
}

/// Index of the node named `name`.
fn node_index(nodes: &Vec<DependencyGraphNode>, name: &str) -> (r: Option<usize>)
    ensures
        match r {
            Some(i) => i < nodes@.len() && nodes@[i as int].name@ == name@,
            None => !node_names(nodes@).contains(name@),
        },
{
    let mut i: usize = 0;
    while i < nodes.len()
        invariant
            i <= nodes@.len(),
            forall|k: int| 0 <= k < i ==> nodes@[k].name@ != name@,
        decreases nodes@.len() - i,
    {
        if crate::text::str_eq(nodes[i].name.as_str(), name) {
            return Some(i);
        }
        i += 1;
    }
    None
}

/// Position of the first node whose name is above `name`.
fn node_position(nodes: &Vec<DependencyGraphNode>, name: &str) -> (k: usize)
    requires
        nodes_sorted(nodes@),
        !node_names(nodes@).contains(name@),
    ensures
        k <= nodes@.len(),
        forall|a: int| 0 <= a < k ==> crate::text::lex_order(#[trigger] node_names(nodes@)[a], name@)
            == Order::Less,
        k < nodes@.len() ==> crate::text::lex_order(name@, node_names(nodes@)[k as int])
            == Order::Less,
{
    let nc = to_chars(name);
    let mut k: usize = 0;
    while k < nodes.len()
        invariant
            k <= nodes@.len(),
            nc@ == name@,
            !node_names(nodes@).contains(name@),
            forall|a: int| 0 <= a < k ==> crate::text::lex_order(#[trigger] node_names(nodes@)[a], name@)
                == Order::Less,
        decreases nodes@.len() - k,
    {
        let c = to_chars(nodes[k].name.as_str());
        let o = crate::text::lex_order_chars(c.as_slice(), nc.as_slice());
        proof {
            crate::text::lemma_lex_order_flip(node_names(nodes@)[k as int], name@);
            crate::text::lemma_lex_order_flip(name@, node_names(nodes@)[k as int]);
            assert(node_names(nodes@)[k as int] == nodes@[k as int].name@);
        }
        if o != Order::Less {
            assert(node_names(nodes@)[k as int] != name@);
            return k;
        }
        k += 1;
    }
    k
}

/// Inserts a node unless one of that name exists, keeping the nodes in order of name; refuses a
/// new node beyond the node limit (with a diagnostic). Tells whether the node exists afterwards.
fn insert_node_if_allowed(
    node: DependencyGraphNode,
    nodes: &mut Vec<DependencyGraphNode>,
    config: &DependencyGraphConfig,
    diagnostics: &mut Vec<DependencyGraphDiagnostic>,
) -> (r: bool)
    requires
        nodes_sorted(old(nodes)@),
        old(nodes)@.len() <= config.max_nodes,
    ensures
        nodes_sorted(final(nodes)@),
        final(nodes)@.len() <= config.max_nodes,
        r == (node_names(old(nodes)@).contains(node.name@) || old(nodes)@.len() < config.max_nodes),
        r ==> node_names(final(nodes)@).contains(node.name@),
        names_grow(old(nodes)@, final(nodes)@),
        forall|n: Seq<char>| #[trigger] node_names(final(nodes)@).contains(n) ==> node_names(old(nodes)@).contains(n)
            || n == node.name@,
        no_conflicting(old(nodes)@) && node.status != DependencyGraphNodeStatus::Conflicting
            ==> no_conflicting(final(nodes)@),
        !r || node_names(old(nodes)@).contains(node.name@) ==> final(nodes)@ == old(nodes)@,
        r && !node_names(old(nodes)@).contains(node.name@) ==> exists|k: int|
            0 <= k <= old(nodes)@.len() && final(nodes)@ == old(nodes)@.insert(k, node),
        r ==> final(diagnostics)@ == old(diagnostics)@,
        !r ==> final(diagnostics)@.len() == old(diagnostics)@.len() + 1 && final(diagnostics)@.drop_last()
            == old(diagnostics)@ && final(diagnostics)@.last().kind == DependencyGraphDiagnosticKind::NodeLimit
            && final(diagnostics)@.last().package@ == node.name@,
{
    match node_index(nodes, node.name.as_str()) {
        Some(i) => {
            assert(node_names(nodes@)[i as int] == node.name@);
            return true;
        },
        None => {},
    }
    if nodes.len() >= config.max_nodes {
        let mut msg = to_chars("dependency graph node limit (");
        let d = crate::error::decimal_chars(config.max_nodes as u64);
        crate::text::extend_chars(&mut msg, d.as_slice());
        let tail = to_chars(") reached");
        crate::text::extend_chars(&mut msg, tail.as_slice());
        push_diagnostic(
            diagnostics,
            DependencyGraphDiagnosticKind::NodeLimit,
            node.name.as_str(),
            None,
            crate::text::chars_to_string(msg.as_slice()),
        );
        assert(diagnostics@.drop_last() =~= old(diagnostics)@);
        return false;
    }
    let ghost before = nodes@;
    let ghost nm = node.name@;
    let k = node_position(nodes, node.name.as_str());
    let ghost nd = node;
    proof {
        lemma_names_insert(before, k as int, node);
        lemma_sorted_insert(node_names(before), k as int, nm);
    }
    nodes.insert(k, node);
    proof {
        if no_conflicting(before) && nd.status != DependencyGraphNodeStatus::Conflicting {
            assert forall|a: int| 0 <= a < nodes@.len() implies (#[trigger] nodes@[a]).status
                != DependencyGraphNodeStatus::Conflicting by {
                if a < k {
                    assert(nodes@[a] == before[a]);
                } else if a > k {
                    assert(nodes@[a] == before[a - 1]);
                }
            }
        }
    }
    true
}

} // verus!

verus! {

/// Full version of `.SRCINFO` metadata, `epoch:pkgver-pkgrel` (epoch and release only when
/// declared), or none without `pkgver`.
pub open spec fn version_text(epoch: Seq<char>, pkgver: Seq<char>, pkgrel: Seq<char>) -> Option<Seq<char>> {
    if pkgver.len() == 0 {
        None
    } else {
        Some(
            (if epoch.len() > 0 {
                epoch + ":"@
            } else {
                seq![]
            }) + pkgver + (if pkgrel.len() > 0 {
                "-"@ + pkgrel
            } else {
                seq![]
            }),
        )
    }
}

/// Full version of `.SRCINFO` metadata.
fn srcinfo_version(data: &crate::deps::srcinfo::GraphSrcinfoData) -> (r: Option<String>)
    ensures
        crate::deps::query::opt_view(r) == version_text(data.epoch@, data.pkgver@, data.pkgrel@),
{
    if data.pkgver.as_str().is_empty() {
        return None;
    }
    let mut v: Vec<char> = Vec::new();
    if !data.epoch.as_str().is_empty() {
        let e = to_chars(data.epoch.as_str());
        crate::text::extend_chars(&mut v, e.as_slice());
        v.push(':');
    }
    let p = to_chars(data.pkgver.as_str());
    crate::text::extend_chars(&mut v, p.as_slice());
    if !data.pkgrel.as_str().is_empty() {
        v.push('-');
        let r = to_chars(data.pkgrel.as_str());
        crate::text::extend_chars(&mut v, r.as_slice());
    }
    proof {
        reveal_strlit(":");
        reveal_strlit("-");
    }
    assert(v@ =~= version_text(data.epoch@, data.pkgver@, data.pkgrel@)->0);
    Some(crate::text::chars_to_string(v.as_slice()))
}

/// Whether a provided name `p` (with optional `=version`) answers the name `name` with
/// requirement `req`: same name, and either no requirement or a provided version satisfying
/// it.
pub open spec fn provide_answers(p: Seq<char>, name: Seq<char>, req: Seq<char>) -> bool {
    let (pn, pq) = crate::deps::parse::dep_spec_parts(p);
    pn == name && (req.len() == 0 || match crate::deps::version::strip_prefix(pq, "="@) {
        Some(v) => crate::deps::version::satisfies(v, req),
        None => false,
    })
}

/// Whether some provided name answers `name` with requirement `req`.
fn provides_answer(provides: &Vec<String>, name: &str, req: &str) -> (r: bool)
    ensures
        r == exists|i: int|
            0 <= i < provides@.len() && provide_answers(#[trigger] provides@[i]@, name@, req@),
{
    let mut i: usize = 0;
    while i < provides.len()
        invariant
            i <= provides@.len(),
            forall|k: int| 0 <= k < i ==> !provide_answers(#[trigger] provides@[k]@, name@, req@),
        decreases provides@.len() - i,
    {
        let pc = to_chars(provides[i].as_str());
        let (pn, pq) = dep_spec_chars(pc.as_slice());
        let nm = crate::text::chars_eq_str(pn.as_slice(), name);
        let ok = nm && (req.is_empty() || match crate::deps::version::strip_prefix_chars(
            pq.as_slice(),
            "=",
        ) {
            Some(v) => {
                let rc = to_chars(req);
                crate::deps::version::satisfies_chars(v.as_slice(), rc.as_slice())
            },
            None => false,
        });
        if ok {
            assert(provide_answers(provides@[i as int]@, name@, req@));
            return true;
        }
        i += 1;
    }
    false
}

/// Whether a package output's provides verify the virtual request `requested_name` with
/// requirement `version_req`.
fn provider_satisfies_request(
    package: &crate::deps::srcinfo::SrcinfoPackage,
    requested_name: &str,
    version_req: &str,
) -> (r: bool)
    ensures
        r == exists|i: int|
            0 <= i < package.provides@.len() && provide_answers(
                #[trigger] package.provides@[i]@,
                requested_name@,
                version_req@,
            ),
{
    provides_answer(&package.provides, requested_name, version_req)
}

/// Whether a declared conflict matches a node: the node itself (with no requirement, or a
/// known version satisfying it), or one of the names it provides.
pub open spec fn conflict_matches(conflict: Seq<char>, name: Seq<char>, version: Option<Seq<char>>, provides: Seq<Seq<char>>) -> bool {
    let (cn, cq) = crate::deps::parse::dep_spec_parts(conflict);
    if cn.len() == 0 {
        false
    } else if name == cn {
        cq.len() == 0 || match version {
            Some(v) => crate::deps::version::satisfies(v, cq),
            None => false,
        }
    } else {
        exists|i: int| 0 <= i < provides.len() && provide_answers(#[trigger] provides[i], cn, cq)
    }
}

/// Whether a declared conflict matches the node `candidate`.
fn conflict_matches_node(conflict: &str, candidate: &DependencyGraphNode) -> (r: bool)
    ensures
        r == conflict_matches(
            conflict@,
            candidate.name@,
            crate::deps::query::opt_view(candidate.version),
            crate::text::sv(candidate.provides@),
        ),
{
    let cc = to_chars(conflict);
    let (cn, cq) = dep_spec_chars(cc.as_slice());
    if cn.len() == 0 {
        return false;
    }
    let nc = to_chars(candidate.name.as_str());
    if crate::text::chars_eq(nc.as_slice(), cn.as_slice()) {
        if cq.len() == 0 {
            return true;
        }
        return match &candidate.version {
            Some(v) => {
                let vc = to_chars(v.as_str());
                crate::deps::version::satisfies_chars(vc.as_slice(), cq.as_slice())
            },
            None => false,
        };
    }
    let cns = crate::text::chars_to_string(cn.as_slice());
    let cqs = crate::text::chars_to_string(cq.as_slice());
    let r = provides_answer(&candidate.provides, cns.as_str(), cqs.as_str());
    proof {
        let pv = crate::text::sv(candidate.provides@);
        assert forall|i: int| 0 <= i < pv.len() implies (provide_answers(#[trigger] pv[i], cn@, cq@)
            == provide_answers(candidate.provides@[i]@, cns@, cqs@)) by {}
        if r {
            let i = choose|i: int|
                0 <= i < candidate.provides@.len() && provide_answers(
                    #[trigger] candidate.provides@[i]@,
                    cns@,
                    cqs@,
                );
            assert(provide_answers(pv[i], cn@, cq@));
        }
    }
    r
}

/// The target of an optional dependency: the trimmed text after `:`, or the whole entry.
pub open spec fn opt_target(d: Seq<char>) -> Seq<char> {
    match crate::text::split_once(d, ':') {
        Some((_, t)) => crate::text::trim(t),
        None => d,
    }
}

/// Dependencies followed from a package output: its runtime dependencies, and when included
/// its optional (their targets), build and check dependencies, sorted, each once.
pub open spec fn selected_deps(
    p: crate::deps::srcinfo::SrcinfoPackage,
    opt: bool,
    make: bool,
    check: bool,
) -> Seq<Seq<char>> {
    let all = crate::text::sv(p.depends@) + (if opt {
        crate::text::sv(p.optdepends@).map_values(|d: Seq<char>| opt_target(d))
    } else {
        seq![]
    }) + (if make {
        crate::text::sv(p.makedepends@)
    } else {
        seq![]
    }) + (if check {
        crate::text::sv(p.checkdepends@)
    } else {
        seq![]
    });
    crate::text::dedup(all.sort_by(crate::text::lex_leq()))
}

/// Appends character vectors of strings mapped by `f`.
fn push_strings(out: &mut Vec<Vec<char>>, v: &Vec<String>, targets: bool)
    ensures
        crate::text::vv(final(out)@) == crate::text::vv(old(out)@) + (if targets {
            crate::text::sv(v@).map_values(|d: Seq<char>| opt_target(d))
        } else {
            crate::text::sv(v@)
        }),
{
    let ghost add = if targets {
        crate::text::sv(v@).map_values(|d: Seq<char>| opt_target(d))
    } else {
        crate::text::sv(v@)
    };
    let ghost base = crate::text::vv(out@);
    let mut i: usize = 0;
    while i < v.len()
        invariant
            i <= v@.len(),
            add == (if targets {
                crate::text::sv(v@).map_values(|d: Seq<char>| opt_target(d))
            } else {
                crate::text::sv(v@)
            }),
            crate::text::vv(out@) == base + add.take(i as int),
        decreases v@.len() - i,
    {
        let c = to_chars(v[i].as_str());
        let item = if targets {
            match crate::text::split_once_chars(c.as_slice(), ':') {
                Some((_, t)) => crate::text::trim_chars(t.as_slice()),
                None => c,
            }
        } else {
            c
        };
        assert(item@ == add[i as int]);
        let ghost before = crate::text::vv(out@);
        out.push(item);
        assert(crate::text::vv(out@) =~= before.push(add[i as int]));
        assert(add.take(i + 1) =~= add.take(i as int).push(add[i as int]));
        i += 1;
    }
    assert(add.take(v@.len() as int) =~= add);
}

/// Dependencies followed from a package output.
fn selected_dependencies(
    package: &crate::deps::srcinfo::SrcinfoPackage,
    include_optdepends: bool,
    include_makedepends: bool,
    include_checkdepends: bool,
) -> (r: Vec<String>)
    ensures
        crate::text::sv(r@) == selected_deps(
            *package,
            include_optdepends,
            include_makedepends,
            include_checkdepends,
        ),
{
    let mut all: Vec<Vec<char>> = Vec::new();
    assert(crate::text::vv(all@) =~= Seq::<Seq<char>>::empty());
    push_strings(&mut all, &package.depends, false);
    if include_optdepends {
        push_strings(&mut all, &package.optdepends, true);
    }
    let ghost a1 = crate::text::vv(all@);
    if include_makedepends {
        push_strings(&mut all, &package.makedepends, false);
    }
    let ghost a2 = crate::text::vv(all@);
    if include_checkdepends {
        push_strings(&mut all, &package.checkdepends, false);
    }
    proof {
        let p = *package;
        let spec_all = crate::text::sv(p.depends@) + (if include_optdepends {
            crate::text::sv(p.optdepends@).map_values(|d: Seq<char>| opt_target(d))
        } else {
            seq![]
        }) + (if include_makedepends {
            crate::text::sv(p.makedepends@)
        } else {
            seq![]
        }) + (if include_checkdepends {
            crate::text::sv(p.checkdepends@)
        } else {
            seq![]
        });
        assert(crate::text::vv(all@) =~= spec_all);
    }
    let sorted = crate::text::sort_chars_vec(&all);
    let out = crate::deps::parse::dedup_chars(&sorted);
    crate::text::to_strings(&out)
}

/// A node for a name whose metadata is unavailable (no provenance is invented).
fn missing_node(name: &str, depth: usize, source: Option<crate::types::DependencySource>) -> (r:
    DependencyGraphNode)
    ensures
        r.name@ == name@,
        r.pkgbase is None,
        r.version is None,
        r.provenance.requested_name@ == name@,
        r.provenance.source == source,
        r.provenance.provider is None,
        r.status == DependencyGraphNodeStatus::Missing,
        r.constraints.lower is None && r.constraints.upper is None,
        r.provides@.len() == 0,
        r.conflicts@.len() == 0,
        r.depth == depth,
{
    DependencyGraphNode {
        name: name.to_owned(),
        pkgbase: None,
        version: None,
        provenance: DependencyProvenance { requested_name: name.to_owned(), source, provider: None },
        status: DependencyGraphNodeStatus::Missing,
        constraints: DependencyConstraintRange::default(),
        provides: Vec::new(),
        conflicts: Vec::new(),
        depth,
    }
}

/// Diagnostic for a requirement merged into a node's constraints, if any: a requirement without
/// a supported operator and version is malformed; one with no compatible intersection is
/// incompatible.
pub open spec fn requirement_diag(
    name: Seq<char>,
    constraints: DependencyConstraintRange,
    requirement: Seq<char>,
    parent: Option<Seq<char>>,
) -> Option<(DependencyGraphDiagnosticKind, Seq<char>, Option<Seq<char>>, Seq<char>)> {
    if !well_formed_requirement(requirement) {
        Some(
            (
                DependencyGraphDiagnosticKind::MalformedConstraint,
                name,
                parent,
                "requirement '"@ + requirement + "' has no supported operator and version"@,
            ),
        )
    } else if intersect(bound_view(constraints.lower), bound_view(constraints.upper), requirement) is None {
        Some(
            (
                DependencyGraphDiagnosticKind::IncompatibleConstraints,
                name,
                parent,
                "requirement '"@ + requirement + "' has no compatible intersection"@,
            ),
        )
    } else {
        None
    }
}

/// Narrows a node's versions by a requirement from `parent`; a malformed requirement or one
/// that leaves no version only adds a diagnostic.
fn merge_node_requirement(
    node: &mut DependencyGraphNode,
    requirement: &str,
    parent: Option<&str>,
    diagnostics: &mut Vec<DependencyGraphDiagnostic>,
)
    ensures
        final(node).name == old(node).name,
        final(node).status == old(node).status,
        final(node).depth == old(node).depth,
        final(node).provides == old(node).provides,
        final(node).conflicts == old(node).conflicts,
        final(node).version == old(node).version,
        final(node).pkgbase == old(node).pkgbase,
        final(node).provenance == old(node).provenance,
        match intersect(
            bound_view(old(node).constraints.lower),
            bound_view(old(node).constraints.upper),
            requirement@,
        ) {
            Some((lo, up)) => well_formed_requirement(requirement@) && bound_view(
                final(node).constraints.lower,
            ) == lo && bound_view(final(node).constraints.upper) == up,
            None => final(node).constraints == old(node).constraints,
        },
        match requirement_diag(
            old(node).name@,
            old(node).constraints,
            requirement@,
            match parent {
                Some(p) => Some(p@),
                None => None,
            },
        ) {
            None => final(diagnostics)@ == old(diagnostics)@,
            Some(d) => final(diagnostics)@.len() == old(diagnostics)@.len() + 1 && final(diagnostics)@.drop_last()
                == old(diagnostics)@ && diag_view(final(diagnostics)@.last()) == d,
        },
{
    if !requirement_is_well_formed(requirement) {
        let mut msg = to_chars("requirement '");
        let rc = to_chars(requirement);
        crate::text::extend_chars(&mut msg, rc.as_slice());
        let tail = to_chars("' has no supported operator and version");
        crate::text::extend_chars(&mut msg, tail.as_slice());
        let related = match parent {
            Some(p) => Some(p.to_owned()),
            None => None,
        };
        push_diagnostic(
            diagnostics,
            DependencyGraphDiagnosticKind::MalformedConstraint,
            node.name.as_str(),
            related,
            crate::text::chars_to_string(msg.as_slice()),
        );
        assert(diagnostics@.drop_last() =~= old(diagnostics)@);
        return ;
    }
    match intersect_requirement(&node.constraints, requirement) {
        Some(range) => {
            node.constraints = range;
        },
        None => {
            let mut msg = to_chars("requirement '");
            let rc = to_chars(requirement);
            crate::text::extend_chars(&mut msg, rc.as_slice());
            let tail = to_chars("' has no compatible intersection");
            crate::text::extend_chars(&mut msg, tail.as_slice());
            let related = match parent {
                Some(p) => Some(p.to_owned()),
                None => None,
            };
            push_diagnostic(
                diagnostics,
                DependencyGraphDiagnosticKind::IncompatibleConstraints,
                node.name.as_str(),
                related,
                crate::text::chars_to_string(msg.as_slice()),
            );
            assert(diagnostics@.drop_last() =~= old(diagnostics)@);
        },
    }
}

} // verus!

verus! {

// ---------------------------------------------------------------------------------------------
// Resolution
// ---------------------------------------------------------------------------------------------

/// Declares `std::time::Instant` to the verifier; its contents stay opaque.
#[verifier::external_type_specification]
#[verifier::external_body]
pub struct ExInstant(std::time::Instant);

/// The current instant (`Instant::now`).
#[verifier::external_body]
pub(crate) fn instant_now() -> std::time::Instant {
    std::time::Instant::now()
}

/// Whether more than `limit` has passed since `start` (`Instant::elapsed`).
#[verifier::external_body]
fn elapsed_exceeds(start: &std::time::Instant, limit: &Duration) -> bool {
    start.elapsed() > *limit
}

/// `Debug` text of a duration.
pub uninterp spec fn duration_debug(d: Duration) -> Seq<char>;

/// `Debug` text of a duration (`format!("{:?}")`).
#[verifier::external_body]
fn duration_text(d: &Duration) -> (r: String)
    ensures
        r@ == duration_debug(*d),
{
    format!("{d:?}")
}

/// A dependency request waiting to be resolved.
#[derive(Clone, Debug)]
struct PendingRequest {
    /// Selected parent package, `None` for a root.
    parent: Option<String>,
    /// Requested package or virtual name.
    requested_name: String,
    /// Requested version requirement.
    version_req: String,
    /// Edge depth from a root.
    depth: usize,
    /// Selected packages on the path from the root.
    path: Vec<String>,
}

/// Texts by which requests of one depth are ordered: requested name, parent marked with `+`
/// (empty for a root, so roots come first), requirement.
spec fn pending_texts(p: PendingRequest) -> Seq<Seq<char>> {
    seq![
        p.requested_name@,
        match p.parent {
            Some(x) => "+"@ + x@,
            None => Seq::<char>::empty(),
        },
        p.version_req@,
    ]
}

/// Sort key of a request: depth, then requested name, parent (none first), requirement.
fn pending_key(p: &PendingRequest) -> (k: (usize, Vec<Vec<char>>))
    ensures
        k.0 == p.depth,
        crate::text::vv(k.1@) == pending_texts(*p),
{
    let mut parts: Vec<Vec<char>> = Vec::new();
    parts.push(to_chars(p.requested_name.as_str()));
    let parent = match &p.parent {
        Some(x) => {
            let mut v = to_chars("+");
            let xc = to_chars(x.as_str());
            crate::text::extend_chars(&mut v, xc.as_slice());
            v
        },
        None => Vec::new(),
    };
    parts.push(parent);
    parts.push(to_chars(p.version_req.as_str()));
    assert(crate::text::vv(parts@) =~= pending_texts(*p));
    (p.depth, parts)
}

/// Requests in breadth-first lexical order: by depth, then by their texts.
fn sort_pending(v: Vec<PendingRequest>) -> (r: Vec<PendingRequest>)
    ensures
        r@.len() == v@.len(),
        forall|i: int, j: int|
            0 <= i < j < r@.len() ==> crate::text::key_order(
                (#[trigger] r@[i]).depth_key(),
                (#[trigger] r@[j]).depth_key(),
            ) != Order::Greater,
        forall|i: int| 0 <= i < r@.len() ==> v@.contains(#[trigger] r@[i]),
{
    let ghost orig = v@;
    let mut keyed: Vec<((usize, Vec<Vec<char>>), PendingRequest)> = Vec::new();
    let mut rest = v;
    while rest.len() > 0
        invariant
            keyed@.len() + rest@.len() == orig.len(),
            rest@ == orig.skip(keyed@.len() as int),
            forall|k: int|
                0 <= k < keyed@.len() ==> (#[trigger] keyed@[k]).1 == orig[k] && crate::text::ckey(
                    keyed@[k],
                ) == orig[k].depth_key(),
        decreases rest@.len(),
    {
        let ghost i = keyed@.len();
        let x = rest.remove(0);
        assert(x == orig[i as int]);
        let key = pending_key(&x);
        keyed.push((key, x));
        assert(rest@ =~= orig.skip(i as int + 1));
    }
    let (out, Ghost(ks), Ghost(idx)) = sort_keyed(keyed);
    proof {
        assert forall|i: int| 0 <= i < out@.len() implies orig.contains(#[trigger] out@[i]) && ks[i]
            == out@[i].depth_key() by {
            let a = idx[i];
            assert(orig[a] == out@[i]);
        }
        assert forall|i: int, j: int| 0 <= i < j < out@.len() implies crate::text::key_order(
            (#[trigger] out@[i]).depth_key(),
            (#[trigger] out@[j]).depth_key(),
        ) != Order::Greater by {
            assert(crate::text::key_order(ks[i], ks[j]) != Order::Greater);
            assert(ks[i] == out@[i].depth_key());
            assert(ks[j] == out@[j].depth_key());
        }
    }
    out
}

impl PendingRequest {
    /// Depth and texts, the order in which requests are served.
    spec fn depth_key(self) -> (usize, Seq<Seq<char>>) {
        (self.depth, pending_texts(self))
    }
}

/// Sum of remembered expansion depths.
pub open spec fn memo_sum(m: Seq<(Seq<char>, usize)>) -> int
    decreases m.len(),
{
    if m.len() == 0 {
        0
    } else {
        memo_sum(m.drop_last()) + m.last().1
    }
}

/// Lemma: the sum after replacing one depth.
proof fn lemma_memo_sum_update(m: Seq<(Seq<char>, usize)>, i: int, e: (Seq<char>, usize))
    requires
        0 <= i < m.len(),
    ensures
        memo_sum(m.update(i, e)) == memo_sum(m) - m[i].1 + e.1,
    decreases m.len(),
{
    if i == m.len() - 1 {
        assert(m.update(i, e).drop_last() =~= m.drop_last());
    } else {
        lemma_memo_sum_update(m.drop_last(), i, e);
        assert(m.update(i, e).drop_last() =~= m.drop_last().update(i, e));
    }
}

/// Lemma: remembered depths are not negative.
proof fn lemma_memo_sum_nonneg(m: Seq<(Seq<char>, usize)>)
    ensures
        memo_sum(m) >= 0,
    decreases m.len(),
{
    if m.len() > 0 {
        lemma_memo_sum_nonneg(m.drop_last());
    }
}

/// Work left to the walk: each remembered package can still be expanded at each shallower
/// depth, and each package not yet expanded at every depth up to the limit.
pub open spec fn budget(m: Seq<(Seq<char>, usize)>, max_nodes: usize, max_depth: usize) -> int {
    memo_sum(m) + (max_nodes - m.len()) * (max_depth + 1)
}

/// Invariant of the walk: distinct nodes within the node limit; the memo names distinct
/// nodes, each expanded within the depth limit.
pub open spec fn walk_wf(
    nodes: Seq<DependencyGraphNode>,
    memo: Seq<(Seq<char>, usize)>,
    config: DependencyGraphConfig,
) -> bool {
    &&& nodes_sorted(nodes)
    &&& nodes.len() <= config.max_nodes
    &&& forall|i: int, j: int| 0 <= i < j < memo.len() ==> (#[trigger] memo[i]).0 != (#[trigger] memo[j]).0
    &&& forall|i: int| 0 <= i < memo.len() ==> node_names(nodes).contains(#[trigger] memo[i].0)
    &&& forall|i: int| 0 <= i < memo.len() ==> (#[trigger] memo[i]).1 <= config.max_depth
}

/// Lemma: the memo holds at most as many packages as the node limit.
proof fn lemma_memo_len(
    nodes: Seq<DependencyGraphNode>,
    memo: Seq<(Seq<char>, usize)>,
    config: DependencyGraphConfig,
)
    requires
        walk_wf(nodes, memo, config),
    ensures
        memo.len() <= config.max_nodes,
        budget(memo, config.max_nodes, config.max_depth) >= 0,
{
    let ks = memo.map_values(|e: (Seq<char>, usize)| e.0);
    let ns = node_names(nodes);
    assert(ks.no_duplicates()) by {
        assert forall|i: int, j: int| 0 <= i < ks.len() && 0 <= j < ks.len() && i != j implies ks[i]
            != ks[j] by {
            if i < j {
                assert(memo[i].0 != memo[j].0);
            } else {
                assert(memo[j].0 != memo[i].0);
            }
        }
    }
    assert forall|i: int| 0 <= i < ks.len() implies ns.contains(#[trigger] ks[i]) by {
        assert(ns.contains(memo[i].0));
    }
    lemma_sorted_distinct(ns);
    lemma_distinct_subset_len(ks, ns);
    ns.unique_seq_to_set();
    ns.lemma_cardinality_of_set();
    lemma_memo_sum_nonneg(memo);
    assert((config.max_nodes - memo.len()) * (config.max_depth + 1) >= 0) by (nonlinear_arith)
        requires
            config.max_nodes - memo.len() >= 0,
            config.max_depth + 1 > 0,
    ;
}

/// Lemma: distinct elements of `u` are at most as many as the elements of `u`.
proof fn lemma_distinct_subset_len(a: Seq<Seq<char>>, u: Seq<Seq<char>>)
    requires
        a.no_duplicates(),
        forall|i: int| 0 <= i < a.len() ==> u.contains(#[trigger] a[i]),
    ensures
        a.len() <= u.len(),
{
    a.unique_seq_to_set();
    u.lemma_cardinality_of_set();
    assert(a.to_set().subset_of(u.to_set()));
    vstd::seq_lib::seq_to_set_is_finite(u);
    vstd::set_lib::lemma_len_subset(a.to_set(), u.to_set());
}

/// A response as plain values: variant (found 0, missing 1, failed 2), requested name, then the
/// selected package output, `.SRCINFO` text and source of found metadata, or the reason.
pub open spec fn response_view(r: DependencyMetadataResponse) -> (int, Seq<char>, Seq<char>, Seq<
    char,
>, (int, Seq<char>)) {
    match r {
        DependencyMetadataResponse::Found(m) => (
            0,
            m.requested_name@,
            m.package_name@,
            m.srcinfo@,
            crate::deps::source::source_view(m.source),
        ),
        DependencyMetadataResponse::Missing { requested_name, reason } => (
            1,
            requested_name@,
            reason@,
            Seq::empty(),
            (0, Seq::empty()),
        ),
        DependencyMetadataResponse::Failure { requested_name, message } => (
            2,
            requested_name@,
            message@,
            Seq::empty(),
            (0, Seq::empty()),
        ),
    }
}

/// Copies a response.
fn copy_response(r: &DependencyMetadataResponse) -> (c: DependencyMetadataResponse)
    ensures
        response_view(c) == response_view(*r),
{
    match r {
        DependencyMetadataResponse::Found(m) => DependencyMetadataResponse::Found(
            DependencyMetadata {
                requested_name: m.requested_name.clone(),
                package_name: m.package_name.clone(),
                source: crate::deps::resolve::clone_source(&m.source),
                srcinfo: m.srcinfo.clone(),
            },
        ),
        DependencyMetadataResponse::Missing { requested_name, reason } => DependencyMetadataResponse::Missing {
            requested_name: requested_name.clone(),
            reason: reason.clone(),
        },
        DependencyMetadataResponse::Failure { requested_name, message } => DependencyMetadataResponse::Failure {
            requested_name: requested_name.clone(),
            message: message.clone(),
        },
    }
}

/// The response cache with its names as views.
pub open spec fn cache_view(c: Seq<(String, DependencyMetadataResponse)>) -> Seq<
    (Seq<char>, DependencyMetadataResponse),
> {
    c.map_values(|e: (String, DependencyMetadataResponse)| (e.0@, e.1))
}

/// Response cached for `name`.
pub open spec fn cached(c: Seq<(String, DependencyMetadataResponse)>, name: Seq<char>) -> Option<
    DependencyMetadataResponse,
> {
    memo_get(cache_view(c), name, 0)
}

/// A copy of the response cached for `name`.
fn cache_get(cache: &Vec<(String, DependencyMetadataResponse)>, name: &str) -> (r: Option<
    DependencyMetadataResponse,
>)
    ensures
        match (r, cached(cache@, name@)) {
            (Some(x), Some(y)) => response_view(x) == response_view(y),
            (None, None) => true,
            _ => false,
        },
{
    let ghost m = cache_view(cache@);
    let mut i: usize = 0;
    while i < cache.len()
        invariant
            i <= cache@.len(),
            m == cache_view(cache@),
            forall|x: int| 0 <= x < i ==> m[x].0 != name@,
        decreases cache@.len() - i,
    {
        if crate::text::str_eq(cache[i].0.as_str(), name) {
            proof {
                lemma_memo_skip(m, name@, 0, i as int);
            }
            return Some(copy_response(&cache[i].1));
        }
        i += 1;
    }
    proof {
        lemma_memo_skip(m, name@, 0, m.len() as int);
    }
    None
}

/// Whether the cache holds `name`.
fn cache_has(cache: &Vec<(String, DependencyMetadataResponse)>, name: &str) -> (r: bool)
    ensures
        r == cached(cache@, name@) is Some,
{
    let ghost m = cache_view(cache@);
    let mut i: usize = 0;
    while i < cache.len()
        invariant
            i <= cache@.len(),
            m == cache_view(cache@),
            forall|x: int| 0 <= x < i ==> m[x].0 != name@,
        decreases cache@.len() - i,
    {
        if crate::text::str_eq(cache[i].0.as_str(), name) {
            proof {
                lemma_memo_skip(m, name@, 0, i as int);
            }
            return true;
        }
        i += 1;
    }
    proof {
        lemma_memo_skip(m, name@, 0, m.len() as int);
    }
    false
}

/// Stores a response under `name`, replacing a stored one.
fn cache_set(cache: &mut Vec<(String, DependencyMetadataResponse)>, name: &str, response: DependencyMetadataResponse)
    ensures
        cached(final(cache)@, name@) == Some(response),
        forall|q: Seq<char>| q != name@ ==> cached(final(cache)@, q) == cached(old(cache)@, q),
{
    let ghost m = cache_view(cache@);
    let mut i: usize = 0;
    while i < cache.len()
        invariant
            i <= cache@.len(),
            m == cache_view(cache@),
            cache@ == old(cache)@,
            forall|x: int| 0 <= x < i ==> m[x].0 != name@,
        decreases cache@.len() - i,
    {
        if crate::text::str_eq(cache[i].0.as_str(), name) {
            let ghost r = response;
            cache.set(i, (name.to_owned(), response));
            proof {
                lemma_memo_update(m, i as int, name@, r);
                assert(cache_view(cache@) =~= m.update(i as int, (name@, r)));
            }
            return ;
        }
        i += 1;
    }
    let ghost r = response;
    cache.push((name.to_owned(), response));
    proof {
        lemma_memo_push(m, name@, r);
        assert(cache_view(cache@) =~= m.push((name@, r)));
    }
}

/// Responses keyed by their requested names.
pub open spec fn named(rs: Seq<DependencyMetadataResponse>) -> Seq<(Seq<char>, DependencyMetadataResponse)> {
    rs.map_values(|r: DependencyMetadataResponse| (response_name(r), r))
}

/// View of the response cached for `name`.
pub open spec fn cached_view(c: Seq<(String, DependencyMetadataResponse)>, name: Seq<char>) -> Option<
    (int, Seq<char>, Seq<char>, Seq<char>, (int, Seq<char>)),
> {
    match cached(c, name) {
        Some(x) => Some(response_view(x)),
        None => None,
    }
}

/// What a batch caches for a requested name: the first response for it, or a failure when the
/// provider omitted it.
pub open spec fn batch_entry(rs: Seq<DependencyMetadataResponse>, name: Seq<char>) -> (int, Seq<
    char,
>, Seq<char>, Seq<char>, (int, Seq<char>)) {
    match memo_get(named(rs), name, 0) {
        Some(x) => response_view(x),
        None => (2, name, "metadata provider omitted a response"@, Seq::empty(), (0, Seq::empty())),
    }
}

/// A diagnostic as plain values.
pub open spec fn diag_view(d: DependencyGraphDiagnostic) -> (DependencyGraphDiagnosticKind, Seq<
    char,
>, Option<Seq<char>>, Seq<char>) {
    (d.kind, d.package@, crate::deps::query::opt_view(d.related_package), d.message@)
}

/// Views of diagnostics.
pub open spec fn diag_views(d: Seq<DependencyGraphDiagnostic>) -> Seq<
    (DependencyGraphDiagnosticKind, Seq<char>, Option<Seq<char>>, Seq<char>),
> {
    d.map_values(|x: DependencyGraphDiagnostic| diag_view(x))
}

/// A batch protocol diagnostic about `name`.
pub open spec fn protocol_diag(name: Seq<char>, message: Seq<char>) -> (DependencyGraphDiagnosticKind, Seq<
    char,
>, Option<Seq<char>>, Seq<char>) {
    (DependencyGraphDiagnosticKind::MetadataProtocol, name, None, message)
}

/// Diagnostic for response `i` of a batch: one for an unrequested name, one for a name answered
/// before, none otherwise.
pub open spec fn response_diag(requests: Seq<Seq<char>>, rs: Seq<DependencyMetadataResponse>, i: int) -> Seq<
    (DependencyGraphDiagnosticKind, Seq<char>, Option<Seq<char>>, Seq<char>),
> {
    let n = response_name(rs[i]);
    if !requests.contains(n) {
        seq![protocol_diag(n, "metadata provider returned a response for an unrequested name"@)]
    } else if memo_index(named(rs), n, 0) != Some(i) {
        seq![protocol_diag(n, "metadata provider returned duplicate responses for one request"@)]
    } else {
        Seq::empty()
    }
}

/// Diagnostics for the first `k` responses of a batch.
pub open spec fn response_diags(requests: Seq<Seq<char>>, rs: Seq<DependencyMetadataResponse>, k: int) -> Seq<
    (DependencyGraphDiagnosticKind, Seq<char>, Option<Seq<char>>, Seq<char>),
>
    decreases k,
{
    if k <= 0 {
        Seq::empty()
    } else {
        response_diags(requests, rs, k - 1) + response_diag(requests, rs, k - 1)
    }
}

/// Diagnostics for the first `k` requests of a batch: one for each that no response answers.
pub open spec fn omission_diags(requests: Seq<Seq<char>>, rs: Seq<DependencyMetadataResponse>, k: int) -> Seq<
    (DependencyGraphDiagnosticKind, Seq<char>, Option<Seq<char>>, Seq<char>),
>
    decreases k,
{
    if k <= 0 {
        Seq::empty()
    } else if memo_get(named(rs), requests[k - 1], 0) is None {
        omission_diags(requests, rs, k - 1).push(
            protocol_diag(requests[k - 1], "metadata provider omitted a response for the request"@),
        )
    } else {
        omission_diags(requests, rs, k - 1)
    }
}

/// Lemma: the first `i + 1` names hold `q` when the first `i` do or name `i` is `q`.
proof fn lemma_take_step(s: Seq<Seq<char>>, i: int, q: Seq<char>)
    requires
        0 <= i < s.len(),
    ensures
        s.take(i + 1).contains(q) <==> (s.take(i).contains(q) || s[i] == q),
{
    let t1 = s.take(i + 1);
    let t0 = s.take(i);
    if t1.contains(q) {
        let x = choose|x: int| 0 <= x < t1.len() && #[trigger] t1[x] == q;
        if x < i {
            assert(t0[x] == q);
        }
    }
    if t0.contains(q) {
        let x = choose|x: int| 0 <= x < t0.len() && #[trigger] t0[x] == q;
        assert(t1[x] == q);
    }
    if s[i] == q {
        assert(t1[i] == q);
    }
}

/// Whether the first response for `q` is among the first `k`.
spec fn answered_before(nm: Seq<(Seq<char>, DependencyMetadataResponse)>, q: Seq<char>, k: int) -> bool {
    memo_index(nm, q, 0) matches Some(j) && j < k
}

/// Caches a provider batch: each requested name gets its first response, or a failure when the
/// provider omitted it; other names keep their entries. Responses for unrequested names,
/// repeated responses and omitted requests are diagnosed, in that order.
fn cache_batch_responses(
    requests: &Vec<String>,
    responses: Vec<DependencyMetadataResponse>,
    cache: &mut Vec<(String, DependencyMetadataResponse)>,
    diagnostics: &mut Vec<DependencyGraphDiagnostic>,
)
    ensures
        forall|q: Seq<char>|
            #![trigger cached_view(final(cache)@, q)]
            cached_view(final(cache)@, q) == if crate::text::sv(requests@).contains(q) {
                Some(batch_entry(responses@, q))
            } else {
                cached_view(old(cache)@, q)
            },
        diag_views(final(diagnostics)@) == diag_views(old(diagnostics)@) + response_diags(
            crate::text::sv(requests@),
            responses@,
            responses@.len() as int,
        ) + omission_diags(crate::text::sv(requests@), responses@, requests@.len() as int),
{
    let ghost rs = responses@;
    let ghost nm = named(rs);
    let ghost req = crate::text::sv(requests@);
    let ghost c0 = cache@;
    let ghost d0 = diag_views(diagnostics@);
    let mut seen: Vec<String> = Vec::new();
    let mut rest = responses;
    proof {
        assert forall|q: Seq<char>| !#[trigger] answered_before(nm, q, 0) by {
            lemma_memo_index_props(nm, q, 0);
        }
        assert(crate::text::sv(seen@) =~= Seq::<Seq<char>>::empty());
    }
    while rest.len() > 0
        invariant
            rest@.len() <= rs.len(),
            rest@ == rs.skip(rs.len() - rest@.len()),
            nm == named(rs),
            req == crate::text::sv(requests@),
            forall|q: Seq<char>|
                #![trigger crate::text::sv(seen@).contains(q)]
                crate::text::sv(seen@).contains(q) <==> (req.contains(q) && answered_before(nm, q, rs.len() - rest@.len())),
            forall|q: Seq<char>|
                #![trigger cached(cache@, q)]
                cached(cache@, q) == if req.contains(q) && answered_before(nm, q, rs.len() - rest@.len()) {
                    memo_get(nm, q, 0)
                } else {
                    cached(c0, q)
                },
            diag_views(diagnostics@) == d0 + response_diags(req, rs, rs.len() - rest@.len()),
        decreases rest@.len(),
    {
        let ghost k = rs.len() - rest@.len();
        let ghost dv = diag_views(diagnostics@);
        let ghost sn = crate::text::sv(seen@);
        let response = rest.remove(0);
        assert(response == rs[k]);
        assert(rest@ =~= rs.skip(k + 1));
        let name = response_requested_name(&response).to_owned();
        proof {
            assert(nm[k] == (name@, response));
            lemma_memo_index_props(nm, name@, 0);
        }
        if !crate::deps::query::names_contain(requests, name.as_str()) {
            push_diagnostic(
                diagnostics,
                DependencyGraphDiagnosticKind::MetadataProtocol,
                name.as_str(),
                None,
                "metadata provider returned a response for an unrequested name".to_owned(),
            );
            proof {
                assert(diag_views(diagnostics@) =~= dv + response_diag(req, rs, k));
                assert forall|q: Seq<char>| req.contains(q) implies #[trigger] answered_before(nm, q, k + 1)
                    == answered_before(nm, q, k) by {
                    lemma_memo_index_props(nm, q, 0);
                }
            }
            continue;
        }
        if crate::deps::query::names_contain(&seen, name.as_str()) {
            push_diagnostic(
                diagnostics,
                DependencyGraphDiagnosticKind::MetadataProtocol,
                name.as_str(),
                None,
                "metadata provider returned duplicate responses for one request".to_owned(),
            );
            proof {
                assert(sn.contains(name@));
                assert(diag_views(diagnostics@) =~= dv + response_diag(req, rs, k));
                assert forall|q: Seq<char>| req.contains(q) implies #[trigger] answered_before(nm, q, k + 1)
                    == answered_before(nm, q, k) by {
                    lemma_memo_index_props(nm, q, 0);
                    if q == name@ {
                        assert(sn.contains(q));
                    }
                }
            }
            continue;
        }
        seen.push(name.clone());
        let ghost c1 = cache@;
        let ghost r = response;
        cache_set(cache, name.as_str(), response);
        proof {
            assert(!sn.contains(name@));
            assert(memo_index(nm, name@, 0) == Some(k));
            assert(response_diag(req, rs, k) =~= Seq::empty());
            assert(diag_views(diagnostics@) =~= dv + response_diag(req, rs, k));
            assert(crate::text::sv(seen@) =~= sn.push(name@));
            assert forall|q: Seq<char>| #![trigger crate::text::sv(seen@).contains(q)]
                crate::text::sv(seen@).contains(q) <==> (req.contains(q) && answered_before(nm, q, k + 1)) by {
                lemma_memo_index_props(nm, q, 0);
                vstd::seq_lib::lemma_seq_contains_after_push(sn, name@, q);
            }
            assert forall|q: Seq<char>| #![trigger cached(cache@, q)]
                cached(cache@, q) == if req.contains(q) && answered_before(nm, q, k + 1) {
                    memo_get(nm, q, 0)
                } else {
                    cached(c0, q)
                } by {
                lemma_memo_index_props(nm, q, 0);
            }
        }
    }
    let ghost c1 = cache@;
    let ghost d1 = diag_views(diagnostics@);
    proof {
        assert forall|q: Seq<char>| #![trigger crate::text::sv(seen@).contains(q)]
            crate::text::sv(seen@).contains(q) <==> (req.contains(q) && memo_get(nm, q, 0) is Some) by {
            lemma_memo_index_props(nm, q, 0);
        }
        assert forall|q: Seq<char>| #![trigger cached(c1, q)]
            cached(c1, q) == if req.contains(q) && memo_get(nm, q, 0) is Some {
                memo_get(nm, q, 0)
            } else {
                cached(c0, q)
            } by {
            lemma_memo_index_props(nm, q, 0);
            assert(cached(cache@, q) == if req.contains(q) && answered_before(nm, q, rs.len() as int) {
                memo_get(nm, q, 0)
            } else {
                cached(c0, q)
            });
        }
        assert forall|q: Seq<char>| #![trigger cached_view(cache@, q)]
            cached_view(cache@, q) == if req.contains(q) && memo_get(nm, q, 0) is None && req.take(0).contains(q) {
                Some(batch_entry(rs, q))
            } else {
                cached_view(c1, q)
            } by {
        }
    }
    let mut i: usize = 0;
    while i < requests.len()
        invariant
            i <= requests@.len(),
            nm == named(rs),
            req == crate::text::sv(requests@),
            forall|q: Seq<char>|
                #![trigger crate::text::sv(seen@).contains(q)]
                crate::text::sv(seen@).contains(q) <==> (req.contains(q) && memo_get(nm, q, 0) is Some),
            forall|q: Seq<char>|
                #![trigger cached(c1, q)]
                cached(c1, q) == if req.contains(q) && memo_get(nm, q, 0) is Some {
                    memo_get(nm, q, 0)
                } else {
                    cached(c0, q)
                },
            forall|q: Seq<char>|
                #![trigger cached_view(cache@, q)]
                cached_view(cache@, q) == if req.contains(q) && memo_get(nm, q, 0) is None && req.take(
                    i as int,
                ).contains(q) {
                    Some(batch_entry(rs, q))
                } else {
                    cached_view(c1, q)
                },
            diag_views(diagnostics@) == d1 + omission_diags(req, rs, i as int),
        decreases requests@.len() - i,
    {
        let request = requests[i].as_str();
        let ghost dv = diag_views(diagnostics@);
        let ghost ci = cache@;
        proof {
            assert(req[i as int] == request@);
            assert(req.take(i as int + 1) =~= req.take(i as int).push(request@));
            assert(req.contains(request@));
        }
        if !crate::deps::query::names_contain(&seen, request) {
            push_diagnostic(
                diagnostics,
                DependencyGraphDiagnosticKind::MetadataProtocol,
                request,
                None,
                "metadata provider omitted a response for the request".to_owned(),
            );
            let failure = DependencyMetadataResponse::Failure {
                requested_name: request.to_owned(),
                message: "metadata provider omitted a response".to_owned(),
            };
            let ghost fv = failure;
            cache_set(cache, request, failure);
            proof {
                assert(memo_get(nm, request@, 0) is None);
                assert(response_view(fv) == batch_entry(rs, request@));
                assert(diag_views(diagnostics@) =~= dv.push(
                    protocol_diag(request@, "metadata provider omitted a response for the request"@),
                ));
                assert forall|q: Seq<char>| #![trigger cached_view(cache@, q)]
                    cached_view(cache@, q) == if req.contains(q) && memo_get(nm, q, 0) is None && req.take(
                        i as int + 1,
                    ).contains(q) {
                        Some(batch_entry(rs, q))
                    } else {
                        cached_view(c1, q)
                    } by {
                    if q != request@ {
                        assert(cached(cache@, q) == cached(ci, q));
                        assert(cached_view(cache@, q) == cached_view(ci, q));
                        lemma_take_step(req, i as int, q);
                    } else {
                        assert(req.take(i as int + 1)[i as int] == q);
                        assert(cached(cache@, q) == Some(fv));
                    }
                }
            }
        } else {
            proof {
                assert forall|q: Seq<char>| #![trigger cached_view(cache@, q)]
                    cached_view(cache@, q) == if req.contains(q) && memo_get(nm, q, 0) is None && req.take(
                        i as int + 1,
                    ).contains(q) {
                        Some(batch_entry(rs, q))
                    } else {
                        cached_view(c1, q)
                    } by {
                    if q != request@ {
                        lemma_take_step(req, i as int, q);
                    }
                }
                assert(diag_views(diagnostics@) =~= d1 + omission_diags(req, rs, i as int + 1));
            }
        }
        i += 1;
    }
    proof {
        assert(req.take(requests@.len() as int) =~= req);
        assert forall|q: Seq<char>| #![trigger cached_view(cache@, q)]
            cached_view(cache@, q) == if req.contains(q) {
                Some(batch_entry(rs, q))
            } else {
                cached_view(c0, q)
            } by {
            assert(cached(c1, q) == if req.contains(q) && memo_get(nm, q, 0) is Some {
                memo_get(nm, q, 0)
            } else {
                cached(c0, q)
            });
        }
        assert(rs.len() - rest@.len() == rs.len());
    }
}

/// Invariant of the graph under construction: nodes in order of name within the node limit,
/// roots in order, and roots and both ends of each edge naming nodes.
pub open spec fn graph_wf(
    nodes: Seq<DependencyGraphNode>,
    edges: Seq<DependencyGraphEdge>,
    roots: Seq<String>,
    config: DependencyGraphConfig,
) -> bool {
    &&& nodes_sorted(nodes)
    &&& nodes.len() <= config.max_nodes
    &&& no_conflicting(nodes)
    &&& strictly_sorted(crate::text::sv(roots))
    &&& forall|k: int| 0 <= k < roots.len() ==> node_names(nodes).contains(#[trigger] roots[k]@)
    &&& forall|k: int|
        0 <= k < edges.len() ==> node_names(nodes).contains((#[trigger] edges[k]).from@)
            && node_names(nodes).contains(edges[k].to@)
    &&& edges_view(edges).no_duplicates()
}

/// Requests within the depth limit whose parents are nodes.
spec fn pending_ok(p: Seq<PendingRequest>, nodes: Seq<DependencyGraphNode>, config: DependencyGraphConfig) -> bool {
    forall|k: int|
        0 <= k < p.len() ==> (#[trigger] p[k]).depth <= config.max_depth && (p[k].parent matches Some(
            x,
        ) ==> node_names(nodes).contains(x@))
}

/// Lemma: the graph invariant survives new nodes.
proof fn lemma_graph_grow(
    n0: Seq<DependencyGraphNode>,
    n1: Seq<DependencyGraphNode>,
    edges: Seq<DependencyGraphEdge>,
    roots: Seq<String>,
    config: DependencyGraphConfig,
)
    requires
        graph_wf(n0, edges, roots, config),
        nodes_sorted(n1),
        n1.len() <= config.max_nodes,
        no_conflicting(n1),
        names_grow(n0, n1),
    ensures
        graph_wf(n1, edges, roots, config),
{
    assert forall|k: int| 0 <= k < roots.len() implies node_names(n1).contains(#[trigger] roots[k]@) by {
        assert(node_names(n0).contains(roots[k]@));
    }
    assert forall|k: int| 0 <= k < edges.len() implies node_names(n1).contains(
        (#[trigger] edges[k]).from@,
    ) && node_names(n1).contains(edges[k].to@) by {
        assert(node_names(n0).contains(edges[k].from@));
        assert(node_names(n0).contains(edges[k].to@));
    }
}

/// Lemma: pending requests stay valid as nodes are added.
proof fn lemma_pending_grow(
    p: Seq<PendingRequest>,
    n0: Seq<DependencyGraphNode>,
    n1: Seq<DependencyGraphNode>,
    config: DependencyGraphConfig,
)
    requires
        pending_ok(p, n0, config),
        names_grow(n0, n1),
    ensures
        pending_ok(p, n1, config),
{
    assert forall|k: int| 0 <= k < p.len() implies (#[trigger] p[k]).depth <= config.max_depth && (
    p[k].parent matches Some(x) ==> node_names(n1).contains(x@)) by {
        if let Some(x) = p[k].parent {
            assert(node_names(n0).contains(x@));
        }
    }
}

/// Lemma: the walk invariant survives new nodes.
proof fn lemma_walk_grow(
    n0: Seq<DependencyGraphNode>,
    n1: Seq<DependencyGraphNode>,
    memo: Seq<(Seq<char>, usize)>,
    config: DependencyGraphConfig,
)
    requires
        walk_wf(n0, memo, config),
        nodes_sorted(n1),
        n1.len() <= config.max_nodes,
        names_grow(n0, n1),
    ensures
        walk_wf(n1, memo, config),
{
    assert forall|i: int| 0 <= i < memo.len() implies node_names(n1).contains(#[trigger] memo[i].0) by {
        assert(node_names(n0).contains(memo[i].0));
    }
}

/// Position of the first root above `name`.
fn root_position(roots: &Vec<String>, name: &str) -> (k: usize)
    requires
        !crate::text::sv(roots@).contains(name@),
    ensures
        k <= roots@.len(),
        forall|a: int| 0 <= a < k ==> crate::text::lex_order(#[trigger] crate::text::sv(roots@)[a], name@)
            == Order::Less,
        k < roots@.len() ==> crate::text::lex_order(name@, crate::text::sv(roots@)[k as int])
            == Order::Less,
{
    let ghost v = crate::text::sv(roots@);
    let nc = to_chars(name);
    let mut k: usize = 0;
    while k < roots.len()
        invariant
            k <= roots@.len(),
            v == crate::text::sv(roots@),
            nc@ == name@,
            !v.contains(name@),
            forall|a: int| 0 <= a < k ==> crate::text::lex_order(#[trigger] v[a], name@) == Order::Less,
        decreases roots@.len() - k,
    {
        let c = to_chars(roots[k].as_str());
        let o = crate::text::lex_order_chars(c.as_slice(), nc.as_slice());
        proof {
            crate::text::lemma_lex_order_flip(v[k as int], name@);
            crate::text::lemma_lex_order_flip(name@, v[k as int]);
        }
        if o != Order::Less {
            assert(v[k as int] != name@);
            return k;
        }
        k += 1;
    }
    k
}

/// Inserts `name` into the ordered set of roots.
fn add_root(roots: &mut Vec<String>, name: &str)
    requires
        strictly_sorted(crate::text::sv(old(roots)@)),
    ensures
        strictly_sorted(crate::text::sv(final(roots)@)),
        forall|n: Seq<char>| #[trigger] crate::text::sv(final(roots)@).contains(n) <==> (crate::text::sv(
            old(roots)@,
        ).contains(n) || n == name@),
        crate::text::sv(old(roots)@).contains(name@) ==> final(roots)@ == old(roots)@,
        !crate::text::sv(old(roots)@).contains(name@) ==> final(roots)@.len() == old(roots)@.len() + 1,
{
    if crate::deps::query::names_contain(roots, name) {
        return ;
    }
    let ghost v = crate::text::sv(roots@);
    let k = root_position(roots, name);
    proof {
        lemma_sorted_insert(v, k as int, name@);
    }
    roots.insert(k, name.to_owned());
    proof {
        let w = crate::text::sv(roots@);
        assert(w =~= v.insert(k as int, name@));
        assert forall|n: Seq<char>| #[trigger] w.contains(n) <==> (v.contains(n) || n == name@) by {
            if w.contains(n) {
                let i = choose|i: int| 0 <= i < w.len() && w[i] == n;
                if i < k {
                    assert(v[i] == n);
                } else if i > k {
                    assert(v[i - 1] == n);
                }
            }
            if v.contains(n) {
                let i = choose|i: int| 0 <= i < v.len() && v[i] == n;
                if i < k {
                    assert(w[i] == n);
                } else {
                    assert(w[i + 1] == n);
                }
            }
            if n == name@ {
                assert(w[k as int] == n);
            }
        }
    }
}

/// Adds the node for a request when the node limit allows: the node, the edge from the
/// request's parent, and a root for a root request. Tells whether the node exists.
fn attach_node(
    pending: &PendingRequest,
    node: DependencyGraphNode,
    nodes: &mut Vec<DependencyGraphNode>,
    edges: &mut Vec<DependencyGraphEdge>,
    roots: &mut Vec<String>,
    config: &DependencyGraphConfig,
    diagnostics: &mut Vec<DependencyGraphDiagnostic>,
) -> (r: bool)
    requires
        graph_wf(old(nodes)@, old(edges)@, old(roots)@, *config),
        pending.parent matches Some(p) ==> node_names(old(nodes)@).contains(p@),
        node.status != DependencyGraphNodeStatus::Conflicting,
    ensures
        graph_wf(final(nodes)@, final(edges)@, final(roots)@, *config),
        names_grow(old(nodes)@, final(nodes)@),
        r == (node_names(old(nodes)@).contains(node.name@) || old(nodes)@.len() < config.max_nodes),
        r ==> node_names(final(nodes)@).contains(node.name@),
        final(nodes)@.len() >= old(nodes)@.len(),
        forall|n: Seq<char>|
            #[trigger] crate::text::sv(old(roots)@).contains(n) ==> crate::text::sv(final(roots)@).contains(n),
        !r || node_names(old(nodes)@).contains(node.name@) ==> final(nodes)@ == old(nodes)@,
        r && !node_names(old(nodes)@).contains(node.name@) ==> exists|k: int|
            0 <= k <= old(nodes)@.len() && final(nodes)@ == old(nodes)@.insert(k, node),
        !r ==> final(edges)@ == old(edges)@ && final(roots)@ == old(roots)@,
        r ==> edges_view(final(edges)@) == (match pending.parent {
            None => edges_view(old(edges)@),
            Some(p) => {
                let e = (p@, node.name@, pending.requested_name@, pending.version_req@);
                if edges_view(old(edges)@).contains(e) {
                    edges_view(old(edges)@)
                } else {
                    edges_view(old(edges)@).push(e)
                }
            },
        }),
        r ==> forall|n: Seq<char>|
            #[trigger] crate::text::sv(final(roots)@).contains(n) <==> (crate::text::sv(old(roots)@).contains(n)
                || (pending.parent is None && n == node.name@)),
        r ==> final(diagnostics)@ == old(diagnostics)@,
        !r ==> final(diagnostics)@.len() == old(diagnostics)@.len() + 1 && final(diagnostics)@.drop_last()
            == old(diagnostics)@ && final(diagnostics)@.last().kind == DependencyGraphDiagnosticKind::NodeLimit
            && final(diagnostics)@.last().package@ == node.name@,
{
    let ghost n0 = nodes@;
    let name = node.name.clone();
    if !insert_node_if_allowed(node, nodes, config, diagnostics) {
        proof {
            lemma_graph_grow(n0, nodes@, edges@, roots@, *config);
        }
        return false;
    }
    proof {
        lemma_graph_grow(n0, nodes@, edges@, roots@, *config);
    }
    let parent = match &pending.parent {
        Some(p) => Some(p.as_str()),
        None => None,
    };
    let ghost e0 = edges@;
    add_edge(
        edges,
        parent,
        name.as_str(),
        pending.requested_name.as_str(),
        pending.version_req.as_str(),
    );
    proof {
        let ns = node_names(nodes@);
        assert(edges_view(edges@).len() == edges@.len());
        assert(edges_view(e0).len() == e0.len());
        assert forall|k: int| 0 <= k < edges@.len() implies ns.contains((#[trigger] edges@[k]).from@)
            && ns.contains(edges@[k].to@) by {
            assert(edges_view(edges@)[k] == edge_view(edges@[k]));
            if k < e0.len() {
                assert(edges_view(e0)[k] == edge_view(e0[k]));
                assert(edges_view(edges@)[k] == edges_view(e0)[k]);
            } else {
                if let Some(p) = parent {
                    let e = (p@, name@, pending.requested_name@, pending.version_req@);
                    assert(!edges_view(e0).contains(e));
                    assert(edges_view(edges@) == edges_view(e0).push(e));
                    assert(k == e0.len());
                    assert(edges_view(edges@)[k] == e);
                    assert(node_names(n0).contains(p@));
                    assert(node_names(nodes@).contains(p@));
                }
            }
        }
        if let Some(p) = parent {
            let e = (p@, name@, pending.requested_name@, pending.version_req@);
            if !edges_view(e0).contains(e) {
                let w = edges_view(edges@);
                assert forall|i: int, j: int| 0 <= i < w.len() && 0 <= j < w.len() && i != j implies w[i]
                    != w[j] by {
                    if i < e0.len() && j < e0.len() {
                        assert(w[i] == edges_view(e0)[i] && w[j] == edges_view(e0)[j]);
                    } else if i < e0.len() {
                        assert(w[i] == edges_view(e0)[i]);
                    } else if j < e0.len() {
                        assert(w[j] == edges_view(e0)[j]);
                    }
                }
            }
        }
    }
    if pending.parent.is_none() {
        let ghost r0 = roots@;
        add_root(roots, name.as_str());
        proof {
            assert forall|k: int| 0 <= k < roots@.len() implies node_names(nodes@).contains(
                #[trigger] roots@[k]@,
            ) by {
                let n = crate::text::sv(roots@)[k];
                assert(crate::text::sv(roots@).contains(n));
                if crate::text::sv(r0).contains(n) {
                    let j = choose|j: int| 0 <= j < r0.len() && crate::text::sv(r0)[j] == n;
                    assert(node_names(nodes@).contains(r0[j]@));
                }
            }
        }
    }
    true
}

/// Category and text of the diagnostic for a missing or failed response.
pub open spec fn unavailable_diag(r: DependencyMetadataResponse) -> Option<
    (DependencyGraphDiagnosticKind, Seq<char>),
> {
    match r {
        DependencyMetadataResponse::Missing { reason, .. } => Some(
            (DependencyGraphDiagnosticKind::MissingMetadata, "metadata unavailable: "@ + reason@),
        ),
        DependencyMetadataResponse::Failure { message, .. } => Some(
            (DependencyGraphDiagnosticKind::MetadataFailure, "metadata retrieval failed: "@ + message@),
        ),
        DependencyMetadataResponse::Found(_) => None,
    }
}

/// Handles a missing or failed response: a diagnostic, then a missing node with its edge when
/// the node limit allows.
fn process_unavailable_metadata(
    pending: &PendingRequest,
    response: &DependencyMetadataResponse,
    nodes: &mut Vec<DependencyGraphNode>,
    edges: &mut Vec<DependencyGraphEdge>,
    roots: &mut Vec<String>,
    config: &DependencyGraphConfig,
    diagnostics: &mut Vec<DependencyGraphDiagnostic>,
)
    requires
        graph_wf(old(nodes)@, old(edges)@, old(roots)@, *config),
        pending.parent matches Some(p) ==> node_names(old(nodes)@).contains(p@),
    ensures
        graph_wf(final(nodes)@, final(edges)@, final(roots)@, *config),
        names_grow(old(nodes)@, final(nodes)@),
        final(nodes)@.len() >= old(nodes)@.len(),
        forall|n: Seq<char>|
            #[trigger] crate::text::sv(old(roots)@).contains(n) ==> crate::text::sv(final(roots)@).contains(n),
        *response is Found ==> final(nodes)@ == old(nodes)@ && final(edges)@ == old(edges)@ && final(roots)@
            == old(roots)@ && final(diagnostics)@ == old(diagnostics)@,
        unavailable_diag(*response) matches Some((kind, text)) ==> {
            let req = pending.requested_name@;
            let allowed = node_names(old(nodes)@).contains(req) || old(nodes)@.len() < config.max_nodes;
            &&& final(diagnostics)@.len() > old(diagnostics)@.len()
            &&& final(diagnostics)@.take(old(diagnostics)@.len() as int) == old(diagnostics)@
            &&& diag_view(final(diagnostics)@[old(diagnostics)@.len() as int]) == (
                kind,
                req,
                crate::deps::query::opt_view(pending.parent),
                text,
            )
            &&& allowed ==> node_names(final(nodes)@).contains(req)
            &&& allowed && !node_names(old(nodes)@).contains(req) ==> exists|k: int|
                0 <= k <= old(nodes)@.len() && final(nodes)@ == old(nodes)@.insert(k, final(nodes)@[k])
                    && final(nodes)@[k].name@ == req && final(nodes)@[k].status
                    == DependencyGraphNodeStatus::Missing && final(nodes)@[k].depth == pending.depth
                    && final(nodes)@[k].provenance.source is None
            &&& allowed ==> (pending.parent matches Some(p) ==> edges_view(final(edges)@).contains(
                (p@, req, req, pending.version_req@),
            ))
            &&& allowed && pending.parent is None ==> crate::text::sv(final(roots)@).contains(req)
            &&& !allowed ==> final(nodes)@ == old(nodes)@ && final(edges)@ == old(edges)@
                && final(roots)@ == old(roots)@
        },
{
    let ghost d0 = diagnostics@;
    let (kind, message) = match response {
        DependencyMetadataResponse::Missing { reason, .. } => {
            let mut m = to_chars("metadata unavailable: ");
            let rc = to_chars(reason.as_str());
            crate::text::extend_chars(&mut m, rc.as_slice());
            (DependencyGraphDiagnosticKind::MissingMetadata, crate::text::chars_to_string(m.as_slice()))
        },
        DependencyMetadataResponse::Failure { message, .. } => {
            let mut m = to_chars("metadata retrieval failed: ");
            let rc = to_chars(message.as_str());
            crate::text::extend_chars(&mut m, rc.as_slice());
            (DependencyGraphDiagnosticKind::MetadataFailure, crate::text::chars_to_string(m.as_slice()))
        },
        DependencyMetadataResponse::Found(_) => {
            return ;
        },
    };
    assert(unavailable_diag(*response) == Some((kind, message@)));
    push_diagnostic(
        diagnostics,
        kind,
        pending.requested_name.as_str(),
        clone_opt(&pending.parent),
        message,
    );
    let ghost d1 = diagnostics@;
    let ghost n0 = nodes@;
    let ghost e0 = edges@;
    let node = missing_node(pending.requested_name.as_str(), pending.depth, None);
    let ghost nd = node;
    let attached = attach_node(pending, node, nodes, edges, roots, config, diagnostics);
    proof {
        assert(d1[d0.len() as int] == diagnostics@[d0.len() as int]);
        assert(diagnostics@.take(d0.len() as int) =~= d0);
        if attached && !node_names(n0).contains(pending.requested_name@) {
            let k = choose|k: int| 0 <= k <= n0.len() && nodes@ == n0.insert(k, nd);
            assert(nodes@[k] == nd);
        }
        if attached {
            if pending.parent is Some {
                let p = pending.parent->0;
                let e = (p@, pending.requested_name@, pending.requested_name@, pending.version_req@);
                if !edges_view(e0).contains(e) {
                    assert(edges_view(edges@)[e0.len() as int] == e);
                }
            }
        }
    }
}

/// Index of the package output that metadata selects for a request: the first output named
/// `package`, when it exists and, for a provider of another name, one of its provides answers
/// the request.
pub open spec fn selected_output(srcinfo: Seq<char>, package: Seq<char>, requested: Seq<char>, version_req: Seq<
    char,
>) -> Option<int> {
    let pk = crate::deps::srcinfo::srcinfo_packages(srcinfo);
    match memo_index(pk, package, 0) {
        None => None,
        Some(i) => if package == requested || exists|j: int|
            0 <= j < pk[i].1[5].len() && provide_answers(#[trigger] pk[i].1[5][j], requested, version_req) {
            Some(i)
        } else {
            None
        },
    }
}

/// The parsed metadata and the selected package output, when the output exists and (for a
/// provider selected for a virtual name) its provides verify the request; otherwise a
/// diagnostic and `None`.
fn select_srcinfo_package(
    metadata: &DependencyMetadata,
    pending: &PendingRequest,
    diagnostics: &mut Vec<DependencyGraphDiagnostic>,
) -> (r: Option<(crate::deps::srcinfo::GraphSrcinfoData, usize)>)
    ensures
        match r {
            Some((data, i)) => crate::deps::srcinfo::graph_data_matches(data, metadata.srcinfo@)
                && selected_output(
                metadata.srcinfo@,
                metadata.package_name@,
                pending.requested_name@,
                pending.version_req@,
            ) == Some(i as int) && i < data.packages@.len(),
            None => selected_output(
                metadata.srcinfo@,
                metadata.package_name@,
                pending.requested_name@,
                pending.version_req@,
            ) is None,
        },
        r is Some ==> final(diagnostics)@ == old(diagnostics)@,
        r is None ==> final(diagnostics)@.drop_last() == old(diagnostics)@ && final(diagnostics)@.len()
            == old(diagnostics)@.len() + 1 && diag_view(final(diagnostics)@.last()) == if memo_index(
            crate::deps::srcinfo::srcinfo_packages(metadata.srcinfo@),
            metadata.package_name@,
            0,
        ) is None {
            (
                DependencyGraphDiagnosticKind::MalformedSrcinfo,
                pending.requested_name@,
                crate::deps::query::opt_view(pending.parent),
                ".SRCINFO does not contain selected package output '"@ + metadata.package_name@ + seq!['\''],
            )
        } else {
            (
                DependencyGraphDiagnosticKind::MetadataProtocol,
                pending.requested_name@,
                crate::deps::query::opt_view(pending.parent),
                "selected provider '"@ + metadata.package_name@
                    + "' does not verify requested virtual dependency"@,
            )
        },
{
    let data = crate::deps::srcinfo::parse_srcinfo_graph(metadata.srcinfo.as_str());
    let ghost pk = crate::deps::srcinfo::srcinfo_packages(metadata.srcinfo@);
    proof {
        lemma_memo_index_props(pk, metadata.package_name@, 0);
    }
    let mut idx: Option<usize> = None;
    let mut i: usize = 0;
    while i < data.packages.len()
        invariant
            i <= data.packages@.len(),
            crate::deps::srcinfo::graph_data_matches(data, metadata.srcinfo@),
            pk == crate::deps::srcinfo::srcinfo_packages(metadata.srcinfo@),
            match idx {
                Some(k) => memo_index(pk, metadata.package_name@, 0) == Some(k as int),
                None => forall|x: int| 0 <= x < i ==> pk[x].0 != metadata.package_name@,
            },
        decreases data.packages@.len() - i,
    {
        if idx.is_none() && crate::text::str_eq(data.packages[i].name.as_str(), metadata.package_name.as_str()) {
            proof {
                lemma_memo_index_skip(pk, metadata.package_name@, 0, i as int);
            }
            idx = Some(i);
        }
        i += 1;
    }
    let k = match idx {
        Some(k) => k,
        None => {
            proof {
                lemma_memo_index_skip(pk, metadata.package_name@, 0, pk.len() as int);
            }
            let mut m = to_chars(".SRCINFO does not contain selected package output '");
            let pc = to_chars(metadata.package_name.as_str());
            crate::text::extend_chars(&mut m, pc.as_slice());
            m.push('\'');
            push_diagnostic(
                diagnostics,
                DependencyGraphDiagnosticKind::MalformedSrcinfo,
                pending.requested_name.as_str(),
                clone_opt(&pending.parent),
                crate::text::chars_to_string(m.as_slice()),
            );
            assert(diagnostics@.drop_last() =~= old(diagnostics)@);
            return None;
        },
    };
    let verified = provider_satisfies_request(
        &data.packages[k],
        pending.requested_name.as_str(),
        pending.version_req.as_str(),
    );
    proof {
        let pv = data.packages@[k as int].provides@;
        assert(pk[k as int].1 == crate::deps::srcinfo::package_fields(data.packages@[k as int]));
        assert(pk[k as int].1[5] == crate::text::sv(pv));
        if verified {
            let j = choose|j: int| 0 <= j < pv.len() && provide_answers(
                #[trigger] pv[j]@,
                pending.requested_name@,
                pending.version_req@,
            );
            assert(pk[k as int].1[5][j] == pv[j]@);
        }
        if exists|j: int|
            0 <= j < pk[k as int].1[5].len() && provide_answers(
                #[trigger] pk[k as int].1[5][j],
                pending.requested_name@,
                pending.version_req@,
            ) {
            let j = choose|j: int|
                0 <= j < pk[k as int].1[5].len() && provide_answers(
                    #[trigger] pk[k as int].1[5][j],
                    pending.requested_name@,
                    pending.version_req@,
                );
            assert(pk[k as int].1[5][j] == pv[j]@);
        }
    }
    if !crate::text::str_eq(metadata.package_name.as_str(), pending.requested_name.as_str()) && !verified {
        let mut m = to_chars("selected provider '");
        let pc = to_chars(metadata.package_name.as_str());
        crate::text::extend_chars(&mut m, pc.as_slice());
        let tail = to_chars("' does not verify requested virtual dependency");
        crate::text::extend_chars(&mut m, tail.as_slice());
        push_diagnostic(
            diagnostics,
            DependencyGraphDiagnosticKind::MetadataProtocol,
            pending.requested_name.as_str(),
            clone_opt(&pending.parent),
            crate::text::chars_to_string(m.as_slice()),
        );
        assert(diagnostics@.drop_last() =~= old(diagnostics)@);
        return None;
    }
    Some((data, k))
}

/// Lemma: what `memo_index` finds.
proof fn lemma_memo_index_props<V>(m: Seq<(Seq<char>, V)>, p: Seq<char>, j: int)
    requires
        0 <= j,
    ensures
        memo_index(m, p, j) matches Some(i) ==> j <= i < m.len() && m[i].0 == p && memo_get(m, p, j)
            == Some(m[i].1) && forall|x: int| j <= x < i ==> m[x].0 != p,
        memo_index(m, p, j) is None ==> memo_get(m, p, j) is None && forall|x: int|
            j <= x < m.len() ==> m[x].0 != p,
    decreases m.len() - j,
{
    if j < m.len() && m[j].0 != p {
        lemma_memo_index_props(m, p, j + 1);
    }
}

/// Lemma: a granted expansion keeps the walk invariant and lowers the work left.
proof fn lemma_mark_step(
    nodes: Seq<DependencyGraphNode>,
    m0: Seq<(Seq<char>, usize)>,
    m1: Seq<(Seq<char>, usize)>,
    p: Seq<char>,
    d: usize,
    config: DependencyGraphConfig,
)
    requires
        walk_wf(nodes, m0, config),
        node_names(nodes).contains(p),
        d <= config.max_depth,
        match memo_index(m0, p, 0) {
            Some(i) => m0[i].1 > d && m1 == m0.update(i, (p, d)),
            None => m1 == m0.push((p, d)),
        },
    ensures
        walk_wf(nodes, m1, config),
        budget(m1, config.max_nodes, config.max_depth) < budget(m0, config.max_nodes, config.max_depth),
{
    lemma_memo_index_props(m0, p, 0);
    match memo_index(m0, p, 0) {
        Some(i) => {
            lemma_memo_sum_update(m0, i, (p, d));
            assert forall|a: int, b: int| 0 <= a < b < m1.len() implies (#[trigger] m1[a]).0 != (
            #[trigger] m1[b]).0 by {
                assert(m0[a].0 != m0[b].0);
            }
            assert forall|a: int| 0 <= a < m1.len() implies node_names(nodes).contains(
                #[trigger] m1[a].0,
            ) by {
                assert(node_names(nodes).contains(m0[a].0));
            }
        },
        None => {
            assert(m1.drop_last() =~= m0);
            assert(memo_sum(m1) == memo_sum(m0) + d);
            let n = config.max_nodes as int;
            let dd = config.max_depth as int;
            let l = m0.len() as int;
            assert((n - (l + 1)) * (dd + 1) == (n - l) * (dd + 1) - (dd + 1)) by (nonlinear_arith);
            assert forall|a: int, b: int| 0 <= a < b < m1.len() implies (#[trigger] m1[a]).0 != (
            #[trigger] m1[b]).0 by {
                if b < m0.len() {
                    assert(m0[a].0 != m0[b].0);
                } else {
                    assert(m0[a].0 != p);
                }
            }
            assert forall|a: int| 0 <= a < m1.len() implies node_names(nodes).contains(
                #[trigger] m1[a].0,
            ) by {
                if a < m0.len() {
                    assert(node_names(nodes).contains(m0[a].0));
                }
            }
        },
    }
}

/// Replaces a node by itself reached at `depth` (keeping the shallower depth) and, for a direct
/// request, narrowed by the request's requirement.
fn update_selected_node(
    nodes: &mut Vec<DependencyGraphNode>,
    i: usize,
    pending: &PendingRequest,
    is_provider: bool,
    diagnostics: &mut Vec<DependencyGraphDiagnostic>,
)
    requires
        i < old(nodes)@.len(),
    ensures
        node_names(final(nodes)@) == node_names(old(nodes)@),
        final(nodes)@.len() == old(nodes)@.len(),
        forall|a: int| 0 <= a < final(nodes)@.len() ==> (#[trigger] final(nodes)@[a]).status == old(nodes)@[a].status,
        forall|a: int| 0 <= a < final(nodes)@.len() && a != i ==> #[trigger] final(nodes)@[a] == old(nodes)@[a],
        ({
            let o = old(nodes)@[i as int];
            let n = final(nodes)@[i as int];
            &&& n.name == o.name && n.pkgbase == o.pkgbase && n.version == o.version
            &&& n.provenance == o.provenance && n.provides == o.provides && n.conflicts == o.conflicts
            &&& n.depth == if pending.depth < o.depth { pending.depth } else { o.depth }
            &&& is_provider ==> n.constraints == o.constraints
            &&& !is_provider ==> match intersect(
                bound_view(o.constraints.lower),
                bound_view(o.constraints.upper),
                pending.version_req@,
            ) {
                Some((lo, up)) => bound_view(n.constraints.lower) == lo && bound_view(n.constraints.upper)
                    == up,
                None => n.constraints == o.constraints,
            }
        }),
        is_provider ==> final(diagnostics)@ == old(diagnostics)@,
        !is_provider ==> match requirement_diag(
            old(nodes)@[i as int].name@,
            old(nodes)@[i as int].constraints,
            pending.version_req@,
            crate::deps::query::opt_view(pending.parent),
        ) {
            None => final(diagnostics)@ == old(diagnostics)@,
            Some(d) => final(diagnostics)@.len() == old(diagnostics)@.len() + 1 && final(diagnostics)@.drop_last()
                == old(diagnostics)@ && diag_view(final(diagnostics)@.last()) == d,
        },
{
    let ghost n0 = nodes@;
    let mut n = nodes.remove(i);
    if pending.depth < n.depth {
        n.depth = pending.depth;
    }
    if !is_provider {
        let parent = match &pending.parent {
            Some(p) => Some(p.as_str()),
            None => None,
        };
        merge_node_requirement(&mut n, pending.version_req.as_str(), parent, diagnostics);
    }
    nodes.insert(i, n);
    proof {
        assert(node_names(nodes@) =~= node_names(n0));
    }
}

/// Dependencies of a package, given by its metadata lists in field-index order, that a graph
/// follows: runtime ones, then optional (their targets), build and check ones when included,
/// in lexical order without repeats.
pub open spec fn fields_deps(f: Seq<Seq<Seq<char>>>, opt: bool, make: bool, check: bool) -> Seq<Seq<char>> {
    let all = f[0] + (if opt {
        f[3].map_values(|d: Seq<char>| opt_target(d))
    } else {
        seq![]
    }) + (if make {
        f[1]
    } else {
        seq![]
    }) + (if check {
        f[2]
    } else {
        seq![]
    });
    crate::text::dedup(all.sort_by(crate::text::lex_leq()))
}

/// Name and requirement of each of the first `k` dependency specifications whose name is not
/// empty, in order.
pub open spec fn queued_specs(ds: Seq<Seq<char>>, k: int) -> Seq<(Seq<char>, Seq<char>)>
    decreases k,
{
    if k <= 0 {
        Seq::empty()
    } else {
        let q = queued_specs(ds, k - 1);
        let parts = crate::deps::parse::dep_spec_parts(ds[k - 1]);
        if parts.0.len() > 0 {
            q.push(parts)
        } else {
            q
        }
    }
}

/// The dependency requests that found metadata queues when it is followed: those of the
/// selected output's dependencies.
pub open spec fn followed_specs(
    srcinfo: Seq<char>,
    i: int,
    opt: bool,
    make: bool,
    check: bool,
) -> Seq<(Seq<char>, Seq<char>)> {
    let ds = fields_deps(crate::deps::srcinfo::srcinfo_packages(srcinfo)[i].1, opt, make, check);
    queued_specs(ds, ds.len() as int)
}

/// Lemma: an edge added unless present is present.
proof fn lemma_edge_present(
    before: Seq<(Seq<char>, Seq<char>, Seq<char>, Seq<char>)>,
    after: Seq<(Seq<char>, Seq<char>, Seq<char>, Seq<char>)>,
    e: (Seq<char>, Seq<char>, Seq<char>, Seq<char>),
)
    requires
        after == if before.contains(e) {
            before
        } else {
            before.push(e)
        },
    ensures
        after.contains(e),
{
    if !before.contains(e) {
        assert(after[before.len() as int] == e);
    }
}

/// Follows found metadata: the selected package output becomes a node (a missing node when the
/// metadata does not verify the request), with its edge and root; then, unless the branch
/// closes a cycle, was already expanded at that depth or shallower, or reaches the depth limit
/// (diagnosed when dependencies are cut), its dependencies are queued one level deeper.
fn process_found_metadata(
    pending: PendingRequest,
    metadata: DependencyMetadata,
    include_optdepends: bool,
    include_makedepends: bool,
    include_checkdepends: bool,
    nodes: &mut Vec<DependencyGraphNode>,
    edges: &mut Vec<DependencyGraphEdge>,
    roots: &mut Vec<String>,
    config: &DependencyGraphConfig,
    diagnostics: &mut Vec<DependencyGraphDiagnostic>,
    pending_requests: &mut Vec<PendingRequest>,
    expanded_depths: &mut Vec<(String, usize)>,
)
    requires
        graph_wf(old(nodes)@, old(edges)@, old(roots)@, *config),
        walk_wf(old(nodes)@, memo_view(old(expanded_depths)@), *config),
        pending_ok(old(pending_requests)@, old(nodes)@, *config),
        pending.depth <= config.max_depth,
        pending.parent matches Some(p) ==> node_names(old(nodes)@).contains(p@),
    ensures
        graph_wf(final(nodes)@, final(edges)@, final(roots)@, *config),
        walk_wf(final(nodes)@, memo_view(final(expanded_depths)@), *config),
        pending_ok(final(pending_requests)@, final(nodes)@, *config),
        names_grow(old(nodes)@, final(nodes)@),
        final(nodes)@.len() >= old(nodes)@.len(),
        forall|n: Seq<char>|
            #[trigger] crate::text::sv(old(roots)@).contains(n) ==> crate::text::sv(final(roots)@).contains(n),
        (memo_view(final(expanded_depths)@) == memo_view(old(expanded_depths)@)
            && final(pending_requests)@ == old(pending_requests)@) || budget(
            memo_view(final(expanded_depths)@),
            config.max_nodes,
            config.max_depth,
        ) < budget(memo_view(old(expanded_depths)@), config.max_nodes, config.max_depth),
        ({
            let selected = selected_output(
                metadata.srcinfo@,
                metadata.package_name@,
                pending.requested_name@,
                pending.version_req@,
            ) is Some;
            let target = if selected {
                metadata.package_name@
            } else {
                pending.requested_name@
            };
            let allowed = node_names(old(nodes)@).contains(target) || old(nodes)@.len() < config.max_nodes;
            &&& allowed ==> node_names(final(nodes)@).contains(target)
            &&& allowed ==> (pending.parent matches Some(p) ==> edges_view(final(edges)@).contains(
                (p@, target, pending.requested_name@, pending.version_req@),
            ))
            &&& allowed && pending.parent is None ==> crate::text::sv(final(roots)@).contains(target)
            &&& !allowed ==> final(nodes)@ == old(nodes)@ && final(edges)@ == old(edges)@
                && final(roots)@ == old(roots)@
            &&& final(pending_requests)@.len() >= old(pending_requests)@.len()
            &&& final(pending_requests)@.take(old(pending_requests)@.len() as int) == old(pending_requests)@
            &&& forall|x: int|
                old(pending_requests)@.len() <= x < final(pending_requests)@.len() ==> (
                #[trigger] final(pending_requests)@[x]).depth == pending.depth + 1
                    && final(pending_requests)@[x].parent is Some && final(pending_requests)@[x].parent->0@
                    == target
            &&& !selected || !allowed || crate::text::sv(pending.path@).contains(target)
                ==> final(pending_requests)@ == old(pending_requests)@ && final(expanded_depths)@
                == old(expanded_depths)@
        }),
        ({
            let sel = selected_output(
                metadata.srcinfo@,
                metadata.package_name@,
                pending.requested_name@,
                pending.version_req@,
            );
            let target = metadata.package_name@;
            let follow = sel is Some && (node_names(old(nodes)@).contains(target) || old(nodes)@.len()
                < config.max_nodes) && !crate::text::sv(pending.path@).contains(target)
                && expansion_granted(memo_view(old(expanded_depths)@), target, pending.depth)
                && pending.depth < config.max_depth;
            let q = followed_specs(
                metadata.srcinfo@,
                sel->0,
                include_optdepends,
                include_makedepends,
                include_checkdepends,
            );
            let n0 = old(pending_requests)@.len();
            let fp = final(pending_requests)@;
            &&& !follow ==> fp == old(pending_requests)@
            &&& follow ==> fp.len() == n0 + q.len()
            &&& follow ==> forall|x: int|
                0 <= x < q.len() ==> ((#[trigger] fp[n0 + x]).requested_name@, fp[n0 + x].version_req@)
                    == q[x] && crate::text::sv(fp[n0 + x].path@) == crate::text::sv(pending.path@).push(
                    target,
                )
        }),
{
    let ghost n0 = nodes@;
    let ghost m0 = memo_view(expanded_depths@);
    let ghost p0 = pending_requests@;
    let ghost e0 = edges@;
    let (data, k) = match select_srcinfo_package(&metadata, &pending, diagnostics) {
        Some(x) => x,
        None => {
            let missing = missing_node(
                pending.requested_name.as_str(),
                pending.depth,
                Some(metadata.source),
            );
            let attached = attach_node(&pending, missing, nodes, edges, roots, config, diagnostics);
            proof {
                lemma_walk_grow(n0, nodes@, m0, *config);
                lemma_pending_grow(p0, n0, nodes@, *config);
                assert(pending_requests@.take(p0.len() as int) =~= p0);
                if attached && pending.parent is Some {
                    lemma_edge_present(
                        edges_view(e0),
                        edges_view(edges@),
                        (pending.parent->0@, pending.requested_name@, pending.requested_name@, pending.version_req@),
                    );
                }
            }
            return ;
        },
    };
    let selected_name = metadata.package_name.clone();
    let is_provider = !crate::text::str_eq(selected_name.as_str(), pending.requested_name.as_str());
    let pkgbase = if data.pkgbase.as_str().is_empty() {
        None
    } else {
        Some(data.pkgbase.clone())
    };
    let version = srcinfo_version(&data);
    let provider = if is_provider {
        Some(selected_name.clone())
    } else {
        None
    };
    let node = DependencyGraphNode {
        name: selected_name.clone(),
        pkgbase,
        version,
        provenance: DependencyProvenance {
            requested_name: pending.requested_name.clone(),
            source: Some(metadata.source),
            provider,
        },
        status: DependencyGraphNodeStatus::Resolved,
        constraints: DependencyConstraintRange::default(),
        provides: data.packages[k].provides.clone(),
        conflicts: data.packages[k].conflicts.clone(),
        depth: pending.depth,
    };
    let attached = attach_node(&pending, node, nodes, edges, roots, config, diagnostics);
    proof {
        lemma_walk_grow(n0, nodes@, m0, *config);
        lemma_pending_grow(p0, n0, nodes@, *config);
        assert(pending_requests@.take(p0.len() as int) =~= p0);
        if attached && pending.parent is Some {
            lemma_edge_present(
                edges_view(e0),
                edges_view(edges@),
                (pending.parent->0@, metadata.package_name@, pending.requested_name@, pending.version_req@),
            );
        }
    }
    if !attached {
        return ;
    }
    let i = match node_index(nodes, selected_name.as_str()) {
        Some(i) => i,
        None => {
            return ;
        },
    };
    let ghost n1 = nodes@;
    update_selected_node(nodes, i, &pending, is_provider, diagnostics);
    proof {
        assert(names_grow(n1, nodes@));
        assert(names_grow(n0, nodes@));
        lemma_graph_grow(n1, nodes@, edges@, roots@, *config);
        lemma_walk_grow(n1, nodes@, m0, *config);
        lemma_pending_grow(p0, n1, nodes@, *config);
    }
    if crate::deps::query::names_contain(&pending.path, selected_name.as_str()) {
        push_diagnostic(
            diagnostics,
            DependencyGraphDiagnosticKind::Cycle,
            selected_name.as_str(),
            clone_opt(&pending.parent),
            "dependency cycle detected; branch expansion stopped".to_owned(),
        );
        return ;
    }
    if !mark_expansion(expanded_depths, selected_name.as_str(), pending.depth) {
        return ;
    }
    proof {
        lemma_mark_step(nodes@, m0, memo_view(expanded_depths@), selected_name@, pending.depth, *config);
    }
    if pending.depth >= config.max_depth {
        let deps = selected_dependencies(
            &data.packages[k],
            include_optdepends,
            include_makedepends,
            include_checkdepends,
        );
        if deps.len() > 0 {
            let mut msg = to_chars("dependency graph depth limit (");
            let d = crate::error::decimal_chars(config.max_depth as u64);
            crate::text::extend_chars(&mut msg, d.as_slice());
            let tail = to_chars(") reached");
            crate::text::extend_chars(&mut msg, tail.as_slice());
            push_diagnostic(
                diagnostics,
                DependencyGraphDiagnosticKind::DepthLimit,
                selected_name.as_str(),
                None,
                crate::text::chars_to_string(msg.as_slice()),
            );
        }
        return ;
    }
    let deps = selected_dependencies(
        &data.packages[k],
        include_optdepends,
        include_makedepends,
        include_checkdepends,
    );
    let ghost ds = crate::text::sv(deps@);
    proof {
        let pk = crate::deps::srcinfo::srcinfo_packages(metadata.srcinfo@);
        let pkg = data.packages@[k as int];
        assert(pk[k as int].1 == crate::deps::srcinfo::package_fields(pkg));
        assert(ds == fields_deps(pk[k as int].1, include_optdepends, include_makedepends, include_checkdepends));
    }
    let mut next_path = crate::deps::reverse::clone_strings(&pending.path);
    next_path.push(selected_name.clone());
    proof {
        assert(crate::text::sv(next_path@) =~= crate::text::sv(pending.path@).push(selected_name@));
    }
    let depth = pending.depth + 1;
    let mut j: usize = 0;
    while j < deps.len()
        invariant
            j <= deps@.len(),
            ds == crate::text::sv(deps@),
            crate::text::sv(next_path@) == crate::text::sv(pending.path@).push(metadata.package_name@),
            pending_requests@.len() == p0.len() + queued_specs(ds, j as int).len(),
            forall|x: int|
                0 <= x < queued_specs(ds, j as int).len() ==> ((#[trigger] pending_requests@[p0.len()
                    + x]).requested_name@, pending_requests@[p0.len() + x].version_req@) == queued_specs(
                    ds,
                    j as int,
                )[x] && crate::text::sv(pending_requests@[p0.len() + x].path@) == crate::text::sv(
                    pending.path@,
                ).push(metadata.package_name@),
            pending_ok(pending_requests@, nodes@, *config),
            node_names(nodes@).contains(selected_name@),
            depth <= config.max_depth,
            depth == pending.depth + 1,
            selected_name@ == metadata.package_name@,
            pending_requests@.len() >= p0.len(),
            pending_requests@.take(p0.len() as int) == p0,
            forall|x: int|
                p0.len() <= x < pending_requests@.len() ==> (#[trigger] pending_requests@[x]).depth == depth
                    && pending_requests@[x].parent is Some && pending_requests@[x].parent->0@
                    == selected_name@,
        decreases deps@.len() - j,
    {
        let spec = crate::deps::parse::parse_dep_spec(deps[j].as_str());
        proof {
            assert(ds[j as int] == deps@[j as int]@);
        }
        if !spec.name.as_str().is_empty() {
            let ghost q0 = pending_requests@;
            pending_requests.push(
                PendingRequest {
                    parent: Some(selected_name.clone()),
                    requested_name: spec.name,
                    version_req: spec.version_req,
                    depth,
                    path: crate::deps::reverse::clone_strings(&next_path),
                },
            );
            proof {
                let qs = queued_specs(ds, j as int);
                assert(queued_specs(ds, j as int + 1) == qs.push((spec.name@, spec.version_req@)));
                assert forall|x: int| 0 <= x < queued_specs(ds, j as int + 1).len() implies ((
                #[trigger] pending_requests@[p0.len() + x]).requested_name@, pending_requests@[p0.len()
                    + x].version_req@) == queued_specs(ds, j as int + 1)[x] && crate::text::sv(
                    pending_requests@[p0.len() + x].path@,
                ) == crate::text::sv(pending.path@).push(metadata.package_name@) by {
                    if x < qs.len() {
                        assert(pending_requests@[p0.len() + x] == q0[p0.len() + x]);
                    }
                }
                assert forall|x: int| 0 <= x < pending_requests@.len() implies (
                #[trigger] pending_requests@[x]).depth <= config.max_depth && (
                pending_requests@[x].parent matches Some(y) ==> node_names(nodes@).contains(y@)) by {
                    if x < q0.len() {
                        assert(pending_requests@[x] == q0[x]);
                    }
                }
                assert(pending_requests@.take(p0.len() as int) =~= q0.take(p0.len() as int));
                assert forall|x: int| p0.len() <= x < pending_requests@.len() implies (
                #[trigger] pending_requests@[x]).depth == depth && pending_requests@[x].parent is Some
                    && pending_requests@[x].parent->0@ == selected_name@ by {
                    if x < q0.len() {
                        assert(pending_requests@[x] == q0[x]);
                    }
                }
            }
        } else {
            assert(queued_specs(ds, j as int + 1) == queued_specs(ds, j as int));
        }
        j += 1;
    }
}

/// Whether a conflict declared by `a` matches `b`.
pub open spec fn declares_conflict(a: DependencyGraphNode, b: DependencyGraphNode) -> bool {
    exists|c: int|
        0 <= c < a.conflicts@.len() && conflict_matches(
            #[trigger] a.conflicts@[c]@,
            b.name@,
            crate::deps::query::opt_view(b.version),
            crate::text::sv(b.provides@),
        )
}

/// Whether two nodes conflict: a conflict declared by either matches the other.
pub open spec fn nodes_conflict(a: DependencyGraphNode, b: DependencyGraphNode) -> bool {
    declares_conflict(a, b) || declares_conflict(b, a)
}

/// Whether the nodes at `a` and `b` are both resolved and conflict.
pub open spec fn resolved_conflict(v: Seq<DependencyGraphNode>, a: int, b: int) -> bool {
    v[a].status == DependencyGraphNodeStatus::Resolved && v[b].status
        == DependencyGraphNodeStatus::Resolved && nodes_conflict(v[a], v[b])
}

/// Whether the node at `i` conflicts with another resolved node while itself resolved.
pub open spec fn conflicted(v: Seq<DependencyGraphNode>, i: int) -> bool {
    exists|j: int| 0 <= j < v.len() && j != i && #[trigger] resolved_conflict(v, i, j)
}

/// Whether some conflict of `conflicts` matches `candidate`.
fn any_conflict_matches(conflicts: &Vec<String>, candidate: &DependencyGraphNode) -> (r: bool)
    ensures
        r == exists|c: int|
            0 <= c < conflicts@.len() && conflict_matches(
                #[trigger] conflicts@[c]@,
                candidate.name@,
                crate::deps::query::opt_view(candidate.version),
                crate::text::sv(candidate.provides@),
            ),
{
    let mut c: usize = 0;
    while c < conflicts.len()
        invariant
            c <= conflicts@.len(),
            forall|x: int|
                0 <= x < c ==> !conflict_matches(
                    #[trigger] conflicts@[x]@,
                    candidate.name@,
                    crate::deps::query::opt_view(candidate.version),
                    crate::text::sv(candidate.provides@),
                ),
        decreases conflicts@.len() - c,
    {
        if conflict_matches_node(conflicts[c].as_str(), candidate) {
            return true;
        }
        c += 1;
    }
    false
}

/// Whether the pair `(a, b)` comes before `(i, j)`.
spec fn pair_before(a: int, b: int, i: int, j: int) -> bool {
    a < i || (a == i && b < j)
}

/// Marks each resolved node that conflicts with another resolved node as conflicting, with a
/// diagnostic for each conflicting pair.
fn apply_conflicts(nodes: &mut Vec<DependencyGraphNode>, diagnostics: &mut Vec<DependencyGraphDiagnostic>)
    ensures
        final(nodes)@.len() == old(nodes)@.len(),
        forall|i: int|
            0 <= i < final(nodes)@.len() ==> (#[trigger] final(nodes)@[i]).name == old(nodes)@[i].name
                && final(nodes)@[i].version == old(nodes)@[i].version && final(nodes)@[i].provides
                == old(nodes)@[i].provides && final(nodes)@[i].conflicts == old(nodes)@[i].conflicts
                && final(nodes)@[i].status == (if conflicted(old(nodes)@, i) {
                DependencyGraphNodeStatus::Conflicting
            } else {
                old(nodes)@[i].status
            }),
        old(nodes)@.len() < 2 ==> final(diagnostics)@ == old(diagnostics)@,
{
    let ghost v = nodes@;
    let n = nodes.len();
    let mut marks: Vec<bool> = Vec::new();
    let mut x: usize = 0;
    while x < n
        invariant
            x <= n,
            n == v.len(),
            marks@.len() == x,
            forall|k: int| 0 <= k < x ==> !marks@[k],
        decreases n - x,
    {
        marks.push(false);
        x += 1;
    }
    let mut i: usize = 0;
    while i < n
        invariant
            i <= n,
            n == v.len(),
            nodes@ == v,
            marks@.len() == n,
            n < 2 ==> diagnostics@ == old(diagnostics)@,
            forall|k: int|
                0 <= k < n ==> (#[trigger] marks@[k] <==> exists|a: int, b: int|
                    0 <= a < b < n && a < i && resolved_conflict(v, a, b) && (k == a || k == b)),
        decreases n - i,
    {
        let mut j: usize = i + 1;
        while j < n
            invariant
                i < n,
                i + 1 <= j <= n,
                n == v.len(),
                n < 2 ==> diagnostics@ == old(diagnostics)@,
                nodes@ == v,
                marks@.len() == n,
                forall|k: int|
                    0 <= k < n ==> (#[trigger] marks@[k] <==> exists|a: int, b: int|
                        0 <= a < b < n && pair_before(a, b, i as int, j as int) && resolved_conflict(
                            v,
                            a,
                            b,
                        ) && (k == a || k == b)),
            decreases n - j,
        {
            let both = match (nodes[i].status, nodes[j].status) {
                (DependencyGraphNodeStatus::Resolved, DependencyGraphNodeStatus::Resolved) => true,
                _ => false,
            };
            let hit = both && (any_conflict_matches(&nodes[i].conflicts, &nodes[j])
                || any_conflict_matches(&nodes[j].conflicts, &nodes[i]));
            let ghost m0 = marks@;
            if hit {
                marks.set(i, true);
                marks.set(j, true);
                push_diagnostic(
                    diagnostics,
                    DependencyGraphDiagnosticKind::Conflict,
                    nodes[i].name.as_str(),
                    Some(nodes[j].name.clone()),
                    "declared package or virtual conflict matched another resolved graph node".to_owned(),
                );
            }
            proof {
                assert(hit == resolved_conflict(v, i as int, j as int));
                assert forall|k: int| 0 <= k < n implies (#[trigger] marks@[k] <==> exists|a: int, b: int|
                    0 <= a < b < n && pair_before(a, b, i as int, j + 1) && resolved_conflict(v, a, b)
                        && (k == a || k == b)) by {
                    if marks@[k] && !m0[k] {
                        assert(pair_before(i as int, j as int, i as int, j + 1));
                        assert(resolved_conflict(v, i as int, j as int));
                    }
                    if exists|a: int, b: int|
                        0 <= a < b < n && pair_before(a, b, i as int, j + 1) && resolved_conflict(
                            v,
                            a,
                            b,
                        ) && (k == a || k == b) {
                        let (a, b) = choose|a: int, b: int|
                            0 <= a < b < n && pair_before(a, b, i as int, j + 1) && resolved_conflict(
                                v,
                                a,
                                b,
                            ) && (k == a || k == b);
                        if pair_before(a, b, i as int, j as int) {
                            assert(m0[k]);
                        }
                    }
                }
            }
            j += 1;
        }
        proof {
            assert forall|k: int| 0 <= k < n implies (#[trigger] marks@[k] <==> exists|a: int, b: int|
                0 <= a < b < n && a < i + 1 && resolved_conflict(v, a, b) && (k == a || k == b)) by {
                if exists|a: int, b: int|
                    0 <= a < b < n && a < i + 1 && resolved_conflict(v, a, b) && (k == a || k == b) {
                    let (a, b) = choose|a: int, b: int|
                        0 <= a < b < n && a < i + 1 && resolved_conflict(v, a, b) && (k == a || k == b);
                    assert(pair_before(a, b, i as int, j as int));
                }
                if marks@[k] {
                    let (a, b) = choose|a: int, b: int|
                        0 <= a < b < n && pair_before(a, b, i as int, j as int) && resolved_conflict(
                            v,
                            a,
                            b,
                        ) && (k == a || k == b);
                    assert(a < i + 1);
                }
            }
        }
        i += 1;
    }
    proof {
        assert forall|k: int| 0 <= k < n implies (#[trigger] marks@[k] <==> conflicted(v, k)) by {
            if marks@[k] {
                let (a, b) = choose|a: int, b: int|
                    0 <= a < b < n && a < n && resolved_conflict(v, a, b) && (k == a || k == b);
                if k == a {
                    assert(resolved_conflict(v, k, b));
                } else {
                    assert(resolved_conflict(v, k, a));
                }
            }
            if conflicted(v, k) {
                let j = choose|j: int| 0 <= j < v.len() && j != k && #[trigger] resolved_conflict(v, k, j);
                if k < j {
                    assert(resolved_conflict(v, k, j));
                } else {
                    assert(resolved_conflict(v, j, k));
                }
            }
        }
    }
    let mut y: usize = 0;
    while y < n
        invariant
            y <= n,
            n == v.len(),
            nodes@.len() == n,
            marks@.len() == n,
            forall|k: int| 0 <= k < n ==> (#[trigger] marks@[k] <==> conflicted(v, k)),
            forall|k: int|
                0 <= k < n ==> (#[trigger] nodes@[k]).name == v[k].name && nodes@[k].version
                    == v[k].version && nodes@[k].provides == v[k].provides && nodes@[k].conflicts
                    == v[k].conflicts && nodes@[k].status == (if k < y && conflicted(v, k) {
                    DependencyGraphNodeStatus::Conflicting
                } else {
                    v[k].status
                }),
        decreases n - y,
    {
        if marks[y] {
            let ghost before = nodes@;
            let mut node = nodes.remove(y);
            node.status = DependencyGraphNodeStatus::Conflicting;
            nodes.insert(y, node);
            proof {
                assert(nodes@ =~= before.update(y as int, node));
            }
        }
        y += 1;
    }
}

/// Texts by which edges are ordered: from, to, requested name, requirement.
pub open spec fn edge_texts(e: DependencyGraphEdge) -> Seq<Seq<char>> {
    seq![e.from@, e.to@, e.requested_name@, e.version_req@]
}

/// Ordering text of an optional name: empty for none, `+` and the name otherwise (so none comes
/// first).
pub open spec fn opt_key(o: Option<String>) -> Seq<char> {
    match o {
        None => seq![],
        Some(x) => seq!['+'] + x@,
    }
}

/// Texts by which diagnostics are ordered: category name, package, related package, message.
pub open spec fn diagnostic_texts(d: DependencyGraphDiagnostic) -> Seq<Seq<char>> {
    seq![kind_text(d.kind), d.package@, opt_key(d.related_package), d.message@]
}

/// Character vector of `opt_key`.
fn opt_key_chars(o: &Option<String>) -> (r: Vec<char>)
    ensures
        r@ == opt_key(*o),
{
    match o {
        Some(x) => {
            let mut v: Vec<char> = Vec::new();
            v.push('+');
            let xc = to_chars(x.as_str());
            crate::text::extend_chars(&mut v, xc.as_slice());
            v
        },
        None => Vec::new(),
    }
}

/// Sort key of an edge.
fn edge_key(e: &DependencyGraphEdge) -> (k: (usize, Vec<Vec<char>>))
    ensures
        k.0 == 0,
        crate::text::vv(k.1@) == edge_texts(*e),
{
    let mut parts: Vec<Vec<char>> = Vec::new();
    parts.push(to_chars(e.from.as_str()));
    parts.push(to_chars(e.to.as_str()));
    parts.push(to_chars(e.requested_name.as_str()));
    parts.push(to_chars(e.version_req.as_str()));
    assert(crate::text::vv(parts@) =~= edge_texts(*e));
    (0, parts)
}

/// Sort key of a diagnostic.
fn diagnostic_key(d: &DependencyGraphDiagnostic) -> (k: (usize, Vec<Vec<char>>))
    ensures
        k.0 == 0,
        crate::text::vv(k.1@) == diagnostic_texts(*d),
{
    let mut parts: Vec<Vec<char>> = Vec::new();
    parts.push(to_chars(kind_name(d.kind)));
    parts.push(to_chars(d.package.as_str()));
    parts.push(opt_key_chars(&d.related_package));
    parts.push(to_chars(d.message.as_str()));
    assert(crate::text::vv(parts@) =~= diagnostic_texts(*d));
    (0, parts)
}

/// Items in order of their keys, with the keys in that order and, for each item, the position
/// it came from.
fn sort_keyed<T>(keyed: Vec<((usize, Vec<Vec<char>>), T)>) -> (r: (
    Vec<T>,
    Ghost<Seq<(usize, Seq<Seq<char>>)>>,
    Ghost<Seq<int>>,
))
    ensures
        r.0@.len() == keyed@.len(),
        r.1@.len() == keyed@.len(),
        r.2@.len() == keyed@.len(),
        forall|i: int, j: int|
            0 <= i < j < r.1@.len() ==> crate::text::key_order(#[trigger] r.1@[i], #[trigger] r.1@[j])
                != Order::Greater,
        forall|i: int|
            0 <= i < r.0@.len() ==> 0 <= #[trigger] r.2@[i] < keyed@.len() && keyed@[r.2@[i]].1
                == r.0@[i] && crate::text::ckey(keyed@[r.2@[i]]) == r.1@[i],
        (forall|a: int, b: int|
            0 <= a < b < keyed@.len() ==> crate::text::ckey(#[trigger] keyed@[a]) != crate::text::ckey(
                #[trigger] keyed@[b],
            )) ==> r.1@.no_duplicates(),
{
    broadcast use vstd::seq_lib::group_to_multiset_ensures;

    let ghost kv = keyed@;
    let sorted = crate::text::sort_by_ckey(keyed);
    let ghost sv2 = sorted@;
    let ghost ks = sv2.map_values(|p: ((usize, Vec<Vec<char>>), T)| crate::text::ckey(p));
    let mut out: Vec<T> = Vec::new();
    let mut rest = sorted;
    while rest.len() > 0
        invariant
            out@.len() + rest@.len() == sv2.len(),
            rest@ == sv2.skip(out@.len() as int),
            forall|k: int| 0 <= k < out@.len() ==> (#[trigger] out@[k]) == sv2[k].1,
        decreases rest@.len(),
    {
        let ghost i = out@.len();
        let x = rest.remove(0);
        assert(x == sv2[i as int]);
        out.push(x.1);
        assert(rest@ =~= sv2.skip(i as int + 1));
    }
    let ghost idx = Seq::new(out@.len(), |i: int| choose|a: int| 0 <= a < kv.len() && kv[a] == sv2[i]);
    proof {
        assert forall|i: int, j: int| 0 <= i < j < ks.len() implies crate::text::key_order(
            #[trigger] ks[i],
            #[trigger] ks[j],
        ) != Order::Greater by {
            assert(ks[i] == crate::text::ckey(sv2[i]) && ks[j] == crate::text::ckey(sv2[j]));
        }
        assert forall|i: int| 0 <= i < out@.len() implies 0 <= #[trigger] idx[i] < kv.len() && kv[idx[i]].1
            == out@[i] && crate::text::ckey(kv[idx[i]]) == ks[i] by {
            assert(sv2.contains(sv2[i]));
            assert(sv2.to_multiset().count(sv2[i]) > 0);
            assert(kv.contains(sv2[i]));
            assert(ks[i] == crate::text::ckey(sv2[i]));
        }
        if forall|a: int, b: int|
            0 <= a < b < kv.len() ==> crate::text::ckey(#[trigger] kv[a]) != crate::text::ckey(
                #[trigger] kv[b],
            ) {
            assert(kv.no_duplicates());
            kv.lemma_multiset_has_no_duplicates();
            assert forall|x: ((usize, Vec<Vec<char>>), T)| sv2.to_multiset().contains(x) implies sv2.to_multiset().count(
                x,
            ) == 1 by {
                assert(kv.to_multiset().contains(x));
            }
            sv2.lemma_multiset_has_no_duplicates_conv();
            assert forall|i: int, j: int| 0 <= i < ks.len() && 0 <= j < ks.len() && i != j implies ks[i]
                != ks[j] by {
                assert(sv2.contains(sv2[i]) && sv2.contains(sv2[j]));
                assert(sv2.to_multiset().count(sv2[i]) > 0 && sv2.to_multiset().count(sv2[j]) > 0);
                let a = choose|a: int| 0 <= a < kv.len() && kv[a] == sv2[i];
                let b = choose|b: int| 0 <= b < kv.len() && kv[b] == sv2[j];
                if ks[i] == ks[j] {
                    assert(crate::text::ckey(kv[a]) == crate::text::ckey(kv[b]));
                    if a < b {
                        assert(crate::text::ckey(kv[a]) != crate::text::ckey(kv[b]));
                    } else if b < a {
                        assert(crate::text::ckey(kv[b]) != crate::text::ckey(kv[a]));
                    }
                    assert(sv2[i] == sv2[j]);
                }
            }
        }
    }
    (out, Ghost(ks), Ghost(idx))
}

/// Edges in order of (from, to, requested name, requirement).
fn sort_edges(edges: Vec<DependencyGraphEdge>) -> (r: Vec<DependencyGraphEdge>)
    ensures
        r@.len() == edges@.len(),
        forall|i: int, j: int|
            0 <= i < j < r@.len() ==> crate::text::texts_order(
                edge_texts(#[trigger] r@[i]),
                edge_texts(#[trigger] r@[j]),
            ) != Order::Greater,
        forall|i: int| 0 <= i < r@.len() ==> edges@.contains(#[trigger] r@[i]),
        edges_view(edges@).no_duplicates() ==> forall|i: int, j: int|
            0 <= i < j < r@.len() ==> crate::text::texts_order(
                edge_texts(#[trigger] r@[i]),
                edge_texts(#[trigger] r@[j]),
            ) == Order::Less,
{
    let ghost orig = edges@;
    let mut keyed: Vec<((usize, Vec<Vec<char>>), DependencyGraphEdge)> = Vec::new();
    let mut rest = edges;
    while rest.len() > 0
        invariant
            keyed@.len() + rest@.len() == orig.len(),
            rest@ == orig.skip(keyed@.len() as int),
            forall|k: int|
                0 <= k < keyed@.len() ==> (#[trigger] keyed@[k]).1 == orig[k] && crate::text::ckey(
                    keyed@[k],
                ) == (0usize, edge_texts(orig[k])),
        decreases rest@.len(),
    {
        let ghost i = keyed@.len();
        let x = rest.remove(0);
        assert(x == orig[i as int]);
        let key = edge_key(&x);
        keyed.push((key, x));
        assert(rest@ =~= orig.skip(i as int + 1));
    }
    let ghost kv = keyed@;
    proof {
        if edges_view(orig).no_duplicates() {
            assert forall|a: int, b: int| 0 <= a < b < kv.len() implies crate::text::ckey(#[trigger] kv[a])
                != crate::text::ckey(#[trigger] kv[b]) by {
                assert(edges_view(orig)[a] != edges_view(orig)[b]);
                if edge_texts(orig[a]) == edge_texts(orig[b]) {
                    assert(edge_texts(orig[a])[0] == orig[a].from@);
                    assert(edge_texts(orig[b])[0] == orig[b].from@);
                    assert(edge_texts(orig[a])[1] == edge_texts(orig[b])[1]);
                    assert(edge_texts(orig[a])[2] == edge_texts(orig[b])[2]);
                    assert(edge_texts(orig[a])[3] == edge_texts(orig[b])[3]);
                }
            }
        }
    }
    let (out, Ghost(ks), Ghost(idx)) = sort_keyed(keyed);
    proof {
        assert forall|i: int| 0 <= i < out@.len() implies orig.contains(#[trigger] out@[i]) && ks[i] == (
        0usize, edge_texts(out@[i])) by {
            let a = idx[i];
            assert(orig[a] == out@[i]);
        }
        if edges_view(orig).no_duplicates() {
            assert forall|i: int, j: int| 0 <= i < j < out@.len() implies crate::text::texts_order(
                edge_texts(#[trigger] out@[i]),
                edge_texts(#[trigger] out@[j]),
            ) == Order::Less by {
                assert(crate::text::key_order(ks[i], ks[j]) != Order::Greater);
                assert(ks[i] != ks[j]);
                if crate::text::texts_order(edge_texts(out@[i]), edge_texts(out@[j])) == Order::Equal {
                    crate::text::lemma_texts_order_equal(edge_texts(out@[i]), edge_texts(out@[j]));
                }
            }
        }
        assert forall|i: int, j: int| 0 <= i < j < out@.len() implies crate::text::texts_order(
            edge_texts(#[trigger] out@[i]),
            edge_texts(#[trigger] out@[j]),
        ) != Order::Greater by {
            assert(crate::text::key_order(ks[i], ks[j]) != Order::Greater);
            assert(ks[i] == (0usize, edge_texts(out@[i])));
            assert(ks[j] == (0usize, edge_texts(out@[j])));
        }
    }
    out
}

/// Diagnostics in order of (category name, package, related package, message).
fn sort_diagnostics(diagnostics: Vec<DependencyGraphDiagnostic>) -> (r: Vec<DependencyGraphDiagnostic>)
    ensures
        r@.len() == diagnostics@.len(),
        forall|i: int, j: int|
            0 <= i < j < r@.len() ==> crate::text::texts_order(
                diagnostic_texts(#[trigger] r@[i]),
                diagnostic_texts(#[trigger] r@[j]),
            ) != Order::Greater,
        forall|i: int| 0 <= i < r@.len() ==> diagnostics@.contains(#[trigger] r@[i]),
{
    let ghost orig = diagnostics@;
    let mut keyed: Vec<((usize, Vec<Vec<char>>), DependencyGraphDiagnostic)> = Vec::new();
    let mut rest = diagnostics;
    while rest.len() > 0
        invariant
            keyed@.len() + rest@.len() == orig.len(),
            rest@ == orig.skip(keyed@.len() as int),
            forall|k: int|
                0 <= k < keyed@.len() ==> (#[trigger] keyed@[k]).1 == orig[k] && crate::text::ckey(
                    keyed@[k],
                ) == (0usize, diagnostic_texts(orig[k])),
        decreases rest@.len(),
    {
        let ghost i = keyed@.len();
        let x = rest.remove(0);
        assert(x == orig[i as int]);
        let key = diagnostic_key(&x);
        keyed.push((key, x));
        assert(rest@ =~= orig.skip(i as int + 1));
    }
    let ghost kv = keyed@;
    let (out, Ghost(ks), Ghost(idx)) = sort_keyed(keyed);
    proof {
        assert forall|i: int| 0 <= i < out@.len() implies orig.contains(#[trigger] out@[i]) && ks[i] == (
        0usize, diagnostic_texts(out@[i])) by {
            let a = idx[i];
            assert(orig[a] == out@[i]);
        }
        assert forall|i: int, j: int| 0 <= i < j < out@.len() implies crate::text::texts_order(
            diagnostic_texts(#[trigger] out@[i]),
            diagnostic_texts(#[trigger] out@[j]),
        ) != Order::Greater by {
            assert(crate::text::key_order(ks[i], ks[j]) != Order::Greater);
            assert(ks[i] == (0usize, diagnostic_texts(out@[i])));
            assert(ks[j] == (0usize, diagnostic_texts(out@[j])));
        }
    }
    out
}

/// Why graph bounds are refused, if they are: zero nodes, a zero timeout, or zero names per
/// batch (in that order).
pub open spec fn config_problem(config: DependencyGraphConfig) -> Option<Seq<char>> {
    if config.max_nodes == 0 {
        Some("dependency graph max_nodes must be greater than zero"@)
    } else if is_zero_duration(config.metadata_timeout) {
        Some("dependency graph metadata_timeout must be greater than zero"@)
    } else if config.max_concurrency == 0 {
        Some("dependency graph max_concurrency must be greater than zero"@)
    } else {
        None
    }
}

/// Shape of a resolved graph: nodes in order of name (each name once) within the node limit;
/// roots in order, each a node; edges between nodes, in order; diagnostics in order; and a node
/// is conflicting exactly when it and another node with metadata conflict.
pub open spec fn graph_result_wf(g: DependencyGraphResolution, config: DependencyGraphConfig) -> bool {
    &&& nodes_sorted(g.nodes@)
    &&& g.nodes@.len() <= config.max_nodes
    &&& strictly_sorted(crate::text::sv(g.roots@))
    &&& forall|k: int| 0 <= k < g.roots@.len() ==> node_names(g.nodes@).contains(#[trigger] g.roots@[k]@)
    &&& forall|k: int|
        0 <= k < g.edges@.len() ==> node_names(g.nodes@).contains((#[trigger] g.edges@[k]).from@)
            && node_names(g.nodes@).contains(g.edges@[k].to@)
    &&& forall|i: int, j: int|
        0 <= i < j < g.edges@.len() ==> crate::text::texts_order(
            edge_texts(#[trigger] g.edges@[i]),
            edge_texts(#[trigger] g.edges@[j]),
        ) == Order::Less
    &&& forall|i: int, j: int|
        0 <= i < j < g.diagnostics@.len() ==> crate::text::texts_order(
            diagnostic_texts(#[trigger] g.diagnostics@[i]),
            diagnostic_texts(#[trigger] g.diagnostics@[j]),
        ) != Order::Greater
    &&& forall|i: int|
        0 <= i < g.nodes@.len() ==> ((#[trigger] g.nodes@[i]).status
            == DependencyGraphNodeStatus::Conflicting <==> (g.nodes@[i].status
            != DependencyGraphNodeStatus::Missing && exists|j: int|
            0 <= j < g.nodes@.len() && j != i && g.nodes@[j].status
                != DependencyGraphNodeStatus::Missing && nodes_conflict(
                g.nodes@[i],
                #[trigger] g.nodes@[j],
            )))
}

/// Requested names of queued requests.
spec fn pending_names(p: Seq<PendingRequest>) -> Seq<Seq<char>> {
    p.map_values(|x: PendingRequest| x.requested_name@)
}

/// Names of the next batch among the first `k` candidates: each candidate not yet cached and not
/// yet in the batch joins it, until it holds `max` names.
pub open spec fn batch_fold(
    cache: Seq<(String, DependencyMetadataResponse)>,
    candidates: Seq<Seq<char>>,
    max: usize,
    k: int,
) -> Seq<Seq<char>>
    decreases k,
{
    if k <= 0 {
        Seq::empty()
    } else {
        let b = batch_fold(cache, candidates, max, k - 1);
        let n = candidates[k - 1];
        if b.len() < max && cached(cache, n) is None && !b.contains(n) {
            b.push(n)
        } else {
            b
        }
    }
}

/// The names of the batch asked for a request: the request's name (unless cached), then the
/// queued names in queue order, skipping cached and repeated names, at most `max` of them.
spec fn batch_names(
    cache: Seq<(String, DependencyMetadataResponse)>,
    request: PendingRequest,
    pending: Seq<PendingRequest>,
    max: usize,
) -> Seq<Seq<char>> {
    let c = seq![request.requested_name@] + pending_names(pending);
    batch_fold(cache, c, max, c.len() as int)
}

/// Lemma: a batch holds at most `max` distinct names, none cached, all candidates; its first
/// candidate joins it when uncached and `max` is positive.
proof fn lemma_batch_fold(
    cache: Seq<(String, DependencyMetadataResponse)>,
    candidates: Seq<Seq<char>>,
    max: usize,
    k: int,
)
    requires
        0 <= k <= candidates.len(),
    ensures
        batch_fold(cache, candidates, max, k).len() <= max,
        batch_fold(cache, candidates, max, k).no_duplicates(),
        forall|n: Seq<char>|
            #[trigger] batch_fold(cache, candidates, max, k).contains(n) ==> cached(cache, n) is None
                && candidates.take(k).contains(n),
        k > 0 && max > 0 && cached(cache, candidates[0]) is None ==> batch_fold(
            cache,
            candidates,
            max,
            k,
        ).contains(candidates[0]),
    decreases k,
{
    if k > 0 {
        lemma_batch_fold(cache, candidates, max, k - 1);
        let b = batch_fold(cache, candidates, max, k - 1);
        let n = candidates[k - 1];
        assert forall|x: Seq<char>| #[trigger] batch_fold(cache, candidates, max, k).contains(x) implies cached(
            cache,
            x,
        ) is None && candidates.take(k).contains(x) by {
            vstd::seq_lib::lemma_seq_contains_after_push(b, n, x);
            lemma_take_step(candidates, k - 1, x);
        }
        if b.len() < max && cached(cache, n) is None && !b.contains(n) {
            vstd::seq_lib::lemma_seq_contains_after_push(b, n, candidates[0]);
        }
        if k == 1 {
            assert(b =~= Seq::<Seq<char>>::empty());
        }
    }
}

/// Adds `name` to the batch when there is room, it is not cached and not yet in the batch.
fn batch_step(
    batch: &mut Vec<String>,
    cache: &Vec<(String, DependencyMetadataResponse)>,
    name: &str,
    max_concurrency: usize,
    Ghost(f): Ghost<Seq<Seq<char>>>,
)
    requires
        strictly_sorted(crate::text::sv(old(batch)@)),
        old(batch)@.len() == f.len(),
        forall|n: Seq<char>| #[trigger] crate::text::sv(old(batch)@).contains(n) <==> f.contains(n),
    ensures
        ({
            let g = if f.len() < max_concurrency && cached(cache@, name@) is None && !f.contains(name@) {
                f.push(name@)
            } else {
                f
            };
            &&& strictly_sorted(crate::text::sv(final(batch)@))
            &&& final(batch)@.len() == g.len()
            &&& forall|n: Seq<char>| #[trigger] crate::text::sv(final(batch)@).contains(n) <==> g.contains(n)
        }),
{
    if batch.len() < max_concurrency && !cache_has(cache, name)
        && !crate::deps::query::names_contain(batch, name) {
        add_root(batch, name);
        proof {
            assert forall|n: Seq<char>| #[trigger] crate::text::sv(batch@).contains(n) <==> f.push(
                name@,
            ).contains(n) by {
                vstd::seq_lib::lemma_seq_contains_after_push(f, name@, n);
            }
        }
    }
}

/// The next batch for `request`, in lexical order: the names of `batch_names`.
fn next_batch(
    request: &PendingRequest,
    pending_requests: &Vec<PendingRequest>,
    cache: &Vec<(String, DependencyMetadataResponse)>,
    max_concurrency: usize,
) -> (b: Vec<String>)
    ensures
        strictly_sorted(crate::text::sv(b@)),
        b@.len() <= max_concurrency,
        b@.len() == batch_names(cache@, *request, pending_requests@, max_concurrency).len(),
        forall|n: Seq<char>|
            #[trigger] crate::text::sv(b@).contains(n) <==> batch_names(
                cache@,
                *request,
                pending_requests@,
                max_concurrency,
            ).contains(n),
{
    let ghost c = seq![request.requested_name@] + pending_names(pending_requests@);
    let mut batch: Vec<String> = Vec::new();
    proof {
        assert(crate::text::sv(batch@) =~= Seq::<Seq<char>>::empty());
        assert(c[0] == request.requested_name@);
    }
    batch_step(
        &mut batch,
        cache,
        request.requested_name.as_str(),
        max_concurrency,
        Ghost(batch_fold(cache@, c, max_concurrency, 0)),
    );
    let mut j: usize = 0;
    while j < pending_requests.len()
        invariant
            j <= pending_requests@.len(),
            c == seq![request.requested_name@] + pending_names(pending_requests@),
            c.len() == pending_requests@.len() + 1,
            strictly_sorted(crate::text::sv(batch@)),
            batch@.len() == batch_fold(cache@, c, max_concurrency, j + 1).len(),
            forall|n: Seq<char>|
                #[trigger] crate::text::sv(batch@).contains(n) <==> batch_fold(
                    cache@,
                    c,
                    max_concurrency,
                    j + 1,
                ).contains(n),
        decreases pending_requests@.len() - j,
    {
        assert(pending_requests@[j as int].requested_name@ == c[j + 1]);
        batch_step(
            &mut batch,
            cache,
            pending_requests[j].requested_name.as_str(),
            max_concurrency,
            Ghost(batch_fold(cache@, c, max_concurrency, j + 1)),
        );
        j += 1;
    }
    proof {
        lemma_batch_fold(cache@, c, max_concurrency, c.len() as int);
    }
    batch
}

/// Asks the provider for the next batch (`next_batch`) with the configured timeout, and caches
/// the answers; a batch that took longer than the timeout is diagnosed and cached as failed.
fn fetch_batch<P: DependencyMetadataProvider>(
    request: &PendingRequest,
    pending_requests: &Vec<PendingRequest>,
    provider: &P,
    config: &DependencyGraphConfig,
    cache: &mut Vec<(String, DependencyMetadataResponse)>,
    diagnostics: &mut Vec<DependencyGraphDiagnostic>,
)
    requires
        config.max_concurrency > 0,
        cached(old(cache)@, request.requested_name@) is None,
    ensures
        0 < batch_names(old(cache)@, *request, pending_requests@, config.max_concurrency).len()
            <= config.max_concurrency,
        batch_names(old(cache)@, *request, pending_requests@, config.max_concurrency).contains(
            request.requested_name@,
        ),
        forall|q: Seq<char>|
            #![trigger cached(final(cache)@, q)]
            batch_names(old(cache)@, *request, pending_requests@, config.max_concurrency).contains(q)
                ==> cached(old(cache)@, q) is None && cached(final(cache)@, q) is Some,
        forall|q: Seq<char>|
            #![trigger cached_view(final(cache)@, q)]
            !batch_names(old(cache)@, *request, pending_requests@, config.max_concurrency).contains(q)
                ==> cached_view(final(cache)@, q) == cached_view(old(cache)@, q),
        final(diagnostics)@.len() >= old(diagnostics)@.len(),
        diag_views(final(diagnostics)@).take(old(diagnostics)@.len() as int) == diag_views(old(diagnostics)@),
{
    let ghost c0 = cache@;
    let ghost d0 = diag_views(diagnostics@);
    let ghost n0 = diagnostics@.len();
    let ghost bn = batch_names(c0, *request, pending_requests@, config.max_concurrency);
    proof {
        let c = seq![request.requested_name@] + pending_names(pending_requests@);
        lemma_batch_fold(c0, c, config.max_concurrency, c.len() as int);
        assert(c[0] == request.requested_name@);
        assert(bn == batch_fold(c0, c, config.max_concurrency, c.len() as int));
        assert(bn.len() <= config.max_concurrency);
        assert(bn.contains(request.requested_name@));
        assert(bn.len() > 0);
    }
    let batch = next_batch(request, pending_requests, cache, config.max_concurrency);
    proof {
        assert(bn.contains(request.requested_name@));
        assert(crate::text::sv(batch@).contains(request.requested_name@));
    }
    let started = instant_now();
    let responses = provider.fetch_metadata(batch.as_slice(), config.metadata_timeout);
    if elapsed_exceeds(&started, &config.metadata_timeout) {
        let dt = duration_text(&config.metadata_timeout);
        let mut failures: Vec<DependencyMetadataResponse> = Vec::new();
        let mut b: usize = 0;
        while b < batch.len()
            invariant
                b <= batch@.len(),
                cache@ == c0,
                diagnostics@.len() >= n0,
                diag_views(diagnostics@).take(n0 as int) == d0,
            decreases batch@.len() - b,
        {
            let mut m = to_chars("metadata provider exceeded timeout of ");
            let dc = to_chars(dt.as_str());
            crate::text::extend_chars(&mut m, dc.as_slice());
            let ghost dv = diagnostics@;
            push_diagnostic(
                diagnostics,
                DependencyGraphDiagnosticKind::Timeout,
                batch[b].as_str(),
                None,
                crate::text::chars_to_string(m.as_slice()),
            );
            proof {
                assert(diag_views(diagnostics@).take(n0 as int) =~= diag_views(dv).take(n0 as int));
            }
            failures.push(
                DependencyMetadataResponse::Failure {
                    requested_name: batch[b].clone(),
                    message: "metadata provider timed out".to_owned(),
                },
            );
            b += 1;
        }
        let ghost dm = diagnostics@;
        cache_batch_responses(&batch, failures, cache, diagnostics);
        proof {
            assert(diag_views(diagnostics@).take(n0 as int) =~= diag_views(dm).take(n0 as int));
        }
    } else {
        let ghost dm = diagnostics@;
        cache_batch_responses(&batch, responses, cache, diagnostics);
        proof {
            assert(diag_views(diagnostics@).take(n0 as int) =~= diag_views(dm).take(n0 as int));
        }
    }
    proof {
        assert forall|q: Seq<char>| #![trigger cached(cache@, q)]
            bn.contains(q) implies cached(c0, q) is None && cached(cache@, q) is Some by {
            assert(crate::text::sv(batch@).contains(q));
            assert(cached_view(cache@, q) is Some);
        }
        assert(bn == batch_names(c0, *request, pending_requests@, config.max_concurrency));
        assert(0 < bn.len() <= config.max_concurrency);
        assert(bn.contains(request.requested_name@));
        assert forall|q: Seq<char>| #![trigger cached_view(cache@, q)]
            !bn.contains(q) implies cached_view(cache@, q) == cached_view(c0, q) by {
            assert(!crate::text::sv(batch@).contains(q));
        }
        assert(diag_views(diagnostics@).len() == diagnostics@.len());
        assert(diag_views(diagnostics@).take(n0 as int).len() == n0);
    }
}

/// Resolves a bounded dependency graph from the `.SRCINFO` metadata that `provider` supplies
/// for the root packages and, breadth-first in lexical order, their dependencies (runtime ones,
/// and optional, build and check ones when included). Metadata is requested in batches and
/// cached for the call. Cycles, the depth and node limits, missing or invalid metadata and
/// incompatible requirements become diagnostics; declared conflicts between nodes with metadata
/// mark both nodes as conflicting. Refused bounds are an error.
pub fn resolve_dependency_graph<P: DependencyMetadataProvider>(
    packages: &[crate::types::PackageRef],
    provider: &P,
    config: DependencyGraphConfig,
    include_optdepends: bool,
    include_makedepends: bool,
    include_checkdepends: bool,
) -> (r: Result<DependencyGraphResolution, ArchToolkitError>)
    ensures
        r is Err <==> config_problem(config) is Some,
        r matches Err(e) ==> e matches ArchToolkitError::InvalidInput(m) && Some(m@) == config_problem(
            config,
        ),
        r matches Ok(g) ==> graph_result_wf(g, config),
        r matches Ok(g) ==> (packages@.len() == 0 ==> g.nodes@.len() == 0 && g.edges@.len() == 0
            && g.roots@.len() == 0 && g.diagnostics@.len() == 0),
        r matches Ok(g) ==> (packages@.len() > 0 ==> g.roots@.len() > 0 || g.nodes@.len()
            == config.max_nodes),
{
    match validate_graph_config(&config) {
        Err(e) => {
            return Err(e);
        },
        Ok(()) => {},
    }
    let mut pending_requests: Vec<PendingRequest> = Vec::new();
    let mut i: usize = 0;
    while i < packages.len()
        invariant
            i <= packages@.len(),
            pending_requests@.len() == i,
            forall|k: int|
                0 <= k < i ==> (#[trigger] pending_requests@[k]).depth == 0
                    && pending_requests@[k].parent is None,
        decreases packages@.len() - i,
    {
        pending_requests.push(
            PendingRequest {
                parent: None,
                requested_name: packages[i].name.clone(),
                version_req: String::new(),
                depth: 0,
                path: Vec::new(),
            },
        );
        i += 1;
    }
    let mut cache: Vec<(String, DependencyMetadataResponse)> = Vec::new();
    let mut nodes: Vec<DependencyGraphNode> = Vec::new();
    let mut edges: Vec<DependencyGraphEdge> = Vec::new();
    let mut roots: Vec<String> = Vec::new();
    let mut diagnostics: Vec<DependencyGraphDiagnostic> = Vec::new();
    let mut expanded_depths: Vec<(String, usize)> = Vec::new();
    proof {
        assert(memo_view(expanded_depths@) =~= Seq::<(Seq<char>, usize)>::empty());
        assert(crate::text::sv(roots@) =~= Seq::<Seq<char>>::empty());
    }
    while pending_requests.len() > 0
        invariant
            graph_wf(nodes@, edges@, roots@, config),
            walk_wf(nodes@, memo_view(expanded_depths@), config),
            pending_ok(pending_requests@, nodes@, config),
            packages@.len() == 0 ==> pending_requests@.len() == 0 && nodes@.len() == 0
                && edges@.len() == 0 && roots@.len() == 0 && diagnostics@.len() == 0,
            config.max_concurrency > 0,
            packages@.len() > 0 ==> roots@.len() > 0 || nodes@.len() == config.max_nodes || (
            pending_requests@.len() > 0 && forall|x: int|
                0 <= x < pending_requests@.len() ==> (#[trigger] pending_requests@[x]).parent is None),
        decreases budget(memo_view(expanded_depths@), config.max_nodes, config.max_depth),
            pending_requests@.len(),
    {
        proof {
            lemma_memo_len(nodes@, memo_view(expanded_depths@), config);
        }
        let ghost b0 = budget(memo_view(expanded_depths@), config.max_nodes, config.max_depth);
        let ghost q0 = pending_requests@;
        let sorted = sort_pending(pending_requests);
        pending_requests = sorted;
        proof {
            assert forall|k: int| 0 <= k < pending_requests@.len() implies (
            #[trigger] pending_requests@[k]).depth <= config.max_depth && (
            pending_requests@[k].parent matches Some(x) ==> node_names(nodes@).contains(x@)) by {
                let a = choose|a: int| 0 <= a < q0.len() && q0[a] == pending_requests@[k];
                assert(q0[a] == pending_requests@[k]);
            }
        }
        let ghost all_roots = pending_requests@.len() > 0 && forall|x: int|
            0 <= x < q0.len() ==> (#[trigger] q0[x]).parent is None;
        let ghost r0 = roots@;
        let ghost nl0 = nodes@.len();
        let request = pending_requests.remove(0);
        let ghost q1 = pending_requests@;
        proof {
            if all_roots {
                let a = choose|a: int| 0 <= a < q0.len() && q0[a] == request;
                assert(q0[a].parent is None);
            }
        }
        if !cache_has(&cache, request.requested_name.as_str()) {
            fetch_batch(&request, &pending_requests, provider, &config, &mut cache, &mut diagnostics);
        }
        assert(cached_view(cache@, request.requested_name@) is Some);
        assert(cached(cache@, request.requested_name@) is Some);
        match cache_get(&cache, request.requested_name.as_str()) {
            None => {},
            Some(DependencyMetadataResponse::Found(metadata)) => {
                process_found_metadata(
                    request,
                    metadata,
                    include_optdepends,
                    include_makedepends,
                    include_checkdepends,
                    &mut nodes,
                    &mut edges,
                    &mut roots,
                    &config,
                    &mut diagnostics,
                    &mut pending_requests,
                    &mut expanded_depths,
                );
            },
            Some(other) => {
                let ghost n0 = nodes@;
                process_unavailable_metadata(
                    &request,
                    &other,
                    &mut nodes,
                    &mut edges,
                    &mut roots,
                    &config,
                    &mut diagnostics,
                );
                proof {
                    lemma_walk_grow(n0, nodes@, memo_view(expanded_depths@), config);
                    lemma_pending_grow(pending_requests@, n0, nodes@, config);
                }
            },
        }
        proof {
            lemma_memo_len(nodes@, memo_view(expanded_depths@), config);
            if r0.len() > 0 {
                assert(crate::text::sv(r0).contains(crate::text::sv(r0)[0]));
                assert(crate::text::sv(roots@).contains(crate::text::sv(r0)[0]));
            }
        }
    }
    let ghost nv = nodes@;
    apply_conflicts(&mut nodes, &mut diagnostics);
    let ghost ev = edges@;
    let sorted_edges = sort_edges(edges);
    let sorted_diagnostics = sort_diagnostics(diagnostics);
    let g = DependencyGraphResolution {
        roots,
        nodes,
        edges: sorted_edges,
        diagnostics: sorted_diagnostics,
    };
    proof {
        assert(node_names(g.nodes@) =~= node_names(nv));
        assert forall|k: int| 0 <= k < g.edges@.len() implies node_names(g.nodes@).contains(
            (#[trigger] g.edges@[k]).from@,
        ) && node_names(g.nodes@).contains(g.edges@[k].to@) by {
            let a = choose|a: int| 0 <= a < ev.len() && ev[a] == g.edges@[k];
            assert(ev[a] == g.edges@[k]);
        }
        assert forall|i: int| 0 <= i < g.nodes@.len() implies ((#[trigger] g.nodes@[i]).status
            == DependencyGraphNodeStatus::Conflicting <==> (g.nodes@[i].status
            != DependencyGraphNodeStatus::Missing && exists|j: int|
            0 <= j < g.nodes@.len() && j != i && g.nodes@[j].status
                != DependencyGraphNodeStatus::Missing && nodes_conflict(
                g.nodes@[i],
                #[trigger] g.nodes@[j],
            ))) by {
            let v = g.nodes@;
            assert(nv[i].status != DependencyGraphNodeStatus::Conflicting);
            if conflicted(nv, i) {
                let j = choose|j: int| 0 <= j < nv.len() && j != i && #[trigger] resolved_conflict(nv, i, j);
                assert(v[j].status != DependencyGraphNodeStatus::Missing);
                assert(nodes_conflict(v[i], v[j]));
            }
            if v[i].status != DependencyGraphNodeStatus::Missing && exists|j: int|
                0 <= j < v.len() && j != i && v[j].status != DependencyGraphNodeStatus::Missing
                    && nodes_conflict(v[i], #[trigger] v[j]) {
                let j = choose|j: int|
                    0 <= j < v.len() && j != i && v[j].status != DependencyGraphNodeStatus::Missing
                        && nodes_conflict(v[i], #[trigger] v[j]);
                assert(nv[j].status != DependencyGraphNodeStatus::Conflicting);
                assert(resolved_conflict(nv, i, j));
            }
        }
    }
    Ok(g)
}

// ---------------------------------------------------------------------------------------------
// Tree rendering
// ---------------------------------------------------------------------------------------------

/// Names a rendered tree can show: the roots and the targets of edges.
pub open spec fn tree_universe(g: DependencyGraphResolution) -> Seq<Seq<char>> {
    crate::text::sv(g.roots@) + g.edges@.map_values(|e: DependencyGraphEdge| e.to@)
}

/// First node named `name`, searching from `i`.
pub open spec fn find_node(nodes: Seq<DependencyGraphNode>, name: Seq<char>, i: int) -> Option<
    DependencyGraphNode,
>
    decreases nodes.len() - i,
{
    if i < 0 || i >= nodes.len() {
        None
    } else if nodes[i].name@ == name {
        Some(nodes[i])
    } else {
        find_node(nodes, name, i + 1)
    }
}

/// Label of a name in the tree: the node's name, followed by ` (for R)` when it was selected
/// for another requested name `R`; the bare name when no node has it.
pub open spec fn node_label(g: DependencyGraphResolution, name: Seq<char>) -> Seq<char> {
    match find_node(g.nodes@, name, 0) {
        Some(n) => if n.provenance.requested_name@ == n.name@ {
            n.name@
        } else {
            n.name@ + " (for "@ + n.provenance.requested_name@ + ")"@
        },
        None => name,
    }
}

/// Targets of the edges from `name`, in edge order.
pub open spec fn edge_targets(edges: Seq<DependencyGraphEdge>, name: Seq<char>) -> Seq<Seq<char>>
    decreases edges.len(),
{
    if edges.len() == 0 {
        seq![]
    } else {
        let rest = edge_targets(edges.drop_last(), name);
        if edges.last().from@ == name {
            rest.push(edges.last().to@)
        } else {
            rest
        }
    }
}

/// Children of `name` in the tree: the targets of its edges in lexical order, each once.
pub open spec fn child_names(g: DependencyGraphResolution, name: Seq<char>) -> Seq<Seq<char>> {
    crate::text::dedup(edge_targets(g.edges@, name).sort_by(crate::text::lex_leq()))
}

/// Branch drawn before a name: a tee when a sibling follows, a corner for the last one.
pub open spec fn branch(has_next: bool) -> Seq<char> {
    if has_next {
        seq!['\u{251c}', '\u{2500}', '\u{2500}', ' ']
    } else {
        seq!['\u{2514}', '\u{2500}', '\u{2500}', ' ']
    }
}

/// Indentation added below a name: a bar when a sibling follows, blanks otherwise.
pub open spec fn indent(has_next: bool) -> Seq<char> {
    if has_next {
        seq!['\u{2502}', ' ', ' ', ' ']
    } else {
        seq![' ', ' ', ' ', ' ']
    }
}

/// Text of the subtree of `name`: its line, then, when `name` is on the active `path`, a cycle
/// mark, and otherwise its children's subtrees one level deeper.
pub open spec fn tree_node(
    g: DependencyGraphResolution,
    name: Seq<char>,
    prefix: Seq<char>,
    has_next: bool,
    path: Seq<Seq<char>>,
) -> Seq<char>
    decreases tree_universe(g).len() - path.len(), 0int,
{
    let line = prefix + branch(has_next) + node_label(g, name) + seq!['\n'];
    if path.contains(name) {
        line + prefix + seq![' ', ' ', ' ', ' ', '\u{21ba}', '\n']
    } else if path.len() < tree_universe(g).len() {
        line + tree_children(g, child_names(g, name), 0, prefix + indent(has_next), path.push(name))
    } else {
        line
    }
}

/// Text of the subtrees of `kids` from the `k`-th on.
pub open spec fn tree_children(
    g: DependencyGraphResolution,
    kids: Seq<Seq<char>>,
    k: int,
    prefix: Seq<char>,
    path: Seq<Seq<char>>,
) -> Seq<char>
    decreases tree_universe(g).len() - path.len(), kids.len() - k + 1,
{
    if k < 0 || k >= kids.len() {
        seq![]
    } else {
        tree_node(g, kids[k], prefix, k + 1 < kids.len(), path) + tree_children(
            g,
            kids,
            k + 1,
            prefix,
            path,
        )
    }
}

/// Text of the trees of the roots from the `k`-th on.
pub open spec fn tree_roots(g: DependencyGraphResolution, k: int) -> Seq<char>
    decreases g.roots@.len() - k,
{
    if k < 0 || k >= g.roots@.len() {
        seq![]
    } else {
        tree_node(g, g.roots@[k]@, seq![], k + 1 < g.roots@.len(), seq![]) + tree_roots(g, k + 1)
    }
}

/// Label of `name`.
fn label_chars(g: &DependencyGraphResolution, name: &str) -> (r: Vec<char>)
    ensures
        r@ == node_label(*g, name@),
{
    let mut i: usize = 0;
    while i < g.nodes.len()
        invariant
            i <= g.nodes@.len(),
            find_node(g.nodes@, name@, 0) == find_node(g.nodes@, name@, i as int),
        decreases g.nodes@.len() - i,
    {
        if crate::text::str_eq(g.nodes[i].name.as_str(), name) {
            let n = &g.nodes[i];
            let mut v = to_chars(n.name.as_str());
            if !crate::text::str_eq(n.provenance.requested_name.as_str(), n.name.as_str()) {
                let a = to_chars(" (for ");
                crate::text::extend_chars(&mut v, a.as_slice());
                let q = to_chars(n.provenance.requested_name.as_str());
                crate::text::extend_chars(&mut v, q.as_slice());
                v.push(')');
                proof {
                    reveal_strlit(")");
                }
                assert(v@ =~= n.name@ + " (for "@ + n.provenance.requested_name@ + ")"@);
            }
            return v;
        }
        i += 1;
    }
    to_chars(name)
}

/// Children of `name`.
fn child_names_exec(g: &DependencyGraphResolution, name: &str) -> (r: Vec<String>)
    ensures
        crate::text::sv(r@) == child_names(*g, name@),
{
    let mut targets: Vec<Vec<char>> = Vec::new();
    let mut i: usize = 0;
    while i < g.edges.len()
        invariant
            i <= g.edges@.len(),
            crate::text::vv(targets@) == edge_targets(g.edges@.take(i as int), name@),
        decreases g.edges@.len() - i,
    {
        assert(g.edges@.take(i + 1).drop_last() =~= g.edges@.take(i as int));
        let ghost before = crate::text::vv(targets@);
        if crate::text::str_eq(g.edges[i].from.as_str(), name) {
            targets.push(to_chars(g.edges[i].to.as_str()));
            assert(crate::text::vv(targets@) =~= before.push(g.edges@[i as int].to@));
        }
        i += 1;
    }
    assert(g.edges@.take(g.edges@.len() as int) =~= g.edges@);
    let sorted = crate::text::sort_chars_vec(&targets);
    let kids = crate::deps::parse::dedup_chars(&sorted);
    crate::text::to_strings(&kids)
}

/// Lemma: edge targets are names of the tree.
proof fn lemma_edge_targets_in(edges: Seq<DependencyGraphEdge>, name: Seq<char>, x: Seq<char>)
    requires
        edge_targets(edges, name).contains(x),
    ensures
        edges.map_values(|e: DependencyGraphEdge| e.to@).contains(x),
    decreases edges.len(),
{
    let rest = edge_targets(edges.drop_last(), name);
    let m = edges.map_values(|e: DependencyGraphEdge| e.to@);
    let m0 = edges.drop_last().map_values(|e: DependencyGraphEdge| e.to@);
    if rest.contains(x) {
        lemma_edge_targets_in(edges.drop_last(), name, x);
        let k = choose|k: int| 0 <= k < m0.len() && m0[k] == x;
        assert(m[k] == x);
    } else {
        assert(edges.last().to@ == x);
        assert(m[edges.len() - 1] == x);
    }
}

/// Lemma: children are names of the tree.
proof fn lemma_children_in(g: DependencyGraphResolution, name: Seq<char>, x: Seq<char>)
    requires
        child_names(g, name).contains(x),
    ensures
        tree_universe(g).contains(x),
{
    broadcast use vstd::seq_lib::group_to_multiset_ensures;

    let t = edge_targets(g.edges@, name);
    crate::text::lemma_dedup_contains(t.sort_by(crate::text::lex_leq()), x);
    crate::text::lemma_lex_leq_total();
    t.lemma_sort_by_ensures(crate::text::lex_leq());
    assert(t.sort_by(crate::text::lex_leq()).to_multiset().count(x) > 0);
    assert(t.contains(x));
    lemma_edge_targets_in(g.edges@, name, x);
    let m = g.edges@.map_values(|e: DependencyGraphEdge| e.to@);
    let k = choose|k: int| 0 <= k < m.len() && m[k] == x;
    let u = tree_universe(g);
    assert(u[crate::text::sv(g.roots@).len() + k] == x);
}

/// Appends the subtree of `name` to `out`.
#[verifier::spinoff_prover]
#[verifier::rlimit(30)]
fn render_tree_node(
    g: &DependencyGraphResolution,
    name: &str,
    prefix: &Vec<char>,
    has_next: bool,
    path: &mut Vec<String>,
    out: &mut Vec<char>,
)
    requires
        crate::text::sv(old(path)@).no_duplicates(),
        forall|k: int| 0 <= k < old(path)@.len() ==> tree_universe(*g).contains(#[trigger] old(path)@[k]@),
        tree_universe(*g).contains(name@),
    ensures
        final(path)@ == old(path)@,
        final(out)@ == old(out)@ + tree_node(*g, name@, prefix@, has_next, crate::text::sv(old(path)@)),
    decreases tree_universe(*g).len() - old(path)@.len(),
{
    let ghost p0 = crate::text::sv(path@);
    let ghost o0 = out@;
    let ghost u = tree_universe(*g);
    crate::text::extend_chars(out, prefix.as_slice());
    if has_next {
        out.push('\u{251c}');
    } else {
        out.push('\u{2514}');
    }
    out.push('\u{2500}');
    out.push('\u{2500}');
    out.push(' ');
    let label = label_chars(g, name);
    crate::text::extend_chars(out, label.as_slice());
    out.push('\n');
    let ghost line = prefix@ + branch(has_next) + node_label(*g, name@) + seq!['\n'];
    assert(out@ =~= o0 + line);
    if crate::deps::query::names_contain(path, name) {
        crate::text::extend_chars(out, prefix.as_slice());
        out.push(' ');
        out.push(' ');
        out.push(' ');
        out.push(' ');
        out.push('\u{21ba}');
        out.push('\n');
        assert(out@ =~= o0 + (line + prefix@ + seq![' ', ' ', ' ', ' ', '\u{21ba}', '\n']));
        return ;
    }
    proof {
        let q = p0.push(name@);
        assert(q.no_duplicates());
        assert forall|i: int| 0 <= i < q.len() implies u.contains(#[trigger] q[i]) by {
            if i < p0.len() {
                assert(p0[i] == path@[i]@);
            }
        }
        lemma_distinct_subset_len(q, u);
    }
    let kids = child_names_exec(g, name);
    let ghost kv = crate::text::sv(kids@);
    let mut child_prefix = prefix.clone();
    if has_next {
        child_prefix.push('\u{2502}');
    } else {
        child_prefix.push(' ');
    }
    child_prefix.push(' ');
    child_prefix.push(' ');
    child_prefix.push(' ');
    assert(child_prefix@ =~= prefix@ + indent(has_next));
    let ghost old_path = path@;
    let nm = name.to_owned();
    let ghost nms = nm;
    path.push(nm);
    let ghost p1 = crate::text::sv(path@);
    assert(p1 =~= p0.push(name@));
    let ghost base = out@;
    let mut k: usize = 0;
    while k < kids.len()
        invariant
            k <= kids@.len(),
            kv == crate::text::sv(kids@),
            path@ == old_path.push(nms),
            old_path == old(path)@,
            crate::text::sv(path@) == p1,
            p1 == p0.push(name@),
            p1.no_duplicates(),
            p1.len() <= u.len(),
            u == tree_universe(*g),
            kv == child_names(*g, name@),
            forall|x: int| 0 <= x < path@.len() ==> u.contains(#[trigger] path@[x]@),
            out@ + tree_children(*g, kv, k as int, child_prefix@, p1) == base + tree_children(
                *g,
                kv,
                0,
                child_prefix@,
                p1,
            ),
        decreases kids@.len() - k,
    {
        proof {
            assert(kv[k as int] == kids@[k as int]@);
            assert(kv.contains(kv[k as int]));
            lemma_children_in(*g, name@, kv[k as int]);
        }
        let ghost before = out@;
        render_tree_node(g, kids[k].as_str(), &child_prefix, k + 1 < kids.len(), path, out);
        proof {
            assert(tree_children(*g, kv, k as int, child_prefix@, p1) == tree_node(
                *g,
                kv[k as int],
                child_prefix@,
                k + 1 < kv.len(),
                p1,
            ) + tree_children(*g, kv, k + 1, child_prefix@, p1));
            assert(out@ + tree_children(*g, kv, k + 1, child_prefix@, p1) =~= before
                + tree_children(*g, kv, k as int, child_prefix@, p1));
        }
        k += 1;
    }
    path.pop();
    proof {
        assert(path@ =~= old_path);
        assert(tree_children(*g, kv, k as int, child_prefix@, p1) == Seq::<char>::empty());
        assert(out@ =~= base + tree_children(*g, kv, 0, child_prefix@, p1));
        assert(tree_node(*g, name@, prefix@, has_next, p0) == line + tree_children(
            *g,
            kv,
            0,
            prefix@ + indent(has_next),
            p0.push(name@),
        ));
    }
}

impl DependencyGraphResolution {
    /// The graph as a plain-text tree: each root and, below it, its children in lexical order
    /// (shared packages shown under each parent), with a cycle mark where a package repeats on
    /// its own path. The graph is not changed.
    pub fn render_tree(&self) -> (r: String)
        ensures
            r@ == tree_roots(*self, 0),
    {
        let mut out: Vec<char> = Vec::new();
        let mut path: Vec<String> = Vec::new();
        let empty: Vec<char> = Vec::new();
        let mut k: usize = 0;
        while k < self.roots.len()
            invariant
                k <= self.roots@.len(),
                path@ == Seq::<String>::empty(),
                empty@ == Seq::<char>::empty(),
                out@ + tree_roots(*self, k as int) == tree_roots(*self, 0),
            decreases self.roots@.len() - k,
        {
            let ghost before = out@;
            proof {
                let u = tree_universe(*self);
                assert(u[k as int] == self.roots@[k as int]@);
                assert(crate::text::sv(path@) =~= Seq::<Seq<char>>::empty());
            }
            render_tree_node(self, self.roots[k].as_str(), &empty, k + 1 < self.roots.len(), &mut path, &mut out);
            proof {
                assert(crate::text::sv(path@) =~= Seq::<Seq<char>>::empty());
                assert(out@ + tree_roots(*self, k + 1) =~= before + tree_roots(*self, k as int));
            }
            k += 1;
        }
        assert(out@ =~= tree_roots(*self, 0));
        crate::text::chars_to_string(out.as_slice())
    }
}

} // verus!
