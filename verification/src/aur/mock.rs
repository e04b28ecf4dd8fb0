//! A scripted stand-in for the AUR: each operation answers what was configured for its
//! argument, or a default, or an error saying that nothing was configured.
use crate::aur::traits::AurApi;
use crate::error::ArchToolkitError;
use crate::text::{join_sep, lex_leq, to_chars};
use vstd::prelude::*;

verus! {

/// The answer stored last under `key`.
pub open spec fn latest<X>(entries: Seq<(Seq<char>, X)>, key: Seq<char>) -> Option<X>
    decreases entries.len(),
{
    if entries.len() == 0 {
        None
    } else if entries.last().0 == key {
        Some(entries.last().1)
    } else {
        latest(entries.drop_last(), key)
    }
}

/// Whether `r` is a copy of the configured answer `x`: the same error, or a list of clones of
/// its items.
pub open spec fn copied<T: Clone>(x: Result<Vec<T>, ArchToolkitError>, r: Result<Vec<T>, ArchToolkitError>) -> bool {
    match x {
        Ok(v) => r matches Ok(w) && w@.len() == v@.len() && forall|i: int|
            0 <= i < v@.len() ==> cloned::<T>(#[trigger] v@[i], w@[i]),
        Err(e) => r == Err::<Vec<T>, ArchToolkitError>(e),
    }
}

/// Key of a set of package names: the names in lexical order, joined by commas.
pub open spec fn names_key(names: Seq<&str>) -> Seq<char> {
    join_sep(names.map_values(|n: &str| n@).sort_by(lex_leq()), ","@)
}

/// Configured answers of one operation (in the order they were set) and its default.
pub type Script<X> = (Seq<(Seq<char>, X)>, Option<X>);

/// Keys of stored answers as text.
pub open spec fn entries_view<X>(v: Seq<(String, X)>) -> Seq<(Seq<char>, X)> {
    v.map_values(|p: (String, X)| (p.0@, p.1))
}

/// What one operation answers under a script: the answer set last for `key`, else the
/// default.
pub open spec fn scripted<X>(s: Script<X>, key: Seq<char>) -> Option<X> {
    match latest(s.0, key) {
        Some(x) => Some(x),
        None => s.1,
    }
}

/// A stand-in for the AUR with scripted answers, over record types `P`, `D` and `C` (see
/// `AurApi`). Answers set for the same argument later replace earlier ones.
pub struct MockAurApi<P, D, C> {
    search_results: Vec<(String, Result<Vec<P>, ArchToolkitError>)>,
    info_results: Vec<(String, Result<Vec<D>, ArchToolkitError>)>,
    comments_results: Vec<(String, Result<Vec<C>, ArchToolkitError>)>,
    pkgbuild_results: Vec<(String, Result<String, ArchToolkitError>)>,
    default_search_result: Option<Result<Vec<P>, ArchToolkitError>>,
    default_info_result: Option<Result<Vec<D>, ArchToolkitError>>,
    default_comments_result: Option<Result<Vec<C>, ArchToolkitError>>,
    default_pkgbuild_result: Option<Result<String, ArchToolkitError>>,
}

impl<P, D, C> MockAurApi<P, D, C> {
    /// Script of the search operation.
    pub closed spec fn search_script(&self) -> Script<Result<Vec<P>, ArchToolkitError>> {
        (entries_view(self.search_results@), self.default_search_result)
    }

    /// Script of the details operation (keyed by `names_key`).
    pub closed spec fn info_script(&self) -> Script<Result<Vec<D>, ArchToolkitError>> {
        (entries_view(self.info_results@), self.default_info_result)
    }

    /// Script of the comments operation.
    pub closed spec fn comments_script(&self) -> Script<Result<Vec<C>, ArchToolkitError>> {
        (entries_view(self.comments_results@), self.default_comments_result)
    }

    /// Script of the PKGBUILD operation.
    pub closed spec fn pkgbuild_script(&self) -> Script<Result<String, ArchToolkitError>> {
        (entries_view(self.pkgbuild_results@), self.default_pkgbuild_result)
    }

    /// A stand-in with nothing configured.
    pub fn new() -> (r: Self)
        ensures
            r.search_script() == (Seq::<(Seq<char>, Result<Vec<P>, ArchToolkitError>)>::empty(), None::<Result<Vec<P>, ArchToolkitError>>),
            r.info_script() == (Seq::<(Seq<char>, Result<Vec<D>, ArchToolkitError>)>::empty(), None::<Result<Vec<D>, ArchToolkitError>>),
            r.comments_script() == (Seq::<(Seq<char>, Result<Vec<C>, ArchToolkitError>)>::empty(), None::<Result<Vec<C>, ArchToolkitError>>),
            r.pkgbuild_script() == (Seq::<(Seq<char>, Result<String, ArchToolkitError>)>::empty(), None::<Result<String, ArchToolkitError>>),
    {
        MockAurApi {
            search_results: Vec::new(),
            info_results: Vec::new(),
            comments_results: Vec::new(),
            pkgbuild_results: Vec::new(),
            default_search_result: None,
            default_info_result: None,
            default_comments_result: None,
            default_pkgbuild_result: None,
        }
    }

    /// Answers `result` to a search for `query`.
    pub fn with_search_result(self, query: &str, result: Result<Vec<P>, ArchToolkitError>) -> (r: Self)
        ensures
            r.search_script() == (self.search_script().0.push((query@, result)), self.search_script().1),
            r.info_script() == self.info_script(),
            r.comments_script() == self.comments_script(),
            r.pkgbuild_script() == self.pkgbuild_script(),
    {
        let mut s = self;
        s.search_results.push((query.to_owned(), result));
        assert(entries_view(s.search_results@) =~= entries_view(self.search_results@).push((query@, result)));
        s
    }

    /// Answers `result` to a search for which nothing specific was set.
    pub fn with_default_search_result(self, result: Result<Vec<P>, ArchToolkitError>) -> (r: Self)
        ensures
            r.search_script() == (self.search_script().0, Some(result)),
            r.info_script() == self.info_script(),
            r.comments_script() == self.comments_script(),
            r.pkgbuild_script() == self.pkgbuild_script(),
    {
        MockAurApi { default_search_result: Some(result), ..self }
    }

    /// Answers `result` to a details request for the packages `names`, in any order.
    pub fn with_info_result(self, names: &[&str], result: Result<Vec<D>, ArchToolkitError>) -> (r:
        Self)
        ensures
            r.info_script() == (self.info_script().0.push((names_key(names@), result)), self.info_script().1),
            r.search_script() == self.search_script(),
            r.comments_script() == self.comments_script(),
            r.pkgbuild_script() == self.pkgbuild_script(),
    {
        let key = info_key(names);
        let mut s = self;
        s.info_results.push((key, result));
        assert(entries_view(s.info_results@) =~= entries_view(self.info_results@).push((names_key(names@), result)));
        s
    }

    /// Answers `result` to a details request for which nothing specific was set.
    pub fn with_default_info_result(self, result: Result<Vec<D>, ArchToolkitError>) -> (r: Self)
        ensures
            r.info_script() == (self.info_script().0, Some(result)),
            r.search_script() == self.search_script(),
            r.comments_script() == self.comments_script(),
            r.pkgbuild_script() == self.pkgbuild_script(),
    {
        MockAurApi { default_info_result: Some(result), ..self }
    }

    /// Answers `result` to a comments request for `pkgname`.
    pub fn with_comments_result(self, pkgname: &str, result: Result<Vec<C>, ArchToolkitError>) -> (r:
        Self)
        ensures
            r.comments_script() == (self.comments_script().0.push((pkgname@, result)), self.comments_script().1),
            r.search_script() == self.search_script(),
            r.info_script() == self.info_script(),
            r.pkgbuild_script() == self.pkgbuild_script(),
    {
        let mut s = self;
        s.comments_results.push((pkgname.to_owned(), result));
        assert(entries_view(s.comments_results@) =~= entries_view(self.comments_results@).push((pkgname@, result)));
        s
    }

    /// Answers `result` to a comments request for which nothing specific was set.
    pub fn with_default_comments_result(self, result: Result<Vec<C>, ArchToolkitError>) -> (r: Self)
        ensures
            r.comments_script() == (self.comments_script().0, Some(result)),
            r.search_script() == self.search_script(),
            r.info_script() == self.info_script(),
            r.pkgbuild_script() == self.pkgbuild_script(),
    {
        MockAurApi { default_comments_result: Some(result), ..self }
    }

    /// Answers `result` to a PKGBUILD request for `package`.
    pub fn with_pkgbuild_result(self, package: &str, result: Result<String, ArchToolkitError>) -> (r:
        Self)
        ensures
            r.pkgbuild_script() == (self.pkgbuild_script().0.push((package@, result)), self.pkgbuild_script().1),
            r.search_script() == self.search_script(),
            r.info_script() == self.info_script(),
            r.comments_script() == self.comments_script(),
    {
        let mut s = self;
        s.pkgbuild_results.push((package.to_owned(), result));
        assert(entries_view(s.pkgbuild_results@) =~= entries_view(self.pkgbuild_results@).push((package@, result)));
        s
    }

    /// Answers `result` to a PKGBUILD request for which nothing specific was set.
    pub fn with_default_pkgbuild_result(self, result: Result<String, ArchToolkitError>) -> (r: Self)
        ensures
            r.pkgbuild_script() == (self.pkgbuild_script().0, Some(result)),
            r.search_script() == self.search_script(),
            r.info_script() == self.info_script(),
            r.comments_script() == self.comments_script(),
    {
        MockAurApi { default_pkgbuild_result: Some(result), ..self }
    }
}

/// Key of a set of package names.
fn info_key(names: &[&str]) -> (r: String)
    ensures
        r@ == names_key(names@),
{
    let mut parts: Vec<Vec<char>> = Vec::new();
    let mut i: usize = 0;
    while i < names.len()
        invariant
            i <= names@.len(),
            crate::text::vv(parts@) == names@.take(i as int).map_values(|n: &str| n@),
        decreases names@.len() - i,
    {
        let ghost before = crate::text::vv(parts@);
        let nm: &str = names[i];
        let c = to_chars(nm);
        parts.push(c);
        assert(crate::text::vv(parts@) =~= before.push(names@[i as int]@));
        assert(names@.take(i + 1).map_values(|n: &str| n@) =~= names@.take(i as int).map_values(
            |n: &str| n@,
        ).push(names@[i as int]@));
        i += 1;
    }
    assert(names@.take(names@.len() as int) =~= names@);
    let sorted = crate::text::sort_chars_vec(&parts);
    let joined = crate::text::join_sep_chars(&sorted, ",");
    crate::text::chars_to_string(joined.as_slice())
}

/// A copy of an error.
fn copy_error(e: &ArchToolkitError) -> (r: ArchToolkitError)
    ensures
        r == *e,
{
    match e {
        ArchToolkitError::Json(m) => ArchToolkitError::Json(m.clone()),
        ArchToolkitError::Parse(m) => ArchToolkitError::Parse(m.clone()),
        ArchToolkitError::RateLimited { retry_after } => ArchToolkitError::RateLimited {
            retry_after: *retry_after,
        },
        ArchToolkitError::PackageNotFound { package } => ArchToolkitError::PackageNotFound {
            package: package.clone(),
        },
        ArchToolkitError::InvalidInput(m) => ArchToolkitError::InvalidInput(m.clone()),
        ArchToolkitError::EmptyInput { field, message } => ArchToolkitError::EmptyInput {
            field: field.clone(),
            message: message.clone(),
        },
        ArchToolkitError::InputTooLong { field, max_length, actual_length } => {
            ArchToolkitError::InputTooLong {
                field: field.clone(),
                max_length: *max_length,
                actual_length: *actual_length,
            }
        },
        ArchToolkitError::InvalidPackageName { name, reason } => {
            ArchToolkitError::InvalidPackageName { name: name.clone(), reason: reason.clone() }
        },
    }
}

/// A copy of a configured list answer.
fn copy_answer<T: Clone>(x: &Result<Vec<T>, ArchToolkitError>) -> (r: Result<Vec<T>, ArchToolkitError>)
    ensures
        copied(*x, r),
{
    match x {
        Ok(v) => Ok(v.clone()),
        Err(e) => Err(copy_error(e)),
    }
}

/// A copy of a configured text answer.
fn copy_text_answer(x: &Result<String, ArchToolkitError>) -> (r: Result<String, ArchToolkitError>)
    ensures
        r == *x,
{
    match x {
        Ok(v) => Ok(v.clone()),
        Err(e) => Err(copy_error(e)),
    }
}

/// Index of the answer stored last under `key`.
fn latest_index<X>(entries: &Vec<(String, X)>, key: &str) -> (r: Option<usize>)
    ensures
        match r {
            Some(i) => i < entries@.len() && latest(entries_view(entries@), key@) == Some(
                entries@[i as int].1,
            ),
            None => latest(entries_view(entries@), key@) is None,
        },
{
    let ghost ev = entries_view(entries@);
    let mut i: usize = entries.len();
    assert(ev.take(i as int) =~= ev);
    while i > 0
        invariant
            i <= entries@.len(),
            ev == entries_view(entries@),
            latest(ev, key@) == latest(ev.take(i as int), key@),
        decreases i,
    {
        assert(ev.take(i as int).last() == (entries@[i - 1].0@, entries@[i - 1].1));
        if crate::text::str_eq(entries[i - 1].0.as_str(), key) {
            return Some(i - 1);
        }
        assert(ev.take(i as int).drop_last() =~= ev.take(i - 1));
        i -= 1;
    }
    assert(ev.take(0) =~= Seq::<(Seq<char>, X)>::empty());
    None
}

/// Text of the error for an unconfigured request: `MockAurApi: No <what> result configured for
/// <target> '<name>'`.
pub open spec fn unconfigured(what: Seq<char>, target: Seq<char>, name: Seq<char>) -> Seq<char> {
    "MockAurApi: No "@ + what + " result configured for "@ + target + " '"@ + name + "'"@
}

/// The error for an unconfigured request.
fn unconfigured_error(what: &str, target: &str, name: &str) -> (r: ArchToolkitError)
    ensures
        r matches ArchToolkitError::Parse(m) && m@ == unconfigured(what@, target@, name@),
{
    let mut v = to_chars("MockAurApi: No ");
    let w = to_chars(what);
    crate::text::extend_chars(&mut v, w.as_slice());
    let a = to_chars(" result configured for ");
    crate::text::extend_chars(&mut v, a.as_slice());
    let t = to_chars(target);
    crate::text::extend_chars(&mut v, t.as_slice());
    let b = to_chars(" '");
    crate::text::extend_chars(&mut v, b.as_slice());
    let n = to_chars(name);
    crate::text::extend_chars(&mut v, n.as_slice());
    let c = to_chars("'");
    crate::text::extend_chars(&mut v, c.as_slice());
    ArchToolkitError::Parse(crate::text::chars_to_string(v.as_slice()))
}

impl<P: Clone, D: Clone, C: Clone> AurApi<P, D, C> for MockAurApi<P, D, C> {
    /// The answer set for `query`, else the default, else an error.
    fn search(&self, query: &str) -> (r: Result<Vec<P>, ArchToolkitError>)
        ensures
            match scripted(self.search_script(), query@) {
                Some(x) => copied(x, r),
                None => r matches Err(ArchToolkitError::Parse(m)) && m@ == unconfigured(
                    "search"@,
                    "query"@,
                    query@,
                ),
            },
    {
        match latest_index(&self.search_results, query) {
            Some(i) => copy_answer(&self.search_results[i].1),
            None => match &self.default_search_result {
                Some(d) => copy_answer(d),
                None => Err(unconfigured_error("search", "query", query)),
            },
        }
    }

    /// The answer set for the packages `names` (in any order), else the default, else an
    /// error.
    fn info(&self, names: &[&str]) -> (r: Result<Vec<D>, ArchToolkitError>)
        ensures
            match scripted(self.info_script(), names_key(names@)) {
                Some(x) => copied(x, r),
                None => r matches Err(ArchToolkitError::Parse(m)) && m@ == unconfigured(
                    "info"@,
                    "packages"@,
                    names_key(names@),
                ),
            },
    {
        let key = info_key(names);
        match latest_index(&self.info_results, key.as_str()) {
            Some(i) => copy_answer(&self.info_results[i].1),
            None => match &self.default_info_result {
                Some(d) => copy_answer(d),
                None => Err(unconfigured_error("info", "packages", key.as_str())),
            },
        }
    }

    /// The answer set for `pkgname`, else the default, else an error.
    fn comments(&self, pkgname: &str) -> (r: Result<Vec<C>, ArchToolkitError>)
        ensures
            match scripted(self.comments_script(), pkgname@) {
                Some(x) => copied(x, r),
                None => r matches Err(ArchToolkitError::Parse(m)) && m@ == unconfigured(
                    "comments"@,
                    "package"@,
                    pkgname@,
                ),
            },
    {
        match latest_index(&self.comments_results, pkgname) {
            Some(i) => copy_answer(&self.comments_results[i].1),
            None => match &self.default_comments_result {
                Some(d) => copy_answer(d),
                None => Err(unconfigured_error("comments", "package", pkgname)),
            },
        }
    }

    /// The answer set for `package`, else the default, else an error.
    fn pkgbuild(&self, package: &str) -> (r: Result<String, ArchToolkitError>)
        ensures
            match scripted(self.pkgbuild_script(), package@) {
                Some(x) => r == x,
                None => r matches Err(ArchToolkitError::Parse(m)) && m@ == unconfigured(
                    "pkgbuild"@,
                    "package"@,
                    package@,
                ),
            },
    {
        match latest_index(&self.pkgbuild_results, package) {
            Some(i) => copy_text_answer(&self.pkgbuild_results[i].1),
            None => match &self.default_pkgbuild_result {
                Some(d) => copy_text_answer(d),
                None => Err(unconfigured_error("pkgbuild", "package", package)),
            },
        }
    }
}

impl<P, D, C> Default for MockAurApi<P, D, C> {
    /// A stand-in with nothing configured.
    fn default() -> (r: Self)
        ensures
            r.search_script() == (Seq::<(Seq<char>, Result<Vec<P>, ArchToolkitError>)>::empty(), None::<Result<Vec<P>, ArchToolkitError>>),
            r.info_script() == (Seq::<(Seq<char>, Result<Vec<D>, ArchToolkitError>)>::empty(), None::<Result<Vec<D>, ArchToolkitError>>),
            r.comments_script() == (Seq::<(Seq<char>, Result<Vec<C>, ArchToolkitError>)>::empty(), None::<Result<Vec<C>, ArchToolkitError>>),
            r.pkgbuild_script() == (Seq::<(Seq<char>, Result<String, ArchToolkitError>)>::empty(), None::<Result<String, ArchToolkitError>>),
    {
        Self::new()
    }
}

} // verus!
