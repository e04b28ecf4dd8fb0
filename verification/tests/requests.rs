use arch_toolkit::aur::requests::{
    accept_chunk, comments_url, info_url, limit_search_results, pkgbuild_delay_ms, pkgbuild_url,
    search_url, service_status, HealthProbe, ServiceStatus,
};
use arch_toolkit::error::ArchToolkitError;

#[derive(Clone, Debug)]
struct AurPackage {
    name: String,
    version: String,
    description: String,
    popularity: Option<f64>,
    out_of_date: Option<u64>,
    orphaned: bool,
    maintainer: Option<String>,
}

#[test]
fn search_limit_is_explicit_and_ordered() {
    let package = |name: &str| AurPackage {
        name: name.to_string(),
        version: "1.0".to_string(),
        description: String::new(),
        popularity: None,
        out_of_date: None,
        orphaned: false,
        maintainer: None,
    };
    let limited = limit_search_results(
        vec![package("first"), package("second"), package("third")],
        2,
    );
    assert_eq!(limited.len(), 2);
    assert_eq!(limited[0].name, "first");
    assert_eq!(limited[1].name, "second");
    assert_eq!(limit_search_results(vec![package("only")], 5).len(), 1);
}

#[test]
fn request_addresses() {
    assert_eq!(
        search_url("rust analyzer"),
        "https://aur.archlinux.org/rpc/v5/search?by=name&arg=rust%20analyzer"
    );
    assert_eq!(
        info_url(&["yay", "paru"]),
        "https://aur.archlinux.org/rpc/v5/info?arg[]=yay&arg[]=paru"
    );
    assert_eq!(info_url(&[]), "https://aur.archlinux.org/rpc/v5/info?");
    assert_eq!(
        pkgbuild_url("c++utils"),
        "https://aur.archlinux.org/cgit/aur.git/plain/PKGBUILD?h=c%2B%2Butils"
    );
    assert_eq!(comments_url("yay"), "https://aur.archlinux.org/packages/yay");
}

#[test]
fn response_chunks_are_bounded() {
    assert_eq!(accept_chunk("body", 10, 5, 20), Ok(15));
    assert_eq!(accept_chunk("body", 10, 10, 20), Ok(20));
    assert_eq!(
        accept_chunk("body", 10, 11, 20),
        Err(ArchToolkitError::InputTooLong {
            field: "body".to_string(),
            max_length: 20,
            actual_length: 21
        })
    );
    assert_eq!(accept_chunk("body", usize::MAX, 1, usize::MAX), Ok(usize::MAX));
}

#[test]
fn pkgbuild_downloads_are_spaced() {
    assert_eq!(pkgbuild_delay_ms(None), None);
    assert_eq!(pkgbuild_delay_ms(Some(50)), Some(150));
    assert_eq!(pkgbuild_delay_ms(Some(200)), None);
}

#[test]
fn health_probes_are_classified() {
    assert_eq!(
        service_status(HealthProbe::Failed { timed_out: true }, 0),
        ServiceStatus::Timeout
    );
    assert_eq!(
        service_status(HealthProbe::Failed { timed_out: false }, 0),
        ServiceStatus::Unreachable
    );
    assert_eq!(service_status(HealthProbe::ErrorStatus, 0), ServiceStatus::Unreachable);
    assert_eq!(
        service_status(HealthProbe::Answered { json: false, rpc_fields: false }, 0),
        ServiceStatus::Degraded
    );
    assert_eq!(
        service_status(HealthProbe::Answered { json: true, rpc_fields: true }, 2_000_000_000),
        ServiceStatus::Healthy
    );
    assert_eq!(
        service_status(HealthProbe::Answered { json: true, rpc_fields: true }, 2_000_000_001),
        ServiceStatus::Degraded
    );
}
