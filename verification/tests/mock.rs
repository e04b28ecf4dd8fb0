use arch_toolkit::aur::{percent_encode, AurApi, MockAurApi};
use arch_toolkit::error::ArchToolkitError;

#[derive(Clone, Debug, PartialEq)]
struct AurPackage {
    name: String,
    version: String,
    description: String,
    popularity: Option<f64>,
    out_of_date: Option<u64>,
    orphaned: bool,
    maintainer: Option<String>,
}

#[derive(Clone, Debug, PartialEq)]
struct AurPackageDetails {
    name: String,
    version: String,
    description: String,
    url: String,
    licenses: Vec<String>,
    maintainer: Option<String>,
    popularity: Option<f64>,
    num_votes: Option<u64>,
}

#[derive(Clone, Debug, PartialEq)]
struct AurComment {
    id: Option<String>,
    author: String,
    date: String,
    date_timestamp: Option<i64>,
    date_url: Option<String>,
    content: String,
    pinned: bool,
}

type Mock = MockAurApi<AurPackage, AurPackageDetails, AurComment>;

fn details(name: &str) -> AurPackageDetails {
    AurPackageDetails {
        name: name.to_string(),
        version: "12.0.0".to_string(),
        description: "AUR helper".to_string(),
        url: String::new(),
        licenses: vec![],
        maintainer: None,
        popularity: None,
        num_votes: None,
    }
}

#[test]
fn test_mock_search_success() {
    let mock = Mock::new().with_search_result(
        "yay",
        Ok(vec![AurPackage {
            name: "yay".to_string(),
            version: "12.0.0".to_string(),
            description: "AUR helper".to_string(),
            popularity: Some(100.0),
            out_of_date: None,
            orphaned: false,
            maintainer: Some("user".to_string()),
        }]),
    );
    let result = mock.search("yay");
    assert!(result.is_ok());
    let packages = result.unwrap();
    assert_eq!(packages.len(), 1);
    assert_eq!(packages[0].name, "yay");
}

#[test]
fn test_mock_search_error() {
    let mock = Mock::new().with_search_result(
        "error",
        Err(ArchToolkitError::Parse("test error".to_string())),
    );
    let result = mock.search("error");
    assert!(result.is_err());
}

#[test]
fn test_mock_search_not_found() {
    let mock = Mock::new();
    let result = mock.search("unknown");
    assert!(result.is_err());
    assert!(result
        .unwrap_err()
        .message()
        .contains("No search result configured"));
}

#[test]
fn test_mock_search_default() {
    let mock = Mock::new().with_default_search_result(Ok(vec![AurPackage {
        name: "default".to_string(),
        version: "1.0.0".to_string(),
        description: "Default package".to_string(),
        popularity: None,
        out_of_date: None,
        orphaned: false,
        maintainer: None,
    }]));
    let result = mock.search("any-query");
    assert!(result.is_ok());
    let packages = result.unwrap();
    assert_eq!(packages.len(), 1);
    assert_eq!(packages[0].name, "default");
}

#[test]
fn test_mock_info_success() {
    let mut yay = details("yay");
    yay.url = "https://github.com/Jguer/yay".to_string();
    yay.licenses = vec!["MIT".to_string()];
    yay.maintainer = Some("user".to_string());
    yay.popularity = Some(100.0);
    yay.num_votes = Some(1000);
    let mock = Mock::new().with_info_result(&["yay"], Ok(vec![yay]));
    let result = mock.info(&["yay"]);
    assert!(result.is_ok());
    let packages = result.unwrap();
    assert_eq!(packages.len(), 1);
    assert_eq!(packages[0].name, "yay");
}

#[test]
fn test_mock_info_sorted() {
    let mock = Mock::new().with_info_result(&["yay", "paru"], Ok(vec![details("yay")]));
    let result1 = mock.info(&["yay", "paru"]);
    assert!(result1.is_ok());
    let result2 = mock.info(&["paru", "yay"]);
    assert!(result2.is_ok());
}

#[test]
fn test_mock_comments_success() {
    let mock = Mock::new().with_comments_result(
        "yay",
        Ok(vec![AurComment {
            id: Some("1".to_string()),
            author: "user".to_string(),
            date: "2024-01-01".to_string(),
            date_timestamp: Some(1_704_067_200),
            date_url: None,
            content: "Great package!".to_string(),
            pinned: false,
        }]),
    );
    let result = mock.comments("yay");
    assert!(result.is_ok());
    let comments = result.unwrap();
    assert_eq!(comments.len(), 1);
    assert_eq!(comments[0].author, "user");
}

#[test]
fn test_mock_pkgbuild_success() {
    let mock = Mock::new().with_pkgbuild_result("yay", Ok("pkgname=yay\npkgver=12.0.0".to_string()));
    let result = mock.pkgbuild("yay");
    assert!(result.is_ok());
    let pkgbuild = result.unwrap();
    assert!(pkgbuild.contains("yay"));
}

#[test]
fn mock_later_answers_replace_earlier_ones() {
    let mock = Mock::new()
        .with_pkgbuild_result("yay", Ok("first".to_string()))
        .with_pkgbuild_result("yay", Ok("second".to_string()))
        .with_default_pkgbuild_result(Err(ArchToolkitError::PackageNotFound {
            package: "any".to_string(),
        }));
    assert_eq!(mock.pkgbuild("yay"), Ok("second".to_string()));
    assert_eq!(
        mock.pkgbuild("other"),
        Err(ArchToolkitError::PackageNotFound {
            package: "any".to_string()
        })
    );
}

#[test]
fn mock_unconfigured_errors_name_the_request() {
    let mock = Mock::default();
    assert_eq!(
        mock.info(&["yay", "paru"]),
        Err(ArchToolkitError::Parse(
            "MockAurApi: No info result configured for packages 'paru,yay'".to_string()
        ))
    );
    assert_eq!(
        mock.comments("yay"),
        Err(ArchToolkitError::Parse(
            "MockAurApi: No comments result configured for package 'yay'".to_string()
        ))
    );
    assert_eq!(
        mock.pkgbuild("yay").unwrap_err().message(),
        "Parse error: MockAurApi: No pkgbuild result configured for package 'yay'"
    );
    let with_default = Mock::new()
        .with_default_comments_result(Ok(vec![]))
        .with_default_info_result(Err(ArchToolkitError::RateLimited { retry_after: Some(5) }));
    assert_eq!(with_default.comments("x"), Ok(vec![]));
    assert_eq!(
        with_default.info(&["x"]).unwrap_err().message(),
        "Rate limited by server (retry after 5s)"
    );
}

#[test]
fn percent_encode_keeps_unreserved_and_escapes_the_rest() {
    assert_eq!(percent_encode("yay-bin_1.0~x"), "yay-bin_1.0~x");
    assert_eq!(percent_encode("a b"), "a%20b");
    assert_eq!(percent_encode("c++/d"), "c%2B%2B%2Fd");
    assert_eq!(percent_encode("é"), "%C3%A9");
    assert_eq!(percent_encode(""), "");
}

#[test]
fn error_messages_describe_the_error() {
    assert_eq!(
        ArchToolkitError::PackageNotFound {
            package: "yay".to_string()
        }
        .message(),
        "Package 'yay' not found"
    );
    assert_eq!(
        ArchToolkitError::RateLimited { retry_after: None }.message(),
        "Rate limited by server"
    );
    assert_eq!(
        ArchToolkitError::InvalidInput("bad".to_string()).message(),
        "Invalid input: bad"
    );
}

#[test]
fn percent_encoding_has_hex_triples_and_decodes_back() {
    let input = "a b/ü~";
    let encoded = percent_encode(input);
    assert_eq!(encoded, "a%20b%2F%C3%BC~");
    let bytes: Vec<u8> = input.bytes().collect();
    let expected_len: usize = bytes
        .iter()
        .map(|b| if b.is_ascii_alphanumeric() || b"-._~".contains(b) { 1 } else { 3 })
        .sum();
    assert_eq!(encoded.len(), expected_len);
    let chars: Vec<char> = encoded.chars().collect();
    let mut decoded = Vec::new();
    let mut i = 0;
    while i < chars.len() {
        if chars[i] == '%' {
            let hex: String = chars[i + 1..i + 3].iter().collect();
            assert!(hex.chars().all(|c| c.is_ascii_digit() || ('A'..='F').contains(&c)));
            decoded.push(u8::from_str_radix(&hex, 16).unwrap());
            i += 3;
        } else {
            decoded.push(chars[i] as u8);
            i += 1;
        }
    }
    assert_eq!(decoded, bytes);
}
