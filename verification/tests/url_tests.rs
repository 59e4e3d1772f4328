use httpfetch::url::URL;
use httpfetch::Error;

#[test]
fn bare_hostname_gets_default_scheme_and_path() {
    let u = URL::from("example.com").unwrap();
    assert_eq!(u.scheme, "http");
    assert_eq!(u.host, "example.com");
    assert_eq!(u.path, "/");
}

#[test]
fn explicit_scheme_and_path_are_kept() {
    let u = URL::from("https://example.com/a/b").unwrap();
    assert_eq!(u.scheme, "https");
    assert_eq!(u.host, "example.com");
    assert_eq!(u.path, "/a/b");
}

#[test]
fn trailing_slash_normalizes_to_root_path() {
    let u = URL::from("http://example.com/").unwrap();
    assert_eq!(u.scheme, "http");
    assert_eq!(u.host, "example.com");
    assert_eq!(u.path, "/");
}

#[test]
fn scheme_prefix_without_divider_fails() {
    let r = URL::from("http");
    assert!(matches!(r, Err(Error::ParseUrlError)));
    let r = URL::from("httpx.example");
    assert!(matches!(r, Err(Error::ParseUrlError)));
}

#[test]
fn missing_host_segment_fails() {
    let r = URL::from("http:///path");
    assert!(matches!(r, Err(Error::ParseUrlError)));
}

#[test]
fn double_slashes_stay_in_the_path() {
    let u = URL::from("example.com//x").unwrap();
    assert_eq!(u.host, "example.com");
    assert_eq!(u.path, "//x");
}
