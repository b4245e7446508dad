use webbundle::url_to_path;

#[test]
fn main_url_to_path_test() {
    assert_eq!(
        url_to_path("https://example.com").unwrap(),
        "https/example.com/"
    );
    assert_eq!(
        url_to_path("https://example.com/index.html").unwrap(),
        "https/example.com/index.html"
    );
    assert_eq!(
        url_to_path("https://example.com/a/").unwrap(),
        "https/example.com/a/"
    );
    assert_eq!(
        url_to_path("https://example.com/a/b").unwrap(),
        "https/example.com/a/b"
    );
    assert_eq!(
        url_to_path("https://example.com/a/b/").unwrap(),
        "https/example.com/a/b/"
    );
    assert_eq!(url_to_path("").unwrap(), "https/example.com/");
    assert_eq!(url_to_path(".").unwrap(), "https/example.com/");
    assert_eq!(url_to_path("/a").unwrap(), "https/example.com/a");
    assert_eq!(url_to_path("..").unwrap(), "https/example.com/");
    assert_eq!(url_to_path("a/../../b").unwrap(), "https/example.com/b");
}
