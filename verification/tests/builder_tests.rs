use webbundle::{Bundle, Error, Exchange, Request, Response, Version};

#[test]
fn build_invalid_bundle() {
    assert!(Bundle::builder().build().is_err());
    assert!(Bundle::builder()
        .primary_url("https://example.com/".to_string())
        .build()
        .is_err());
}

#[test]
fn builder_build() {
    let bundle = Bundle::builder()
        .version(Version::VersionB2)
        .primary_url("https://example.com".to_string())
        .build()
        .unwrap();
    assert_eq!(bundle.version(), &Version::VersionB2);
    assert_eq!(bundle.primary_url(), &Some("https://example.com".to_string()));
}

#[test]
fn missing_version_error_kind() {
    assert_eq!(Bundle::builder().build().err(), Some(Error::MissingVersion));
}

#[test]
fn build_exchange() {
    let bundle = Bundle::builder()
        .version(Version::VersionB2)
        .primary_url("https://example.com/index.html".to_string())
        .exchange(Exchange::from((
            "https://example.com/index.html".to_string(),
            vec![],
        )))
        .build()
        .unwrap();
    assert_eq!(bundle.exchanges().len(), 1);
    assert_eq!(
        bundle.exchanges()[0].request.url(),
        "https://example.com/index.html"
    );
}

#[test]
fn manifest_is_held_but_not_encoded() {
    let bundle = Bundle::builder()
        .version(Version::VersionB2)
        .manifest("https://example.com/manifest".to_string())
        .build()
        .unwrap();
    let encoded = bundle.encode().unwrap();
    let decoded = Bundle::from_bytes(&encoded).unwrap();
    assert!(decoded.primary_url().is_none());
    assert_eq!(decoded.exchanges().len(), 0);
}

#[test]
fn exchange_from() {
    let exchange = Exchange::from(("index.html".to_string(), "hello".to_string().into_bytes()));
    assert_eq!(exchange.request.url(), "index.html");
    assert_eq!(exchange.response.body(), &b"hello".to_vec());
    assert_eq!(
        exchange.response.header_value(b"content-type").unwrap(),
        &b"text/html".to_vec()
    );
}

#[test]
fn exchange_from_with_content_type() {
    let exchange =
        Exchange::from_with_content_type(("./foo/".to_string(), vec![], "text/html".to_string()));
    assert_eq!(exchange.request.url(), "./foo/");
    assert!(exchange.response.body().is_empty());
    assert_eq!(
        exchange.response.header_value(b"content-type").unwrap(),
        &b"text/html".to_vec()
    );
    assert_eq!(
        exchange.response.header_value(b"content-length").unwrap(),
        &b"0".to_vec()
    );
}

#[test]
fn redirect_exchange() {
    let exchange = Exchange::redirect("index.html".to_string(), "./".to_string());
    assert_eq!(exchange.request.url(), "index.html");
    assert_eq!(exchange.response.status(), 301);
    assert!(exchange.response.body().is_empty());
    assert_eq!(
        exchange.response.header_value(b"location").unwrap(),
        &b"./".to_vec()
    );
}

#[test]
fn response_constructor_validates() {
    assert!(Response::new(99, vec![], vec![]).is_none());
    assert!(Response::new(600, vec![], vec![]).is_none());
    assert!(Response::new(200, vec![], vec![]).is_some());
    // an uppercase name is rejected
    assert!(Response::new(200, vec![(b"X-Thing".to_vec(), b"v".to_vec())], vec![]).is_none());
    // a pseudo-header name is rejected
    assert!(Response::new(200, vec![(b":status".to_vec(), b"200".to_vec())], vec![]).is_none());
    // an empty name is rejected
    assert!(Response::new(200, vec![(b"".to_vec(), b"v".to_vec())], vec![]).is_none());
    // a repeated name is rejected
    assert!(Response::new(
        200,
        vec![
            (b"a".to_vec(), b"1".to_vec()),
            (b"a".to_vec(), b"2".to_vec()),
        ],
        vec![],
    )
    .is_none());
}

#[test]
fn response_headers_sorted_canonically() {
    // shorter names sort first; equal lengths sort bytewise
    let resp = Response::new(
        200,
        vec![
            (b"content-type".to_vec(), b"text/plain".to_vec()),
            (b"age".to_vec(), b"0".to_vec()),
            (b"etag".to_vec(), b"x".to_vec()),
            (b"date".to_vec(), b"d".to_vec()),
        ],
        vec![],
    )
    .unwrap();
    let names: Vec<Vec<u8>> = resp.headers().iter().map(|p| p.0.clone()).collect();
    assert_eq!(
        names,
        vec![
            b"age".to_vec(),
            b"date".to_vec(),
            b"etag".to_vec(),
            b"content-type".to_vec(),
        ]
    );
}

#[test]
fn headers_of_zero_one_many_roundtrip() {
    let mk = |headers: Vec<(Vec<u8>, Vec<u8>)>| Exchange {
        request: Request::new("https://example.com/x".to_string(), vec![]),
        response: Response::new(204, headers, b"body".to_vec()).unwrap(),
    };
    for count in [0usize, 1, 12] {
        let mut headers = Vec::new();
        for k in 0..count {
            headers.push((format!("h{:02}", k).into_bytes(), vec![k as u8]));
        }
        let bundle = Bundle::builder()
            .version(Version::VersionB2)
            .exchange(mk(headers))
            .build()
            .unwrap();
        let encoded = bundle.encode().unwrap();
        let decoded = Bundle::from_bytes(&encoded).unwrap();
        let resp = &decoded.exchanges()[0].response;
        assert_eq!(resp.status(), 204);
        assert_eq!(resp.headers().len(), count);
        for k in 0..count {
            assert_eq!(
                resp.header_value(format!("h{:02}", k).as_bytes()).unwrap(),
                &vec![k as u8]
            );
        }
    }
}

#[test]
fn duplicate_urls_rejected_on_encode() {
    let bundle = Bundle::builder()
        .version(Version::VersionB2)
        .exchange(Exchange::from(("a".to_string(), vec![1])))
        .exchange(Exchange::from(("a".to_string(), vec![2])))
        .build()
        .unwrap();
    assert_eq!(bundle.encode(), Err(Error::DuplicateUrl));
}

#[test]
fn version1_roundtrip() {
    let bundle = Bundle::builder()
        .version(Version::Version1)
        .build()
        .unwrap();
    let encoded = bundle.encode().unwrap();
    let decoded = Bundle::from_bytes(&encoded).unwrap();
    assert_eq!(decoded.version(), &Version::Version1);
    assert_eq!(decoded.version().bytes(), [0x31, 0, 0, 0]);
}

#[test]
fn error_messages_nonempty() {
    assert!(!Error::BadMagic.message().is_empty());
    assert!(!Error::MalformedCbor.message().is_empty());
    assert!(!Error::DuplicateUrl.message().is_empty());
}
