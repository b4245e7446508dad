use webbundle::{Bundle, Exchange, Version};

#[test]
fn encode_and_decode() {
    let bundle = Bundle::builder()
        .version(Version::VersionB2)
        .primary_url("https://example.com/index.html".to_string())
        .exchange(Exchange::from((
            "https://example.com/index.html".to_string(),
            vec![],
        )))
        .build()
        .unwrap();

    let encoded = bundle.encode().unwrap();

    // Decode encoded bundle.
    let bundle = Bundle::from_bytes(&encoded).unwrap();
    assert_eq!(bundle.version(), &Version::VersionB2);
    assert_eq!(
        bundle.primary_url(),
        &Some("https://example.com/index.html".to_string())
    );
    assert_eq!(bundle.exchanges().len(), 1);
    assert_eq!(
        bundle.exchanges()[0].request.url(),
        "https://example.com/index.html"
    );
    assert!(bundle.exchanges()[0].response.body().is_empty());
}

#[test]
fn single_exchange_magic_and_fields() {
    let bundle = Bundle::builder()
        .version(Version::VersionB2)
        .primary_url("https://example.com/index.html".to_string())
        .exchange(Exchange::from((
            "https://example.com/index.html".to_string(),
            vec![],
        )))
        .build()
        .unwrap();
    let encoded = bundle.encode().unwrap();
    assert_eq!(
        &encoded[..10],
        &[0x85, 0x48, 0xf0, 0x9f, 0x8c, 0x90, 0xf0, 0x9f, 0x93, 0xa6]
    );
    let decoded = Bundle::from_bytes(&encoded).unwrap();
    assert_eq!(decoded.exchanges().len(), 1);
    assert_eq!(
        decoded.exchanges()[0].request.url(),
        "https://example.com/index.html"
    );
    assert_eq!(decoded.exchanges()[0].response.status(), 200);
    assert!(decoded.exchanges()[0].response.body().is_empty());
}

#[test]
fn two_exchanges_order_and_bodies() {
    let bundle = Bundle::builder()
        .version(Version::VersionB2)
        .exchange(Exchange::from_with_content_type((
            "a".to_string(),
            vec![0x01, 0x02],
            "text/plain".to_string(),
        )))
        .exchange(Exchange::from_with_content_type((
            "b".to_string(),
            vec![0x01, 0x02],
            "text/plain".to_string(),
        )))
        .build()
        .unwrap();
    let encoded = bundle.encode().unwrap();
    let decoded = Bundle::from_bytes(&encoded).unwrap();
    assert_eq!(decoded.exchanges().len(), 2);
    assert_eq!(decoded.exchanges()[0].request.url(), "a");
    assert_eq!(decoded.exchanges()[1].request.url(), "b");
    assert_eq!(decoded.exchanges()[0].response.body(), &vec![0x01, 0x02]);
    assert_eq!(decoded.exchanges()[1].response.body(), &vec![0x01, 0x02]);
    assert_eq!(
        decoded.exchanges()[0]
            .response
            .header_value(b"content-type")
            .unwrap(),
        &b"text/plain".to_vec()
    );
}

#[test]
fn canonical_stability() {
    let bundle = Bundle::builder()
        .version(Version::VersionB2)
        .primary_url("https://example.com/".to_string())
        .exchange(Exchange::from((
            "https://example.com/a.html".to_string(),
            b"hello".to_vec(),
        )))
        .exchange(Exchange::from((
            "https://example.com/b.html".to_string(),
            b"world".to_vec(),
        )))
        .build()
        .unwrap();
    let first = bundle.encode().unwrap();
    let decoded = Bundle::from_bytes(&first).unwrap();
    let second = decoded.encode().unwrap();
    assert_eq!(first, second);
}

#[test]
fn empty_bundle_roundtrip() {
    let bundle = Bundle::builder().version(Version::VersionB2).build().unwrap();
    let encoded = bundle.encode().unwrap();
    let decoded = Bundle::from_bytes(&encoded).unwrap();
    assert_eq!(decoded.version(), &Version::VersionB2);
    assert!(decoded.primary_url().is_none());
    assert_eq!(decoded.exchanges().len(), 0);
}

#[test]
fn truncation_always_errors() {
    let bundle = Bundle::builder()
        .version(Version::VersionB2)
        .primary_url("https://example.com/".to_string())
        .exchange(Exchange::from((
            "https://example.com/".to_string(),
            b"hi".to_vec(),
        )))
        .build()
        .unwrap();
    let encoded = bundle.encode().unwrap();
    for cut in 0..encoded.len() {
        assert!(
            Bundle::from_bytes(&encoded[..cut]).is_err(),
            "prefix of length {} decoded",
            cut
        );
    }
}
