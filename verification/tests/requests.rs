use rebound::request::ReboundIngressRequestBuilder;
use rebound::request::ReboundRequestType;
use rebound::strmap::StrMap;

#[test]
fn uri_stops_at_first_question_mark() {
    let mut b = ReboundIngressRequestBuilder::new();
    b.with_url("/a/b?x=1&y=2".to_string());
    let req = b.build();
    assert_eq!(req.uri, "/a/b");
}

#[test]
fn uri_without_query_is_whole_target() {
    let mut b = ReboundIngressRequestBuilder::new();
    b.with_url("/a/b".to_string());
    let req = b.build();
    assert_eq!(req.uri, "/a/b");
    assert_eq!(req.query_params.len(), 0);
}

#[test]
fn empty_builder_yields_empty_request() {
    let req = ReboundIngressRequestBuilder::new().build();
    assert_eq!(req.uri, "");
    assert!(matches!(req.method, ReboundRequestType::Invalid));
    assert_eq!(req.headers.len(), 0);
    assert_eq!(req.query_params.len(), 0);
    assert!(req.body.is_none());
}

#[test]
fn query_pairs_split_on_first_equals() {
    let mut b = ReboundIngressRequestBuilder::new();
    b.with_url("/p?a=1&b=2=3".to_string());
    let req = b.build();
    assert_eq!(req.query_params.len(), 2);
    assert_eq!(req.query_params.get("a").unwrap(), "1");
    assert_eq!(req.query_params.get("b").unwrap(), "2=3");
}

#[test]
fn query_pieces_without_equals_are_discarded() {
    let mut b = ReboundIngressRequestBuilder::new();
    b.with_url("/p?a=1&flag&b=2".to_string());
    let req = b.build();
    assert_eq!(req.query_params.len(), 2);
    assert!(req.query_params.get("flag").is_none());
}

#[test]
fn query_empty_key_is_kept() {
    let mut b = ReboundIngressRequestBuilder::new();
    b.with_url("/p?=v".to_string());
    let req = b.build();
    assert_eq!(req.query_params.len(), 1);
    assert_eq!(req.query_params.get("").unwrap(), "v");
}

#[test]
fn query_repeated_key_last_wins() {
    let mut b = ReboundIngressRequestBuilder::new();
    b.with_url("/p?a=1&a=2".to_string());
    let req = b.build();
    assert_eq!(req.query_params.len(), 1);
    assert_eq!(req.query_params.get("a").unwrap(), "2");
}

#[test]
fn no_decoding_is_performed() {
    let mut b = ReboundIngressRequestBuilder::new();
    b.with_url("/p?a=%20x".to_string());
    let req = b.build();
    assert_eq!(req.query_params.get("a").unwrap(), "%20x");
}

#[test]
fn header_last_value_wins() {
    let mut b = ReboundIngressRequestBuilder::new();
    b.with_url("/p".to_string());
    b.with_headers(vec![
        ("A".to_string(), "1".to_string()),
        ("B".to_string(), "x".to_string()),
        ("A".to_string(), "2".to_string()),
    ]);
    let req = b.build();
    assert_eq!(req.headers.len(), 2);
    assert_eq!(req.headers.get("A").unwrap(), "2");
    assert_eq!(req.headers.get("B").unwrap(), "x");
}

#[test]
fn method_and_body_pass_through() {
    let mut b = ReboundIngressRequestBuilder::new();
    b.with_url("/p".to_string());
    b.with_method(ReboundRequestType::Put);
    b.with_body(Some(vec![1u8, 2, 3]));
    let req = b.build();
    assert!(matches!(req.method, ReboundRequestType::Put));
    assert_eq!(req.body.unwrap(), vec![1u8, 2, 3]);
}

#[test]
fn strmap_insert_and_overwrite() {
    let mut m = StrMap::new();
    m.insert("k".to_string(), "1".to_string());
    assert_eq!(m.len(), 1);
    assert_eq!(m.get("k").unwrap(), "1");
    m.insert("k".to_string(), "2".to_string());
    assert_eq!(m.len(), 1);
    assert_eq!(m.get("k").unwrap(), "2");
    assert!(m.contains_key("k"));
    assert!(!m.contains_key("x"));
}

#[test]
fn strmap_clear_and_entries() {
    let mut m = StrMap::new();
    m.insert("a".to_string(), "1".to_string());
    m.insert("b".to_string(), "2".to_string());
    assert_eq!(m.entries().len(), 2);
    assert_eq!(m.entries()[0], ("a".to_string(), "1".to_string()));
    m.clear();
    assert_eq!(m.len(), 0);
}

#[test]
fn strmap_merge_from_overwrites() {
    let mut m = StrMap::new();
    m.insert("a".to_string(), "1".to_string());
    m.insert("b".to_string(), "2".to_string());
    let mut adds = StrMap::new();
    adds.insert("b".to_string(), "9".to_string());
    adds.insert("c".to_string(), "3".to_string());
    m.merge_from(&adds);
    assert_eq!(m.len(), 3);
    assert_eq!(m.get("a").unwrap(), "1");
    assert_eq!(m.get("b").unwrap(), "9");
    assert_eq!(m.get("c").unwrap(), "3");
}
