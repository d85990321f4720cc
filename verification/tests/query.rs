use model_gateway::params::{encode_query_string, parse_query_string, ListRequestParams};

fn params(pairs: Vec<(&[u8], &[u8])>) -> ListRequestParams {
    ListRequestParams { pairs: pairs.into_iter().map(|(k, v)| (k.to_vec(), v.to_vec())).collect() }
}

#[test]
fn encode_plain_pairs() {
    let p = params(vec![(b"category", b"programming"), (b"limit", b"10")]);
    assert_eq!(encode_query_string(&p), b"category=programming&limit=10".to_vec());
}

#[test]
fn encode_percent_escapes_reserved_bytes() {
    let p = params(vec![(b"q", b"a b&c=d"), (b"raw", &[0xff, 0x00])]);
    assert_eq!(encode_query_string(&p), b"q=a%20b%26c%3Dd&raw=%FF%00".to_vec());
}

#[test]
fn encode_empty_set_is_empty_string() {
    let p = params(vec![]);
    assert_eq!(encode_query_string(&p), Vec::<u8>::new());
}

#[test]
fn parse_plain_pairs() {
    let parsed = parse_query_string(&b"a=1&b=2".to_vec()).expect("should parse");
    assert_eq!(parsed.pairs, vec![(b"a".to_vec(), b"1".to_vec()), (b"b".to_vec(), b"2".to_vec())]);
}

#[test]
fn parse_empty_string_is_empty_set() {
    let parsed = parse_query_string(&Vec::new()).expect("should parse");
    assert_eq!(parsed.pairs, Vec::<(Vec<u8>, Vec<u8>)>::new());
}

#[test]
fn parse_decodes_percent_escapes() {
    let parsed = parse_query_string(&b"q=a%20b%26c&r=%FF".to_vec()).expect("should parse");
    assert_eq!(parsed.pairs, vec![(b"q".to_vec(), b"a b&c".to_vec()), (b"r".to_vec(), vec![0xff])]);
}

#[test]
fn parse_rejects_pair_without_equals() {
    assert!(parse_query_string(&b"justakey".to_vec()).is_none());
    assert!(parse_query_string(&b"a=1&nokey".to_vec()).is_none());
}

#[test]
fn parse_rejects_bad_percent_escape() {
    assert!(parse_query_string(&b"a=%2".to_vec()).is_none());
    assert!(parse_query_string(&b"a=%zz".to_vec()).is_none());
    assert!(parse_query_string(&b"a=%2f".to_vec()).is_none());
}

#[test]
fn parse_rejects_raw_reserved_byte() {
    assert!(parse_query_string(&b"a=b c".to_vec()).is_none());
    assert!(parse_query_string(&b"a b=c".to_vec()).is_none());
}

#[test]
fn parse_accepts_empty_key_and_value() {
    let parsed = parse_query_string(&b"=".to_vec()).expect("should parse");
    assert_eq!(parsed.pairs, vec![(Vec::new(), Vec::new())]);
}

#[test]
fn round_trip_reconstructs_pairs() {
    let p = params(vec![(b"category", b"programming"), (b"q", b"a b&c=d"), (b"", b""), (b"bin", &[0x00, 0xff, 0x7e])]);
    let encoded = encode_query_string(&p);
    let parsed = parse_query_string(&encoded).expect("round trip should parse");
    assert_eq!(parsed.pairs, p.pairs);
}
