use twitchd::query::{parse_query_params, QueryParams};

#[test]
fn splits_names_and_values() {
    let params = parse_query_params("channel=foo&quality=best");
    assert_eq!(params.get(&"channel".to_string()).unwrap(), "foo");
    assert_eq!(params.get(&"quality".to_string()).unwrap(), "best");
}

#[test]
fn missing_parameter_is_none() {
    let params = parse_query_params("channel=foo");
    assert!(params.get(&"quality".to_string()).is_none());
}

#[test]
fn percent_and_plus_decoding_applies() {
    let params = parse_query_params("channel=a%20b&note=c+d");
    assert_eq!(params.get(&"channel".to_string()).unwrap(), "a b");
    assert_eq!(params.get(&"note".to_string()).unwrap(), "c d");
}

#[test]
fn repeated_name_keeps_last_value() {
    let params = parse_query_params("q=1&q=2");
    assert_eq!(params.get(&"q".to_string()).unwrap(), "2");
}

#[test]
fn empty_query_has_no_parameters() {
    let params = parse_query_params("");
    assert!(params.get(&"channel".to_string()).is_none());
    let fresh = QueryParams::new();
    assert!(fresh.get(&"channel".to_string()).is_none());
}
