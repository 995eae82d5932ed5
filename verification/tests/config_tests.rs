use thor_client::config::{
    parse_client_config, render_client_config, connection_settings, ClientConfig, ConfigError,
};

#[test]
fn test_config_default() {
    let config = ClientConfig::default();
    assert_eq!(config.server_addr, "http://localhost:50051");
    assert_eq!(config.timeout_secs, 30);
}

#[test]
fn default_token_is_empty() {
    let config = ClientConfig::default();
    assert_eq!(config.token, "");
}

#[test]
fn parse_plain_object() {
    let c = parse_client_config(r#"{"server_address":"http://h:1","auth_token":"tok"}"#).unwrap();
    assert_eq!(c.server_addr, "http://h:1");
    assert_eq!(c.token, "tok");
    assert_eq!(c.timeout_secs, 30);
}

#[test]
fn parse_swapped_members() {
    let c = parse_client_config(r#"{"auth_token":"tok","server_address":"addr"}"#).unwrap();
    assert_eq!(c.server_addr, "addr");
    assert_eq!(c.token, "tok");
}

#[test]
fn parse_with_whitespace() {
    let text = "  {\n  \"server_address\" : \"a\" ,\r\n\t\"auth_token\" : \"b\"\n}  ";
    let c = parse_client_config(text).unwrap();
    assert_eq!(c.server_addr, "a");
    assert_eq!(c.token, "b");
}

#[test]
fn parse_unescapes_strings() {
    let c =
        parse_client_config(r#"{"server_address":"a\"b\\c","auth_token":"x\ny\t/"}"#).unwrap();
    assert_eq!(c.server_addr, "a\"b\\c");
    assert_eq!(c.token, "x\ny\t/");
}

#[test]
fn parse_rejects_empty_text() {
    assert!(matches!(parse_client_config(""), Err(ConfigError::Malformed)));
}

#[test]
fn parse_rejects_empty_object() {
    assert!(matches!(parse_client_config("{}"), Err(ConfigError::Malformed)));
}

#[test]
fn parse_rejects_single_member() {
    assert!(matches!(
        parse_client_config(r#"{"server_address":"a"}"#),
        Err(ConfigError::Malformed)
    ));
}

#[test]
fn parse_rejects_wrong_keys() {
    assert!(matches!(
        parse_client_config(r#"{"server":"a","token":"b"}"#),
        Err(ConfigError::Malformed)
    ));
}

#[test]
fn parse_rejects_trailing_text() {
    assert!(matches!(
        parse_client_config(r#"{"server_address":"a","auth_token":"b"} x"#),
        Err(ConfigError::Malformed)
    ));
}

#[test]
fn parse_rejects_unterminated_string() {
    assert!(matches!(
        parse_client_config(r#"{"server_address":"a","auth_token":"b"#),
        Err(ConfigError::Malformed)
    ));
}

#[test]
fn parse_rejects_unknown_escape() {
    assert!(matches!(
        parse_client_config(r#"{"server_address":"a\Ab","auth_token":"b"}"#),
        Err(ConfigError::Malformed)
    ));
}

#[test]
fn render_then_parse_gives_same_pair() {
    let c = ClientConfig {
        server_addr: String::from("http://example:50051"),
        token: String::from("a \"quoted\" \\ token"),
        timeout_secs: 30,
    };
    let text = render_client_config(&c);
    let back = parse_client_config(&text).unwrap();
    assert_eq!(back.server_addr, c.server_addr);
    assert_eq!(back.token, c.token);
}

#[test]
fn settings_take_timeout_from_config() {
    let mut c = ClientConfig::default();
    c.timeout_secs = 7;
    let s = connection_settings(&c);
    assert_eq!(s.request_timeout_secs, 7);
    assert_eq!(s.tcp_keepalive_secs, 30);
    assert_eq!(s.http2_keepalive_interval_secs, 30);
    assert_eq!(s.keepalive_timeout_secs, 10);
}

#[test]
fn parse_handles_unicode_escapes() {
    let c = parse_client_config(
        r#"{"server_address":"\u0041B","auth_token":"\u00312D-"}"#,
    )
    .unwrap();
    assert_eq!(c.server_addr, "AB");
    assert_eq!(c.token, "12D-");
}

#[test]
fn parse_handles_surrogate_pairs() {
    let c = parse_client_config(
        r#"{"server_address":"a","auth_token":"\uD83D\uDE00"}"#,
    )
    .unwrap();
    assert_eq!(c.token, "\u{1F600}");
}

#[test]
fn parse_rejects_lone_surrogates() {
    assert!(matches!(
        parse_client_config(r#"{"server_address":"\uD800x","auth_token":"b"}"#),
        Err(ConfigError::Malformed)
    ));
    assert!(matches!(
        parse_client_config(r#"{"server_address":"a","auth_token":"\uDC00"}"#),
        Err(ConfigError::Malformed)
    ));
}

#[test]
fn parse_rejects_bad_hex_escape() {
    assert!(matches!(
        parse_client_config(r#"{"server_address":"\u00G1","auth_token":"b"}"#),
        Err(ConfigError::Malformed)
    ));
}

#[test]
fn parse_tolerates_unknown_members() {
    let text = r#"{"server_address":"a","extra":123,"auth_token":"b","more":{"x":[1,2,{"y":null}],"z":true},"s":"text","neg":-1.5e+10,"flag":false}"#;
    let c = parse_client_config(text).unwrap();
    assert_eq!(c.server_addr, "a");
    assert_eq!(c.token, "b");
}

#[test]
fn parse_rejects_duplicate_named_member() {
    assert!(matches!(
        parse_client_config(r#"{"server_address":"a","server_address":"c","auth_token":"b"}"#),
        Err(ConfigError::Malformed)
    ));
}

#[test]
fn parse_rejects_non_string_named_member() {
    assert!(matches!(
        parse_client_config(r#"{"server_address":1,"auth_token":"b"}"#),
        Err(ConfigError::Malformed)
    ));
}

#[test]
fn parse_rejects_bad_unknown_member_value() {
    // a leading zero and a bare comma are not JSON
    assert!(matches!(
        parse_client_config(r#"{"x":01,"server_address":"a","auth_token":"b"}"#),
        Err(ConfigError::Malformed)
    ));
    assert!(matches!(
        parse_client_config(r#"{"x":[,],"server_address":"a","auth_token":"b"}"#),
        Err(ConfigError::Malformed)
    ));
}
