use rust_crypto_orderbook::proxy::{connect_request, connect_succeeded, headers_complete, parse_proxy_addr};

#[test]
fn parses_well_formed_values() {
    assert_eq!(
        parse_proxy_addr("http://100.64.1.2:3128"),
        Some(("100.64.1.2".to_string(), 3128))
    );
    assert_eq!(
        parse_proxy_addr("proxy.local:8080"),
        Some(("proxy.local".to_string(), 8080))
    );
    assert_eq!(
        parse_proxy_addr("http://proxy.local:8080/"),
        Some(("proxy.local".to_string(), 8080))
    );
}

#[test]
fn rejects_unparseable_input() {
    assert_eq!(parse_proxy_addr("http://proxy.local"), None);
    assert_eq!(parse_proxy_addr("http://proxy.local:notaport"), None);
    assert_eq!(parse_proxy_addr(""), None);
}

#[test]
fn proxy_port_edge_cases_follow_u16_parsing() {
    assert_eq!(parse_proxy_addr("h:65535"), Some(("h".to_string(), 65535)));
    assert_eq!(parse_proxy_addr("h:65536"), None);
    assert_eq!(parse_proxy_addr("h:+80"), Some(("h".to_string(), 80)));
    assert_eq!(parse_proxy_addr("h:-80"), None);
    assert_eq!(parse_proxy_addr("h:+"), None);
    assert_eq!(parse_proxy_addr(":80"), None);
    assert_eq!(parse_proxy_addr("a:b:80"), Some(("a:b".to_string(), 80)));
    assert_eq!(parse_proxy_addr("x://y://h:1/p:2"), None);
    assert_eq!(parse_proxy_addr("socks://h:1/p:2"), Some(("h".to_string(), 1)));
}

#[test]
fn connect_request_names_the_target_twice() {
    assert_eq!(
        connect_request("stream.binance.com", 9443),
        "CONNECT stream.binance.com:9443 HTTP/1.1\r\nHost: stream.binance.com:9443\r\n\r\n"
    );
    assert_eq!(connect_request("h", 0), "CONNECT h:0 HTTP/1.1\r\nHost: h:0\r\n\r\n");
}

#[test]
fn connect_succeeds_only_on_a_200_status_line() {
    assert!(connect_succeeded("HTTP/1.1 200 Connection established\r\n\r\n"));
    assert!(!connect_succeeded("HTTP/1.1 403 Forbidden\r\n\r\n"));
    assert!(!connect_succeeded("HTTP/1.1 403 Forbidden\r\nX: 200 \r\n\r\n"));
    assert!(!connect_succeeded(""));
}

#[test]
fn headers_end_only_at_the_blank_line() {
    assert!(!headers_complete(&b"HTTP/1.1 200 OK\r\n".to_vec()));
    assert!(headers_complete(&b"HTTP/1.1 200 OK\r\n\r\n".to_vec()));
    assert!(!headers_complete(&b"\r\n\r".to_vec()));
    assert!(headers_complete(&b"\r\n\r\n".to_vec()));
    assert!(!headers_complete(&Vec::new()));
    assert!(!headers_complete(&b"HTTP/1.1 200 OK\n\n".to_vec()));
}
