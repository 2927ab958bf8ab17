use brocade_agent::http::{
    decode_chunked_body, parse_http_response, receive, HttpClient, MAX_HTTP_RESPONSE_BYTES,
};

#[test]
fn response_headers_are_case_insensitive() {
    let response = parse_http_response(
        b"HTTP/1.1 204 No Content\r\nX-Brocade-Log-Max-MiB: 256\r\nContent-Length: 0\r\n\r\n",
    )
    .unwrap();
    assert_eq!(response.header("x-brocade-log-max-mib"), Some("256"));
    assert_eq!(response.header("X-BROCADE-LOG-MAX-MIB"), Some("256"));
}

/// Without an explicit port the Host header must not carry one either: a name-based
/// reverse proxy would find no matching site.
#[test]
fn the_default_port_is_left_out_of_the_host_header() {
    let client = HttpClient::new("http://example.test").unwrap();
    assert_eq!(client.port, 80);
    assert_eq!(client.host_header, "example.test");
    assert_eq!(client.prefix, "", "没有路径就没有前缀");

    let client = HttpClient::new("http://[::1]").unwrap();
    assert_eq!(client.host, "::1");
    assert_eq!(client.port, 80);
    assert_eq!(client.host_header, "[::1]");
}

#[test]
fn a_trailing_slash_in_the_prefix_is_trimmed() {
    assert_eq!(HttpClient::new("http://h/base/").unwrap().prefix, "/base");
    assert_eq!(HttpClient::new("http://h/base").unwrap().prefix, "/base");
    assert_eq!(HttpClient::new("http://h/").unwrap().prefix, "");
}

#[test]
fn a_broken_port_is_reported_instead_of_falling_back_to_80() {
    for url in [
        "http://example.test:",
        "http://example.test:http",
        "http://example.test:70000",
        "http://[::1]:70000",
    ] {
        let error = HttpClient::new(url).unwrap_err();
        assert!(
            error.contains("invalid port"),
            "{url} 该报端口无效，实际 {error}"
        );
    }
}

#[test]
fn https_urls_get_tls_and_port_443() {
    let client = HttpClient::new("https://example.test").unwrap();
    assert!(client.tls);
    assert_eq!(client.port, 443);
    assert_eq!(client.host_header, "example.test");

    let client = HttpClient::new("https://example.test:8443").unwrap();
    assert!(client.tls);
    assert_eq!(client.port, 8443);
    assert_eq!(client.host_header, "example.test:8443", "非默认端口要带上");

    let client = HttpClient::new("http://example.test").unwrap();
    assert!(!client.tls, "http 不该被悄悄升级成 TLS");
    assert_eq!(client.port, 80);

    assert_eq!(
        HttpClient::new("http://example.test:443")
            .unwrap()
            .host_header,
        "example.test:443"
    );
    assert_eq!(
        HttpClient::new("https://example.test:80")
            .unwrap()
            .host_header,
        "example.test:80"
    );
}

#[test]
fn a_url_without_a_scheme_is_rejected() {
    for url in [
        "relay.example:8081",
        "example.test",
        "ftp://example.test",
        "",
    ] {
        let error = HttpClient::new(url).unwrap_err();
        assert!(
            error.contains("must start with http:// or https://"),
            "{url} 实际 {error}"
        );
    }
}

#[test]
fn an_empty_host_is_rejected_early() {
    for url in ["http://", "http://:8080", "http://[]:8080", "http://]bad"] {
        assert!(HttpClient::new(url).is_err(), "{url} 不该被接受");
    }
}

#[test]
fn an_unclosed_bracket_is_rejected() {
    let error = HttpClient::new("http://[::1:8080").unwrap_err();
    assert!(error.contains("bracketed IPv6"), "实际 {error}");
}

#[test]
fn a_truncated_chunked_body_is_an_error_not_a_short_read() {
    let error = decode_chunked_body(b"5\r\nhel").unwrap_err();
    assert!(error.contains("ended inside a chunk"), "实际 {error}");

    let error = decode_chunked_body(b"5\r\nhelloXX").unwrap_err();
    assert!(error.contains("missing trailing CRLF"), "实际 {error}");

    let error = decode_chunked_body(b"5").unwrap_err();
    assert!(error.contains("missing chunk size"), "实际 {error}");

    let error = decode_chunked_body(b"zz\r\n").unwrap_err();
    assert!(error.contains("invalid chunk size"), "实际 {error}");
}

#[test]
fn a_chunk_extension_is_ignored() {
    let decoded = decode_chunked_body(b"5;name=value\r\nhello\r\n0\r\n\r\n").unwrap();
    assert_eq!(decoded, b"hello");
}

#[test]
fn a_malformed_status_line_is_rejected() {
    let error = parse_http_response(b"HTTP/1.1 200 OK\r\nno terminator").unwrap_err();
    assert!(error.contains("missing header terminator"), "实际 {error}");

    let error = parse_http_response(b"HTTP/1.1 zzz OK\r\n\r\n").unwrap_err();
    assert!(error.contains("invalid status"), "实际 {error}");

    let error = parse_http_response(b"HTTP/1.1\r\n\r\n").unwrap_err();
    assert!(error.contains("missing status"), "实际 {error}");
}

#[test]
fn chunked_is_recognized_regardless_of_spelling() {
    for head in [
        "Transfer-Encoding: chunked",
        "transfer-encoding: Chunked",
        "Transfer-Encoding:  gzip, chunked ",
    ] {
        let raw = format!("HTTP/1.1 200 OK\r\n{head}\r\n\r\n5\r\nhello\r\n0\r\n\r\n");
        let response = parse_http_response(raw.as_bytes()).unwrap();
        assert_eq!(response.body, "hello", "{head} 该被认成分块");
    }
}

#[test]
fn parses_basic_http_response() {
    let response =
        parse_http_response(b"HTTP/1.1 204 No Content\r\nConnection: close\r\n\r\n").unwrap();
    assert_eq!(response.status, 204);
    assert_eq!(response.body, "");
}

#[test]
fn parses_chunked_http_response() {
    let response = parse_http_response(
        b"HTTP/1.1 200 OK\r\nTransfer-Encoding: chunked\r\n\r\n5\r\nhello\r\n6\r\n world\r\n0\r\n\r\n",
    )
    .unwrap();
    assert_eq!(response.status, 200);
    assert_eq!(response.body, "hello world");
}

#[test]
fn rejects_oversized_chunked_http_response() {
    let body = format!("{:x}\r\n", MAX_HTTP_RESPONSE_BYTES + 1);
    let error = decode_chunked_body(body.as_bytes()).unwrap_err();
    assert!(error.contains("exceeds"));
}

#[test]
fn parses_http_client_authority_with_ipv6_and_port_host_header() {
    let client = HttpClient::new("http://[::1]:8081/base/").unwrap();
    assert_eq!(client.host, "::1");
    assert_eq!(client.port, 8081);
    assert_eq!(client.host_header, "[::1]:8081");
    assert_eq!(client.prefix, "/base");

    let client = HttpClient::new("http://example.test:8081").unwrap();
    assert_eq!(client.host, "example.test");
    assert_eq!(client.port, 8081);
    assert_eq!(client.host_header, "example.test:8081");

    let error = HttpClient::new("http://::1:8081").unwrap_err();
    assert!(error.contains("IPv6 server URLs must use brackets"));
}

#[test]
fn a_request_names_its_host_token_and_extra_headers() {
    let client = HttpClient::new("https://example.test/base/").unwrap();
    let request = client.request_with_headers(
        "POST",
        "/agent/v1/load",
        "tok",
        Some("{}"),
        &[("X-Brocade-Route-IPv4".to_owned(), "192.0.2.1".to_owned())],
        "id",
        "7",
    );
    assert!(request.starts_with("POST /base/agent/v1/load HTTP/1.1\r\n"));
    assert!(request.contains("Host: example.test\r\n"));
    assert!(request.contains("X-Brocade-Route-IPv4: 192.0.2.1\r\n"));
    assert!(request.contains("Content-Length: 2\r\n"));
    assert!(request.ends_with("\r\n\r\n{}"));
}

/// A body that is not text keeps its readable part out of the response: it is an error.
#[test]
fn a_body_that_is_no_text_is_an_error() {
    let mut raw = b"HTTP/1.1 200 OK\r\n\r\n".to_vec();
    raw.push(0xff);
    assert!(parse_http_response(&raw).is_err());
}

#[test]
fn a_head_that_is_no_text_is_read_as_far_as_it_is() {
    let mut raw = b"HTTP/1.1 200 OK\r\nX-Odd: ".to_vec();
    raw.push(0xff);
    raw.extend_from_slice(b"\r\n\r\nbody");
    let response = parse_http_response(&raw).unwrap();
    assert_eq!(response.status, 200);
    assert_eq!(response.header("x-odd"), Some("\u{fffd}"));
    assert_eq!(response.body, "body");
}

#[test]
fn a_response_beyond_the_limit_is_refused_as_it_arrives() {
    let mut raw: Vec<u8> = Vec::new();
    assert!(receive(&mut raw, b"abc").is_ok());
    assert_eq!(raw, b"abc");
    let much = vec![0_u8; MAX_HTTP_RESPONSE_BYTES];
    assert!(receive(&mut raw, &much).is_err());
}

#[test]
fn a_path_of_slashes_is_no_prefix() {
    assert_eq!(HttpClient::new("http://h//").unwrap().prefix, "");
    assert_eq!(HttpClient::new("https://h///").unwrap().prefix, "");
    assert_eq!(HttpClient::new("http://h//base//").unwrap().prefix, "//base");
    assert_eq!(HttpClient::new("http://h").unwrap().prefix, "");
}

#[test]
fn a_lone_carriage_return_does_not_end_a_heading() {
    let decoded = decode_chunked_body(b"5;a=\rb\r\nhello\r\n0\r\n\r\n").unwrap();
    assert_eq!(decoded, b"hello");
}
