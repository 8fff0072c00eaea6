use broust::networking::header::Header;
use broust::networking::response::{is_encoding_name, response_body, trim};
use broust::networking::url::URL;

#[test]
fn a_bare_request() {
    assert_eq!(
        Header::new("/", "example.org").to_string(),
        "GET / HTTP/1.0\r\nHost: example.org\r\n\r\n"
    );
}

#[test]
fn a_request_with_fields() {
    let header = Header::new("/index.html", "example.org")
        .add("Accept-Encoding", "identity")
        .add("User-Agent", "broust");
    assert_eq!(
        header.to_string(),
        "GET /index.html HTTP/1.0\r\nHost: example.org\r\nAccept-Encoding: identity\r\nUser-Agent: broust\r\n\r\n"
    );
}

#[test]
fn a_field_set_twice_keeps_the_last_value() {
    let header = Header::new("/", "h").add("A", "1").add("B", "2").add("A", "3");
    assert_eq!(header.to_string(), "GET / HTTP/1.0\r\nHost: h\r\nA: 3\r\nB: 2\r\n\r\n");
}

#[test]
fn a_field_can_be_removed() {
    let header = Header::new("/", "h").add("A", "1").add("B", "2").remove("A").remove("C");
    assert_eq!(header.to_string(), "GET / HTTP/1.0\r\nHost: h\r\nB: 2\r\n\r\n");
}

fn parts(url: &str) -> (String, String, String, u16) {
    let url = URL::new(url);
    (url.scheme, url.host, url.path, url.port)
}

fn owned(scheme: &str, host: &str, path: &str, port: u16) -> (String, String, String, u16) {
    (scheme.to_string(), host.to_string(), path.to_string(), port)
}

#[test]
fn an_address_is_taken_apart() {
    assert_eq!(parts("http://example.org"), owned("http", "example.org", "/", 80));
    assert_eq!(parts("http://example.org/"), owned("http", "example.org", "/", 80));
    assert_eq!(
        parts("https://example.org/a/b.html"),
        owned("https", "example.org", "/a/b.html", 443)
    );
    assert_eq!(
        parts("http://localhost:8080/x?y=http://z"),
        owned("http", "localhost:8080", "/x?y=http://z", 8080)
    );
    assert_eq!(parts("https://h:+0443"), owned("https", "h:+0443", "/", 443));
    assert_eq!(parts("http://"), owned("http", "", "/", 80));
    assert_eq!(parts("http://h:65535//"), owned("http", "h:65535", "//", 65535));
}

#[test]
fn what_is_no_address_is_refused() {
    for url in [
        "",
        "example.org",
        "ftp://example.org/",
        "HTTP://example.org/",
        "http:/example.org",
        "http://h:/",
        "http://h:+/",
        "http://h:65536/",
        "http://h:80:81/",
        "http://h:8o/",
        "http://h:-1/",
        "http://h: 80/",
        "http://h:99999999999999999999/",
    ] {
        assert!(URL::parse(url).is_none(), "{:?}", url);
    }
    assert!(URL::parse("http://h:00000000000000000080/").is_some());
}

#[test]
fn ports_are_parsed_as_the_standard_library_does() {
    for text in ["0", "80", "+80", "0080", "65535", "65536", "", "+", "-0", "8 0", "٣", "1e3"] {
        let expected = text.parse::<u16>().ok();
        let got = URL::parse(&format!("http://h:{}/", text)).map(|u| u.port);
        assert_eq!(got, expected, "{:?}", text);
    }
}

#[test]
fn an_address_asks_for_an_unencoded_body() {
    assert_eq!(
        URL::new("http://example.org:8080/a").request_text(),
        "GET /a HTTP/1.0\r\nHost: example.org:8080\r\nAccept-Encoding: identity\r\n\r\n"
    );
}

#[test]
fn the_body_follows_the_first_empty_line() {
    let response = "HTTP/1.0 200 OK\r\nContent-Type: text/html\r\nAge: 1\r\n\r\n<p>hi</p>\r\n\r\nmore";
    assert_eq!(response_body(response), Some("<p>hi</p>\r\n\r\nmore".to_string()));
    assert_eq!(response_body("HTTP/1.0 200 OK\r\n\r\n"), Some(String::new()));
    assert_eq!(response_body("\r\n\r\nx"), Some("x".to_string()));
}

#[test]
fn an_encoded_body_is_refused() {
    for field in ["Transfer-Encoding: chunked", " content-encoding : gzip", "CONTENT-ENCODING:"] {
        let response = format!("HTTP/1.0 200 OK\r\nA: b\r\n{}\r\n\r\nbody", field);
        assert_eq!(
            response_body(&response),
            Some("Error encoding not supported".to_string()),
            "{:?}",
            field
        );
    }
    // Also where no empty line follows.
    assert_eq!(
        response_body("HTTP/1.0 200 OK\r\nContent-Encoding: gzip"),
        Some("Error encoding not supported".to_string())
    );
    // After the empty line it is part of the body.
    assert_eq!(
        response_body("HTTP/1.0 200 OK\r\nA: b\r\n\r\nContent-Encoding: gzip\r\n"),
        Some("Content-Encoding: gzip\r\n".to_string())
    );
    // The value does not count.
    assert_eq!(
        response_body("HTTP/1.0 200 OK\r\nA: content-encoding\r\n\r\nx"),
        Some("x".to_string())
    );
}

#[test]
fn a_response_without_a_proper_head_has_no_body() {
    for response in [
        "",
        "HTTP/1.0 200 OK",
        "HTTP/1.0 200 OK\r\n",
        "HTTP/1.0 200 OK\r\nA: b",
        "HTTP/1.0 200 OK\r\nA: b\r\n",
        "HTTP/1.0 200 OK\r\nno colon here\r\n\r\nbody",
        "HTTP/1.0 200 OK\r\nContent-Encoding: gzip\r\nno colon\r\n\r\nbody",
        "HTTP/1.0 200 OK\n\nbody",
    ] {
        assert_eq!(response_body(response), None, "{:?}", response);
    }
}

#[test]
fn trimming_takes_white_space_off_both_ends() {
    for text in ["", " ", "a", "  a b \t\r\n", "\u{a0}x\u{3000}", " \u{200b} "] {
        assert_eq!(trim(text), text.trim(), "{:?}", text);
    }
}

#[test]
fn two_field_names_say_that_the_body_is_encoded() {
    assert!(is_encoding_name("transfer-encoding"));
    assert!(is_encoding_name("content-encoding"));
    assert!(!is_encoding_name("Content-Encoding"));
    assert!(!is_encoding_name("content-type"));
    assert!(!is_encoding_name(""));
}
