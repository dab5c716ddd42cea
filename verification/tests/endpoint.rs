use yip::build_request;
use yip::Endpoint;
use yip::IpError;

#[test]
fn build_request_with_path() {
    let ep = Endpoint {
        host: String::from("httpbin.org"),
        path: Some(String::from("/ip")),
        port: 80,
    };
    let r = build_request(&ep);
    assert_eq!(r.as_str(), "GET /ip HTTP/1.0\r\nHost: httpbin.org\r\n\r\n");
}

#[test]
fn build_request_default_path() {
    let ep = Endpoint { host: String::from("localhost"), path: None, port: 8111 };
    let r = build_request(&ep);
    assert_eq!(r.as_str(), "GET / HTTP/1.0\r\nHost: localhost\r\n\r\n");
}

#[test]
fn error_variants_are_distinct() {
    assert_ne!(IpError::ConnectionError, IpError::IOError);
    assert_ne!(IpError::IOError, IpError::ParseError);
    assert_ne!(IpError::ConnectionError, IpError::ParseError);
    let e = IpError::ParseError;
    let copy = e;
    assert_eq!(e, copy);
}
