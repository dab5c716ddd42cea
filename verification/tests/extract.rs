use yip::parse_ip;
use yip::IpError;

#[test]
fn parse_ip_single_line() {
    let ip = parse_ip("Your IP Address is 12.34.56.78").unwrap().to_string();
    assert_eq!(ip.as_str(), "12.34.56.78");
}

#[test]
fn parse_ip_multi_line() {
    let ip = parse_ip(
        r#"
        Hello and welcome!

        Your IP Address appears to be: 34.11.250.255,

        thank you for using this service!

        "#,
    )
    .unwrap()
    .to_string();
    assert_eq!(ip.as_str(), "34.11.250.255");
}

#[test]
fn parse_ip_multiple_ips() {
    let ip = parse_ip("12.56.34.78, 12.34.56.78").unwrap().to_string();
    assert_eq!(ip.as_str(), "12.56.34.78");
}

#[test]
fn parse_ip_bare_literal() {
    let ip = parse_ip("8.8.8.8").unwrap();
    assert_eq!(ip.as_str(), "8.8.8.8");
}

#[test]
fn parse_ip_http_response_body_only() {
    let text = "HTTP/1.0 200 OK\r\nContent-Type: application/json\r\n\r\n{\n  \"origin\": \"98.76.54.32\"\n}\n";
    let ip = parse_ip(text).unwrap();
    assert_eq!(ip.as_str(), "98.76.54.32");
}

#[test]
fn parse_ip_json_body() {
    let ip = parse_ip("{\"origin\": \"1.2.3.4\"}").unwrap();
    assert_eq!(ip.as_str(), "1.2.3.4");
}

#[test]
fn parse_ip_html_body() {
    let ip = parse_ip("<html><body>Your address: <b>10.0.0.1</b></body></html>").unwrap();
    assert_eq!(ip.as_str(), "10.0.0.1");
}

#[test]
fn parse_ip_strips_quotes_and_commas() {
    let ip = parse_ip("\"12\", \"34\", \"56\", \"78\"").unwrap();
    assert_eq!(ip.as_str(), "12.34.56.78");
}

#[test]
fn parse_ip_too_few_tokens() {
    assert_eq!(parse_ip("only 1.2.3 here").unwrap_err(), IpError::ParseError);
}

#[test]
fn parse_ip_empty_input() {
    assert_eq!(parse_ip("").unwrap_err(), IpError::ParseError);
}

#[test]
fn parse_ip_negative_token_fails_validation() {
    assert_eq!(parse_ip("-5 1 2 3").unwrap_err(), IpError::ParseError);
}

#[test]
fn parse_ip_large_numbers_dropped() {
    let ip = parse_ip("999 then 1.2.3.4").unwrap();
    assert_eq!(ip.as_str(), "1.2.3.4");
}

#[test]
fn parse_ip_huge_numeral_dropped() {
    let ip = parse_ip("99999999999 then 1.2.3.4").unwrap();
    assert_eq!(ip.as_str(), "1.2.3.4");
}

#[test]
fn parse_ip_leading_zeros_normalized() {
    let ip = parse_ip("012.034.056.078").unwrap();
    assert_eq!(ip.as_str(), "12.34.56.78");
}

#[test]
fn parse_ip_headers_do_not_leak() {
    let text = "HTTP/1.0 200 OK\r\nContent-Length: 33\r\n\r\nno numbers here";
    assert_eq!(parse_ip(text).unwrap_err(), IpError::ParseError);
}

#[test]
fn parse_ip_boundary_octets() {
    assert_eq!(parse_ip("255 255 255 255").unwrap().as_str(), "255.255.255.255");
    assert_eq!(parse_ip("0 0 0 0").unwrap().as_str(), "0.0.0.0");
    assert_eq!(parse_ip("256 1 2 3 4").unwrap().as_str(), "1.2.3.4");
}

#[test]
fn parse_ip_accepts_plus_signed_tokens() {
    assert_eq!(parse_ip("+12 34 56 78").unwrap().as_str(), "12.34.56.78");
}

#[test]
fn parse_ip_idempotent() {
    let text = "Your IP Address is 12.34.56.78";
    let first = parse_ip(text);
    let second = parse_ip(text);
    assert_eq!(first, second);
    let bad = "nothing to see";
    assert_eq!(parse_ip(bad), parse_ip(bad));
}
