use yip::is_valid_ipv4;

#[test]
fn valid_ipv4_accepts_literals() {
    assert!(is_valid_ipv4("0.0.0.0"));
    assert!(is_valid_ipv4("255.255.255.255"));
    assert!(is_valid_ipv4("12.34.56.78"));
    assert!(is_valid_ipv4("1.2.3.4"));
}

#[test]
fn valid_ipv4_rejects_leading_zero() {
    assert!(!is_valid_ipv4("01.2.3.4"));
    assert!(!is_valid_ipv4("1.2.3.007"));
}

#[test]
fn valid_ipv4_rejects_out_of_range_group() {
    assert!(!is_valid_ipv4("256.1.1.1"));
    assert!(!is_valid_ipv4("1.2.3.999"));
}

#[test]
fn valid_ipv4_rejects_wrong_shapes() {
    assert!(!is_valid_ipv4(""));
    assert!(!is_valid_ipv4("1.2.3"));
    assert!(!is_valid_ipv4("1.2.3.4.5"));
    assert!(!is_valid_ipv4("1..2.3"));
    assert!(!is_valid_ipv4("1.2.3.4 "));
    assert!(!is_valid_ipv4("a.b.c.d"));
    assert!(!is_valid_ipv4("-1.2.3.4"));
}
