use uri::{is_valid_ip_v6, is_valid_ip_v_future};

#[test]
fn is_valid_ip_v_future_test() {
    assert_eq!(is_valid_ip_v_future("v7.abc"), true);
    assert_eq!(is_valid_ip_v_future("VF.127.0.0.1"), true);
    assert_eq!(is_valid_ip_v_future("x7.abc"), false);
    assert_eq!(is_valid_ip_v_future("xX.abc"), false);
    assert_eq!(is_valid_ip_v_future("V7:127.0.0.1"), false);
}

#[test]
fn is_valid_ip_v6_test() {
    assert_eq!(is_valid_ip_v6("2001:db8:3333:4444:5555:6666:7777:8888"), true);
    assert_eq!(is_valid_ip_v6("2001:db8:3333:AAAA:BBBB:CCCC:DDDD:EEEE"), true);
    assert_eq!(is_valid_ip_v6("2001:db8:3333::BBBB:CCCC:DDDD:EEEE"), true);
    assert_eq!(is_valid_ip_v6("200:db8:333::BBB:CCC:DDD:EEE"), true);
    assert_eq!(is_valid_ip_v6("::"), true);
    assert_eq!(is_valid_ip_v6("::FFFF"), true);
    assert_eq!(is_valid_ip_v6("2001:db8:3333:AAAA:BBBB::"), true);
    assert_eq!(is_valid_ip_v6("2001:db8:3333:BBBB:CCCC:DDDD"), false);
    assert_eq!(is_valid_ip_v6("2001:db8:3333:BBBB:CCCC:DDDD:"), false);
    assert_eq!(is_valid_ip_v6("2001:db8:3333::BBBBB:CCCC::"), false);
    assert_eq!(is_valid_ip_v6("2001:db8:3333::BBBB:CCCC::"), false);
    assert_eq!(is_valid_ip_v6("200:db8:333::BBB:CCC:DDD:GGGG"), false);
    assert_eq!(is_valid_ip_v6("200:db8:333:::BBB:CCC:DDD"), false);
    assert_eq!(is_valid_ip_v6("200:db8:333:AAA:BBB:CCC:DDD:EEE:FFF"), false);
    assert_eq!(is_valid_ip_v6("200:db8:333::AAA:BBB:CCC:DDD:EEE"), false);
    assert_eq!(is_valid_ip_v6("200:db8:333:AAA:BBB:CCC:DDD:EEE::"), false);
}

#[test]
fn ip_v6_rejects_long_group_and_empty() {
    assert_eq!(is_valid_ip_v6("12345::"), false);
    assert_eq!(is_valid_ip_v6("::1234"), true);
    assert_eq!(is_valid_ip_v6(""), false);
    assert_eq!(is_valid_ip_v6("1:2:3:4:5:6:7:8:9"), false);
    assert_eq!(is_valid_ip_v6("1::2::3"), false);
}

#[test]
fn ip_v_future_edges() {
    assert_eq!(is_valid_ip_v_future("v7."), true);
    assert_eq!(is_valid_ip_v_future("v7"), false);
    assert_eq!(is_valid_ip_v_future("v7.a%20"), false);
    assert_eq!(is_valid_ip_v_future("v7.a/b"), false);
}
