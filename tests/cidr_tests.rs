use cidr::{
    address_text, expand_args, parse_address, parse_network, prefix_from_mask, ErrorKind, Network,
    DEFAULT_ADDRESS,
};
use std::str::FromStr;

fn strings(v: &[&str]) -> Vec<String> {
    v.iter().map(|s| s.to_string()).collect()
}

fn net(spec: &str) -> Network {
    parse_network(spec, None).expect("valid specifier")
}

#[test]
fn shorthand_inherits_previous_address() {
    let out = expand_args(&strings(&["10.0.0.1/24", "/16"])).unwrap();
    assert_eq!(out, strings(&["10.0.0.1/24", "10.0.0.1/16"]));
}

#[test]
fn explicit_override_sets_address() {
    let out = expand_args(&strings(&["/10.0.0.1/24", "/30"])).unwrap();
    assert_eq!(out, strings(&["10.0.0.1/24", "10.0.0.1/30"]));
}

#[test]
fn default_seed_address() {
    let out = expand_args(&strings(&["/24"])).unwrap();
    assert_eq!(out, strings(&["192.168.1.1/24"]));
    assert_eq!(address_text(DEFAULT_ADDRESS), "192.168.1.1");
}

#[test]
fn shorthand_only_inherits_from_earlier_tokens() {
    let out = expand_args(&strings(&["/8", "172.16.5.4/12", "/20", "/1.2.3.4/5", "/6"])).unwrap();
    assert_eq!(
        out,
        strings(&["192.168.1.1/8", "172.16.5.4/12", "172.16.5.4/20", "1.2.3.4/5", "1.2.3.4/6"])
    );
}

#[test]
fn expansion_of_empty_list_is_empty() {
    assert_eq!(expand_args(&[]).unwrap(), Vec::<String>::new());
}

#[test]
fn expansion_fails_on_bad_address() {
    let err = expand_args(&strings(&["10.0.0.1/24", "10.0.0.999/24", "/16"])).unwrap_err();
    assert_eq!(err.kind, ErrorKind::TokenParse);
    assert_eq!(err.input, "10.0.0.999/24");
    let err = expand_args(&strings(&["/10.0.x.1/24"])).unwrap_err();
    assert_eq!(err.kind, ErrorKind::TokenParse);
    assert_eq!(err.input, "/10.0.x.1/24");
}

#[test]
fn malformed_specifier_is_token_error() {
    let err = parse_network("10.0.0.999/24", None).unwrap_err();
    assert_eq!(err.kind(), ErrorKind::TokenParse);
    assert_eq!(err.input, "10.0.0.999/24");
    assert!(expand_args(&strings(&["10.0.0.999/24"])).is_err());
}

#[test]
fn bad_prefixes_are_token_errors() {
    for spec in ["10.0.0.1/33", "10.0.0.1/", "10.0.0.1/x", "10.0.0.1/24/3", "10.0.0.1/-1"] {
        let err = parse_network(spec, None).unwrap_err();
        assert_eq!(err.kind, ErrorKind::TokenParse, "{}", spec);
    }
}

#[test]
fn specifier_without_prefix_is_single_address() {
    assert_eq!(net("10.1.2.3"), Network { addr: 0x0a01_0203, prefix: 32 });
}

#[test]
fn mask_to_prefix() {
    assert_eq!(prefix_from_mask(0xffff_f800), 21);
    assert_eq!(prefix_from_mask(0), 0);
    assert_eq!(prefix_from_mask(0xffff_ffff), 32);
    let n = parse_network("10.0.0.1/8", Some("255.255.248.0")).unwrap();
    assert_eq!(n, Network { addr: 0x0a00_0001, prefix: 21 });
    assert_eq!(parse_network("10.0.0.1", Some("0.0.0.0")).unwrap().prefix, 0);
    assert_eq!(parse_network("10.0.0.1", Some("255.255.255.255")).unwrap().prefix, 32);
}

#[test]
fn non_contiguous_mask_uses_lowest_set_bit() {
    assert_eq!(parse_network("10.0.0.1", Some("255.0.255.0")).unwrap().prefix, 24);
}

#[test]
fn bad_mask_is_mask_error() {
    let err = parse_network("10.0.0.1", Some("255.255.256.0")).unwrap_err();
    assert_eq!(err.kind, ErrorKind::MaskParse);
    assert_eq!(err.input, "255.255.256.0");
    let err = parse_network("10.0.0.256", Some("255.255.255.0")).unwrap_err();
    assert_eq!(err.kind, ErrorKind::TokenParse);
}

#[test]
fn single_address_network() {
    let n = net("192.168.1.0/32");
    assert_eq!(n.address_count(), 1);
    assert_eq!(n.usable_count(), 0);
    assert_eq!(n.first_host(), None);
    assert_eq!(n.last_host(), None);
    assert_eq!(address_text(n.network()), "192.168.1.0");
}

#[test]
fn point_to_point_network() {
    let n = net("192.168.1.0/31");
    assert_eq!(n.address_count(), 2);
    assert_eq!(n.usable_count(), 0);
    assert_eq!(address_text(n.network()), "192.168.1.0");
    assert_eq!(address_text(n.broadcast()), "192.168.1.1");
    assert_eq!(n.first_host(), None);
}

#[test]
fn class_c_network() {
    let n = net("10.0.0.0/24");
    assert_eq!(address_text(n.network()), "10.0.0.0");
    assert_eq!(address_text(n.broadcast()), "10.0.0.255");
    assert_eq!(address_text(n.mask()), "255.255.255.0");
    assert_eq!(address_text(n.first_host().unwrap()), "10.0.0.1");
    assert_eq!(address_text(n.last_host().unwrap()), "10.0.0.254");
    assert_eq!(n.usable_count(), 254);
    assert_eq!(n.address_count(), 256);
}

#[test]
fn whole_address_space() {
    let n = net("1.2.3.4/0");
    assert_eq!(n.address_count(), 4_294_967_296);
    assert_eq!(n.usable_count(), 4_294_967_294);
    assert_eq!(n.mask(), 0);
    assert_eq!(n.network(), 0);
    assert_eq!(n.broadcast(), 0xffff_ffff);
    assert_eq!(n.first_host(), Some(1));
    assert_eq!(n.last_host(), Some(0xffff_fffe));
}

#[test]
fn counts_follow_prefix() {
    for p in 0u8..=32 {
        let n = Network::new(0x0a00_0000, p).unwrap();
        let count = 1u64 << (32 - p);
        assert_eq!(n.address_count(), count);
        assert_eq!(n.usable_count(), count.saturating_sub(2));
    }
    assert!(Network::new(0, 33).is_none());
}

#[test]
fn round_trip_keeps_network_address() {
    for (a, p) in [(0x0a01_0920u32, 16u8), (0xc0a8_0101, 24), (0xffff_ffff, 0), (7, 32), (0x8000_0001, 1)] {
        let spec = format!("{}/{}", address_text(a), p);
        let n = parse_network(&spec, None).unwrap();
        assert_eq!(n, Network { addr: a, prefix: p });
        let again = Network::new(n.network(), p).unwrap();
        assert_eq!(again.network(), n.network());
    }
}

#[test]
fn dotted_quad_text() {
    assert_eq!(address_text(0), "0.0.0.0");
    assert_eq!(address_text(0xffff_ffff), "255.255.255.255");
    assert_eq!(address_text(0x0a00_7b09), "10.0.123.9");
    assert_eq!(parse_address("10.0.123.9"), Some(0x0a00_7b09));
    assert_eq!(parse_address("255.255.255.255"), Some(0xffff_ffff));
    for bad in ["", "1.2.3", "1.2.3.4.5", "01.2.3.4", "1.2.3.256", "1..3.4", "1.2.3.4 ", "a.b.c.d", "1.2.3.0004"] {
        assert_eq!(parse_address(bad), None, "{}", bad);
    }
}

#[test]
fn agrees_with_ipnetwork() {
    for spec in ["10.9.0.32/16", "192.168.1.77/27", "0.0.0.0/0", "255.255.255.255/32", "172.16.0.1/31"] {
        let ours = net(spec);
        let theirs = ipnetwork::Ipv4Network::from_str(spec).unwrap();
        assert_eq!(ours.prefix, theirs.prefix());
        assert_eq!(ours.network(), u32::from(theirs.network()));
        assert_eq!(ours.broadcast(), u32::from(theirs.broadcast()));
        assert_eq!(ours.mask(), u32::from(theirs.mask()));
        assert_eq!(ours.addr, u32::from(theirs.ip()));
        assert_eq!(address_text(ours.addr), theirs.ip().to_string());
    }
}
