use ptroute::parser::{
    is_ip_token, is_ipv4, is_ipv6, is_probe_start, parse_target, parse_traceroute_n,
    parse_traceroute_n_with_target, ParseError,
};

#[test]
fn parse_target_from_header() {
    let line = "traceroute to 1.1.1.1 (1.1.1.1), 30 hops max";
    assert_eq!(parse_target(line), Some("1.1.1.1".to_string()));
}

#[test]
fn parse_uses_fallback_target() {
    let text = "1  192.168.1.1  1.0 ms  1.1 ms  1.2 ms";
    let run = parse_traceroute_n_with_target(text, "9.9.9.9").unwrap();
    assert_eq!(run.target, "9.9.9.9");
    assert_eq!(run.hops.len(), 1);
}

#[test]
fn parse_linux_numeric_with_edge_cases() {
    let text = "traceroute to 203.0.113.1 (203.0.113.1), 30 hops max, 60 byte packets\n \
                1  192.168.1.1  1.123 ms  1.201 ms  1.555 ms\n \
                2  10.0.0.1  5.2 ms  *  5.9 ms\n \
                3  10.0.0.2  9.0 ms !X  9.1 ms  9.2 ms\n \
                4  * * *\n \
                5  203.0.113.1  20.0 ms  20.5 ms  21.0 ms\n";
    let run = parse_traceroute_n(text).unwrap();

    assert_eq!(run.target, "203.0.113.1");
    assert_eq!(run.hops.len(), 5);

    let hop1 = &run.hops[0];
    assert_eq!(hop1.ttl, 1);
    assert_eq!(hop1.ip.as_deref(), Some("192.168.1.1"));
    assert_eq!(hop1.rtt_micros.len(), 3);
    assert_eq!(hop1.rtt_micros[0], Some(1123));

    let hop2 = &run.hops[1];
    assert_eq!(hop2.ttl, 2);
    assert_eq!(hop2.ip.as_deref(), Some("10.0.0.1"));
    assert_eq!(hop2.rtt_micros.len(), 3);
    assert!(hop2.rtt_micros[1].is_none());

    let hop3 = &run.hops[2];
    assert_eq!(hop3.ttl, 3);
    assert_eq!(hop3.ip.as_deref(), Some("10.0.0.2"));
    assert_eq!(hop3.rtt_micros.len(), 3);

    let hop4 = &run.hops[3];
    assert_eq!(hop4.ttl, 4);
    assert!(hop4.ip.is_none());
    assert_eq!(hop4.rtt_micros, vec![None, None, None]);
}

#[test]
fn parse_macos_numeric() {
    let text = "traceroute to 1.1.1.1 (1.1.1.1), 64 hops max, 52 byte packets\n \
                1  192.168.0.1  2.1 ms  1.9 ms  2.0 ms\n \
                2  100.64.0.1  8.0 ms  8.2 ms  8.4 ms\n \
                3  * * *\n \
                4  1.1.1.1  12.0 ms  12.1 ms  12.2 ms\n";
    let run = parse_traceroute_n(text).unwrap();

    assert_eq!(run.target, "1.1.1.1");
    assert_eq!(run.hops.len(), 4);
    assert_eq!(run.hops[2].rtt_micros, vec![None, None, None]);
    assert_eq!(run.hops[3].ip.as_deref(), Some("1.1.1.1"));
}

#[test]
fn parse_ipv6_numeric() {
    let text = "traceroute to 2606:4700:4700::1111 (2606:4700:4700::1111), 30 hops max\n \
                1  fe80::1  1.0 ms  1.1 ms  1.2 ms\n \
                2  2001:db8::1  4.0 ms  4.1 ms  4.2 ms\n \
                3  * * *\n \
                4  2606:4700:4700::1111  9.0 ms  9.1 ms  9.2 ms\n";
    let run = parse_traceroute_n(text).unwrap();

    assert_eq!(run.target, "2606:4700:4700::1111");
    assert_eq!(run.hops.len(), 4);
    assert_eq!(run.hops[0].ip.as_deref(), Some("fe80::1"));
    assert_eq!(run.hops[3].ip.as_deref(), Some("2606:4700:4700::1111"));
}

#[test]
fn parse_multi_ip_per_hop() {
    let text = "traceroute to 198.51.100.10 (198.51.100.10), 30 hops max\n \
                1  10.0.0.1  1.0 ms\n    10.0.0.2  1.5 ms\n    10.0.0.3  1.9 ms\n \
                2  198.51.100.10  5.0 ms  5.1 ms  5.2 ms\n";
    let run = parse_traceroute_n(text).unwrap();

    assert_eq!(run.target, "198.51.100.10");
    assert_eq!(run.hops.len(), 2);
    assert_eq!(run.hops[0].ip.as_deref(), Some("10.0.0.1"));
    assert_eq!(run.hops[0].rtt_micros.len(), 3);
    assert_eq!(run.hops[1].ip.as_deref(), Some("198.51.100.10"));
}

#[test]
fn parse_missing_target_is_an_error() {
    let text = "1  192.168.1.1  1.0 ms";
    assert_eq!(parse_traceroute_n(text).unwrap_err(), ParseError::MissingTarget);
    assert_eq!(
        parse_traceroute_n_with_target(text, "   ").unwrap_err(),
        ParseError::MissingTarget
    );
}

#[test]
fn parse_bad_hop_number_is_an_error() {
    let text = "traceroute to 1.1.1.1 (1.1.1.1), 30 hops max\n 99999999999  10.0.0.1  1.0 ms";
    assert_eq!(parse_traceroute_n(text).unwrap_err(), ParseError::BadHopLine);
}

#[test]
fn parse_target_prefers_parentheses() {
    assert_eq!(
        parse_target("traceroute to example (198.51.100.7), 30 hops max"),
        Some("198.51.100.7".to_string())
    );
    assert_eq!(
        parse_target("TRACEROUTE TO 9.9.9.9, 30 hops max"),
        Some("9.9.9.9".to_string())
    );
    assert_eq!(parse_target("no header here"), None);
}

#[test]
fn ip_token_shapes() {
    assert!(is_ipv4("192.168.1.1"));
    assert!(!is_ipv4("192.168.1"));
    assert!(!is_ipv4("192.168.1.256"));
    assert!(!is_ipv4("1.2.3.4."));
    assert!(is_ipv6("fe80::1"));
    assert!(!is_ipv6("192.168.1.1"));
    assert!(is_ip_token("10.0.0.1"));
    assert!(!is_ip_token("1.5ms"));
    assert!(is_probe_start("*"));
    assert!(is_probe_start("10.0.0.1"));
    assert!(!is_probe_start("ms"));
}

#[test]
fn rtt_values_are_exact_microseconds() {
    let text = "traceroute to 1.1.1.1 (1.1.1.1)\n 1  10.0.0.1  0.5 ms  12ms  3 ms";
    let run = parse_traceroute_n(text).unwrap();
    assert_eq!(run.hops[0].rtt_micros, vec![Some(500), Some(12000), Some(3000)]);
}
