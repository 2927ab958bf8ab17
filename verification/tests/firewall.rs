use brocade_agent::conntrack;
use brocade_agent::hy2_port_hop;
use brocade_agent::hy2_port_hop::{notrack_lines, notrack_present, parse, Redirect};
use brocade_agent::plan::DesiredArtifact;

const CONFIG: &str = r#"{"inbounds":[
    {"tag":"api","listen":"127.0.0.1","port":10085,"protocol":"dokodemo-door"},
    {"tag":"in:vless","listen":"0.0.0.0","port":444,"protocol":"vless"},
    {"tag":"in:xhttp","listen":"::1","port":8080,"protocol":"vless"},
    {"tag":"in:hy2","listen":"0.0.0.0","port":443,"protocol":"hysteria"}
]}"#;

#[test]
fn only_public_tcp_inbounds_are_exempted() {
    assert_eq!(conntrack::ports(CONFIG), vec![444]);
}

#[test]
fn each_port_becomes_one_rule_in_each_direction() {
    assert_eq!(
        conntrack::rule_lines(&vec![444, 8443]),
        vec![
            "add rule inet brocade_conntrack prerouting_raw tcp dport 444 notrack",
            "add rule inet brocade_conntrack output_raw tcp sport 444 notrack",
            "add rule inet brocade_conntrack prerouting_raw tcp dport 8443 notrack",
            "add rule inet brocade_conntrack output_raw tcp sport 8443 notrack",
        ]
    );
}

const PRINTED: &str = "\
table inet brocade_conntrack {
	chain prerouting_raw {
		type filter hook prerouting priority raw; policy accept;
		tcp dport 444 notrack
		tcp dport 8443 notrack
	}

	chain output_raw {
		type filter hook output priority raw; policy accept;
		tcp sport 444 notrack
		tcp sport 8443 notrack
	}
}";

#[test]
fn what_nft_prints_parses_back_to_what_was_written() {
    assert_eq!(conntrack::parse_installed(PRINTED), vec![444, 8443]);
}

#[test]
fn a_config_with_nothing_to_exempt_yields_no_ports() {
    let hysteria_only = r#"{"inbounds":[
        {"tag":"api","listen":"127.0.0.1","port":10085,"protocol":"dokodemo-door"},
        {"tag":"in:hy2","listen":"0.0.0.0","port":443,"protocol":"hysteria"}
    ]}"#;
    assert!(conntrack::ports(hysteria_only).is_empty());
}

#[test]
fn an_unparseable_listen_counts_as_public() {
    assert!(!conntrack::is_loopback("example.net"));
    assert!(!conntrack::is_loopback("0.0.0.0"));
    assert!(conntrack::is_loopback("127.0.0.1"));
    assert!(conntrack::is_loopback("::1"));
    assert!(conntrack::is_loopback("[::1]"));
}

#[test]
fn the_exemption_matches_only_the_listing_of_its_own_ports() {
    assert!(!conntrack::matches_content(CONFIG, Some(PRINTED)));
    let own = "\t\ttcp dport 444 notrack\n\t\ttcp sport 444 notrack\n";
    assert!(conntrack::matches_content(CONFIG, Some(own)));
    assert!(!conntrack::matches_content(CONFIG, None));
}

#[test]
fn an_exemption_is_taken_down_where_nothing_is_asked_for() {
    let disabled = DesiredArtifact::Disabled {
        reason: "x".to_owned(),
    };
    assert_eq!(conntrack::apply(&disabled), Some(conntrack::disable()));
    let unmanaged = DesiredArtifact::Unmanaged {
        reason: "x".to_owned(),
    };
    assert_eq!(conntrack::apply(&unmanaged), None);
}

#[test]
fn a_range_becomes_one_udp_redirect_rule() {
    let rules = hy2_port_hop::rule_lines(&[Redirect {
        start: 50_000,
        end: 50_009,
        to: 50_000,
    }]);
    assert_eq!(
        rules,
        vec!["add rule inet brocade_hy2_port_hop prerouting udp dport 50000-50009 redirect to :50000"]
    );
}

#[test]
fn several_ranges_are_joined_by_real_newlines() {
    let script = hy2_port_hop::rule_lines(&[
        Redirect {
            start: 50_000,
            end: 50_009,
            to: 50_000,
        },
        Redirect {
            start: 50_010,
            end: 50_019,
            to: 50_010,
        },
    ])
    .join("\n");
    assert_eq!(script.lines().count(), 2, "{script:?}");
    assert!(!script.contains("\\n"), "{script:?}");
    let installed = hy2_port_hop::install(&[
        Redirect {
            start: 50_000,
            end: 50_009,
            to: 50_000,
        },
        Redirect {
            start: 50_010,
            end: 50_019,
            to: 50_010,
        },
    ]);
    assert!(installed.contains(&script));
}

/// That table belongs to another feature, which deletes and rebuilds it whole.
#[test]
fn the_table_is_not_the_one_phantun_owns() {
    let script = hy2_port_hop::disable();
    assert_ne!(script, script.replace("brocade_hy2_port_hop", "brocade"));
    assert!(!script.contains("inet brocade "));
}

#[test]
fn icmp_is_notracked_in_both_families_and_both_directions() {
    assert_eq!(
        notrack_lines(),
        vec![
            "add rule inet brocade_hy2_port_hop prerouting_raw ip protocol icmp notrack",
            "add rule inet brocade_hy2_port_hop prerouting_raw ip6 nexthdr icmpv6 notrack",
            "add rule inet brocade_hy2_port_hop output_raw ip protocol icmp notrack",
            "add rule inet brocade_hy2_port_hop output_raw ip6 nexthdr icmpv6 notrack",
        ]
    );
}

#[test]
fn a_table_missing_the_notrack_rules_does_not_read_as_present() {
    let old_table = "table inet brocade_hy2_port_hop {\n  chain prerouting {\n    type nat hook prerouting priority dstnat; policy accept;\n    udp dport 50000-50009 redirect to :50000\n  }\n}";
    assert!(!notrack_present(old_table), "{old_table:?}");
}

#[test]
fn the_notrack_rules_are_recognised_in_their_printed_form() {
    let printed = "table inet brocade_hy2_port_hop {\n  chain prerouting {\n    type nat hook prerouting priority dstnat; policy accept;\n    udp dport 50000-50009 redirect to :50000\n  }\n  chain prerouting_raw {\n    type filter hook prerouting priority raw; policy accept;\n    ip protocol icmp notrack\n    ip6 nexthdr ipv6-icmp notrack\n  }\n  chain output_raw {\n    type filter hook output priority raw; policy accept;\n    ip protocol icmp notrack\n    ip6 nexthdr ipv6-icmp notrack\n  }\n}";
    assert!(notrack_present(printed), "{printed:?}");
}

#[test]
fn a_notrack_rule_in_the_wrong_chain_does_not_count() {
    let crossed = "table inet brocade_hy2_port_hop {\n  chain prerouting_raw {\n    type filter hook prerouting priority raw; policy accept;\n    ip protocol icmp notrack\n    ip6 nexthdr ipv6-icmp notrack\n    ip protocol icmp notrack\n  }\n  chain output_raw {\n    type filter hook output priority raw; policy accept;\n    ip6 nexthdr ipv6-icmp notrack\n  }\n}";
    assert!(!notrack_present(crossed), "{crossed:?}");
}

#[test]
fn a_range_that_excludes_its_listener_is_refused_rather_than_installed() {
    let refused = parse(r#"{"redirects":[{"start":50000,"end":50009,"to":443}]}"#);
    assert!(refused.is_err(), "{refused:?}");
    let reversed = parse(r#"{"redirects":[{"start":50009,"end":50000,"to":50000}]}"#);
    assert!(reversed.is_err(), "{reversed:?}");
}

#[test]
fn the_disabled_artifact_parses_as_no_ranges() {
    assert_eq!(parse("{}").unwrap(), Vec::new());
}

#[test]
fn installed_rules_are_read_back_in_the_shape_they_were_written() {
    let listing = "table inet brocade_hy2_port_hop {\n  chain prerouting {\n    type nat hook prerouting priority dstnat; policy accept;\n    udp dport 50000-50009 redirect to :50000\n  }\n  chain prerouting_raw {\n    type filter hook prerouting priority raw; policy accept;\n    ip protocol icmp notrack\n  }\n  chain output_raw {\n    type filter hook output priority raw; policy accept;\n    ip protocol icmp notrack\n  }\n}";
    assert_eq!(
        hy2_port_hop::installed(Some(listing)),
        vec![(50_000, 50_009, 50_000)]
    );
}

#[test]
fn a_table_with_everything_asked_for_reads_as_matching() {
    let content = r#"{"redirects":[{"start":50000,"end":50009,"to":50000}]}"#;
    let whole = "table inet brocade_hy2_port_hop {\n  chain prerouting {\n    udp dport 50000-50009 redirect to :50000\n  }\n  chain prerouting_raw {\n    ip protocol icmp notrack\n    ip6 nexthdr ipv6-icmp notrack\n  }\n  chain output_raw {\n    ip protocol icmp notrack\n    ip6 nexthdr ipv6-icmp notrack\n  }\n}";
    assert!(hy2_port_hop::matches_content(content, Some(whole)));
    assert!(!hy2_port_hop::matches_content(content, None));
    let unmanaged = DesiredArtifact::Unmanaged {
        reason: "x".to_owned(),
    };
    assert!(hy2_port_hop::matches(&unmanaged, None));
}
