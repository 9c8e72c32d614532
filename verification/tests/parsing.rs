use printer_discovery::ip::Ipv4;
use printer_discovery::parse::{
    arp_candidates, extract_computer_name, extract_ip_from_arp_line, extract_ip_from_port,
    marked_lines, parse_ipconfig_local_ip, parse_name_list, parse_nslookup_output,
};
use printer_discovery::text::{contains_str, find_str, first_token, lines, str_eq, trim};

#[test]
fn ipv4_parse_accepts_canonical_text() {
    let ip = Ipv4::parse("192.168.1.50").unwrap();
    assert_eq!(ip.a, 192);
    assert_eq!(ip.b, 168);
    assert_eq!(ip.c, 1);
    assert_eq!(ip.d, 50);
    let zero = Ipv4::parse("0.0.0.0").unwrap();
    assert_eq!((zero.a, zero.b, zero.c, zero.d), (0, 0, 0, 0));
    let max = Ipv4::parse("255.255.255.255").unwrap();
    assert_eq!((max.a, max.b, max.c, max.d), (255, 255, 255, 255));
}

#[test]
fn ipv4_parse_rejects_malformed_text() {
    assert!(Ipv4::parse("").is_none());
    assert!(Ipv4::parse("1.2.3").is_none());
    assert!(Ipv4::parse("1.2.3.4.5").is_none());
    assert!(Ipv4::parse("256.1.1.1").is_none());
    assert!(Ipv4::parse("01.2.3.4").is_none());
    assert!(Ipv4::parse("1.2.3.4 ").is_none());
    assert!(Ipv4::parse("a.b.c.d").is_none());
    assert!(Ipv4::parse("1..2.3").is_none());
}

#[test]
fn ipv4_text_round_trip() {
    let ip = Ipv4 { a: 10, b: 0, c: 200, d: 3 };
    let text = ip.to_text();
    assert_eq!(text, "10.0.200.3");
    let back = Ipv4::parse(text.as_str()).unwrap();
    assert_eq!((back.a, back.b, back.c, back.d), (10, 0, 200, 3));
}

#[test]
fn subnet_range_is_the_254_hosts() {
    let ip = Ipv4 { a: 192, b: 168, c: 1, d: 77 };
    let range = ip.subnet_range();
    assert_eq!(range.len(), 254);
    assert_eq!(range[0].to_text(), "192.168.1.1");
    assert_eq!(range[253].to_text(), "192.168.1.254");
}

#[test]
fn router_heuristic_excludes_edges() {
    assert!(Ipv4 { a: 192, b: 168, c: 1, d: 1 }.is_likely_router_ip());
    assert!(Ipv4 { a: 192, b: 168, c: 1, d: 254 }.is_likely_router_ip());
    assert!(Ipv4 { a: 192, b: 168, c: 1, d: 255 }.is_likely_router_ip());
    assert!(!Ipv4 { a: 192, b: 168, c: 1, d: 50 }.is_likely_router_ip());
}

#[test]
fn text_search_finds_first_occurrence() {
    assert_eq!(find_str("abcabc", "bc"), Some(1));
    assert_eq!(find_str("abc", "zz"), None);
    assert!(contains_str("hello world", "o w"));
    assert!(!contains_str("hello", "world"));
    assert!(str_eq("same", "same"));
    assert!(!str_eq("same", "samX"));
}

#[test]
fn trim_and_lines_and_tokens() {
    assert_eq!(trim("  padded \t"), "padded");
    assert_eq!(trim("\r\n"), "");
    let ls = lines("first\r\nsecond\nthird");
    assert_eq!(ls, vec!["first", "second", "third"]);
    assert_eq!(lines(""), Vec::<String>::new());
    assert_eq!(lines("one\n"), vec!["one"]);
    assert_eq!(first_token("  lead rest"), Some("lead".to_string()));
    assert_eq!(first_token("   "), None);
}

#[test]
fn computer_name_extraction() {
    assert_eq!(
        extract_computer_name("\\\\PRINTSRV    Print server"),
        Some("PRINTSRV".to_string())
    );
    assert_eq!(extract_computer_name("\\\\LONE"), Some("LONE".to_string()));
    assert_eq!(extract_computer_name("no host here"), None);
}

#[test]
fn port_name_ip_extraction() {
    assert_eq!(
        extract_ip_from_port("IP_192.168.1.100"),
        Some("192.168.1.100".to_string())
    );
    assert_eq!(
        extract_ip_from_port("192.168.1.100"),
        Some("192.168.1.100".to_string())
    );
    assert_eq!(extract_ip_from_port("USB001"), None);
}

#[test]
fn arp_line_forms() {
    assert_eq!(
        extract_ip_from_arp_line("host.lan (192.168.1.50) at aa:bb:cc"),
        Some("192.168.1.50".to_string())
    );
    assert_eq!(
        extract_ip_from_arp_line("  192.168.1.60  aa-bb-cc  dynamic"),
        Some("192.168.1.60".to_string())
    );
    assert_eq!(extract_ip_from_arp_line("Interface: something"), None);
}

#[test]
fn arp_candidates_exclude_router_addresses() {
    let table = "host-a (192.168.1.50) at 00:11\ngateway (192.168.1.1) at 00:22\n";
    let candidates = arp_candidates(table);
    assert_eq!(candidates.len(), 1);
    assert_eq!(candidates[0].to_text(), "192.168.1.50");
}

#[test]
fn nslookup_output_parsing() {
    let output = "Server:  dns.lan\nAddress:  192.168.1.1#53\n\nName: printer.lan\nAddress: 192.168.1.50\n";
    let ip = parse_nslookup_output(output).unwrap();
    assert_eq!(ip.to_text(), "192.168.1.50");
    assert!(parse_nslookup_output("no addresses here").is_none());
}

#[test]
fn ipconfig_output_parsing() {
    let output = "   IPv4 Address. . . : 127.0.0.1\n   IPv4 Address. . . : 192.168.1.23\n";
    let ip = parse_ipconfig_local_ip(output).unwrap();
    assert_eq!(ip.to_text(), "192.168.1.23");
    assert!(parse_ipconfig_local_ip("   Subnet Mask: 255.255.255.0").is_none());
}

#[test]
fn name_list_skips_header_and_blanks() {
    let output = "Name\nHP OfficeJet\n\n  Brother HL-2270DW  \n";
    let names = parse_name_list(output);
    assert_eq!(names, vec!["HP OfficeJet", "Brother HL-2270DW"]);
    assert_eq!(parse_name_list("Name"), Vec::<String>::new());
}

#[test]
fn marked_lines_filter_and_trim() {
    let listing = "  Apple Keyboard \nUSB Hub\n Magic Mouse\n";
    assert_eq!(marked_lines(listing, "Keyboard", "Mouse"), vec!["Apple Keyboard", "Magic Mouse"]);
    assert_eq!(marked_lines("nothing", "Keyboard", "Mouse"), Vec::<String>::new());
}
