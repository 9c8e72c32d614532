use printer_discovery::device::{local_records, synthesize_name, DeviceSource, NetworkPrinter};
use printer_discovery::ip::Ipv4;
use printer_discovery::merge::{dedup_records, merge_discovery};
use printer_discovery::parse::{netview_candidate_names, netview_record, share_record, wmi_record};
use printer_discovery::scan::{host_records, plan_chunks, probe_ports};

fn net_rec(name: &str, addr: &str, source: DeviceSource) -> NetworkPrinter {
    NetworkPrinter {
        name: name.to_string(),
        ip_address: addr.to_string(),
        port: 9100,
        model: None,
        source,
    }
}

#[test]
fn dedup_keeps_first_record_per_address() {
    let records = vec![
        net_rec("first", "192.168.1.50", DeviceSource::Wmi),
        net_rec("second", "192.168.1.50", DeviceSource::PortScan),
        net_rec("other", "192.168.1.60", DeviceSource::PortScan),
    ];
    let out = dedup_records(records);
    assert_eq!(out.len(), 2);
    assert_eq!(out[0].name, "first");
    assert_eq!(out[0].ip_address, "192.168.1.50");
    assert_eq!(out[1].name, "other");
}

#[test]
fn dedup_never_collapses_local_records() {
    let records = vec![
        local_records(vec!["One".to_string(), "Two".to_string()]).remove(0),
        local_records(vec!["Two".to_string()]).remove(0),
        net_rec("net", "192.168.1.50", DeviceSource::PortScan),
    ];
    let out = dedup_records(records);
    assert_eq!(out.len(), 3);
    assert_eq!(out[0].name, "One");
    assert_eq!(out[1].name, "Two");
    assert_eq!(out[2].ip_address, "192.168.1.50");
}

#[test]
fn priority_order_beats_execution_order() {
    // the same address reported by a structured source and by the scan:
    // the structured source stands earlier in the merge and wins
    let wmi = vec![net_rec("from-wmi", "192.168.1.50", DeviceSource::Wmi)];
    let scan = vec![net_rec("from-scan", "192.168.1.50", DeviceSource::PortScan)];
    let out = merge_discovery(Vec::new(), Vec::new(), wmi, Vec::new(), scan);
    assert_eq!(out.len(), 1);
    assert_eq!(out[0].name, "from-wmi");
    assert!(matches!(out[0].source, DeviceSource::Wmi));
}

#[test]
fn three_records_one_local_list() {
    // every network strategy empty: output is exactly the local list
    let locals = local_records(vec!["Office Printer".to_string()]);
    let out = merge_discovery(locals, Vec::new(), Vec::new(), Vec::new(), Vec::new());
    assert_eq!(out.len(), 1);
    assert_eq!(out[0].name, "Office Printer");
    assert_eq!(out[0].ip_address, "local");
    assert_eq!(out[0].port, 0);
    assert!(out[0].model.is_none());
    assert!(matches!(out[0].source, DeviceSource::Local));
}

#[test]
fn local_records_build_the_sentinel_rows() {
    let out = local_records(vec!["A".to_string(), "B".to_string()]);
    assert_eq!(out.len(), 2);
    for rec in &out {
        assert_eq!(rec.ip_address, "local");
        assert_eq!(rec.port, 0);
        assert!(rec.model.is_none());
    }
    assert_eq!(out[0].name, "A");
    assert_eq!(out[1].name, "B");
}

#[test]
fn synthesized_name_text() {
    let ip = Ipv4 { a: 192, b: 168, c: 1, d: 7 };
    assert_eq!(synthesize_name(&ip), "Network Printer at 192.168.1.7");
}

#[test]
fn source_labels() {
    assert_eq!(DeviceSource::Local.label(), "Local");
    assert_eq!(DeviceSource::Wmi.label(), "Network (WMI)");
    assert_eq!(DeviceSource::ArpScan.label(), "ARP Discovery");
}

#[test]
fn probe_ports_are_the_printer_services() {
    assert_eq!(probe_ports(), vec![9100, 515, 631]);
}

#[test]
fn chunk_plan_covers_candidates_in_order() {
    let base = Ipv4 { a: 10, b: 0, c: 0, d: 1 };
    let mut candidates = Vec::new();
    for i in 0..25u8 {
        candidates.push(Ipv4 { a: 10, b: 0, c: 0, d: i + 1 });
    }
    let chunks = plan_chunks(candidates, 10);
    assert_eq!(chunks.len(), 3);
    assert_eq!(chunks[0].len(), 10);
    assert_eq!(chunks[1].len(), 10);
    assert_eq!(chunks[2].len(), 5);
    assert_eq!(chunks[0][0], base);
    assert_eq!(chunks[2][4], Ipv4 { a: 10, b: 0, c: 0, d: 25 });
    assert_eq!(plan_chunks(Vec::new(), 10).len(), 0);
}

#[test]
fn host_records_share_identity_across_ports() {
    let ip = Ipv4 { a: 192, b: 168, c: 1, d: 50 };
    let ports = vec![9100u16, 631u16];
    let name = "Printer1".to_string();
    let model = Some("HP LaserJet Pro M404".to_string());
    let recs = host_records(&ip, &ports, &name, &model, DeviceSource::PortScan);
    assert_eq!(recs.len(), 2);
    assert_eq!(recs[0].port, 9100);
    assert_eq!(recs[1].port, 631);
    for rec in &recs {
        assert_eq!(rec.name, "Printer1");
        assert_eq!(rec.ip_address, "192.168.1.50");
        assert_eq!(rec.model.as_deref(), Some("HP LaserJet Pro M404"));
        assert!(matches!(rec.source, DeviceSource::PortScan));
    }
}

#[test]
fn netview_names_and_records() {
    let listing = "\\\\PRINTSRV   Print server\n\\\\FILES      File share\n";
    let names = netview_candidate_names(listing);
    assert_eq!(names, vec!["PRINTSRV"]);
    let rec = netview_record("PRINTSRV".to_string(), &Ipv4 { a: 192, b: 168, c: 1, d: 9 });
    assert_eq!(rec.name, "PRINTSRV");
    assert_eq!(rec.ip_address, "192.168.1.9");
    assert_eq!(rec.port, 515);
    assert!(rec.model.is_none());
    assert!(matches!(rec.source, DeviceSource::NetView));
}

#[test]
fn wmi_and_share_records() {
    let rec = wmi_record(
        "Office".to_string(),
        "IP_192.168.1.100",
        Some("DriverX".to_string()),
    );
    assert_eq!(rec.ip_address, "192.168.1.100");
    assert_eq!(rec.port, 9100);
    assert_eq!(rec.model.as_deref(), Some("DriverX"));
    assert!(matches!(rec.source, DeviceSource::Wmi));

    let kept = wmi_record("Office".to_string(), "SOMEPORT", None);
    assert_eq!(kept.ip_address, "SOMEPORT");

    let shared = share_record(
        "Raw".to_string(),
        Some("SharedName".to_string()),
        "USB001",
        None,
    );
    assert_eq!(shared.name, "SharedName");
    assert_eq!(shared.ip_address, "unknown");
    assert!(matches!(shared.source, DeviceSource::PowerShellShare));

    let unshared = share_record("Raw".to_string(), None, "192.168.1.80", None);
    assert_eq!(unshared.name, "Raw");
    assert_eq!(unshared.ip_address, "192.168.1.80");
}
