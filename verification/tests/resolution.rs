use printer_discovery::device::DeviceSource;
use printer_discovery::ip::Ipv4;
use printer_discovery::resolve::{first_page_text, needs_page_lookup, resolve_identity};
use printer_discovery::scan::host_records;

#[test]
fn page_text_prefers_the_title() {
    let body = "<html><head><title>HP LaserJet Pro M404</title></head><body><h1>Status</h1></body></html>";
    assert_eq!(first_page_text(body), Some("HP LaserJet Pro M404".to_string()));
}

#[test]
fn page_text_falls_back_to_the_heading() {
    let body = "<html><head><title></title></head><body><h1>Brother HL-2270DW</h1></body></html>";
    assert_eq!(first_page_text(body), Some("Brother HL-2270DW".to_string()));
}

#[test]
fn page_text_of_an_empty_page_is_none() {
    assert_eq!(first_page_text("<html><body></body></html>"), None);
}

#[test]
fn structured_model_wins_over_page_text() {
    let ip = Ipv4 { a: 192, b: 168, c: 1, d: 50 };
    let (name, model) = resolve_identity(
        Some("Printer1".to_string()),
        Some("SNMP Model".to_string()),
        Some("Page Model".to_string()),
        &ip,
    );
    assert_eq!(name, "Printer1");
    assert_eq!(model.as_deref(), Some("SNMP Model"));
}

#[test]
fn page_text_fills_a_missing_model() {
    // port 9100 open on 192.168.1.50, structured query names the device but
    // no model, the page title supplies it
    let ip = Ipv4 { a: 192, b: 168, c: 1, d: 50 };
    let page = first_page_text("<html><head><title>HP LaserJet Pro M404</title></head></html>");
    let (name, model) = resolve_identity(Some("Printer1".to_string()), None, page, &ip);
    assert_eq!(name, "Printer1");
    assert_eq!(model.as_deref(), Some("HP LaserJet Pro M404"));

    let ports = vec![9100u16];
    let recs = host_records(&ip, &ports, &name, &model, DeviceSource::PortScan);
    assert_eq!(recs.len(), 1);
    assert_eq!(recs[0].name, "Printer1");
    assert_eq!(recs[0].ip_address, "192.168.1.50");
    assert_eq!(recs[0].port, 9100);
    assert_eq!(recs[0].model.as_deref(), Some("HP LaserJet Pro M404"));
    assert!(matches!(recs[0].source, DeviceSource::PortScan));
}

#[test]
fn page_text_names_the_device_when_the_query_named_none() {
    let ip = Ipv4 { a: 192, b: 168, c: 1, d: 50 };
    let (name, model) = resolve_identity(None, None, Some("Web Printer".to_string()), &ip);
    assert_eq!(name, "Web Printer");
    assert_eq!(model.as_deref(), Some("Web Printer"));
}

#[test]
fn synthesis_is_the_last_resort() {
    let ip = Ipv4 { a: 192, b: 168, c: 1, d: 50 };
    let (name, model) = resolve_identity(None, None, None, &ip);
    assert_eq!(name, "Network Printer at 192.168.1.50");
    assert!(model.is_none());

    let (empty_name, empty_model) =
        resolve_identity(Some(String::new()), None, Some(String::new()), &ip);
    assert_eq!(empty_name, "Network Printer at 192.168.1.50");
    assert!(empty_model.is_none());
}

#[test]
fn page_lookup_runs_only_without_a_model() {
    assert!(needs_page_lookup(&None));
    assert!(!needs_page_lookup(&Some("Model".to_string())));
}
