//! The device record every discovery strategy produces, and its provenance.

use vstd::prelude::*;
use crate::ip::{ip_text, Ipv4};

verus! {

/// Which strategy produced a record. The order of the variants is the fixed
/// priority used when records for one address are merged: earlier sources are
/// trusted over later, scan-derived ones.
#[derive(Clone, Copy, PartialEq, Eq, Structural, Debug)]
pub enum DeviceSource {
    Local,
    NetView,
    Wmi,
    PowerShellShare,
    PortScan,
    ArpScan,
}

impl DeviceSource {
    /// A short display label for the provenance.
    pub fn label(&self) -> (r: String)
        ensures
            r@ == match *self {
                DeviceSource::Local => "Local"@,
                DeviceSource::NetView => "Network"@,
                DeviceSource::Wmi => "Network (WMI)"@,
                DeviceSource::PowerShellShare => "Network (PowerShell)"@,
                DeviceSource::PortScan => "Port Scan Discovery"@,
                DeviceSource::ArpScan => "ARP Discovery"@,
            },
    {
        match self {
            DeviceSource::Local => "Local".to_string(),
            DeviceSource::NetView => "Network".to_string(),
            DeviceSource::Wmi => "Network (WMI)".to_string(),
            DeviceSource::PowerShellShare => "Network (PowerShell)".to_string(),
            DeviceSource::PortScan => "Port Scan Discovery".to_string(),
            DeviceSource::ArpScan => "ARP Discovery".to_string(),
        }
    }
}

/// One discovered device: a display name, the sentinel `"local"` or a
/// dotted-quad address, the responding service port (0 for local devices),
/// the model where one was positively resolved, and the producing strategy.
#[derive(Debug, Clone)]
pub struct NetworkPrinter {
    pub name: String,
    pub ip_address: String,
    pub port: u16,
    pub model: Option<String>,
    pub source: DeviceSource,
}

/// A record that carries the sentinel address of locally installed devices.
pub open spec fn is_local_rec(r: NetworkPrinter) -> bool {
    r.ip_address@ == "local"@
}

/// A record for a locally installed device.
pub fn local_record(name: String) -> (r: NetworkPrinter)
    ensures
        r.name == name,
        r.ip_address@ == "local"@,
        r.port == 0,
        r.model is None,
        r.source == DeviceSource::Local,
        is_local_rec(r),
{
    NetworkPrinter {
        name,
        ip_address: "local".to_string(),
        port: 0,
        model: None,
        source: DeviceSource::Local,
    }
}

/// Records for a list of locally installed device names, in order.
pub fn local_records(names: Vec<String>) -> (r: Vec<NetworkPrinter>)
    ensures
        r@.len() == names@.len(),
        forall|i: int| 0 <= i < r@.len() ==> #[trigger] r@[i].name == names@[i],
        forall|i: int| 0 <= i < r@.len() ==> #[trigger] r@[i].ip_address@ == "local"@,
        forall|i: int| 0 <= i < r@.len() ==> #[trigger] r@[i].port == 0,
        forall|i: int| 0 <= i < r@.len() ==> #[trigger] r@[i].model is None,
        forall|i: int| 0 <= i < r@.len() ==> #[trigger] r@[i].source == DeviceSource::Local,
{
    let ghost all = names@;
    let mut rest = names;
    let mut out: Vec<NetworkPrinter> = Vec::new();
    proof {
        assert(all.subrange(0, 0) =~= Seq::<String>::empty());
    }
    while rest.len() > 0
        invariant
            out@.len() + rest@.len() == all.len(),
            rest@ == all.subrange(out@.len() as int, all.len() as int),
            forall|i: int| 0 <= i < out@.len() ==> #[trigger] out@[i].name == all[i],
            forall|i: int| 0 <= i < out@.len() ==> #[trigger] out@[i].ip_address@ == "local"@,
            forall|i: int| 0 <= i < out@.len() ==> #[trigger] out@[i].port == 0,
            forall|i: int| 0 <= i < out@.len() ==> #[trigger] out@[i].model is None,
            forall|i: int| 0 <= i < out@.len() ==> #[trigger] out@[i].source == DeviceSource::Local,
        decreases rest@.len(),
    {
        let name = rest.remove(0);
        proof {
            assert(name == all[out@.len() as int]);
        }
        out.push(local_record(name));
        proof {
            assert(rest@ =~= all.subrange(out@.len() as int, all.len() as int));
        }
    }
    out
}

/// The synthesized display name for a device that answered on a port but
/// yielded no identity.
pub open spec fn synthesized_name(ip: Ipv4) -> Seq<char> {
    "Network Printer at "@ + ip_text(ip)
}

/// The synthesized display name for an unidentified device.
pub fn synthesize_name(ip: &Ipv4) -> (r: String)
    ensures
        r@ == synthesized_name(*ip),
        r@.len() > 0,
{
    let mut s = "Network Printer at ".to_string();
    let t = ip.to_text();
    s.append(t.as_str());
    proof {
        reveal_strlit("Network Printer at ");
    }
    s
}

} // verus!
