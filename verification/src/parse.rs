//! Parsers for the OS tools' text output — the neighbor table, the interface
//! configuration, host listings — and the builders that turn parsed entries
//! into device records.

use vstd::prelude::*;
use crate::device::{DeviceSource, NetworkPrinter};
use crate::ip::{ip_text, parse_ipv4, spec_is_likely_router_ip, spec_parse_ipv4, Ipv4};
use crate::text::{
    contains_str,
    find_str,
    first_occurrence,
    first_token,
    lines,
    opt_text,
    spec_first_token,
    spec_trim,
    split_lines,
    text_contains,
    trim,
};

verus! {

/// The host name written after a double backslash: the characters up to the
/// first space, or the whole remainder trimmed when no space follows.
pub open spec fn spec_extract_computer_name(s: Seq<char>) -> Option<Seq<char>> {
    if text_contains(s, "\\\\"@) {
        let np = s.subrange(first_occurrence(s, "\\\\"@) + 2, s.len() as int);
        if text_contains(np, " "@) {
            Some(np.subrange(0, first_occurrence(np, " "@)))
        } else {
            Some(spec_trim(np))
        }
    } else {
        None
    }
}

/// Extracts the host name that follows a double backslash in a listing line.
pub fn extract_computer_name(line: &str) -> (r: Option<String>)
    ensures
        opt_text(r) == spec_extract_computer_name(line@),
{
    proof {
        reveal_strlit("\\\\");
        reveal_strlit(" ");
    }
    let n = line.unicode_len();
    match find_str(line, "\\\\") {
        Some(st) => {
            let np = line.substring_char(st + 2, n);
            match find_str(np, " ") {
                Some(e) => Some(np.substring_char(0, e).to_string()),
                None => Some(trim(np).to_string()),
            }
        },
        None => None,
    }
}

/// The address named by a port name: the text after `IP_` when that text is
/// a dotted quad, or the whole port name when it is one itself.
pub open spec fn spec_extract_ip_from_port(s: Seq<char>) -> Option<Seq<char>> {
    if text_contains(s, "IP_"@) && spec_parse_ipv4(
        s.subrange(first_occurrence(s, "IP_"@) + 3, s.len() as int),
    ) is Some {
        Some(s.subrange(first_occurrence(s, "IP_"@) + 3, s.len() as int))
    } else if spec_parse_ipv4(s) is Some {
        Some(s)
    } else {
        None
    }
}

/// Extracts a dotted-quad address from a printer port name.
pub fn extract_ip_from_port(port_name: &str) -> (r: Option<String>)
    ensures
        opt_text(r) == spec_extract_ip_from_port(port_name@),
{
    proof {
        reveal_strlit("IP_");
    }
    let n = port_name.unicode_len();
    if let Some(st) = find_str(port_name, "IP_") {
        let rest = port_name.substring_char(st + 3, n);
        if parse_ipv4(rest).is_some() {
            return Some(rest.to_string());
        }
    }
    if parse_ipv4(port_name).is_some() {
        return Some(port_name.to_string());
    }
    None
}

/// The address a neighbor-table line names: a dotted quad between the first
/// parentheses, or failing that the line's first whitespace-delimited token.
pub open spec fn spec_arp_line_ip(s: Seq<char>) -> Option<Ipv4> {
    let i = first_occurrence(s, "("@);
    let j = first_occurrence(s, ")"@);
    if text_contains(s, "("@) && text_contains(s, ")"@) && i + 1 <= j && spec_parse_ipv4(
        s.subrange(i + 1, j),
    ) is Some {
        spec_parse_ipv4(s.subrange(i + 1, j))
    } else {
        match spec_first_token(s) {
            Some(t) => spec_parse_ipv4(t),
            None => None,
        }
    }
}

/// The address a neighbor-table line names, as a value.
fn arp_line_ip(line: &str) -> (r: Option<Ipv4>)
    ensures
        r == spec_arp_line_ip(line@),
{
    proof {
        reveal_strlit("(");
        reveal_strlit(")");
    }
    let n = line.unicode_len();
    if let Some(i) = find_str(line, "(") {
        if let Some(j) = find_str(line, ")") {
            if i + 1 <= j {
                let inner = line.substring_char(i + 1, j);
                if let Some(ip) = parse_ipv4(inner) {
                    return Some(ip);
                }
            }
        }
    }
    match first_token(line) {
        Some(t) => parse_ipv4(t.as_str()),
        None => None,
    }
}

/// Extracts the dotted-quad address a neighbor-table line names.
pub fn extract_ip_from_arp_line(line: &str) -> (r: Option<String>)
    ensures
        opt_text(r) == match spec_arp_line_ip(line@) {
            Some(ip) => Some(ip_text(ip)),
            None => None,
        },
{
    match arp_line_ip(line) {
        Some(ip) => Some(ip.to_text()),
        None => None,
    }
}

/// The scan candidates a neighbor table yields: every address its lines
/// name, in order, with likely router and broadcast addresses excluded.
pub open spec fn spec_arp_candidates(ls: Seq<Seq<char>>) -> Seq<Ipv4>
    decreases ls.len(),
{
    if ls.len() == 0 {
        seq![]
    } else {
        let p = spec_arp_candidates(ls.drop_last());
        match spec_arp_line_ip(ls.last()) {
            Some(ip) => if !spec_is_likely_router_ip(ip) {
                p.push(ip)
            } else {
                p
            },
            None => p,
        }
    }
}

/// The address a resolver-output line reports: the trimmed text after
/// `Address:`, on lines free of a `#` comment mark.
pub open spec fn spec_nslookup_line_ip(l: Seq<char>) -> Option<Ipv4> {
    if text_contains(l, "Address:"@) && !text_contains(l, "#"@) {
        spec_parse_ipv4(
            spec_trim(l.subrange(first_occurrence(l, "Address:"@) + 8, l.len() as int)),
        )
    } else {
        None
    }
}

/// The first address the resolver output reports, line by line.
pub open spec fn spec_nslookup_ip(ls: Seq<Seq<char>>) -> Option<Ipv4>
    decreases ls.len(),
{
    if ls.len() == 0 {
        None
    } else {
        match spec_nslookup_line_ip(ls[0]) {
            Some(ip) => Some(ip),
            None => spec_nslookup_ip(ls.drop_first()),
        }
    }
}

/// The address one resolver-output line reports.
fn nslookup_line_ip(line: &str) -> (r: Option<Ipv4>)
    ensures
        r == spec_nslookup_line_ip(line@),
{
    proof {
        reveal_strlit("Address:");
        reveal_strlit("#");
    }
    let n = line.unicode_len();
    match find_str(line, "Address:") {
        Some(st) => {
            if contains_str(line, "#") {
                None
            } else {
                parse_ipv4(trim(line.substring_char(st + 8, n)))
            }
        },
        None => None,
    }
}

/// Parses resolver output into the first address it reports.
pub fn parse_nslookup_output(text: &str) -> (r: Option<Ipv4>)
    ensures
        r == spec_nslookup_ip(split_lines(text@)),
{
    let ls = lines(text);
    let ghost lseq = split_lines(text@);
    let mut i: usize = 0;
    proof {
        assert(lseq.subrange(0, lseq.len() as int) =~= lseq);
    }
    while i < ls.len()
        invariant
            lseq == split_lines(text@),
            ls@.len() == lseq.len(),
            forall|t: int| 0 <= t < ls@.len() ==> ls@[t]@ == lseq[t],
            i <= ls@.len(),
            spec_nslookup_ip(lseq) == spec_nslookup_ip(lseq.subrange(i as int, lseq.len() as int)),
        decreases ls@.len() - i,
    {
        let ghost tail = lseq.subrange(i as int, lseq.len() as int);
        proof {
            assert(tail[0] == lseq[i as int]);
            assert(tail.drop_first() =~= lseq.subrange(i as int + 1, lseq.len() as int));
        }
        if let Some(ip) = nslookup_line_ip(ls[i].as_str()) {
            return Some(ip);
        }
        i += 1;
    }
    proof {
        assert(lseq.subrange(lseq.len() as int, lseq.len() as int).len() == 0);
    }
    None
}

/// The address an interface-configuration line reports: the trimmed text
/// after the colon on a line naming an IPv4 address, loopback excluded.
pub open spec fn spec_ipconfig_line_ip(l: Seq<char>) -> Option<Ipv4> {
    if text_contains(l, "IPv4 Address"@) && text_contains(l, ":"@) {
        match spec_parse_ipv4(
            spec_trim(l.subrange(first_occurrence(l, ":"@) + 1, l.len() as int)),
        ) {
            Some(ip) => if ip.a != 127 {
                Some(ip)
            } else {
                None
            },
            None => None,
        }
    } else {
        None
    }
}

/// The first non-loopback local address the configuration output reports.
pub open spec fn spec_ipconfig_ip(ls: Seq<Seq<char>>) -> Option<Ipv4>
    decreases ls.len(),
{
    if ls.len() == 0 {
        None
    } else {
        match spec_ipconfig_line_ip(ls[0]) {
            Some(ip) => Some(ip),
            None => spec_ipconfig_ip(ls.drop_first()),
        }
    }
}

/// The address one interface-configuration line reports.
fn ipconfig_line_ip(line: &str) -> (r: Option<Ipv4>)
    ensures
        r == spec_ipconfig_line_ip(line@),
{
    proof {
        reveal_strlit("IPv4 Address");
        reveal_strlit(":");
    }
    let n = line.unicode_len();
    if !contains_str(line, "IPv4 Address") {
        return None;
    }
    match find_str(line, ":") {
        Some(st) => {
            match parse_ipv4(trim(line.substring_char(st + 1, n))) {
                Some(ip) => {
                    if ip.a != 127 {
                        Some(ip)
                    } else {
                        None
                    }
                },
                None => None,
            }
        },
        None => None,
    }
}

/// Parses interface-configuration output into the first usable local
/// address: the subnet sweep is derived from it.
pub fn parse_ipconfig_local_ip(text: &str) -> (r: Option<Ipv4>)
    ensures
        r == spec_ipconfig_ip(split_lines(text@)),
{
    let ls = lines(text);
    let ghost lseq = split_lines(text@);
    let mut i: usize = 0;
    proof {
        assert(lseq.subrange(0, lseq.len() as int) =~= lseq);
    }
    while i < ls.len()
        invariant
            lseq == split_lines(text@),
            ls@.len() == lseq.len(),
            forall|t: int| 0 <= t < ls@.len() ==> ls@[t]@ == lseq[t],
            i <= ls@.len(),
            spec_ipconfig_ip(lseq) == spec_ipconfig_ip(lseq.subrange(i as int, lseq.len() as int)),
        decreases ls@.len() - i,
    {
        let ghost tail = lseq.subrange(i as int, lseq.len() as int);
        proof {
            assert(tail[0] == lseq[i as int]);
            assert(tail.drop_first() =~= lseq.subrange(i as int + 1, lseq.len() as int));
        }
        if let Some(ip) = ipconfig_line_ip(ls[i].as_str()) {
            return Some(ip);
        }
        i += 1;
    }
    proof {
        assert(lseq.subrange(lseq.len() as int, lseq.len() as int).len() == 0);
    }
    None
}

/// The names a tabular tool listing yields: every line after the header,
/// trimmed, with blank lines dropped.
pub open spec fn spec_name_list(ls: Seq<Seq<char>>) -> Seq<Seq<char>>
    decreases ls.len(),
{
    if ls.len() <= 1 {
        seq![]
    } else {
        let p = spec_name_list(ls.drop_last());
        if spec_trim(ls.last()).len() > 0 {
            p.push(spec_trim(ls.last()))
        } else {
            p
        }
    }
}

/// Parses a tabular tool listing — one name per line under a header line —
/// into the trimmed, non-blank names.
pub fn parse_name_list(text: &str) -> (r: Vec<String>)
    ensures
        r@.len() == spec_name_list(split_lines(text@)).len(),
        forall|t: int|
            0 <= t < r@.len() ==> r@[t]@ == spec_name_list(split_lines(text@))[t],
{
    let ls = lines(text);
    let ghost lseq = split_lines(text@);
    let mut out: Vec<String> = Vec::new();
    if ls.len() <= 1 {
        return out;
    }
    let mut i: usize = 1;
    proof {
        assert(spec_name_list(lseq.subrange(0, 1)) =~= Seq::<Seq<char>>::empty());
    }
    while i < ls.len()
        invariant
            lseq == split_lines(text@),
            ls@.len() == lseq.len(),
            forall|t: int| 0 <= t < ls@.len() ==> ls@[t]@ == lseq[t],
            1 <= i <= ls@.len(),
            out@.len() == spec_name_list(lseq.subrange(0, i as int)).len(),
            forall|t: int|
                0 <= t < out@.len() ==> out@[t]@ == spec_name_list(lseq.subrange(0, i as int))[t],
        decreases ls@.len() - i,
    {
        proof {
            assert(lseq.subrange(0, i + 1).drop_last() =~= lseq.subrange(0, i as int));
            assert(lseq.subrange(0, i + 1).last() == lseq[i as int]);
        }
        let t = trim(ls[i].as_str());
        if t.unicode_len() > 0 {
            out.push(t.to_string());
        }
        i += 1;
    }
    proof {
        assert(lseq.subrange(0, lseq.len() as int) =~= lseq);
    }
    out
}

/// The host names a share listing yields: for each line that mentions
/// printing, the name after the double backslash. A line holding `Printer`
/// holds `Print`, so the single mark covers both spellings.
pub open spec fn spec_netview_names(ls: Seq<Seq<char>>) -> Seq<Seq<char>>
    decreases ls.len(),
{
    if ls.len() == 0 {
        seq![]
    } else {
        let p = spec_netview_names(ls.drop_last());
        if text_contains(ls.last(), "Print"@) {
            match spec_extract_computer_name(ls.last()) {
                Some(nm) => p.push(nm),
                None => p,
            }
        } else {
            p
        }
    }
}

/// Parses a share listing into the host names of its printing entries.
pub fn netview_candidate_names(text: &str) -> (r: Vec<String>)
    ensures
        r@.len() == spec_netview_names(split_lines(text@)).len(),
        forall|t: int|
            0 <= t < r@.len() ==> r@[t]@ == spec_netview_names(split_lines(text@))[t],
{
    let ls = lines(text);
    let ghost lseq = split_lines(text@);
    let mut out: Vec<String> = Vec::new();
    let mut i: usize = 0;
    proof {
        assert(lseq.subrange(0, 0) =~= Seq::<Seq<char>>::empty());
    }
    while i < ls.len()
        invariant
            lseq == split_lines(text@),
            ls@.len() == lseq.len(),
            forall|t: int| 0 <= t < ls@.len() ==> ls@[t]@ == lseq[t],
            i <= ls@.len(),
            out@.len() == spec_netview_names(lseq.subrange(0, i as int)).len(),
            forall|t: int|
                0 <= t < out@.len() ==> out@[t]@ == spec_netview_names(
                    lseq.subrange(0, i as int),
                )[t],
        decreases ls@.len() - i,
    {
        proof {
            assert(lseq.subrange(0, i + 1).drop_last() =~= lseq.subrange(0, i as int));
            assert(lseq.subrange(0, i + 1).last() == lseq[i as int]);
        }
        if contains_str(ls[i].as_str(), "Print") {
            if let Some(nm) = extract_computer_name(ls[i].as_str()) {
                out.push(nm);
            }
        }
        i += 1;
    }
    proof {
        assert(lseq.subrange(0, lseq.len() as int) =~= lseq);
    }
    out
}

/// The lines of a listing that carry either of two marks, trimmed, in
/// order.
pub open spec fn spec_marked_lines(ls: Seq<Seq<char>>, a: Seq<char>, b: Seq<char>) -> Seq<
    Seq<char>,
>
    decreases ls.len(),
{
    if ls.len() == 0 {
        seq![]
    } else {
        let p = spec_marked_lines(ls.drop_last(), a, b);
        if text_contains(ls.last(), a) || text_contains(ls.last(), b) {
            p.push(spec_trim(ls.last()))
        } else {
            p
        }
    }
}

/// Filters a listing down to the trimmed lines that carry either mark.
pub fn marked_lines(text: &str, a: &str, b: &str) -> (r: Vec<String>)
    ensures
        r@.len() == spec_marked_lines(split_lines(text@), a@, b@).len(),
        forall|t: int|
            0 <= t < r@.len() ==> r@[t]@ == spec_marked_lines(split_lines(text@), a@, b@)[t],
{
    let ls = lines(text);
    let ghost lseq = split_lines(text@);
    let mut out: Vec<String> = Vec::new();
    let mut i: usize = 0;
    proof {
        assert(lseq.subrange(0, 0) =~= Seq::<Seq<char>>::empty());
    }
    while i < ls.len()
        invariant
            lseq == split_lines(text@),
            ls@.len() == lseq.len(),
            forall|t: int| 0 <= t < ls@.len() ==> ls@[t]@ == lseq[t],
            i <= ls@.len(),
            out@.len() == spec_marked_lines(lseq.subrange(0, i as int), a@, b@).len(),
            forall|t: int|
                0 <= t < out@.len() ==> out@[t]@ == spec_marked_lines(
                    lseq.subrange(0, i as int),
                    a@,
                    b@,
                )[t],
        decreases ls@.len() - i,
    {
        proof {
            assert(lseq.subrange(0, i + 1).drop_last() =~= lseq.subrange(0, i as int));
            assert(lseq.subrange(0, i + 1).last() == lseq[i as int]);
        }
        if contains_str(ls[i].as_str(), a) || contains_str(ls[i].as_str(), b) {
            out.push(trim(ls[i].as_str()).to_string());
        }
        i += 1;
    }
    proof {
        assert(lseq.subrange(0, lseq.len() as int) =~= lseq);
    }
    out
}

/// A record for a printing host found in a share listing, resolved to an
/// address.
pub fn netview_record(name: String, ip: &Ipv4) -> (r: NetworkPrinter)
    ensures
        r.name == name,
        r.ip_address@ == ip_text(*ip),
        r.port == 515,
        r.model is None,
        r.source == DeviceSource::NetView,
{
    NetworkPrinter {
        name,
        ip_address: ip.to_text(),
        port: 515,
        model: None,
        source: DeviceSource::NetView,
    }
}

/// A record for a structured management-query entry: the address is read
/// from the entry's port name, which stands in unchanged when it names no
/// dotted quad.
pub fn wmi_record(name: String, port_name: &str, driver_name: Option<String>) -> (r:
    NetworkPrinter)
    ensures
        r.name == name,
        r.ip_address@ == match spec_extract_ip_from_port(port_name@) {
            Some(t) => t,
            None => port_name@,
        },
        r.port == 9100,
        r.model == driver_name,
        r.source == DeviceSource::Wmi,
{
    let ip_address = match extract_ip_from_port(port_name) {
        Some(t) => t,
        None => port_name.to_string(),
    };
    NetworkPrinter { name, ip_address, port: 9100, model: driver_name, source: DeviceSource::Wmi }
}

/// A record for a shared-printer entry: the share name is preferred as the
/// display name, and an entry whose port names no address is marked unknown.
pub fn share_record(
    name: String,
    share_name: Option<String>,
    port_name: &str,
    driver_name: Option<String>,
) -> (r: NetworkPrinter)
    ensures
        r.name == match share_name {
            Some(sn) => sn,
            None => name,
        },
        r.ip_address@ == match spec_extract_ip_from_port(port_name@) {
            Some(t) => t,
            None => "unknown"@,
        },
        r.port == 9100,
        r.model == driver_name,
        r.source == DeviceSource::PowerShellShare,
{
    let display = match share_name {
        Some(sn) => sn,
        None => name,
    };
    let ip_address = match extract_ip_from_port(port_name) {
        Some(t) => t,
        None => "unknown".to_string(),
    };
    NetworkPrinter {
        name: display,
        ip_address,
        port: 9100,
        model: driver_name,
        source: DeviceSource::PowerShellShare,
    }
}

/// Parses a neighbor table into scan candidates.
pub fn arp_candidates(text: &str) -> (r: Vec<Ipv4>)
    ensures
        r@ == spec_arp_candidates(split_lines(text@)),
{
    let ls = lines(text);
    let ghost lseq = split_lines(text@);
    let mut out: Vec<Ipv4> = Vec::new();
    let mut i: usize = 0;
    proof {
        assert(lseq.subrange(0, 0) =~= Seq::<Seq<char>>::empty());
    }
    while i < ls.len()
        invariant
            lseq == split_lines(text@),
            ls@.len() == lseq.len(),
            forall|t: int| 0 <= t < ls@.len() ==> ls@[t]@ == lseq[t],
            i <= ls@.len(),
            out@ == spec_arp_candidates(lseq.subrange(0, i as int)),
        decreases ls@.len() - i,
    {
        proof {
            assert(lseq.subrange(0, i + 1).drop_last() =~= lseq.subrange(0, i as int));
            assert(lseq.subrange(0, i + 1).last() == lseq[i as int]);
        }
        match arp_line_ip(ls[i].as_str()) {
            Some(ip) => {
                if !ip.is_likely_router_ip() {
                    out.push(ip);
                }
            },
            None => {},
        }
        i += 1;
    }
    proof {
        assert(lseq.subrange(0, lseq.len() as int) =~= lseq);
    }
    out
}

} // verus!
