//! The scan plan: which ports are probed, how the candidate set is cut into
//! bounded chunks, the wall-clock bound that chunking buys, and how one
//! host's open ports become device records.

use vstd::prelude::*;
use crate::device::{DeviceSource, NetworkPrinter};
use crate::ip::{ip_text, Ipv4};

verus! {

/// The fixed printer service ports probed on every candidate: raw printing,
/// LPR, and IPP.
pub fn probe_ports() -> (r: Vec<u16>)
    ensures
        r@ == seq![9100u16, 515u16, 631u16],
{
    let mut v: Vec<u16> = Vec::new();
    v.push(9100);
    v.push(515);
    v.push(631);
    proof {
        assert(v@ =~= seq![9100u16, 515u16, 631u16]);
    }
    v
}

/// The least number of chunks of size `c` that cover `n` items.
pub open spec fn ceil_div(n: int, c: int) -> int
    recommends
        c > 0,
{
    (n + c - 1) / c
}

/// The candidate set cut into consecutive chunks of at most `c` addresses,
/// in order, every chunk but the last full.
pub open spec fn spec_chunks(s: Seq<Ipv4>, c: int) -> Seq<Seq<Ipv4>>
    recommends
        c > 0,
    decreases s.len(),
    when c > 0
{
    if s.len() == 0 {
        seq![]
    } else if s.len() <= c {
        seq![s]
    } else {
        seq![s.subrange(0, c)] + spec_chunks(s.subrange(c, s.len() as int), c)
    }
}

/// Chunking yields exactly the least covering number of chunks.
pub proof fn lemma_chunks_count(s: Seq<Ipv4>, c: int)
    requires
        c > 0,
    ensures
        spec_chunks(s, c).len() == ceil_div(s.len() as int, c),
    decreases s.len(),
{
    let n = s.len() as int;
    if s.len() == 0 {
        assert(ceil_div(0, c) == 0) by (nonlinear_arith)
            requires
                c > 0,
        ;
    } else if s.len() <= c {
        assert(ceil_div(n, c) == 1) by (nonlinear_arith)
            requires
                c > 0 && 1 <= n <= c,
        ;
    } else {
        lemma_chunks_count(s.subrange(c, n), c);
        assert(ceil_div(n - c, c) + 1 == ceil_div(n, c)) by (nonlinear_arith)
            requires
                c > 0 && n > c,
        ;
    }
}

/// Every chunk holds between one and `c` addresses.
pub proof fn lemma_chunks_sizes(s: Seq<Ipv4>, c: int)
    requires
        c > 0,
    ensures
        forall|i: int|
            0 <= i < spec_chunks(s, c).len() ==> 1 <= (#[trigger] spec_chunks(s, c)[i]).len()
                <= c,
    decreases s.len(),
{
    if s.len() > c {
        let rest = s.subrange(c, s.len() as int);
        lemma_chunks_sizes(rest, c);
        assert forall|i: int| 0 <= i < spec_chunks(s, c).len() implies 1 <= (#[trigger] spec_chunks(
            s,
            c,
        )[i]).len() <= c by {
            if i > 0 {
                assert(spec_chunks(s, c)[i] == spec_chunks(rest, c)[i - 1]);
            }
        }
    }
}

/// Cuts the candidate set into consecutive chunks of at most `chunk_size`
/// addresses: the chunks partition the candidates in order.
pub fn plan_chunks(candidates: Vec<Ipv4>, chunk_size: usize) -> (r: Vec<Vec<Ipv4>>)
    requires
        chunk_size > 0,
    ensures
        r@.len() == spec_chunks(candidates@, chunk_size as int).len(),
        r@.len() == ceil_div(candidates@.len() as int, chunk_size as int),
        forall|i: int|
            0 <= i < r@.len() ==> (#[trigger] r@[i])@ == spec_chunks(
                candidates@,
                chunk_size as int,
            )[i],
{
    proof {
        lemma_chunks_count(candidates@, chunk_size as int);
    }
    let ghost all = candidates@;
    let ghost c = chunk_size as int;
    let mut rest = candidates;
    let mut out: Vec<Vec<Ipv4>> = Vec::new();
    let ghost mut donechunks: Seq<Seq<Ipv4>> = seq![];
    proof {
        assert(spec_chunks(all, c) =~= donechunks + spec_chunks(rest@, c));
    }
    while rest.len() > 0
        invariant
            chunk_size > 0,
            c == chunk_size as int,
            out@.len() == donechunks.len(),
            forall|i: int| 0 <= i < out@.len() ==> (#[trigger] out@[i])@ == donechunks[i],
            spec_chunks(all, c) == donechunks + spec_chunks(rest@, c),
        decreases rest@.len(),
    {
        let ghost before = rest@;
        let mut chunk: Vec<Ipv4> = Vec::new();
        let take = if rest.len() < chunk_size {
            rest.len()
        } else {
            chunk_size
        };
        let mut k: usize = 0;
        while k < take
            invariant
                k <= take,
                take <= before.len(),
                chunk@.len() == k,
                chunk@ == before.subrange(0, k as int),
                rest@ == before.subrange(k as int, before.len() as int),
            decreases take - k,
        {
            let x = rest.remove(0);
            chunk.push(x);
            k += 1;
            proof {
                assert(chunk@ =~= before.subrange(0, k as int));
                assert(rest@ =~= before.subrange(k as int, before.len() as int));
            }
        }
        proof {
            if before.len() <= c {
                assert(chunk@ =~= before);
                assert(rest@.len() == 0);
                assert(spec_chunks(before, c) == seq![before]);
            } else {
                assert(chunk@ == before.subrange(0, c));
                assert(spec_chunks(before, c) == seq![before.subrange(0, c)] + spec_chunks(
                    before.subrange(c, before.len() as int),
                    c,
                ));
            }
            donechunks = donechunks.push(chunk@);
            assert(spec_chunks(all, c) =~= donechunks + spec_chunks(rest@, c));
        }
        out.push(chunk);
    }
    proof {
        assert(spec_chunks(rest@, c) =~= Seq::<Seq<Ipv4>>::empty());
        assert(donechunks =~= donechunks + spec_chunks(rest@, c));
        assert(spec_chunks(all, c) == donechunks);
    }
    out
}

/// The sum of a sequence of durations.
pub open spec fn seq_sum(s: Seq<int>) -> int
    decreases s.len(),
{
    if s.len() == 0 {
        0
    } else {
        seq_sum(s.drop_last()) + s.last()
    }
}

/// A sequence of values each at most `b` sums to at most `len` times `b`.
proof fn lemma_sum_bounded(s: Seq<int>, b: int)
    requires
        forall|i: int| 0 <= i < s.len() ==> s[i] <= b,
    ensures
        seq_sum(s) <= s.len() * b,
    decreases s.len(),
{
    if s.len() > 0 {
        lemma_sum_bounded(s.drop_last(), b);
        assert((s.len() - 1) * b + b == s.len() * b) by (nonlinear_arith);
    }
}

/// The probing phase's wall-clock bound: the chunks run one after another,
/// the probes of one chunk run together, so each chunk takes at most one
/// probe timeout, and probing `n` candidates in chunks of `c` takes at most
/// the least covering chunk count times the timeout — independent of how
/// many ports each address is probed on.
pub proof fn lemma_probe_phase_bound(durations: Seq<int>, n: int, c: int, timeout: int)
    requires
        c > 0,
        n >= 0,
        durations.len() == ceil_div(n, c),
        forall|i: int| 0 <= i < durations.len() ==> durations[i] <= timeout,
    ensures
        seq_sum(durations) <= ceil_div(n, c) * timeout,
{
    lemma_sum_bounded(durations, timeout);
}

/// Clones an optional model string.
fn clone_model(model: &Option<String>) -> (r: Option<String>)
    ensures
        r == *model,
{
    match model {
        Some(m) => Some(m.clone()),
        None => None,
    }
}

/// The records for one responding host: identity is resolved once per host,
/// and every open port yields its own record sharing that identity, since
/// different ports may be different logical queues on one device.
pub fn host_records(
    ip: &Ipv4,
    open_ports: &Vec<u16>,
    name: &String,
    model: &Option<String>,
    source: DeviceSource,
) -> (r: Vec<NetworkPrinter>)
    ensures
        r@.len() == open_ports@.len(),
        forall|i: int| 0 <= i < r@.len() ==> (#[trigger] r@[i]).name@ == name@,
        forall|i: int| 0 <= i < r@.len() ==> (#[trigger] r@[i]).ip_address@ == ip_text(*ip),
        forall|i: int| 0 <= i < r@.len() ==> (#[trigger] r@[i]).port == open_ports@[i],
        forall|i: int| 0 <= i < r@.len() ==> (#[trigger] r@[i]).model == *model,
        forall|i: int| 0 <= i < r@.len() ==> (#[trigger] r@[i]).source == source,
{
    let mut out: Vec<NetworkPrinter> = Vec::new();
    let mut i: usize = 0;
    while i < open_ports.len()
        invariant
            i <= open_ports@.len(),
            out@.len() == i,
            forall|t: int| 0 <= t < out@.len() ==> (#[trigger] out@[t]).name@ == name@,
            forall|t: int| 0 <= t < out@.len() ==> (#[trigger] out@[t]).ip_address@ == ip_text(*ip),
            forall|t: int| 0 <= t < out@.len() ==> (#[trigger] out@[t]).port == open_ports@[t],
            forall|t: int| 0 <= t < out@.len() ==> (#[trigger] out@[t]).model == *model,
            forall|t: int| 0 <= t < out@.len() ==> (#[trigger] out@[t]).source == source,
        decreases open_ports@.len() - i,
    {
        out.push(
            NetworkPrinter {
                name: name.clone(),
                ip_address: ip.to_text(),
                port: open_ports[i],
                model: clone_model(model),
                source,
            },
        );
        i += 1;
    }
    out
}

} // verus!
