//! Merging the strategies' results: concatenation in priority order and
//! first-seen-wins deduplication by address, with the local sentinel exempt.

use vstd::prelude::*;
use crate::device::{is_local_rec, NetworkPrinter};
use crate::text::str_eq;

verus! {

/// The record at `i` survives deduplication: it is a local record, or no
/// earlier record carries its address.
pub open spec fn keep_at(s: Seq<NetworkPrinter>, i: int) -> bool {
    is_local_rec(s[i]) || forall|j: int| 0 <= j < i ==> s[j].ip_address@ != s[i].ip_address@
}

/// First-seen-wins deduplication by address: a record is kept when it is
/// local or when it is the first record with its address.
pub open spec fn spec_dedup(s: Seq<NetworkPrinter>) -> Seq<NetworkPrinter>
    decreases s.len(),
{
    if s.len() == 0 {
        seq![]
    } else if keep_at(s, s.len() - 1) {
        spec_dedup(s.drop_last()).push(s.last())
    } else {
        spec_dedup(s.drop_last())
    }
}

/// Every record that survives deduplication stands in the input.
pub proof fn lemma_dedup_membership(s: Seq<NetworkPrinter>, k: int)
    requires
        0 <= k < spec_dedup(s).len(),
    ensures
        exists|i: int| 0 <= i < s.len() && s[i] == spec_dedup(s)[k],
    decreases s.len(),
{
    if keep_at(s, s.len() - 1) && k == spec_dedup(s).len() - 1 {
        assert(s[s.len() - 1] == spec_dedup(s)[k]);
    } else {
        lemma_dedup_membership(s.drop_last(), k);
        let i = choose|i: int|
            0 <= i < s.drop_last().len() && s.drop_last()[i] == spec_dedup(s.drop_last())[k];
        assert(s[i] == spec_dedup(s)[k]);
    }
}

/// Every address of the input is still represented after deduplication.
pub proof fn lemma_dedup_covers(s: Seq<NetworkPrinter>, i: int)
    requires
        0 <= i < s.len(),
    ensures
        exists|k: int|
            0 <= k < spec_dedup(s).len() && spec_dedup(s)[k].ip_address@ == s[i].ip_address@,
    decreases s.len(),
{
    if i == s.len() - 1 {
        if keep_at(s, i) {
            assert(spec_dedup(s)[spec_dedup(s).len() - 1].ip_address@ == s[i].ip_address@);
        } else {
            let j = choose|j: int| 0 <= j < i && s[j].ip_address@ == s[i].ip_address@;
            lemma_dedup_covers(s.drop_last(), j);
            let k = choose|k: int|
                0 <= k < spec_dedup(s.drop_last()).len() && spec_dedup(s.drop_last())[k].ip_address@
                    == s.drop_last()[j].ip_address@;
            assert(spec_dedup(s)[k].ip_address@ == s[i].ip_address@);
        }
    } else {
        lemma_dedup_covers(s.drop_last(), i);
        let k = choose|k: int|
            0 <= k < spec_dedup(s.drop_last()).len() && spec_dedup(s.drop_last())[k].ip_address@
                == s.drop_last()[i].ip_address@;
        if keep_at(s, s.len() - 1) {
            assert(spec_dedup(s)[k].ip_address@ == s[i].ip_address@);
        } else {
            assert(spec_dedup(s)[k].ip_address@ == s[i].ip_address@);
        }
    }
}

/// After deduplication, two records share an address only when it is the
/// local sentinel: network addresses are unique in the output.
pub proof fn lemma_dedup_unique(s: Seq<NetworkPrinter>, k1: int, k2: int)
    requires
        0 <= k1 < k2 < spec_dedup(s).len(),
        spec_dedup(s)[k1].ip_address@ == spec_dedup(s)[k2].ip_address@,
    ensures
        spec_dedup(s)[k1].ip_address@ == "local"@,
    decreases s.len(),
{
    if keep_at(s, s.len() - 1) && k2 == spec_dedup(s).len() - 1 {
        if !is_local_rec(s.last()) {
            lemma_dedup_membership(s.drop_last(), k1);
            let i = choose|i: int|
                0 <= i < s.drop_last().len() && s.drop_last()[i] == spec_dedup(s.drop_last())[k1];
            assert(s[i].ip_address@ == s[s.len() - 1].ip_address@);
            assert(false);
        }
    } else {
        lemma_dedup_unique(s.drop_last(), k1, k2);
    }
}

/// The record kept for an address is the first record of the input carrying
/// that address, whatever later strategies reported for it.
pub proof fn lemma_dedup_first_wins(s: Seq<NetworkPrinter>, k: int, i: int)
    requires
        0 <= k < spec_dedup(s).len(),
        !is_local_rec(spec_dedup(s)[k]),
        0 <= i < s.len(),
        s[i].ip_address@ == spec_dedup(s)[k].ip_address@,
        forall|j: int| 0 <= j < i ==> s[j].ip_address@ != s[i].ip_address@,
    ensures
        spec_dedup(s)[k] == s[i],
    decreases s.len(),
{
    if keep_at(s, s.len() - 1) && k == spec_dedup(s).len() - 1 {
        if i < s.len() - 1 {
            assert(s[i].ip_address@ == s[s.len() - 1].ip_address@);
            assert(false);
        }
    } else {
        if i == s.len() - 1 {
            lemma_dedup_membership(s.drop_last(), k);
            let m = choose|m: int|
                0 <= m < s.drop_last().len() && s.drop_last()[m] == spec_dedup(s.drop_last())[k];
            assert(s[m].ip_address@ == s[i].ip_address@);
            assert(false);
        } else {
            lemma_dedup_first_wins(s.drop_last(), k, i);
        }
    }
}

/// Priority between two strategies: when a higher-priority source and a
/// lower-priority one both report a network address, the merged result for
/// that address is the higher-priority source's record — whatever order the
/// strategies ran in, since only their place in the merge decides.
pub proof fn lemma_priority_two_sources(
    hi: Seq<NetworkPrinter>,
    lo: Seq<NetworkPrinter>,
    i: int,
    k: int,
)
    requires
        0 <= i < hi.len(),
        !is_local_rec(hi[i]),
        forall|j: int| 0 <= j < i ==> hi[j].ip_address@ != hi[i].ip_address@,
        0 <= k < spec_dedup(hi + lo).len(),
        spec_dedup(hi + lo)[k].ip_address@ == hi[i].ip_address@,
    ensures
        spec_dedup(hi + lo)[k] == hi[i],
{
    assert((hi + lo)[i] == hi[i]);
    lemma_dedup_first_wins(hi + lo, k, i);
}

/// The local records of a sequence, in order.
pub open spec fn locals_of(s: Seq<NetworkPrinter>) -> Seq<NetworkPrinter>
    decreases s.len(),
{
    if s.len() == 0 {
        seq![]
    } else if is_local_rec(s.last()) {
        locals_of(s.drop_last()).push(s.last())
    } else {
        locals_of(s.drop_last())
    }
}

/// Deduplication keeps every local record, in order: locals are never
/// deduplicated against each other or anything else.
pub proof fn lemma_dedup_keeps_locals(s: Seq<NetworkPrinter>)
    ensures
        locals_of(spec_dedup(s)) == locals_of(s),
    decreases s.len(),
{
    if s.len() == 0 {
    } else {
        lemma_dedup_keeps_locals(s.drop_last());
        if keep_at(s, s.len() - 1) {
            assert(spec_dedup(s).drop_last() =~= spec_dedup(s.drop_last()));
            assert(spec_dedup(s).last() == s.last());
        } else {
            assert(!is_local_rec(s.last()));
        }
    }
}

/// A sequence of local records alone passes deduplication unchanged.
pub proof fn lemma_dedup_all_locals(s: Seq<NetworkPrinter>)
    requires
        forall|i: int| 0 <= i < s.len() ==> is_local_rec(#[trigger] s[i]),
    ensures
        spec_dedup(s) == s,
    decreases s.len(),
{
    if s.len() > 0 {
        assert(is_local_rec(s[s.len() - 1]));
        lemma_dedup_all_locals(s.drop_last());
        assert(spec_dedup(s) =~= s);
    }
}

/// Whether some record in the list carries the address.
fn contains_addr(v: &Vec<NetworkPrinter>, addr: &String) -> (r: bool)
    ensures
        r == exists|k: int| 0 <= k < v@.len() && (#[trigger] v@[k].ip_address@) == addr@,
{
    let mut k: usize = 0;
    while k < v.len()
        invariant
            k <= v@.len(),
            forall|t: int| 0 <= t < k ==> (#[trigger] v@[t].ip_address@) != addr@,
        decreases v@.len() - k,
    {
        if str_eq(v[k].ip_address.as_str(), addr.as_str()) {
            return true;
        }
        k += 1;
    }
    false
}

/// First-seen-wins deduplication by address. Local records all pass through;
/// of the network records, the first for each address is kept.
pub fn dedup_records(records: Vec<NetworkPrinter>) -> (r: Vec<NetworkPrinter>)
    ensures
        r@ == spec_dedup(records@),
{
    let ghost all = records@;
    let mut rest = records;
    let mut out: Vec<NetworkPrinter> = Vec::new();
    proof {
        assert(all.subrange(0, 0) =~= Seq::<NetworkPrinter>::empty());
    }
    let ghost mut done: int = 0;
    while rest.len() > 0
        invariant
            0 <= done <= all.len(),
            done + rest@.len() == all.len(),
            rest@ == all.subrange(done, all.len() as int),
            out@ == spec_dedup(all.subrange(0, done)),
        decreases rest@.len(),
    {
        let rec = rest.remove(0);
        proof {
            assert(rec == all[done]);
        }
        let ghost prefix = all.subrange(0, done);
        let ghost prefix2 = all.subrange(0, done + 1);
        proof {
            assert(prefix2.drop_last() =~= prefix);
            assert(prefix2.last() == rec);
        }
        let is_loc = str_eq(rec.ip_address.as_str(), "local");
        if is_loc || !contains_addr(&out, &rec.ip_address) {
            proof {
                if !is_loc {
                    // no record with this address was kept, so none was seen:
                    // an earlier record with the address would have left one
                    assert forall|j: int| 0 <= j < done implies (#[trigger] prefix2[j].ip_address@)
                        != rec.ip_address@ by {
                        if prefix2[j].ip_address@ == rec.ip_address@ {
                            lemma_dedup_covers(prefix, j);
                        }
                    }
                }
                assert(keep_at(prefix2, done));
            }
            out.push(rec);
        } else {
            proof {
                let k = choose|k: int|
                    0 <= k < out@.len() && (#[trigger] out@[k].ip_address@) == rec.ip_address@;
                lemma_dedup_membership(prefix, k);
                let i = choose|i: int| 0 <= i < prefix.len() && prefix[i] == spec_dedup(prefix)[k];
                assert(prefix2[i].ip_address@ == rec.ip_address@);
                assert(!keep_at(prefix2, done));
            }
        }
        proof {
            done = done + 1;
            assert(rest@ =~= all.subrange(done, all.len() as int));
        }
    }
    proof {
        assert(all.subrange(0, all.len() as int) =~= all);
    }
    out
}

/// Concatenates the strategies' records in the fixed priority order — local
/// first, then the structured network sources, the scan results last — and
/// deduplicates by address, first seen winning.
pub fn merge_discovery(
    local: Vec<NetworkPrinter>,
    net_view: Vec<NetworkPrinter>,
    wmi: Vec<NetworkPrinter>,
    shares: Vec<NetworkPrinter>,
    scan: Vec<NetworkPrinter>,
) -> (r: Vec<NetworkPrinter>)
    ensures
        r@ == spec_dedup(local@ + net_view@ + wmi@ + shares@ + scan@),
{
    let mut all = local;
    let mut net_view = net_view;
    let mut wmi = wmi;
    let mut shares = shares;
    let mut scan = scan;
    all.append(&mut net_view);
    all.append(&mut wmi);
    all.append(&mut shares);
    all.append(&mut scan);
    dedup_records(all)
}

/// When every network strategy comes back empty, merged discovery is exactly
/// the local records: strategy failure never erases the local list.
pub proof fn lemma_merge_locals_only(local: Seq<NetworkPrinter>)
    requires
        forall|i: int| 0 <= i < local.len() ==> is_local_rec(#[trigger] local[i]),
    ensures
        spec_dedup(
            local + Seq::<NetworkPrinter>::empty() + Seq::<NetworkPrinter>::empty() + Seq::<
                NetworkPrinter,
            >::empty() + Seq::<NetworkPrinter>::empty(),
        ) == local,
{
    assert(local + Seq::<NetworkPrinter>::empty() + Seq::<NetworkPrinter>::empty() + Seq::<
        NetworkPrinter,
    >::empty() + Seq::<NetworkPrinter>::empty() =~= local);
    lemma_dedup_all_locals(local);
}

} // verus!
