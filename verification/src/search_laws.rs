//! What the search results are: matches of the automaton spelled by bytes that the
//! memory writes hold, at their addresses, over the result's whole time range.
use vstd::prelude::*;
use crate::db::{Db, leaf_bytes};
use crate::flat::{MemWriteLeaf, Time};
use crate::irange::IRange;
use crate::search::{
    Chain, ChainHalf, Handle, SearchResult, begins_at, chain_results, chain_starts_upto, chains_of, dfa_run,
    half_of, next_chains, result_of, results_from, results_through, search_results, step, zone_chains, zone_results,
    zone_starts,
};
use crate::memory::MemWriteSpec;
use crate::rtree::RTree;

verus! {

/// The write leaf holds the byte `b` at `addr` over all of `times`.
pub open spec fn leaf_holds_byte(leaf: MemWriteLeaf, raw: Seq<u8>, addr: int, times: IRange<Time>, b: u8) -> bool {
    &&& leaf.node.addr_min <= addr <= leaf.node.addr_max
    &&& leaf.node.time_min <= times.min
    &&& times.max <= leaf.node.time_max
    &&& leaf_bytes(leaf, raw)[addr - leaf.node.addr_min] == b
}

/// One of `leaves` holds the byte `b` at `addr` over all of `times`.
pub open spec fn byte_held(leaves: Seq<MemWriteLeaf>, raw: Seq<u8>, addr: int, times: IRange<Time>, b: u8) -> bool {
    exists|j: int| 0 <= j < leaves.len() && #[trigger] leaf_holds_byte(leaves[j], raw, addr, times, b)
}

/// The bytes `w` are held, from `addr` on, over all of `times`.
pub open spec fn bytes_held(leaves: Seq<MemWriteLeaf>, raw: Seq<u8>, addr: int, times: IRange<Time>, w: Seq<u8>) -> bool {
    forall|k: int| 0 <= k < w.len() ==> byte_held(leaves, raw, addr + k, times, #[trigger] w[k])
}

/// The bytes `w` take the automaton from `from` to `to` at their last byte, and no
/// accepting state is reached before it.
pub open spec fn spells(table: Map<u64, u32>, accept: Set<u32>, from: u32, w: Seq<u8>, to: Handle) -> bool {
    w.len() > 0 && dfa_run(table, accept, w, from, 0) == Some((to, w.len() - 1))
}

/// The partial match `h`, begun in `from`, is spelled by bytes held over its addresses
/// and times.
pub open spec fn half_sound(
    leaves: Seq<MemWriteLeaf>,
    raw: Seq<u8>,
    table: Map<u64, u32>,
    accept: Set<u32>,
    from: u32,
    h: ChainHalf,
) -> bool {
    &&& h.wf()
    &&& exists|w: Seq<u8>|
        #![trigger spells(table, accept, from, w, h.to)]
        w.len() == h.addr_range.max - h.addr_range.min + 1 && spells(table, accept, from, w, h.to) && bytes_held(
            leaves,
            raw,
            h.addr_range.min as int,
            h.time_range,
            w,
        )
}

/// The result is a match: bytes held over its addresses and its whole time range that
/// the automaton reads from `initial` to its first accepting state at the last byte.
pub open spec fn result_sound(
    leaves: Seq<MemWriteLeaf>,
    raw: Seq<u8>,
    table: Map<u64, u32>,
    accept: Set<u32>,
    initial: u32,
    r: SearchResult,
) -> bool {
    exists|w: Seq<u8>|
        #![trigger spells(table, accept, initial, w, Handle::Tip)]
        w.len() == r.addr_max - r.addr_min + 1 && spells(table, accept, initial, w, Handle::Tip) && bytes_held(
            leaves,
            raw,
            r.addr_min as int,
            IRange { min: r.time_min, max: r.time_max },
            w,
        )
}

/// Every chain is sound from the state it begins in.
pub open spec fn chains_sound(
    leaves: Seq<MemWriteLeaf>,
    raw: Seq<u8>,
    table: Map<u64, u32>,
    accept: Set<u32>,
    chains: Seq<Chain>,
) -> bool {
    forall|i: int| 0 <= i < chains.len() ==> half_sound(leaves, raw, table, accept, (#[trigger] chains[i]).from, chains[i].half)
}

/// A run that stops at `r` stops there on the bytes up to `r` too.
proof fn lemma_run_prefix(table: Map<u64, u32>, accept: Set<u32>, hay: Seq<u8>, s: u32, i: int, h: Handle, r: int)
    requires
        0 <= i <= r + 1,
        r < hay.len(),
        dfa_run(table, accept, hay, s, i) == Some((h, r)),
    ensures
        dfa_run(table, accept, hay.take(r + 1), s, i) == Some((h, r)),
    decreases hay.len() - i,
{
    let t = hay.take(r + 1);
    if hay.len() > 0 {
        crate::search::lemma_dfa_run_index(table, accept, hay, s, i);
    }
    if i >= hay.len() {
        assert(t =~= hay);
    } else if i < t.len() {
        assert(t[i] == hay[i]);
        if let Some(next) = step(table, s, hay[i]) {
            if !accept.contains(next) {
                crate::search::lemma_dfa_run_index(table, accept, hay, next, i + 1);
                lemma_run_prefix(table, accept, hay, next, i + 1, h, r);
            }
        }
    }
}

/// A run over `v` from index `j`, seen inside `u + v`.
proof fn lemma_run_shift(table: Map<u64, u32>, accept: Set<u32>, u: Seq<u8>, v: Seq<u8>, s: u32, j: int)
    requires
        0 <= j <= v.len(),
    ensures
        dfa_run(table, accept, u + v, s, u.len() + j) == match dfa_run(table, accept, v, s, j) {
            Some((h, r)) => Some((h, r + u.len())),
            None => None,
        },
    decreases v.len() - j,
{
    if j < v.len() {
        assert((u + v)[u.len() + j] == v[j]);
        if let Some(next) = step(table, s, v[j]) {
            if !accept.contains(next) {
                lemma_run_shift(table, accept, u, v, next, j + 1);
            }
        }
    }
}

/// Bytes that end in a state, then bytes read on from that state.
proof fn lemma_run_concat(table: Map<u64, u32>, accept: Set<u32>, w1: Seq<u8>, w2: Seq<u8>, s: u32, i: int, s1: u32)
    requires
        0 <= i <= w1.len(),
        w1.len() > 0,
        dfa_run(table, accept, w1, s, i) == Some((Handle::State(s1), w1.len() - 1)),
    ensures
        dfa_run(table, accept, w1 + w2, s, i) == match dfa_run(table, accept, w2, s1, 0) {
            Some((h, r)) => Some((h, r + w1.len())),
            None => None,
        },
    decreases w1.len() - i,
{
    if i == w1.len() {
        lemma_run_shift(table, accept, w1, w2, s, 0);
    } else {
        assert((w1 + w2)[i] == w1[i]);
        if let Some(next) = step(table, s, w1[i]) {
            if !accept.contains(next) {
                lemma_run_concat(table, accept, w1, w2, next, i + 1, s1);
            }
        }
    }
}

/// The partial match of a leaf from its byte `start` is sound.
proof fn lemma_half_of_sound(
    leaves: Seq<MemWriteLeaf>,
    raw: Seq<u8>,
    table: Map<u64, u32>,
    accept: Set<u32>,
    j: int,
    start: int,
    s: u32,
)
    requires
        0 <= j < leaves.len(),
        leaves[j].node.wf(),
        leaf_bytes(leaves[j], raw).len() == leaves[j].node.addr_max - leaves[j].node.addr_min + 1,
        0 <= start < leaf_bytes(leaves[j], raw).len(),
        dfa_run(table, accept, leaf_bytes(leaves[j], raw).subrange(start, leaf_bytes(leaves[j], raw).len() as int), s, 0) is Some,
    ensures
        half_sound(
            leaves,
            raw,
            table,
            accept,
            s,
            half_of(
                leaves[j],
                start,
                dfa_run(table, accept, leaf_bytes(leaves[j], raw).subrange(start, leaf_bytes(leaves[j], raw).len() as int), s, 0)->0,
            ),
        ),
{
    let leaf = leaves[j];
    let hay = leaf_bytes(leaf, raw);
    let sub = hay.subrange(start, hay.len() as int);
    let run = dfa_run(table, accept, sub, s, 0)->0;
    crate::search::lemma_dfa_run_index(table, accept, sub, s, 0);
    lemma_run_prefix(table, accept, sub, s, 0, run.0, run.1);
    let w = sub.take(run.1 + 1);
    let h = half_of(leaf, start, run);
    assert(w.len() == h.addr_range.max - h.addr_range.min + 1);
    assert(spells(table, accept, s, w, h.to));
    assert forall|k: int| 0 <= k < w.len() implies byte_held(leaves, raw, h.addr_range.min + k, h.time_range, #[trigger] w[k]) by {
        assert(w[k] == hay[start + k]);
        assert(leaf_holds_byte(leaves[j], raw, h.addr_range.min + k, h.time_range, w[k]));
    }
}

/// The matches from the initial state in a leaf are sound.
proof fn lemma_chain_starts_sound(
    leaves: Seq<MemWriteLeaf>,
    raw: Seq<u8>,
    table: Map<u64, u32>,
    accept: Set<u32>,
    initial: u32,
    j: int,
    n: int,
)
    requires
        0 <= j < leaves.len(),
        leaves[j].node.wf(),
        leaf_bytes(leaves[j], raw).len() == leaves[j].node.addr_max - leaves[j].node.addr_min + 1,
        n <= leaf_bytes(leaves[j], raw).len(),
    ensures
        forall|k: int|
            0 <= k < chain_starts_upto(leaves[j], leaf_bytes(leaves[j], raw), initial, table, accept, n).1.len()
                ==> half_sound(leaves, raw, table, accept, initial, #[trigger] chain_starts_upto(
                leaves[j],
                leaf_bytes(leaves[j], raw),
                initial,
                table,
                accept,
                n,
            ).1[k]),
    decreases n,
{
    if n > 0 {
        lemma_chain_starts_sound(leaves, raw, table, accept, initial, j, n - 1);
        let hay = leaf_bytes(leaves[j], raw);
        let prev = chain_starts_upto(leaves[j], hay, initial, table, accept, n - 1);
        let cur = chain_starts_upto(leaves[j], hay, initial, table, accept, n);
        let o = dfa_run(table, accept, hay.subrange(n - 1, hay.len() as int), initial, 0);
        if let Some(run) = o {
            lemma_half_of_sound(leaves, raw, table, accept, j, n - 1, initial);
            let h = half_of(leaves[j], n - 1, run);
            assert forall|k: int| 0 <= k < cur.1.len() implies half_sound(leaves, raw, table, accept, initial, #[trigger] cur.1[k]) by {
                if cur.1 == prev.1.push(h) {
                    if k < prev.1.len() {
                        assert(cur.1[k] == prev.1[k]);
                    } else {
                        assert(cur.1[k] == h);
                    }
                } else {
                    assert(cur.1 == prev.1);
                    assert(half_sound(leaves, raw, table, accept, initial, prev.1[k]));
                }
            }
        } else {
            assert(cur == prev);
        }
    }
}

/// The matches over a whole leaf from each of `states` are sound.
proof fn lemma_chains_of_sound(
    leaves: Seq<MemWriteLeaf>,
    raw: Seq<u8>,
    table: Map<u64, u32>,
    accept: Set<u32>,
    j: int,
    states: Seq<u32>,
)
    requires
        0 <= j < leaves.len(),
        leaves[j].node.wf(),
        leaf_bytes(leaves[j], raw).len() == leaves[j].node.addr_max - leaves[j].node.addr_min + 1,
    ensures
        chains_sound(leaves, raw, table, accept, chains_of(leaves[j], leaf_bytes(leaves[j], raw), states, table, accept)),
    decreases states.len(),
{
    if states.len() > 0 {
        lemma_chains_of_sound(leaves, raw, table, accept, j, states.drop_last());
        let hay = leaf_bytes(leaves[j], raw);
        assert(hay.subrange(0, hay.len() as int) =~= hay);
        if dfa_run(table, accept, hay, states.last(), 0) is Some {
            lemma_half_of_sound(leaves, raw, table, accept, j, 0, states.last());
        }
    }
}

/// The leaves are well formed and hold as many bytes as they span.
pub open spec fn leaves_ok(leaves: Seq<MemWriteLeaf>, raw: Seq<u8>) -> bool {
    forall|j: int|
        0 <= j < leaves.len() ==> (#[trigger] leaves[j]).node.wf() && leaf_bytes(leaves[j], raw).len()
            == leaves[j].node.addr_max - leaves[j].node.addr_min + 1
}

/// The partial matches of the first `m` leaves are sound.
proof fn lemma_zone_halves_sound(
    leaves: Seq<MemWriteLeaf>,
    raw: Seq<u8>,
    table: Map<u64, u32>,
    accept: Set<u32>,
    initial: u32,
    states: Seq<u32>,
    m: int,
)
    requires
        0 <= m <= leaves.len(),
        leaves_ok(leaves, raw),
    ensures
        chains_sound(leaves, raw, table, accept, zone_chains(leaves.take(m), raw, states, table, accept)),
        forall|k: int|
            0 <= k < zone_starts(leaves.take(m), raw, initial, table, accept).len() ==> half_sound(
                leaves,
                raw,
                table,
                accept,
                initial,
                #[trigger] zone_starts(leaves.take(m), raw, initial, table, accept)[k],
            ),
    decreases m,
{
    if m > 0 {
        lemma_zone_halves_sound(leaves, raw, table, accept, initial, states, m - 1);
        let p = leaves.take(m);
        assert(p.drop_last() =~= leaves.take(m - 1));
        assert(p.last() == leaves[m - 1]);
        assert(leaves[m - 1].node.wf());
        lemma_chains_of_sound(leaves, raw, table, accept, m - 1, states);
        let hay = leaf_bytes(leaves[m - 1], raw);
        lemma_chain_starts_sound(leaves, raw, table, accept, initial, m - 1, hay.len() as int);
        let c0 = zone_chains(leaves.take(m - 1), raw, states, table, accept);
        let c1 = chains_of(leaves[m - 1], hay, states, table, accept);
        assert forall|i: int| 0 <= i < (c0 + c1).len() implies half_sound(leaves, raw, table, accept, (#[trigger] (c0 + c1)[i]).from, (c0 + c1)[i].half) by {
            if i < c0.len() {
                assert((c0 + c1)[i] == c0[i]);
            } else {
                assert((c0 + c1)[i] == c1[i - c0.len()]);
            }
        }
        let s0 = zone_starts(leaves.take(m - 1), raw, initial, table, accept);
        let s1 = chain_starts_upto(leaves[m - 1], hay, initial, table, accept, hay.len() as int).1;
        assert forall|k: int| 0 <= k < (s0 + s1).len() implies half_sound(leaves, raw, table, accept, initial, #[trigger] (s0 + s1)[k]) by {
            if k < s0.len() {
                assert((s0 + s1)[k] == s0[k]);
            } else {
                assert((s0 + s1)[k] == s1[k - s0.len()]);
            }
        }
    }
}

/// A sound partial match followed by a sound chain that begins where it stopped.
proof fn lemma_connect_sound(
    leaves: Seq<MemWriteLeaf>,
    raw: Seq<u8>,
    table: Map<u64, u32>,
    accept: Set<u32>,
    initial: u32,
    half: ChainHalf,
    c: Chain,
    s: u32,
)
    requires
        half_sound(leaves, raw, table, accept, initial, half),
        half.to == Handle::State(s),
        half_sound(leaves, raw, table, accept, s, c.half),
        c.half.addr_range.min == half.addr_range.max + 1,
        half.connect_spec(c.half) is Some,
    ensures
        half_sound(leaves, raw, table, accept, initial, half.connect_spec(c.half)->0),
{
    let n = half.connect_spec(c.half)->0;
    let w1 = choose|w: Seq<u8>|
        #![trigger spells(table, accept, initial, w, half.to)]
        w.len() == half.addr_range.max - half.addr_range.min + 1 && spells(table, accept, initial, w, half.to)
            && bytes_held(leaves, raw, half.addr_range.min as int, half.time_range, w);
    let w2 = choose|w: Seq<u8>|
        #![trigger spells(table, accept, s, w, c.half.to)]
        w.len() == c.half.addr_range.max - c.half.addr_range.min + 1 && spells(table, accept, s, w, c.half.to)
            && bytes_held(leaves, raw, c.half.addr_range.min as int, c.half.time_range, w);
    let w = w1 + w2;
    lemma_run_concat(table, accept, w1, w2, initial, 0, s);
    assert(spells(table, accept, initial, w, n.to));
    assert(w.len() == n.addr_range.max - n.addr_range.min + 1);
    assert(n.wf());
    assert forall|k: int| 0 <= k < w.len() implies byte_held(leaves, raw, n.addr_range.min + k, n.time_range, #[trigger] w[k]) by {
        if k < w1.len() {
            assert(w[k] == w1[k]);
            assert(byte_held(leaves, raw, half.addr_range.min + k, half.time_range, w1[k]));
            let j = choose|j: int| 0 <= j < leaves.len() && #[trigger] leaf_holds_byte(leaves[j], raw, half.addr_range.min + k, half.time_range, w1[k]);
            assert(leaf_holds_byte(leaves[j], raw, n.addr_range.min + k, n.time_range, w[k]));
            assert(byte_held(leaves, raw, n.addr_range.min + k, n.time_range, w[k]));
        } else {
            let k2 = k - w1.len();
            assert(w[k] == w2[k2]);
            assert(byte_held(leaves, raw, c.half.addr_range.min + k2, c.half.time_range, w2[k2]));
            let j = choose|j: int| 0 <= j < leaves.len() && #[trigger] leaf_holds_byte(leaves[j], raw, c.half.addr_range.min + k2, c.half.time_range, w2[k2]);
            assert(leaf_holds_byte(leaves[j], raw, n.addr_range.min + k, n.time_range, w[k]));
            assert(byte_held(leaves, raw, n.addr_range.min + k, n.time_range, w[k]));
        }
    }
    assert(bytes_held(leaves, raw, n.addr_range.min as int, n.time_range, w));
    assert(w.len() == n.addr_range.max - n.addr_range.min + 1 && spells(table, accept, initial, w, n.to) && bytes_held(
        leaves,
        raw,
        n.addr_range.min as int,
        n.time_range,
        w,
    ));
    assert(half_sound(leaves, raw, table, accept, initial, n));
}

/// Every match that finishes a sound partial match with sound chains is sound.
proof fn lemma_chain_results_sound(
    leaves: Seq<MemWriteLeaf>,
    raw: Seq<u8>,
    table: Map<u64, u32>,
    accept: Set<u32>,
    initial: u32,
    chains: Seq<Chain>,
    half: ChainHalf,
)
    requires
        half_sound(leaves, raw, table, accept, initial, half),
        chains_sound(leaves, raw, table, accept, chains),
    ensures
        forall|k: int|
            0 <= k < chain_results(chains, half).len() ==> result_sound(
                leaves,
                raw,
                table,
                accept,
                initial,
                #[trigger] chain_results(chains, half)[k],
            ),
    decreases u64::MAX - half.addr_range.max, chains.len() + 1,
{
    match half.to {
        Handle::Tip => {
            let r = chain_results(chains, half)[0];
            let w = choose|w: Seq<u8>|
                #![trigger spells(table, accept, initial, w, half.to)]
                w.len() == half.addr_range.max - half.addr_range.min + 1 && spells(table, accept, initial, w, half.to)
                    && bytes_held(leaves, raw, half.addr_range.min as int, half.time_range, w);
            assert(chain_results(chains, half) =~= seq![r]);
            assert(IRange { min: r.time_min, max: r.time_max } == half.time_range);
            assert(spells(table, accept, initial, w, Handle::Tip));
            assert(w.len() == r.addr_max - r.addr_min + 1 && spells(table, accept, initial, w, Handle::Tip) && bytes_held(
                leaves,
                raw,
                r.addr_min as int,
                IRange { min: r.time_min, max: r.time_max },
                w,
            ));
            assert(result_sound(leaves, raw, table, accept, initial, r));
        },
        Handle::State(s) => {
            if half.addr_range.max < u64::MAX {
                let pred = begins_at(s, half.addr_range.max + 1);
                chains.lemma_filter_len(pred);
                let list = next_chains(chains, s, half.addr_range.max + 1);
                assert forall|i: int| 0 <= i < list.len() implies {
                    &&& half_sound(leaves, raw, table, accept, s, (#[trigger] list[i]).half)
                    &&& list[i].from == s
                    &&& list[i].half.addr_range.min == half.addr_range.max + 1
                } by {
                    chains.lemma_filter_pred(pred, i);
                    assert(list.contains(list[i]));
                    chains.lemma_filter_contains_rev(pred, list[i]);
                    let jj = choose|jj: int| 0 <= jj < chains.len() && chains[jj] == list[i];
                    assert(half_sound(leaves, raw, table, accept, chains[jj].from, chains[jj].half));
                }
                lemma_results_through_sound(leaves, raw, table, accept, initial, chains, half, s, list);
                assert(chain_results(chains, half) == results_through(chains, half, list));
            }
        },
    }
}

/// Every match that finishes a sound partial match through sound chains that begin
/// where it stopped is sound.
proof fn lemma_results_through_sound(
    leaves: Seq<MemWriteLeaf>,
    raw: Seq<u8>,
    table: Map<u64, u32>,
    accept: Set<u32>,
    initial: u32,
    chains: Seq<Chain>,
    half: ChainHalf,
    s: u32,
    list: Seq<Chain>,
)
    requires
        half_sound(leaves, raw, table, accept, initial, half),
        half.to == Handle::State(s),
        chains_sound(leaves, raw, table, accept, chains),
        forall|i: int|
            0 <= i < list.len() ==> {
                &&& half_sound(leaves, raw, table, accept, s, (#[trigger] list[i]).half)
                &&& list[i].from == s
                &&& list[i].half.addr_range.min == half.addr_range.max + 1
            },
    ensures
        forall|k: int|
            0 <= k < results_through(chains, half, list).len() ==> result_sound(
                leaves,
                raw,
                table,
                accept,
                initial,
                #[trigger] results_through(chains, half, list)[k],
            ),
    decreases u64::MAX - half.addr_range.max, list.len(),
{
    if list.len() > 0 {
        let rest = list.drop_last();
        assert forall|i: int| 0 <= i < rest.len() implies {
            &&& half_sound(leaves, raw, table, accept, s, (#[trigger] rest[i]).half)
            &&& rest[i].from == s
            &&& rest[i].half.addr_range.min == half.addr_range.max + 1
        } by {
            assert(rest[i] == list[i]);
        }
        lemma_results_through_sound(leaves, raw, table, accept, initial, chains, half, s, rest);
        let prev = results_through(chains, half, rest);
        let c = list.last();
        assert(half_sound(leaves, raw, table, accept, s, list[list.len() - 1].half));
        if let Some(n) = half.connect_spec(c.half) {
            if n.addr_range.max > half.addr_range.max {
                lemma_connect_sound(leaves, raw, table, accept, initial, half, c, s);
                lemma_chain_results_sound(leaves, raw, table, accept, initial, chains, n);
                let more = chain_results(chains, n);
                assert forall|k: int| 0 <= k < (prev + more).len() implies result_sound(leaves, raw, table, accept, initial, #[trigger] (prev + more)[k]) by {
                    if k < prev.len() {
                        assert((prev + more)[k] == prev[k]);
                    } else {
                        assert((prev + more)[k] == more[k - prev.len()]);
                    }
                }
            }
        }
    }
}

/// Every match that finishes one of sound partial matches is sound.
proof fn lemma_results_from_sound(
    leaves: Seq<MemWriteLeaf>,
    raw: Seq<u8>,
    table: Map<u64, u32>,
    accept: Set<u32>,
    initial: u32,
    chains: Seq<Chain>,
    starts: Seq<ChainHalf>,
)
    requires
        chains_sound(leaves, raw, table, accept, chains),
        forall|k: int| 0 <= k < starts.len() ==> half_sound(leaves, raw, table, accept, initial, #[trigger] starts[k]),
    ensures
        forall|k: int|
            0 <= k < results_from(chains, starts).len() ==> result_sound(
                leaves,
                raw,
                table,
                accept,
                initial,
                #[trigger] results_from(chains, starts)[k],
            ),
    decreases starts.len(),
{
    if starts.len() > 0 {
        let rest = starts.drop_last();
        assert forall|k: int| 0 <= k < rest.len() implies half_sound(leaves, raw, table, accept, initial, #[trigger] rest[k]) by {
            assert(rest[k] == starts[k]);
        }
        lemma_results_from_sound(leaves, raw, table, accept, initial, chains, rest);
        assert(half_sound(leaves, raw, table, accept, initial, starts[starts.len() - 1]));
        lemma_chain_results_sound(leaves, raw, table, accept, initial, chains, starts.last());
        let prev = results_from(chains, rest);
        let more = chain_results(chains, starts.last());
        assert forall|k: int| 0 <= k < (prev + more).len() implies result_sound(leaves, raw, table, accept, initial, #[trigger] (prev + more)[k]) by {
            if k < prev.len() {
                assert((prev + more)[k] == prev[k]);
            } else {
                assert((prev + more)[k] == more[k - prev.len()]);
            }
        }
    }
}

/// Every match found in one zone is sound with the zone's leaves.
proof fn lemma_zone_results_sound(
    leaves: Seq<MemWriteLeaf>,
    raw: Seq<u8>,
    initial: u32,
    states: Seq<u32>,
    table: Map<u64, u32>,
    accept: Set<u32>,
)
    requires
        leaves_ok(leaves, raw),
    ensures
        forall|k: int|
            0 <= k < zone_results(leaves, raw, initial, states, table, accept).len() ==> result_sound(
                leaves,
                raw,
                table,
                accept,
                initial,
                #[trigger] zone_results(leaves, raw, initial, states, table, accept)[k],
            ),
{
    lemma_zone_halves_sound(leaves, raw, table, accept, initial, states, leaves.len() as int);
    assert(leaves.take(leaves.len() as int) =~= leaves);
    lemma_results_from_sound(
        leaves,
        raw,
        table,
        accept,
        initial,
        zone_chains(leaves, raw, states, table, accept),
        zone_starts(leaves, raw, initial, table, accept),
    );
}

/// Law: every search result is a match. There are bytes, one per address of the result,
/// that the automaton reads from its initial state to its first accepting state at the
/// last byte, and each of them is held at its address, over the result's whole time
/// range, by a memory write of one zone.
pub proof fn law_search_results_are_matches(
    db: &Db,
    initial: u32,
    states: Seq<u32>,
    table: Map<u64, u32>,
    accept: Set<u32>,
)
    requires
        db.write_data_ok(),
    ensures
        forall|k: int|
            0 <= k < search_results(db.write_zones@, db.raw_data@, initial, states, table, accept).len() ==> exists|z: int|
                0 <= z < db.write_zones@.len() && result_sound(
                    db.write_zones@[z].leaves@,
                    db.raw_data@,
                    table,
                    accept,
                    initial,
                    #[trigger] search_results(db.write_zones@, db.raw_data@, initial, states, table, accept)[k],
                ),
{
    lemma_search_results_sound(db, db.write_zones@.len() as int, initial, states, table, accept);
    assert(db.write_zones@.take(db.write_zones@.len() as int) =~= db.write_zones@);
}

proof fn lemma_search_results_sound(db: &Db, m: int, initial: u32, states: Seq<u32>, table: Map<u64, u32>, accept: Set<u32>)
    requires
        db.write_data_ok(),
        0 <= m <= db.write_zones@.len(),
    ensures
        forall|k: int|
            0 <= k < search_results(db.write_zones@.take(m), db.raw_data@, initial, states, table, accept).len() ==> exists|z: int|
                0 <= z < db.write_zones@.len() && result_sound(
                    db.write_zones@[z].leaves@,
                    db.raw_data@,
                    table,
                    accept,
                    initial,
                    #[trigger] search_results(db.write_zones@.take(m), db.raw_data@, initial, states, table, accept)[k],
                ),
    decreases m,
{
    let zones = db.write_zones@;
    let raw = db.raw_data@;
    if m > 0 && !accept.contains(initial) {
        lemma_search_results_sound(db, m - 1, initial, states, table, accept);
        let p = zones.take(m);
        assert(p.drop_last() =~= zones.take(m - 1));
        assert(p.last() == zones[m - 1]);
        let leaves = zones[m - 1].leaves@;
        assert forall|j: int| 0 <= j < leaves.len() implies (#[trigger] leaves[j]).node.wf() && leaf_bytes(leaves[j], raw).len()
            == leaves[j].node.addr_max - leaves[j].node.addr_min + 1 by {
            assert(db.leaf_data_ok(zones[m - 1].leaves@[j]));
            vstd::bytes::lemma_auto_spec_u64_to_from_le_bytes();
        }
        lemma_zone_results_sound(leaves, raw, initial, states, table, accept);
        let prev = search_results(zones.take(m - 1), raw, initial, states, table, accept);
        let more = zone_results(leaves, raw, initial, states, table, accept);
        assert forall|k: int| 0 <= k < (prev + more).len() implies exists|z: int|
            0 <= z < zones.len() && result_sound(zones[z].leaves@, raw, table, accept, initial, #[trigger] (prev + more)[k]) by {
            if k < prev.len() {
                assert((prev + more)[k] == prev[k]);
            } else {
                assert((prev + more)[k] == more[k - prev.len()]);
                assert(result_sound(zones[m - 1].leaves@, raw, table, accept, initial, (prev + more)[k]));
            }
        }
    }
}

/// The partial matches that begin at the first `n` bytes of a leaf keep every finished
/// match that begins at one of them.
proof fn lemma_starts_keep_finished(
    leaf: MemWriteLeaf,
    hay: Seq<u8>,
    initial: u32,
    table: Map<u64, u32>,
    accept: Set<u32>,
    n: int,
    p: int,
    i: int,
)
    requires
        0 <= p < n,
        p < hay.len(),
        dfa_run(table, accept, hay.subrange(p, hay.len() as int), initial, 0) == Some((Handle::Tip, i)),
    ensures
        chain_starts_upto(leaf, hay, initial, table, accept, n).1.contains(half_of(leaf, p, (Handle::Tip, i))),
    decreases n,
{
    let h = half_of(leaf, p, (Handle::Tip, i));
    let prev = chain_starts_upto(leaf, hay, initial, table, accept, n - 1);
    let cur = chain_starts_upto(leaf, hay, initial, table, accept, n);
    if p == n - 1 {
        assert(cur.1 == prev.1.push(h));
        assert(cur.1[prev.1.len() as int] == h);
    } else {
        lemma_starts_keep_finished(leaf, hay, initial, table, accept, n - 1, p, i);
        let k = choose|k: int| 0 <= k < prev.1.len() && prev.1[k] == h;
        if cur.1 != prev.1 {
            let x = cur.1.last();
            assert(cur.1 == prev.1.push(x));
            assert(cur.1[k] == h);
        }
    }
}

/// The matches that begin in the initial state in a zone's leaves keep those of each leaf.
proof fn lemma_zone_starts_keep(
    leaves: Seq<MemWriteLeaf>,
    raw: Seq<u8>,
    initial: u32,
    table: Map<u64, u32>,
    accept: Set<u32>,
    j: int,
    h: ChainHalf,
)
    requires
        0 <= j < leaves.len(),
        chain_starts_upto(
            leaves[j],
            leaf_bytes(leaves[j], raw),
            initial,
            table,
            accept,
            leaf_bytes(leaves[j], raw).len() as int,
        ).1.contains(h),
    ensures
        zone_starts(leaves, raw, initial, table, accept).contains(h),
    decreases leaves.len(),
{
    let front = zone_starts(leaves.drop_last(), raw, initial, table, accept);
    let last = leaves.last();
    let back = chain_starts_upto(last, leaf_bytes(last, raw), initial, table, accept, leaf_bytes(last, raw).len() as int).1;
    let all = zone_starts(leaves, raw, initial, table, accept);
    assert(all == front + back);
    if j == leaves.len() - 1 {
        let k = choose|k: int| 0 <= k < back.len() && back[k] == h;
        assert(all[front.len() + k] == h);
    } else {
        assert(leaves.drop_last()[j] == leaves[j]);
        lemma_zone_starts_keep(leaves.drop_last(), raw, initial, table, accept, j, h);
        let k = choose|k: int| 0 <= k < front.len() && front[k] == h;
        assert(all[k] == h);
    }
}

/// A finished partial match among the starts is a result.
proof fn lemma_results_from_keep(chains: Seq<Chain>, starts: Seq<ChainHalf>, h: ChainHalf)
    requires
        starts.contains(h),
        h.to == Handle::Tip,
    ensures
        results_from(chains, starts).contains(result_of(h)),
    decreases starts.len(),
{
    let front = results_from(chains, starts.drop_last());
    let all = results_from(chains, starts);
    assert(all == front + chain_results(chains, starts.last()));
    if starts.last() == h {
        assert(chain_results(chains, h) == seq![result_of(h)]);
        assert(all[front.len() as int] == result_of(h));
    } else {
        let k = choose|k: int| 0 <= k < starts.len() && starts[k] == h;
        assert(starts.drop_last()[k] == h);
        lemma_results_from_keep(chains, starts.drop_last(), h);
        let m = choose|m: int| 0 <= m < front.len() && front[m] == result_of(h);
        assert(all[m] == result_of(h));
    }
}

/// The results of the search keep those of each zone.
proof fn lemma_search_results_keep(
    zones: Seq<RTree<MemWriteSpec>>,
    raw: Seq<u8>,
    initial: u32,
    states: Seq<u32>,
    table: Map<u64, u32>,
    accept: Set<u32>,
    z: int,
    x: SearchResult,
)
    requires
        0 <= z < zones.len(),
        !accept.contains(initial),
        zone_results(zones[z].leaves@, raw, initial, states, table, accept).contains(x),
    ensures
        search_results(zones, raw, initial, states, table, accept).contains(x),
    decreases zones.len(),
{
    let front = search_results(zones.drop_last(), raw, initial, states, table, accept);
    let back = zone_results(zones.last().leaves@, raw, initial, states, table, accept);
    let all = search_results(zones, raw, initial, states, table, accept);
    assert(all == front + back);
    if z == zones.len() - 1 {
        let k = choose|k: int| 0 <= k < back.len() && back[k] == x;
        assert(all[front.len() + k] == x);
    } else {
        assert(zones.drop_last()[z] == zones[z]);
        lemma_search_results_keep(zones.drop_last(), raw, initial, states, table, accept, z, x);
        let k = choose|k: int| 0 <= k < front.len() && front[k] == x;
        assert(all[k] == x);
    }
}

/// Law: every match that lies inside one memory write is found. Where the bytes of the
/// leaf `j` of the zone `z`, from its byte `p` on, take the automaton from its initial
/// state to an accepting state at byte `p + i`, the addresses of those bytes, over the
/// leaf's times, are a search result (unless the initial state itself accepts, where the
/// search finds nothing).
pub proof fn law_matches_inside_a_write_are_found(
    zones: Seq<RTree<MemWriteSpec>>,
    raw: Seq<u8>,
    initial: u32,
    states: Seq<u32>,
    table: Map<u64, u32>,
    accept: Set<u32>,
    z: int,
    j: int,
    p: int,
    i: int,
)
    requires
        0 <= z < zones.len(),
        0 <= j < zones[z].leaves@.len(),
        !accept.contains(initial),
        0 <= p < leaf_bytes(zones[z].leaves@[j], raw).len(),
        dfa_run(
            table,
            accept,
            leaf_bytes(zones[z].leaves@[j], raw).subrange(p, leaf_bytes(zones[z].leaves@[j], raw).len() as int),
            initial,
            0,
        ) == Some((Handle::Tip, i)),
    ensures
        search_results(zones, raw, initial, states, table, accept).contains(
            result_of(half_of(zones[z].leaves@[j], p, (Handle::Tip, i))),
        ),
{
    let leaves = zones[z].leaves@;
    let leaf = leaves[j];
    let hay = leaf_bytes(leaf, raw);
    let h = half_of(leaf, p, (Handle::Tip, i));
    lemma_starts_keep_finished(leaf, hay, initial, table, accept, hay.len() as int, p, i);
    lemma_zone_starts_keep(leaves, raw, initial, table, accept, j, h);
    lemma_results_from_keep(zone_chains(leaves, raw, states, table, accept), zone_starts(leaves, raw, initial, table, accept), h);
    lemma_search_results_keep(zones, raw, initial, states, table, accept, z, result_of(h));
}

} // verus!
