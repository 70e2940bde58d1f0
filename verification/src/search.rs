//! Byte pattern search in the memory writes: a DFA runs over the bytes of every write
//! leaf, and partial matches are chained from leaf to leaf where their addresses follow
//! one another and their time ranges meet.
use vstd::prelude::*;
use std::collections::HashMap;
use itertools::Itertools;
use smallvec::SmallVec;
use rustc_hash::{FxHashMap, FxHashSet};
use crate::db::{Db, leaf_bytes};
use crate::flat::{Addr, MemWriteLeaf, Time};
use crate::memory::MemWriteSpec;
use crate::rtree::RTree;
use crate::irange::IRange;

verus! {

broadcast use vstd::std_specs::hash::group_hash_axioms;

/// A transition of a DFA over bytes.
#[derive(Clone, Copy, Debug)]
pub struct DfaLink {
    pub from: u32,
    pub symbol: u8,
    pub to: u32,
}

/// A deterministic automaton over bytes, its states numbered.
pub struct Dfa {
    pub initial_states: Vec<u32>,
    pub accept_states: Vec<u32>,
    /// States that are neither initial nor accepting, as the automaton lists them.
    pub non_special_states: Vec<u32>,
    pub links: Vec<DfaLink>,
}

/// Key of the transition from `state` on `byte` in a transition table.
pub open spec fn transition_key(state: u32, byte: u8) -> u64 {
    (state as int * 256 + byte as int) as u64
}

/// The transition table of a list of links; of two links from one state on one byte,
/// the later wins.
pub open spec fn links_table(links: Seq<DfaLink>) -> Map<u64, u32>
    decreases links.len(),
{
    if links.len() == 0 {
        Map::empty()
    } else {
        links_table(links.drop_last()).insert(transition_key(links.last().from, links.last().symbol), links.last().to)
    }
}

/// Distinct pairs of state and byte have distinct keys.
proof fn lemma_transition_key_injective(s1: u32, b1: u8, s2: u32, b2: u8)
    ensures
        transition_key(s1, b1) == transition_key(s2, b2) ==> s1 == s2 && b1 == b2,
{
    assert(0 <= s1 as int * 256 + b1 as int <= u64::MAX) by (nonlinear_arith)
        requires
            0 <= s1 <= u32::MAX,
            0 <= b1 <= 255,
    ;
    assert(0 <= s2 as int * 256 + b2 as int <= u64::MAX) by (nonlinear_arith)
        requires
            0 <= s2 <= u32::MAX,
            0 <= b2 <= 255,
    ;
    if transition_key(s1, b1) == transition_key(s2, b2) {
        let x1 = s1 as int * 256 + b1 as int;
        let x2 = s2 as int * 256 + b2 as int;
        assert(x1 == x2);
        assert(s1 == s2 && b1 == b2) by (nonlinear_arith)
            requires
                s1 as int * 256 + b1 as int == s2 as int * 256 + b2 as int,
                0 <= b1 <= 255,
                0 <= b2 <= 255,
                0 <= s1,
                0 <= s2,
        ;
    }
}

/// Law: the transition table of a list of links follows the links: from state `s` on byte
/// `b` it has no transition exactly when no link goes from `s` on `b`, and otherwise it goes
/// where the last link from `s` on `b` goes.
pub proof fn law_transition_table_follows_links(links: Seq<DfaLink>, s: u32, b: u8)
    ensures
        step(links_table(links), s, b) is None <==> forall|i: int|
            0 <= i < links.len() ==> !((#[trigger] links[i]).from == s && links[i].symbol == b),
        step(links_table(links), s, b) matches Some(t) ==> exists|i: int|
            0 <= i < links.len() && (#[trigger] links[i]).from == s && links[i].symbol == b && links[i].to == t
                && forall|j: int| i < j < links.len() ==> !((#[trigger] links[j]).from == s && links[j].symbol == b),
    decreases links.len(),
{
    if links.len() > 0 {
        let p = links.drop_last();
        let l = links.last();
        law_transition_table_follows_links(p, s, b);
        lemma_transition_key_injective(l.from, l.symbol, s, b);
        assert(links_table(links) == links_table(p).insert(transition_key(l.from, l.symbol), l.to));
        assert forall|i: int| 0 <= i < p.len() implies links[i] == p[i] by {}
        if l.from == s && l.symbol == b {
            assert(step(links_table(links), s, b) == Some(l.to));
            assert(links[links.len() - 1] == l);
        } else {
            assert(step(links_table(links), s, b) == step(links_table(p), s, b));
            assert(links[links.len() - 1] == l);
            if step(links_table(p), s, b) is None {
                assert forall|i: int| 0 <= i < links.len() implies !((#[trigger] links[i]).from == s && links[i].symbol == b) by {
                    if i < p.len() {
                        assert(links[i] == p[i]);
                    }
                }
            } else {
                let t = step(links_table(p), s, b)->0;
                let i = choose|i: int|
                    0 <= i < p.len() && (#[trigger] p[i]).from == s && p[i].symbol == b && p[i].to == t
                        && forall|j: int| i < j < p.len() ==> !((#[trigger] p[j]).from == s && p[j].symbol == b);
                assert(links[i] == p[i]);
                assert forall|j: int| i < j < links.len() implies !((#[trigger] links[j]).from == s && links[j].symbol == b) by {
                    if j < p.len() {
                        assert(links[j] == p[j]);
                    }
                }
            }
        }
    }
}

/// The state reached from `state` on `byte`, if any.
pub open spec fn step(table: Map<u64, u32>, state: u32, byte: u8) -> Option<u32> {
    if table.contains_key(transition_key(state, byte)) {
        Some(table[transition_key(state, byte)])
    } else {
        None
    }
}

/// Where a partial match stops: an accepting state was reached, or the bytes ran out in a
/// state from which the match may go on.
#[derive(Clone, Copy, Debug, PartialEq, Eq, Structural)]
pub enum Handle {
    Tip,
    State(u32),
}

/// The run of the DFA from `state` over `hay[i..]`: `None` where a byte has no
/// transition; the first accepting state with its index; else the state after the last
/// byte, with the last index.
pub open spec fn dfa_run(table: Map<u64, u32>, accept: Set<u32>, hay: Seq<u8>, state: u32, i: int) -> Option<(Handle, int)>
    decreases hay.len() - i,
{
    if i >= hay.len() {
        Some((Handle::State(state), hay.len() - 1))
    } else if i < 0 {
        None
    } else {
        match step(table, state, hay[i]) {
            None => None,
            Some(next) => if accept.contains(next) {
                Some((Handle::Tip, i))
            } else {
                dfa_run(table, accept, hay, next, i + 1)
            },
        }
    }
}

/// A DFA's transitions, by `transition_key`, in a `rustc_hash::FxHashMap`.
#[verifier::external_body]
pub struct TransitionTable {
    inner: FxHashMap<u64, u32>,
}

/// The transitions that the table holds, by key.
pub uninterp spec fn table_contents(t: TransitionTable) -> Map<u64, u32>;

impl View for TransitionTable {
    type V = Map<u64, u32>;

    open spec fn view(&self) -> Map<u64, u32> {
        table_contents(*self)
    }
}

/// `FxHashMap::default`: an empty table.
#[verifier::external_body]
fn table_new() -> (r: TransitionTable)
    ensures
        table_contents(r).dom() == Set::<u64>::empty(),
{
    TransitionTable { inner: FxHashMap::default() }
}

/// `HashMap::insert`: the key now maps to the value.
#[verifier::external_body]
fn table_insert(t: &mut TransitionTable, key: u64, value: u32)
    ensures
        table_contents(*final(t)) == table_contents(*old(t)).insert(key, value),
{
    t.inner.insert(key, value);
}

/// `HashMap::get`: the value of the key, if the table holds it.
#[verifier::external_body]
fn table_get(t: &TransitionTable, key: u64) -> (r: Option<u32>)
    ensures
        r == if table_contents(*t).contains_key(key) {
            Some(table_contents(*t)[key])
        } else {
            None::<u32>
        },
{
    t.inner.get(&key).copied()
}

/// A set of DFA states in a `rustc_hash::FxHashSet`.
#[verifier::external_body]
pub struct StateSet {
    inner: FxHashSet<u32>,
}

/// The states that the set holds.
pub uninterp spec fn state_set_contents(s: StateSet) -> Set<u32>;

impl View for StateSet {
    type V = Set<u32>;

    open spec fn view(&self) -> Set<u32> {
        state_set_contents(*self)
    }
}

/// `FxHashSet::default`: an empty set.
#[verifier::external_body]
fn state_set_new() -> (r: StateSet)
    ensures
        state_set_contents(r) == Set::<u32>::empty(),
{
    StateSet { inner: FxHashSet::default() }
}

/// `HashSet::insert`: the state is now in the set; whether it was not before.
#[verifier::external_body]
fn state_set_insert(s: &mut StateSet, state: u32) -> (r: bool)
    ensures
        state_set_contents(*final(s)) == state_set_contents(*old(s)).insert(state),
        r == !state_set_contents(*old(s)).contains(state),
{
    s.inner.insert(state)
}

/// `HashSet::contains`: whether the state is in the set.
#[verifier::external_body]
fn state_set_contains(s: &StateSet, state: u32) -> (r: bool)
    ensures
        r == state_set_contents(*s).contains(state),
{
    s.inner.contains(&state)
}

/// The transition table of `links`.
pub fn build_transition_table(links: &Vec<DfaLink>) -> (r: TransitionTable)
    ensures
        r@ == links_table(links@),
{
    let mut table = table_new();
    let mut i: usize = 0;
    while i < links.len()
        invariant
            i <= links@.len(),
            table@ == links_table(links@.take(i as int)),
        decreases links@.len() - i,
    {
        let link = links[i];
        let key: u64 = (link.from as u64) * 256 + (link.symbol as u64);
        table_insert(&mut table, key, link.to);
        proof {
            assert(links@.take(i + 1).drop_last() =~= links@.take(i as int));
        }
        i = i + 1;
    }
    proof {
        assert(links@.take(i as int) =~= links@);
    }
    table
}

/// The set of `states`.
pub fn build_state_set(states: &Vec<u32>) -> (r: StateSet)
    ensures
        r@ == states@.to_set(),
{
    let mut set = state_set_new();
    let mut i: usize = 0;
    while i < states.len()
        invariant
            i <= states@.len(),
            set@ == states@.take(i as int).to_set(),
        decreases states@.len() - i,
    {
        state_set_insert(&mut set, states[i]);
        proof {
            assert(states@.take(i + 1) =~= states@.take(i as int).push(states@[i as int]));
            states@.take(i as int).lemma_push_to_set_commute(states@[i as int]);
        }
        i = i + 1;
    }
    proof {
        assert(states@.take(i as int) =~= states@);
    }
    set
}

/// Run the DFA over `haystack` from `start_state` (see `dfa_run`).
pub fn execute_dfa(haystack: &[u8], start_state: u32, table: &TransitionTable, accept: &StateSet) -> (r: Option<(Handle, usize)>)
    requires
        haystack@.len() > 0,
    ensures
        match r {
            Some((h, idx)) => dfa_run(table@, accept@, haystack@, start_state, 0) == Some((h, idx as int)),
            None => dfa_run(table@, accept@, haystack@, start_state, 0) is None,
        },
{
    let mut state = start_state;
    let mut idx: usize = 0;
    while idx < haystack.len()
        invariant
            idx <= haystack@.len(),
            dfa_run(table@, accept@, haystack@, start_state, 0) == dfa_run(table@, accept@, haystack@, state, idx as int),
        decreases haystack@.len() - idx,
    {
        let byte = haystack[idx];
        let key: u64 = (state as u64) * 256 + (byte as u64);
        match table_get(table, key) {
            None => {
                return None;
            },
            Some(next) => {
                state = next;
            },
        }
        if state_set_contains(accept, state) {
            return Some((Handle::Tip, idx));
        }
        idx = idx + 1;
    }
    Some((Handle::State(state), haystack.len() - 1))
}

/// A partial match: where it stops, the addresses it spans and the times at which
/// its bytes all hold.
#[derive(Clone, Copy, Debug)]
pub struct ChainHalf {
    pub to: Handle,
    pub addr_range: IRange<Addr>,
    pub time_range: IRange<Time>,
}

/// A partial match that begins in the DFA state `from`.
#[derive(Clone, Copy, Debug)]
pub struct Chain {
    pub from: u32,
    pub half: ChainHalf,
}

/// Where a chain goes on: the state it begins in and its first address, then its
/// first time.
#[derive(Clone, Copy, Debug)]
pub struct ChainKey {
    pub addr_start: Addr,
    pub time_start: Time,
    pub state: u32,
}

/// A match: the addresses it spans and the times at which it is in memory.
#[derive(Clone, Copy, Debug, PartialEq, Eq, Structural)]
pub struct SearchResult {
    pub addr_min: Addr,
    pub addr_max: Addr,
    pub time_min: Time,
    pub time_max: Time,
}

impl SearchResult {
    /// Both ranges are well formed.
    pub open spec fn wf(self) -> bool {
        self.addr_min <= self.addr_max && self.time_min <= self.time_max
    }
}

/// Every result is well formed.
pub open spec fn all_wf(results: Seq<SearchResult>) -> bool {
    forall|k: int| 0 <= k < results.len() ==> (#[trigger] results[k]).wf()
}

impl ChainHalf {
    /// Both ranges are well formed.
    pub open spec fn wf(self) -> bool {
        self.addr_range.wf() && self.time_range.wf()
    }

    /// `self` followed by `other`: the addresses of both, where their times meet.
    pub open spec fn connect_spec(self, other: ChainHalf) -> Option<ChainHalf> {
        match self.time_range.intersect_spec(other.time_range) {
            Some(t) => Some(
                ChainHalf {
                    addr_range: IRange { min: self.addr_range.min, max: other.addr_range.max },
                    to: other.to,
                    time_range: t,
                },
            ),
            None => None,
        }
    }

    pub fn connect(&self, other: &Self) -> (r: Option<Self>)
        requires
            self.wf(),
            other.wf(),
            self.addr_range.min <= other.addr_range.max,
        ensures
            r == self.connect_spec(*other),
    {
        let time_range = match self.time_range.intersection(&other.time_range) {
            Some(t) => t,
            None => {
                return None;
            },
        };
        Some(ChainHalf { addr_range: IRange::new(self.addr_range.min, other.addr_range.max), to: other.to, time_range })
    }
}

impl Chain {
    pub fn key(&self) -> (r: ChainKey)
        ensures
            r.addr_start == self.half.addr_range.min,
            r.time_start == self.half.time_range.min,
            r.state == self.from,
    {
        ChainKey { addr_start: self.half.addr_range.min, time_start: self.half.time_range.min, state: self.from }
    }
}

/// Key of the chains that begin in `state` at `addr`.
pub open spec fn group_key(state: u32, addr: Addr) -> u128 {
    (state as int * 0x1_0000_0000_0000_0000 + addr as int) as u128
}

proof fn lemma_group_key_injective(s1: u32, a1: Addr, s2: u32, a2: Addr)
    ensures
        group_key(s1, a1) == group_key(s2, a2) <==> (s1 == s2 && a1 == a2),
{
    assert(group_key(s1, a1) == group_key(s2, a2) ==> (s1 == s2 && a1 == a2)) by (nonlinear_arith);
}

impl ChainKey {
    /// The state and the first address, packed.
    pub fn exact_key(&self) -> (r: u128)
        ensures
            r == group_key(self.state, self.addr_start),
    {
        (self.state as u128) * 0x1_0000_0000_0000_0000 + (self.addr_start as u128)
    }

    pub fn order_key(&self) -> (r: Time)
        ensures
            r == self.time_start,
    {
        self.time_start
    }
}

pub(crate) proof fn lemma_dfa_run_index(table: Map<u64, u32>, accept: Set<u32>, hay: Seq<u8>, state: u32, i: int)
    requires
        hay.len() > 0,
        0 <= i,
    ensures
        dfa_run(table, accept, hay, state, i) matches Some(run) ==> 0 <= run.1 < hay.len(),
        dfa_run(table, accept, hay, state, i) matches Some(run) ==> i <= hay.len() ==> i - 1 <= run.1,
        dfa_run(table, accept, hay, state, i) matches Some(run) ==> i < hay.len() ==> i <= run.1,
    decreases hay.len() - i,
{
    if i < hay.len() {
        if let Some(next) = step(table, state, hay[i]) {
            if !accept.contains(next) {
                lemma_dfa_run_index(table, accept, hay, next, i + 1);
            }
        }
    }
}

/// The partial match of a leaf that begins at its byte `start` in state `state` and
/// runs as `run` says.
pub open spec fn half_of(leaf: MemWriteLeaf, start: int, run: (Handle, int)) -> ChainHalf {
    ChainHalf {
        to: run.0,
        addr_range: IRange { min: (leaf.node.addr_min + start) as u64, max: (leaf.node.addr_min + start + run.1) as u64 },
        time_range: leaf.node.time_range_spec(),
    }
}

/// The matches that begin, in the initial state, at one of the first `n` bytes of `hay`,
/// the bytes of `leaf`; a match that stops in a state where a match from an earlier byte
/// already stopped is left out. Also the states where those matches stopped.
pub open spec fn chain_starts_upto(
    leaf: MemWriteLeaf,
    hay: Seq<u8>,
    initial: u32,
    table: Map<u64, u32>,
    accept: Set<u32>,
    n: int,
) -> (Set<u32>, Seq<ChainHalf>)
    decreases n,
{
    if n <= 0 {
        (Set::empty(), Seq::empty())
    } else {
        let prev = chain_starts_upto(leaf, hay, initial, table, accept, n - 1);
        match dfa_run(table, accept, hay.subrange(n - 1, hay.len() as int), initial, 0) {
            None => prev,
            Some(run) => match run.0 {
                Handle::State(s) => if prev.0.contains(s) {
                    prev
                } else {
                    (prev.0.insert(s), prev.1.push(half_of(leaf, n - 1, run)))
                },
                Handle::Tip => (prev.0, prev.1.push(half_of(leaf, n - 1, run))),
            },
        }
    }
}

/// The matches that run over all of `hay`, the bytes of `leaf`, from each of `states`
/// in turn.
pub open spec fn chains_of(leaf: MemWriteLeaf, hay: Seq<u8>, states: Seq<u32>, table: Map<u64, u32>, accept: Set<u32>) -> Seq<Chain>
    decreases states.len(),
{
    if states.len() == 0 {
        Seq::empty()
    } else {
        let prev = chains_of(leaf, hay, states.drop_last(), table, accept);
        match dfa_run(table, accept, hay, states.last(), 0) {
            None => prev,
            Some(run) => prev.push(Chain { from: states.last(), half: half_of(leaf, 0, run) }),
        }
    }
}

/// Partial matches held in a `smallvec::SmallVec` that keeps one of them inline.
#[verifier::external_body]
pub struct SmallHalves {
    inner: SmallVec<[ChainHalf; 1]>,
}

/// Chains held in a `smallvec::SmallVec` that keeps one of them inline.
#[verifier::external_body]
pub struct SmallChains {
    inner: SmallVec<[Chain; 1]>,
}

/// The partial matches that a small vector holds, in order.
pub uninterp spec fn small_halves(v: SmallHalves) -> Seq<ChainHalf>;

/// The chains that a small vector holds, in order.
pub uninterp spec fn small_chains(v: SmallChains) -> Seq<Chain>;

/// `SmallVec::from_vec`: a small vector that holds the items of `v`, in order.
#[verifier::external_body]
fn small_halves_from_vec(v: Vec<ChainHalf>) -> (r: SmallHalves)
    ensures
        small_halves(r) == v@,
{
    SmallHalves { inner: SmallVec::from_vec(v) }
}

/// `SmallVec::into_vec`: the items of the small vector, in order.
#[verifier::external_body]
fn small_halves_into_vec(v: SmallHalves) -> (r: Vec<ChainHalf>)
    ensures
        r@ == small_halves(v),
{
    v.inner.into_vec()
}

/// `SmallVec::from_vec`: a small vector that holds the items of `v`, in order.
#[verifier::external_body]
fn small_chains_from_vec(v: Vec<Chain>) -> (r: SmallChains)
    ensures
        small_chains(r) == v@,
{
    SmallChains { inner: SmallVec::from_vec(v) }
}

/// `SmallVec::into_vec`: the items of the small vector, in order.
#[verifier::external_body]
fn small_chains_into_vec(v: SmallChains) -> (r: Vec<Chain>)
    ensures
        r@ == small_chains(v),
{
    v.inner.into_vec()
}

/// The partial matches of one leaf whose bytes are `haystack`: those that begin in the
/// initial state at any byte, and those that begin at its first byte in any other state.
pub fn partial_search(
    rect: &MemWriteLeaf,
    haystack: &[u8],
    initial_state: u32,
    non_special_states: &[u32],
    table: &TransitionTable,
    accept: &StateSet,
) -> (r: (SmallHalves, SmallChains))
    requires
        haystack@.len() > 0,
        rect.node.wf(),
        haystack@.len() == rect.node.addr_max - rect.node.addr_min + 1,
    ensures
        small_halves(r.0) == chain_starts_upto(*rect, haystack@, initial_state, table@, accept@, haystack@.len() as int).1,
        small_chains(r.1) == chains_of(*rect, haystack@, non_special_states@, table@, accept@),
        forall|i: int| 0 <= i < small_halves(r.0).len() ==> (#[trigger] small_halves(r.0)[i]).wf(),
        forall|i: int| 0 <= i < small_chains(r.1).len() ==> (#[trigger] small_chains(r.1)[i]).half.wf(),
{
    let mut chain_starts: Vec<ChainHalf> = Vec::new();
    let mut chains: Vec<Chain> = Vec::new();
    let mut seen = state_set_new();
    let len = haystack.len();
    let mut start_idx: usize = 0;
    while start_idx < len
        invariant
            len == haystack@.len(),
            len > 0,
            rect.node.wf(),
            len == rect.node.addr_max - rect.node.addr_min + 1,
            start_idx <= len,
            seen@ == chain_starts_upto(*rect, haystack@, initial_state, table@, accept@, start_idx as int).0,
            chain_starts@ == chain_starts_upto(*rect, haystack@, initial_state, table@, accept@, start_idx as int).1,
            forall|i: int| 0 <= i < chain_starts@.len() ==> (#[trigger] chain_starts@[i]).wf(),
        decreases len - start_idx,
    {
        let rest = vstd::slice::slice_subrange(haystack, start_idx, len);
        let exec_result = execute_dfa(rest, initial_state, table, accept);
        proof {
            lemma_dfa_run_index(table@, accept@, rest@, initial_state, 0);
        }
        match exec_result {
            None => {},
            Some((match_handle, relative_match_idx)) => {
                let match_idx = start_idx + relative_match_idx;
                let mut is_new = true;
                match match_handle {
                    Handle::State(match_state) => {
                        is_new = state_set_insert(&mut seen, match_state);
                    },
                    Handle::Tip => {},
                }
                if is_new {
                    let start_addr = rect.node.addr_min + start_idx as u64;
                    let match_addr = rect.node.addr_min + match_idx as u64;
                    chain_starts.push(
                        ChainHalf {
                            to: match_handle,
                            addr_range: IRange::new(start_addr, match_addr),
                            time_range: rect.time_range(),
                        },
                    );
                }
            },
        }
        start_idx = start_idx + 1;
    }
    let mut k: usize = 0;
    while k < non_special_states.len()
        invariant
            len == haystack@.len(),
            len > 0,
            rect.node.wf(),
            len == rect.node.addr_max - rect.node.addr_min + 1,
            k <= non_special_states@.len(),
            chains@ == chains_of(*rect, haystack@, non_special_states@.take(k as int), table@, accept@),
            forall|i: int| 0 <= i < chains@.len() ==> (#[trigger] chains@[i]).half.wf(),
            forall|i: int| 0 <= i < chain_starts@.len() ==> (#[trigger] chain_starts@[i]).wf(),
        decreases non_special_states@.len() - k,
    {
        let state = non_special_states[k];
        let exec_result = execute_dfa(haystack, state, table, accept);
        proof {
            lemma_dfa_run_index(table@, accept@, haystack@, state, 0);
            assert(non_special_states@.take(k + 1).drop_last() =~= non_special_states@.take(k as int));
        }
        match exec_result {
            None => {},
            Some((match_handle, match_idx)) => {
                let match_addr = rect.node.addr_min + match_idx as u64;
                chains.push(
                    Chain {
                        from: state,
                        half: ChainHalf {
                            to: match_handle,
                            addr_range: IRange::new(rect.node.addr_min, match_addr),
                            time_range: rect.time_range(),
                        },
                    },
                );
            },
        }
        k = k + 1;
    }
    proof {
        assert(non_special_states@.take(k as int) =~= non_special_states@);
    }
    (small_halves_from_vec(chain_starts), small_chains_from_vec(chains))
}

/// The result of a finished match.
pub open spec fn result_of(half: ChainHalf) -> SearchResult {
    SearchResult {
        addr_min: half.addr_range.min,
        addr_max: half.addr_range.max,
        time_min: half.time_range.min,
        time_max: half.time_range.max,
    }
}

/// The chains that begin in `state` at `addr`, in their order.
pub open spec fn next_chains(chains: Seq<Chain>, state: u32, addr: int) -> Seq<Chain> {
    chains.filter(begins_at(state, addr))
}

/// The chain begins in `state` at `addr`.
pub open spec fn begins_at(state: u32, addr: int) -> spec_fn(Chain) -> bool {
    |c: Chain| c.from == state && c.half.addr_range.min == addr
}

/// The matches that finish the partial match `half` with `chains`: a finished match is a
/// result; one stopped in a state goes on with each chain that begins in that state at
/// the next address and meets it in time. No match goes on past the last address.
pub open spec fn chain_results(chains: Seq<Chain>, half: ChainHalf) -> Seq<SearchResult>
    decreases u64::MAX - half.addr_range.max, chains.len() + 1,
{
    match half.to {
        Handle::Tip => seq![result_of(half)],
        Handle::State(s) => if half.addr_range.max >= u64::MAX {
            Seq::empty()
        } else {
            proof {
                chains.lemma_filter_len(begins_at(s, half.addr_range.max + 1));
            }
            results_through(chains, half, next_chains(chains, s, half.addr_range.max + 1))
        },
    }
}

/// The matches that finish `half` through each of `list` in turn (a chain that ends no
/// later than `half` is passed over; none does where the chains are well formed).
pub open spec fn results_through(chains: Seq<Chain>, half: ChainHalf, list: Seq<Chain>) -> Seq<SearchResult>
    decreases u64::MAX - half.addr_range.max, list.len(),
{
    if list.len() == 0 {
        Seq::empty()
    } else {
        let prev = results_through(chains, half, list.drop_last());
        match half.connect_spec(list.last().half) {
            Some(n) => if n.addr_range.max > half.addr_range.max {
                prev + chain_results(chains, n)
            } else {
                prev
            },
            None => prev,
        }
    }
}

/// `groups` holds, under the key of each state and address, the chains that begin there.
pub open spec fn groups_hold(groups: Map<u128, Vec<Chain>>, chains: Seq<Chain>) -> bool {
    forall|s: u32, a: u64|
        #![trigger group_key(s, a)]
        (if groups.contains_key(group_key(s, a)) { groups[group_key(s, a)]@ } else { Seq::empty() })
            == next_chains(chains, s, a as int)
}

/// Follow the partial match `half` through the chains grouped in `groups`, and push every
/// match that finishes.
fn chain_task(
    half: ChainHalf,
    groups: &HashMap<u128, Vec<Chain>>,
    Ghost(chains): Ghost<Seq<Chain>>,
    results: &mut Vec<SearchResult>,
)
    requires
        half.wf(),
        groups_hold(groups@, chains),
        forall|i: int| 0 <= i < chains.len() ==> (#[trigger] chains[i]).half.wf(),
        all_wf(old(results)@),
    ensures
        final(results)@ == old(results)@ + chain_results(chains, half),
        all_wf(final(results)@),
    decreases u64::MAX - half.addr_range.max,
{
    match half.to {
        Handle::Tip => {
            results.push(
                SearchResult {
                    addr_min: half.addr_range.min,
                    addr_max: half.addr_range.max,
                    time_min: half.time_range.min,
                    time_max: half.time_range.max,
                },
            );
        },
        Handle::State(state) => {
            if half.addr_range.max < u64::MAX {
                let addr_start = half.addr_range.max + 1;
                let key = ChainKey { addr_start, time_start: 0, state }.exact_key();
                let ghost list = next_chains(chains, state, addr_start as int);
                let ghost pred = begins_at(state, addr_start as int);
                assert(groups@.contains_key(group_key(state, addr_start)) ==> groups@[group_key(state, addr_start)]@ == list);
                match groups.get(&key) {
                    None => {
                        assert(list =~= Seq::<Chain>::empty());
                        assert(results_through(chains, half, list) =~= Seq::<SearchResult>::empty());
                        assert(results@ =~= old(results)@ + chain_results(chains, half));
                    },
                    Some(group) => {
                        let ghost r0 = results@;
                        let mut i: usize = 0;
                        while i < group.len()
                            invariant
                                i <= group@.len(),
                                group@ == list,
                                list == chains.filter(pred),
                                pred == begins_at(state, addr_start as int),
                                half.wf(),
                                half.to == Handle::State(state),
                                half.addr_range.max < u64::MAX,
                                addr_start == half.addr_range.max + 1,
                                groups_hold(groups@, chains),
                                forall|j: int| 0 <= j < chains.len() ==> (#[trigger] chains[j]).half.wf(),
                                results@ == r0 + results_through(chains, half, list.take(i as int)),
                                all_wf(results@),
                            decreases group@.len() - i,
                        {
                            let c = group[i];
                            proof {
                                chains.lemma_filter_pred(pred, i as int);
                                assert(list.contains(list[i as int]));
                                chains.lemma_filter_contains_rev(pred, list[i as int]);
                                let j = choose|j: int| 0 <= j < chains.len() && chains[j] == list[i as int];
                                assert(chains[j].half.wf());
                                assert(list.take(i + 1).drop_last() =~= list.take(i as int));
                            }
                            let ghost before = results@;
                            match half.connect(&c.half) {
                                Some(next) => {
                                    chain_task(next, groups, Ghost(chains), results);
                                    proof {
                                        assert(results@ =~= r0 + results_through(chains, half, list.take(i + 1)));
                                    }
                                },
                                None => {},
                            }
                            i = i + 1;
                        }
                        proof {
                            assert(list.take(i as int) =~= list);
                        }
                    },
                }
            }
        },
    }
}

/// Group `chains` by the state they begin in and their first address, keeping their order.
pub fn group_chains(chains: &Vec<Chain>) -> (r: HashMap<u128, Vec<Chain>>)
    ensures
        groups_hold(r@, chains@),
{
    let mut groups: HashMap<u128, Vec<Chain>> = HashMap::new();
    let mut i: usize = 0;
    proof {
        assert forall|s: u32, a: u64| #![trigger group_key(s, a)]
            (if groups@.contains_key(group_key(s, a)) { groups@[group_key(s, a)]@ } else { Seq::empty() })
                == next_chains(chains@.take(0), s, a as int) by {
            reveal(Seq::filter);
            assert(chains@.take(0).filter(begins_at(s, a as int)) =~= Seq::<Chain>::empty());
        }
    }
    while i < chains.len()
        invariant
            i <= chains@.len(),
            groups_hold(groups@, chains@.take(i as int)),
        decreases chains@.len() - i,
    {
        let c = chains[i];
        let key = c.key().exact_key();
        let ghost g0 = groups@;
        let mut group = match groups.remove(&key) {
            Some(v) => v,
            None => Vec::new(),
        };
        proof {
            assert(group@ == (if g0.contains_key(key) { g0[key]@ } else { Seq::empty() }));
        }
        group.push(c);
        groups.insert(key, group);
        proof {
            let prefix = chains@.take(i as int);
            let next = chains@.take(i + 1);
            assert(next.drop_last() =~= prefix);
            assert(next.last() == c);
            assert forall|s: u32, a: u64| #![trigger group_key(s, a)]
                (if groups@.contains_key(group_key(s, a)) { groups@[group_key(s, a)]@ } else { Seq::empty() })
                    == next_chains(next, s, a as int) by {
                reveal(Seq::filter);
                lemma_group_key_injective(c.from, c.half.addr_range.min, s, a);
                assert(next.filter(begins_at(s, a as int)) == (if begins_at(s, a as int)(c) {
                    prefix.filter(begins_at(s, a as int)).push(c)
                } else {
                    prefix.filter(begins_at(s, a as int))
                }));
                assert(groups_hold(g0, prefix));
                assert((if g0.contains_key(group_key(s, a)) { g0[group_key(s, a)]@ } else { Seq::empty() })
                    == next_chains(prefix, s, a as int));
            }
        }
        i = i + 1;
    }
    proof {
        assert(chains@.take(i as int) =~= chains@);
    }
    groups
}

/// The matches beginning in the initial state in the leaves `leaves`, leaf after leaf.
pub open spec fn zone_starts(
    leaves: Seq<MemWriteLeaf>,
    raw: Seq<u8>,
    initial: u32,
    table: Map<u64, u32>,
    accept: Set<u32>,
) -> Seq<ChainHalf>
    decreases leaves.len(),
{
    if leaves.len() == 0 {
        Seq::empty()
    } else {
        let hay = leaf_bytes(leaves.last(), raw);
        zone_starts(leaves.drop_last(), raw, initial, table, accept) + chain_starts_upto(
            leaves.last(),
            hay,
            initial,
            table,
            accept,
            hay.len() as int,
        ).1
    }
}

/// The matches over whole leaves from each of `states`, leaf after leaf.
pub open spec fn zone_chains(
    leaves: Seq<MemWriteLeaf>,
    raw: Seq<u8>,
    states: Seq<u32>,
    table: Map<u64, u32>,
    accept: Set<u32>,
) -> Seq<Chain>
    decreases leaves.len(),
{
    if leaves.len() == 0 {
        Seq::empty()
    } else {
        zone_chains(leaves.drop_last(), raw, states, table, accept) + chains_of(
            leaves.last(),
            leaf_bytes(leaves.last(), raw),
            states,
            table,
            accept,
        )
    }
}

/// The matches that finish each of `starts` in turn with `chains`.
pub open spec fn results_from(chains: Seq<Chain>, starts: Seq<ChainHalf>) -> Seq<SearchResult>
    decreases starts.len(),
{
    if starts.len() == 0 {
        Seq::empty()
    } else {
        results_from(chains, starts.drop_last()) + chain_results(chains, starts.last())
    }
}

/// The matches in one zone of memory writes.
pub open spec fn zone_results(
    leaves: Seq<MemWriteLeaf>,
    raw: Seq<u8>,
    initial: u32,
    states: Seq<u32>,
    table: Map<u64, u32>,
    accept: Set<u32>,
) -> Seq<SearchResult> {
    results_from(zone_chains(leaves, raw, states, table, accept), zone_starts(leaves, raw, initial, table, accept))
}

/// Search one zone of memory writes: partial matches in every leaf, then chained.
fn search_in_zone(
    db: &Db,
    zone: &RTree<MemWriteSpec>,
    initial_state: u32,
    non_special_states: &[u32],
    table: &TransitionTable,
    accept: &StateSet,
) -> (r: Vec<SearchResult>)
    requires
        forall|j: int| 0 <= j < zone.leaves@.len() ==> db.leaf_data_ok(#[trigger] zone.leaves@[j]),
    ensures
        r@ == zone_results(zone.leaves@, db.raw_data@, initial_state, non_special_states@, table@, accept@),
        all_wf(r@),
{
    let ghost leaves = zone.leaves@;
    let ghost raw = db.raw_data@;
    let mut chain_starts: Vec<ChainHalf> = Vec::new();
    let mut ordered_chains: Vec<Chain> = Vec::new();
    let mut j: usize = 0;
    while j < zone.leaves.len()
        invariant
            j <= leaves.len(),
            leaves == zone.leaves@,
            raw == db.raw_data@,
            forall|k: int| 0 <= k < leaves.len() ==> db.leaf_data_ok(#[trigger] leaves[k]),
            chain_starts@ == zone_starts(leaves.take(j as int), raw, initial_state, table@, accept@),
            ordered_chains@ == zone_chains(leaves.take(j as int), raw, non_special_states@, table@, accept@),
            forall|i: int| 0 <= i < chain_starts@.len() ==> (#[trigger] chain_starts@[i]).wf(),
            forall|i: int| 0 <= i < ordered_chains@.len() ==> (#[trigger] ordered_chains@[i]).half.wf(),
        decreases leaves.len() - j,
    {
        let leaf = &zone.leaves[j];
        assert(db.leaf_data_ok(leaves[j as int]));
        let data = db.mem_leaf_data(leaf);
        let (found_starts, found_chains) = partial_search(leaf, data.as_slice(), initial_state, non_special_states, table, accept);
        let mut starts = small_halves_into_vec(found_starts);
        let mut chains = small_chains_into_vec(found_chains);
        let ghost s0 = chain_starts@;
        let ghost c0 = ordered_chains@;
        let ghost new_starts = starts@;
        let ghost new_chains = chains@;
        chain_starts.append(&mut starts);
        ordered_chains.append(&mut chains);
        proof {
            assert(leaves.take(j + 1).drop_last() =~= leaves.take(j as int));
            assert(leaves.take(j + 1).last() == leaves[j as int]);
            assert forall|i: int| 0 <= i < chain_starts@.len() implies (#[trigger] chain_starts@[i]).wf() by {
                if i >= s0.len() {
                    assert(chain_starts@[i] == new_starts[i - s0.len()]);
                }
            }
            assert forall|i: int| 0 <= i < ordered_chains@.len() implies (#[trigger] ordered_chains@[i]).half.wf() by {
                if i >= c0.len() {
                    assert(ordered_chains@[i] == new_chains[i - c0.len()]);
                }
            }
        }
        j = j + 1;
    }
    proof {
        assert(leaves.take(j as int) =~= leaves);
    }
    let groups = group_chains(&ordered_chains);
    let ghost chains = ordered_chains@;
    let mut results: Vec<SearchResult> = Vec::new();
    let mut k: usize = 0;
    while k < chain_starts.len()
        invariant
            k <= chain_starts@.len(),
            chains == ordered_chains@,
            groups_hold(groups@, chains),
            forall|i: int| 0 <= i < chain_starts@.len() ==> (#[trigger] chain_starts@[i]).wf(),
            forall|i: int| 0 <= i < chains.len() ==> (#[trigger] chains[i]).half.wf(),
            results@ == results_from(chains, chain_starts@.take(k as int)),
            all_wf(results@),
        decreases chain_starts@.len() - k,
    {
        let start = chain_starts[k];
        chain_task(start, &groups, Ghost(chains), &mut results);
        proof {
            assert(chain_starts@.take(k + 1).drop_last() =~= chain_starts@.take(k as int));
        }
        k = k + 1;
    }
    proof {
        assert(chain_starts@.take(k as int) =~= chain_starts@);
    }
    results
}

/// The states in order, each at its first occurrence only.
pub open spec fn unique_states_spec(states: Seq<u32>) -> Seq<u32>
    decreases states.len(),
{
    if states.len() == 0 {
        Seq::empty()
    } else {
        let prev = unique_states_spec(states.drop_last());
        if prev.contains(states.last()) {
            prev
        } else {
            prev.push(states.last())
        }
    }
}

/// `Itertools::unique` collected: the states in order, each kept where it first occurs.
#[verifier::external_body]
fn unique_states(states: &Vec<u32>) -> (r: Vec<u32>)
    ensures
        r@ == unique_states_spec(states@),
{
    states.iter().copied().unique().collect()
}

/// The matches in every zone of memory writes, zone after zone, of the DFA whose
/// transition table is `table`; none where the initial state accepts.
pub open spec fn search_results(
    zones: Seq<RTree<MemWriteSpec>>,
    raw: Seq<u8>,
    initial: u32,
    states: Seq<u32>,
    table: Map<u64, u32>,
    accept: Set<u32>,
) -> Seq<SearchResult>
    decreases zones.len(),
{
    if zones.len() == 0 || accept.contains(initial) {
        Seq::empty()
    } else {
        search_results(zones.drop_last(), raw, initial, states, table, accept) + zone_results(
            zones.last().leaves@,
            raw,
            initial,
            states,
            table,
            accept,
        )
    }
}

/// Search the memory writes of `db` for the byte sequences that `dfa` accepts: partial
/// matches in each leaf, followed from leaf to leaf (see `search_results`). Every result
/// is well formed.
pub fn search_dfa(db: &Db, dfa: &Dfa) -> (r: Vec<SearchResult>)
    requires
        db.write_data_ok(),
        dfa.initial_states@.len() == 1,
    ensures
        r@ == search_results(
            db.write_zones@,
            db.raw_data@,
            dfa.initial_states@[0],
            unique_states_spec(dfa.non_special_states@),
            links_table(dfa.links@),
            dfa.accept_states@.to_set(),
        ),
        all_wf(r@),
{
    let initial_state = dfa.initial_states[0];
    let non_special_states = unique_states(&dfa.non_special_states);
    let accept = build_state_set(&dfa.accept_states);
    let ghost zones = db.write_zones@;
    let ghost raw = db.raw_data@;
    let ghost states = non_special_states@;
    if state_set_contains(&accept, initial_state) {
        return Vec::new();
    }
    let table = build_transition_table(&dfa.links);
    let mut results: Vec<SearchResult> = Vec::new();
    let mut z: usize = 0;
    while z < db.write_zones.len()
        invariant
            z <= zones.len(),
            zones == db.write_zones@,
            raw == db.raw_data@,
            db.write_data_ok(),
            !accept@.contains(initial_state),
            states == non_special_states@,
            results@ == search_results(zones.take(z as int), raw, initial_state, states, table@, accept@),
            all_wf(results@),
        decreases zones.len() - z,
    {
        let zone = &db.write_zones[z];
        let mut found = search_in_zone(db, zone, initial_state, non_special_states.as_slice(), &table, &accept);
        let ghost r0 = results@;
        let ghost f0 = found@;
        results.append(&mut found);
        proof {
            assert forall|k: int| 0 <= k < results@.len() implies (#[trigger] results@[k]).wf() by {
                if k >= r0.len() {
                    assert(results@[k] == f0[k - r0.len()]);
                }
            }
        }
        proof {
            assert(zones.take(z + 1).drop_last() =~= zones.take(z as int));
            assert(zones.take(z + 1).last() == zones[z as int]);
            assert(zones.take(z + 1).len() > 0);
        }
        z = z + 1;
    }
    proof {
        assert(zones.take(z as int) =~= zones);
    }
    results
}

} // verus!
