use frinet_db::db::{sections_in_bounds, Db, Metadata};
use frinet_db::index::drive::build_index;
use frinet_db::index::parser::{MemoryMode, RawEvent, StaticEventList, TimedRawEvent};
use frinet_db::irange::IRange;
use frinet_db::search::{
    build_state_set, build_transition_table, execute_dfa, search_dfa, Chain, ChainHalf, Dfa, DfaLink, Handle,
    SearchResult,
};

fn write(time: u32, addr: u64, bytes: &[u8]) -> RawEvent<'_> {
    RawEvent::TimedEvent { time, event: TimedRawEvent::Memory { addr, bytes, mode: MemoryMode::Write } }
}

fn pc(time: u32) -> RawEvent<'static> {
    RawEvent::TimedEvent { time, event: TimedRawEvent::Register { name: "pc", value: 0 } }
}

fn index(events: Vec<RawEvent<'_>>) -> Vec<u8> {
    let mut parser = StaticEventList { events };
    build_index(&mut parser, &mut (), 2).unwrap()
}

fn load(storage: &[u8]) -> Db<'_> {
    assert!(sections_in_bounds(storage));
    let metadata = Metadata { alsr_slide: None, register_names: vec!["pc".to_string()] };
    Db::from_aligned_slice(storage, metadata).unwrap()
}

/// The DFA of a literal byte string: state `i` has read its first `i` bytes.
fn literal_dfa(needle: &[u8]) -> Dfa {
    let n = needle.len() as u32;
    Dfa {
        initial_states: vec![0],
        accept_states: vec![n],
        non_special_states: (1..n).collect(),
        links: needle.iter().enumerate().map(|(i, b)| DfaLink { from: i as u32, symbol: *b, to: i as u32 + 1 }).collect(),
    }
}

#[test]
fn execute_dfa_stops_at_accept_or_end() {
    let dfa = literal_dfa(b"llo");
    let table = build_transition_table(&dfa.links);
    let accept = build_state_set(&dfa.accept_states);
    assert_eq!(execute_dfa(b"llo!", 0, &table, &accept), Some((Handle::Tip, 2)));
    assert_eq!(execute_dfa(b"ll", 0, &table, &accept), Some((Handle::State(2), 1)));
    assert_eq!(execute_dfa(b"lx", 0, &table, &accept), None);
    assert_eq!(execute_dfa(b"o", 2, &table, &accept), Some((Handle::Tip, 0)));
}

#[test]
fn connect_joins_addresses_where_times_meet() {
    let a = ChainHalf { to: Handle::State(2), addr_range: IRange::new(0x10, 0x13), time_range: IRange::new(1, 5) };
    let b = ChainHalf { to: Handle::Tip, addr_range: IRange::new(0x14, 0x20), time_range: IRange::new(4, 9) };
    let c = a.connect(&b).unwrap();
    assert_eq!(c.to, Handle::Tip);
    assert_eq!((c.addr_range.min, c.addr_range.max), (0x10, 0x20));
    assert_eq!((c.time_range.min, c.time_range.max), (4, 5));
    let late = ChainHalf { to: Handle::Tip, addr_range: IRange::new(0x14, 0x20), time_range: IRange::new(6, 9) };
    assert!(a.connect(&late).is_none());
    let chain = Chain { from: 2, half: b };
    let key = chain.key();
    assert_eq!((key.state, key.addr_start, key.time_start), (2, 0x14, 4));
}

#[test]
fn literal_found_in_one_write() {
    let storage = index(vec![write(1, 0x1000, b"hello world"), pc(2)]);
    let db = load(&storage);
    let found = search_dfa(&db, &literal_dfa(b"world"));
    assert_eq!(found, vec![SearchResult { addr_min: 0x1006, addr_max: 0x100a, time_min: 1, time_max: 1 }]);
    assert!(search_dfa(&db, &literal_dfa(b"worlds")).is_empty());
}

#[test]
fn literal_found_across_leaves_while_its_bytes_hold() {
    let storage = index(vec![write(1, 0x1000, b"hello world"), write(2, 0x1002, b"xx"), pc(3)]);
    let db = load(&storage);
    let found = search_dfa(&db, &literal_dfa(b"llo"));
    assert_eq!(found, vec![SearchResult { addr_min: 0x1002, addr_max: 0x1004, time_min: 1, time_max: 1 }]);
    let found = search_dfa(&db, &literal_dfa(b"xxo"));
    assert_eq!(found, vec![SearchResult { addr_min: 0x1002, addr_max: 0x1004, time_min: 2, time_max: 2 }]);
}

#[test]
fn accepting_initial_state_finds_nothing() {
    let storage = index(vec![write(1, 0x1000, b"abc"), pc(2)]);
    let db = load(&storage);
    let dfa = Dfa { initial_states: vec![0], accept_states: vec![0], non_special_states: vec![], links: vec![] };
    assert!(search_dfa(&db, &dfa).is_empty());
}
