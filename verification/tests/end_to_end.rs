use frinet_db::flat::{Header, RegNode, Zerocopyable};
use frinet_db::index::tenet::TenetError;
use frinet_db::snapshot::compute_all_register_snapshots;
use frinet_db::{DB_MAGIC, DB_VERSION};
use frinet_db::db::{sections_in_bounds, Db, LoadError, Metadata, RegIntersects};
use frinet_db::index::drive::{build_index, IndexError};
use frinet_db::index::parser::{MemoryMode, RawEvent, StaticEventList, TimedRawEvent};
use frinet_db::index::tenet::TenetParser;
use frinet_db::irange::IRange;

fn reg(time: u32, name: &str, value: u64) -> RawEvent<'_> {
    RawEvent::TimedEvent { time, event: TimedRawEvent::Register { name, value } }
}

fn mem(time: u32, addr: u64, bytes: &[u8], mode: MemoryMode) -> RawEvent<'_> {
    RawEvent::TimedEvent { time, event: TimedRawEvent::Memory { addr, bytes, mode } }
}

fn index(events: Vec<RawEvent<'_>>) -> Vec<u8> {
    let mut parser = StaticEventList { events };
    build_index(&mut parser, &mut (), 2).unwrap()
}

fn load<'s>(storage: &'s [u8], names: &[&str]) -> Db<'s> {
    assert!(sections_in_bounds(storage));
    let metadata = Metadata { alsr_slide: None, register_names: names.iter().map(|s| s.to_string()).collect() };
    let db = Db::from_aligned_slice(storage, metadata).unwrap();
    assert!(db.trees_checked());
    db
}

#[test]
fn register_values_read_back() {
    let storage = index(vec![reg(1, "reg", 5), reg(3, "reg", 7), reg(3, "reg", 9), reg(6, "reg", 5)]);
    let db = load(&storage, &["reg"]);
    let r = db.register_rtree_by_name("reg").unwrap();
    assert_eq!(r.value_at(0), None);
    assert_eq!(r.value_at(1), Some(5));
    assert_eq!(r.value_at(2), Some(5));
    assert_eq!(r.value_at(3), Some(9));
    assert_eq!(r.value_at(5), Some(9));
    assert_eq!(r.value_at(6), Some(5));
    assert_eq!(r.value_at(7), None);
}

#[test]
fn register_times_with_value() {
    let storage = index(vec![reg(1, "reg", 5), reg(3, "reg", 7), reg(3, "reg", 9), reg(6, "reg", 5)]);
    let db = load(&storage, &["reg"]);
    let r = db.register_rtree_by_name("reg").unwrap();
    assert_eq!(r.first_time_with(5u64), Some(1));
    assert_eq!(r.last_time_with(5u64), Some(6));
    assert_eq!(r.first_time_with(7u64), None);
    assert_eq!(r.next_time_with(1, 5u64), Some(6));
    assert_eq!(r.prev_time_with(6, 9u64), Some(3));
    assert_eq!(r.prev_time_with(3, 5u64), Some(1));
    assert_eq!(r.next_time_with(6, 5u64), None);
    assert!(db.register_rtree_by_name("other").is_none());
}

#[test]
fn memory_bytes_read_back() {
    let first: Vec<u8> = (0u8..16).collect();
    let second = [0xaau8, 0xbb];
    let storage = index(vec![
        mem(1, 0x1000, &first, MemoryMode::Write),
        mem(2, 0x1004, &second, MemoryMode::Write),
        reg(3, "pc", 1),
    ]);
    let db = load(&storage, &["pc"]);
    let at1 = db.fetch_at::<Vec<Option<u8>>, Option<u8>>(IRange::new(0x1000, 0x1007), 1);
    assert!(at1.is_complete);
    let want1: Vec<Option<u8>> = (0u8..8).map(Some).collect();
    assert_eq!(at1.array, want1);
    let at2 = db.fetch_at::<Vec<Option<u8>>, Option<u8>>(IRange::new(0x1000, 0x1007), 2);
    assert!(at2.is_complete);
    assert_eq!(at2.array, vec![Some(0), Some(1), Some(2), Some(3), Some(0xaa), Some(0xbb), Some(6), Some(7)]);
    let tail = db.fetch_at::<Vec<Option<u8>>, Option<u8>>(IRange::new(0x1008, 0x100f), 2);
    assert_eq!(tail.array, (8u8..16).map(Some).collect::<Vec<_>>());
    // open writes are closed at the time of the last memory write
    let later = db.fetch_at::<Vec<Option<u8>>, Option<u8>>(IRange::new(0x1008, 0x100f), 3);
    assert!(!later.is_complete);
}

#[test]
fn memory_unknown_bytes_are_missing() {
    let bytes = [1u8, 2, 3];
    let storage = index(vec![mem(4, 0x2000, &bytes, MemoryMode::Write), reg(4, "pc", 0)]);
    let db = load(&storage, &["pc"]);
    let before = db.fetch_at::<Vec<Option<u8>>, Option<u8>>(IRange::new(0x2000, 0x2002), 3);
    assert!(!before.is_complete);
    assert_eq!(before.array, vec![None, None, None]);
    let after = db.fetch_at::<Vec<Option<u8>>, Option<u8>>(IRange::new(0x1fff, 0x2001), 4);
    assert!(!after.is_complete);
    assert_eq!(after.array, vec![None, Some(1), Some(2)]);
}

#[test]
fn repeated_long_writes_share_data() {
    let long = [7u8; 20];
    let storage = index(vec![
        mem(1, 0x3000, &long, MemoryMode::Write),
        mem(2, 0x3000, &long, MemoryMode::Write),
        mem(3, 0x4000, &long, MemoryMode::Write),
        reg(3, "pc", 0),
    ]);
    let db = load(&storage, &["pc"]);
    assert!(db.raw_data.len() <= 20);
    let fetched = db.fetch_at::<Vec<Option<u8>>, Option<u8>>(IRange::new(0x4000, 0x4013), 3);
    assert_eq!(fetched.array, vec![Some(7u8); 20]);
}

#[test]
fn time_going_back_is_refused() {
    let mut parser = StaticEventList { events: vec![reg(5, "a", 1), reg(4, "a", 2)] };
    assert_eq!(build_index(&mut parser, &mut (), 2), Err(IndexError::TimeBackwards));
}

#[test]
fn empty_access_is_refused() {
    let mut parser = StaticEventList { events: vec![mem(1, 0x10, &[], MemoryMode::Write)] };
    assert_eq!(build_index(&mut parser, &mut (), 2), Err(IndexError::EmptyAccess));
}

#[test]
fn tenet_trace_is_indexed() {
    let trace = b"rip=0x10,rax=0x1\nrip=0x11,mw=0x1000:aabbccdd\nrip=0x12,rax=0x2\n";
    let mut parser = TenetParser::new(trace);
    let storage = build_index(&mut parser, &mut (), 2).unwrap();
    assert!(parser.error.is_none());
    let db = load(&storage, &["rip", "rax"]);
    let rip = db.register_rtree_by_name("rip").unwrap();
    assert_eq!(rip.value_at(0), Some(0x10));
    assert_eq!(rip.value_at(1), Some(0x11));
    assert_eq!(rip.value_at(2), Some(0x12));
    let rax = db.register_rtree_by_name("rax").unwrap();
    assert_eq!(rax.value_at(1), Some(1));
    assert_eq!(rax.value_at(3), Some(2));
    let bytes = db.fetch_at::<Vec<Option<u8>>, Option<u8>>(IRange::new(0x1000, 0x1003), 2);
    assert_eq!(bytes.array, vec![Some(0xaa), Some(0xbb), Some(0xcc), Some(0xdd)]);
}

#[test]
fn register_snapshots_at_a_time() {
    let storage = index(vec![reg(1, "a", 5), reg(2, "b", 7), reg(4, "a", 6), reg(5, "b", 8)]);
    let db = load(&storage, &["a", "b"]);
    let snaps = compute_all_register_snapshots(&db, 4);
    assert_eq!(snaps.len(), 2);
    assert_eq!(snaps[0].value, Some(6));
    assert!(snaps[0].has_just_changed);
    assert_eq!(snaps[0].prev_time, Some(3));
    assert_eq!(snaps[1].value, Some(7));
    assert!(!snaps[1].has_just_changed);
    assert_eq!(snaps[1].next_time, Some(5));
}

#[test]
fn tenet_parse_stops_at_a_bad_field() {
    let trace = b"rip=0x10\nrax=0xzz\nrip=0x11\n";
    let mut parser = TenetParser::new(trace);
    let _ = build_index(&mut parser, &mut (), 2);
    assert_eq!(parser.error, Some(TenetError::InvalidNumber));
}

#[test]
fn indexed_file_has_the_header() {
    let storage = index(vec![reg(1, "r", 1), reg(2, "r", 2)]);
    let header = Header::read_at(&storage, 0);
    assert_eq!(header.magic, DB_MAGIC);
    assert_eq!(header.version, DB_VERSION);
    assert_eq!(header.data.end as usize, storage.len());
    let json = Db::metadata_json(&storage).unwrap();
    assert_eq!(json, br#"{"alsr_slide":null,"register_names":["r"]}"#);
}

#[test]
fn access_past_the_last_address_is_refused() {
    let mut parser = StaticEventList { events: vec![mem(1, u64::MAX - 1, &[1, 2, 3], MemoryMode::Write)] };
    assert_eq!(build_index(&mut parser, &mut (), 2), Err(IndexError::AddressOverflow));
}

#[test]
fn loading_checks_magic_and_version() {
    let storage = index(vec![reg(1, "r", 1)]);
    let mut bad_magic = storage.clone();
    bad_magic[0] ^= 0xff;
    assert!(sections_in_bounds(&bad_magic));
    let metadata = Metadata { alsr_slide: None, register_names: vec!["r".to_string()] };
    assert_eq!(Db::from_aligned_slice(&bad_magic, metadata.clone()).err(), Some(LoadError::InvalidMagic));
    let mut bad_version = storage.clone();
    bad_version[8] = 7;
    assert_eq!(
        Db::from_aligned_slice(&bad_version, metadata.clone()).err(),
        Some(LoadError::InvalidVersion { got: 7, expected: DB_VERSION })
    );
    let short = &storage[..100];
    assert_eq!(Db::from_aligned_slice(short, metadata).err(), Some(LoadError::Corrupted));
}

#[test]
fn read_accesses_are_indexed() {
    let bytes = [9u8, 8];
    let storage = index(vec![mem(3, 0x5000, &bytes, MemoryMode::Read), mem(4, 0x5000, &bytes, MemoryMode::ReadWrite), reg(5, "pc", 0)]);
    let db = load(&storage, &["pc"]);
    assert_eq!(db.read_zones.len(), 1);
    assert_eq!(db.read_zones[0].leaves.len(), 2);
    assert_eq!(db.next_mem_read(0, 0x5001u64), Some(3));
    assert_eq!(db.prev_mem_read(5, 0x5000u64), Some(4));
    // a read that finds the bytes it reads already written is no write
    let fetched = db.fetch_at::<Vec<Option<u8>>, Option<u8>>(IRange::new(0x5000, 0x5001), 3);
    assert_eq!(fetched.array, vec![Some(9), Some(8)]);
}

#[test]
fn valid_time_range_of_an_incomplete_fetch_ends_before_the_next_write() {
    let storage = index(vec![
        mem(1, 0x1000, b"abc", MemoryMode::Write),
        mem(5, 0x1003, b"x", MemoryMode::Write),
        reg(6, "pc", 1),
    ]);
    let db = load(&storage, &["pc"]);
    let partial = db.fetch_at::<Vec<Option<u8>>, Option<u8>>(IRange::new(0x1000, 0x1003), 2);
    assert!(!partial.is_complete);
    assert_eq!(partial.array, vec![Some(b'a'), Some(b'b'), Some(b'c'), None]);
    assert_eq!((partial.valid_time_range.min, partial.valid_time_range.max), (1, 4));
    let whole = db.fetch_at::<Vec<Option<u8>>, Option<u8>>(IRange::new(0x1000, 0x1002), 2);
    assert!(whole.is_complete);
    assert_eq!((whole.valid_time_range.min, whole.valid_time_range.max), (1, 5));
}

#[test]
fn truncated_file_is_corrupted() {
    let storage = index(vec![mem(1, 0x1000, b"abc", MemoryMode::Write), reg(2, "pc", 1)]);
    let cut = &storage[..144];
    let metadata = Metadata { alsr_slide: None, register_names: vec!["pc".to_string()] };
    assert!(matches!(Db::from_aligned_slice(cut, metadata), Err(LoadError::Corrupted)));
}

#[test]
fn built_trees_have_levels_only_above_one_node() {
    // nodes hold 4 entries (order 2): three register leaves need no node level
    let few = index(vec![reg(1, "reg", 5), reg(3, "reg", 7), reg(6, "reg", 5)]);
    let db = load(&few, &["reg"]);
    let r = db.register_rtree_by_name("reg").unwrap();
    assert_eq!(r.leaves.len(), 3);
    assert!(r.root_nodes().is_none());
    assert_eq!(r.depth(), 0);
    // nine leaves need one level of three nodes, which is the root level
    let events: Vec<_> = (0..9u32).map(|t| reg(t, "reg", t as u64)).collect();
    let many = index(events);
    let db = load(&many, &["reg"]);
    let r = db.register_rtree_by_name("reg").unwrap();
    assert_eq!(r.leaves.len(), 9);
    assert_eq!(r.depth(), 1);
    assert_eq!(r.root_nodes().unwrap().len(), 3);
}

#[test]
fn register_found_only_when_written() {
    let storage = index(vec![reg(1, "pc", 1), mem(2, 0x10, b"a", MemoryMode::Write)]);
    let db = load(&storage, &["pc"]);
    assert!(db.register_rtree_by_name("pc").is_some());
    assert!(db.register_rtree_by_name("sp").is_none());
}

#[test]
fn misshapen_tree_is_found() {
    let events: Vec<_> = (0..9u32).map(|t| reg(t, "reg", t as u64)).collect();
    let storage = index(events);
    let mut db = load(&storage, &["reg"]);
    assert!(db.registers[0].shape_and_items_ok());
    // a level with no node above the leaves breaks the packed shape
    db.registers[0].node_levels.push(Vec::new());
    assert!(!db.registers[0].shape_and_items_ok());
    assert!(!db.trees_checked());
}

#[test]
fn successive_next_calls_walk_the_hits_in_order() {
    let events: Vec<_> = (0..9u32).map(|t| reg(t, "reg", t as u64)).collect();
    let storage = index(events);
    let db = load(&storage, &["reg"]);
    let r = db.register_rtree_by_name("reg").unwrap();
    let rect = RegNode { value_min: 2, value_max: 5, time_min: 0, time_max: u32::MAX };
    let mut it = r.query(RegIntersects::new(rect));
    let mut values = Vec::new();
    while let Some(leaf) = it.next() {
        values.push(leaf.value);
    }
    assert_eq!(values, vec![2, 3, 4, 5]);
    assert!(it.next().is_none());
}

#[test]
fn metadata_holds_the_slide_and_the_names_in_order() {
    let events = vec![RawEvent::AslrSlide(0x1000), reg(1, "pc", 1), reg(2, "r\"x", 2), reg(3, "pc", 3)];
    let mut parser = StaticEventList { events };
    let storage = build_index(&mut parser, &mut (), 2).unwrap();
    let json = Db::metadata_json(&storage).unwrap();
    assert_eq!(json, br#"{"alsr_slide":4096,"register_names":["pc","r\"x"]}"#);
}

#[test]
fn tree_whose_box_misses_its_nodes_is_found() {
    let events: Vec<_> = (0..9u32).map(|t| reg(t, "reg", t as u64)).collect();
    let storage = index(events);
    let mut db = load(&storage, &["reg"]);
    assert!(db.registers[0].wf_checked());
    db.registers[0].bbox = RegNode { value_min: 0, value_max: 0, time_min: 0, time_max: 0 };
    assert!(db.registers[0].shape_and_items_ok());
    assert!(!db.registers[0].wf_checked());
    assert!(!db.trees_checked());
}

#[test]
fn register_queries_answer_the_writes_indexed() {
    // times with repeats, values from a small set, in time order
    let mut writes: Vec<(u32, u64)> = Vec::new();
    let mut t: u32 = 2;
    let mut seed: u64 = 7;
    for _ in 0..40 {
        seed = seed.wrapping_mul(6364136223846793005).wrapping_add(1442695040888963407);
        t += ((seed >> 33) % 3) as u32;
        writes.push((t, (seed >> 40) % 4));
    }
    let events: Vec<_> = writes.iter().map(|&(t, v)| reg(t, "reg", v)).collect();
    let storage = index(events);
    let db = load(&storage, &["reg"]);
    let r = db.register_rtree_by_name("reg").unwrap();
    let first = writes[0].0;
    let end = writes.last().unwrap().0;
    let last_at = |time: u32| writes.iter().filter(|w| w.0 <= time).last().map(|w| w.1);
    for time in 0..end + 3 {
        let expected = if time < first || time > end { None } else { last_at(time) };
        assert_eq!(r.value_at(time), expected, "value at {time}");
    }
    // the last write of each time
    let mut last: Vec<(u32, u64)> = Vec::new();
    for &(t, v) in &writes {
        if let Some(l) = last.last_mut() {
            if l.0 == t {
                l.1 = v;
                continue;
            }
        }
        last.push((t, v));
    }
    for v in 0..5u64 {
        let times: Vec<u32> = last.iter().filter(|w| w.1 == v).map(|w| w.0).collect();
        assert_eq!(r.first_time_with(v), times.first().copied());
        assert_eq!(r.last_time_with(v), times.last().copied());
        for time in 0..end + 3 {
            assert_eq!(r.next_time_with(time, v), times.iter().copied().filter(|&x| x > time).min());
            assert_eq!(r.prev_time_with(time, v), times.iter().copied().filter(|&x| x < time).max());
        }
    }
}
