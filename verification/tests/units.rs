use frinet_db::flat::{Header, Level, MemNode, RTreeList, RegLeaf, RegNode, Section, Zerocopyable};
use frinet_db::index::disjoint::{DataCut, NoData};
use frinet_db::index::pass::{Event, Normalizer};
use frinet_db::index::fill::{sort_along_curve, DataDedup, MaybeInlined};
use frinet_db::index::hilbert_spec::HilbertSpec;
use frinet_db::index::nodes::build_intermediate_nodes_from_sorted_leaves;
use frinet_db::index::parser::MemoryMode;
use frinet_db::index::scout::{insert_node_into_zones, RTreeScout};
use frinet_db::index::tenet::{parse_field, Field, TenetError};
use frinet_db::irange::IRange;
use frinet_db::register::RegSpec;

#[test]
fn irange_from_start_len_and_span() {
    let r = IRange::from_start_len(10u64, 4u64);
    assert_eq!((r.min, r.max), (10, 13));
    assert_eq!(r.span(), 4);
    assert!(r.contains(13));
    assert!(!r.contains(14));
}

#[test]
fn irange_intersection_and_disjoint() {
    let a = IRange::new(1u32, 10u32);
    let b = IRange::new(5u32, 20u32);
    let c = IRange::new(11u32, 12u32);
    let i = a.intersection(&b).unwrap();
    assert_eq!((i.min, i.max), (5, 10));
    assert!(a.intersection(&c).is_none());
    assert!(a.is_disjoint(&c));
    assert!(!a.is_disjoint(&b));
}

#[test]
fn irange_min_distance() {
    let r = IRange::new(10u64, 20u64);
    assert_eq!(r.min_distance(15), 0);
    assert_eq!(r.min_distance(4), 6);
    assert_eq!(r.min_distance(25), 5);
}

fn node(a0: u64, a1: u64, t0: u32, t1: u32) -> MemNode {
    MemNode { addr_min: a0, addr_max: a1, time_min: t0, time_max: t1 }
}

fn area(n: &MemNode) -> u64 {
    (n.addr_max - n.addr_min + 1) * (n.time_max - n.time_min + 1) as u64
}

#[test]
fn fragments_cover_the_difference() {
    let a = node(0, 9, 0, 9);
    let b = node(3, 5, 2, 4);
    let mut fragments = Vec::new();
    a.fragment_by(&b, &mut fragments);
    let total: u64 = fragments.iter().map(area).sum();
    assert_eq!(total, 100 - 9);
    for f in &fragments {
        assert!(f.is_disjoint(&b));
    }
}

#[test]
fn fragment_of_disjoint_is_itself() {
    let a = node(0, 9, 0, 9);
    let b = node(20, 25, 0, 9);
    let mut fragments = Vec::new();
    a.fragment_by(&b, &mut fragments);
    assert_eq!(fragments, vec![a]);
}

#[test]
fn header_encoding_reads_back() {
    let s = |a: u64, b: u64| Section { start: a, end: b };
    let h = Header {
        magic: 1,
        version: 2,
        metadata: s(144, 150),
        data: s(200, 300),
        write_zones: RTreeList { headers: s(1, 2), bboxes: s(3, 4) },
        read_zones: RTreeList { headers: s(5, 6), bboxes: s(7, 8) },
        registers: RTreeList { headers: s(9, 10), bboxes: s(11, 12) },
    };
    let mut out = vec![0xffu8; 3];
    h.write_to(&mut out);
    assert_eq!(out.len(), 3 + Header::size());
    assert_eq!(Header::size(), 144);
    assert_eq!(Header::read_at(&out, 3), h);
    assert_eq!(&out[3..11], &1u64.to_le_bytes());
}

#[test]
fn level_encoding_is_little_endian() {
    let l = Level { offset: 0x0102, size: 7 };
    let mut out = Vec::new();
    l.write_to(&mut out);
    assert_eq!(out, vec![2, 1, 0, 0, 0, 0, 0, 0, 7, 0, 0, 0, 0, 0, 0, 0]);
}

#[test]
fn node_levels_of_five_leaves_by_two() {
    let mut scout = RTreeScout { bbox: RegNode::default(), leaf_count: 5, node_count: 0, levels: Vec::new() };
    scout.compute_node_count_and_levels(1);
    assert_eq!(scout.node_count, 5);
    assert_eq!(scout.levels, vec![Level { offset: 3, size: 2 }, Level { offset: 0, size: 3 }]);
}

#[test]
fn intermediate_nodes_of_five_leaves() {
    let leaves: Vec<RegLeaf> = (0u32..5).map(|t| RegLeaf { value: t as u64 * 10, time_min: t, time_max: t }).collect();
    let nodes = build_intermediate_nodes_from_sorted_leaves::<RegSpec>(1, &leaves);
    assert_eq!(nodes.len(), 5);
    assert_eq!(nodes[0], RegNode { value_min: 0, value_max: 10, time_min: 0, time_max: 1 });
    assert_eq!(nodes[2], RegNode { value_min: 40, value_max: 40, time_min: 4, time_max: 4 });
    assert_eq!(nodes[3], RegNode { value_min: 0, value_max: 30, time_min: 0, time_max: 3 });
    assert_eq!(nodes[4], RegNode { value_min: 40, value_max: 40, time_min: 4, time_max: 4 });
}

#[test]
fn few_leaves_need_no_intermediate_node() {
    let leaves = vec![RegLeaf { value: 1, time_min: 0, time_max: 0 }, RegLeaf { value: 2, time_min: 1, time_max: 1 }];
    assert!(build_intermediate_nodes_from_sorted_leaves::<RegSpec>(1, &leaves).is_empty());
}

#[test]
fn far_zones_stay_apart_near_zones_merge() {
    let mut zones = Vec::new();
    insert_node_into_zones(&mut zones, node(0, 15, 0, 0));
    insert_node_into_zones(&mut zones, node(1 << 40, (1 << 40) + 3, 1, 1));
    assert_eq!(zones.len(), 2);
    insert_node_into_zones(&mut zones, node(100, 200, 2, 2));
    assert_eq!(zones.len(), 2);
    assert_eq!(zones[0].leaf_count + zones[1].leaf_count, 3);
    let first = zones.iter().find(|z| z.bbox.addr_min == 0).unwrap();
    assert_eq!(first.bbox, node(0, 200, 0, 2));
}

#[test]
fn dedup_places_each_string_once() {
    let mut d = DataDedup::new(30);
    let a: Vec<u8> = (0..10).collect();
    let b: Vec<u8> = (10..25).collect();
    assert_eq!(d.insert(&a), Some(0));
    assert_eq!(d.insert(&b), Some(10));
    assert_eq!(d.insert(&a), Some(0));
    assert_eq!(d.bytes_used(), 25);
    assert_eq!(d.insert(&[1u8; 9]), None);
    assert_eq!(&d.section_exec()[10..25], &b[..]);
}

#[test]
fn inline_data_is_padded_and_packed() {
    let d = MaybeInlined::inline(&[1, 2, 3]);
    match d {
        MaybeInlined::Inline { len, data } => {
            assert_eq!(len, 3);
            assert_eq!(data, [1, 2, 3, 0, 0, 0, 0, 0]);
        },
        _ => panic!("inline expected"),
    }
    assert_eq!(d.packed(), 0x030201);
    assert_eq!(MaybeInlined::Outline { offset: 77, len: 12 }.packed(), 77);
}

#[test]
fn cut_data_moves_offset_or_inlines() {
    let d = MaybeInlined::Outline { offset: 10, len: 12 };
    let kept9 = [5u8; 9];
    match d.cut(2, 1, &kept9) {
        MaybeInlined::Outline { offset, len } => assert_eq!((offset, len), (12, 9)),
        _ => panic!("outline expected"),
    }
    let kept4 = [9u8, 8, 7, 6];
    match d.cut(3, 5, &kept4) {
        MaybeInlined::Inline { len, data } => {
            assert_eq!(len, 4);
            assert_eq!(data, [9, 8, 7, 6, 0, 0, 0, 0]);
        },
        _ => panic!("inline expected"),
    }
}

#[test]
fn tenet_fields() {
    let mut hex = Vec::new();
    let mw = b"mw=0x1000:aabb";
    match parse_field(mw, 0, 2, mw.len(), &mut hex) {
        Ok(Field::Memory { mode: MemoryMode::Write, addr }) => assert_eq!(addr, 0x1000),
        _ => panic!("memory field expected"),
    }
    assert_eq!(hex, vec![0xaa, 0xbb]);
    let rax = b"rax=0xfF";
    match parse_field(rax, 0, 3, rax.len(), &mut hex) {
        Ok(Field::Register { name, value }) => assert_eq!((name, value), ("rax", 255)),
        _ => panic!("register field expected"),
    }
    let slide = b"slide=0x10";
    assert!(matches!(parse_field(slide, 0, 5, slide.len(), &mut hex), Ok(Field::Slide(16))));
}

#[test]
fn tenet_field_errors() {
    let mut hex = Vec::new();
    let bad_number = b"rax=0xzz";
    assert!(matches!(parse_field(bad_number, 0, 3, bad_number.len(), &mut hex), Err(TenetError::InvalidNumber)));
    let bad_hex = b"mr=0x10:abc";
    assert!(matches!(parse_field(bad_hex, 0, 2, bad_hex.len(), &mut hex), Err(TenetError::InvalidHex)));
    let no_colon = b"mrw=0x10";
    assert!(matches!(parse_field(no_colon, 0, 3, no_colon.len(), &mut hex), Err(TenetError::Malformed)));
    let short = b"r=0";
    assert!(matches!(parse_field(short, 0, 1, short.len(), &mut hex), Err(TenetError::Malformed)));
    let utf8 = b"r\xff=0x1";
    assert!(matches!(parse_field(utf8, 0, 2, utf8.len(), &mut hex), Err(TenetError::InvalidUtf8)));
}

#[test]
fn leaves_sorted_along_the_curve() {
    let bbox = RegNode { value_min: 0, value_max: 1000, time_min: 0, time_max: 1000 };
    let leaves = vec![
        RegLeaf { value: 1000, time_min: 1000, time_max: 1000 },
        RegLeaf { value: 0, time_min: 0, time_max: 0 },
        RegLeaf { value: 1000, time_min: 0, time_max: 0 },
        RegLeaf { value: 0, time_min: 1000, time_max: 1000 },
    ];
    let keys: Vec<u128> = leaves.iter().map(|l| RegSpec::hilbert_key(l, &bbox)).collect();
    let mut distinct = keys.clone();
    distinct.sort();
    distinct.dedup();
    assert_eq!(distinct.len(), 4);
    let sorted = sort_along_curve::<RegSpec>(&leaves, &bbox);
    let sorted_keys: Vec<u128> = sorted.iter().map(|l| RegSpec::hilbert_key(l, &bbox)).collect();
    assert_eq!(sorted_keys, distinct);
    assert!(RegSpec::hilbert_partition_key(&leaves[0], &bbox) != RegSpec::hilbert_partition_key(&leaves[1], &bbox));
}

#[test]
fn register_leaves_cover_time_with_last_value() {
    let mut n: Normalizer<NoData> = Normalizer::new();
    let mut out: Vec<Event<NoData>> = Vec::new();
    n.push_register(1, 0, 5, &mut out);
    n.push_register(3, 0, 7, &mut out);
    n.push_register(3, 0, 9, &mut out);
    n.push_register(6, 0, 5, &mut out);
    n.push_register(8, 0, 2, &mut out);
    n.finish(&mut out);
    let leaves: Vec<(u64, u32, u32)> = out
        .iter()
        .filter_map(|e| match e {
            Event::Register { idx: 0, leaf } => Some((leaf.value, leaf.time_min, leaf.time_max)),
            _ => None,
        })
        .collect();
    assert_eq!(leaves, vec![(5, 1, 2), (9, 3, 5), (5, 6, 7), (2, 8, 8)]);
}
