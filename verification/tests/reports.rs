//! Tests for the aggregated symbol map, the diff engine, the batch search
//! and the containment checker.

use symtool::common::{collect_map, AggregatedSymbolMap, MapEntry};
use symtool::contains::{contains_matches, parse_nm_line};
use symtool::diff::{sort_by_delta, total_delta, DiffRecord, Differ};
use symtool::model::{SectionRef, SymbolRecord};
use symtool::search::{sort_by_size, total_size, Filter};

fn text_sym(name: &str, address: u64, size: u64) -> SymbolRecord {
    SymbolRecord {
        index: 0,
        name: name.as_bytes().to_vec(),
        name_ok: true,
        address,
        size,
        is_text: true,
        global: true,
        section: SectionRef::Defined(1),
    }
}

fn map_of(entries: Vec<(&str, u64, u64)>) -> AggregatedSymbolMap {
    AggregatedSymbolMap {
        entries: entries
            .into_iter()
            .map(|(n, a, s)| MapEntry { name: n.as_bytes().to_vec(), address: a, size: s })
            .collect(),
    }
}

fn lookup(m: &AggregatedSymbolMap, name: &str) -> Option<(u64, u64)> {
    m.entries
        .iter()
        .find(|e| e.name == name.as_bytes())
        .map(|e| (e.address, e.size))
}

#[test]
fn aggregation_merges_duplicates_by_summing_size() {
    let syms = vec![text_sym("dup", 0x100, 16), text_sym("one", 0x200, 8), text_sym("dup", 0x100, 4)];
    let m = collect_map(&syms, false).unwrap();
    assert_eq!(lookup(&m, "dup"), Some((0x100, 20)));
    assert_eq!(lookup(&m, "one"), Some((0x200, 8)));
    assert_eq!(m.len(), 2);
}

#[test]
fn aggregation_is_order_independent_per_name() {
    let a = vec![text_sym("x", 1, 10), text_sym("y", 2, 20), text_sym("x", 1, 5)];
    let b = vec![text_sym("x", 1, 5), text_sym("x", 1, 10), text_sym("y", 2, 20)];
    let ma = collect_map(&a, false).unwrap();
    let mb = collect_map(&b, false).unwrap();
    for name in ["x", "y"] {
        assert_eq!(lookup(&ma, name), lookup(&mb, name));
    }
}

#[test]
fn aggregation_demangles_names() {
    // A legacy-mangled Rust symbol aggregates under its demangled form with
    // the hash suffix dropped.
    let syms = vec![text_sym("_ZN4core3fmt5write17h01234567890abcdeE", 0x40, 7)];
    let m = collect_map(&syms, false).unwrap();
    assert_eq!(lookup(&m, "core::fmt::write"), Some((0x40, 7)));
}

#[test]
fn aggregation_coalesces_outlined_fragments_only_when_asked() {
    let syms = vec![
        text_sym("OUTLINED_FUNCTION_0", 0x10, 4),
        text_sym("OUTLINED_FUNCTION_1", 0x20, 6),
    ];
    let plain = collect_map(&syms, false).unwrap();
    assert_eq!(plain.len(), 2);
    let folded = collect_map(&syms, true).unwrap();
    assert_eq!(folded.len(), 1);
    assert_eq!(lookup(&folded, "OUTLINED_FUNCTION_"), Some((0x10, 10)));
}

fn diff_pairs(r: &[DiffRecord]) -> Vec<(Vec<u8>, u64, u64, u64, u64)> {
    let mut v: Vec<_> = r
        .iter()
        .map(|d| (d.name.clone(), d.old_addr, d.old_size, d.new_addr, d.new_size))
        .collect();
    v.sort();
    v
}

#[test]
fn diff_reports_growth_with_delta() {
    // `foo` at 0x1000: size 64 in "old", 96 in "new" — one record, delta +32.
    let old = map_of(vec![("foo", 0x1000, 64)]);
    let new = map_of(vec![("foo", 0x1000, 96)]);
    let records = Differ(&old, &new, true).for_each();
    assert_eq!(records.len(), 1);
    let d = &records[0];
    assert_eq!(d.name, b"foo".to_vec());
    assert_eq!((d.old_addr, d.new_addr), (0x1000, 0x1000));
    assert_eq!((d.old_size, d.new_size), (64, 96));
    let delta = d.new_size as i64 - d.old_size as i64;
    assert_eq!(delta, 32);
    let total: i64 = records.iter().map(|d| d.new_size as i64 - d.old_size as i64).sum();
    assert_eq!(total, 32);
    assert_eq!(total_delta(&records).unwrap(), 32);
}

#[test]
fn diff_sorts_by_signed_delta() {
    let old = map_of(vec![("shrunk", 1, 100), ("grown", 2, 10), ("gone", 3, 7)]);
    let new = map_of(vec![("shrunk", 1, 40), ("grown", 2, 90)]);
    let records = sort_by_delta(Differ(&old, &new, true).for_each());
    let deltas: Vec<i64> =
        records.iter().map(|d| d.new_size as i64 - d.old_size as i64).collect();
    assert_eq!(deltas, vec![-60, -7, 80]);
    assert_eq!(total_delta(&records).unwrap(), 13);
}

#[test]
fn diff_reports_vanished_and_added_buckets() {
    let old = map_of(vec![("gone", 0x10, 4), ("same", 0x20, 8)]);
    let new = map_of(vec![("same", 0x20, 8), ("fresh", 0x30, 2)]);
    let two_way = diff_pairs(&Differ(&old, &new, true).for_each());
    assert_eq!(
        two_way,
        vec![
            (b"fresh".to_vec(), 0, 0, 0x30, 2),
            (b"gone".to_vec(), 0x10, 4, 0, 0),
        ]
    );
    let one_way = diff_pairs(&Differ(&old, &new, false).for_each());
    assert_eq!(one_way, vec![(b"gone".to_vec(), 0x10, 4, 0, 0)]);
}

#[test]
fn diff_is_antisymmetric_under_swapping() {
    let a = map_of(vec![("p", 1, 10), ("q", 2, 20), ("r", 3, 30)]);
    let b = map_of(vec![("q", 2, 25), ("r", 3, 30), ("s", 4, 40)]);
    let forward = Differ(&a, &b, true).for_each();
    let backward = Differ(&b, &a, true).for_each();
    // Swapping every record of diff(a, b) — which negates its size delta —
    // yields exactly the record set of diff(b, a).
    let mut swapped: Vec<_> = forward
        .iter()
        .map(|d| (d.name.clone(), d.new_addr, d.new_size, d.old_addr, d.old_size))
        .collect();
    swapped.sort();
    assert_eq!(swapped, diff_pairs(&backward));
}

#[test]
fn batch_search_filters_and_sorts() {
    let obj = symtool::model::ObjectView {
        name: b"a.o".to_vec(),
        arch: b"X86_64".to_vec(),
        format: symtool::model::FormatKind::Elf,
        has_debug_symbols: true,
        has_symbol_table: true,
        sections: Vec::new(),
        symbols: vec![
            text_sym("alpha_big", 0x10, 30),
            text_sym("beta", 0x20, 5),
            text_sym("alpha_small", 0x30, 1),
        ],
    };
    let keywords = vec![b"alpha".to_vec()];
    let items = Filter::new(&obj, &keywords).for_each().unwrap();
    assert_eq!(items.len(), 2);
    assert_eq!(items[0].name, b"alpha_big".to_vec());
    let sorted = sort_by_size(items);
    assert_eq!(sorted[0].name, b"alpha_small".to_vec());
    assert_eq!(sorted[1].name, b"alpha_big".to_vec());
    assert_eq!(total_size(&sorted).unwrap(), 31);
    // Without keywords every text symbol matches.
    let none: Vec<Vec<u8>> = Vec::new();
    let all = Filter::new(&obj, &none).for_each().unwrap();
    assert_eq!(all.len(), 3);
}

#[test]
fn nm_lines_parse_by_kind_and_name() {
    assert_eq!(parse_nm_line(b""), None);
    assert_eq!(parse_nm_line(b"   "), None);
    assert_eq!(parse_nm_line(b"../skip me t foo"), None);
    assert_eq!(parse_nm_line(b"0000000000000010 d data_sym"), None);
    assert_eq!(parse_nm_line(b"0000000000000010 t"), None);
    assert_eq!(parse_nm_line(b"0000000000000010 t plain"), Some(b"plain".to_vec()));
    assert_eq!(
        parse_nm_line(b"0000000000000020 T _ZN4core3fmt5write17h01234567890abcdeE"),
        Some(b"core::fmt::write".to_vec())
    );
}

#[test]
fn containment_reports_only_wanted_symbols() {
    let obj = symtool::model::ObjectView {
        name: b"a.o".to_vec(),
        arch: b"X86_64".to_vec(),
        format: symtool::model::FormatKind::Elf,
        has_debug_symbols: true,
        has_symbol_table: true,
        sections: Vec::new(),
        symbols: vec![text_sym("keep_me", 0x10, 3), text_sym("drop_me", 0x20, 4)],
    };
    let wanted = vec![b"keep_me".to_vec(), b"unrelated".to_vec()];
    let items = contains_matches(&obj, &wanted).unwrap();
    assert_eq!(items.len(), 1);
    assert_eq!(items[0], (b"keep_me".to_vec(), 0x10, 3));
}
