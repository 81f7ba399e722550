//! Scenario tests for the resolution engine: extent resolution, the section
//! data cache, and the relocation range query, on synthetic objects.

use symtool::command::{run_command, CommandOutput};
use symtool::errors::Error;
use symtool::link::{Cache, Explorer, RelocationTarget};
use symtool::model::{
    CompressionKind, FormatKind, LoadedSet, ObjectView, RelocRecord, RelocTargetKind,
    SectionClass, SectionRecord, SectionRef, SymbolPosition,
};

fn section(index: usize, name: &str, address: u64, size: u64, data: Vec<u8>) -> SectionRecord {
    let uncompressed_size = data.len() as u64;
    SectionRecord {
        index,
        name: name.as_bytes().to_vec(),
        name_ok: true,
        address,
        size,
        class: SectionClass::Text,
        compression: CompressionKind::Plain,
        uncompressed_size,
        data,
        relocs: Vec::new(),
    }
}

fn symbol(index: usize, name: &str, address: u64, size: u64, sec: usize) -> symtool::model::SymbolRecord {
    symtool::model::SymbolRecord {
        index,
        name: name.as_bytes().to_vec(),
        name_ok: true,
        address,
        size,
        is_text: true,
        global: true,
        section: SectionRef::Defined(sec),
    }
}

fn object(name: &str, format: FormatKind, sections: Vec<SectionRecord>, symbols: Vec<symtool::model::SymbolRecord>) -> ObjectView {
    ObjectView {
        name: name.as_bytes().to_vec(),
        arch: b"X86_64".to_vec(),
        format,
        has_debug_symbols: true,
        has_symbol_table: true,
        sections,
        symbols,
    }
}

#[test]
fn explicit_size_is_returned_verbatim() {
    let text = section(1, ".text", 0, 0x100, vec![0u8; 0x100]);
    let sym = symbol(1, "foo", 0x20, 64, 1);
    let set = LoadedSet { objects: vec![object("a.o", FormatKind::Elf, vec![text], vec![sym])] };
    let ex = Explorer::build(set).unwrap();
    let mut cache = Cache::new();
    let rs = ex.index(&mut cache, SymbolPosition { obj_idx: 0, sym_idx: 0 }).unwrap();
    assert_eq!(rs.size, 64);
    assert_eq!(rs.address, 0x20);
    assert_eq!(rs.kind, 'T');
}

#[test]
fn macho_size_is_inferred_from_next_address() {
    let text = section(1, "__text", 0, 0x100, vec![0u8; 0x100]);
    let a = symbol(1, "first", 0x10, 0, 1);
    let b = symbol(2, "second", 0x30, 0, 1);
    let set = LoadedSet {
        objects: vec![object("m.o", FormatKind::MachO, vec![text], vec![a, b])],
    };
    let ex = Explorer::build(set).unwrap();
    let mut cache = Cache::new();
    let first = ex.index(&mut cache, SymbolPosition { obj_idx: 0, sym_idx: 0 }).unwrap();
    assert_eq!(first.size, 0x20);
    let second = ex.index(&mut cache, SymbolPosition { obj_idx: 0, sym_idx: 1 }).unwrap();
    // The last symbol runs to the section's end; sizes are never negative.
    assert_eq!(second.size, 0x100 - 0x30);
}

#[test]
fn classification_letters_follow_section_and_binding() {
    let mut common = section(2, ".common", 0x200, 0x40, vec![0u8; 0x40]);
    common.class = SectionClass::Common;
    let mut bss = section(3, ".bss", 0x300, 0x40, vec![0u8; 0x40]);
    bss.class = SectionClass::UninitializedData;
    let in_common = symbol(1, "shared", 0x210, 8, 2);
    let mut in_bss = symbol(2, "zeroed", 0x310, 8, 3);
    in_bss.global = false;
    let mut marked = symbol(3, "merged", 0, 4, 0);
    marked.section = SectionRef::Common;
    let set = LoadedSet {
        objects: vec![object(
            "c.o",
            FormatKind::Elf,
            vec![common, bss],
            vec![in_common, in_bss, marked],
        )],
    };
    let ex = Explorer::build(set).unwrap();
    // A symbol in a common-kind section is `C`, a local one in `.bss` is
    // `b`, and a common-marked symbol is `C` regardless of sections.
    assert_eq!(ex.symbol_kind(SymbolPosition { obj_idx: 0, sym_idx: 0 }), 'C');
    assert_eq!(ex.symbol_kind(SymbolPosition { obj_idx: 0, sym_idx: 1 }), 'b');
    assert_eq!(ex.symbol_kind(SymbolPosition { obj_idx: 0, sym_idx: 2 }), 'C');
}

#[test]
fn undefined_symbol_is_an_error() {
    let text = section(1, ".text", 0, 0x100, vec![0u8; 0x100]);
    let mut sym = symbol(1, "und", 0, 0, 1);
    sym.section = SectionRef::Undefined;
    let set = LoadedSet { objects: vec![object("a.o", FormatKind::Elf, vec![text], vec![sym])] };
    let ex = Explorer::build(set).unwrap();
    let mut cache = Cache::new();
    let r = ex.index(&mut cache, SymbolPosition { obj_idx: 0, sym_idx: 0 });
    assert_eq!(r.unwrap_err(), Error::SymbolUndefined);
}

#[test]
fn dump_returns_exact_byte_window() {
    // Text symbol `bar`, size 10, at offset 100 of `.text` based at 0.
    let mut data = vec![0u8; 0x100];
    for (i, b) in data.iter_mut().enumerate() {
        *b = i as u8;
    }
    let text = section(1, ".text", 0, 0x100, data.clone());
    let sym = symbol(1, "bar", 100, 10, 1);
    let set = LoadedSet { objects: vec![object("a.o", FormatKind::Elf, vec![text], vec![sym])] };
    let mut ex = Explorer::build(set).unwrap();
    let mut cache = Cache::new();
    let out = run_command(&mut ex, &mut cache, b"dump bar").unwrap();
    match out {
        CommandOutput::Dump(d) => {
            assert_eq!(d.bytes, data[100..110].to_vec());
            assert_eq!(d.size, 10);
            assert_eq!(d.section_offset, 100);
            assert!(d.is_text);
        },
        _ => panic!("expected a dump"),
    }
}

/// A zlib stream holding the five bytes `hello` in one stored block.
fn zlib_hello() -> Vec<u8> {
    vec![
        0x78, 0x01, 0x01, 0x05, 0x00, 0xFA, 0xFF, b'h', b'e', b'l', b'l', b'o', 0x06, 0x2C, 0x02,
        0x15,
    ]
}

#[test]
fn decompression_happens_at_most_once_and_is_stable() {
    let stored = zlib_hello();
    let mut sec = section(1, ".demo", 0, 5, stored);
    sec.compression = CompressionKind::Zlib;
    sec.uncompressed_size = 5;
    let sym = symbol(1, "msg", 0, 5, 1);
    let set = LoadedSet { objects: vec![object("z.o", FormatKind::Elf, vec![sec], vec![sym])] };
    let ex = Explorer::build(set).unwrap();
    let mut cache = Cache::new();
    let rs = ex.index(&mut cache, SymbolPosition { obj_idx: 0, sym_idx: 0 }).unwrap();
    assert_eq!(cache.decompress_count(), 0);
    ex.ensure_section_data(&mut cache, 0, rs.section_pos).unwrap();
    assert_eq!(cache.decompress_count(), 1);
    let first = ex.dump(&cache, &rs).unwrap().as_ref().to_vec();
    // A second request finds the cache warm: no further decompression, and
    // byte-identical content.
    ex.ensure_section_data(&mut cache, 0, rs.section_pos).unwrap();
    assert_eq!(cache.decompress_count(), 1);
    let second = ex.dump(&cache, &rs).unwrap().as_ref().to_vec();
    assert_eq!(first, b"hello".to_vec());
    assert_eq!(first, second);
}

#[test]
fn reloc_query_matches_linear_scan() {
    // A pseudo-random offset table, queried against a plain linear scan.
    let mut offsets: Vec<u64> = Vec::new();
    let mut x: u64 = 12345;
    for _ in 0..40 {
        x = x.wrapping_mul(6364136223846793005).wrapping_add(1442695040888963407);
        offsets.push(x % 200);
    }
    let relocs: Vec<RelocRecord> = offsets
        .iter()
        .enumerate()
        .map(|(i, &off)| RelocRecord {
            offset: off,
            addend: i as i64,
            target: RelocTargetKind::Symbol(1),
        })
        .collect();
    let mut sec = section(1, ".text", 0, 0x100, vec![0u8; 0x100]);
    sec.relocs = relocs.clone();
    let sym = symbol(1, "f", 50, 60, 1);
    let set = LoadedSet { objects: vec![object("a.o", FormatKind::Elf, vec![sec], vec![sym])] };
    let ex = Explorer::build(set).unwrap();
    let mut cache = Cache::new();
    let rs = ex.index(&mut cache, SymbolPosition { obj_idx: 0, sym_idx: 0 }).unwrap();
    let got = ex.reloc(&mut cache, &rs).unwrap();
    // Reference: a linear scan for offsets in [50, 110).
    let mut want: Vec<(u64, i64)> = relocs
        .iter()
        .filter(|r| r.offset >= 50 && r.offset < 110)
        .map(|r| (r.offset, r.addend))
        .collect();
    want.sort();
    let mut got_pairs: Vec<(u64, i64)> = got.iter().map(|r| (r.offset, r.addend)).collect();
    got_pairs.sort();
    assert_eq!(got_pairs, want);
    for r in &got {
        assert_eq!(r.target, RelocationTarget::Symbol(1));
    }
}

#[test]
fn ambiguous_symbol_resolves_through_object_filter() {
    // `baz` defined in both objects; `obj a.o` then `dump baz` must resolve
    // to the occurrence in a.o without an explicit index.
    let make = |label: &str, fill: u8| {
        let text = section(1, ".text", 0, 0x100, vec![fill; 0x100]);
        let sym = symbol(1, "baz", 0x10, 4, 1);
        object(label, FormatKind::Elf, vec![text], vec![sym])
    };
    let set = LoadedSet { objects: vec![make("a.o", 0xAA), make("b.o", 0xBB)] };
    let mut ex = Explorer::build(set).unwrap();
    let mut cache = Cache::new();
    // Without a filter the name is ambiguous.
    match run_command(&mut ex, &mut cache, b"dump baz") {
        Err(Error::DuplicateSymbol(cands)) => assert_eq!(cands.len(), 2),
        other => panic!("expected an ambiguity error, got {:?}", other.is_ok()),
    }
    match run_command(&mut ex, &mut cache, b"obj a.o").unwrap() {
        CommandOutput::ObjectSet => {},
        _ => panic!("expected the filter to be set"),
    }
    match run_command(&mut ex, &mut cache, b"dump baz").unwrap() {
        CommandOutput::Dump(d) => {
            assert_eq!(d.obj_name, b"a.o".to_vec());
            assert_eq!(d.bytes, vec![0xAA; 4]);
        },
        _ => panic!("expected a dump"),
    }
}

#[test]
fn commands_dispatch_and_report_errors() {
    let text = section(1, ".text", 0, 0x100, vec![0u8; 0x100]);
    let sym = symbol(1, "foo", 0x20, 64, 1);
    let set = LoadedSet { objects: vec![object("a.o", FormatKind::Elf, vec![text], vec![sym])] };
    let mut ex = Explorer::build(set).unwrap();
    let mut cache = Cache::new();
    assert!(matches!(run_command(&mut ex, &mut cache, b""), Ok(CommandOutput::Nothing)));
    assert_eq!(run_command(&mut ex, &mut cache, b"bogus").unwrap_err(), Error::UnknownCommand);
    assert_eq!(run_command(&mut ex, &mut cache, b"dump").unwrap_err(), Error::NeedSymbolName);
    assert_eq!(run_command(&mut ex, &mut cache, b"search").unwrap_err(), Error::NeedKeyword);
    assert_eq!(
        run_command(&mut ex, &mut cache, b"dump missing").unwrap_err(),
        Error::NotFoundSymbol
    );
    assert_eq!(
        run_command(&mut ex, &mut cache, b"obj nope").unwrap_err(),
        Error::NotFoundObject
    );
    match run_command(&mut ex, &mut cache, b"section").unwrap() {
        CommandOutput::Sections(listing) => {
            assert_eq!(listing.len(), 1);
            assert_eq!(listing[0].sections, vec![b".text".to_vec()]);
        },
        _ => panic!("expected a section listing"),
    }
    match run_command(&mut ex, &mut cache, b"search foo").unwrap() {
        CommandOutput::Search(hits) => {
            assert_eq!(hits.len(), 1);
            assert_eq!(hits[0].name, b"foo".to_vec());
            assert_eq!(hits[0].address, 0x20);
        },
        _ => panic!("expected search hits"),
    }
}

#[test]
fn explicit_index_picks_among_candidates() {
    let make = |label: &str, addr: u64| {
        let text = section(1, ".text", 0, 0x100, vec![0u8; 0x100]);
        let sym = symbol(1, "twin", addr, 4, 1);
        object(label, FormatKind::Elf, vec![text], vec![sym])
    };
    let set = LoadedSet { objects: vec![make("a.o", 0x10), make("b.o", 0x20)] };
    let mut ex = Explorer::build(set).unwrap();
    let mut cache = Cache::new();
    match run_command(&mut ex, &mut cache, b"dump twin 1").unwrap() {
        CommandOutput::Dump(d) => {
            assert_eq!(d.obj_name, b"b.o".to_vec());
            assert_eq!(d.address, 0x20);
        },
        _ => panic!("expected a dump"),
    }
    assert_eq!(
        run_command(&mut ex, &mut cache, b"dump twin 9").unwrap_err(),
        Error::IndexTooLarge
    );
    assert_eq!(
        run_command(&mut ex, &mut cache, b"dump twin x").unwrap_err(),
        Error::NeedIndexNumber
    );
    // Setting and clearing the filter round-trips through the obj command.
    run_command(&mut ex, &mut cache, b"obj b.o").unwrap();
    match run_command(&mut ex, &mut cache, b"obj").unwrap() {
        CommandOutput::CurrentObject(Some(n)) => assert_eq!(n, b"b.o".to_vec()),
        _ => panic!("expected the current object"),
    }
    run_command(&mut ex, &mut cache, b"obj none").unwrap();
    match run_command(&mut ex, &mut cache, b"obj").unwrap() {
        CommandOutput::CurrentObject(None) => {},
        _ => panic!("expected no current object"),
    }
}

#[test]
fn unsupported_relocation_target_is_reported() {
    let mut sec = section(1, ".text", 0, 0x100, vec![0u8; 0x100]);
    sec.relocs = vec![RelocRecord {
        offset: 0x12,
        addend: 0,
        target: RelocTargetKind::Other(b"strange".to_vec()),
    }];
    let sym = symbol(1, "f", 0x10, 0x10, 1);
    let set = LoadedSet { objects: vec![object("a.o", FormatKind::Elf, vec![sec], vec![sym])] };
    let mut ex = Explorer::build(set).unwrap();
    let mut cache = Cache::new();
    assert_eq!(
        run_command(&mut ex, &mut cache, b"reloc f").unwrap_err(),
        Error::UnsupportedRelocTarget(b"strange".to_vec())
    );
}

#[test]
fn mixed_architectures_fail_the_loader_check() {
    // Two bare relocatable ELF headers that disagree on the machine field:
    // the loader reports both offending names.
    let elf = |machine: u8| {
        let mut e = vec![0u8; 64];
        e[0..4].copy_from_slice(&[0x7f, b'E', b'L', b'F']);
        e[4] = 2;
        e[5] = 1;
        e[6] = 1;
        e[16] = 1;
        e[18] = machine;
        e[20] = 1;
        e[52] = 64;
        e
    };
    let inputs = vec![
        symtool::load::InputFile { path: b"x.o".to_vec(), data: elf(62) },
        symtool::load::InputFile { path: b"arm.o".to_vec(), data: elf(183) },
    ];
    match symtool::load::load_objects(&inputs).unwrap_err() {
        Error::InconsistentArchitecture { first, offending } => {
            assert_eq!(first, b"x.o".to_vec());
            assert_eq!(offending, b"arm.o".to_vec());
        },
        other => panic!("expected an architecture mismatch, got {:?}", other),
    }
}

#[test]
fn reloc_command_resolves_targets() {
    let mut sec = section(1, ".text", 0, 0x100, vec![0u8; 0x100]);
    sec.relocs = vec![RelocRecord { offset: 0x12, addend: -4, target: RelocTargetKind::Section(1) }];
    let sym = symbol(1, "f", 0x10, 0x10, 1);
    let set = LoadedSet { objects: vec![object("a.o", FormatKind::Elf, vec![sec], vec![sym])] };
    let mut ex = Explorer::build(set).unwrap();
    let mut cache = Cache::new();
    match run_command(&mut ex, &mut cache, b"reloc f").unwrap() {
        CommandOutput::Reloc(reports) => {
            assert_eq!(reports.len(), 1);
            assert_eq!(reports[0].offset, 0x12);
            assert_eq!(reports[0].addend, -4);
            assert!(!reports[0].is_symbol);
            assert_eq!(reports[0].target_name, b".text".to_vec());
        },
        _ => panic!("expected reloc reports"),
    }
}
