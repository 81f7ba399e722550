//! Tests for the loader's extension dispatch, the byte-range window, the
//! hex dump renderer, and the small text utilities.

use symtool::command::tokenize;
use symtool::common::{data_range, print_pretty_bytes};
use symtool::errors::Error;
use symtool::load::{base_name, load_objects, path_extension, InputFile};
use symtool::names::{bytes_eq, ends_with, parse_usize, starts_with};

#[test]
fn unsupported_extension_is_rejected_by_name() {
    // A `.txt` path fails with an unsupported-extension error naming `txt`.
    let inputs = vec![InputFile { path: b"notes.txt".to_vec(), data: vec![1, 2, 3] }];
    assert_eq!(load_objects(&inputs).unwrap_err(), Error::UnsupportedExtension(b"txt".to_vec()));
    let none = vec![InputFile { path: b"Makefile".to_vec(), data: Vec::new() }];
    assert_eq!(load_objects(&none).unwrap_err(), Error::UnsupportedExtension(Vec::new()));
    assert_eq!(load_objects(&Vec::new()).unwrap_err(), Error::NoObjects);
}

#[test]
fn later_unsupported_extension_is_named_too() {
    // The offending path need not be first: a loadable object followed by a
    // `.txt` path still fails naming `txt`.
    let mut elf = vec![0u8; 64];
    elf[0..4].copy_from_slice(&[0x7f, b'E', b'L', b'F']);
    elf[4] = 2;
    elf[5] = 1;
    elf[6] = 1;
    elf[16] = 1;
    elf[18] = 62;
    elf[20] = 1;
    elf[52] = 64;
    let inputs = vec![
        InputFile { path: b"fine.o".to_vec(), data: elf },
        InputFile { path: b"notes.txt".to_vec(), data: vec![1, 2, 3] },
    ];
    assert_eq!(load_objects(&inputs).unwrap_err(), Error::UnsupportedExtension(b"txt".to_vec()));
}

#[test]
fn object_paths_reach_the_parser() {
    // The extension dispatch accepts `.o`, and unparsable bytes fail at the
    // container parser, not at the extension check.
    let inputs = vec![InputFile { path: b"junk.o".to_vec(), data: vec![0xde, 0xad] }];
    match load_objects(&inputs).unwrap_err() {
        Error::ParseFailed(_) => {},
        other => panic!("expected a parse failure, got {:?}", other),
    }
}

#[test]
fn empty_archive_expands_to_no_objects() {
    // `!<arch>\n` is a valid, empty archive; expanding it leaves nothing.
    let inputs = vec![InputFile { path: b"lib.a".to_vec(), data: b"!<arch>\n".to_vec() }];
    assert_eq!(load_objects(&inputs).unwrap_err(), Error::NoObjects);
}

#[test]
fn minimal_elf_loads_and_reports_its_format() {
    // A bare 64-bit little-endian relocatable ELF header with no sections.
    let mut elf = vec![0u8; 64];
    elf[0..4].copy_from_slice(&[0x7f, b'E', b'L', b'F']);
    elf[4] = 2; // 64-bit
    elf[5] = 1; // little-endian
    elf[6] = 1; // version
    elf[16] = 1; // ET_REL
    elf[18] = 62; // EM_X86_64
    elf[20] = 1; // e_version
    elf[52] = 64; // e_ehsize
    let inputs = vec![InputFile { path: b"dir/mini.o".to_vec(), data: elf }];
    let set = load_objects(&inputs).unwrap();
    assert_eq!(set.objects.len(), 1);
    assert_eq!(set.objects[0].name, b"mini.o".to_vec());
    assert_eq!(set.objects[0].format, symtool::model::FormatKind::Elf);
    assert_eq!(set.objects[0].arch, b"X86_64".to_vec());
}

#[test]
fn path_helpers_follow_the_extension_rule() {
    assert_eq!(path_extension(b"a/b/c.tar.gz"), Some(b"gz".to_vec()));
    assert_eq!(path_extension(b"archive.rlib"), Some(b"rlib".to_vec()));
    assert_eq!(path_extension(b"noext"), None);
    assert_eq!(path_extension(b".hidden"), None);
    assert_eq!(path_extension(b"dir.v/name"), None);
    assert_eq!(path_extension(b"trailing."), Some(Vec::new()));
    assert_eq!(base_name(b"x/y/z.o"), b"z.o".to_vec());
    assert_eq!(base_name(b"plain"), b"plain".to_vec());
}

#[test]
fn data_range_checks_every_bound() {
    let data = [10u8, 11, 12, 13, 14];
    assert_eq!(data_range(&data, 100, 101, 3).unwrap(), &[11, 12, 13]);
    assert_eq!(data_range(&data, 100, 99, 1).unwrap_err(), Error::BadAddress);
    assert_eq!(data_range(&data, 100, 104, 2).unwrap_err(), Error::SectionRangeOverflow);
    // On a 64-bit machine no u64 offset overflows usize; a huge offset
    // instead runs past the data.
    assert_eq!(data_range(&data, 0, u64::MAX, 1).unwrap_err(), Error::SectionRangeOverflow);
    assert_eq!(data_range(&data, 100, 105, 0).unwrap(), &[] as &[u8]);
}

#[test]
fn pretty_bytes_renders_hex_and_ascii_rows() {
    let bytes: Vec<u8> = (*b"Hi\x00 world!ABCDEF\x7fxy").to_vec();
    let rows = print_pretty_bytes(0x1000, &bytes);
    assert_eq!(rows.len(), 2);
    // A space is printable and shows as itself; NUL and DEL become dots.
    let first = String::from_utf8(rows[0].clone()).unwrap();
    assert_eq!(
        first,
        "0x0000000000001000: 48 69 00 20 77 6f 72 6c 64 21 41 42 43 44 45 46  Hi. world!ABCDEF"
    );
    let second = String::from_utf8(rows[1].clone()).unwrap();
    assert_eq!(
        second,
        "0x0000000000001010: 7f 78 79                                         .xy"
    );
}

#[test]
fn tokenizer_splits_on_ascii_whitespace() {
    let toks = tokenize(b"  dump  foo\t3 ");
    assert_eq!(toks, vec![b"dump".to_vec(), b"foo".to_vec(), b"3".to_vec()]);
    assert_eq!(tokenize(b""), Vec::<Vec<u8>>::new());
    assert_eq!(tokenize(b" \t "), Vec::<Vec<u8>>::new());
}

#[test]
fn decimal_parsing_is_exact() {
    assert_eq!(parse_usize(b"0").unwrap(), 0);
    assert_eq!(parse_usize(b"421").unwrap(), 421);
    assert_eq!(parse_usize(b"").unwrap_err(), Error::NeedIndexNumber);
    assert_eq!(parse_usize(b"4x1").unwrap_err(), Error::NeedIndexNumber);
    assert_eq!(parse_usize(b"99999999999999999999999").unwrap_err(), Error::NeedIndexNumber);
}

#[test]
fn byte_helpers_compare_exactly() {
    assert!(bytes_eq(b"abc", b"abc"));
    assert!(!bytes_eq(b"abc", b"abd"));
    assert!(!bytes_eq(b"abc", b"ab"));
    assert!(starts_with(b"OUTLINED_FUNCTION_7", b"OUTLINED_FUNCTION_"));
    assert!(!starts_with(b"OUT", b"OUTLINED"));
    assert!(ends_with(b"_ZN3foo17habcdE", b"habcdE"));
    assert!(!ends_with(b"short", b"much_longer"));
}
