//! The archive/object loader: turns a list of (path, raw bytes) pairs into a
//! flat, consistent `LoadedSet`, dispatching each path by its extension.

use vstd::prelude::*;
use vstd::slice::{slice_subrange, slice_to_vec};
use crate::errors::Error;
use crate::model::{LoadedSet, ObjectView, SectionRecord};
use crate::names::bytes_eq;
use crate::readobj::{
    arch_of, format_of, members_of, parses_ok, read_archive_members, read_object_info,
    read_relocations, read_section_data, read_section_metas, read_symbols, relocs_of,
    section_data_ok, section_found, section_indices_of, section_metas_of, section_payload_of,
    symbols_of, SectionMeta,
};

verus! {

/// ASCII '/'.
pub const SLASH: u8 = 47;

/// ASCII '.'.
pub const DOT: u8 = 46;

/// One input file: its path and its raw bytes, read by the caller.
pub struct InputFile {
    pub path: Vec<u8>,
    pub data: Vec<u8>,
}

/// The position of the last occurrence of `b` in `s`, if any.
pub open spec fn last_pos(s: Seq<u8>, b: u8) -> Option<int>
    decreases s.len(),
{
    if s.len() == 0 {
        None
    } else if s.last() == b {
        Some(s.len() - 1)
    } else {
        last_pos(s.drop_last(), b)
    }
}

/// `last_pos` names the last occurrence: the byte is there and none follows.
pub proof fn lemma_last_pos(s: Seq<u8>, b: u8)
    ensures
        match last_pos(s, b) {
            Option::Some(i) => 0 <= i < s.len() && s[i] == b && forall|j: int|
                i < j < s.len() ==> s[j] != b,
            Option::None => forall|j: int| 0 <= j < s.len() ==> s[j] != b,
        },
    decreases s.len(),
{
    if s.len() > 0 && s.last() != b {
        lemma_last_pos(s.drop_last(), b);
        assert(forall|j: int| 0 <= j < s.len() - 1 ==> s.drop_last()[j] == s[j]);
    }
}

/// Where the path's base name (its final component) starts.
pub open spec fn base_start(path: Seq<u8>) -> int {
    match last_pos(path, SLASH) {
        Option::None => 0,
        Option::Some(i) => i + 1,
    }
}

/// The path's base name: everything after the last slash.
pub open spec fn base_name_of(path: Seq<u8>) -> Seq<u8> {
    path.subrange(base_start(path), path.len() as int)
}

/// The path's extension: what follows the last dot of the base name, unless
/// the dot starts the name; `None` when the base name has no such dot.
pub open spec fn extension_of(path: Seq<u8>) -> Option<Seq<u8>> {
    let base = base_name_of(path);
    match last_pos(base, DOT) {
        Option::Some(k) => if k > 0 {
            Some(base.subrange(k + 1, base.len() as int))
        } else {
            None
        },
        Option::None => None,
    }
}

/// The extension marks a static archive.
pub open spec fn is_archive_path(path: Seq<u8>) -> bool {
    extension_of(path) == Some(seq![97u8]) || extension_of(path) == Some(
        seq![114u8, 108u8, 105u8, 98u8],
    )
}

/// The extension marks a single relocatable object.
pub open spec fn is_object_path(path: Seq<u8>) -> bool {
    extension_of(path) == Some(seq![111u8])
}

/// Find the last occurrence of `b` in `s`.
pub fn last_byte_pos(s: &[u8], b: u8) -> (r: Option<usize>)
    ensures
        match r {
            Option::Some(i) => last_pos(s@, b) == Some(i as int),
            Option::None => last_pos(s@, b) is None,
        },
{
    let mut i: usize = s.len();
    while i > 0
        invariant
            0 <= i <= s@.len(),
            forall|j: int| i <= j < s@.len() ==> s@[j] != b,
        decreases i,
    {
        i -= 1;
        if s[i] == b {
            proof {
                lemma_last_pos_hit(s@, b, i as int);
            }
            return Some(i);
        }
    }
    proof {
        lemma_last_pos(s@, b);
    }
    None
}

/// When position `k` carries `b` and nothing after it does, the last
/// occurrence is `k`.
proof fn lemma_last_pos_hit(s: Seq<u8>, b: u8, k: int)
    requires
        0 <= k < s.len(),
        s[k] == b,
        forall|j: int| k < j < s.len() ==> s[j] != b,
    ensures
        last_pos(s, b) == Some(k),
    decreases s.len(),
{
    if k < s.len() - 1 {
        assert(forall|j: int| 0 <= j < s.len() - 1 ==> s.drop_last()[j] == s[j]);
        lemma_last_pos_hit(s.drop_last(), b, k);
    }
}

/// The base name of a path: everything after its last slash.
pub fn base_name(path: &[u8]) -> (r: Vec<u8>)
    ensures
        r@ == base_name_of(path@),
{
    let plen: usize = path.len();
    proof {
        lemma_last_pos(path@, SLASH);
    }
    let start: usize = match last_byte_pos(path, SLASH) {
        Some(i) => i + 1,
        None => 0,
    };
    let sub = slice_subrange(path, start, plen);
    slice_to_vec(sub)
}

/// The extension of a path, under the same rule as the specification
/// `extension_of`.
pub fn path_extension(path: &[u8]) -> (r: Option<Vec<u8>>)
    ensures
        match r {
            Option::Some(e) => extension_of(path@) == Some(e@),
            Option::None => extension_of(path@) is None,
        },
{
    let plen: usize = path.len();
    proof {
        lemma_last_pos(path@, SLASH);
    }
    let start: usize = match last_byte_pos(path, SLASH) {
        Some(i) => i + 1,
        None => 0,
    };
    let base = slice_subrange(path, start, plen);
    let blen: usize = base.len();
    proof {
        lemma_last_pos(base@, DOT);
    }
    match last_byte_pos(base, DOT) {
        Some(k) if k > 0 => {
            let e = slice_subrange(base, k + 1, blen);
            Some(slice_to_vec(e))
        },
        _ => None,
    }
}

/// Does the path name a static archive (`.a` or `.rlib`)?
pub fn is_archive_name(path: &[u8]) -> (r: bool)
    ensures
        r == is_archive_path(path@),
{
    match path_extension(path) {
        Some(e) => {
            let lit_a = vec![97u8];
            let lit_rlib = vec![114u8, 108u8, 105u8, 98u8];
            assert(lit_a@ =~= seq![97u8]);
            assert(lit_rlib@ =~= seq![114u8, 108u8, 105u8, 98u8]);
            bytes_eq(e.as_slice(), lit_a.as_slice()) || bytes_eq(e.as_slice(), lit_rlib.as_slice())
        },
        None => false,
    }
}

/// Does the path name a single relocatable object (`.o`)?
pub fn is_object_name(path: &[u8]) -> (r: bool)
    ensures
        r == is_object_path(path@),
{
    match path_extension(path) {
        Some(e) => {
            let lit_o = vec![111u8];
            assert(lit_o@ =~= seq![111u8]);
            bytes_eq(e.as_slice(), lit_o.as_slice())
        },
        None => false,
    }
}

/// One section record reproduces what the readers report under one reported
/// index: the metadata record, the stored bytes with their compression
/// header, and the relocation entries.
pub open spec fn section_record_extracted(s: SectionRecord, data: Seq<u8>, m: SectionMeta) -> bool {
    let p = section_payload_of(data, m.index);
    &&& s.index == m.index
    &&& s.name@ == m.name@
    &&& s.name_ok == m.name_ok
    &&& s.address == m.address
    &&& s.size == m.size
    &&& s.class == m.class
    &&& s.compression == p.compression
    &&& s.uncompressed_size == p.uncompressed_size
    &&& s.data@ == p.data@
    &&& s.relocs@ == relocs_of(data, m.index)
}

/// The section records reproduce the readers' reports record for record, in
/// iteration order.
pub open spec fn sections_extracted(sections: Seq<SectionRecord>, data: Seq<u8>) -> bool {
    &&& sections.len() == section_metas_of(data).len()
    &&& forall|k: int|
        0 <= k < sections.len() ==> section_record_extracted(
            #[trigger] sections[k],
            data,
            section_metas_of(data)[k],
        )
}

/// Every reader succeeds on these bytes: the container parses, and each
/// reported section's stored bytes and relocation entries can be read.
pub open spec fn extraction_ok(data: Seq<u8>) -> bool {
    &&& parses_ok(data)
    &&& forall|k: int|
        0 <= k < section_indices_of(data).len() ==> section_found(
            data,
            #[trigger] section_indices_of(data)[k],
        ) && section_data_ok(data, section_indices_of(data)[k])
}

/// Read one object from raw bytes into plain records: whole-object facts,
/// then each section's metadata, stored bytes and relocation entries, then
/// the symbol table. Succeeds exactly when every reader does.
pub fn read_object(name: Vec<u8>, data: &[u8]) -> (r: Result<ObjectView, Error>)
    ensures
        r matches Ok(v) ==> ({
            &&& v.name@ == name@
            &&& v.arch@ == arch_of(data@)
            &&& v.format == format_of(data@)
            &&& v.symbols@ == symbols_of(data@)
            &&& sections_extracted(v.sections@, data@)
        }),
        r is Ok <==> extraction_ok(data@),
        r matches Err(e) ==> (e matches Error::ParseFailed(_) || e == Error::BadSection),
{
    let ghost name_view = name@;
    let info = match read_object_info(data) {
        Ok(i) => i,
        Err(e) => {
            return Err(e);
        },
    };
    let metas = match read_section_metas(data) {
        Ok(m) => m,
        Err(e) => {
            return Err(e);
        },
    };
    let symbols = match read_symbols(data) {
        Ok(s) => s,
        Err(e) => {
            return Err(e);
        },
    };
    proof {
        assert(forall|k: int|
            0 <= k < metas@.len() ==> (#[trigger] metas@[k]).index == metas@.map_values(
                |m: crate::readobj::SectionMeta| m.index,
            )[k]);
    }
    let mut sections: Vec<SectionRecord> = Vec::new();
    let n: usize = metas.len();
    let mut i: usize = 0;
    while i < n
        invariant
            n == metas@.len(),
            0 <= i <= n,
            parses_ok(data@),
            metas@ == section_metas_of(data@),
            metas@.map_values(|m: crate::readobj::SectionMeta| m.index) == section_indices_of(
                data@,
            ),
            forall|k: int|
                0 <= k < n ==> (#[trigger] metas@[k]).index == section_indices_of(data@)[k],
            forall|k: int|
                0 <= k < i ==> section_found(data@, #[trigger] section_indices_of(data@)[k])
                    && section_data_ok(data@, section_indices_of(data@)[k]),
            sections@.len() == i,
            forall|k: int|
                0 <= k < i ==> section_record_extracted(#[trigger] sections@[k], data@, metas@[k]),
        decreases n - i,
    {
        let m = &metas[i];
        let sd = match read_section_data(data, m.index) {
            Ok(d) => d,
            Err(e) => {
                proof {
                    assert(!extraction_ok(data@)) by {
                        assert(section_indices_of(data@)[i as int] == metas@[i as int].index);
                    }
                }
                return Err(e);
            },
        };
        let relocs = match read_relocations(data, m.index) {
            Ok(rl) => rl,
            Err(e) => {
                proof {
                    assert(!extraction_ok(data@)) by {
                        assert(section_indices_of(data@)[i as int] == metas@[i as int].index);
                    }
                }
                return Err(e);
            },
        };
        sections.push(
            SectionRecord {
                index: m.index,
                name: m.name.clone(),
                name_ok: m.name_ok,
                address: m.address,
                size: m.size,
                class: m.class,
                compression: sd.compression,
                uncompressed_size: sd.uncompressed_size,
                data: sd.data,
                relocs,
            },
        );
        proof {
            assert(section_record_extracted(sections@[i as int], data@, metas@[i as int]));
        }
        i += 1;
    }
    proof {
        assert(sections_extracted(sections@, data@));
    }
    Ok(
        ObjectView {
            name,
            arch: info.arch,
            format: info.format,
            has_debug_symbols: info.has_debug_symbols,
            has_symbol_table: info.has_symbol_table,
            sections,
            symbols,
        },
    )
}

/// The flat list of (label, bytes) units the inputs expand to: an object
/// path contributes its base name and its bytes; an archive path contributes
/// its members.
pub open spec fn units_of(inputs: Seq<InputFile>) -> Seq<(Seq<u8>, Seq<u8>)>
    decreases inputs.len(),
{
    if inputs.len() == 0 {
        Seq::empty()
    } else {
        let pre = units_of(inputs.drop_last());
        if is_archive_path(inputs.last().path@) {
            pre + (match members_of(inputs.last().data@) {
                Option::Some(ms) => ms,
                Option::None => Seq::empty(),
            })
        } else {
            pre + seq![(base_name_of(inputs.last().path@), inputs.last().data@)]
        }
    }
}

/// Every input path names an archive or an object.
pub open spec fn inputs_supported(inputs: Seq<InputFile>) -> bool {
    forall|i: int|
        0 <= i < inputs.len() ==> is_archive_path((#[trigger] inputs[i]).path@) || is_object_path(
            inputs[i].path@,
        )
}

/// Every archive input's members can be enumerated.
pub open spec fn archives_readable(inputs: Seq<InputFile>) -> bool {
    forall|i: int|
        0 <= i < inputs.len() ==> (is_archive_path((#[trigger] inputs[i]).path@) ==> members_of(
            inputs[i].data@,
        ) is Some)
}

/// Every unit's bytes read fully.
pub open spec fn units_extract_ok(units: Seq<(Seq<u8>, Seq<u8>)>) -> bool {
    forall|u: int| 0 <= u < units.len() ==> extraction_ok((#[trigger] units[u]).1)
}

/// Every unit reports the first unit's architecture and format.
pub open spec fn units_consistent(units: Seq<(Seq<u8>, Seq<u8>)>) -> bool {
    forall|u: int|
        0 <= u < units.len() ==> arch_of((#[trigger] units[u]).1) == arch_of(units[0].1)
            && format_of(units[u].1) == format_of(units[0].1)
}

/// Every input before position `i` names an archive or an object, every
/// archive among them can be enumerated, and every unit they expand to reads
/// fully: the loader reaches input `i` without failing.
pub open spec fn prefix_loadable(inputs: Seq<InputFile>, i: int) -> bool {
    &&& forall|j: int|
        0 <= j < i ==> is_archive_path((#[trigger] inputs[j]).path@) || is_object_path(
            inputs[j].path@,
        )
    &&& forall|j: int|
        0 <= j < i ==> (is_archive_path((#[trigger] inputs[j]).path@) ==> members_of(
            inputs[j].data@,
        ) is Some)
    &&& units_extract_ok(units_of(inputs.take(i)))
}

/// Input `i` is the one the loader rejects for its extension: its own path
/// is unsupported and everything before it loads.
pub open spec fn first_unsupported_at(inputs: Seq<InputFile>, i: int) -> bool {
    &&& 0 <= i < inputs.len()
    &&& !is_archive_path(inputs[i].path@)
    &&& !is_object_path(inputs[i].path@)
    &&& prefix_loadable(inputs, i)
}

/// Processing more inputs only appends units: an earlier prefix's units
/// stand unchanged in a later prefix's.
proof fn lemma_units_prefix(inputs: Seq<InputFile>, a: int, b: int)
    requires
        0 <= a <= b <= inputs.len(),
    ensures
        units_of(inputs.take(a)).len() <= units_of(inputs.take(b)).len(),
        forall|u: int|
            0 <= u < units_of(inputs.take(a)).len() ==> #[trigger] units_of(inputs.take(b))[u]
                == units_of(inputs.take(a))[u],
    decreases b - a,
{
    if a < b {
        lemma_units_prefix(inputs, a, b - 1);
        assert(inputs.take(b).drop_last() =~= inputs.take(b - 1));
        assert(inputs.take(b).last() == inputs[b - 1]);
    }
}

/// Normalize a list of input files into one flat, consistent set of object
/// views.
///
/// Archive paths expand into one view per member (under the member's stored
/// name), object paths load directly (under the file's base name), and any
/// other extension fails naming the extension (empty when the path has
/// none). After expansion every object must report the first object's
/// architecture and format; a mismatch fails naming both objects. On
/// supported paths whose bytes all read fully and agree, success is owed.
pub fn load_objects(inputs: &Vec<InputFile>) -> (r: Result<LoadedSet, Error>)
    ensures
        r matches Ok(s) ==> s.wf(),
        inputs@.len() == 0 ==> r == Err::<LoadedSet, Error>(Error::NoObjects),
        (exists|i: int|
            0 <= i < inputs@.len() && !is_archive_path(#[trigger] inputs@[i].path@)
                && !is_object_path(inputs@[i].path@)) ==> r is Err,
        forall|w: int|
            #[trigger] first_unsupported_at(inputs@, w) ==> (r matches Err(e) && (
            e matches Error::UnsupportedExtension(x) && x@ == match extension_of(
                inputs@[w].path@,
            ) {
                Option::Some(s) => s,
                Option::None => Seq::<u8>::empty(),
            })),
        r matches Ok(s) ==> ({
            let units = units_of(inputs@);
            &&& s.objects@.len() == units.len()
            &&& units_extract_ok(units)
            &&& (forall|u: int|
                0 <= u < units.len() ==> (#[trigger] s.objects@[u]).name@ == units[u].0
                    && s.objects@[u].arch@ == arch_of(units[u].1) && s.objects@[u].format
                    == format_of(units[u].1) && s.objects@[u].symbols@ == symbols_of(units[u].1)
                    && sections_extracted(s.objects@[u].sections@, units[u].1))
        }),
        (inputs@.len() > 0 && inputs_supported(inputs@) && archives_readable(inputs@) && units_of(
            inputs@,
        ).len() > 0 && units_extract_ok(units_of(inputs@)) && units_consistent(units_of(inputs@)))
            ==> r is Ok,
        (inputs_supported(inputs@) && archives_readable(inputs@) && units_extract_ok(
            units_of(inputs@),
        ) && units_of(inputs@).len() > 0 && !units_consistent(units_of(inputs@))) ==> (
        r matches Err(e) && (match e {
            Error::InconsistentArchitecture { first, offending } => ({
                let units = units_of(inputs@);
                first@ == units[0].0 && (exists|j: int|
                    0 <= j < units.len() && offending@ == (#[trigger] units[j]).0 && arch_of(
                        units[j].1,
                    ) != arch_of(units[0].1))
            }),
            Error::InconsistentFormat { first, offending } => ({
                let units = units_of(inputs@);
                first@ == units[0].0 && (exists|j: int|
                    0 <= j < units.len() && offending@ == (#[trigger] units[j]).0 && format_of(
                        units[j].1,
                    ) != format_of(units[0].1))
            }),
            _ => false,
        })),
{
    if inputs.len() == 0 {
        return Err(Error::NoObjects);
    }
    let mut objects: Vec<ObjectView> = Vec::new();
    let n: usize = inputs.len();
    let mut i: usize = 0;
    while i < n
        invariant
            n == inputs@.len(),
            n > 0,
            0 <= i <= n,
            forall|j: int|
                0 <= j < i ==> is_archive_path(#[trigger] inputs@[j].path@) || is_object_path(
                    inputs@[j].path@,
                ),
            forall|j: int|
                0 <= j < i ==> (is_archive_path(#[trigger] inputs@[j].path@) ==> members_of(
                    inputs@[j].data@,
                ) is Some),
            objects@.len() == units_of(inputs@.take(i as int)).len(),
            forall|u: int|
                0 <= u < objects@.len() ==> ({
                    let unit = #[trigger] units_of(inputs@.take(i as int))[u];
                    &&& objects@[u].name@ == unit.0
                    &&& objects@[u].arch@ == arch_of(unit.1)
                    &&& objects@[u].format == format_of(unit.1)
                    &&& extraction_ok(unit.1)
                    &&& objects@[u].symbols@ == symbols_of(unit.1)
                    &&& sections_extracted(objects@[u].sections@, unit.1)
                }),
        decreases n - i,
    {
        let ghost pre_units = units_of(inputs@.take(i as int));
        let ghost post_units = units_of(inputs@.take(i as int + 1));
        proof {
            assert(inputs@.take(i as int + 1).drop_last() =~= inputs@.take(i as int));
            assert(inputs@.take(i as int + 1).last() == inputs@[i as int]);
            lemma_units_prefix(inputs@, i as int + 1, n as int);
            assert(inputs@.take(n as int) =~= inputs@);
        }
        let input = &inputs[i];
        let is_archive = is_archive_name(input.path.as_slice());
        let is_object = is_object_name(input.path.as_slice());
        if is_archive {
            let members = match read_archive_members(input.data.as_slice()) {
                Ok(m) => m,
                Err(e) => {
                    proof {
                        assert forall|w: int| !(#[trigger] first_unsupported_at(inputs@, w)) by {
                            if first_unsupported_at(inputs@, w) {
                                if w <= i as int {
                                    assert(is_archive_path(inputs@[i as int].path@));
                                } else {
                                    assert(is_archive_path(inputs@[i as int].path@)
                                        && members_of(inputs@[i as int].data@) is None);
                                }
                            }
                        }
                    }
                    return Err(e);
                },
            };
            let ghost ms_view = members@.map_values(
                |m: crate::readobj::ArchiveMemberRecord| (m.name@, m.data@),
            );
            proof {
                assert(post_units =~= pre_units + ms_view);
                assert(forall|t: int|
                    0 <= t < members@.len() ==> ((#[trigger] members@[t]).name@, members@[t].data@)
                        == ms_view[t]);
            }
            let mn: usize = members.len();
            let mut k: usize = 0;
            while k < mn
                invariant
                    mn == members@.len(),
                    0 <= k <= mn,
                    inputs@.len() > 0,
                    n == inputs@.len(),
                    0 <= i < n,
                    forall|j: int|
                        0 <= j < i ==> is_archive_path(#[trigger] inputs@[j].path@)
                            || is_object_path(inputs@[j].path@),
                    is_archive_path(inputs@[i as int].path@),
                    is_archive_path(inputs@[0].path@) || is_object_path(inputs@[0].path@),
                    post_units == units_of(inputs@.take(i as int + 1)),
                    ms_view == members@.map_values(
                        |m: crate::readobj::ArchiveMemberRecord| (m.name@, m.data@),
                    ),
                    ms_view.len() == mn,
                    forall|t: int|
                        0 <= t < mn ==> ((#[trigger] members@[t]).name@, members@[t].data@)
                            == ms_view[t],
                    post_units == pre_units + ms_view,
                    forall|u: int|
                        0 <= u < post_units.len() ==> #[trigger] units_of(inputs@)[u]
                            == post_units[u],
                    units_of(inputs@).len() >= post_units.len(),
                    objects@.len() == pre_units.len() + k,
                    forall|u: int|
                        0 <= u < objects@.len() ==> ({
                            let unit = #[trigger] post_units[u];
                            &&& objects@[u].name@ == unit.0
                            &&& objects@[u].arch@ == arch_of(unit.1)
                            &&& objects@[u].format == format_of(unit.1)
                            &&& extraction_ok(unit.1)
                            &&& objects@[u].symbols@ == symbols_of(unit.1)
                            &&& sections_extracted(objects@[u].sections@, unit.1)
                        }),
                decreases mn - k,
            {
                let member = &members[k];
                let label = crate::names::copy_bytes(member.name.as_slice());
                let view = match read_object(label, member.data.as_slice()) {
                    Ok(v) => v,
                    Err(e) => {
                        proof {
                            let g = pre_units.len() + k;
                            assert(units_of(inputs@)[g] == post_units[g]);
                            assert(post_units[g] == ms_view[k as int]);
                            assert(!extraction_ok(units_of(inputs@)[g].1));
                            assert forall|w: int| !(#[trigger] first_unsupported_at(inputs@, w)) by {
                                if first_unsupported_at(inputs@, w) {
                                    if w <= i as int {
                                        assert(is_archive_path(inputs@[i as int].path@));
                                    } else {
                                        lemma_units_prefix(inputs@, i as int + 1, w);
                                        assert(units_of(inputs@.take(w))[g] == post_units[g]);
                                        assert(!extraction_ok(units_of(inputs@.take(w))[g].1));
                                    }
                                }
                            }
                        }
                        return Err(e);
                    },
                };
                objects.push(view);
                k += 1;
            }
            proof {
                assert(objects@.len() == post_units.len());
            }
        } else if is_object {
            let label = base_name(input.path.as_slice());
            let view = match read_object(label, input.data.as_slice()) {
                Ok(v) => v,
                Err(e) => {
                    proof {
                        assert(post_units =~= pre_units + seq![
                            (base_name_of(inputs@[i as int].path@), inputs@[i as int].data@),
                        ]);
                        let g = pre_units.len() as int;
                        assert(units_of(inputs@)[g] == post_units[g]);
                        assert(!extraction_ok(units_of(inputs@)[g].1));
                        assert forall|w: int| !(#[trigger] first_unsupported_at(inputs@, w)) by {
                            if first_unsupported_at(inputs@, w) {
                                if w <= i as int {
                                    assert(is_object_path(inputs@[i as int].path@));
                                } else {
                                    lemma_units_prefix(inputs@, i as int + 1, w);
                                    assert(units_of(inputs@.take(w))[g] == post_units[g]);
                                    assert(!extraction_ok(units_of(inputs@.take(w))[g].1));
                                }
                            }
                        }
                    }
                    return Err(e);
                },
            };
            objects.push(view);
            proof {
                assert(post_units =~= pre_units + seq![
                    (base_name_of(inputs@[i as int].path@), inputs@[i as int].data@),
                ]);
            }
        } else {
            let ext_bytes = match path_extension(input.path.as_slice()) {
                Some(e) => e,
                None => Vec::new(),
            };
            proof {
                assert forall|w: int| #[trigger] first_unsupported_at(inputs@, w) implies w
                    == i as int by {
                    if w < i as int {
                        assert(is_archive_path(inputs@[w].path@) || is_object_path(
                            inputs@[w].path@,
                        ));
                    }
                    if w > i as int {
                        assert(is_archive_path(inputs@[i as int].path@) || is_object_path(
                            inputs@[i as int].path@,
                        ));
                    }
                }
            }
            return Err(Error::UnsupportedExtension(ext_bytes));
        }
        i += 1;
    }
    proof {
        assert(inputs@.take(n as int) =~= inputs@);
        assert forall|w: int| !(#[trigger] first_unsupported_at(inputs@, w)) by {
            if first_unsupported_at(inputs@, w) {
                assert(is_archive_path(inputs@[w].path@) || is_object_path(inputs@[w].path@));
            }
        }
    }
    if objects.len() == 0 {
        return Err(Error::NoObjects);
    }
    let count: usize = objects.len();
    let mut k: usize = 1;
    while k < count
        invariant
            count == objects@.len(),
            count > 0,
            1 <= k <= count,
            inputs@.len() > 0,
            forall|j: int|
                0 <= j < inputs@.len() ==> is_archive_path(#[trigger] inputs@[j].path@)
                    || is_object_path(inputs@[j].path@),
            forall|w: int| !(#[trigger] first_unsupported_at(inputs@, w)),
            objects@.len() == units_of(inputs@).len(),
            forall|u: int|
                0 <= u < objects@.len() ==> ({
                    let unit = #[trigger] units_of(inputs@)[u];
                    &&& objects@[u].name@ == unit.0
                    &&& objects@[u].arch@ == arch_of(unit.1)
                    &&& objects@[u].format == format_of(unit.1)
                    &&& extraction_ok(unit.1)
                    &&& objects@[u].symbols@ == symbols_of(unit.1)
                    &&& sections_extracted(objects@[u].sections@, unit.1)
                }),
            forall|j: int|
                0 <= j < k ==> (#[trigger] objects@[j]).arch@ == objects@[0].arch@
                    && objects@[j].format == objects@[0].format,
        decreases count - k,
    {
        let same_arch = bytes_eq(objects[k].arch.as_slice(), objects[0].arch.as_slice());
        if !same_arch {
            proof {
                let units = units_of(inputs@);
                assert(arch_of(units[k as int].1) != arch_of(units[0].1));
                assert(!units_consistent(units));
            }
            return Err(
                Error::InconsistentArchitecture {
                    first: crate::names::copy_bytes(objects[0].name.as_slice()),
                    offending: crate::names::copy_bytes(objects[k].name.as_slice()),
                },
            );
        }
        if objects[k].format != objects[0].format {
            proof {
                let units = units_of(inputs@);
                assert(format_of(units[k as int].1) != format_of(units[0].1));
                assert(!units_consistent(units));
            }
            return Err(
                Error::InconsistentFormat {
                    first: crate::names::copy_bytes(objects[0].name.as_slice()),
                    offending: crate::names::copy_bytes(objects[k].name.as_slice()),
                },
            );
        }
        k += 1;
    }
    proof {
        assert(units_extract_ok(units_of(inputs@)));
        assert(units_consistent(units_of(inputs@))) by {
            let units = units_of(inputs@);
            assert(forall|u: int|
                0 <= u < units.len() ==> arch_of((#[trigger] units[u]).1) == arch_of(units[0].1)
                    && format_of(units[u].1) == format_of(units[0].1)) by {
                assert(forall|u: int|
                    0 <= u < objects@.len() ==> (#[trigger] objects@[u]).arch@ == objects@[0].arch@
                        && objects@[u].format == objects@[0].format);
            }
        }
    }
    Ok(LoadedSet { objects })
}

} // verus!
