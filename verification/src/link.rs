//! The interactive explorer's engine: the loaded-set handle, the per-session
//! caches, symbol extent resolution with Mach-O size inference, the section
//! data cache, and the relocation range query.

use vstd::prelude::*;
use crate::common::{data_range, data_range_spec, DoubleLife};
use crate::errors::{Candidate, Error};
use crate::index::{build_index, occurrences, PositionalSymbolIndex};
use crate::model::{
    section_position_of, CompressionKind, FormatKind, LoadedSet, RelocRecord, RelocTargetKind,
    SectionRecord, SectionRef, SymbolPosition,
};
use crate::model::find_section_position;
use crate::readobj::{decompress_section, decompressed_of};
use crate::sorting::{insertion_sort, sorted_by_key, upper_bound, SortKey};

verus! {

/// The explorer command's options: the object and archive files to load.
pub struct Options {
    /// Paths of the files to explore.
    pub objects: Vec<Vec<u8>>,
}

/// A resolved symbol: its occurrence, its owning section's position in the
/// object's section list, its address, its definitive size, and its
/// classification letter.
#[derive(Debug)]
pub struct Symbol {
    pub pos: SymbolPosition,
    pub section_pos: usize,
    pub address: u64,
    pub size: u64,
    pub kind: char,
}

/// What a relocation in a symbol's range addresses.
#[derive(Clone, Copy, PartialEq, Eq, Structural, Debug)]
pub enum RelocationTarget {
    /// A symbol, by reported symbol-table index.
    Symbol(usize),
    /// A section, by reported section index.
    Section(usize),
}

/// One relocation of a symbol's byte range, ready to display.
#[derive(Clone, Copy, PartialEq, Eq, Structural, Debug)]
pub struct Relocation {
    pub offset: u64,
    pub target: RelocationTarget,
    pub addend: i64,
}

/// One sorted slot of a relocation table: an entry's offset and its position
/// in the section's stored relocation list.
#[derive(Clone, Copy, PartialEq, Eq, Structural, Debug)]
pub struct RelocKey {
    pub offset: u64,
    pub pos: usize,
}

impl SortKey for RelocKey {
    open spec fn key_spec(&self) -> int {
        self.offset as int
    }

    fn key_le(&self, other: &Self) -> (r: bool) {
        self.offset <= other.offset
    }
}

/// The sorted relocation table of one (object, section) pair.
pub struct RelocTable {
    pub obj_idx: usize,
    pub section_pos: usize,
    pub keys: Vec<RelocKey>,
}

/// One decompressed section's bytes, cached under its (object, section) key.
pub struct CacheEntry {
    pub obj_idx: usize,
    pub section_pos: usize,
    pub address: u64,
    pub data: Vec<u8>,
}

/// The addresses of the symbols that are defined in some section, in scan
/// order.
pub open spec fn defined_addresses(syms: Seq<crate::model::SymbolRecord>) -> Seq<u64>
    decreases syms.len(),
{
    if syms.len() == 0 {
        Seq::empty()
    } else {
        let pre = defined_addresses(syms.drop_last());
        if syms.last().section is Defined {
            pre.push(syms.last().address)
        } else {
            pre
        }
    }
}

/// Some symbol defined in a section has an address strictly above `a`.
pub open spec fn has_defined_above(syms: Seq<crate::model::SymbolRecord>, a: u64) -> bool {
    exists|i: int|
        0 <= i < syms.len() && (#[trigger] syms[i]).section is Defined && syms[i].address > a
}

/// A defined symbol's address is in the defined-address list.
proof fn lemma_defined_addresses_contains(syms: Seq<crate::model::SymbolRecord>, i: int)
    requires
        0 <= i < syms.len(),
        syms[i].section is Defined,
    ensures
        defined_addresses(syms).contains(syms[i].address),
    decreases syms.len(),
{
    if i == syms.len() - 1 {
        let d = defined_addresses(syms);
        assert(d[d.len() - 1] == syms[i].address);
    } else {
        assert(forall|j: int| 0 <= j < syms.len() - 1 ==> syms.drop_last()[j] == #[trigger] syms[j]);
        lemma_defined_addresses_contains(syms.drop_last(), i);
        let pre = defined_addresses(syms.drop_last());
        let w = choose|w: int| 0 <= w < pre.len() && pre[w] == syms[i].address;
        assert(defined_addresses(syms)[w] == syms[i].address);
    }
}

/// The defined-address list holds an address above `a` exactly when some
/// defined symbol lies above `a`.
proof fn lemma_defined_above(syms: Seq<crate::model::SymbolRecord>, a: u64)
    ensures
        has_defined_above(syms, a) == (exists|w: int|
            0 <= w < defined_addresses(syms).len() && #[trigger] defined_addresses(syms)[w] > a),
    decreases syms.len(),
{
    if syms.len() > 0 {
        assert(forall|j: int| 0 <= j < syms.len() - 1 ==> syms.drop_last()[j] == #[trigger] syms[j]);
        lemma_defined_above(syms.drop_last(), a);
        let pre = defined_addresses(syms.drop_last());
        let d = defined_addresses(syms);
        assert(forall|w: int| 0 <= w < pre.len() ==> d[w] == #[trigger] pre[w]);
        if has_defined_above(syms, a) {
            let i = choose|i: int|
                0 <= i < syms.len() && (#[trigger] syms[i]).section is Defined && syms[i].address
                    > a;
            if i < syms.len() - 1 {
                assert(has_defined_above(syms.drop_last(), a)) by {
                    assert(syms.drop_last()[i].section is Defined);
                }
            } else {
                assert(d[d.len() - 1] == syms[i].address);
            }
        }
        if exists|w: int| 0 <= w < d.len() && #[trigger] d[w] > a {
            let w = choose|w: int| 0 <= w < d.len() && #[trigger] d[w] > a;
            if w < pre.len() {
                assert(pre[w] > a);
                assert(has_defined_above(syms.drop_last(), a));
                let i = choose|i: int|
                    0 <= i < syms.drop_last().len() && (
                    #[trigger] syms.drop_last()[i]).section is Defined && syms.drop_last()[i].address
                        > a;
                assert(syms[i].section is Defined && syms[i].address > a);
            } else {
                assert(syms.last().section is Defined && d[w] == syms.last().address);
                assert(syms[syms.len() - 1].section is Defined);
            }
        }
    }
}

/// Two address lists with the same contents hold an address above `a`
/// together or not at all.
proof fn lemma_multiset_above(s1: Seq<u64>, s2: Seq<u64>, a: u64)
    requires
        s1.to_multiset() == s2.to_multiset(),
    ensures
        (exists|i: int| 0 <= i < s1.len() && #[trigger] s1[i] > a) == (exists|j: int|
            0 <= j < s2.len() && #[trigger] s2[j] > a),
{
    s1.to_multiset_ensures();
    s2.to_multiset_ensures();
    if exists|i: int| 0 <= i < s1.len() && #[trigger] s1[i] > a {
        let i = choose|i: int| 0 <= i < s1.len() && #[trigger] s1[i] > a;
        assert(s1.contains(s1[i]));
        assert(s1.to_multiset().count(s1[i]) > 0);
        assert(s2.to_multiset().count(s1[i]) > 0);
        assert(s2.contains(s1[i]));
        let j = choose|j: int| 0 <= j < s2.len() && s2[j] == s1[i];
        assert(s2[j] > a);
    }
    if exists|j: int| 0 <= j < s2.len() && #[trigger] s2[j] > a {
        let j = choose|j: int| 0 <= j < s2.len() && #[trigger] s2[j] > a;
        assert(s2.contains(s2[j]));
        assert(s2.to_multiset().count(s2[j]) > 0);
        assert(s1.to_multiset().count(s2[j]) > 0);
        assert(s1.contains(s2[j]));
        let i = choose|i: int| 0 <= i < s1.len() && s1[i] == s2[j];
        assert(s1[i] > a);
    }
}

/// An address of one list is in any list with the same contents.
proof fn lemma_multiset_carries(s1: Seq<u64>, s2: Seq<u64>, a: u64)
    requires
        s1.to_multiset() == s2.to_multiset(),
        s1.contains(a),
    ensures
        s2.contains(a),
{
    s1.to_multiset_ensures();
    s2.to_multiset_ensures();
    assert(s1.to_multiset().count(a) > 0);
    assert(s2.to_multiset().count(a) > 0);
}

/// The slots of a section's relocation list, one per entry, in order.
pub open spec fn reloc_keys_of(relocs: Seq<RelocRecord>) -> Seq<RelocKey> {
    Seq::new(relocs.len(), |i: int| RelocKey { offset: relocs[i].offset, pos: i as usize })
}

/// The session caches: per-object sorted address tables (for Mach-O size
/// inference), decompressed section bytes, and sorted relocation tables.
/// All three grow by insertion only; a key is never overwritten.
pub struct Cache {
    pub symmap_list: Vec<Vec<u64>>,
    pub sections: Vec<CacheEntry>,
    pub reloc_tables: Vec<RelocTable>,
    pub decompress_calls: u64,
}

impl Cache {
    /// The address tables either are not built yet or describe every object:
    /// sorted, holding exactly the defined symbols' addresses.
    pub open spec fn symmaps_wf(self, set: LoadedSet) -> bool {
        self.symmap_list@.len() == 0 || {
            &&& self.symmap_list@.len() == set.objects@.len()
            &&& forall|o: int|
                0 <= o < set.objects@.len() ==> sorted_by_key(
                    (#[trigger] self.symmap_list@[o])@,
                ) && self.symmap_list@[o]@.to_multiset() == defined_addresses(
                    set.objects@[o].symbols@,
                ).to_multiset()
        }
    }

    /// Every cached section holds the decompressed bytes of a compressed
    /// section of the set, under a unique key, and the counter counts one
    /// decompression per cached section.
    pub open spec fn sections_wf(self, set: LoadedSet) -> bool {
        &&& forall|a: int, b: int|
            0 <= a < b < self.sections@.len() ==> !((#[trigger] self.sections@[a]).obj_idx == (
            #[trigger] self.sections@[b]).obj_idx && self.sections@[a].section_pos
                == self.sections@[b].section_pos)
        &&& forall|a: int|
            0 <= a < self.sections@.len() ==> ({
                let e = #[trigger] self.sections@[a];
                &&& e.obj_idx < set.objects@.len()
                &&& e.section_pos < set.objects@[e.obj_idx as int].sections@.len()
                &&& {
                    let section =
                        set.objects@[e.obj_idx as int].sections@[e.section_pos as int];
                    &&& section.compression != CompressionKind::Plain
                    &&& e.address == section.address
                    &&& Some(e.data@) == decompressed_of(
                        section.compression,
                        section.data@,
                        section.uncompressed_size,
                    )
                }
            })
        &&& self.decompress_calls == self.sections@.len()
    }

    /// Every relocation table holds, sorted by offset, exactly the slots of
    /// its section's relocation list, under a unique key.
    pub open spec fn relocs_wf(self, set: LoadedSet) -> bool {
        &&& forall|a: int, b: int|
            0 <= a < b < self.reloc_tables@.len() ==> !((#[trigger] self.reloc_tables@[a]).obj_idx
                == (#[trigger] self.reloc_tables@[b]).obj_idx && self.reloc_tables@[a].section_pos
                == self.reloc_tables@[b].section_pos)
        &&& forall|a: int|
            0 <= a < self.reloc_tables@.len() ==> ({
                let t = #[trigger] self.reloc_tables@[a];
                &&& t.obj_idx < set.objects@.len()
                &&& t.section_pos < set.objects@[t.obj_idx as int].sections@.len()
                &&& sorted_by_key(t.keys@)
                &&& t.keys@.to_multiset() == reloc_keys_of(
                    set.objects@[t.obj_idx as int].sections@[t.section_pos as int].relocs@,
                ).to_multiset()
            })
    }

    /// All three caches describe the set.
    pub open spec fn wf(self, set: LoadedSet) -> bool {
        self.symmaps_wf(set) && self.sections_wf(set) && self.relocs_wf(set)
    }

    /// A fresh, empty cache.
    pub fn new() -> (r: Cache)
        ensures
            r.symmap_list@.len() == 0,
            r.sections@.len() == 0,
            r.reloc_tables@.len() == 0,
            r.decompress_calls == 0,
            forall|set: LoadedSet| r.wf(set),
    {
        let r = Cache {
            symmap_list: Vec::new(),
            sections: Vec::new(),
            reloc_tables: Vec::new(),
            decompress_calls: 0,
        };
        assert forall|set: LoadedSet| r.wf(set) by {
            assert(r.sections@.len() == 0);
        }
        r
    }

    /// How many times a section has been decompressed in this session.
    pub fn decompress_count(&self) -> (r: u64)
        ensures
            r == self.decompress_calls,
    {
        self.decompress_calls
    }

    /// Build the per-object sorted address tables once, and only for the
    /// format that stores no symbol sizes; later calls leave the cache
    /// untouched.
    pub fn init_symmap(&mut self, set: &LoadedSet)
        requires
            set.wf(),
            old(self).wf(*set),
        ensures
            final(self).wf(*set),
            final(self).sections@ == old(self).sections@,
            final(self).reloc_tables@ == old(self).reloc_tables@,
            final(self).decompress_calls == old(self).decompress_calls,
            (set.objects@[0].format == FormatKind::MachO) ==> final(self).symmap_list@.len()
                == set.objects@.len(),
            (set.objects@[0].format != FormatKind::MachO) ==> *final(self) == *old(self),
            old(self).symmap_list@.len() > 0 ==> *final(self) == *old(self),
    {
        if self.symmap_list.len() > 0 {
            return ;
        }
        let nobj: usize = set.objects.len();
        if set.objects[0].format != FormatKind::MachO {
            return ;
        }
        let mut tables: Vec<Vec<u64>> = Vec::new();
        let mut o: usize = 0;
        while o < nobj
            invariant
                nobj == set.objects@.len(),
                0 <= o <= nobj,
                tables@.len() == o,
                forall|t: int|
                    0 <= t < o ==> sorted_by_key((#[trigger] tables@[t])@) && tables@[t]@.to_multiset()
                        == defined_addresses(set.objects@[t].symbols@).to_multiset(),
            decreases nobj - o,
        {
            let obj = &set.objects[o];
            let nsym: usize = obj.symbols.len();
            let mut addrs: Vec<u64> = Vec::new();
            let mut s: usize = 0;
            while s < nsym
                invariant
                    obj == set.objects@[o as int],
                    nsym == obj.symbols@.len(),
                    0 <= s <= nsym,
                    addrs@ == defined_addresses(obj.symbols@.take(s as int)),
                decreases nsym - s,
            {
                proof {
                    assert(obj.symbols@.take(s as int + 1).drop_last() =~= obj.symbols@.take(
                        s as int,
                    ));
                    assert(obj.symbols@.take(s as int + 1).last() == obj.symbols@[s as int]);
                }
                let sym = &obj.symbols[s];
                match sym.section {
                    SectionRef::Defined(_) => {
                        addrs.push(sym.address);
                    },
                    _ => {},
                }
                s += 1;
            }
            proof {
                assert(obj.symbols@.take(nsym as int) =~= obj.symbols@);
            }
            let sorted = insertion_sort(addrs);
            tables.push(sorted);
            o += 1;
        }
        self.symmap_list = tables;
    }
}

/// Position `w` splits the sorted address table around `addr`, and `size`
/// is the gap from `addr` to the next table address — or to the section's
/// end when no address lies above `addr`.
pub open spec fn inferred_extent(
    table: Seq<u64>,
    addr: u64,
    section: SectionRecord,
    size: u64,
    w: int,
) -> bool {
    &&& 0 <= w <= table.len()
    &&& (forall|j: int| 0 <= j < w ==> table[j] <= addr)
    &&& (forall|j: int| w <= j < table.len() ==> #[trigger] table[j] > addr)
    &&& (w < table.len() ==> size == table[w] - addr)
    &&& (w == table.len() ==> size == section.address + section.size - addr)
}

/// The symbol at `pos` is defined in a section the object really has, and
/// `section_pos` is that section's position in the object's section list.
pub open spec fn section_position_of_ok(
    set: LoadedSet,
    pos: SymbolPosition,
    section_pos: usize,
) -> bool {
    set.symbol_at(pos).section matches SectionRef::Defined(raw) && section_position_of(
        set.objects@[pos.obj_idx as int].sections@,
        raw,
    ) == Some(section_pos as int)
}

/// The cache's address table for the object of `pos` witnesses `size` as
/// the inferred extent of a symbol at `addr` in the section at
/// `section_pos`.
pub open spec fn macho_size_ok(
    cache: Cache,
    set: LoadedSet,
    pos: SymbolPosition,
    section_pos: int,
    addr: u64,
    size: u64,
) -> bool {
    exists|w: int|
        #[trigger] inferred_extent(
            cache.symmap_list@[pos.obj_idx as int]@,
            addr,
            set.objects@[pos.obj_idx as int].sections@[section_pos],
            size,
            w,
        )
}

/// The classification letter of a section's contents, in its local
/// (lower-case) form.
pub open spec fn class_letter_spec(class: crate::model::SectionClass) -> char {
    match class {
        crate::model::SectionClass::Text => 't',
        crate::model::SectionClass::Data => 'd',
        crate::model::SectionClass::Tls => 'd',
        crate::model::SectionClass::TlsVariables => 'd',
        crate::model::SectionClass::ReadOnlyData => 'r',
        crate::model::SectionClass::ReadOnlyString => 'r',
        crate::model::SectionClass::UninitializedData => 'b',
        crate::model::SectionClass::UninitializedTls => 'b',
        crate::model::SectionClass::Common => 'C',
        crate::model::SectionClass::Other => '?',
    }
}

/// Upper-case a classification letter for a global symbol.
pub open spec fn upper_letter_spec(c: char) -> char {
    if c == 't' {
        'T'
    } else if c == 'd' {
        'D'
    } else if c == 'r' {
        'R'
    } else if c == 'b' {
        'B'
    } else {
        c
    }
}

/// The classification letter of one occurrence: `U`ndefined, `A`bsolute,
/// `C`ommon, or its section's letter — text, data, read-only, uninitialized,
/// or unknown — upper-cased for a global symbol.
pub open spec fn kind_spec(set: LoadedSet, pos: SymbolPosition) -> char {
    let sym = set.symbol_at(pos);
    let base = match sym.section {
        SectionRef::Undefined => 'U',
        SectionRef::Absolute => 'A',
        SectionRef::Common => 'C',
        SectionRef::Defined(raw) => match section_position_of(
            set.objects@[pos.obj_idx as int].sections@,
            raw,
        ) {
            Option::Some(sp) => class_letter_spec(
                set.objects@[pos.obj_idx as int].sections@[sp].class,
            ),
            Option::None => '?',
        },
        SectionRef::Other => '?',
    };
    if sym.global {
        upper_letter_spec(base)
    } else {
        base
    }
}

/// The explorer session: the loaded set, its positional symbol index, and
/// the current-object disambiguation filter.
pub struct Explorer {
    pub set: LoadedSet,
    pub symbol_map: PositionalSymbolIndex,
    pub current_obj_idx: Option<usize>,
}

impl Explorer {
    /// The session is consistent: the set is well-formed, the index
    /// describes it, and the filter names a loaded object.
    pub open spec fn wf(self) -> bool {
        &&& self.set.wf()
        &&& self.symbol_map.wf()
        &&& self.symbol_map.describes(self.set.objects@)
        &&& match self.current_obj_idx {
            Option::Some(i) => i < self.set.objects@.len(),
            Option::None => true,
        }
    }

    /// Build a session over a loaded set: index every symbol, with no filter
    /// set. Success means every stored symbol name was readable, and the
    /// index's entries stand in first-occurrence order; failure names the
    /// object whose symbol name could not be read.
    pub fn build(set: LoadedSet) -> (r: Result<Explorer, Error>)
        requires
            set.wf(),
        ensures
            r matches Ok(e) ==> ({
                &&& e.wf()
                &&& e.set == set
                &&& e.current_obj_idx is None
                &&& !crate::index::has_bad_name(set.objects@)
                &&& e.symbol_map.entries@.map_values(|en: crate::index::IndexEntry| en.name@)
                    == crate::index::first_seen(crate::index::scan_names(set.objects@))
            }),
            r matches Err(e) ==> crate::index::has_bad_name(set.objects@) && (
            e matches Error::BadSymbolName(nm) && exists|o: int|
                0 <= o < set.objects@.len() && nm@ == (#[trigger] set.objects@[o]).name@ && exists|s: int|
                    0 <= s < set.objects@[o].symbols@.len() && !(
                    #[trigger] set.objects@[o].symbols@[s]).name_ok),
    {
        let symbol_map = match build_index(&set) {
            Ok(m) => m,
            Err(e) => {
                return Err(e);
            },
        };
        Ok(Explorer { set, symbol_map, current_obj_idx: None })
    }

    /// The classification letter of one occurrence.
    pub fn symbol_kind(&self, pos: SymbolPosition) -> (r: char)
        requires
            self.wf(),
            self.set.pos_valid(pos),
        ensures
            r == kind_spec(self.set, pos),
    {
        let obj = &self.set.objects[pos.obj_idx];
        let sym = &obj.symbols[pos.sym_idx];
        let base: char = match sym.section {
            SectionRef::Undefined => 'U',
            SectionRef::Absolute => 'A',
            SectionRef::Common => 'C',
            SectionRef::Defined(raw) => match find_section_position(&obj.sections, raw) {
                Some(sp) => {
                    proof {
                        crate::model::lemma_section_position_of(obj.sections@, raw);
                    }
                    match obj.sections[sp].class {
                        crate::model::SectionClass::Text => 't',
                        crate::model::SectionClass::Data => 'd',
                        crate::model::SectionClass::Tls => 'd',
                        crate::model::SectionClass::TlsVariables => 'd',
                        crate::model::SectionClass::ReadOnlyData => 'r',
                        crate::model::SectionClass::ReadOnlyString => 'r',
                        crate::model::SectionClass::UninitializedData => 'b',
                        crate::model::SectionClass::UninitializedTls => 'b',
                        crate::model::SectionClass::Common => 'C',
                        crate::model::SectionClass::Other => '?',
                    }
                },
                None => '?',
            },
            SectionRef::Other => '?',
        };
        if sym.global {
            if base == 't' {
                'T'
            } else if base == 'd' {
                'D'
            } else if base == 'r' {
                'R'
            } else if base == 'b' {
                'B'
            } else {
                base
            }
        } else {
            base
        }
    }

    /// Resolve one occurrence: its owning section, its definitive size —
    /// stored directly, or inferred for the format that stores none as the
    /// gap to the next symbol address (to the section's end for the last) —
    /// and its classification letter.
    pub fn index(&self, cache: &mut Cache, pos: SymbolPosition) -> (r: Result<Symbol, Error>)
        requires
            self.wf(),
            old(cache).wf(self.set),
            self.set.pos_valid(pos),
        ensures
            final(cache).wf(self.set),
            final(cache).sections@ == old(cache).sections@,
            final(cache).reloc_tables@ == old(cache).reloc_tables@,
            final(cache).decompress_calls == old(cache).decompress_calls,
            old(cache).symmap_list@.len() > 0 ==> final(cache).symmap_list@ == old(
                cache,
            ).symmap_list@,
            final(cache).symmap_list@.len() >= old(cache).symmap_list@.len(),
            ({
                let sym = self.set.symbol_at(pos);
                let obj = self.set.objects@[pos.obj_idx as int];
                match r {
                    Ok(rs) => {
                        &&& sym.section matches SectionRef::Defined(raw)
                            && section_position_of(obj.sections@, raw) == Some(
                            rs.section_pos as int,
                        )
                        &&& rs.pos == pos
                        &&& rs.address == sym.address
                        &&& rs.kind == kind_spec(self.set, pos)
                        &&& (obj.format != FormatKind::MachO ==> rs.size == sym.size)
                        &&& (obj.format == FormatKind::MachO ==> macho_size_ok(
                            *final(cache),
                            self.set,
                            pos,
                            rs.section_pos as int,
                            sym.address,
                            rs.size,
                        ))
                    },
                    Err(e) => {
                        ||| (e == Error::SymbolUndefined && sym.section is Undefined)
                        ||| (e == Error::BadSection && !(sym.section is Undefined) && (match sym.section {
                            SectionRef::Defined(raw) => section_position_of(obj.sections@, raw) is None,
                            _ => true,
                        }))
                        ||| (e == Error::Overflow && obj.format == FormatKind::MachO && (
                        sym.section matches SectionRef::Defined(raw) && (section_position_of(
                            obj.sections@,
                            raw,
                        ) matches Some(sp) && !has_defined_above(obj.symbols@, sym.address) && ({
                            let section = obj.sections@[sp];
                            section.address + section.size > u64::MAX || section.address
                                + section.size < sym.address
                        }))))
                    },
                }
            }),
            ({
                let sym = self.set.symbol_at(pos);
                let obj = self.set.objects@[pos.obj_idx as int];
                (sym.section matches SectionRef::Defined(raw) && (section_position_of(
                    obj.sections@,
                    raw,
                ) matches Some(sp) && (obj.format != FormatKind::MachO || has_defined_above(
                    obj.symbols@,
                    sym.address,
                ) || ({
                    let section = obj.sections@[sp];
                    section.address + section.size <= u64::MAX && section.address + section.size
                        >= sym.address
                })))) ==> r is Ok
            }),
    {
        let obj = &self.set.objects[pos.obj_idx];
        let sym = &obj.symbols[pos.sym_idx];
        let raw: usize = match sym.section {
            SectionRef::Defined(raw) => raw,
            SectionRef::Undefined => {
                return Err(Error::SymbolUndefined);
            },
            _ => {
                return Err(Error::BadSection);
            },
        };
        let section_pos: usize = match find_section_position(&obj.sections, raw) {
            Some(sp) => sp,
            None => {
                return Err(Error::BadSection);
            },
        };
        proof {
            crate::model::lemma_section_position_of(obj.sections@, raw);
        }
        let size: u64 = if obj.format != FormatKind::MachO {
            sym.size
        } else {
            cache.init_symmap(&self.set);
            assert(self.set.objects@[0].format == FormatKind::MachO) by {
                assert(self.set.objects@[pos.obj_idx as int].format
                    == self.set.objects@[0].format);
            }
            let table = &cache.symmap_list[pos.obj_idx];
            let ghost table_view = table@;
            proof {
                // A defined symbol's address is always in its object's
                // sorted address table, and the table holds an address
                // above it exactly when some defined symbol lies above it.
                let syms = self.set.objects@[pos.obj_idx as int].symbols@;
                lemma_defined_addresses_contains(syms, pos.sym_idx as int);
                lemma_multiset_carries(defined_addresses(syms), table_view, sym.address);
                lemma_defined_above(syms, sym.address);
                lemma_multiset_above(table_view, defined_addresses(syms), sym.address);
            }
            let ub = upper_bound(table, sym.address);
            let inferred: u64 = if ub < table.len() {
                table[ub] - sym.address
            } else {
                proof {
                    assert(!has_defined_above(
                        self.set.objects@[pos.obj_idx as int].symbols@,
                        sym.address,
                    )) by {
                        if exists|w: int|
                            0 <= w < table_view.len() && #[trigger] table_view[w] > sym.address {
                            let w = choose|w: int|
                                0 <= w < table_view.len() && #[trigger] table_view[w] > sym.address;
                            assert(table_view[w] > sym.address);
                        }
                    }
                }
                let section = &obj.sections[section_pos];
                let end = match section.address.checked_add(section.size) {
                    Some(v) => v,
                    None => {
                        return Err(Error::Overflow);
                    },
                };
                match end.checked_sub(sym.address) {
                    Some(v) => v,
                    None => {
                        return Err(Error::Overflow);
                    },
                }
            };
            proof {
                let section = obj.sections@[section_pos as int];
                assert(inferred_extent(table_view, sym.address, section, inferred, ub as int));
                assert(macho_size_ok(
                    *cache,
                    self.set,
                    pos,
                    section_pos as int,
                    sym.address,
                    inferred,
                ));
            }
            inferred
        };
        let kind = self.symbol_kind(pos);
        Ok(Symbol { pos, section_pos, address: sym.address, size, kind })
    }
}

impl Cache {
    /// The cache slot holding the decompressed bytes of one section, if any.
    pub fn find_section(&self, obj_idx: usize, section_pos: usize) -> (r: Option<usize>)
        ensures
            match r {
                Option::Some(a) => a < self.sections@.len() && self.sections@[a as int].obj_idx
                    == obj_idx && self.sections@[a as int].section_pos == section_pos,
                Option::None => forall|a: int|
                    0 <= a < self.sections@.len() ==> !((#[trigger] self.sections@[a]).obj_idx
                        == obj_idx && self.sections@[a].section_pos == section_pos),
            },
    {
        let n: usize = self.sections.len();
        let mut a: usize = 0;
        while a < n
            invariant
                n == self.sections@.len(),
                0 <= a <= n,
                forall|t: int|
                    0 <= t < a ==> !((#[trigger] self.sections@[t]).obj_idx == obj_idx
                        && self.sections@[t].section_pos == section_pos),
            decreases n - a,
        {
            if self.sections[a].obj_idx == obj_idx && self.sections[a].section_pos == section_pos {
                return Some(a);
            }
            a += 1;
        }
        None
    }

    /// The sorted relocation table of one section, if built.
    pub fn find_reloc_table(&self, obj_idx: usize, section_pos: usize) -> (r: Option<usize>)
        ensures
            match r {
                Option::Some(t) => t < self.reloc_tables@.len() && self.reloc_tables@[t as int].obj_idx
                    == obj_idx && self.reloc_tables@[t as int].section_pos == section_pos,
                Option::None => forall|t: int|
                    0 <= t < self.reloc_tables@.len() ==> !((
                    #[trigger] self.reloc_tables@[t]).obj_idx == obj_idx
                        && self.reloc_tables@[t].section_pos == section_pos),
            },
    {
        let n: usize = self.reloc_tables.len();
        let mut t: usize = 0;
        while t < n
            invariant
                n == self.reloc_tables@.len(),
                0 <= t <= n,
                forall|w: int|
                    0 <= w < t ==> !((#[trigger] self.reloc_tables@[w]).obj_idx == obj_idx
                        && self.reloc_tables@[w].section_pos == section_pos),
            decreases n - t,
        {
            if self.reloc_tables[t].obj_idx == obj_idx && self.reloc_tables[t].section_pos
                == section_pos {
                return Some(t);
            }
            t += 1;
        }
        None
    }
}

/// The section's bytes are at hand: stored plain, or already decompressed
/// into the cache.
pub open spec fn section_ready(
    cache: Cache,
    set: LoadedSet,
    obj_idx: usize,
    section_pos: usize,
) -> bool {
    ||| set.objects@[obj_idx as int].sections@[section_pos as int].compression
        == CompressionKind::Plain
    ||| exists|a: int|
        0 <= a < cache.sections@.len() && (#[trigger] cache.sections@[a]).obj_idx == obj_idx
            && cache.sections@[a].section_pos == section_pos
}

/// The cache slot a ready compressed section occupies.
pub open spec fn cached_entry(cache: Cache, obj_idx: usize, section_pos: usize) -> CacheEntry {
    cache.sections@[choose|a: int|
        0 <= a < cache.sections@.len() && (#[trigger] cache.sections@[a]).obj_idx == obj_idx
            && cache.sections@[a].section_pos == section_pos]
}

/// What a dump of `sym` returns: its byte window of the section's plain
/// bytes, or of the cached decompressed bytes, bounds-checked either way.
pub open spec fn dump_bytes_spec(set: LoadedSet, cache: Cache, sym: Symbol) -> Result<
    Seq<u8>,
    Error,
> {
    let section = set.objects@[sym.pos.obj_idx as int].sections@[sym.section_pos as int];
    if section.compression == CompressionKind::Plain {
        data_range_spec(section.data@, section.address, sym.address, sym.size)
    } else {
        let entry = cached_entry(cache, sym.pos.obj_idx, sym.section_pos);
        data_range_spec(entry.data@, entry.address, sym.address, sym.size)
    }
}

/// A resolved symbol points into the set: a valid occurrence and a section
/// position within its object.
pub open spec fn sym_wf(set: LoadedSet, sym: Symbol) -> bool {
    &&& set.pos_valid(sym.pos)
    &&& (sym.section_pos as int) < set.objects@[sym.pos.obj_idx as int].sections@.len()
}

impl Explorer {
    /// Look a symbol name up in the positional index.
    pub fn get(&self, name: &[u8]) -> (r: Result<&Vec<SymbolPosition>, Error>)
        requires
            self.wf(),
        ensures
            match r {
                Ok(positions) => positions@ == occurrences(self.set.objects@, name@)
                    && positions@.len() > 0,
                Err(e) => e == Error::NotFoundSymbol && occurrences(self.set.objects@, name@).len()
                    == 0,
            },
    {
        match self.symbol_map.get(name) {
            Ok(positions) => Ok(positions),
            Err(e) => {
                proof {
                    if occurrences(self.set.objects@, name@).len() > 0 {
                        assert(exists|k: int|
                            0 <= k < self.symbol_map.entries@.len() && (
                            #[trigger] self.symbol_map.entries@[k]).name@ == name@);
                    }
                }
                Err(e)
            },
        }
    }

    /// Make a symbol's section bytes available: decompress it into the cache
    /// on the first request, and never again — a section already at hand
    /// leaves the cache untouched.
    pub fn ensure_section_data(&self, cache: &mut Cache, obj_idx: usize, section_pos: usize) -> (r:
        Result<(), Error>)
        requires
            self.wf(),
            old(cache).wf(self.set),
            obj_idx < self.set.objects@.len(),
            (section_pos as int) < self.set.objects@[obj_idx as int].sections@.len(),
        ensures
            final(cache).wf(self.set),
            final(cache).symmap_list@ == old(cache).symmap_list@,
            final(cache).reloc_tables@ == old(cache).reloc_tables@,
            final(cache).sections@.len() >= old(cache).sections@.len(),
            forall|a: int|
                0 <= a < old(cache).sections@.len() ==> #[trigger] final(cache).sections@[a] == old(
                    cache,
                ).sections@[a],
            r is Ok ==> section_ready(*final(cache), self.set, obj_idx, section_pos),
            section_ready(*old(cache), self.set, obj_idx, section_pos) ==> *final(cache) == *old(
                cache,
            ) && r is Ok,
            r is Err ==> *final(cache) == *old(cache),
            r matches Err(e) ==> e matches Error::DecompressFailed(_) && decompressed_of(
                self.set.objects@[obj_idx as int].sections@[section_pos as int].compression,
                self.set.objects@[obj_idx as int].sections@[section_pos as int].data@,
                self.set.objects@[obj_idx as int].sections@[section_pos as int].uncompressed_size,
            ) is None,
    {
        let section = &self.set.objects[obj_idx].sections[section_pos];
        match section.compression {
            CompressionKind::Plain => {
                return Ok(());
            },
            _ => {},
        }
        match cache.find_section(obj_idx, section_pos) {
            Some(_) => {
                return Ok(());
            },
            None => {},
        }
        let data = match decompress_section(
            section.compression,
            section.data.as_slice(),
            section.uncompressed_size,
        ) {
            Ok(d) => d,
            Err(e) => {
                let out = match e {
                    Error::DecompressFailed(m) => Error::DecompressFailed(m),
                    _ => Error::DecompressFailed(Vec::new()),
                };
                return Err(out);
            },
        };
        let ghost old_sections = cache.sections@;
        cache.sections.push(
            CacheEntry { obj_idx, section_pos, address: section.address, data },
        );
        let n: usize = cache.sections.len();
        cache.decompress_calls = n as u64;
        proof {
            let e = cache.sections@[cache.sections@.len() - 1];
            assert(e.obj_idx == obj_idx && e.section_pos == section_pos);
        }
        Ok(())
    }

    /// The exact byte window of a resolved symbol, borrowed from the cache
    /// when its section was compressed and from the loaded set when not.
    pub fn dump<'c, 's>(&'s self, cache: &'c Cache, sym: &Symbol) -> (r: Result<
        DoubleLife<'c, 's, [u8]>,
        Error,
    >)
        requires
            self.wf(),
            cache.wf(self.set),
            sym_wf(self.set, *sym),
            section_ready(*cache, self.set, sym.pos.obj_idx, sym.section_pos),
        ensures
            match r {
                Ok(d) => dump_bytes_spec(self.set, *cache, *sym) == Ok::<Seq<u8>, Error>(
                    match d {
                        DoubleLife::Left(b) => b@,
                        DoubleLife::Right(b) => b@,
                    },
                ) && (d is Right <==> self.set.objects@[sym.pos.obj_idx as int].sections@[sym.section_pos as int].compression
                    == CompressionKind::Plain),
                Err(e) => dump_bytes_spec(self.set, *cache, *sym) == Err::<Seq<u8>, Error>(e),
            },
    {
        let obj = &self.set.objects[sym.pos.obj_idx];
        let section = &obj.sections[sym.section_pos];
        match section.compression {
            CompressionKind::Plain => {
                match data_range(section.data.as_slice(), section.address, sym.address, sym.size) {
                    Ok(b) => Ok(DoubleLife::Right(b)),
                    Err(e) => Err(e),
                }
            },
            _ => {
                let a = match cache.find_section(sym.pos.obj_idx, sym.section_pos) {
                    Some(a) => a,
                    None => {
                        proof {
                            assert(false);
                        }
                        return Err(Error::BadSection);
                    },
                };
                proof {
                    let c = choose|c: int|
                        0 <= c < cache.sections@.len() && (#[trigger] cache.sections@[c]).obj_idx
                            == sym.pos.obj_idx && cache.sections@[c].section_pos
                            == sym.section_pos;
                    assert(c == a as int);
                }
                let entry = &cache.sections[a];
                match data_range(entry.data.as_slice(), entry.address, sym.address, sym.size) {
                    Ok(b) => Ok(DoubleLife::Left(b)),
                    Err(e) => Err(e),
                }
            },
        }
    }
}

/// The first position of a sorted slot list whose offset is at least `x`.
fn key_lower_bound(v: &Vec<RelocKey>, x: u64) -> (r: usize)
    requires
        sorted_by_key(v@),
    ensures
        0 <= r <= v@.len(),
        forall|j: int| 0 <= j < r ==> (#[trigger] v@[j]).offset < x,
        forall|j: int| r <= j < v@.len() ==> (#[trigger] v@[j]).offset >= x,
{
    let mut lo: usize = 0;
    let mut hi: usize = v.len();
    while lo < hi
        invariant
            0 <= lo <= hi <= v@.len(),
            forall|j: int| 0 <= j < lo ==> (#[trigger] v@[j]).offset < x,
            forall|j: int| hi <= j < v@.len() ==> (#[trigger] v@[j]).offset >= x,
            sorted_by_key(v@),
        decreases hi - lo,
    {
        let mid: usize = lo + (hi - lo) / 2;
        if v[mid].offset < x {
            assert(forall|j: int|
                0 <= j <= mid ==> (#[trigger] v@[j]).key_spec() <= v@[mid as int].key_spec());
            lo = mid + 1;
        } else {
            hi = mid;
        }
    }
    lo
}

/// Every slot of a table whose slots are a permutation of a section's slots
/// points at a real entry and carries its offset.
proof fn lemma_key_in_table(keys: Seq<RelocKey>, relocs: Seq<RelocRecord>, k: int)
    requires
        keys.to_multiset() == reloc_keys_of(relocs).to_multiset(),
        0 <= k < keys.len(),
        relocs.len() <= usize::MAX,
    ensures
        (keys[k].pos as int) < relocs.len(),
        keys[k].offset == relocs[keys[k].pos as int].offset,
        reloc_keys_of(relocs)[keys[k].pos as int] == keys[k],
{
    keys.to_multiset_ensures();
    reloc_keys_of(relocs).to_multiset_ensures();
    assert(keys.contains(keys[k]));
    assert(keys.to_multiset().count(keys[k]) > 0);
    assert(reloc_keys_of(relocs).to_multiset().count(keys[k]) > 0);
    assert(reloc_keys_of(relocs).contains(keys[k]));
    let i = choose|i: int| 0 <= i < reloc_keys_of(relocs).len() && reloc_keys_of(relocs)[i] == keys[k];
    assert(reloc_keys_of(relocs)[i].pos == i as usize);
}

/// One listed relocation reproduces one stored entry: same offset and
/// addend, and the same symbol or section target.
pub open spec fn reloc_matches(out: Relocation, rec: RelocRecord) -> bool {
    &&& out.offset == rec.offset
    &&& out.addend == rec.addend
    &&& match rec.target {
        RelocTargetKind::Symbol(i) => out.target == RelocationTarget::Symbol(i),
        RelocTargetKind::Section(i) => out.target == RelocationTarget::Section(i),
        RelocTargetKind::Other(_) => false,
    }
}

/// Window `[start, end)` of a sorted slot list holds exactly the slots
/// whose offset lies in `[lo, hi)`, and `list` reproduces its entries in
/// order.
pub open spec fn reloc_window_ok(
    keys: Seq<RelocKey>,
    relocs: Seq<RelocRecord>,
    lo: u64,
    hi: u64,
    list: Seq<Relocation>,
    start: int,
    end: int,
) -> bool {
    &&& 0 <= start <= end <= keys.len()
    &&& (forall|j: int| 0 <= j < start ==> (#[trigger] keys[j]).offset < lo)
    &&& (forall|j: int| start <= j < end ==> lo <= (#[trigger] keys[j]).offset < hi)
    &&& (forall|j: int| end <= j < keys.len() ==> (#[trigger] keys[j]).offset >= hi)
    &&& list.len() == end - start
    &&& (forall|k: int|
        0 <= k < list.len() ==> reloc_matches(#[trigger] list[k], relocs[keys[start + k].pos as int]))
}

/// The cache's sorted table for the section of `sym` has a window holding
/// exactly the slots whose offset lies in `[lo, hi)`, and `list` reproduces
/// that window's entries in order.
pub open spec fn reloc_query_ok(
    cache: Cache,
    set: LoadedSet,
    sym: Symbol,
    lo: u64,
    hi: u64,
    list: Seq<Relocation>,
) -> bool {
    exists|t: int|
        ({
            &&& 0 <= t < cache.reloc_tables@.len()
            &&& (#[trigger] cache.reloc_tables@[t]).obj_idx == sym.pos.obj_idx
            &&& cache.reloc_tables@[t].section_pos == sym.section_pos
            &&& exists|start: int, end: int|
                #[trigger] reloc_window_ok(
                    cache.reloc_tables@[t].keys@,
                    set.objects@[sym.pos.obj_idx as int].sections@[sym.section_pos as int].relocs@,
                    lo,
                    hi,
                    list,
                    start,
                    end,
                )
        })
}

impl Cache {
    /// Build the sorted relocation table of one section on its first
    /// request; a table already built leaves the cache untouched.
    pub fn init_reloc(&mut self, set: &LoadedSet, obj_idx: usize, section_pos: usize)
        requires
            set.wf(),
            old(self).wf(*set),
            obj_idx < set.objects@.len(),
            (section_pos as int) < set.objects@[obj_idx as int].sections@.len(),
        ensures
            final(self).wf(*set),
            final(self).symmap_list@ == old(self).symmap_list@,
            final(self).sections@ == old(self).sections@,
            final(self).decompress_calls == old(self).decompress_calls,
            exists|t: int|
                0 <= t < final(self).reloc_tables@.len() && (
                #[trigger] final(self).reloc_tables@[t]).obj_idx == obj_idx
                    && final(self).reloc_tables@[t].section_pos == section_pos,
            final(self).reloc_tables@.len() >= old(self).reloc_tables@.len(),
            forall|t: int|
                0 <= t < old(self).reloc_tables@.len() ==> #[trigger] final(self).reloc_tables@[t]
                    == old(self).reloc_tables@[t],
            (exists|t: int|
                0 <= t < old(self).reloc_tables@.len() && (
                #[trigger] old(self).reloc_tables@[t]).obj_idx == obj_idx
                    && old(self).reloc_tables@[t].section_pos == section_pos) ==> *final(self)
                == *old(self),
    {
        match self.find_reloc_table(obj_idx, section_pos) {
            Some(t) => {
                proof {
                    assert((self.reloc_tables@[t as int]).obj_idx == obj_idx);
                }
                return ;
            },
            None => {},
        }
        let relocs = &set.objects[obj_idx].sections[section_pos].relocs;
        let n: usize = relocs.len();
        let mut slots: Vec<RelocKey> = Vec::new();
        let mut i: usize = 0;
        while i < n
            invariant
                n == relocs@.len(),
                0 <= i <= n,
                slots@.len() == i,
                forall|j: int| 0 <= j < i ==> slots@[j] == reloc_keys_of(relocs@)[j],
            decreases n - i,
        {
            slots.push(RelocKey { offset: relocs[i].offset, pos: i });
            i += 1;
        }
        proof {
            assert(slots@ =~= reloc_keys_of(relocs@));
        }
        let keys = insertion_sort(slots);
        let ghost old_tables = self.reloc_tables@;
        self.reloc_tables.push(RelocTable { obj_idx, section_pos, keys });
        proof {
            let t = self.reloc_tables@.len() - 1;
            assert((self.reloc_tables@[t]).obj_idx == obj_idx && self.reloc_tables@[t].section_pos
                == section_pos);
            assert(forall|w: int| 0 <= w < t ==> self.reloc_tables@[w] == (#[trigger] old_tables[w]));
        }
    }
}

impl Explorer {
    /// Every relocation whose offset lies in the resolved symbol's byte
    /// range `[address - section base, .. + size)`, with its absolute
    /// offset, its signed addend, and its symbol or section target, in
    /// offset order. A target of any other kind is an error naming the raw
    /// descriptor.
    pub fn reloc(&self, cache: &mut Cache, sym: &Symbol) -> (r: Result<Vec<Relocation>, Error>)
        requires
            self.wf(),
            old(cache).wf(self.set),
            sym_wf(self.set, *sym),
        ensures
            final(cache).wf(self.set),
            final(cache).symmap_list@ == old(cache).symmap_list@,
            final(cache).sections@ == old(cache).sections@,
            final(cache).decompress_calls == old(cache).decompress_calls,
            ({
                let section =
                    self.set.objects@[sym.pos.obj_idx as int].sections@[sym.section_pos as int];
                let relocs = section.relocs@;
                match r {
                    Ok(list) => sym.address >= section.address && sym.address - section.address
                        + sym.size <= u64::MAX && reloc_query_ok(
                        *final(cache),
                        self.set,
                        *sym,
                        (sym.address - section.address) as u64,
                        (sym.address - section.address + sym.size) as u64,
                        list@,
                    ),
                    Err(e) => {
                        ||| (e == Error::BadAddress && sym.address < section.address)
                        ||| (e == Error::Overflow && sym.address - section.address + sym.size
                            > u64::MAX)
                        ||| (e matches Error::UnsupportedRelocTarget(d) && exists|i: int|
                            0 <= i < relocs.len() && ((#[trigger] relocs[i]).target matches
                                RelocTargetKind::Other(v) && v@ == d@) && section.address <= sym.address
                                && relocs[i].offset >= sym.address - section.address
                                && relocs[i].offset < sym.address - section.address + sym.size)
                    },
                }
            }),
    {
        cache.init_reloc(&self.set, sym.pos.obj_idx, sym.section_pos);
        let t = match cache.find_reloc_table(sym.pos.obj_idx, sym.section_pos) {
            Some(t) => t,
            None => {
                proof {
                    assert(false);
                }
                return Err(Error::BadSection);
            },
        };
        let obj = &self.set.objects[sym.pos.obj_idx];
        let section = &obj.sections[sym.section_pos];
        let lo = match sym.address.checked_sub(section.address) {
            Some(v) => v,
            None => {
                return Err(Error::BadAddress);
            },
        };
        let hi = match lo.checked_add(sym.size) {
            Some(v) => v,
            None => {
                return Err(Error::Overflow);
            },
        };
        let table = &cache.reloc_tables[t];
        let ghost keys_view = table.keys@;
        let start = key_lower_bound(&table.keys, lo);
        let end = key_lower_bound(&table.keys, hi);
        proof {
            assert(start <= end) by {
                if start > end {
                    assert(keys_view[end as int].offset < lo);
                    assert(keys_view[end as int].offset >= hi);
                }
            }
        }
        let reloc_count: usize = section.relocs.len();
        let mut out: Vec<Relocation> = Vec::new();
        let mut k: usize = start;
        while k < end
            invariant
                self.wf(),
                cache.wf(self.set),
                sym_wf(self.set, *sym),
                cache.symmap_list@ == old(cache).symmap_list@,
                cache.sections@ == old(cache).sections@,
                cache.decompress_calls == old(cache).decompress_calls,
                reloc_count == section.relocs@.len(),
                t < cache.reloc_tables@.len(),
                cache.reloc_tables@[t as int].obj_idx == sym.pos.obj_idx,
                cache.reloc_tables@[t as int].section_pos == sym.section_pos,
                keys_view == cache.reloc_tables@[t as int].keys@,
                section == self.set.objects@[sym.pos.obj_idx as int].sections@[sym.section_pos as int],
                start <= k <= end <= keys_view.len(),
                hi >= lo,
                section.address <= sym.address,
                lo == sym.address - section.address,
                hi == lo + sym.size,
                forall|j: int| 0 <= j < start ==> (#[trigger] keys_view[j]).offset < lo,
                forall|j: int|
                    start <= j < keys_view.len() ==> (#[trigger] keys_view[j]).offset >= lo,
                forall|j: int| end <= j < keys_view.len() ==> (#[trigger] keys_view[j]).offset >= hi,
                forall|j: int| 0 <= j < end ==> (#[trigger] keys_view[j]).offset < hi,
                out@.len() == k - start,
                forall|w: int|
                    0 <= w < out@.len() ==> reloc_matches(
                        #[trigger] out@[w],
                        section.relocs@[keys_view[start + w].pos as int],
                    ),
            decreases end - k,
        {
            proof {
                assert((cache.reloc_tables@[t as int]).obj_idx == sym.pos.obj_idx);
                lemma_key_in_table(keys_view, section.relocs@, k as int);
            }
            let key = cache.reloc_tables[t].keys[k];
            let rec = &section.relocs[key.pos];
            match &rec.target {
                RelocTargetKind::Symbol(i) => {
                    out.push(
                        Relocation {
                            offset: rec.offset,
                            target: RelocationTarget::Symbol(*i),
                            addend: rec.addend,
                        },
                    );
                },
                RelocTargetKind::Section(i) => {
                    out.push(
                        Relocation {
                            offset: rec.offset,
                            target: RelocationTarget::Section(*i),
                            addend: rec.addend,
                        },
                    );
                },
                RelocTargetKind::Other(v) => {
                    let d = crate::names::copy_bytes(v.as_slice());
                    proof {
                        assert(rec.offset == keys_view[k as int].offset);
                        assert(lo <= rec.offset < hi);
                        let i = keys_view[k as int].pos as int;
                        assert(0 <= i < section.relocs@.len() && ((
                        #[trigger] section.relocs@[i]).target matches RelocTargetKind::Other(v2)
                            && v2@ == d@) && section.address <= sym.address
                            && section.relocs@[i].offset >= sym.address - section.address
                            && section.relocs@[i].offset < sym.address - section.address
                            + sym.size);
                    }
                    return Err(Error::UnsupportedRelocTarget(d));
                },
            }
            k += 1;
        }
        proof {
            assert(reloc_query_ok(*cache, self.set, *sym, lo, hi, out@)) by {
                let keys = cache.reloc_tables@[t as int].keys@;
                assert(reloc_window_ok(
                    keys,
                    section.relocs@,
                    lo,
                    hi,
                    out@,
                    start as int,
                    end as int,
                ));
            }
        }
        Ok(out)
    }
}

/// The occurrences of one object among `syms`, in order.
pub open spec fn positions_in_object(syms: Seq<SymbolPosition>, obj_idx: usize) -> Seq<
    SymbolPosition,
>
    decreases syms.len(),
{
    if syms.len() == 0 {
        Seq::empty()
    } else {
        let pre = positions_in_object(syms.drop_last(), obj_idx);
        if syms.last().obj_idx == obj_idx {
            pre.push(syms.last())
        } else {
            pre
        }
    }
}

/// The candidate list the disambiguation works over: the full occurrence
/// list, narrowed to the current object when one is set and the list is
/// ambiguous.
pub open spec fn narrowed(syms: Seq<SymbolPosition>, cur: Option<usize>) -> Seq<SymbolPosition> {
    if syms.len() == 1 {
        syms
    } else {
        match cur {
            Option::Some(o) => positions_in_object(syms, o),
            Option::None => syms,
        }
    }
}

/// Pick one occurrence: the only one (after narrowing to the current
/// object), or the one the explicit index names; `None` when several remain
/// and no index was given.
pub fn select(explorer: &Explorer, syms: &Vec<SymbolPosition>, idx_token: Option<&Vec<u8>>) -> (r:
    Result<Option<SymbolPosition>, Error>)
    requires
        syms@.len() > 0,
    ensures
        ({
            let eff = narrowed(syms@, explorer.current_obj_idx);
            match r {
                Ok(choice) => match choice {
                    Option::Some(p) => (eff.len() == 1 && p == eff[0]) || (eff.len() != 1 && (
                    idx_token matches Some(tok) && crate::names::all_digits(tok@) && tok@.len() > 0
                        && crate::names::dec_value(tok@) < eff.len() && p == eff[
                        crate::names::dec_value(tok@)
                    ])),
                    Option::None => eff.len() != 1 && idx_token is None,
                },
                Err(e) => eff.len() != 1 && match e {
                    Error::NeedIndexNumber => (idx_token matches Some(tok) && (
                    !crate::names::all_digits(tok@) || tok@.len() == 0 || crate::names::dec_value(
                        tok@,
                    ) > usize::MAX)),
                    Error::IndexTooLarge => (idx_token matches Some(tok)
                        && crate::names::all_digits(tok@) && tok@.len() > 0
                        && crate::names::dec_value(tok@) >= eff.len()),
                    _ => false,
                },
            }
        }),
{
    let mut narrowed_syms: Vec<SymbolPosition> = Vec::new();
    let use_filter = syms.len() != 1 && explorer.current_obj_idx.is_some();
    if use_filter {
        let cur: usize = match explorer.current_obj_idx {
            Some(o) => o,
            None => 0,
        };
        let n: usize = syms.len();
        let mut i: usize = 0;
        while i < n
            invariant
                n == syms@.len(),
                0 <= i <= n,
                narrowed_syms@ == positions_in_object(syms@.take(i as int), cur),
            decreases n - i,
        {
            proof {
                assert(syms@.take(i as int + 1).drop_last() =~= syms@.take(i as int));
                assert(syms@.take(i as int + 1).last() == syms@[i as int]);
            }
            if syms[i].obj_idx == cur {
                narrowed_syms.push(syms[i]);
            }
            i += 1;
        }
        proof {
            assert(syms@.take(n as int) =~= syms@);
        }
    } else {
        let n: usize = syms.len();
        let mut i: usize = 0;
        while i < n
            invariant
                n == syms@.len(),
                0 <= i <= n,
                narrowed_syms@ == syms@.take(i as int),
            decreases n - i,
        {
            narrowed_syms.push(syms[i]);
            proof {
                assert(narrowed_syms@ =~= syms@.take(i as int + 1));
            }
            i += 1;
        }
        proof {
            assert(syms@.take(n as int) =~= syms@);
        }
    }
    if narrowed_syms.len() == 1 {
        return Ok(Some(narrowed_syms[0]));
    }
    match idx_token {
        Some(tok) => {
            let v = match crate::names::parse_usize(tok.as_slice()) {
                Ok(v) => v,
                Err(e) => {
                    return Err(e);
                },
            };
            if v >= narrowed_syms.len() {
                return Err(Error::IndexTooLarge);
            }
            Ok(Some(narrowed_syms[v]))
        },
        None => Ok(None),
    }
}

/// The display information of a relocation's target within one object: for
/// a symbol target, the address and name of the symbol the reported index
/// names; for a section target, the section's.
pub open spec fn target_resolved(
    set: LoadedSet,
    obj_idx: usize,
    target: RelocationTarget,
    is_symbol: bool,
    addr: u64,
    name: Seq<u8>,
) -> bool {
    let obj = set.objects@[obj_idx as int];
    match target {
        RelocationTarget::Symbol(raw) => is_symbol && (exists|i: int|
            crate::model::symbol_position_of(obj.symbols@, raw) == Some(i) && addr == (
            #[trigger] obj.symbols@[i]).address && name == obj.symbols@[i].name@),
        RelocationTarget::Section(raw) => !is_symbol && (exists|i: int|
            section_position_of(obj.sections@, raw) == Some(i) && addr == (
            #[trigger] obj.sections@[i]).address && name == obj.sections@[i].name@),
    }
}

impl Explorer {
    /// The display address and name of a relocation's target: the symbol or
    /// section the reported index names within the owning object.
    pub fn target_info(&self, obj_idx: usize, target: &RelocationTarget) -> (r: Result<
        (u64, Vec<u8>),
        Error,
    >)
        requires
            self.wf(),
            obj_idx < self.set.objects@.len(),
        ensures
            ({
                let obj = self.set.objects@[obj_idx as int];
                match r {
                    Ok(info) => target_resolved(
                        self.set,
                        obj_idx,
                        *target,
                        *target is Symbol,
                        info.0,
                        info.1@,
                    ),
                    Err(e) => e == Error::BadRelocTarget && match *target {
                        RelocationTarget::Symbol(raw) => crate::model::symbol_position_of(
                            obj.symbols@,
                            raw,
                        ) is None,
                        RelocationTarget::Section(raw) => section_position_of(
                            obj.sections@,
                            raw,
                        ) is None,
                    },
                }
            }),
    {
        let obj = &self.set.objects[obj_idx];
        match target {
            RelocationTarget::Symbol(raw) => {
                match crate::model::find_symbol_position(&obj.symbols, *raw) {
                    Some(p) => {
                        proof {
                            crate::model::lemma_symbol_position_of(obj.symbols@, *raw);
                        }
                        let sym = &obj.symbols[p];
                        Ok((sym.address, crate::names::copy_bytes(sym.name.as_slice())))
                    },
                    None => Err(Error::BadRelocTarget),
                }
            },
            RelocationTarget::Section(raw) => {
                match find_section_position(&obj.sections, *raw) {
                    Some(p) => {
                        proof {
                            crate::model::lemma_section_position_of(obj.sections@, *raw);
                        }
                        let sec = &obj.sections[p];
                        Ok((sec.address, crate::names::copy_bytes(sec.name.as_slice())))
                    },
                    None => Err(Error::BadRelocTarget),
                }
            },
        }
    }
}

/// Everything in the narrowed candidate list comes from the original
/// occurrence list.
pub proof fn lemma_narrowed_contained(syms: Seq<SymbolPosition>, cur: Option<usize>)
    ensures
        forall|k: int|
            0 <= k < narrowed(syms, cur).len() ==> syms.contains(
                #[trigger] narrowed(syms, cur)[k],
            ),
{
    match cur {
        Option::Some(o) => {
            if syms.len() != 1 {
                lemma_positions_contained(syms, o);
            }
        },
        Option::None => {},
    }
    assert(forall|k: int| 0 <= k < syms.len() ==> syms.contains(#[trigger] syms[k]));
}

/// Everything the object filter keeps comes from the original list.
proof fn lemma_positions_contained(syms: Seq<SymbolPosition>, obj_idx: usize)
    ensures
        forall|k: int|
            0 <= k < positions_in_object(syms, obj_idx).len() ==> syms.contains(
                #[trigger] positions_in_object(syms, obj_idx)[k],
            ),
    decreases syms.len(),
{
    if syms.len() > 0 {
        lemma_positions_contained(syms.drop_last(), obj_idx);
        assert forall|k: int|
            0 <= k < positions_in_object(syms, obj_idx).len() implies syms.contains(
            #[trigger] positions_in_object(syms, obj_idx)[k],
        ) by {
            let pre = positions_in_object(syms.drop_last(), obj_idx);
            if k < pre.len() {
                assert(syms.drop_last().contains(pre[k]));
                let w = choose|w: int| 0 <= w < syms.drop_last().len() && syms.drop_last()[w] == pre[k];
                assert(syms[w] == pre[k]);
            } else {
                assert(positions_in_object(syms, obj_idx)[k] == syms.last());
                assert(syms[syms.len() - 1] == syms.last());
            }
        }
    }
}

} // verus!
