use vstd::prelude::*;

verus! {

/// The container format of a loaded object, as a closed set of variants so
/// that format-specific branching is exhaustively matched.
#[derive(Clone, Copy, PartialEq, Eq, Structural, Debug)]
pub enum FormatKind {
    Elf,
    MachO,
    Pe,
    Coff,
    Wasm,
    Xcoff,
    Other,
}

/// What a section holds, as far as the classification letters care.
#[derive(Clone, Copy, PartialEq, Eq, Structural, Debug)]
pub enum SectionClass {
    Text,
    Data,
    Tls,
    TlsVariables,
    ReadOnlyData,
    ReadOnlyString,
    UninitializedData,
    UninitializedTls,
    Common,
    Other,
}

/// How a section's stored bytes are compressed.
#[derive(Clone, Copy, PartialEq, Eq, Structural, Debug)]
pub enum CompressionKind {
    Plain,
    Zlib,
    Zstandard,
    Other,
}

/// Where a symbol is defined.
#[derive(Clone, Copy, PartialEq, Eq, Structural, Debug)]
pub enum SectionRef {
    /// The symbol is undefined.
    Undefined,
    /// The symbol has an absolute value.
    Absolute,
    /// The symbol is a common (zero-initialized, mergeable) definition.
    Common,
    /// The symbol is defined in the section with this reported index.
    Defined(usize),
    /// Any other (unknown or inapplicable) section reference.
    Other,
}

/// What a relocation patches the address of.
#[derive(Clone, PartialEq, Eq, Debug)]
pub enum RelocTargetKind {
    /// A symbol, by its reported symbol-table index.
    Symbol(usize),
    /// A section, by its reported section index.
    Section(usize),
    /// Anything else; carries the raw descriptor for the error report.
    Other(Vec<u8>),
}

/// One relocation entry of a section.
#[derive(Clone, PartialEq, Eq, Debug)]
pub struct RelocRecord {
    /// Byte offset of the patched location within the section.
    pub offset: u64,
    /// The signed addend.
    pub addend: i64,
    /// What the patched location will address.
    pub target: RelocTargetKind,
}

/// One symbol-table entry, as plain values.
#[derive(Clone, Debug)]
pub struct SymbolRecord {
    /// The reported symbol-table index (relocations refer to it).
    pub index: usize,
    /// The stored name's bytes; empty when unreadable.
    pub name: Vec<u8>,
    /// Whether the stored name could be read.
    pub name_ok: bool,
    /// The symbol's address.
    pub address: u64,
    /// The stored size; zero for formats that do not store sizes.
    pub size: u64,
    /// Whether the symbol is a text (code) symbol.
    pub is_text: bool,
    /// Whether the symbol has global (external) binding.
    pub global: bool,
    /// Where the symbol is defined.
    pub section: SectionRef,
}

/// One section, as plain values, together with its stored bytes and its
/// relocation entries.
#[derive(Clone, Debug)]
pub struct SectionRecord {
    /// The reported section index (symbols and relocations refer to it).
    pub index: usize,
    /// The section name's bytes; empty when unreadable.
    pub name: Vec<u8>,
    /// Whether the name could be read.
    pub name_ok: bool,
    /// The section's base address.
    pub address: u64,
    /// The section's size in the loaded image.
    pub size: u64,
    /// What the section holds.
    pub class: SectionClass,
    /// How `data` is compressed.
    pub compression: CompressionKind,
    /// The size `data` decompresses to (equal to `data.len()` when plain).
    pub uncompressed_size: u64,
    /// The stored bytes, still compressed when `compression` says so.
    pub data: Vec<u8>,
    /// The section's relocation entries, in stored order.
    pub relocs: Vec<RelocRecord>,
}

/// One loaded object (a file or an archive member), fully normalized into
/// plain values.
#[derive(Clone, Debug)]
pub struct ObjectView {
    /// The file's base name, or the archive member's stored name.
    pub name: Vec<u8>,
    /// The architecture's display name.
    pub arch: Vec<u8>,
    /// The container format.
    pub format: FormatKind,
    /// Whether the object carries debug symbol information.
    pub has_debug_symbols: bool,
    /// Whether the object has a symbol table at all.
    pub has_symbol_table: bool,
    /// The sections, in reported order.
    pub sections: Vec<SectionRecord>,
    /// The symbol table, in reported order.
    pub symbols: Vec<SymbolRecord>,
}

/// One occurrence of a symbol: the position of its object in the loaded set
/// and the position of its record in that object's symbol list.
#[derive(Clone, Copy, PartialEq, Eq, Structural, Debug)]
pub struct SymbolPosition {
    pub obj_idx: usize,
    pub sym_idx: usize,
}

/// An ordered set of loaded objects that share one architecture and one
/// container format.
#[derive(Clone, Debug)]
pub struct LoadedSet {
    pub objects: Vec<ObjectView>,
}

impl LoadedSet {
    /// The set is non-empty and consistent: every object reports the first
    /// object's architecture and format.
    pub open spec fn wf(self) -> bool {
        &&& self.objects@.len() > 0
        &&& forall|i: int|
            0 <= i < self.objects@.len() ==> (#[trigger] self.objects@[i]).arch@
                == self.objects@[0].arch@ && self.objects@[i].format == self.objects@[0].format
    }

    /// A position denotes a symbol record that the set actually holds.
    pub open spec fn pos_valid(self, pos: SymbolPosition) -> bool {
        &&& pos.obj_idx < self.objects@.len()
        &&& pos.sym_idx < self.objects@[pos.obj_idx as int].symbols@.len()
    }

    /// The record a valid position denotes.
    pub open spec fn symbol_at(self, pos: SymbolPosition) -> SymbolRecord {
        self.objects@[pos.obj_idx as int].symbols@[pos.sym_idx as int]
    }

    pub fn object_count(&self) -> (r: usize)
        ensures
            r == self.objects@.len(),
    {
        self.objects.len()
    }
}

/// The position in `sections` of the record with reported index `raw`, if
/// one exists (the first such record, though indices are unique in practice).
pub open spec fn section_position_of(sections: Seq<SectionRecord>, raw: usize) -> Option<int>
    decreases sections.len(),
{
    if sections.len() == 0 {
        None
    } else if sections[0].index == raw {
        Some(0int)
    } else {
        match section_position_of(sections.drop_first(), raw) {
            Option::None => None,
            Option::Some(i) => Some(i + 1),
        }
    }
}

/// The position in `symbols` of the record with reported index `raw`, if one
/// exists.
pub open spec fn symbol_position_of(symbols: Seq<SymbolRecord>, raw: usize) -> Option<int>
    decreases symbols.len(),
{
    if symbols.len() == 0 {
        None
    } else if symbols[0].index == raw {
        Some(0int)
    } else {
        match symbol_position_of(symbols.drop_first(), raw) {
            Option::None => None,
            Option::Some(i) => Some(i + 1),
        }
    }
}

/// What `section_position_of` returns, as a property: a valid position of a
/// record carrying the reported index, and `None` only when no record does.
pub proof fn lemma_section_position_of(sections: Seq<SectionRecord>, raw: usize)
    ensures
        match section_position_of(sections, raw) {
            Option::Some(i) => 0 <= i < sections.len() && sections[i].index == raw,
            Option::None => forall|i: int| 0 <= i < sections.len() ==> sections[i].index != raw,
        },
    decreases sections.len(),
{
    if sections.len() > 0 && sections[0].index != raw {
        lemma_section_position_of(sections.drop_first(), raw);
        assert(forall|i: int|
            1 <= i < sections.len() ==> sections[i] == sections.drop_first()[i - 1]);
    }
}

/// The matching property for `symbol_position_of`.
pub proof fn lemma_symbol_position_of(symbols: Seq<SymbolRecord>, raw: usize)
    ensures
        match symbol_position_of(symbols, raw) {
            Option::Some(i) => 0 <= i < symbols.len() && symbols[i].index == raw,
            Option::None => forall|i: int| 0 <= i < symbols.len() ==> symbols[i].index != raw,
        },
    decreases symbols.len(),
{
    if symbols.len() > 0 && symbols[0].index != raw {
        lemma_symbol_position_of(symbols.drop_first(), raw);
        assert(forall|i: int| 1 <= i < symbols.len() ==> symbols[i] == symbols.drop_first()[i - 1]);
    }
}

/// Find the position of the section record with reported index `raw`.
pub fn find_section_position(sections: &Vec<SectionRecord>, raw: usize) -> (r: Option<usize>)
    ensures
        match r {
            Option::Some(p) => section_position_of(sections@, raw) == Some(p as int),
            Option::None => section_position_of(sections@, raw) is None,
        },
{
    let n: usize = sections.len();
    let mut i: usize = 0;
    while i < n
        invariant
            n == sections@.len(),
            0 <= i <= n,
            forall|j: int| 0 <= j < i ==> (#[trigger] sections@[j]).index != raw,
        decreases n - i,
    {
        if sections[i].index == raw {
            proof {
                lemma_position_first_hit_section(sections@, raw, i as int);
            }
            return Some(i);
        }
        i += 1;
    }
    proof {
        lemma_section_position_of(sections@, raw);
    }
    None
}

/// Find the position of the symbol record with reported index `raw`.
pub fn find_symbol_position(symbols: &Vec<SymbolRecord>, raw: usize) -> (r: Option<usize>)
    ensures
        match r {
            Option::Some(p) => symbol_position_of(symbols@, raw) == Some(p as int),
            Option::None => symbol_position_of(symbols@, raw) is None,
        },
{
    let n: usize = symbols.len();
    let mut i: usize = 0;
    while i < n
        invariant
            n == symbols@.len(),
            0 <= i <= n,
            forall|j: int| 0 <= j < i ==> (#[trigger] symbols@[j]).index != raw,
        decreases n - i,
    {
        if symbols[i].index == raw {
            proof {
                lemma_position_first_hit_symbol(symbols@, raw, i as int);
            }
            return Some(i);
        }
        i += 1;
    }
    proof {
        lemma_symbol_position_of(symbols@, raw);
    }
    None
}

/// When position `k` carries `raw` and no earlier position does, the search
/// lands on `k`.
proof fn lemma_position_first_hit_section(sections: Seq<SectionRecord>, raw: usize, k: int)
    requires
        0 <= k < sections.len(),
        sections[k].index == raw,
        forall|j: int| 0 <= j < k ==> (#[trigger] sections[j]).index != raw,
    ensures
        section_position_of(sections, raw) == Some(k),
    decreases k,
{
    if k > 0 {
        assert(forall|j: int|
            0 <= j < k - 1 ==> sections.drop_first()[j] == (#[trigger] sections[j + 1]));
        lemma_position_first_hit_section(sections.drop_first(), raw, k - 1);
    }
}

/// The matching fact for symbol records.
proof fn lemma_position_first_hit_symbol(symbols: Seq<SymbolRecord>, raw: usize, k: int)
    requires
        0 <= k < symbols.len(),
        symbols[k].index == raw,
        forall|j: int| 0 <= j < k ==> (#[trigger] symbols[j]).index != raw,
    ensures
        symbol_position_of(symbols, raw) == Some(k),
    decreases k,
{
    if k > 0 {
        assert(forall|j: int|
            0 <= j < k - 1 ==> symbols.drop_first()[j] == (#[trigger] symbols[j + 1]));
        lemma_position_first_hit_symbol(symbols.drop_first(), raw, k - 1);
    }
}

/// Views of the vectors a loaded set holds never exceed the machine's
/// bounds.
pub proof fn lemma_set_bounds(set: LoadedSet)
    ensures
        set.objects@.len() <= usize::MAX,
        forall|o: int|
            0 <= o < set.objects@.len() ==> (#[trigger] set.objects@[o]).symbols@.len()
                <= usize::MAX,
        forall|o: int|
            0 <= o < set.objects@.len() ==> (#[trigger] set.objects@[o]).sections@.len()
                <= usize::MAX,
{
    broadcast use vstd::std_specs::vec::axiom_spec_len;

    assert(vstd::std_specs::vec::spec_vec_len(&set.objects) == set.objects@.len());
    assert forall|o: int|
        0 <= o < set.objects@.len() implies (#[trigger] set.objects@[o]).symbols@.len()
        <= usize::MAX && set.objects@[o].sections@.len() <= usize::MAX by {
        assert(vstd::std_specs::vec::spec_vec_len(&set.objects@[o].symbols)
            == set.objects@[o].symbols@.len());
        assert(vstd::std_specs::vec::spec_vec_len(&set.objects@[o].sections)
            == set.objects@[o].sections@.len());
    }
}

} // verus!
