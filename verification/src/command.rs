//! The interactive command surface: whitespace tokenization, the command
//! grammar, and the dispatcher that turns one command line into structured
//! output over the explorer and its caches.

use vstd::prelude::*;
use crate::errors::{Candidate, Error};
use crate::index::{lemma_occurrences_valid, occurrences};
use crate::link::{
    dump_bytes_spec, kind_spec, macho_size_ok, narrowed, reloc_query_ok, section_position_of_ok,
    select, Cache, Explorer, RelocationTarget, Symbol,
};
use crate::model::{
    section_position_of, symbol_position_of, LoadedSet, ObjectView, SectionRecord, SectionRef,
    SymbolPosition,
};
use crate::names::{all_digits, bytes_eq, dec_value};

verus! {

/// ASCII whitespace, as the tokenizer sees it.
pub open spec fn is_space(b: u8) -> bool {
    b == 32 || 9 <= b <= 13
}

/// How many bytes the token starting at the head of `s` runs for.
pub open spec fn run_len(s: Seq<u8>) -> int
    decreases s.len(),
{
    if s.len() == 0 || is_space(s[0]) {
        0
    } else {
        1 + run_len(s.drop_first())
    }
}

/// The run is a maximal prefix of non-space bytes.
pub proof fn lemma_run_len(s: Seq<u8>)
    ensures
        0 <= run_len(s) <= s.len(),
        forall|j: int| 0 <= j < run_len(s) ==> !is_space(#[trigger] s[j]),
        run_len(s) < s.len() ==> is_space(s[run_len(s)]),
    decreases s.len(),
{
    if s.len() > 0 && !is_space(s[0]) {
        lemma_run_len(s.drop_first());
        assert(forall|j: int| 0 <= j < s.len() - 1 ==> s.drop_first()[j] == #[trigger] s[j + 1]);
        assert forall|j: int| 0 <= j < run_len(s) implies !is_space(#[trigger] s[j]) by {
            if j > 0 {
                assert(!is_space(s.drop_first()[j - 1]));
            }
        }
        if run_len(s) < s.len() {
            assert(is_space(s.drop_first()[run_len(s) - 1]));
        }
    }
}

/// A stretch of non-space bytes ended by a space or the end of the line has
/// exactly its own length as run length.
proof fn lemma_run_len_is(s: Seq<u8>, n: int)
    requires
        0 <= n <= s.len(),
        forall|j: int| 0 <= j < n ==> !is_space(#[trigger] s[j]),
        n < s.len() ==> is_space(s[n]),
    ensures
        run_len(s) == n,
    decreases n,
{
    if n == 0 {
    } else {
        assert(forall|j: int| 0 <= j < s.len() - 1 ==> s.drop_first()[j] == #[trigger] s[j + 1]);
        lemma_run_len_is(s.drop_first(), n - 1);
    }
}

/// The whitespace-separated tokens of a line, in order.
pub open spec fn tokens_of(s: Seq<u8>) -> Seq<Seq<u8>>
    decreases s.len(),
    via tokens_of_decreases
{
    if s.len() == 0 {
        Seq::empty()
    } else if is_space(s[0]) {
        tokens_of(s.drop_first())
    } else {
        seq![s.take(run_len(s))] + tokens_of(s.skip(run_len(s)))
    }
}

#[via_fn]
proof fn tokens_of_decreases(s: Seq<u8>) {
    lemma_run_len(s);
}

/// Split a line into its whitespace-separated tokens.
pub fn tokenize(line: &[u8]) -> (r: Vec<Vec<u8>>)
    ensures
        r@.map_values(|t: Vec<u8>| t@) == tokens_of(line@),
{
    let n: usize = line.len();
    let mut out: Vec<Vec<u8>> = Vec::new();
    let mut p: usize = 0;
    proof {
        assert(line@.skip(0) =~= line@);
        assert(out@.map_values(|t: Vec<u8>| t@) + tokens_of(line@.skip(0)) =~= tokens_of(line@));
    }
    while p < n
        invariant
            n == line@.len(),
            0 <= p <= n,
            out@.map_values(|t: Vec<u8>| t@) + tokens_of(line@.skip(p as int)) == tokens_of(line@),
        decreases n - p,
    {
        let ghost rest = line@.skip(p as int);
        if is_space_byte(line[p]) {
            proof {
                assert(rest.drop_first() =~= line@.skip(p as int + 1));
                assert(rest[0] == line@[p as int]);
            }
            p += 1;
        } else {
            let start = p;
            let mut q = p + 1;
            while q < n && !is_space_byte(line[q])
                invariant
                    n == line@.len(),
                    0 <= start < q <= n,
                    forall|j: int| start <= j < q ==> !is_space(#[trigger] line@[j]),
                decreases n - q,
            {
                q += 1;
            }
            let tok = crate::names::copy_bytes(vstd::slice::slice_subrange(line, start, q));
            proof {
                assert(forall|j: int|
                    0 <= j < rest.len() ==> rest[j] == #[trigger] line@[j + p as int]);
                lemma_run_len_is(rest, q as int - p as int);
                assert(rest.take(run_len(rest)) =~= line@.subrange(start as int, q as int));
                assert(rest.skip(run_len(rest)) =~= line@.skip(q as int));
                assert(tokens_of(rest) == seq![rest.take(run_len(rest))] + tokens_of(
                    line@.skip(q as int),
                ));
            }
            let ghost old_out = out@;
            out.push(tok);
            proof {
                assert(out@.map_values(|t: Vec<u8>| t@) =~= old_out.map_values(|t: Vec<u8>| t@)
                    + seq![rest.take(run_len(rest))]);
                assert(out@.map_values(|t: Vec<u8>| t@) + tokens_of(line@.skip(q as int))
                    =~= old_out.map_values(|t: Vec<u8>| t@) + tokens_of(rest));
            }
            p = q;
        }
    }
    proof {
        assert(line@.skip(n as int) =~= Seq::<u8>::empty());
        assert(tokens_of(line@.skip(n as int)) =~= Seq::<Seq<u8>>::empty());
        assert(out@.map_values(|t: Vec<u8>| t@) =~= out@.map_values(|t: Vec<u8>| t@) + tokens_of(
            line@.skip(n as int),
        ));
    }
    out
}

/// ASCII whitespace, as a test.
fn is_space_byte(b: u8) -> (r: bool)
    ensures
        r == is_space(b),
{
    b == 32 || (9 <= b && b <= 13)
}

/// The word `obj`.
pub open spec fn kw_obj() -> Seq<u8> {
    seq![111u8, 98u8, 106u8]
}

/// The word `none`.
pub open spec fn kw_none() -> Seq<u8> {
    seq![110u8, 111u8, 110u8, 101u8]
}

/// The word `section`.
pub open spec fn kw_section() -> Seq<u8> {
    seq![115u8, 101u8, 99u8, 116u8, 105u8, 111u8, 110u8]
}

/// The word `search`.
pub open spec fn kw_search() -> Seq<u8> {
    seq![115u8, 101u8, 97u8, 114u8, 99u8, 104u8]
}

/// The word `dump`.
pub open spec fn kw_dump() -> Seq<u8> {
    seq![100u8, 117u8, 109u8, 112u8]
}

/// The word `reloc`.
pub open spec fn kw_reloc() -> Seq<u8> {
    seq![114u8, 101u8, 108u8, 111u8, 99u8]
}

/// One parsed command line.
pub enum Command {
    /// `obj` — print the current object filter.
    ObjQuery,
    /// `obj none` — clear the filter.
    ObjClear,
    /// `obj <name>` — set the filter.
    ObjSet(Vec<u8>),
    /// `section` — list every object's non-empty section names.
    Section,
    /// `search <keyword>...` — the keywords, possibly none.
    Search(Vec<Vec<u8>>),
    /// `dump [<name> [index]]`.
    Dump { name: Option<Vec<u8>>, index: Option<Vec<u8>> },
    /// `reloc [<name> [index]]`.
    Reloc { name: Option<Vec<u8>>, index: Option<Vec<u8>> },
    /// An empty line.
    Blank,
    /// Anything else.
    Unknown,
}

/// What a token list means as a command.
pub open spec fn command_matches(toks: Seq<Seq<u8>>, c: Command) -> bool {
    match c {
        Command::Blank => toks.len() == 0,
        Command::ObjQuery => toks.len() >= 1 && toks[0] == kw_obj() && toks.len() == 1,
        Command::ObjClear => toks.len() >= 2 && toks[0] == kw_obj() && toks[1] == kw_none(),
        Command::ObjSet(n) => toks.len() >= 2 && toks[0] == kw_obj() && toks[1] != kw_none() && n@
            == toks[1],
        Command::Section => toks.len() >= 1 && toks[0] == kw_section(),
        Command::Search(kws) => toks.len() >= 1 && toks[0] == kw_search() && kws@.map_values(
            |t: Vec<u8>| t@,
        ) == toks.drop_first(),
        Command::Dump { name, index } => toks.len() >= 1 && toks[0] == kw_dump() && (match name {
            Option::Some(nm) => toks.len() >= 2 && nm@ == toks[1],
            Option::None => toks.len() == 1,
        }) && (match index {
            Option::Some(ix) => toks.len() >= 3 && ix@ == toks[2],
            Option::None => toks.len() <= 2,
        }),
        Command::Reloc { name, index } => toks.len() >= 1 && toks[0] == kw_reloc() && (match name {
            Option::Some(nm) => toks.len() >= 2 && nm@ == toks[1],
            Option::None => toks.len() == 1,
        }) && (match index {
            Option::Some(ix) => toks.len() >= 3 && ix@ == toks[2],
            Option::None => toks.len() <= 2,
        }),
        Command::Unknown => toks.len() >= 1 && toks[0] != kw_obj() && toks[0] != kw_section()
            && toks[0] != kw_search() && toks[0] != kw_dump() && toks[0] != kw_reloc(),
    }
}

/// Parse one line into a command.
pub fn parse_command(line: &[u8]) -> (r: Command)
    ensures
        command_matches(tokens_of(line@), r),
{
    let toks = tokenize(line);
    let ghost tv = tokens_of(line@);
    proof {
        assert(forall|j: int|
            0 <= j < toks@.len() ==> (#[trigger] toks@[j])@ == toks@.map_values(|t: Vec<u8>| t@)[j]);
    }
    if toks.len() == 0 {
        return Command::Blank;
    }
    let lit_obj = vec![111u8, 98u8, 106u8];
    let lit_none = vec![110u8, 111u8, 110u8, 101u8];
    let lit_section = vec![115u8, 101u8, 99u8, 116u8, 105u8, 111u8, 110u8];
    let lit_search = vec![115u8, 101u8, 97u8, 114u8, 99u8, 104u8];
    let lit_dump = vec![100u8, 117u8, 109u8, 112u8];
    let lit_reloc = vec![114u8, 101u8, 108u8, 111u8, 99u8];
    proof {
        assert(lit_obj@ =~= kw_obj());
        assert(lit_none@ =~= kw_none());
        assert(lit_section@ =~= kw_section());
        assert(lit_search@ =~= kw_search());
        assert(lit_dump@ =~= kw_dump());
        assert(lit_reloc@ =~= kw_reloc());
    }
    if bytes_eq(toks[0].as_slice(), lit_obj.as_slice()) {
        if toks.len() == 1 {
            return Command::ObjQuery;
        }
        if bytes_eq(toks[1].as_slice(), lit_none.as_slice()) {
            return Command::ObjClear;
        }
        return Command::ObjSet(crate::names::copy_bytes(toks[1].as_slice()));
    }
    if bytes_eq(toks[0].as_slice(), lit_section.as_slice()) {
        return Command::Section;
    }
    if bytes_eq(toks[0].as_slice(), lit_search.as_slice()) {
        let mut kws: Vec<Vec<u8>> = Vec::new();
        let n: usize = toks.len();
        let mut i: usize = 1;
        while i < n
            invariant
                n == toks@.len(),
                1 <= i <= n,
                kws@.map_values(|t: Vec<u8>| t@) =~= toks@.map_values(|t: Vec<u8>| t@).subrange(
                    1,
                    i as int,
                ),
            decreases n - i,
        {
            let ghost old_kws = kws@;
            kws.push(crate::names::copy_bytes(toks[i].as_slice()));
            proof {
                let lhs = kws@.map_values(|t: Vec<u8>| t@);
                let rhs = toks@.map_values(|t: Vec<u8>| t@).subrange(1, i as int + 1);
                assert(old_kws.map_values(|t: Vec<u8>| t@).len() == old_kws.len());
                assert(old_kws.len() == i - 1);
                assert(kws@.len() == old_kws.len() + 1);
                assert(toks@.map_values(|t: Vec<u8>| t@).len() == toks@.len());
                assert(lhs.len() == rhs.len());
                assert forall|j: int| 0 <= j < lhs.len() implies lhs[j] == rhs[j] by {
                    if j < old_kws.len() {
                        assert(lhs[j] == old_kws.map_values(|t: Vec<u8>| t@)[j]);
                    } else {
                        assert(kws@[j] == kws@[kws@.len() - 1]);
                        assert(rhs[j] == toks@.map_values(|t: Vec<u8>| t@)[i as int]);
                    }
                }
                assert(lhs =~= rhs);
            }
            i += 1;
        }
        proof {
            assert(toks@.map_values(|t: Vec<u8>| t@).subrange(1, n as int) =~= tv.drop_first());
        }
        return Command::Search(kws);
    }
    if bytes_eq(toks[0].as_slice(), lit_dump.as_slice()) {
        let name = if toks.len() >= 2 {
            Some(crate::names::copy_bytes(toks[1].as_slice()))
        } else {
            None
        };
        let index = if toks.len() >= 3 {
            Some(crate::names::copy_bytes(toks[2].as_slice()))
        } else {
            None
        };
        return Command::Dump { name, index };
    }
    if bytes_eq(toks[0].as_slice(), lit_reloc.as_slice()) {
        let name = if toks.len() >= 2 {
            Some(crate::names::copy_bytes(toks[1].as_slice()))
        } else {
            None
        };
        let index = if toks.len() >= 3 {
            Some(crate::names::copy_bytes(toks[2].as_slice()))
        } else {
            None
        };
        return Command::Reloc { name, index };
    }
    Command::Unknown
}

/// The first loaded object with this label.
pub open spec fn object_position_of(objects: Seq<ObjectView>, name: Seq<u8>) -> Option<int>
    decreases objects.len(),
{
    if objects.len() == 0 {
        None
    } else if objects[0].name@ == name {
        Some(0int)
    } else {
        match object_position_of(objects.drop_first(), name) {
            Option::None => None,
            Option::Some(i) => Some(i + 1),
        }
    }
}

/// The display name of a section: its own when readable, a marker when not.
pub open spec fn section_display_name(s: SectionRecord) -> Seq<u8> {
    if s.name_ok {
        s.name@
    } else {
        seq![60u8, 101u8, 114u8, 114u8, 111u8, 114u8, 62u8]
    }
}

/// One object's non-empty section display names, in order.
pub open spec fn section_names(sections: Seq<SectionRecord>) -> Seq<Seq<u8>>
    decreases sections.len(),
{
    if sections.len() == 0 {
        Seq::empty()
    } else {
        let pre = section_names(sections.drop_last());
        if section_display_name(sections.last()).len() > 0 {
            pre.push(section_display_name(sections.last()))
        } else {
            pre
        }
    }
}

/// Does a stored name match the search keywords: some keyword inside the
/// demangled display form, or ending the stored form?
pub open spec fn name_matches(name: Seq<u8>, keywords: Seq<Seq<u8>>) -> bool {
    crate::names::any_substring_of(keywords, crate::names::demangled_of(name, true))
        || crate::names::any_suffix_of(keywords, name)
}

/// The hits one index entry contributes: one per occurrence, in order.
pub open spec fn entry_hits(set: LoadedSet, name: Seq<u8>, positions: Seq<SymbolPosition>) -> Seq<
    (u64, char, Seq<u8>, Seq<u8>),
> {
    Seq::new(
        positions.len(),
        |i: int|
            (
                set.symbol_at(positions[i]).address,
                kind_spec(set, positions[i]),
                name,
                set.objects@[positions[i].obj_idx as int].name@,
            ),
    )
}

/// All hits of a search, entry by entry in index order.
pub open spec fn search_hits(
    set: LoadedSet,
    entries: Seq<crate::index::IndexEntry>,
    keywords: Seq<Seq<u8>>,
) -> Seq<(u64, char, Seq<u8>, Seq<u8>)>
    decreases entries.len(),
{
    if entries.len() == 0 {
        Seq::empty()
    } else {
        let pre = search_hits(set, entries.drop_last(), keywords);
        if name_matches(entries.last().name@, keywords) {
            pre + entry_hits(set, entries.last().name@, entries.last().positions@)
        } else {
            pre
        }
    }
}

/// One search hit, ready to display.
#[derive(Debug)]
pub struct SearchHit {
    pub address: u64,
    pub kind: char,
    pub name: Vec<u8>,
    pub obj_name: Vec<u8>,
}

/// One object's listing for the section command.
#[derive(Debug)]
pub struct SectionListing {
    pub object: Vec<u8>,
    pub sections: Vec<Vec<u8>>,
}

/// A resolved and dumped symbol, ready to display.
#[derive(Debug)]
pub struct DumpReport {
    pub address: u64,
    pub kind: char,
    pub size: u64,
    pub obj_name: Vec<u8>,
    pub section_name: Vec<u8>,
    pub section_offset: u64,
    pub is_text: bool,
    pub bytes: Vec<u8>,
}

/// One relocation of a symbol's range, with its target resolved for
/// display.
#[derive(Debug)]
pub struct RelocReport {
    pub offset: u64,
    pub addend: i64,
    pub is_symbol: bool,
    pub target_address: u64,
    pub target_name: Vec<u8>,
}

/// What one command line produced.
#[derive(Debug)]
pub enum CommandOutput {
    /// A blank line.
    Nothing,
    /// The current object filter, or nothing when unset.
    CurrentObject(Option<Vec<u8>>),
    /// The filter was set or cleared.
    ObjectSet,
    /// Every object's non-empty section names.
    Sections(Vec<SectionListing>),
    /// Every matching occurrence.
    Search(Vec<SearchHit>),
    /// A resolved symbol and its bytes.
    Dump(DumpReport),
    /// A resolved symbol's relocations.
    Reloc(Vec<RelocReport>),
}

/// The occurrence `pos` is what the disambiguation rule picks for `name`
/// under the current filter and the optional explicit index.
pub open spec fn picked(
    set: LoadedSet,
    cur: Option<usize>,
    name: Seq<u8>,
    tok: Option<Seq<u8>>,
    pos: SymbolPosition,
) -> bool {
    let eff = narrowed(occurrences(set.objects@, name), cur);
    ||| (eff.len() == 1 && pos == eff[0])
    ||| (eff.len() != 1 && (tok matches Some(tk) && all_digits(tk) && tk.len() > 0 && dec_value(tk)
        < eff.len() && pos == eff[dec_value(tk)]))
}

/// The dump report describes the picked occurrence `pos`, resolved as `rs`:
/// the right section, address, classification and size, and exactly the
/// symbol's byte window out of the (possibly cached) section bytes.
pub open spec fn dump_witness(
    set: LoadedSet,
    cache: Cache,
    cur: Option<usize>,
    name: Seq<u8>,
    tok: Option<Seq<u8>>,
    d: DumpReport,
    pos: SymbolPosition,
    rs: Symbol,
) -> bool {
    &&& set.pos_valid(pos)
    &&& picked(set, cur, name, tok, pos)
    &&& rs.pos == pos
    &&& rs.address == set.symbol_at(pos).address
    &&& rs.kind == kind_spec(set, pos)
    &&& section_position_of_ok(set, pos, rs.section_pos)
    &&& (set.objects@[pos.obj_idx as int].format != crate::model::FormatKind::MachO ==> rs.size
        == set.symbol_at(pos).size)
    &&& (set.objects@[pos.obj_idx as int].format == crate::model::FormatKind::MachO
        ==> macho_size_ok(cache, set, pos, rs.section_pos as int, rs.address, rs.size))
    &&& d.address == rs.address
    &&& d.kind == rs.kind
    &&& d.size == rs.size
    &&& d.obj_name@ == set.objects@[pos.obj_idx as int].name@
    &&& d.section_name@ == set.objects@[pos.obj_idx as int].sections@[rs.section_pos as int].name@
    &&& rs.address >= set.objects@[pos.obj_idx as int].sections@[rs.section_pos as int].address
    &&& d.section_offset == rs.address - set.objects@[pos.obj_idx as int].sections@[rs.section_pos as int].address
    &&& d.is_text == (rs.kind == 't' || rs.kind == 'T')
    &&& dump_bytes_spec(set, cache, rs) == Ok::<Seq<u8>, Error>(d.bytes@)
}

/// Some occurrence and resolution witness the dump report.
pub open spec fn dump_report_ok(
    set: LoadedSet,
    cache: Cache,
    cur: Option<usize>,
    name: Seq<u8>,
    tok: Option<Seq<u8>>,
    d: DumpReport,
) -> bool {
    exists|pos: SymbolPosition, rs: Symbol| #[trigger] dump_witness(set, cache, cur, name, tok, d, pos, rs)
}

/// The reloc reports describe the picked occurrence `pos`, resolved as `rs`:
/// exactly the relocations of the symbol's range, each with its target's
/// address and name resolved within the owning object.
pub open spec fn reloc_witness(
    set: LoadedSet,
    cache: Cache,
    cur: Option<usize>,
    name: Seq<u8>,
    tok: Option<Seq<u8>>,
    reports: Seq<RelocReport>,
    pos: SymbolPosition,
    rs: Symbol,
    list: Seq<crate::link::Relocation>,
) -> bool {
    &&& set.pos_valid(pos)
    &&& picked(set, cur, name, tok, pos)
    &&& rs.pos == pos
    &&& rs.address == set.symbol_at(pos).address
    &&& section_position_of_ok(set, pos, rs.section_pos)
    &&& ({
        let section = set.objects@[pos.obj_idx as int].sections@[rs.section_pos as int];
        &&& rs.address >= section.address
        &&& reloc_query_ok(
            cache,
            set,
            rs,
            (rs.address - section.address) as u64,
            (rs.address - section.address + rs.size) as u64,
            list,
        )
    })
    &&& reports.len() == list.len()
    &&& (forall|k: int|
        0 <= k < reports.len() ==> ({
            let rep = #[trigger] reports[k];
            &&& rep.offset == list[k].offset
            &&& rep.addend == list[k].addend
            &&& crate::link::target_resolved(
                set,
                pos.obj_idx,
                list[k].target,
                rep.is_symbol,
                rep.target_address,
                rep.target_name@,
            )
        }))
}

/// Some occurrence, resolution and relocation list witness the reports.
pub open spec fn reloc_report_ok(
    set: LoadedSet,
    cache: Cache,
    cur: Option<usize>,
    name: Seq<u8>,
    tok: Option<Seq<u8>>,
    reports: Seq<RelocReport>,
) -> bool {
    exists|pos: SymbolPosition, rs: Symbol, list: Seq<crate::link::Relocation>|
        #[trigger] reloc_witness(set, cache, cur, name, tok, reports, pos, rs, list)
}

/// The candidate listing of an ambiguous name: index, classification letter
/// and owning object of each narrowed occurrence, in order.
pub open spec fn candidates_ok(
    set: LoadedSet,
    eff: Seq<SymbolPosition>,
    cands: Seq<Candidate>,
) -> bool {
    &&& cands.len() == eff.len()
    &&& (forall|k: int|
        0 <= k < cands.len() ==> ({
            let c = #[trigger] cands[k];
            &&& c.idx == k
            &&& c.kind == kind_spec(set, eff[k])
            &&& c.obj_name@ == set.objects@[eff[k].obj_idx as int].name@
        }))
}

/// List every object's non-empty section display names.
fn sections_listing(explorer: &Explorer) -> (r: Vec<SectionListing>)
    ensures
        r@.len() == explorer.set.objects@.len(),
        forall|o: int|
            0 <= o < r@.len() ==> (#[trigger] r@[o]).object@ == explorer.set.objects@[o].name@
                && r@[o].sections@.map_values(|n: Vec<u8>| n@) == section_names(
                explorer.set.objects@[o].sections@,
            ),
{
    let nobj: usize = explorer.set.objects.len();
    let mut out: Vec<SectionListing> = Vec::new();
    let mut o: usize = 0;
    while o < nobj
        invariant
            nobj == explorer.set.objects@.len(),
            0 <= o <= nobj,
            out@.len() == o,
            forall|t: int|
                0 <= t < o ==> (#[trigger] out@[t]).object@ == explorer.set.objects@[t].name@
                    && out@[t].sections@.map_values(|n: Vec<u8>| n@) == section_names(
                    explorer.set.objects@[t].sections@,
                ),
        decreases nobj - o,
    {
        let obj = &explorer.set.objects[o];
        let nsec: usize = obj.sections.len();
        let mut names: Vec<Vec<u8>> = Vec::new();
        let mut i: usize = 0;
        while i < nsec
            invariant
                obj == explorer.set.objects@[o as int],
                nsec == obj.sections@.len(),
                0 <= i <= nsec,
                names@.map_values(|n: Vec<u8>| n@) == section_names(obj.sections@.take(i as int)),
            decreases nsec - i,
        {
            proof {
                assert(obj.sections@.take(i as int + 1).drop_last() =~= obj.sections@.take(
                    i as int,
                ));
                assert(obj.sections@.take(i as int + 1).last() == obj.sections@[i as int]);
            }
            let section = &obj.sections[i];
            let disp: Vec<u8> = if section.name_ok {
                crate::names::copy_bytes(section.name.as_slice())
            } else {
                let marker = vec![60u8, 101u8, 114u8, 114u8, 111u8, 114u8, 62u8];
                assert(marker@ =~= seq![60u8, 101u8, 114u8, 114u8, 111u8, 114u8, 62u8]);
                marker
            };
            assert(disp@ == section_display_name(obj.sections@[i as int]));
            if disp.len() > 0 {
                let ghost old_names = names@;
                names.push(disp);
                proof {
                    assert(names@.map_values(|n: Vec<u8>| n@) =~= old_names.map_values(
                        |n: Vec<u8>| n@,
                    ).push(section_display_name(obj.sections@[i as int])));
                }
            }
            i += 1;
        }
        proof {
            assert(obj.sections@.take(nsec as int) =~= obj.sections@);
        }
        out.push(
            SectionListing { object: crate::names::copy_bytes(obj.name.as_slice()), sections: names },
        );
        o += 1;
    }
    out
}

/// Search every indexed name with the keywords and collect the matching
/// occurrences, in index order.
fn do_search(explorer: &Explorer, keywords: &Vec<Vec<u8>>) -> (r: Result<Vec<SearchHit>, Error>)
    requires
        explorer.wf(),
    ensures
        r matches Ok(hits) ==> ({
            let spec_hits = search_hits(
                explorer.set,
                explorer.symbol_map.entries@,
                keywords@.map_values(|t: Vec<u8>| t@),
            );
            &&& hits@.len() == spec_hits.len()
            &&& (forall|k: int|
                0 <= k < hits@.len() ==> ({
                    let h = #[trigger] hits@[k];
                    (h.address, h.kind, h.name@, h.obj_name@) == spec_hits[k]
                }))
        }),
        r matches Err(e) ==> (e matches Error::PatternBuildFailed(_)
            && !crate::names::patterns_buildable(keywords@.map_values(|t: Vec<u8>| t@))),
        r is Ok <==> (keywords@.len() == 0 || crate::names::patterns_buildable(
            keywords@.map_values(|t: Vec<u8>| t@),
        )),
{
    if keywords.len() > 0 {
        let probe: Vec<u8> = Vec::new();
        match crate::names::multi_substring_match(keywords, probe.as_slice()) {
            Ok(_) => {},
            Err(e) => {
                return Err(e);
            },
        }
    }
    let ghost kws = keywords@.map_values(|t: Vec<u8>| t@);
    let nent: usize = explorer.symbol_map.entries.len();
    let mut hits: Vec<SearchHit> = Vec::new();
    let mut e: usize = 0;
    while e < nent
        invariant
            explorer.wf(),
            kws == keywords@.map_values(|t: Vec<u8>| t@),
            keywords@.len() == 0 || crate::names::patterns_buildable(kws),
            nent == explorer.symbol_map.entries@.len(),
            0 <= e <= nent,
            ({
                let spec_hits = search_hits(
                    explorer.set,
                    explorer.symbol_map.entries@.take(e as int),
                    kws,
                );
                hits@.len() == spec_hits.len() && (forall|k: int|
                    0 <= k < hits@.len() ==> ({
                        let h = #[trigger] hits@[k];
                        (h.address, h.kind, h.name@, h.obj_name@) == spec_hits[k]
                    }))
            }),
        decreases nent - e,
    {
        let ghost pre_take = explorer.symbol_map.entries@.take(e as int);
        let ghost post_take = explorer.symbol_map.entries@.take(e as int + 1);
        proof {
            assert(post_take.drop_last() =~= pre_take);
            assert(post_take.last() == explorer.symbol_map.entries@[e as int]);
        }
        let entry = &explorer.symbol_map.entries[e];
        let matched = if keywords.len() == 0 {
            proof {
                assert(!name_matches(entry.name@, kws));
            }
            false
        } else {
            match crate::names::keyword_match(entry.name.as_slice(), keywords) {
                Ok(m) => m,
                Err(err) => {
                    proof {
                        assert(false);
                    }
                    return Err(err);
                },
            }
        };
        proof {
            assert(matched == name_matches(entry.name@, kws));
        }
        if matched {
            proof {
                assert(entry.positions@ == occurrences(explorer.set.objects@, entry.name@));
                crate::model::lemma_set_bounds(explorer.set);
                lemma_occurrences_valid(explorer.set.objects@, entry.name@);
            }
            let npos: usize = entry.positions.len();
            let mut p: usize = 0;
            while p < npos
                invariant
                    explorer.wf(),
                    entry == explorer.symbol_map.entries@[e as int],
                    0 <= e < nent,
                    npos == entry.positions@.len(),
                    0 <= p <= npos,
                    forall|k: int|
                        0 <= k < entry.positions@.len() ==> explorer.set.pos_valid(
                            #[trigger] entry.positions@[k],
                        ),
                    ({
                        let spec_hits = search_hits(
                            explorer.set,
                            explorer.symbol_map.entries@.take(e as int),
                            kws,
                        ) + entry_hits(explorer.set, entry.name@, entry.positions@).take(p as int);
                        hits@.len() == spec_hits.len() && (forall|k: int|
                            0 <= k < hits@.len() ==> ({
                                let h = #[trigger] hits@[k];
                                (h.address, h.kind, h.name@, h.obj_name@) == spec_hits[k]
                            }))
                    }),
                decreases npos - p,
            {
                let pos = entry.positions[p];
                let sym = &explorer.set.objects[pos.obj_idx].symbols[pos.sym_idx];
                let kind = explorer.symbol_kind(pos);
                let hit = SearchHit {
                    address: sym.address,
                    kind,
                    name: crate::names::copy_bytes(entry.name.as_slice()),
                    obj_name: crate::names::copy_bytes(
                        explorer.set.objects[pos.obj_idx].name.as_slice(),
                    ),
                };
                hits.push(hit);
                proof {
                    assert(entry_hits(explorer.set, entry.name@, entry.positions@).take(
                        p as int + 1,
                    ) =~= entry_hits(explorer.set, entry.name@, entry.positions@).take(
                        p as int,
                    ).push(entry_hits(explorer.set, entry.name@, entry.positions@)[p as int]));
                }
                p += 1;
            }
            proof {
                assert(entry_hits(explorer.set, entry.name@, entry.positions@).take(npos as int)
                    =~= entry_hits(explorer.set, entry.name@, entry.positions@));
                assert(search_hits(explorer.set, post_take, kws) == search_hits(
                    explorer.set,
                    pre_take,
                    kws,
                ) + entry_hits(explorer.set, entry.name@, entry.positions@));
            }
        } else {
            proof {
                assert(search_hits(explorer.set, post_take, kws) == search_hits(
                    explorer.set,
                    pre_take,
                    kws,
                ));
            }
        }
        e += 1;
    }
    proof {
        assert(explorer.symbol_map.entries@.take(nent as int) =~= explorer.symbol_map.entries@);
    }
    Ok(hits)
}

/// The candidate listing of an ambiguous occurrence list.
fn make_candidates(explorer: &Explorer, eff: &Vec<SymbolPosition>) -> (r: Vec<Candidate>)
    requires
        explorer.wf(),
        forall|k: int| 0 <= k < eff@.len() ==> explorer.set.pos_valid(#[trigger] eff@[k]),
    ensures
        candidates_ok(explorer.set, eff@, r@),
{
    let n: usize = eff.len();
    let mut out: Vec<Candidate> = Vec::new();
    let mut k: usize = 0;
    while k < n
        invariant
            explorer.wf(),
            n == eff@.len(),
            0 <= k <= n,
            forall|t: int| 0 <= t < n ==> explorer.set.pos_valid(#[trigger] eff@[t]),
            out@.len() == k,
            forall|t: int|
                0 <= t < k ==> ({
                    let c = #[trigger] out@[t];
                    &&& c.idx == t
                    &&& c.kind == kind_spec(explorer.set, eff@[t])
                    &&& c.obj_name@ == explorer.set.objects@[eff@[t].obj_idx as int].name@
                }),
        decreases n - k,
    {
        let pos = eff[k];
        let kind = explorer.symbol_kind(pos);
        out.push(
            Candidate {
                idx: k,
                kind,
                obj_name: crate::names::copy_bytes(
                    explorer.set.objects[pos.obj_idx].name.as_slice(),
                ),
            },
        );
        k += 1;
    }
    out
}

/// Dispatch one command line: read or change the object filter, list
/// sections, search, or resolve a symbol and dump its bytes or list its
/// relocations. Lookup and range failures abort only this command.
#[verifier::rlimit(100)]
pub fn run_command(explorer: &mut Explorer, cache: &mut Cache, line: &[u8]) -> (r: Result<
    CommandOutput,
    Error,
>)
    requires
        old(explorer).wf(),
        old(cache).wf(old(explorer).set),
    ensures
        final(explorer).wf(),
        final(explorer).set == old(explorer).set,
        final(explorer).symbol_map == old(explorer).symbol_map,
        final(cache).wf(final(explorer).set),
        tokens_of(line@).len() == 0 ==> r == Ok::<CommandOutput, Error>(CommandOutput::Nothing)
            && final(explorer).current_obj_idx == old(explorer).current_obj_idx,
        (tokens_of(line@).len() >= 1 && tokens_of(line@)[0] != kw_obj() && tokens_of(line@)[0]
            != kw_section() && tokens_of(line@)[0] != kw_search() && tokens_of(line@)[0]
            != kw_dump() && tokens_of(line@)[0] != kw_reloc()) ==> r == Err::<CommandOutput, Error>(
            Error::UnknownCommand,
        ),
        (tokens_of(line@).len() == 1 && tokens_of(line@)[0] == kw_obj()) ==> (match r {
            Ok(out) => (out matches CommandOutput::CurrentObject(n) && (match old(
                explorer,
            ).current_obj_idx {
                Option::Some(i) => n matches Some(v) && v@ == old(explorer).set.objects@[i as int].name@,
                Option::None => n is None,
            }) && final(explorer).current_obj_idx == old(explorer).current_obj_idx),
            Err(_) => false,
        }),
        (tokens_of(line@).len() >= 2 && tokens_of(line@)[0] == kw_obj() && tokens_of(line@)[1]
            == kw_none()) ==> r == Ok::<CommandOutput, Error>(CommandOutput::ObjectSet) && final(explorer)
            .current_obj_idx is None,
        (tokens_of(line@).len() >= 2 && tokens_of(line@)[0] == kw_obj() && tokens_of(line@)[1]
            != kw_none()) ==> (match r {
            Ok(out) => out is ObjectSet && (match object_position_of(
                old(explorer).set.objects@,
                tokens_of(line@)[1],
            ) {
                Option::Some(i) => final(explorer).current_obj_idx == Some(i as usize),
                Option::None => false,
            }),
            Err(e) => e == Error::NotFoundObject && object_position_of(
                old(explorer).set.objects@,
                tokens_of(line@)[1],
            ) is None && final(explorer).current_obj_idx == old(explorer).current_obj_idx,
        }),
        (tokens_of(line@).len() >= 1 && tokens_of(line@)[0] == kw_section()) ==> (match r {
            Ok(out) => out matches CommandOutput::Sections(listing) && listing@.len() == old(
                explorer,
            ).set.objects@.len() && (forall|o: int|
                0 <= o < listing@.len() ==> (#[trigger] listing@[o]).object@ == old(
                    explorer,
                ).set.objects@[o].name@ && listing@[o].sections@.map_values(|n: Vec<u8>| n@)
                    == section_names(old(explorer).set.objects@[o].sections@)),
            Err(_) => false,
        }),
        (tokens_of(line@).len() == 1 && tokens_of(line@)[0] == kw_search()) ==> r == Err::<
            CommandOutput,
            Error,
        >(Error::NeedKeyword),
        (tokens_of(line@).len() >= 2 && tokens_of(line@)[0] == kw_search()) ==> (match r {
            Ok(out) => out matches CommandOutput::Search(hits) && ({
                let spec_hits = search_hits(
                    old(explorer).set,
                    old(explorer).symbol_map.entries@,
                    tokens_of(line@).drop_first(),
                );
                hits@.len() == spec_hits.len() && (forall|k: int|
                    0 <= k < hits@.len() ==> ({
                        let h = #[trigger] hits@[k];
                        (h.address, h.kind, h.name@, h.obj_name@) == spec_hits[k]
                    }))
            }),
            Err(e) => e matches Error::PatternBuildFailed(_) && !crate::names::patterns_buildable(
                tokens_of(line@).drop_first(),
            ),
        }),
        (tokens_of(line@).len() >= 2 && tokens_of(line@)[0] == kw_search()
            && crate::names::patterns_buildable(tokens_of(line@).drop_first())) ==> r is Ok,
        (tokens_of(line@).len() == 1 && (tokens_of(line@)[0] == kw_dump() || tokens_of(line@)[0]
            == kw_reloc())) ==> r == Err::<CommandOutput, Error>(Error::NeedSymbolName),
        !(tokens_of(line@).len() >= 2 && (tokens_of(line@)[0] == kw_dump() || tokens_of(line@)[0]
            == kw_reloc())) ==> *final(cache) == *old(cache),
        (tokens_of(line@).len() == 0 || tokens_of(line@)[0] != kw_obj()) ==> final(explorer)
            .current_obj_idx == old(explorer).current_obj_idx,
        (tokens_of(line@).len() >= 2 && tokens_of(line@)[0] == kw_dump()) ==> (match r {
            Ok(out) => out matches CommandOutput::Dump(d) && dump_report_ok(
                old(explorer).set,
                *final(cache),
                old(explorer).current_obj_idx,
                tokens_of(line@)[1],
                if tokens_of(line@).len() >= 3 {
                    Some(tokens_of(line@)[2])
                } else {
                    None
                },
                d,
            ),
            Err(e) => (e == Error::NotFoundSymbol ==> occurrences(
                old(explorer).set.objects@,
                tokens_of(line@)[1],
            ).len() == 0) && (e matches Error::DuplicateSymbol(cands) ==> candidates_ok(
                old(explorer).set,
                narrowed(
                    occurrences(old(explorer).set.objects@, tokens_of(line@)[1]),
                    old(explorer).current_obj_idx,
                ),
                cands@,
            )),
        }),
        (tokens_of(line@).len() >= 2 && tokens_of(line@)[0] == kw_reloc()) ==> (match r {
            Ok(out) => out matches CommandOutput::Reloc(reports) && reloc_report_ok(
                old(explorer).set,
                *final(cache),
                old(explorer).current_obj_idx,
                tokens_of(line@)[1],
                if tokens_of(line@).len() >= 3 {
                    Some(tokens_of(line@)[2])
                } else {
                    None
                },
                reports@,
            ),
            Err(e) => (e == Error::NotFoundSymbol ==> occurrences(
                old(explorer).set.objects@,
                tokens_of(line@)[1],
            ).len() == 0) && (e matches Error::DuplicateSymbol(cands) ==> candidates_ok(
                old(explorer).set,
                narrowed(
                    occurrences(old(explorer).set.objects@, tokens_of(line@)[1]),
                    old(explorer).current_obj_idx,
                ),
                cands@,
            )),
        }),
        (tokens_of(line@).len() == 2 && (tokens_of(line@)[0] == kw_dump() || tokens_of(line@)[0]
            == kw_reloc()) && occurrences(
            old(explorer).set.objects@,
            tokens_of(line@)[1],
        ).len() > 0 && narrowed(
            occurrences(old(explorer).set.objects@, tokens_of(line@)[1]),
            old(explorer).current_obj_idx,
        ).len() != 1) ==> (r matches Err(e) && e matches Error::DuplicateSymbol(_)),
{
    let ghost toks = tokens_of(line@);
    let cmd = parse_command(line);
    match cmd {
        Command::Blank => Ok(CommandOutput::Nothing),
        Command::Unknown => Err(Error::UnknownCommand),
        Command::ObjQuery => {
            match explorer.current_obj_idx {
                Some(i) => Ok(
                    CommandOutput::CurrentObject(
                        Some(crate::names::copy_bytes(explorer.set.objects[i].name.as_slice())),
                    ),
                ),
                None => Ok(CommandOutput::CurrentObject(None)),
            }
        },
        Command::ObjClear => {
            explorer.current_obj_idx = None;
            Ok(CommandOutput::ObjectSet)
        },
        Command::ObjSet(name) => {
            let nobj: usize = explorer.set.objects.len();
            let mut i: usize = 0;
            while i < nobj
                invariant
                    *explorer == *old(explorer),
                    *cache == *old(cache),
                    old(explorer).wf(),
                    old(cache).wf(old(explorer).set),
                    nobj == explorer.set.objects@.len(),
                    0 <= i <= nobj,
                    tokens_of(line@).len() >= 2,
                    tokens_of(line@)[0] == kw_obj(),
                    tokens_of(line@)[1] != kw_none(),
                    name@ == tokens_of(line@)[1],
                    forall|j: int|
                        0 <= j < i ==> (#[trigger] explorer.set.objects@[j]).name@ != name@,
                decreases nobj - i,
            {
                if bytes_eq(explorer.set.objects[i].name.as_slice(), name.as_slice()) {
                    proof {
                        lemma_object_position_first(explorer.set.objects@, name@, i as int);
                    }
                    explorer.current_obj_idx = Some(i);
                    return Ok(CommandOutput::ObjectSet);
                }
                i += 1;
            }
            proof {
                lemma_object_position_none(explorer.set.objects@, name@);
            }
            Err(Error::NotFoundObject)
        },
        Command::Section => Ok(CommandOutput::Sections(sections_listing(explorer))),
        Command::Search(keywords) => {
            if keywords.len() == 0 {
                proof {
                    assert(keywords@.map_values(|t: Vec<u8>| t@).len() == 0);
                    assert(toks.drop_first().len() == 0);
                }
                return Err(Error::NeedKeyword);
            }
            proof {
                assert(keywords@.map_values(|t: Vec<u8>| t@) == toks.drop_first());
                assert(keywords@.map_values(|t: Vec<u8>| t@).len() == keywords@.len());
                assert(toks.len() >= 2);
            }
            match do_search(explorer, &keywords) {
                Ok(hits) => Ok(CommandOutput::Search(hits)),
                Err(e) => Err(e),
            }
        },
        Command::Dump { name, index } => {
            let name = match name {
                Some(n) => n,
                None => {
                    return Err(Error::NeedSymbolName);
                },
            };
            let tok_opt: Option<&Vec<u8>> = match &index {
                Some(t) => Some(t),
                None => None,
            };
            match do_dump(&*explorer, cache, &name, tok_opt) {
                Ok(d) => Ok(CommandOutput::Dump(d)),
                Err(e) => Err(e),
            }
        },
        Command::Reloc { name, index } => {
            let name = match name {
                Some(n) => n,
                None => {
                    return Err(Error::NeedSymbolName);
                },
            };
            let tok_opt: Option<&Vec<u8>> = match &index {
                Some(t) => Some(t),
                None => None,
            };
            match do_reloc(&*explorer, cache, &name, tok_opt) {
                Ok(reports) => Ok(CommandOutput::Reloc(reports)),
                Err(e) => Err(e),
            }
        },

    }
}

/// The narrowed candidate list, as a value.
fn narrow_positions(explorer: &Explorer, syms: &Vec<SymbolPosition>) -> (r: Vec<SymbolPosition>)
    ensures
        r@ == narrowed(syms@, explorer.current_obj_idx),
{
    if syms.len() == 1 {
        let mut out: Vec<SymbolPosition> = Vec::new();
        out.push(syms[0]);
        proof {
            assert(out@ =~= syms@);
        }
        return out;
    }
    match explorer.current_obj_idx {
        Some(cur) => {
            let n: usize = syms.len();
            let mut out: Vec<SymbolPosition> = Vec::new();
            let mut i: usize = 0;
            while i < n
                invariant
                    n == syms@.len(),
                    0 <= i <= n,
                    out@ == crate::link::positions_in_object(syms@.take(i as int), cur),
                decreases n - i,
            {
                proof {
                    assert(syms@.take(i as int + 1).drop_last() =~= syms@.take(i as int));
                    assert(syms@.take(i as int + 1).last() == syms@[i as int]);
                }
                if syms[i].obj_idx == cur {
                    out.push(syms[i]);
                }
                i += 1;
            }
            proof {
                assert(syms@.take(n as int) =~= syms@);
            }
            out
        },
        None => {
            let n: usize = syms.len();
            let mut out: Vec<SymbolPosition> = Vec::new();
            let mut i: usize = 0;
            while i < n
                invariant
                    n == syms@.len(),
                    0 <= i <= n,
                    out@ == syms@.take(i as int),
                decreases n - i,
            {
                out.push(syms[i]);
                proof {
                    assert(out@ =~= syms@.take(i as int + 1));
                }
                i += 1;
            }
            proof {
                assert(syms@.take(n as int) =~= syms@);
            }
            out
        },
    }
}

/// When position `k` carries the label and no earlier one does, the label
/// lookup lands on `k`.
proof fn lemma_object_position_first(objects: Seq<ObjectView>, name: Seq<u8>, k: int)
    requires
        0 <= k < objects.len(),
        objects[k].name@ == name,
        forall|j: int| 0 <= j < k ==> (#[trigger] objects[j]).name@ != name,
    ensures
        object_position_of(objects, name) == Some(k),
    decreases k,
{
    if k > 0 {
        assert(forall|j: int|
            0 <= j < k - 1 ==> objects.drop_first()[j] == (#[trigger] objects[j + 1]));
        lemma_object_position_first(objects.drop_first(), name, k - 1);
    }
}

/// When no object carries the label, the lookup finds nothing.
proof fn lemma_object_position_none(objects: Seq<ObjectView>, name: Seq<u8>)
    requires
        forall|j: int| 0 <= j < objects.len() ==> (#[trigger] objects[j]).name@ != name,
    ensures
        object_position_of(objects, name) is None,
    decreases objects.len(),
{
    if objects.len() > 0 {
        assert(forall|j: int|
            0 <= j < objects.len() - 1 ==> objects.drop_first()[j] == (#[trigger] objects[j + 1]));
        lemma_object_position_none(objects.drop_first(), name);
    }
}

/// Resolve one named symbol (under the filter and optional index) and dump
/// its exact byte window, together with everything the display needs.
fn do_dump(explorer: &Explorer, cache: &mut Cache, name: &Vec<u8>, tok: Option<&Vec<u8>>) -> (r:
    Result<DumpReport, Error>)
    requires
        explorer.wf(),
        old(cache).wf(explorer.set),
    ensures
        final(cache).wf(explorer.set),
        r matches Ok(d) ==> dump_report_ok(
            explorer.set,
            *final(cache),
            explorer.current_obj_idx,
            name@,
            match tok {
                Option::Some(t) => Some(t@),
                Option::None => None,
            },
            d,
        ),
        r matches Err(e) ==> ((e == Error::NotFoundSymbol ==> occurrences(
            explorer.set.objects@,
            name@,
        ).len() == 0) && (e matches Error::DuplicateSymbol(cands) ==> candidates_ok(
            explorer.set,
            narrowed(occurrences(explorer.set.objects@, name@), explorer.current_obj_idx),
            cands@,
        ))),
        (occurrences(explorer.set.objects@, name@).len() > 0 && narrowed(
            occurrences(explorer.set.objects@, name@),
            explorer.current_obj_idx,
        ).len() != 1 && tok is None) ==> (r matches Err(e) && e matches Error::DuplicateSymbol(_)),
{
    let ex = explorer;
    let positions = match ex.get(name.as_slice()) {
        Ok(p) => p,
        Err(e) => {
            return Err(e);
        },
    };
    proof {
        crate::model::lemma_set_bounds(ex.set);
        lemma_occurrences_valid(ex.set.objects@, name@);
        crate::link::lemma_narrowed_contained(positions@, ex.current_obj_idx);
    }
    let picked_pos = match select(ex, positions, tok) {
        Ok(Some(p)) => p,
        Ok(None) => {
            let eff = narrow_positions(ex, positions);
            let cands = make_candidates(ex, &eff);
            return Err(Error::DuplicateSymbol(cands));
        },
        Err(e) => {
            return Err(e);
        },
    };
    proof {
        let eff = narrowed(positions@, ex.current_obj_idx);
        if eff.len() == 1 {
            assert(positions@.contains(eff[0]));
        } else {
            match tok {
                Option::Some(t) => {
                    crate::names::lemma_dec_value_nonneg(t@);
                    let v = dec_value(t@);
                    if 0 <= v < eff.len() {
                        assert(positions@.contains(eff[v]));
                    }
                },
                Option::None => {},
            }
        }
        assert(occurrences(ex.set.objects@, name@).contains(picked_pos));
    }
    let rs = match ex.index(cache, picked_pos) {
        Ok(rs) => rs,
        Err(e) => {
            return Err(e);
        },
    };
    proof {
        crate::model::lemma_section_position_of(
            ex.set.objects@[picked_pos.obj_idx as int].sections@,
            match ex.set.symbol_at(picked_pos).section {
                SectionRef::Defined(raw) => raw,
                _ => 0,
            },
        );
    }
    match ex.ensure_section_data(cache, rs.pos.obj_idx, rs.section_pos) {
        Ok(()) => {},
        Err(e) => {
            return Err(e);
        },
    }
    let data = match ex.dump(&*cache, &rs) {
        Ok(d) => d,
        Err(e) => {
            return Err(e);
        },
    };
    let bytes = crate::names::copy_bytes(data.as_ref());
    let obj = &ex.set.objects[picked_pos.obj_idx];
    let section = &obj.sections[rs.section_pos];
    let section_offset = match rs.address.checked_sub(section.address) {
        Some(v) => v,
        None => {
            return Err(Error::BadAddress);
        },
    };
    let is_text = rs.kind == 't' || rs.kind == 'T';
    let d = DumpReport {
        address: rs.address,
        kind: rs.kind,
        size: rs.size,
        obj_name: crate::names::copy_bytes(obj.name.as_slice()),
        section_name: crate::names::copy_bytes(section.name.as_slice()),
        section_offset,
        is_text,
        bytes,
    };
    proof {
        assert(dump_witness(
            ex.set,
            *cache,
            ex.current_obj_idx,
            name@,
            match tok {
                Option::Some(t) => Some(t@),
                Option::None => None,
            },
            d,
            picked_pos,
            rs,
        ));
    }
    Ok(d)
}

/// Resolve each listed relocation's target to its display address and name
/// within the owning object.
fn reloc_reports(explorer: &Explorer, obj_idx: usize, list: &Vec<crate::link::Relocation>) -> (r:
    Result<Vec<RelocReport>, Error>)
    requires
        explorer.wf(),
        obj_idx < explorer.set.objects@.len(),
    ensures
        r matches Ok(reports) ==> ({
            &&& reports@.len() == list@.len()
            &&& (forall|w: int|
                0 <= w < reports@.len() ==> ({
                    let rep = #[trigger] reports@[w];
                    &&& rep.offset == list@[w].offset
                    &&& rep.addend == list@[w].addend
                    &&& crate::link::target_resolved(
                        explorer.set,
                        obj_idx,
                        list@[w].target,
                        rep.is_symbol,
                        rep.target_address,
                        rep.target_name@,
                    )
                }))
        }),
        r matches Err(e) ==> e == Error::BadRelocTarget,
{
    let n: usize = list.len();
    let mut reports: Vec<RelocReport> = Vec::new();
    let mut k: usize = 0;
    while k < n
        invariant
            explorer.wf(),
            obj_idx < explorer.set.objects@.len(),
            n == list@.len(),
            0 <= k <= n,
            reports@.len() == k,
            forall|w: int|
                0 <= w < k ==> ({
                    let rep = #[trigger] reports@[w];
                    &&& rep.offset == list@[w].offset
                    &&& rep.addend == list@[w].addend
                    &&& crate::link::target_resolved(
                        explorer.set,
                        obj_idx,
                        list@[w].target,
                        rep.is_symbol,
                        rep.target_address,
                        rep.target_name@,
                    )
                }),
        decreases n - k,
    {
        let item = &list[k];
        let info = match explorer.target_info(obj_idx, &item.target) {
            Ok(i) => i,
            Err(e) => {
                return Err(e);
            },
        };
        let is_symbol = match item.target {
            RelocationTarget::Symbol(_) => true,
            RelocationTarget::Section(_) => false,
        };
        reports.push(
            RelocReport {
                offset: item.offset,
                addend: item.addend,
                is_symbol,
                target_address: info.0,
                target_name: info.1,
            },
        );
        k += 1;
    }
    Ok(reports)
}

/// Resolve one named symbol and list every relocation of its byte range,
/// each with its target's display address and name.
fn do_reloc(explorer: &Explorer, cache: &mut Cache, name: &Vec<u8>, tok: Option<&Vec<u8>>) -> (r:
    Result<Vec<RelocReport>, Error>)
    requires
        explorer.wf(),
        old(cache).wf(explorer.set),
    ensures
        final(cache).wf(explorer.set),
        r matches Ok(reports) ==> reloc_report_ok(
            explorer.set,
            *final(cache),
            explorer.current_obj_idx,
            name@,
            match tok {
                Option::Some(t) => Some(t@),
                Option::None => None,
            },
            reports@,
        ),
        r matches Err(e) ==> ((e == Error::NotFoundSymbol ==> occurrences(
            explorer.set.objects@,
            name@,
        ).len() == 0) && (e matches Error::DuplicateSymbol(cands) ==> candidates_ok(
            explorer.set,
            narrowed(occurrences(explorer.set.objects@, name@), explorer.current_obj_idx),
            cands@,
        ))),
        (occurrences(explorer.set.objects@, name@).len() > 0 && narrowed(
            occurrences(explorer.set.objects@, name@),
            explorer.current_obj_idx,
        ).len() != 1 && tok is None) ==> (r matches Err(e) && e matches Error::DuplicateSymbol(_)),
{
    let ex = explorer;
    let positions = match ex.get(name.as_slice()) {
        Ok(p) => p,
        Err(e) => {
            return Err(e);
        },
    };
    proof {
        crate::model::lemma_set_bounds(ex.set);
        lemma_occurrences_valid(ex.set.objects@, name@);
        crate::link::lemma_narrowed_contained(positions@, ex.current_obj_idx);
    }
    let picked_pos = match select(ex, positions, tok) {
        Ok(Some(p)) => p,
        Ok(None) => {
            let eff = narrow_positions(ex, positions);
            let cands = make_candidates(ex, &eff);
            return Err(Error::DuplicateSymbol(cands));
        },
        Err(e) => {
            return Err(e);
        },
    };
    proof {
        let eff = narrowed(positions@, ex.current_obj_idx);
        if eff.len() == 1 {
            assert(positions@.contains(eff[0]));
        } else {
            match tok {
                Option::Some(t) => {
                    crate::names::lemma_dec_value_nonneg(t@);
                    let v = dec_value(t@);
                    if 0 <= v < eff.len() {
                        assert(positions@.contains(eff[v]));
                    }
                },
                Option::None => {},
            }
        }
        assert(occurrences(ex.set.objects@, name@).contains(picked_pos));
    }
    let ghost picked_fact = picked(
        ex.set,
        ex.current_obj_idx,
        name@,
        match tok {
            Option::Some(t) => Some(t@),
            Option::None => None,
        },
        picked_pos,
    );
    proof {
        assert(picked_fact);
    }
    let rs = match ex.index(cache, picked_pos) {
        Ok(rs) => rs,
        Err(e) => {
            return Err(e);
        },
    };
    proof {
        crate::model::lemma_section_position_of(
            ex.set.objects@[picked_pos.obj_idx as int].sections@,
            match ex.set.symbol_at(picked_pos).section {
                SectionRef::Defined(raw) => raw,
                _ => 0,
            },
        );
    }
    let list = match ex.reloc(cache, &rs) {
        Ok(l) => l,
        Err(e) => {
            return Err(e);
        },
    };
    let reports = match reloc_reports(ex, rs.pos.obj_idx, &list) {
        Ok(r) => r,
        Err(e) => {
            return Err(e);
        },
    };
    proof {
        assert(reloc_witness(
            ex.set,
            *cache,
            ex.current_obj_idx,
            name@,
            match tok {
                Option::Some(t) => Some(t@),
                Option::None => None,
            },
            reports@,
            picked_pos,
            rs,
            list@,
        ));
    }
    Ok(reports)
}

} // verus!
