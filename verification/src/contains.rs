//! The containment checker: read the symbol names listed by an `nm`-style
//! archive listing, and report which of an object's text symbols they cover.

use vstd::prelude::*;
use crate::command::tokens_of;
use crate::errors::Error;
use crate::model::{ObjectView, SymbolRecord};
use crate::names::{bytes_eq, demangle_name, demangled_of, starts_with};

verus! {

/// The containment command's options: the archive listing and the object
/// file.
pub struct Options {
    pub ar: Vec<u8>,
    pub obj: Vec<u8>,
}

/// The parent-directory marker that listing lines may start with.
pub open spec fn updir_prefix() -> Seq<u8> {
    seq![46u8, 46u8, 47u8]
}

/// The word `t`.
pub open spec fn kw_t() -> Seq<u8> {
    seq![116u8]
}

/// The word `T`.
pub open spec fn kw_tt() -> Seq<u8> {
    seq![84u8]
}

/// The demangled symbol name one `nm`-style listing line contributes, if
/// any: lines that are blank, name a parent directory, carry no text kind
/// letter, or have no name column are skipped.
pub open spec fn nm_symbol_of(line: Seq<u8>) -> Option<Seq<u8>> {
    let toks = tokens_of(line);
    if toks.len() == 0 {
        None
    } else if updir_prefix().is_prefix_of(toks[0]) {
        None
    } else if toks.len() < 2 || !(toks[1] == kw_t() || toks[1] == kw_tt()) {
        None
    } else if toks.len() < 3 {
        None
    } else {
        Some(demangled_of(toks[2], false))
    }
}

/// Parse one listing line into the demangled name it contributes, if any.
pub fn parse_nm_line(line: &[u8]) -> (r: Option<Vec<u8>>)
    ensures
        match r {
            Option::Some(name) => nm_symbol_of(line@) == Some(name@),
            Option::None => nm_symbol_of(line@) is None,
        },
{
    let toks = crate::command::tokenize(line);
    proof {
        assert(forall|j: int|
            0 <= j < toks@.len() ==> (#[trigger] toks@[j])@ == toks@.map_values(|t: Vec<u8>| t@)[j]);
    }
    if toks.len() == 0 {
        return None;
    }
    let updir = vec![46u8, 46u8, 47u8];
    assert(updir@ =~= updir_prefix());
    if starts_with(toks[0].as_slice(), updir.as_slice()) {
        return None;
    }
    if toks.len() < 2 {
        return None;
    }
    let lit_t = vec![116u8];
    let lit_tt = vec![84u8];
    proof {
        assert(lit_t@ =~= kw_t());
        assert(lit_tt@ =~= kw_tt());
    }
    let is_text = bytes_eq(toks[1].as_slice(), lit_t.as_slice()) || bytes_eq(
        toks[1].as_slice(),
        lit_tt.as_slice(),
    );
    if !is_text {
        return None;
    }
    if toks.len() < 3 {
        return None;
    }
    Some(demangle_name(toks[2].as_slice(), false))
}

/// Some wanted name equals `name`.
pub open spec fn wanted_contains(wanted: Seq<Seq<u8>>, name: Seq<u8>) -> bool {
    exists|i: int| 0 <= i < wanted.len() && wanted[i] == name
}

/// A symbol counts for the containment report: a text symbol with a
/// readable, non-empty name whose demangled form (hash suffix dropped) the
/// listing wants.
pub open spec fn contained(sym: SymbolRecord, wanted: Seq<Seq<u8>>) -> bool {
    &&& sym.is_text
    &&& sym.name_ok
    &&& sym.name@.len() > 0
    &&& wanted_contains(wanted, demangled_of(sym.name@, false))
}

/// The covered symbols of one symbol list, in scan order: the demangled
/// display form with the stored address and size.
pub open spec fn contained_items(syms: Seq<SymbolRecord>, wanted: Seq<Seq<u8>>) -> Seq<
    (Seq<u8>, u64, u64),
>
    decreases syms.len(),
{
    if syms.len() == 0 {
        Seq::empty()
    } else {
        let pre = contained_items(syms.drop_last(), wanted);
        if contained(syms.last(), wanted) {
            pre.push(
                (demangled_of(syms.last().name@, false), syms.last().address, syms.last().size),
            )
        } else {
            pre
        }
    }
}

/// Is `name` one of the wanted names?
fn wanted_find(wanted: &Vec<Vec<u8>>, name: &[u8]) -> (r: bool)
    ensures
        r == wanted_contains(wanted@.map_values(|w: Vec<u8>| w@), name@),
{
    let n: usize = wanted.len();
    let mut i: usize = 0;
    while i < n
        invariant
            n == wanted@.len(),
            0 <= i <= n,
            forall|t: int| 0 <= t < i ==> (#[trigger] wanted@[t])@ != name@,
        decreases n - i,
    {
        if bytes_eq(wanted[i].as_slice(), name) {
            proof {
                assert(wanted@.map_values(|w: Vec<u8>| w@)[i as int] == name@);
            }
            return true;
        }
        i += 1;
    }
    proof {
        assert(forall|t: int|
            0 <= t < wanted@.len() ==> wanted@.map_values(|w: Vec<u8>| w@)[t] == (
            #[trigger] wanted@[t])@);
    }
    false
}

/// Every text symbol of the object that the listing's names cover, in scan
/// order. An object without a symbol table is an error.
pub fn contains_matches(obj: &ObjectView, wanted: &Vec<Vec<u8>>) -> (r: Result<
    Vec<(Vec<u8>, u64, u64)>,
    Error,
>)
    ensures
        r matches Ok(items) ==> ({
            let spec_items = contained_items(obj.symbols@, wanted@.map_values(|w: Vec<u8>| w@));
            &&& obj.has_symbol_table
            &&& items@.len() == spec_items.len()
            &&& (forall|k: int|
                0 <= k < items@.len() ==> ({
                    let it = #[trigger] items@[k];
                    (it.0@, it.1, it.2) == spec_items[k]
                }))
        }),
        r matches Err(e) ==> e == Error::NoSymbolTable && !obj.has_symbol_table,
{
    if !obj.has_symbol_table {
        return Err(Error::NoSymbolTable);
    }
    let ghost wv = wanted@.map_values(|w: Vec<u8>| w@);
    let nsym: usize = obj.symbols.len();
    let mut items: Vec<(Vec<u8>, u64, u64)> = Vec::new();
    let mut s: usize = 0;
    while s < nsym
        invariant
            wv == wanted@.map_values(|w: Vec<u8>| w@),
            nsym == obj.symbols@.len(),
            0 <= s <= nsym,
            ({
                let spec_items = contained_items(obj.symbols@.take(s as int), wv);
                items@.len() == spec_items.len() && (forall|k: int|
                    0 <= k < items@.len() ==> ({
                        let it = #[trigger] items@[k];
                        (it.0@, it.1, it.2) == spec_items[k]
                    }))
            }),
        decreases nsym - s,
    {
        let ghost pre_take = obj.symbols@.take(s as int);
        let ghost post_take = obj.symbols@.take(s as int + 1);
        proof {
            assert(post_take.drop_last() =~= pre_take);
            assert(post_take.last() == obj.symbols@[s as int]);
        }
        let sym = &obj.symbols[s];
        if sym.is_text && sym.name_ok && sym.name.len() > 0 {
            let display = demangle_name(sym.name.as_slice(), false);
            if wanted_find(wanted, display.as_slice()) {
                items.push((display, sym.address, sym.size));
            }
        }
        s += 1;
    }
    proof {
        assert(obj.symbols@.take(nsym as int) =~= obj.symbols@);
    }
    Ok(items)
}

} // verus!
