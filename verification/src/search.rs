//! The batch symbol searcher: filter one object's text symbols by keywords
//! against their demangled names, with the size-sorted report mode.

use vstd::prelude::*;
use crate::command::name_matches;
use crate::errors::Error;
use crate::model::{ObjectView, SymbolRecord};
use crate::names::{demangle_name, demangled_of, keyword_match, multi_substring_match, patterns_buildable};
use crate::sorting::{insertion_sort, sorted_by_key, SortKey};

verus! {

/// The batch search command's options: the object file, the keywords, and
/// sorting by size.
pub struct Options {
    pub file: Vec<u8>,
    pub keywords: Vec<Vec<u8>>,
    pub sort: bool,
}

/// One match: the demangled display name, the symbol's address and size.
pub struct SearchItem {
    pub name: Vec<u8>,
    pub address: u64,
    pub size: u64,
}

impl SortKey for SearchItem {
    open spec fn key_spec(&self) -> int {
        self.size as int
    }

    fn key_le(&self, other: &Self) -> (r: bool) {
        self.size <= other.size
    }
}

/// A symbol the batch search looks at: a text symbol with a readable,
/// non-empty name.
pub open spec fn batch_eligible(sym: SymbolRecord) -> bool {
    sym.is_text && sym.name_ok && sym.name@.len() > 0
}

/// No keywords match everything; otherwise the search-command match rule
/// decides.
pub open spec fn batch_matches(name: Seq<u8>, keywords: Seq<Seq<u8>>) -> bool {
    keywords.len() == 0 || name_matches(name, keywords)
}

/// The matched items of one symbol list, in scan order: the demangled
/// display form (hash suffix kept) with the stored address and size.
pub open spec fn filter_items(syms: Seq<SymbolRecord>, keywords: Seq<Seq<u8>>) -> Seq<
    (Seq<u8>, u64, u64),
>
    decreases syms.len(),
{
    if syms.len() == 0 {
        Seq::empty()
    } else {
        let pre = filter_items(syms.drop_last(), keywords);
        if batch_eligible(syms.last()) && batch_matches(syms.last().name@, keywords) {
            pre.push(
                (demangled_of(syms.last().name@, true), syms.last().address, syms.last().size),
            )
        } else {
            pre
        }
    }
}

/// The keyword filter over one object.
pub struct Filter<'a> {
    pub object: &'a ObjectView,
    pub keywords: &'a Vec<Vec<u8>>,
}

impl<'a> Filter<'a> {
    /// A filter over `obj` with the given keywords.
    pub fn new(obj: &'a ObjectView, keywords: &'a Vec<Vec<u8>>) -> (r: Filter<'a>)
        ensures
            r.object == obj,
            r.keywords == keywords,
    {
        Filter { object: obj, keywords }
    }

    /// Every matching text symbol of the object, in scan order, demangled
    /// for display. An object without a symbol table is an error; so are
    /// keywords the matcher's builder rejects; nothing else fails.
    pub fn for_each(&self) -> (r: Result<Vec<SearchItem>, Error>)
        ensures
            r matches Ok(items) ==> ({
                let spec_items = filter_items(
                    self.object.symbols@,
                    self.keywords@.map_values(|t: Vec<u8>| t@),
                );
                &&& self.object.has_symbol_table
                &&& items@.len() == spec_items.len()
                &&& (forall|k: int|
                    0 <= k < items@.len() ==> ({
                        let it = #[trigger] items@[k];
                        (it.name@, it.address, it.size) == spec_items[k]
                    }))
            }),
            r matches Err(e) ==> ((e == Error::NoSymbolTable && !self.object.has_symbol_table) || (
            e matches Error::PatternBuildFailed(_) && !patterns_buildable(
                self.keywords@.map_values(|t: Vec<u8>| t@),
            ))),
            r is Ok <==> (self.object.has_symbol_table && (self.keywords@.len() == 0
                || patterns_buildable(self.keywords@.map_values(|t: Vec<u8>| t@)))),
    {
        if !self.object.has_symbol_table {
            return Err(Error::NoSymbolTable);
        }
        if self.keywords.len() > 0 {
            let probe: Vec<u8> = Vec::new();
            match multi_substring_match(self.keywords, probe.as_slice()) {
                Ok(_) => {},
                Err(e) => {
                    return Err(e);
                },
            }
        }
        let ghost kws = self.keywords@.map_values(|t: Vec<u8>| t@);
        let nsym: usize = self.object.symbols.len();
        let mut items: Vec<SearchItem> = Vec::new();
        let mut s: usize = 0;
        while s < nsym
            invariant
                kws == self.keywords@.map_values(|t: Vec<u8>| t@),
                self.keywords@.len() == 0 || patterns_buildable(kws),
                nsym == self.object.symbols@.len(),
                0 <= s <= nsym,
                ({
                    let spec_items = filter_items(self.object.symbols@.take(s as int), kws);
                    items@.len() == spec_items.len() && (forall|k: int|
                        0 <= k < items@.len() ==> ({
                            let it = #[trigger] items@[k];
                            (it.name@, it.address, it.size) == spec_items[k]
                        }))
                }),
            decreases nsym - s,
        {
            let ghost pre_take = self.object.symbols@.take(s as int);
            let ghost post_take = self.object.symbols@.take(s as int + 1);
            proof {
                assert(post_take.drop_last() =~= pre_take);
                assert(post_take.last() == self.object.symbols@[s as int]);
            }
            let sym = &self.object.symbols[s];
            if sym.is_text && sym.name_ok && sym.name.len() > 0 {
                let matched = if self.keywords.len() == 0 {
                    proof {
                        assert(kws.len() == 0);
                    }
                    true
                } else {
                    match keyword_match(sym.name.as_slice(), self.keywords) {
                        Ok(m) => m,
                        Err(e) => {
                            proof {
                                assert(false);
                            }
                            return Err(e);
                        },
                    }
                };
                if matched {
                    let display = demangle_name(sym.name.as_slice(), true);
                    items.push(SearchItem { name: display, address: sym.address, size: sym.size });
                }
            }
            s += 1;
        }
        proof {
            assert(self.object.symbols@.take(nsym as int) =~= self.object.symbols@);
        }
        Ok(items)
    }
}

/// The summed size of the matched items.
pub open spec fn items_total(items: Seq<(Seq<u8>, u64, u64)>) -> int
    decreases items.len(),
{
    if items.len() == 0 {
        0
    } else {
        items_total(items.drop_last()) + items.last().2
    }
}

/// Sum the matched sizes, with an explicit error where the total would not
/// fit the size type.
pub fn total_size(items: &Vec<SearchItem>) -> (r: Result<u64, Error>)
    ensures
        r matches Ok(v) ==> v as int == items_total(
            items@.map_values(|it: SearchItem| (it.name@, it.address, it.size)),
        ),
        r matches Err(e) ==> e == Error::Overflow && items_total(
            items@.map_values(|it: SearchItem| (it.name@, it.address, it.size)),
        ) > u64::MAX,
{
    let ghost view = items@.map_values(|it: SearchItem| (it.name@, it.address, it.size));
    let n: usize = items.len();
    let mut total: u64 = 0;
    let mut k: usize = 0;
    while k < n
        invariant
            view == items@.map_values(|it: SearchItem| (it.name@, it.address, it.size)),
            n == items@.len(),
            view.len() == n,
            0 <= k <= n,
            total as int == items_total(view.take(k as int)),
        decreases n - k,
    {
        proof {
            assert(view.take(k as int + 1).drop_last() =~= view.take(k as int));
            assert(view.take(k as int + 1).last() == view[k as int]);
            assert(view[k as int] == (items@[k as int].name@, items@[k as int].address, items@[k as int].size));
        }
        total = match total.checked_add(items[k].size) {
            Some(v) => v,
            None => {
                proof {
                    lemma_items_total_monotone(view, k as int + 1, view.len() as int);
                    assert(view.take(view.len() as int) =~= view);
                }
                return Err(Error::Overflow);
            },
        };
        k += 1;
    }
    proof {
        assert(view.take(n as int) =~= view);
    }
    Ok(total)
}

/// A longer prefix never sums to less.
proof fn lemma_items_total_monotone(items: Seq<(Seq<u8>, u64, u64)>, a: int, b: int)
    requires
        0 <= a <= b <= items.len(),
    ensures
        items_total(items.take(a)) <= items_total(items.take(b)),
    decreases b - a,
{
    if a < b {
        lemma_items_total_monotone(items, a, b - 1);
        assert(items.take(b).drop_last() =~= items.take(b - 1));
    }
}

/// The matched items ordered by size, smallest first, holding exactly the
/// same matches.
pub fn sort_by_size(items: Vec<SearchItem>) -> (r: Vec<SearchItem>)
    ensures
        sorted_by_key(r@),
        r@.to_multiset() == items@.to_multiset(),
{
    insertion_sort(items)
}

} // verus!
