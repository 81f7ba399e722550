//! The positional symbol index: every stored symbol name mapped to the
//! ordered list of its occurrences across the whole loaded set.

use vstd::prelude::*;
use crate::errors::Error;
use crate::model::{LoadedSet, ObjectView, SymbolPosition, SymbolRecord};
use crate::names::bytes_eq;

verus! {

/// The occurrences of `name` within one object's symbol list, in scan order.
pub open spec fn obj_occurrences(
    syms: Seq<SymbolRecord>,
    obj_idx: usize,
    name: Seq<u8>,
) -> Seq<SymbolPosition>
    decreases syms.len(),
{
    if syms.len() == 0 {
        Seq::empty()
    } else {
        let pre = obj_occurrences(syms.drop_last(), obj_idx, name);
        if syms.last().name@ == name {
            pre.push(SymbolPosition { obj_idx, sym_idx: (syms.len() - 1) as usize })
        } else {
            pre
        }
    }
}

/// The occurrences of `name` across the whole set, object by object, in scan
/// order.
pub open spec fn occurrences(objects: Seq<ObjectView>, name: Seq<u8>) -> Seq<SymbolPosition>
    decreases objects.len(),
{
    if objects.len() == 0 {
        Seq::empty()
    } else {
        occurrences(objects.drop_last(), name) + obj_occurrences(
            objects.last().symbols@,
            (objects.len() - 1) as usize,
            name,
        )
    }
}

/// The stored names of one symbol list, in scan order.
pub open spec fn names_of(syms: Seq<SymbolRecord>) -> Seq<Seq<u8>>
    decreases syms.len(),
{
    if syms.len() == 0 {
        Seq::empty()
    } else {
        names_of(syms.drop_last()).push(syms.last().name@)
    }
}

/// Every stored symbol name of the set, object by object, in scan order.
pub open spec fn scan_names(objects: Seq<ObjectView>) -> Seq<Seq<u8>>
    decreases objects.len(),
{
    if objects.len() == 0 {
        Seq::empty()
    } else {
        scan_names(objects.drop_last()) + names_of(objects.last().symbols@)
    }
}

/// The names in first-occurrence order: each name once, where it first
/// appears.
pub open spec fn first_seen(names: Seq<Seq<u8>>) -> Seq<Seq<u8>>
    decreases names.len(),
{
    if names.len() == 0 {
        Seq::empty()
    } else {
        let pre = first_seen(names.drop_last());
        if pre.contains(names.last()) {
            pre
        } else {
            pre.push(names.last())
        }
    }
}

/// Does some symbol of the set have an unreadable name?
pub open spec fn has_bad_name(objects: Seq<ObjectView>) -> bool {
    exists|o: int, s: int|
        0 <= o < objects.len() && 0 <= s < (#[trigger] objects[o]).symbols@.len() && !(
        #[trigger] objects[o].symbols@[s]).name_ok
}

/// One name's occurrence list.
pub struct IndexEntry {
    /// The stored symbol name, exactly as the symbol table holds it.
    pub name: Vec<u8>,
    /// Every occurrence, in scan order.
    pub positions: Vec<SymbolPosition>,
}

/// The index from stored symbol name to ordered occurrence list, built by one
/// scan of every object's symbol table.
pub struct PositionalSymbolIndex {
    pub entries: Vec<IndexEntry>,
}

impl PositionalSymbolIndex {
    /// Names are unique.
    pub open spec fn wf(self) -> bool {
        forall|i: int, j: int|
            0 <= i < j < self.entries@.len() ==> (#[trigger] self.entries@[i]).name@ != (
            #[trigger] self.entries@[j]).name@
    }

    /// The index describes `objects`: each entry holds exactly the
    /// occurrences of its name, and every name with an occurrence has an
    /// entry.
    pub open spec fn describes(self, objects: Seq<ObjectView>) -> bool {
        &&& forall|k: int|
            0 <= k < self.entries@.len() ==> (#[trigger] self.entries@[k]).positions@
                == occurrences(objects, self.entries@[k].name@)
        &&& forall|name: Seq<u8>|
            occurrences(objects, name).len() > 0 ==> exists|k: int|
                0 <= k < self.entries@.len() && (#[trigger] self.entries@[k]).name@ == name
        &&& forall|k: int|
            0 <= k < self.entries@.len() ==> occurrences(
                objects,
                (#[trigger] self.entries@[k]).name@,
            ).len() > 0
    }

    /// Look a name up: the full occurrence list, or a not-found error.
    pub fn get(&self, name: &[u8]) -> (r: Result<&Vec<SymbolPosition>, Error>)
        ensures
            match r {
                Ok(positions) => exists|k: int|
                    0 <= k < self.entries@.len() && (#[trigger] self.entries@[k]).name@ == name@
                        && positions@ == self.entries@[k].positions@,
                Err(e) => e == Error::NotFoundSymbol && forall|k: int|
                    0 <= k < self.entries@.len() ==> (#[trigger] self.entries@[k]).name@ != name@,
            },
    {
        let n: usize = self.entries.len();
        let mut k: usize = 0;
        while k < n
            invariant
                n == self.entries@.len(),
                0 <= k <= n,
                forall|t: int| 0 <= t < k ==> (#[trigger] self.entries@[t]).name@ != name@,
            decreases n - k,
        {
            if bytes_eq(self.entries[k].name.as_slice(), name) {
                return Ok(&self.entries[k].positions);
            }
            k += 1;
        }
        Err(Error::NotFoundSymbol)
    }
}

/// Scan every object's symbol table and index each symbol's position under
/// its stored name, preserving scan order. A symbol whose name cannot be
/// read aborts the build, naming the offending object.
pub fn build_index(set: &LoadedSet) -> (r: Result<PositionalSymbolIndex, Error>)
    ensures
        r matches Ok(idx) ==> idx.wf() && idx.describes(set.objects@) && !has_bad_name(
            set.objects@,
        ) && idx.entries@.map_values(|e: IndexEntry| e.name@) == first_seen(
            scan_names(set.objects@),
        ),
        r matches Err(e) ==> has_bad_name(set.objects@) && (e matches Error::BadSymbolName(nm)
            && exists|o: int|
            0 <= o < set.objects@.len() && nm@ == (#[trigger] set.objects@[o]).name@ && exists|s: int|
                0 <= s < set.objects@[o].symbols@.len() && !(
                #[trigger] set.objects@[o].symbols@[s]).name_ok),
{
    let mut entries: Vec<IndexEntry> = Vec::new();
    let nobj: usize = set.objects.len();
    proof {
        assert(set.objects@.take(0) =~= Seq::<ObjectView>::empty());
        assert(scan_names(set.objects@.take(0)) =~= Seq::<Seq<u8>>::empty());
        assert(entries@.map_values(|e: IndexEntry| e.name@) =~= first_seen(
            scan_names(set.objects@.take(0)),
        ));
    }
    let mut o: usize = 0;
    while o < nobj
        invariant
            nobj == set.objects@.len(),
            0 <= o <= nobj,
            forall|a: int, b: int|
                0 <= a < b < entries@.len() ==> (#[trigger] entries@[a]).name@ != (
                #[trigger] entries@[b]).name@,
            forall|k: int|
                0 <= k < entries@.len() ==> (#[trigger] entries@[k]).positions@ == occurrences(
                    set.objects@.take(o as int),
                    entries@[k].name@,
                ),
            forall|name: Seq<u8>|
                occurrences(set.objects@.take(o as int), name).len() > 0 ==> exists|k: int|
                    0 <= k < entries@.len() && (#[trigger] entries@[k]).name@ == name,
            forall|k: int|
                0 <= k < entries@.len() ==> occurrences(
                    set.objects@.take(o as int),
                    (#[trigger] entries@[k]).name@,
                ).len() > 0,
            forall|oo: int, s: int|
                0 <= oo < o && 0 <= s < (#[trigger] set.objects@[oo]).symbols@.len() ==> (
                #[trigger] set.objects@[oo].symbols@[s]).name_ok,
            entries@.map_values(|e: IndexEntry| e.name@) == first_seen(
                scan_names(set.objects@.take(o as int)),
            ),
        decreases nobj - o,
    {
        let obj = &set.objects[o];
        let nsym: usize = obj.symbols.len();
        proof {
            assert(obj.symbols@.take(0) =~= Seq::<SymbolRecord>::empty());
            assert(names_of(obj.symbols@.take(0)) =~= Seq::<Seq<u8>>::empty());
            assert(scan_names(set.objects@.take(o as int)) + names_of(obj.symbols@.take(0))
                =~= scan_names(set.objects@.take(o as int)));
        }
        let mut s: usize = 0;
        while s < nsym
            invariant
                nobj == set.objects@.len(),
                0 <= o < nobj,
                obj == set.objects@[o as int],
                nsym == obj.symbols@.len(),
                0 <= s <= nsym,
                forall|a: int, b: int|
                    0 <= a < b < entries@.len() ==> (#[trigger] entries@[a]).name@ != (
                    #[trigger] entries@[b]).name@,
                forall|k: int|
                    0 <= k < entries@.len() ==> (#[trigger] entries@[k]).positions@ == occurrences(
                        set.objects@.take(o as int),
                        entries@[k].name@,
                    ) + obj_occurrences(obj.symbols@.take(s as int), o, entries@[k].name@),
                forall|name: Seq<u8>|
                    occurrences(set.objects@.take(o as int), name).len() + obj_occurrences(
                        obj.symbols@.take(s as int),
                        o,
                        name,
                    ).len() > 0 ==> exists|k: int|
                        0 <= k < entries@.len() && (#[trigger] entries@[k]).name@ == name,
                forall|k: int|
                    0 <= k < entries@.len() ==> occurrences(
                        set.objects@.take(o as int),
                        (#[trigger] entries@[k]).name@,
                    ).len() + obj_occurrences(
                        obj.symbols@.take(s as int),
                        o,
                        entries@[k].name@,
                    ).len() > 0,
                forall|oo: int, t: int|
                    0 <= oo < o && 0 <= t < (#[trigger] set.objects@[oo]).symbols@.len() ==> (
                    #[trigger] set.objects@[oo].symbols@[t]).name_ok,
                forall|t: int| 0 <= t < s ==> (#[trigger] obj.symbols@[t]).name_ok,
                entries@.map_values(|e: IndexEntry| e.name@) == first_seen(
                    scan_names(set.objects@.take(o as int)) + names_of(obj.symbols@.take(s as int)),
                ),
            decreases nsym - s,
        {
            let ghost pre_take = obj.symbols@.take(s as int);
            let ghost post_take = obj.symbols@.take(s as int + 1);
            let ghost processed = scan_names(set.objects@.take(o as int)) + names_of(pre_take);
            let ghost processed_next = scan_names(set.objects@.take(o as int)) + names_of(
                post_take,
            );
            proof {
                assert(post_take.drop_last() =~= pre_take);
                assert(post_take.last() == obj.symbols@[s as int]);
                assert(names_of(post_take) == names_of(pre_take).push(
                    obj.symbols@[s as int].name@,
                ));
                assert(processed_next =~= processed.push(obj.symbols@[s as int].name@));
                assert(processed_next.drop_last() =~= processed);
            }
            let sym = &obj.symbols[s];
            if !sym.name_ok {
                return Err(Error::BadSymbolName(obj.name.clone()));
            }
            let pos = SymbolPosition { obj_idx: o, sym_idx: s };
            let ghost old_entries = entries@;
            let m: usize = entries.len();
            let mut k: usize = 0;
            let mut found: bool = false;
            while k < m && !found
                invariant
                    m == entries@.len(),
                    entries@ == old_entries,
                    0 <= k <= m,
                    found ==> k < m && (entries@[k as int]).name@ == sym.name@,
                    !found ==> forall|t: int|
                        0 <= t < k ==> (#[trigger] entries@[t]).name@ != sym.name@,
                decreases m - k, (if found {
                    0int
                } else {
                    1int
                }),
            {
                if bytes_eq(entries[k].name.as_slice(), sym.name.as_slice()) {
                    found = true;
                } else {
                    k += 1;
                }
            }
            if found {
                let mut entry = entries.remove(k);
                entry.positions.push(pos);
                entries.insert(k, entry);
                proof {
                    assert(entries@ =~= old_entries.update(k as int, entries@[k as int]));
                    assert(forall|t: int|
                        0 <= t < entries@.len() && t != k ==> entries@[t] == old_entries[t]);
                    assert(forall|t: int|
                        0 <= t < entries@.len() ==> (#[trigger] entries@[t]).name@
                            == old_entries[t].name@);
                    assert(entries@[k as int].name@ == sym.name@);
                    assert(first_seen(processed).contains(sym.name@)) by {
                        assert(old_entries.map_values(|e: IndexEntry| e.name@)[k as int]
                            == sym.name@);
                    }
                    assert(first_seen(processed_next) == first_seen(processed));
                    assert(entries@.map_values(|e: IndexEntry| e.name@) =~= first_seen(
                        processed_next,
                    ));
                    assert forall|t: int| 0 <= t < entries@.len() implies (
                    #[trigger] entries@[t]).positions@ == occurrences(
                        set.objects@.take(o as int),
                        entries@[t].name@,
                    ) + obj_occurrences(post_take, o, entries@[t].name@) by {
                        if t == k {
                            assert(obj_occurrences(post_take, o, entries@[t].name@)
                                == obj_occurrences(pre_take, o, entries@[t].name@).push(pos));
                            assert(entries@[t].positions@ =~= occurrences(
                                set.objects@.take(o as int),
                                entries@[t].name@,
                            ) + obj_occurrences(post_take, o, entries@[t].name@));
                        } else {
                            assert(entries@[t].name@ != sym.name@);
                            assert(obj_occurrences(post_take, o, entries@[t].name@)
                                == obj_occurrences(pre_take, o, entries@[t].name@));
                        }
                    }
                }
            } else {
                let mut positions: Vec<SymbolPosition> = Vec::new();
                positions.push(pos);
                let ghost new_positions = positions@;
                entries.push(IndexEntry { name: sym.name.clone(), positions });
                proof {
                    let last = entries@.len() - 1;
                    assert(forall|t: int| 0 <= t < old_entries.len() ==> entries@[t] == (
                    #[trigger] old_entries[t]));
                    assert(entries@[last].name@ == sym.name@);
                    assert(entries@[last].positions@ == new_positions);
                    assert(!first_seen(processed).contains(sym.name@)) by {
                        if first_seen(processed).contains(sym.name@) {
                            let w = choose|w: int|
                                0 <= w < first_seen(processed).len() && first_seen(processed)[w]
                                    == sym.name@;
                            assert(old_entries.map_values(|e: IndexEntry| e.name@)[w]
                                == sym.name@);
                            assert((#[trigger] old_entries[w]).name@ == sym.name@);
                        }
                    }
                    assert(first_seen(processed_next) == first_seen(processed).push(sym.name@));
                    assert(entries@.map_values(|e: IndexEntry| e.name@) =~= first_seen(
                        processed_next,
                    ));
                    assert forall|t: int| 0 <= t < entries@.len() implies (
                    #[trigger] entries@[t]).positions@ == occurrences(
                        set.objects@.take(o as int),
                        entries@[t].name@,
                    ) + obj_occurrences(post_take, o, entries@[t].name@) by {
                        if t == last {
                            assert(occurrences(set.objects@.take(o as int), sym.name@).len()
                                + obj_occurrences(pre_take, o, sym.name@).len() == 0);
                            assert(occurrences(set.objects@.take(o as int), sym.name@)
                                =~= Seq::<SymbolPosition>::empty());
                            assert(obj_occurrences(pre_take, o, sym.name@)
                                =~= Seq::<SymbolPosition>::empty());
                            assert(obj_occurrences(post_take, o, entries@[t].name@)
                                == obj_occurrences(pre_take, o, entries@[t].name@).push(pos));
                            assert(entries@[t].positions@ =~= occurrences(
                                set.objects@.take(o as int),
                                entries@[t].name@,
                            ) + obj_occurrences(post_take, o, entries@[t].name@));
                        } else {
                            assert(entries@[t].name@ != sym.name@);
                            assert(obj_occurrences(post_take, o, entries@[t].name@)
                                == obj_occurrences(pre_take, o, entries@[t].name@));
                        }
                    }
                }
            }
            proof {
                assert(forall|t: int|
                    0 <= t < old_entries.len() ==> (#[trigger] entries@[t]).name@
                        == old_entries[t].name@);
                assert(exists|t: int|
                    0 <= t < entries@.len() && (#[trigger] entries@[t]).name@ == sym.name@);
                assert forall|name: Seq<u8>|
                    occurrences(set.objects@.take(o as int), name).len() + obj_occurrences(
                        post_take,
                        o,
                        name,
                    ).len() > 0 implies exists|t: int|
                    0 <= t < entries@.len() && (#[trigger] entries@[t]).name@ == name by {
                    if name != sym.name@ {
                        assert(obj_occurrences(post_take, o, name) == obj_occurrences(
                            pre_take,
                            o,
                            name,
                        ));
                        let w = choose|w: int|
                            0 <= w < old_entries.len() && (#[trigger] old_entries[w]).name@
                                == name;
                        assert(entries@[w].name@ == name);
                    }
                }
                assert forall|t: int| 0 <= t < entries@.len() implies occurrences(
                    set.objects@.take(o as int),
                    (#[trigger] entries@[t]).name@,
                ).len() + obj_occurrences(post_take, o, entries@[t].name@).len() > 0 by {
                    if entries@[t].name@ == sym.name@ {
                        assert(obj_occurrences(post_take, o, sym.name@).len() > 0);
                    } else {
                        assert(t < old_entries.len());
                        assert(obj_occurrences(post_take, o, entries@[t].name@)
                            == obj_occurrences(pre_take, o, entries@[t].name@));
                    }
                }
            }
            s += 1;
        }
        proof {
            assert(obj.symbols@.take(nsym as int) =~= obj.symbols@);
            assert(set.objects@.take(o as int + 1).drop_last() =~= set.objects@.take(o as int));
            assert(set.objects@.take(o as int + 1).last() == set.objects@[o as int]);
            assert(scan_names(set.objects@.take(o as int + 1)) == scan_names(
                set.objects@.take(o as int),
            ) + names_of(obj.symbols@));
            assert(forall|name: Seq<u8>|
                occurrences(set.objects@.take(o as int + 1), name) == occurrences(
                    set.objects@.take(o as int),
                    name,
                ) + obj_occurrences(obj.symbols@, o, name));
        }
        o += 1;
    }
    proof {
        assert(set.objects@.take(nobj as int) =~= set.objects@);
        if has_bad_name(set.objects@) {
            let (bo, bs) = choose|bo: int, bs: int|
                0 <= bo < set.objects@.len() && 0 <= bs < (
                #[trigger] set.objects@[bo]).symbols@.len() && !(
                #[trigger] set.objects@[bo].symbols@[bs]).name_ok;
            assert(set.objects@[bo].symbols@[bs].name_ok);
        }
    }
    Ok(PositionalSymbolIndex { entries })
}

/// Every occurrence of one object's list is a valid position naming a
/// symbol with the looked-up name.
pub proof fn lemma_obj_occurrences_valid(syms: Seq<SymbolRecord>, obj_idx: usize, name: Seq<u8>)
    requires
        syms.len() <= usize::MAX,
    ensures
        forall|k: int|
            0 <= k < obj_occurrences(syms, obj_idx, name).len() ==> (
            #[trigger] obj_occurrences(syms, obj_idx, name)[k]).obj_idx == obj_idx,
        forall|k: int|
            0 <= k < obj_occurrences(syms, obj_idx, name).len() ==> ((
            #[trigger] obj_occurrences(syms, obj_idx, name)[k]).sym_idx as int) < syms.len(),
        forall|k: int|
            0 <= k < obj_occurrences(syms, obj_idx, name).len() ==> syms[(
            #[trigger] obj_occurrences(syms, obj_idx, name)[k]).sym_idx as int].name@ == name,
    decreases syms.len(),
{
    if syms.len() > 0 {
        lemma_obj_occurrences_valid(syms.drop_last(), obj_idx, name);
        assert(forall|j: int| 0 <= j < syms.len() - 1 ==> syms.drop_last()[j] == #[trigger] syms[j]);
        let pre = obj_occurrences(syms.drop_last(), obj_idx, name);
        assert(forall|k: int|
            0 <= k < pre.len() ==> obj_occurrences(syms, obj_idx, name)[k] == #[trigger] pre[k]);
        assert forall|k: int| 0 <= k < obj_occurrences(syms, obj_idx, name).len() implies syms[(
        #[trigger] obj_occurrences(syms, obj_idx, name)[k]).sym_idx as int].name@ == name by {
            if k < pre.len() {
                let p = pre[k];
                assert(syms.drop_last()[p.sym_idx as int].name@ == name);
                assert(syms[p.sym_idx as int] == syms.drop_last()[p.sym_idx as int]);
            } else {
                assert(obj_occurrences(syms, obj_idx, name)[k].sym_idx as int == syms.len() - 1);
                assert(syms[syms.len() - 1] == syms.last());
            }
        }
    }
}

/// Every occurrence the index can return is a valid position naming a
/// symbol with the looked-up name.
pub proof fn lemma_occurrences_valid(objects: Seq<ObjectView>, name: Seq<u8>)
    requires
        objects.len() <= usize::MAX,
        forall|o: int| 0 <= o < objects.len() ==> (#[trigger] objects[o]).symbols@.len() <= usize::MAX,
    ensures
        forall|k: int|
            0 <= k < occurrences(objects, name).len() ==> ((#[trigger] occurrences(objects, name)[k]).obj_idx as int)
                < objects.len(),
        forall|k: int|
            0 <= k < occurrences(objects, name).len() ==> ((#[trigger] occurrences(objects, name)[k]).sym_idx as int)
                < objects[occurrences(objects, name)[k].obj_idx as int].symbols@.len(),
        forall|k: int|
            0 <= k < occurrences(objects, name).len() ==> objects[(#[trigger] occurrences(
                objects,
                name,
            )[k]).obj_idx as int].symbols@[occurrences(objects, name)[k].sym_idx as int].name@
                == name,
    decreases objects.len(),
{
    if objects.len() > 0 {
        assert(forall|j: int|
            0 <= j < objects.len() - 1 ==> objects.drop_last()[j] == #[trigger] objects[j]);
        assert(objects[objects.len() - 1] == objects.last());
        lemma_occurrences_valid(objects.drop_last(), name);
        lemma_obj_occurrences_valid(objects.last().symbols@, (objects.len() - 1) as usize, name);
        let pre = occurrences(objects.drop_last(), name);
        let tail = obj_occurrences(objects.last().symbols@, (objects.len() - 1) as usize, name);
        assert(forall|k: int|
            0 <= k < pre.len() ==> occurrences(objects, name)[k] == #[trigger] pre[k]);
        assert(forall|k: int|
            0 <= k < tail.len() ==> occurrences(objects, name)[pre.len() + k] == #[trigger] tail[k]);
        assert forall|k: int| 0 <= k < occurrences(objects, name).len() implies ((
        #[trigger] occurrences(objects, name)[k]).sym_idx as int) < objects[occurrences(
            objects,
            name,
        )[k].obj_idx as int].symbols@.len() && objects[occurrences(objects, name)[k].obj_idx as int]
            .symbols@[occurrences(objects, name)[k].sym_idx as int].name@ == name by {
            if k < pre.len() {
                let p = pre[k];
                assert((p.sym_idx as int) < objects.drop_last()[p.obj_idx as int].symbols@.len());
                assert(objects.drop_last()[p.obj_idx as int].symbols@[p.sym_idx as int].name@
                    == name);
                assert(objects[p.obj_idx as int] == objects.drop_last()[p.obj_idx as int]);
            } else {
                let p = tail[k - pre.len()];
                assert(occurrences(objects, name)[k] == p);
                assert(p.obj_idx as int == objects.len() - 1);
                assert(objects[p.obj_idx as int] == objects.last());
                assert(objects.last().symbols@[p.sym_idx as int].name@ == name);
            }
        }
    }
}

} // verus!
