//! The diff engine: compare two aggregated symbol maps and report
//! additions, removals and size changes, with the anti-symmetry law.

use vstd::prelude::*;
use crate::common::AggregatedSymbolMap;
use crate::errors::Error;
use crate::names::bytes_eq;
use crate::sorting::{insertion_sort, sorted_by_key, SortKey};

verus! {

/// The batch diff command's options: the two object files, one-way mode,
/// and sorting by size delta.
pub struct Options {
    pub old: Vec<u8>,
    pub new: Vec<u8>,
    pub oneway: bool,
    pub sort: bool,
}

/// One reported difference: a bucket name with its (address, size) pair on
/// each side; a side the bucket is missing from reports zeroes.
#[derive(Clone, PartialEq, Eq, Debug)]
pub struct DiffRecord {
    pub name: Vec<u8>,
    pub old_addr: u64,
    pub old_size: u64,
    pub new_addr: u64,
    pub new_size: u64,
}

/// A difference as plain values: name, old (address, size), new (address,
/// size).
pub open spec fn rec_view(r: DiffRecord) -> (Seq<u8>, u64, u64, u64, u64) {
    (r.name@, r.old_addr, r.old_size, r.new_addr, r.new_size)
}

/// Exactly when a difference belongs to the report of `diff(old, new)`:
/// a bucket of `old` whose size changed or that vanished, or — in two-way
/// mode — a bucket only `new` has.
pub open spec fn diff_member(
    old_map: AggregatedSymbolMap,
    new_map: AggregatedSymbolMap,
    two_way: bool,
    rec: (Seq<u8>, u64, u64, u64, u64),
) -> bool {
    match old_map.lookup(rec.0) {
        Option::Some(o) => match new_map.lookup(rec.0) {
            Option::Some(n) => o.1 != n.1 && rec == (rec.0, o.0, o.1, n.0, n.1),
            Option::None => rec == (rec.0, o.0, o.1, 0u64, 0u64),
        },
        Option::None => two_way && match new_map.lookup(rec.0) {
            Option::Some(n) => rec == (rec.0, 0u64, 0u64, n.0, n.1),
            Option::None => false,
        },
    }
}

/// The same difference seen from the other direction.
pub open spec fn rec_swapped(rec: (Seq<u8>, u64, u64, u64, u64)) -> (Seq<u8>, u64, u64, u64, u64) {
    (rec.0, rec.3, rec.4, rec.1, rec.2)
}

/// Law: the two-way diff is anti-symmetric — a difference belongs to
/// `diff(old, new)` exactly when its swapped form (and so its negated size
/// delta) belongs to `diff(new, old)`.
pub proof fn lemma_diff_antisymmetric(
    old_map: AggregatedSymbolMap,
    new_map: AggregatedSymbolMap,
    rec: (Seq<u8>, u64, u64, u64, u64),
)
    ensures
        diff_member(old_map, new_map, true, rec) == diff_member(
            new_map,
            old_map,
            true,
            rec_swapped(rec),
        ),
{
    let sw = rec_swapped(rec);
    assert(sw.0 == rec.0);
    match (old_map.lookup(rec.0), new_map.lookup(rec.0)) {
        (Option::Some(o), Option::Some(n)) => {
            // Present on both sides: reported exactly when the sizes differ,
            // and swapping the sides swaps the pairs.
            assert(diff_member(old_map, new_map, true, rec) == (o.1 != n.1 && rec == (
                rec.0,
                o.0,
                o.1,
                n.0,
                n.1,
            )));
            assert(diff_member(new_map, old_map, true, sw) == (n.1 != o.1 && sw == (
                rec.0,
                n.0,
                n.1,
                o.0,
                o.1,
            )));
        },
        (Option::Some(o), Option::None) => {
            // A vanished bucket swaps into a bucket only the other side has.
            assert(diff_member(old_map, new_map, true, rec) == (rec == (
                rec.0,
                o.0,
                o.1,
                0u64,
                0u64,
            )));
            assert(diff_member(new_map, old_map, true, sw) == (sw == (
                rec.0,
                0u64,
                0u64,
                o.0,
                o.1,
            )));
        },
        (Option::None, Option::Some(n)) => {
            assert(diff_member(old_map, new_map, true, rec) == (rec == (
                rec.0,
                0u64,
                0u64,
                n.0,
                n.1,
            )));
            assert(diff_member(new_map, old_map, true, sw) == (sw == (
                rec.0,
                n.0,
                n.1,
                0u64,
                0u64,
            )));
        },
        (Option::None, Option::None) => {
            assert(!diff_member(old_map, new_map, true, rec));
            assert(!diff_member(new_map, old_map, true, sw));
        },
    }
}

/// Look a name up in a map's entries.
fn map_find(m: &AggregatedSymbolMap, name: &[u8]) -> (r: Option<(u64, u64)>)
    requires
        m.wf(),
    ensures
        match r {
            Option::Some(p) => m.lookup(name@) == Some(p),
            Option::None => m.lookup(name@) is None,
        },
{
    let n: usize = m.entries.len();
    let mut i: usize = 0;
    while i < n
        invariant
            m.wf(),
            n == m.entries@.len(),
            0 <= i <= n,
            forall|t: int| 0 <= t < i ==> (#[trigger] m.entries@[t]).name@ != name@,
        decreases n - i,
    {
        if bytes_eq(m.entries[i].name.as_slice(), name) {
            proof {
                let c = choose|c: int|
                    0 <= c < m.entries@.len() && (#[trigger] m.entries@[c]).name@ == name@;
                assert(c == i as int);
            }
            return Some((m.entries[i].address, m.entries[i].size));
        }
        i += 1;
    }
    proof {
        if m.lookup(name@) is Some {
            let c = choose|c: int|
                0 <= c < m.entries@.len() && (#[trigger] m.entries@[c]).name@ == name@;
            assert(m.entries@[c].name@ == name@);
        }
    }
    None
}

/// The diff of two aggregated maps.
pub struct Differ<'a>(pub &'a AggregatedSymbolMap, pub &'a AggregatedSymbolMap, pub bool);

impl<'a> Differ<'a> {
    /// All reported differences: every changed or vanished bucket of the
    /// old map in its order, then — in two-way mode — every bucket only the
    /// new map has, in its order. Each bucket is reported at most once, and
    /// everything the membership rule admits is reported.
    pub fn for_each(&self) -> (r: Vec<DiffRecord>)
        requires
            self.0.wf(),
            self.1.wf(),
        ensures
            forall|k: int|
                0 <= k < r@.len() ==> diff_member(*self.0, *self.1, self.2, rec_view(#[trigger] r@[k])),
            forall|k: int, t: int|
                0 <= k < t < r@.len() ==> (#[trigger] r@[k]).name@ != (#[trigger] r@[t]).name@,
            forall|rec: (Seq<u8>, u64, u64, u64, u64)|
                #[trigger] diff_member(*self.0, *self.1, self.2, rec) ==> exists|k: int|
                    0 <= k < r@.len() && (#[trigger] r@[k]).name@ == rec.0,
    {
        let old_map = self.0;
        let new_map = self.1;
        let two_way = self.2;
        let mut out: Vec<DiffRecord> = Vec::new();
        let n_old: usize = old_map.entries.len();
        let mut i: usize = 0;
        while i < n_old
            invariant
                old_map.wf(),
                new_map.wf(),
                old_map == self.0,
                new_map == self.1,
                two_way == self.2,
                n_old == old_map.entries@.len(),
                0 <= i <= n_old,
                forall|k: int|
                    0 <= k < out@.len() ==> diff_member(
                        *old_map,
                        *new_map,
                        two_way,
                        rec_view(#[trigger] out@[k]),
                    ),
                forall|k: int|
                    0 <= k < out@.len() ==> old_map.lookup((#[trigger] out@[k]).name@) is Some,
                forall|k: int, t: int|
                    0 <= k < out@.len() && i <= t < n_old ==> (#[trigger] out@[k]).name@ != (
                    #[trigger] old_map.entries@[t]).name@,
                forall|k: int, t: int|
                    0 <= k < t < out@.len() ==> (#[trigger] out@[k]).name@ != (
                    #[trigger] out@[t]).name@,
                forall|t: int|
                    0 <= t < i ==> (diff_member(
                        *old_map,
                        *new_map,
                        two_way,
                        mem_probe(*old_map, *new_map, (#[trigger] old_map.entries@[t]).name@),
                    ) ==> exists|k: int|
                        0 <= k < out@.len() && (#[trigger] out@[k]).name@
                            == old_map.entries@[t].name@),
            decreases n_old - i,
        {
            let entry = &old_map.entries[i];
            proof {
                lemma_lookup_at(*old_map, i as int);
            }
            match map_find(new_map, entry.name.as_slice()) {
                Some(p) => {
                    if entry.size != p.1 {
                        let rec = DiffRecord {
                            name: crate::names::copy_bytes(entry.name.as_slice()),
                            old_addr: entry.address,
                            old_size: entry.size,
                            new_addr: p.0,
                            new_size: p.1,
                        };
                        proof {
                            assert(diff_member(*old_map, *new_map, two_way, rec_view(rec)));
                        }
                        let ghost old_out = out@;
                        out.push(rec);
                        proof {
                            assert(forall|k: int|
                                0 <= k < old_out.len() ==> out@[k] == #[trigger] old_out[k]);
                            assert(out@[out@.len() - 1].name@
                                == old_map.entries@[i as int].name@);
                        }
                    }
                },
                None => {
                    let rec = DiffRecord {
                        name: crate::names::copy_bytes(entry.name.as_slice()),
                        old_addr: entry.address,
                        old_size: entry.size,
                        new_addr: 0,
                        new_size: 0,
                    };
                    proof {
                        assert(diff_member(*old_map, *new_map, two_way, rec_view(rec)));
                    }
                    let ghost old_out = out@;
                    out.push(rec);
                    proof {
                        assert(forall|k: int|
                            0 <= k < old_out.len() ==> out@[k] == #[trigger] old_out[k]);
                        assert(out@[out@.len() - 1].name@ == old_map.entries@[i as int].name@);
                    }
                },
            }
            i += 1;
        }
        if two_way {
            let n_new: usize = new_map.entries.len();
            proof {
                assert forall|k: int, t: int|
                    0 <= k < out@.len() && 0 <= t < n_new && old_map.lookup(
                        (#[trigger] new_map.entries@[t]).name@,
                    ) is None implies (#[trigger] out@[k]).name@ != new_map.entries@[t].name@ by {
                    assert(old_map.lookup(out@[k].name@) is Some);
                }
            }
            let mut j: usize = 0;
            while j < n_new
                invariant
                    old_map.wf(),
                    new_map.wf(),
                    old_map == self.0,
                    new_map == self.1,
                    two_way == self.2,
                    two_way,
                    n_new == new_map.entries@.len(),
                    0 <= j <= n_new,
                    forall|k: int|
                        0 <= k < out@.len() ==> diff_member(
                            *old_map,
                            *new_map,
                            two_way,
                            rec_view(#[trigger] out@[k]),
                        ),
                    forall|k: int, t: int|
                        0 <= k < t < out@.len() ==> (#[trigger] out@[k]).name@ != (
                        #[trigger] out@[t]).name@,
                    forall|k: int, t: int|
                        0 <= k < out@.len() && j <= t < n_new && old_map.lookup(
                            (#[trigger] new_map.entries@[t]).name@,
                        ) is None ==> (#[trigger] out@[k]).name@ != new_map.entries@[t].name@,
                    forall|t: int|
                        0 <= t < old_map.entries@.len() ==> (diff_member(
                            *old_map,
                            *new_map,
                            two_way,
                            mem_probe(*old_map, *new_map, (#[trigger] old_map.entries@[t]).name@),
                        ) ==> exists|k: int|
                            0 <= k < out@.len() && (#[trigger] out@[k]).name@
                                == old_map.entries@[t].name@),
                    forall|t: int|
                        0 <= t < j ==> (diff_member(
                            *old_map,
                            *new_map,
                            two_way,
                            mem_probe(*old_map, *new_map, (#[trigger] new_map.entries@[t]).name@),
                        ) ==> exists|k: int|
                            0 <= k < out@.len() && (#[trigger] out@[k]).name@
                                == new_map.entries@[t].name@),
                decreases n_new - j,
            {
                let entry = &new_map.entries[j];
                proof {
                    lemma_lookup_at(*new_map, j as int);
                }
                match map_find(old_map, entry.name.as_slice()) {
                    Some(_) => {
                        proof {
                            let name = new_map.entries@[j as int].name@;
                            if diff_member(
                                *old_map,
                                *new_map,
                                two_way,
                                mem_probe(*old_map, *new_map, name),
                            ) {
                                let c = choose|c: int|
                                    0 <= c < old_map.entries@.len() && (
                                    #[trigger] old_map.entries@[c]).name@ == name;
                                assert(old_map.entries@[c].name@ == name);
                            }
                        }
                    },
                    None => {
                        let rec = DiffRecord {
                            name: crate::names::copy_bytes(entry.name.as_slice()),
                            old_addr: 0,
                            old_size: 0,
                            new_addr: entry.address,
                            new_size: entry.size,
                        };
                        proof {
                            assert(diff_member(*old_map, *new_map, two_way, rec_view(rec)));
                        }
                        let ghost old_out = out@;
                        out.push(rec);
                        proof {
                            assert(forall|k: int|
                                0 <= k < old_out.len() ==> out@[k] == #[trigger] old_out[k]);
                            assert(out@[out@.len() - 1].name@
                                == new_map.entries@[j as int].name@);
                        }
                    },
                }
                j += 1;
            }
        }
        proof {
            assert forall|rec: (Seq<u8>, u64, u64, u64, u64)|
                #[trigger] diff_member(*self.0, *self.1, self.2, rec) implies exists|k: int|
                0 <= k < out@.len() && (#[trigger] out@[k]).name@ == rec.0 by {
                if old_map.lookup(rec.0) is Some {
                    let c = choose|c: int|
                        0 <= c < old_map.entries@.len() && (#[trigger] old_map.entries@[c]).name@
                            == rec.0;
                    assert(diff_member(
                        *old_map,
                        *new_map,
                        two_way,
                        mem_probe(*old_map, *new_map, old_map.entries@[c].name@),
                    ));
                } else {
                    if two_way && new_map.lookup(rec.0) is Some {
                        let c = choose|c: int|
                            0 <= c < new_map.entries@.len() && (
                            #[trigger] new_map.entries@[c]).name@ == rec.0;
                        assert(diff_member(
                            *old_map,
                            *new_map,
                            two_way,
                            mem_probe(*old_map, *new_map, new_map.entries@[c].name@),
                        ));
                    }
                }
            }
        }
        out
    }
}

/// The unique difference a bucket name could contribute, as a probe for the
/// completeness argument.
pub open spec fn mem_probe(
    old_map: AggregatedSymbolMap,
    new_map: AggregatedSymbolMap,
    name: Seq<u8>,
) -> (Seq<u8>, u64, u64, u64, u64) {
    match old_map.lookup(name) {
        Option::Some(o) => match new_map.lookup(name) {
            Option::Some(n) => (name, o.0, o.1, n.0, n.1),
            Option::None => (name, o.0, o.1, 0u64, 0u64),
        },
        Option::None => match new_map.lookup(name) {
            Option::Some(n) => (name, 0u64, 0u64, n.0, n.1),
            Option::None => (name, 0u64, 0u64, 0u64, 0u64),
        },
    }
}

/// An entry's own name looks up to its own pair.
proof fn lemma_lookup_at(m: AggregatedSymbolMap, k: int)
    requires
        m.wf(),
        0 <= k < m.entries@.len(),
    ensures
        m.lookup(m.entries@[k].name@) == Some((m.entries@[k].address, m.entries@[k].size)),
{
    assert(exists|c: int|
        0 <= c < m.entries@.len() && (#[trigger] m.entries@[c]).name@ == m.entries@[k].name@);
    let c = choose|c: int|
        0 <= c < m.entries@.len() && (#[trigger] m.entries@[c]).name@ == m.entries@[k].name@;
    assert(c == k);
}

impl SortKey for DiffRecord {
    open spec fn key_spec(&self) -> int {
        self.new_size as int - self.old_size as int
    }

    fn key_le(&self, other: &Self) -> (r: bool) {
        // Compare the signed deltas without subtracting: a.new - a.old is at
        // most b.new - b.old exactly when a.new + b.old is at most
        // b.new + a.old, and the sums fit a wider word.
        (self.new_size as u128) + (other.old_size as u128) <= (other.new_size as u128) + (
        self.old_size as u128)
    }
}

/// The differences ordered by signed size delta, smallest first, holding
/// exactly the same records.
pub fn sort_by_delta(records: Vec<DiffRecord>) -> (r: Vec<DiffRecord>)
    ensures
        sorted_by_key(r@),
        r@.to_multiset() == records@.to_multiset(),
{
    insertion_sort(records)
}

/// The signed sum of the reported size deltas.
pub open spec fn deltas_total(records: Seq<DiffRecord>) -> int
    decreases records.len(),
{
    if records.len() == 0 {
        0
    } else {
        deltas_total(records.drop_last()) + records.last().new_size
            - records.last().old_size
    }
}

/// Sum the signed size deltas, with an explicit error where a running total
/// would not fit the delta type.
pub fn total_delta(records: &Vec<DiffRecord>) -> (r: Result<i64, Error>)
    ensures
        r matches Ok(v) ==> v as int == deltas_total(records@),
        r matches Err(e) ==> e == Error::Overflow && (exists|p: int|
            0 < p <= records@.len() && !(i64::MIN <= #[trigger] deltas_total(records@.take(p))
                <= i64::MAX)),
{
    let n: usize = records.len();
    let mut total: i64 = 0;
    let mut k: usize = 0;
    while k < n
        invariant
            n == records@.len(),
            0 <= k <= n,
            total as int == deltas_total(records@.take(k as int)),
        decreases n - k,
    {
        proof {
            assert(records@.take(k as int + 1).drop_last() =~= records@.take(k as int));
            assert(records@.take(k as int + 1).last() == records@[k as int]);
        }
        let stepped: i128 = (total as i128) + (records[k].new_size as i128) - (
        records[k].old_size as i128);
        if stepped > (i64::MAX as i128) || stepped < (i64::MIN as i128) {
            proof {
                assert(!(i64::MIN <= deltas_total(records@.take(k as int + 1)) <= i64::MAX));
            }
            return Err(Error::Overflow);
        }
        total = stepped as i64;
        k += 1;
    }
    proof {
        assert(records@.take(n as int) =~= records@);
    }
    Ok(total)
}

} // verus!
