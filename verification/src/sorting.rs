//! Ordering utilities: a keyed insertion sort and the binary search that
//! the relocation range query and the extent resolver use.

use vstd::prelude::*;
use vstd::multiset::Multiset;

verus! {

/// A value ordered by an integer key.
pub trait SortKey: Sized {
    /// The key the sort orders by.
    spec fn key_spec(&self) -> int;

    /// Compare two values by their keys.
    fn key_le(&self, other: &Self) -> (r: bool)
        ensures
            r == (self.key_spec() <= other.key_spec()),
    ;
}

impl SortKey for u64 {
    open spec fn key_spec(&self) -> int {
        *self as int
    }

    fn key_le(&self, other: &Self) -> (r: bool) {
        *self <= *other
    }
}

/// The sequence is ordered by key, allowing equal neighbours.
pub open spec fn sorted_by_key<T: SortKey>(s: Seq<T>) -> bool {
    forall|i: int, j: int| 0 <= i <= j < s.len() ==> s[i].key_spec() <= s[j].key_spec()
}

/// Where `x` belongs in an ordered list: after every key at most its own,
/// before every key above it.
fn insert_position<T: SortKey>(out: &Vec<T>, x: &T) -> (p: usize)
    requires
        sorted_by_key(out@),
    ensures
        0 <= p <= out@.len(),
        forall|j: int| 0 <= j < p ==> (#[trigger] out@[j]).key_spec() <= x.key_spec(),
        forall|j: int| p <= j < out@.len() ==> (#[trigger] out@[j]).key_spec() > x.key_spec(),
{
    let n: usize = out.len();
    let mut p: usize = 0;
    while p < n
        invariant
            n == out@.len(),
            0 <= p <= n,
            sorted_by_key(out@),
            forall|j: int| 0 <= j < p ==> (#[trigger] out@[j]).key_spec() <= x.key_spec(),
        decreases n - p,
    {
        if !out[p].key_le(x) {
            assert(forall|j: int|
                p <= j < out@.len() ==> (#[trigger] out@[j]).key_spec() >= out@[p as int].key_spec());
            return p;
        }
        p += 1;
    }
    p
}

/// Sort by key: the result is ordered and holds exactly the input's values.
pub fn insertion_sort<T: SortKey>(v: Vec<T>) -> (r: Vec<T>)
    ensures
        sorted_by_key(r@),
        r@.to_multiset() == v@.to_multiset(),
{
    broadcast use vstd::seq_lib::group_to_multiset_ensures;

    let ghost orig = v@;
    let mut rest = v;
    let mut out: Vec<T> = Vec::new();
    while rest.len() > 0
        invariant
            sorted_by_key(out@),
            out@.to_multiset().add(rest@.to_multiset()) == orig.to_multiset(),
        decreases rest@.len(),
    {
        let ghost old_rest = rest@;
        proof {
            old_rest.to_multiset_ensures();
            assert(old_rest.remove(0).to_multiset() =~= old_rest.to_multiset().remove(old_rest[0]));
            assert(old_rest.contains(old_rest[0]));
            assert(old_rest.to_multiset().count(old_rest[0]) > 0);
        }
        let x = rest.remove(0);
        let p = insert_position(&out, &x);
        let ghost before = out@;
        out.insert(p, x);
        proof {
            vstd::seq_lib::to_multiset_insert(before, p as int, x);
            assert(out@.to_multiset().add(rest@.to_multiset()) =~= before.to_multiset().add(
                old_rest.to_multiset(),
            ));
            let s = out@;
            assert forall|i: int, j: int|
                0 <= i <= j < s.len() implies s[i].key_spec() <= s[j].key_spec() by {
                assert(forall|k: int| 0 <= k < p ==> s[k] == before[k]);
                assert(s[p as int] == x);
                assert(forall|k: int| p < k < s.len() ==> s[k] == before[k - 1]);
            }
        }
    }
    proof {
        assert(rest@ =~= Seq::<T>::empty());
        assert(rest@.to_multiset() =~= Multiset::<T>::empty());
        assert(out@.to_multiset() =~= orig.to_multiset());
    }
    out
}

/// The first position whose value is strictly above `x`.
pub fn upper_bound(v: &Vec<u64>, x: u64) -> (r: usize)
    requires
        sorted_by_key(v@),
    ensures
        0 <= r <= v@.len(),
        forall|j: int| 0 <= j < r ==> v@[j] <= x,
        forall|j: int| r <= j < v@.len() ==> v@[j] > x,
{
    let mut lo: usize = 0;
    let mut hi: usize = v.len();
    while lo < hi
        invariant
            0 <= lo <= hi <= v@.len(),
            forall|j: int| 0 <= j < lo ==> v@[j] <= x,
            forall|j: int| hi <= j < v@.len() ==> v@[j] > x,
            sorted_by_key(v@),
        decreases hi - lo,
    {
        let mid: usize = lo + (hi - lo) / 2;
        if v[mid] <= x {
            lo = mid + 1;
        } else {
            hi = mid;
        }
    }
    lo
}

} // verus!
