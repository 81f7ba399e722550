//! Shared leaf utilities: the dual-lifetime byte view, bounds-checked byte
//! ranges, the hex + ASCII dump renderer, and the aggregated symbol map.

use vstd::prelude::*;
use vstd::slice::slice_subrange;
use vstd::pervasive::VecAdditionalExecFns;
use crate::errors::Error;
use crate::model::SymbolRecord;
use crate::names::{bytes_eq, demangle_name, demangled_of, starts_with};

verus! {

/// A read-only byte view borrowed from one of two owners: the cache that a
/// decompressed section lives in, or the original loaded input.
pub enum DoubleLife<'a, 'b, T: ?Sized> {
    Left(&'a T),
    Right(&'b T),
}

impl<'a, 'b, T: ?Sized> DoubleLife<'a, 'b, T> {
    /// The view itself, whichever owner it borrows from.
    pub fn as_ref(&self) -> (r: &T)
        ensures
            r == match self {
                DoubleLife::Left(t) => *t,
                DoubleLife::Right(t) => *t,
            },
    {
        match self {
            DoubleLife::Left(t) => t,
            DoubleLife::Right(t) => t,
        }
    }
}

/// `data_range` returns exactly the window `[range_address - data_address,
/// .. + size)` of `data`, and each failure names its cause: an address below
/// the base, a value past the machine's pointer width, or a window past the
/// end of the data.
pub open spec fn data_range_spec(
    data: Seq<u8>,
    data_address: u64,
    range_address: u64,
    size: u64,
) -> Result<Seq<u8>, Error> {
    let off = range_address as int - data_address as int;
    if off < 0 {
        Err(Error::BadAddress)
    } else if off > usize::MAX as int || size as int > usize::MAX as int {
        Err(Error::CastFail)
    } else if off + size as int > data.len() {
        Err(Error::SectionRangeOverflow)
    } else {
        Ok(data.subrange(off, off + size as int))
    }
}

/// The byte window of `data` (based at address `data_address`) that covers
/// `[range_address, range_address + size)`, bounds-checked.
pub fn data_range<'d>(data: &'d [u8], data_address: u64, range_address: u64, size: u64) -> (r:
    Result<&'d [u8], Error>)
    ensures
        match r {
            Ok(s) => data_range_spec(data@, data_address, range_address, size) == Ok::<
                Seq<u8>,
                Error,
            >(s@),
            Err(e) => data_range_spec(data@, data_address, range_address, size) == Err::<
                Seq<u8>,
                Error,
            >(e),
        },
{
    if range_address < data_address {
        return Err(Error::BadAddress);
    }
    let off64: u64 = range_address - data_address;
    if off64 > (usize::MAX as u64) || size > (usize::MAX as u64) {
        return Err(Error::CastFail);
    }
    let off: usize = off64 as usize;
    let sz: usize = size as usize;
    let len: usize = data.len();
    if off > len || sz > len - off {
        return Err(Error::SectionRangeOverflow);
    }
    Ok(slice_subrange(data, off, off + sz))
}

/// ASCII for the hex digit `n` (ASCII '0'..'9' then 'a'..'f'); `n` is a
/// nibble.
pub open spec fn hex_digit_spec(n: u8) -> u8 {
    if n < 10 {
        (48 + n) as u8
    } else {
        (87 + n) as u8
    }
}

/// Nibble `k` of `x`, counting from the least significant.
pub open spec fn nibble_spec(x: u64, k: int) -> u8 {
    ((x >> (4 * k) as u64) & 0xf) as u8
}

/// `x` as 16 hex digits, most significant first.
pub open spec fn hex16_spec(x: u64) -> Seq<u8> {
    Seq::new(16, |i: int| hex_digit_spec(nibble_spec(x, 15 - i)))
}

/// One byte as two hex digits and a space.
pub open spec fn hex_triple_spec(b: u8) -> Seq<u8> {
    seq![hex_digit_spec(b / 16), hex_digit_spec(b % 16), 32u8]
}

/// The hex column of a row: each byte as two digits and a space, padded with
/// three spaces per missing byte up to 16 slots.
pub open spec fn hex_col_spec(chunk: Seq<u8>) -> Seq<u8>
    decreases chunk.len(),
{
    if chunk.len() == 0 {
        Seq::new(0, |i: int| 32u8)
    } else {
        hex_triple_spec(chunk.first()) + hex_col_spec(chunk.drop_first())
    }
}

/// `n` ASCII spaces.
pub open spec fn spaces_spec(n: int) -> Seq<u8> {
    Seq::new(if n < 0 {
        0
    } else {
        n as nat
    }, |i: int| 32u8)
}

/// The ASCII column of a row: each byte as itself when printable, else a
/// dot.
pub open spec fn ascii_col_spec(chunk: Seq<u8>) -> Seq<u8> {
    Seq::new(
        chunk.len(),
        |i: int|
            if 32 <= chunk[i] <= 126 {
                chunk[i]
            } else {
                46u8
            },
    )
}

/// One dump row: the address as `0x` and 16 hex digits, a colon and space,
/// the hex column padded to 16 slots, a space, and the ASCII column.
pub open spec fn dump_row_spec(addr: u64, chunk: Seq<u8>) -> Seq<u8> {
    seq![48u8, 120u8] + hex16_spec(addr) + seq![58u8, 32u8] + hex_col_spec(chunk) + spaces_spec(
        3 * (16 - chunk.len()),
    ) + seq![32u8] + ascii_col_spec(chunk)
}

/// The whole dump: sixteen bytes per row, the row address wrapping around
/// the machine word like a pointer does.
pub open spec fn dump_rows_spec(base: u64, bytes: Seq<u8>) -> Seq<Seq<u8>> {
    Seq::new(
        ((bytes.len() + 15) / 16) as nat,
        |r: int|
            dump_row_spec(
                ((base as int + 16 * r) % (0x10000000000000000)) as u64,
                bytes.subrange(
                    16 * r,
                    if 16 * r + 16 <= bytes.len() {
                        16 * r + 16
                    } else {
                        bytes.len() as int
                    },
                ),
            ),
    )
}

/// ASCII for the hex digit `n`.
fn hex_digit(n: u8) -> (r: u8)
    requires
        n < 16,
    ensures
        r == hex_digit_spec(n),
{
    if n < 10 {
        48 + n
    } else {
        87 + n
    }
}

/// `x` as 16 hex digits, most significant first.
fn hex16(x: u64) -> (r: Vec<u8>)
    ensures
        r@ == hex16_spec(x),
{
    let mut out: Vec<u8> = Vec::new();
    let mut i: usize = 0;
    while i < 16
        invariant
            0 <= i <= 16,
            out@.len() == i,
            forall|j: int| 0 <= j < i ==> out@[j] == hex_digit_spec(nibble_spec(x, 15 - j)),
        decreases 16 - i,
    {
        let sh: u64 = (4 * (15 - i)) as u64;
        let nib64: u64 = (x >> sh) & 0xf;
        assert(nib64 < 16) by (bit_vector)
            requires
                nib64 == (x >> sh) & 0xf,
        ;
        let nib: u8 = nib64 as u8;
        assert(nib == nibble_spec(x, 15 - i as int));
        out.push(hex_digit(nib));
        i += 1;
    }
    assert(out@ =~= hex16_spec(x));
    out
}

/// Appending one byte's triple extends the hex column by one slot.
proof fn lemma_hex_col_step(chunk: Seq<u8>, i: int)
    requires
        0 <= i < chunk.len(),
    ensures
        hex_col_spec(chunk.take(i + 1)) == hex_col_spec(chunk.take(i)) + hex_triple_spec(chunk[i]),
    decreases i,
{
    let a = chunk.take(i + 1);
    let b = chunk.take(i);
    if i == 0 {
        assert(a.drop_first() =~= Seq::<u8>::empty());
        assert(hex_col_spec(a.drop_first()) =~= Seq::<u8>::empty());
        assert(b =~= Seq::<u8>::empty());
        assert(hex_col_spec(b) =~= Seq::<u8>::empty());
        assert(hex_col_spec(a) =~= hex_triple_spec(chunk[0]));
        assert(hex_col_spec(b) + hex_triple_spec(chunk[0]) =~= hex_triple_spec(chunk[0]));
    } else {
        lemma_hex_col_step(chunk.drop_first(), i - 1);
        assert(a.drop_first() =~= chunk.drop_first().take(i));
        assert(b.drop_first() =~= chunk.drop_first().take(i - 1));
        assert(chunk.drop_first()[i - 1] == chunk[i]);
        assert(hex_col_spec(a) == hex_triple_spec(chunk[0]) + hex_col_spec(
            chunk.drop_first().take(i),
        ));
        assert(hex_col_spec(b) == hex_triple_spec(chunk[0]) + hex_col_spec(
            chunk.drop_first().take(i - 1),
        ));
        assert(hex_col_spec(a) =~= hex_col_spec(b) + hex_triple_spec(chunk[i]));
    }
}

/// Render one dump row.
fn dump_row(addr: u64, chunk: &[u8]) -> (r: Vec<u8>)
    requires
        chunk@.len() <= 16,
    ensures
        r@ == dump_row_spec(addr, chunk@),
{
    let mut out: Vec<u8> = Vec::new();
    out.push(48);
    out.push(120);
    let mut digits = hex16(addr);
    out.append(&mut digits);
    out.push(58);
    out.push(32);
    let ghost head = seq![48u8, 120u8] + hex16_spec(addr) + seq![58u8, 32u8];
    assert(out@ =~= head);
    let n: usize = chunk.len();
    let mut i: usize = 0;
    while i < n
        invariant
            n == chunk@.len() <= 16,
            0 <= i <= n,
            head == seq![48u8, 120u8] + hex16_spec(addr) + seq![58u8, 32u8],
            out@ == head + hex_col_spec(chunk@.take(i as int)),
        decreases n - i,
    {
        let b = chunk[i];
        out.push(hex_digit(b / 16));
        out.push(hex_digit(b % 16));
        out.push(32);
        proof {
            lemma_hex_col_step(chunk@, i as int);
            assert(out@ =~= head + hex_col_spec(chunk@.take(i + 1)));
        }
        i += 1;
    }
    assert(chunk@.take(n as int) =~= chunk@);
    let ghost mid = head + hex_col_spec(chunk@);
    assert(out@ == mid);
    let pad: usize = 3 * (16 - n);
    let mut k: usize = 0;
    while k < pad
        invariant
            0 <= k <= pad,
            out@ == mid + spaces_spec(k as int),
            mid == head + hex_col_spec(chunk@),
        decreases pad - k,
    {
        out.push(32);
        assert(out@ =~= mid + spaces_spec(k + 1));
        k += 1;
    }
    assert(spaces_spec(pad as int) == spaces_spec(3 * (16 - chunk@.len())));
    out.push(32);
    let ghost mid2 = mid + spaces_spec(3 * (16 - chunk@.len())) + seq![32u8];
    assert(out@ =~= mid2);
    let mut i2: usize = 0;
    while i2 < n
        invariant
            n == chunk@.len(),
            0 <= i2 <= n,
            out@.len() == mid2.len() + i2,
            mid2 == head + hex_col_spec(chunk@) + spaces_spec(3 * (16 - chunk@.len())) + seq![
                32u8,
            ],
            forall|j: int| 0 <= j < mid2.len() ==> out@[j] == mid2[j],
            forall|j: int| 0 <= j < i2 ==> out@[mid2.len() + j] == ascii_col_spec(chunk@)[j],
        decreases n - i2,
    {
        let b = chunk[i2];
        if 32 <= b && b <= 126 {
            out.push(b);
        } else {
            out.push(46);
        }
        i2 += 1;
    }
    assert(out@ =~= dump_row_spec(addr, chunk@));
    out
}

/// Render `bytes`, based at address `base`, as rows of sixteen bytes: the
/// row's address, the bytes in hex, and the bytes in ASCII with a dot for
/// anything unprintable. The caller prints the rows.
pub fn print_pretty_bytes(base: u64, bytes: &[u8]) -> (r: Vec<Vec<u8>>)
    ensures
        r@.len() == dump_rows_spec(base, bytes@).len(),
        forall|i: int| 0 <= i < r@.len() ==> (#[trigger] r@[i])@ == dump_rows_spec(base, bytes@)[i],
{
    let len: usize = bytes.len();
    let nrows: usize = len / 16 + if len % 16 == 0 {
        0
    } else {
        1
    };
    assert(nrows == (len as int + 15) / 16);
    let mut rows: Vec<Vec<u8>> = Vec::new();
    let mut rI: usize = 0;
    while rI < nrows
        invariant
            len == bytes@.len(),
            nrows == (len as int + 15) / 16,
            0 <= rI <= nrows,
            rows@.len() == rI,
            forall|i: int|
                0 <= i < rI ==> (#[trigger] rows@[i])@ == dump_rows_spec(base, bytes@)[i],
        decreases nrows - rI,
    {
        assert(16 * (rI as int) < len);
        let start: usize = rI * 16;
        let end: usize = if len - start >= 16 {
            start + 16
        } else {
            len
        };
        let chunk = slice_subrange(bytes, start, end);
        let addr: u64 = base.wrapping_add((rI as u64) * 16);
        let row = dump_row(addr, chunk);
        proof {
            assert(addr as int == (base as int + 16 * (rI as int)) % (0x10000000000000000));
            assert(chunk@ =~= bytes@.subrange(
                16 * (rI as int),
                if 16 * (rI as int) + 16 <= bytes@.len() {
                    16 * (rI as int) + 16
                } else {
                    bytes@.len() as int
                },
            ));
            assert(dump_rows_spec(base, bytes@)[rI as int] == dump_row_spec(addr, chunk@));
        }
        rows.push(row);
        rI += 1;
    }
    rows
}

/// The synthetic-fragment prefix: compiler-generated outlined fragments all
/// begin with `OUTLINED_FUNCTION_`, and an aggregation may coalesce them
/// under that one bucket name.
pub open spec fn outlined_prefix() -> Seq<u8> {
    seq![79u8, 85u8, 84u8, 76u8, 73u8, 78u8, 69u8, 68u8, 95u8, 70u8, 85u8, 78u8, 67u8, 84u8, 73u8, 79u8, 78u8, 95u8]
}

/// The synthetic-fragment prefix as a value.
pub fn outlined_prefix_vec() -> (r: Vec<u8>)
    ensures
        r@ == outlined_prefix(),
{
    let v = vec![
        79u8, 85u8, 84u8, 76u8, 73u8, 78u8, 69u8, 68u8, 95u8, 70u8, 85u8, 78u8, 67u8, 84u8, 73u8,
        79u8, 78u8, 95u8,
    ];
    assert(v@ =~= outlined_prefix());
    v
}

/// A symbol takes part in aggregation: a text symbol with a readable,
/// non-empty name.
pub open spec fn aggregable(sym: SymbolRecord) -> bool {
    sym.is_text && sym.name_ok && sym.name@.len() > 0
}

/// The bucket name a symbol aggregates under: its demangled display form,
/// coalesced to the shared fragment bucket when asked to.
pub open spec fn bucket_of(sym: SymbolRecord, filter_outlined: bool) -> Seq<u8> {
    let d = demangled_of(sym.name@, false);
    if filter_outlined && outlined_prefix().is_prefix_of(d) {
        outlined_prefix()
    } else {
        d
    }
}

/// The total size aggregated under `name`: the sum of the sizes of every
/// aggregable symbol whose bucket is `name`.
pub open spec fn agg_size(syms: Seq<SymbolRecord>, filter_outlined: bool, name: Seq<u8>) -> int
    decreases syms.len(),
{
    if syms.len() == 0 {
        0
    } else {
        agg_size(syms.drop_last(), filter_outlined, name) + if aggregable(syms.last()) && bucket_of(
            syms.last(),
            filter_outlined,
        ) == name {
            syms.last().size as int
        } else {
            0
        }
    }
}

/// Some aggregable symbol falls under `name`.
pub open spec fn has_bucket(syms: Seq<SymbolRecord>, filter_outlined: bool, name: Seq<u8>) -> bool {
    exists|i: int|
        0 <= i < syms.len() && aggregable(#[trigger] syms[i]) && bucket_of(syms[i], filter_outlined)
            == name
}

/// The address recorded under `name`: the first aggregable occurrence's
/// address.
pub open spec fn first_addr(syms: Seq<SymbolRecord>, filter_outlined: bool, name: Seq<u8>) -> Option<
    u64,
>
    decreases syms.len(),
{
    if syms.len() == 0 {
        None
    } else {
        match first_addr(syms.drop_last(), filter_outlined, name) {
            Option::Some(a) => Some(a),
            Option::None => if aggregable(syms.last()) && bucket_of(syms.last(), filter_outlined)
                == name {
                Some(syms.last().address)
            } else {
                None
            },
        }
    }
}

/// The bucket names in the order their first occurrences appear.
pub open spec fn bucket_order(syms: Seq<SymbolRecord>, filter_outlined: bool) -> Seq<Seq<u8>>
    decreases syms.len(),
{
    if syms.len() == 0 {
        Seq::empty()
    } else {
        let pre = bucket_order(syms.drop_last(), filter_outlined);
        if aggregable(syms.last()) && !pre.contains(bucket_of(syms.last(), filter_outlined)) {
            pre.push(bucket_of(syms.last(), filter_outlined))
        } else {
            pre
        }
    }
}

/// A bucket the order has not seen holds nothing: no first address and a
/// zero total.
pub proof fn lemma_unseen_bucket(syms: Seq<SymbolRecord>, filter_outlined: bool, name: Seq<u8>)
    requires
        !bucket_order(syms, filter_outlined).contains(name),
    ensures
        first_addr(syms, filter_outlined, name) is None,
        agg_size(syms, filter_outlined, name) == 0,
    decreases syms.len(),
{
    if syms.len() > 0 {
        let pre = bucket_order(syms.drop_last(), filter_outlined);
        assert(!pre.contains(name)) by {
            if pre.contains(name) {
                if aggregable(syms.last()) && !pre.contains(
                    bucket_of(syms.last(), filter_outlined),
                ) {
                    assert(pre.push(bucket_of(syms.last(), filter_outlined)).contains(name)) by {
                        let w = choose|w: int| 0 <= w < pre.len() && pre[w] == name;
                        assert(pre.push(bucket_of(syms.last(), filter_outlined))[w] == name);
                    }
                }
            }
        }
        lemma_unseen_bucket(syms.drop_last(), filter_outlined, name);
        if aggregable(syms.last()) && bucket_of(syms.last(), filter_outlined) == name {
            if !pre.contains(name) {
                assert(bucket_order(syms, filter_outlined) == pre.push(name));
                assert(bucket_order(syms, filter_outlined).contains(name)) by {
                    assert(pre.push(name)[pre.len() as int] == name);
                }
            }
        }
    }
}

/// One bucket of an aggregated symbol map.
pub struct MapEntry {
    /// The bucket name: a demangled display form, or the shared fragment
    /// bucket.
    pub name: Vec<u8>,
    /// The first occurrence's address.
    pub address: u64,
    /// The summed size of every occurrence.
    pub size: u64,
}

/// A name-to-(address, total size) table over one object's text symbols,
/// in first-occurrence order, merging same-named definitions by summing
/// their sizes.
pub struct AggregatedSymbolMap {
    pub entries: Vec<MapEntry>,
}

impl AggregatedSymbolMap {
    /// Bucket names are unique.
    pub open spec fn wf(self) -> bool {
        forall|i: int, j: int|
            0 <= i < j < self.entries@.len() ==> (#[trigger] self.entries@[i]).name@ != (
            #[trigger] self.entries@[j]).name@
    }

    /// The bucket names, in order.
    pub open spec fn names(self) -> Seq<Seq<u8>> {
        self.entries@.map_values(|e: MapEntry| e.name@)
    }

    /// The pair stored under `name`, if any.
    pub open spec fn lookup(self, name: Seq<u8>) -> Option<(u64, u64)> {
        if exists|i: int| 0 <= i < self.entries@.len() && (#[trigger] self.entries@[i]).name@ == name {
            let i = choose|i: int|
                0 <= i < self.entries@.len() && (#[trigger] self.entries@[i]).name@ == name;
            Some((self.entries@[i].address, self.entries@[i].size))
        } else {
            None
        }
    }

    /// How many buckets the map holds.
    pub fn len(&self) -> (r: usize)
        ensures
            r == self.entries@.len(),
    {
        self.entries.len()
    }
}

/// Fold the aggregable symbols into a map from bucket name to (first
/// address, total size), merging duplicate buckets by summing sizes.
///
/// With `filter_outlined` every synthetic outlined fragment falls into one
/// shared bucket. A total that would not fit the size type is an explicit
/// overflow error.
pub fn collect_map(symbols: &Vec<SymbolRecord>, filter_outlined: bool) -> (r: Result<
    AggregatedSymbolMap,
    Error,
>)
    ensures
        r matches Ok(m) ==> ({
            &&& m.wf()
            &&& m.names() == bucket_order(symbols@, filter_outlined)
            &&& forall|k: int|
                0 <= k < m.entries@.len() ==> ({
                    &&& first_addr(symbols@, filter_outlined, (#[trigger] m.entries@[k]).name@)
                        == Some(m.entries@[k].address)
                    &&& m.entries@[k].size as int == agg_size(
                        symbols@,
                        filter_outlined,
                        m.entries@[k].name@,
                    )
                })
        }),
        r matches Err(e) ==> e == Error::Overflow && exists|name: Seq<u8>|
            agg_size(symbols@, filter_outlined, name) > u64::MAX,
{
    let prefix = outlined_prefix_vec();
    let mut entries: Vec<MapEntry> = Vec::new();
    let n: usize = symbols.len();
    let mut i: usize = 0;
    while i < n
        invariant
            n == symbols@.len(),
            0 <= i <= n,
            prefix@ == outlined_prefix(),
            forall|a: int, b: int|
                0 <= a < b < entries@.len() ==> (#[trigger] entries@[a]).name@ != (
                #[trigger] entries@[b]).name@,
            entries@.map_values(|e: MapEntry| e.name@) == bucket_order(
                symbols@.take(i as int),
                filter_outlined,
            ),
            forall|k: int|
                0 <= k < entries@.len() ==> first_addr(
                    symbols@.take(i as int),
                    filter_outlined,
                    (#[trigger] entries@[k]).name@,
                ) == Some(entries@[k].address),
            forall|k: int|
                0 <= k < entries@.len() ==> (#[trigger] entries@[k]).size as int == agg_size(
                    symbols@.take(i as int),
                    filter_outlined,
                    entries@[k].name@,
                ),
        decreases n - i,
    {
        let ghost pre_take = symbols@.take(i as int);
        let ghost post_take = symbols@.take(i as int + 1);
        proof {
            assert(post_take.drop_last() =~= pre_take);
            assert(post_take.last() == symbols@[i as int]);
        }
        let sym = &symbols[i];
        if sym.is_text && sym.name_ok && sym.name.len() > 0 {
            assert(aggregable(symbols@[i as int]));
            let d = demangle_name(sym.name.as_slice(), false);
            let key: Vec<u8> = if filter_outlined && starts_with(d.as_slice(), prefix.as_slice()) {
                outlined_prefix_vec()
            } else {
                d
            };
            assert(key@ == bucket_of(symbols@[i as int], filter_outlined));
            let ghost names_old = entries@.map_values(|e: MapEntry| e.name@);
            proof {
                assert(forall|t: int|
                    0 <= t < entries@.len() ==> names_old[t] == (#[trigger] entries@[t]).name@);
            }
            let m: usize = entries.len();
            let mut j: usize = 0;
            let mut found: bool = false;
            while j < m && !found
                invariant
                    m == entries@.len(),
                    0 <= j <= m,
                    found ==> j < m && (entries@[j as int]).name@ == key@,
                    !found ==> forall|t: int| 0 <= t < j ==> (#[trigger] entries@[t]).name@ != key@,
                decreases m - j, (if found {
                    0int
                } else {
                    1int
                }),
            {
                if bytes_eq(entries[j].name.as_slice(), key.as_slice()) {
                    found = true;
                } else {
                    j += 1;
                }
            }
            if found {
                proof {
                    assert(names_old[j as int] == key@);
                    assert(bucket_order(pre_take, filter_outlined).contains(key@));
                    assert(bucket_order(post_take, filter_outlined) == bucket_order(
                        pre_take,
                        filter_outlined,
                    ));
                }
                let ghost old_entries = entries@;
                let entry = entries.remove(j);
                let added = match entry.size.checked_add(sym.size) {
                    Some(v) => v,
                    None => {
                        proof {
                            lemma_agg_size_take_monotone(
                                symbols@,
                                filter_outlined,
                                key@,
                                i as int + 1,
                                symbols@.len() as int,
                            );
                            assert(symbols@.take(symbols@.len() as int) =~= symbols@);
                            assert(agg_size(symbols@, filter_outlined, key@) > u64::MAX);
                        }
                        return Err(Error::Overflow);
                    },
                };
                entries.insert(j, MapEntry { name: entry.name, address: entry.address, size: added });
                proof {
                    assert(entries@ =~= old_entries.update(
                        j as int,
                        MapEntry { size: added, ..old_entries[j as int] },
                    ));
                    assert(forall|t: int|
                        0 <= t < entries@.len() ==> (#[trigger] entries@[t]).name@
                            == old_entries[t].name@ && entries@[t].address
                            == old_entries[t].address);
                    assert(entries@.map_values(|e: MapEntry| e.name@) =~= names_old);
                    assert forall|k: int| 0 <= k < entries@.len() implies first_addr(
                        post_take,
                        filter_outlined,
                        (#[trigger] entries@[k]).name@,
                    ) == Some(entries@[k].address) && entries@[k].size as int == agg_size(
                        post_take,
                        filter_outlined,
                        entries@[k].name@,
                    ) by {
                        if k != j {
                            assert(entries@[k].name@ != key@);
                        }
                    }
                }
            } else {
                proof {
                    assert(forall|t: int| 0 <= t < m ==> (#[trigger] entries@[t]).name@ != key@);
                    assert(!bucket_order(pre_take, filter_outlined).contains(key@)) by {
                        if bucket_order(pre_take, filter_outlined).contains(key@) {
                            let w = choose|w: int|
                                0 <= w < names_old.len() && names_old[w] == key@;
                            assert((entries@[w]).name@ == key@);
                        }
                    }
                    lemma_unseen_bucket(pre_take, filter_outlined, key@);
                    assert(bucket_order(post_take, filter_outlined) == bucket_order(
                        pre_take,
                        filter_outlined,
                    ).push(key@));
                }
                let ghost old_entries = entries@;
                entries.push(MapEntry { name: key, address: sym.address, size: sym.size });
                proof {
                    assert(entries@.map_values(|e: MapEntry| e.name@) =~= names_old.push(key@));
                    assert forall|k: int| 0 <= k < entries@.len() implies first_addr(
                        post_take,
                        filter_outlined,
                        (#[trigger] entries@[k]).name@,
                    ) == Some(entries@[k].address) && entries@[k].size as int == agg_size(
                        post_take,
                        filter_outlined,
                        entries@[k].name@,
                    ) by {
                        if k < old_entries.len() {
                            assert(entries@[k] == old_entries[k]);
                            assert(entries@[k].name@ != key@);
                        } else {
                            assert(entries@[k].name@ == key@);
                            assert(first_addr(pre_take, filter_outlined, key@) is None);
                            assert(agg_size(pre_take, filter_outlined, key@) == 0);
                        }
                    }
                }
            }
        } else {
            proof {
                assert(!aggregable(symbols@[i as int]));
                assert(bucket_order(post_take, filter_outlined) == bucket_order(
                    pre_take,
                    filter_outlined,
                ));
            }
        }
        i += 1;
    }
    proof {
        assert(symbols@.take(n as int) =~= symbols@);
    }
    Ok(AggregatedSymbolMap { entries })
}

/// What one symbol adds to a bucket's total.
pub open spec fn share_of(sym: SymbolRecord, filter_outlined: bool, name: Seq<u8>) -> int {
    if aggregable(sym) && bucket_of(sym, filter_outlined) == name {
        sym.size as int
    } else {
        0
    }
}

/// Removing one symbol takes exactly its own contribution out of a bucket's
/// total.
proof fn lemma_agg_size_remove(syms: Seq<SymbolRecord>, filter_outlined: bool, name: Seq<u8>, j: int)
    requires
        0 <= j < syms.len(),
    ensures
        agg_size(syms.remove(j), filter_outlined, name) == agg_size(syms, filter_outlined, name)
            - share_of(syms[j], filter_outlined, name),
    decreases syms.len(),
{
    if j == syms.len() - 1 {
        assert(syms.remove(j) =~= syms.drop_last());
    } else {
        lemma_agg_size_remove(syms.drop_last(), filter_outlined, name, j);
        assert(syms.remove(j).drop_last() =~= syms.drop_last().remove(j));
        assert(syms.remove(j).last() == syms.last());
    }
}

/// Law: a bucket's total size is order-independent — aggregating the symbols
/// in any permutation of encounter order yields the same total per bucket
/// name.
pub proof fn lemma_agg_size_permutation(
    s1: Seq<SymbolRecord>,
    s2: Seq<SymbolRecord>,
    filter_outlined: bool,
    name: Seq<u8>,
)
    requires
        s1.to_multiset() == s2.to_multiset(),
    ensures
        agg_size(s1, filter_outlined, name) == agg_size(s2, filter_outlined, name),
    decreases s1.len(),
{
    s1.to_multiset_ensures();
    s2.to_multiset_ensures();
    if s1.len() == 0 {
        assert(s2.to_multiset().len() == 0);
        assert(s2.len() == 0);
    } else {
        let x = s1.last();
        assert(s1.drop_last().push(x) =~= s1);
        s1.drop_last().to_multiset_ensures();
        assert(s1.to_multiset() == s1.drop_last().to_multiset().insert(x));
        assert(s1.to_multiset().count(x) > 0);
        assert(s2.to_multiset().count(x) > 0);
        assert(s2.contains(x));
        let j = choose|j: int| 0 <= j < s2.len() && s2[j] == x;
        assert(s2.remove(j).to_multiset() =~= s2.to_multiset().remove(x));
        assert(s1.drop_last().to_multiset() =~= s1.to_multiset().remove(x));
        lemma_agg_size_permutation(s1.drop_last(), s2.remove(j), filter_outlined, name);
        lemma_agg_size_remove(s2, filter_outlined, name, j);
    }
}

/// Law: whether a bucket exists at all is order-independent.
pub proof fn lemma_has_bucket_permutation(
    s1: Seq<SymbolRecord>,
    s2: Seq<SymbolRecord>,
    filter_outlined: bool,
    name: Seq<u8>,
)
    requires
        s1.to_multiset() == s2.to_multiset(),
    ensures
        has_bucket(s1, filter_outlined, name) == has_bucket(s2, filter_outlined, name),
{
    s1.to_multiset_ensures();
    s2.to_multiset_ensures();
    if has_bucket(s1, filter_outlined, name) {
        let i = choose|i: int|
            0 <= i < s1.len() && aggregable(#[trigger] s1[i]) && bucket_of(s1[i], filter_outlined)
                == name;
        assert(s1.contains(s1[i]));
        assert(s1.to_multiset().count(s1[i]) > 0);
        assert(s2.to_multiset().count(s1[i]) > 0);
        assert(s2.contains(s1[i]));
        let j = choose|j: int| 0 <= j < s2.len() && s2[j] == s1[i];
        assert(has_bucket(s2, filter_outlined, name)) by {
            assert(aggregable(s2[j]) && bucket_of(s2[j], filter_outlined) == name);
        }
    }
    if has_bucket(s2, filter_outlined, name) {
        let i = choose|i: int|
            0 <= i < s2.len() && aggregable(#[trigger] s2[i]) && bucket_of(s2[i], filter_outlined)
                == name;
        assert(s2.contains(s2[i]));
        assert(s2.to_multiset().count(s2[i]) > 0);
        assert(s1.to_multiset().count(s2[i]) > 0);
        assert(s1.contains(s2[i]));
        let j = choose|j: int| 0 <= j < s1.len() && s1[j] == s2[i];
        assert(has_bucket(s1, filter_outlined, name)) by {
            assert(aggregable(s1[j]) && bucket_of(s1[j], filter_outlined) == name);
        }
    }
}

/// When every occurrence of a bucket shares one address, the recorded
/// address is the shared one, whatever the order.
proof fn lemma_first_addr_uniform(
    syms: Seq<SymbolRecord>,
    filter_outlined: bool,
    name: Seq<u8>,
    a: u64,
)
    requires
        forall|i: int|
            0 <= i < syms.len() && aggregable(#[trigger] syms[i]) && bucket_of(
                syms[i],
                filter_outlined,
            ) == name ==> syms[i].address == a,
    ensures
        first_addr(syms, filter_outlined, name) == if has_bucket(syms, filter_outlined, name) {
            Some(a)
        } else {
            None::<u64>
        },
    decreases syms.len(),
{
    if syms.len() > 0 {
        assert(forall|i: int|
            0 <= i < syms.len() - 1 ==> syms.drop_last()[i] == (#[trigger] syms[i]));
        lemma_first_addr_uniform(syms.drop_last(), filter_outlined, name, a);
        if has_bucket(syms.drop_last(), filter_outlined, name) {
            let i = choose|i: int|
                0 <= i < syms.drop_last().len() && aggregable(#[trigger] syms.drop_last()[i])
                    && bucket_of(syms.drop_last()[i], filter_outlined) == name;
            assert(aggregable(syms[i]) && bucket_of(syms[i], filter_outlined) == name);
        } else {
            if aggregable(syms.last()) && bucket_of(syms.last(), filter_outlined) == name {
                assert(syms[syms.len() - 1].address == a);
                assert(has_bucket(syms, filter_outlined, name)) by {
                    assert(aggregable(syms[syms.len() - 1]));
                }
            } else {
                if has_bucket(syms, filter_outlined, name) {
                    let i = choose|i: int|
                        0 <= i < syms.len() && aggregable(#[trigger] syms[i]) && bucket_of(
                            syms[i],
                            filter_outlined,
                        ) == name;
                    assert(i < syms.len() - 1);
                    assert(aggregable(syms.drop_last()[i]));
                }
            }
        }
    }
}

/// Law: when every occurrence of a bucket shares one address, the recorded
/// (first-occurrence) address is order-independent too: any permutation of
/// the symbols records the same address for the bucket.
pub proof fn lemma_first_addr_permutation(
    s1: Seq<SymbolRecord>,
    s2: Seq<SymbolRecord>,
    filter_outlined: bool,
    name: Seq<u8>,
    a: u64,
)
    requires
        s1.to_multiset() == s2.to_multiset(),
        forall|i: int|
            0 <= i < s1.len() && aggregable(#[trigger] s1[i]) && bucket_of(s1[i], filter_outlined)
                == name ==> s1[i].address == a,
    ensures
        first_addr(s1, filter_outlined, name) == first_addr(s2, filter_outlined, name),
{
    s1.to_multiset_ensures();
    s2.to_multiset_ensures();
    assert forall|i: int|
        0 <= i < s2.len() && aggregable(#[trigger] s2[i]) && bucket_of(s2[i], filter_outlined)
            == name implies s2[i].address == a by {
        assert(s2.contains(s2[i]));
        assert(s2.to_multiset().count(s2[i]) > 0);
        assert(s1.to_multiset().count(s2[i]) > 0);
        assert(s1.contains(s2[i]));
        let j = choose|j: int| 0 <= j < s1.len() && s1[j] == s2[i];
        assert(aggregable(s1[j]) && bucket_of(s1[j], filter_outlined) == name);
    }
    lemma_first_addr_uniform(s1, filter_outlined, name, a);
    lemma_first_addr_uniform(s2, filter_outlined, name, a);
    lemma_has_bucket_permutation(s1, s2, filter_outlined, name);
}

/// A sum of sizes is never negative.
pub proof fn lemma_agg_size_nonneg(syms: Seq<SymbolRecord>, filter_outlined: bool, name: Seq<u8>)
    ensures
        agg_size(syms, filter_outlined, name) >= 0,
    decreases syms.len(),
{
    if syms.len() > 0 {
        lemma_agg_size_nonneg(syms.drop_last(), filter_outlined, name);
    }
}

/// Lengthening the scanned prefix never shrinks a bucket's total.
pub proof fn lemma_agg_size_take_monotone(
    syms: Seq<SymbolRecord>,
    filter_outlined: bool,
    name: Seq<u8>,
    a: int,
    b: int,
)
    requires
        0 <= a <= b <= syms.len(),
    ensures
        agg_size(syms.take(a), filter_outlined, name) <= agg_size(syms.take(b), filter_outlined, name),
    decreases b - a,
{
    if a < b {
        lemma_agg_size_take_monotone(syms, filter_outlined, name, a, b - 1);
        assert(syms.take(b).drop_last() =~= syms.take(b - 1));
    }
    if a == b {
    } else {
        assert(syms.take(b) =~= syms.take(b));
    }
}

} // verus!
