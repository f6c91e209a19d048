use vstd::prelude::*;

use crate::error::Error;

verus! {

/// Allocation granularity of the virtual-address substrate: sizes and
/// offsets handed to it must be multiples of this.
pub const GRANULARITY: usize = 4096;

/// One mapped range of the device address space: a physical block's bytes
/// bound at a base address.
pub struct MapEntry {
    pub base: usize,
    pub bytes: Vec<u8>,
}

/// Mathematical image of one mapped range.
pub ghost struct Span {
    pub base: int,
    pub bytes: Seq<u8>,
}

impl View for MapEntry {
    type V = Span;

    open spec fn view(&self) -> Span {
        Span { base: self.base as int, bytes: self.bytes@ }
    }
}

/// Mathematical image of a mapping table.
pub open spec fn spans_of(entries: Seq<MapEntry>) -> Seq<Span> {
    Seq::new(entries.len(), |i: int| entries[i]@)
}

/// An owned physical allocation that is not currently mapped anywhere.
pub struct PhysMem {
    bytes: Vec<u8>,
}

impl PhysMem {
    /// The block's contents.
    pub closed spec fn contents(self) -> Seq<u8> {
        self.bytes@
    }

    /// Size of the block in bytes.
    pub fn len(&self) -> (r: usize)
        ensures
            r == self.contents().len(),
    {
        self.bytes.len()
    }
}

/// A typed device byte range: a base address and a length. A slice is usable
/// only while every byte of it is mapped.
#[derive(Clone, Copy, PartialEq, Eq, Structural, Debug)]
pub struct DevSlice {
    pub addr: usize,
    pub len: usize,
}

/// Whether address `a` falls inside entry `e`.
pub open spec fn entry_holds(e: Span, a: int) -> bool {
    e.base <= a < e.base + e.bytes.len()
}

/// The byte visible at address `a`: the first entry whose range holds `a`,
/// or nothing when the address is unmapped.
pub open spec fn byte_at(s: Seq<Span>, a: int) -> Option<u8>
    decreases s.len(),
{
    if s.len() == 0 {
        Option::None
    } else if entry_holds(s[0], a) {
        Option::Some(s[0].bytes[a - s[0].base])
    } else {
        byte_at(s.drop_first(), a)
    }
}

/// Address `a` is currently mapped.
pub open spec fn mapped(s: Seq<Span>, a: int) -> bool {
    byte_at(s, a) is Some
}

/// The byte at a mapped address.
pub open spec fn val_at(s: Seq<Span>, a: int) -> u8 {
    match byte_at(s, a) {
        Option::Some(v) => v,
        Option::None => 0,
    }
}

/// Index of the first entry holding `a`.
pub open spec fn holder(s: Seq<Span>, a: int) -> int
    decreases s.len(),
{
    if s.len() == 0 {
        0
    } else if entry_holds(s[0], a) {
        0
    } else {
        1 + holder(s.drop_first(), a)
    }
}

/// Every byte of `[addr, addr + len)` is mapped.
pub open spec fn range_mapped(s: Seq<Span>, addr: int, len: int) -> bool {
    forall|i: int| 0 <= i < len ==> #[trigger] mapped(s, addr + i)
}

/// `[base, base + len)` shares no byte with any current entry.
pub open spec fn range_free(s: Seq<Span>, base: int, len: int) -> bool {
    forall|j: int|
        0 <= j < s.len() ==> ((#[trigger] s[j]).base + s[j].bytes.len() <= base || base + len
            <= s[j].base)
}

/// Well-formed table: every entry fits the address space and no two entries
/// overlap, so each mapped byte has exactly one backing.
pub open spec fn wf_entries(s: Seq<Span>) -> bool {
    &&& forall|i: int|
        0 <= i < s.len() ==> (#[trigger] s[i]).base + s[i].bytes.len() <= usize::MAX
    &&& forall|i: int, j: int|
        0 <= i < s.len() && 0 <= j < s.len() && i != j ==> ((#[trigger] s[i]).base
            + s[i].bytes.len() <= (#[trigger] s[j]).base || s[j].base + s[j].bytes.len()
            <= s[i].base)
}

/// The table with the byte at mapped address `a` replaced by `v`.
pub open spec fn write_byte_s(s: Seq<Span>, a: int, v: u8) -> Seq<Span> {
    let j = holder(s, a);
    s.update(j, Span { base: s[j].base, bytes: s[j].bytes.update(a - s[j].base, v) })
}

/// The table after writing `vals` at consecutive addresses from `a` on.
pub open spec fn write_range_s(s: Seq<Span>, a: int, vals: Seq<u8>) -> Seq<Span> {
    crate::memcpy::scatter_s(s, Seq::new(vals.len(), |i: int| a + i), vals)
}

/// Same bases and sizes: the two tables map exactly the same addresses.
pub open spec fn same_layout(s1: Seq<Span>, s2: Seq<Span>) -> bool {
    &&& s1.len() == s2.len()
    &&& forall|i: int|
        0 <= i < s1.len() ==> (#[trigger] s1[i]).base == s2[i].base && s1[i].bytes.len()
            == s2[i].bytes.len()
}

/// A scan that saw no holder among the first `j` entries and then one at `j`
/// found the first holder.
pub proof fn lemma_holder_found(s: Seq<Span>, j: int, a: int)
    requires
        0 <= j < s.len(),
        forall|k: int| 0 <= k < j ==> !entry_holds(#[trigger] s[k], a),
        entry_holds(s[j], a),
    ensures
        mapped(s, a),
        holder(s, a) == j,
        byte_at(s, a) == Option::Some(s[j].bytes[a - s[j].base]),
    decreases s.len(),
{
    if j == 0 {
    } else {
        assert(forall|k: int| 0 <= k < j - 1 ==> !entry_holds(#[trigger] s.drop_first()[k], a));
        lemma_holder_found(s.drop_first(), j - 1, a);
    }
}

/// A scan that saw no holder anywhere proves the address unmapped.
pub proof fn lemma_no_holder(s: Seq<Span>, a: int)
    requires
        forall|k: int| 0 <= k < s.len() ==> !entry_holds(#[trigger] s[k], a),
    ensures
        !mapped(s, a),
    decreases s.len(),
{
    if s.len() > 0 {
        assert(forall|k: int|
            0 <= k < s.drop_first().len() ==> !entry_holds(#[trigger] s.drop_first()[k], a));
        lemma_no_holder(s.drop_first(), a);
    }
}

/// At a mapped address the holder index is in range, holds the address, and
/// yields the visible byte; no earlier entry holds it.
pub proof fn lemma_holder_props(s: Seq<Span>, a: int)
    requires
        mapped(s, a),
    ensures
        0 <= holder(s, a) < s.len(),
        entry_holds(s[holder(s, a)], a),
        byte_at(s, a) == Option::Some(s[holder(s, a)].bytes[a - s[holder(s, a)].base]),
        forall|k: int| 0 <= k < holder(s, a) ==> !entry_holds(#[trigger] s[k], a),
    decreases s.len(),
{
    if s.len() > 0 && !entry_holds(s[0], a) {
        lemma_holder_props(s.drop_first(), a);
        assert forall|k: int| 0 <= k < holder(s, a) implies !entry_holds(#[trigger] s[k], a) by {
            if k > 0 {
                assert(s.drop_first()[k - 1] == s[k]);
            }
        }
    }
}

/// Replacing entry `j` by one with the same base and size changes the bytes
/// visible only where `j` is the first holder.
pub proof fn lemma_byte_at_update(s: Seq<Span>, j: int, e: Span, x: int)
    requires
        0 <= j < s.len(),
        e.base == s[j].base,
        e.bytes.len() == s[j].bytes.len(),
    ensures
        byte_at(s.update(j, e), x) == if mapped(s, x) && holder(s, x) == j {
            Option::Some(e.bytes[x - e.base])
        } else {
            byte_at(s, x)
        },
    decreases s.len(),
{
    let t = s.update(j, e);
    if j == 0 {
        if entry_holds(s[0], x) {
            lemma_holder_found(s, 0, x);
            assert(entry_holds(t[0], x));
        } else {
            assert(!entry_holds(t[0], x));
            assert(t.drop_first() =~= s.drop_first());
            if mapped(s, x) {
                lemma_holder_props(s, x);
            }
        }
    } else {
        assert(t[0] == s[0]);
        assert(t.drop_first() =~= s.drop_first().update(j - 1, e));
        lemma_byte_at_update(s.drop_first(), j - 1, e, x);
        if entry_holds(s[0], x) {
            lemma_holder_found(s, 0, x);
        } else {
            if mapped(s, x) {
                lemma_holder_props(s, x);
                lemma_holder_props(s.drop_first(), x);
            }
        }
    }
}

/// Writing one mapped byte keeps the layout and changes only that address.
pub proof fn lemma_write_byte_s(s: Seq<Span>, a: int, v: u8)
    requires
        wf_entries(s),
        mapped(s, a),
    ensures
        same_layout(s, write_byte_s(s, a, v)),
        wf_entries(write_byte_s(s, a, v)),
        byte_at(write_byte_s(s, a, v), a) == Option::Some(v),
        forall|x: int| x != a ==> byte_at(write_byte_s(s, a, v), x) == byte_at(s, x),
{
    let j = holder(s, a);
    lemma_holder_props(s, a);
    let e = Span { base: s[j].base, bytes: s[j].bytes.update(a - s[j].base, v) };
    let t = write_byte_s(s, a, v);
    assert(t =~= s.update(j, e));
    assert forall|x: int| true implies byte_at(t, x) == if mapped(s, x) && holder(s, x) == j {
        Option::Some(e.bytes[x - e.base])
    } else {
        byte_at(s, x)
    } by {
        lemma_byte_at_update(s, j, e, x);
    }
    assert forall|x: int| x != a implies byte_at(t, x) == byte_at(s, x) by {
        if mapped(s, x) && holder(s, x) == j {
            lemma_holder_props(s, x);
            assert(e.bytes[x - e.base] == s[j].bytes[x - s[j].base]);
        }
    }
    assert(byte_at(t, a) == Option::Some(v));
}

/// A mapped address lies inside the address space.
pub proof fn lemma_mapped_in_range(s: Seq<Span>, a: int)
    requires
        wf_entries(s),
        mapped(s, a),
    ensures
        a < usize::MAX,
{
    lemma_holder_props(s, a);
    let h = holder(s, a);
    assert(s[h].base + s[h].bytes.len() <= usize::MAX);
}

/// Under disjointness an entry holding an address is its (unique) holder.
pub proof fn lemma_unique_holder(s: Seq<Span>, j: int, a: int)
    requires
        wf_entries(s),
        0 <= j < s.len(),
        entry_holds(s[j], a),
    ensures
        mapped(s, a),
        holder(s, a) == j,
        byte_at(s, a) == Option::Some(s[j].bytes[a - s[j].base]),
{
    assert forall|k: int| 0 <= k < j implies !entry_holds(#[trigger] s[k], a) by {
        assert(s[k].base + s[k].bytes.len() <= s[j].base || s[j].base + s[j].bytes.len()
            <= s[k].base);
    }
    lemma_holder_found(s, j, a);
}

/// Appending a fresh, non-overlapping entry leaves every old byte visible and
/// makes the new range visible.
pub proof fn lemma_byte_at_push(s: Seq<Span>, e: Span, x: int)
    requires
        wf_entries(s.push(e)),
    ensures
        byte_at(s.push(e), x) == if entry_holds(e, x) {
            Option::Some(e.bytes[x - e.base])
        } else {
            byte_at(s, x)
        },
    decreases s.len(),
{
    let t = s.push(e);
    if entry_holds(e, x) {
        assert(t[s.len() as int] == e);
        lemma_unique_holder(t, s.len() as int, x);
        assert(byte_at(t, x) == Option::Some(e.bytes[x - e.base]));
    } else if s.len() == 0 {
        assert(!entry_holds(t[0], x));
        assert(t.drop_first() =~= Seq::<Span>::empty());
        assert(byte_at(t, x) == byte_at(s, x));
    } else {
        assert(t[0] == s[0]);
        if entry_holds(s[0], x) {
            assert(byte_at(t, x) == byte_at(s, x));
        }
        if !entry_holds(s[0], x) {
            assert(t.drop_first() =~= s.drop_first().push(e));
            assert(wf_entries(s.drop_first().push(e))) by {
                assert forall|i: int|
                    0 <= i < s.drop_first().push(e).len() implies (#[trigger] s.drop_first().push(
                    e,
                )[i]).base + s.drop_first().push(e)[i].bytes.len() <= usize::MAX by {
                    assert(s.drop_first().push(e)[i] == t[i + 1]);
                }
                assert forall|i: int, j: int|
                    0 <= i < s.drop_first().push(e).len() && 0 <= j < s.drop_first().push(e).len()
                        && i != j implies ((#[trigger] s.drop_first().push(e)[i]).base
                    + s.drop_first().push(e)[i].bytes.len()
                    <= (#[trigger] s.drop_first().push(e)[j]).base || s.drop_first().push(
                    e,
                )[j].base + s.drop_first().push(e)[j].bytes.len() <= s.drop_first().push(
                    e,
                )[i].base) by {
                    assert(s.drop_first().push(e)[i] == t[i + 1]);
                    assert(s.drop_first().push(e)[j] == t[j + 1]);
                }
            }
            lemma_byte_at_push(s.drop_first(), e, x);
            assert(byte_at(t, x) == byte_at(t.drop_first(), x));
            assert(byte_at(t.drop_first(), x) == byte_at(s.drop_first().push(e), x));
            assert(byte_at(s.drop_first().push(e), x) == byte_at(s.drop_first(), x));
            assert(byte_at(s, x) == byte_at(s.drop_first(), x));
        }
    }
}

/// Removing an entry keeps the table well formed.
pub proof fn lemma_wf_remove(s: Seq<Span>, j: int)
    requires
        wf_entries(s),
        0 <= j < s.len(),
    ensures
        wf_entries(s.remove(j)),
{
    let t = s.remove(j);
    assert forall|i: int| 0 <= i < t.len() implies (#[trigger] t[i]).base + t[i].bytes.len()
        <= usize::MAX by {
        assert(t[i] == s[if i < j { i } else { i + 1 }]);
    }
    assert forall|i1: int, i2: int| 0 <= i1 < t.len() && 0 <= i2 < t.len() && i1 != i2 implies ((
    #[trigger] t[i1]).base + t[i1].bytes.len() <= (#[trigger] t[i2]).base || t[i2].base
        + t[i2].bytes.len() <= t[i1].base) by {
        let j1: int = if i1 < j { i1 } else { i1 + 1 };
        let j2: int = if i2 < j { i2 } else { i2 + 1 };
        assert(t[i1] == s[j1]);
        assert(t[i2] == s[j2]);
    }
}

/// Unmapping entry `j` hides exactly its range and nothing else.
pub proof fn lemma_byte_at_remove(s: Seq<Span>, j: int, x: int)
    requires
        wf_entries(s),
        0 <= j < s.len(),
    ensures
        byte_at(s.remove(j), x) == if entry_holds(s[j], x) {
            Option::None::<u8>
        } else {
            byte_at(s, x)
        },
    decreases s.len(),
{
    let t = s.remove(j);
    if j == 0 {
        assert(t =~= s.drop_first());
        if entry_holds(s[0], x) {
            assert forall|k: int| 0 <= k < t.len() implies !entry_holds(#[trigger] t[k], x) by {
                assert(t[k] == s[k + 1]);
            }
            lemma_no_holder(t, x);
        }
    } else {
        assert(t[0] == s[0]);
        if !entry_holds(s[0], x) {
            assert(t.drop_first() =~= s.drop_first().remove(j - 1));
            assert(wf_entries(s.drop_first())) by {
                assert forall|i: int|
                    0 <= i < s.drop_first().len() implies (#[trigger] s.drop_first()[i]).base
                        + s.drop_first()[i].bytes.len() <= usize::MAX by {
                    assert(s.drop_first()[i] == s[i + 1]);
                }
                assert forall|i1: int, i2: int|
                    0 <= i1 < s.drop_first().len() && 0 <= i2 < s.drop_first().len() && i1
                        != i2 implies ((#[trigger] s.drop_first()[i1]).base
                    + s.drop_first()[i1].bytes.len() <= (#[trigger] s.drop_first()[i2]).base
                    || s.drop_first()[i2].base + s.drop_first()[i2].bytes.len()
                    <= s.drop_first()[i1].base) by {
                    assert(s.drop_first()[i1] == s[i1 + 1]);
                    assert(s.drop_first()[i2] == s[i2 + 1]);
                }
            }
            lemma_byte_at_remove(s.drop_first(), j - 1, x);
        }
    }
}

/// Tables of the same layout map exactly the same addresses.
pub proof fn lemma_same_layout_mapped(s1: Seq<Span>, s2: Seq<Span>)
    requires
        same_layout(s1, s2),
    ensures
        forall|x: int| mapped(s1, x) == #[trigger] mapped(s2, x),
    decreases s1.len(),
{
    if s1.len() > 0 {
        assert(same_layout(s1.drop_first(), s2.drop_first())) by {
            assert forall|i: int| 0 <= i < s1.drop_first().len() implies ((
            #[trigger] s1.drop_first()[i]).base == s2.drop_first()[i].base
                && s1.drop_first()[i].bytes.len() == s2.drop_first()[i].bytes.len()) by {
                assert(s1.drop_first()[i] == s1[i + 1]);
                assert(s2.drop_first()[i] == s2[i + 1]);
            }
        }
        lemma_same_layout_mapped(s1.drop_first(), s2.drop_first());
        assert forall|x: int| mapped(s1, x) == #[trigger] mapped(s2, x) by {
            assert(s1[0].base == s2[0].base && s1[0].bytes.len() == s2[0].bytes.len());
            assert(entry_holds(s1[0], x) == entry_holds(s2[0], x));
            assert(mapped(s1.drop_first(), x) == mapped(s2.drop_first(), x));
        }
    }
}

/// Law: unmapping a block and remapping the same block at the same offset is
/// a no-op for every subsequent read.
pub proof fn lemma_vm_roundtrip(s: Seq<Span>, j: int)
    requires
        wf_entries(s),
        0 <= j < s.len(),
    ensures
        wf_entries(s.remove(j).push(s[j])),
        forall|x: int| #[trigger] byte_at(s.remove(j).push(s[j]), x) == byte_at(s, x),
{
    let t = s.remove(j).push(s[j]);
    lemma_wf_remove(s, j);
    assert(wf_entries(t)) by {
        assert forall|i: int| 0 <= i < t.len() implies (#[trigger] t[i]).base + t[i].bytes.len()
            <= usize::MAX by {
            assert(t[i] == s[if i == t.len() - 1 {
                j
            } else if i < j {
                i
            } else {
                i + 1
            }]);
        }
        assert forall|i1: int, i2: int|
            0 <= i1 < t.len() && 0 <= i2 < t.len() && i1 != i2 implies ((#[trigger] t[i1]).base
            + t[i1].bytes.len() <= (#[trigger] t[i2]).base || t[i2].base + t[i2].bytes.len()
            <= t[i1].base) by {
            let j1: int = if i1 == t.len() - 1 {
                j
            } else if i1 < j {
                i1
            } else {
                i1 + 1
            };
            let j2: int = if i2 == t.len() - 1 {
                j
            } else if i2 < j {
                i2
            } else {
                i2 + 1
            };
            assert(t[i1] == s[j1]);
            assert(t[i2] == s[j2]);
        }
    }
    assert forall|x: int| #[trigger] byte_at(t, x) == byte_at(s, x) by {
        lemma_byte_at_remove(s, j, x);
        lemma_byte_at_push(s.remove(j), s[j], x);
        if entry_holds(s[j], x) {
            lemma_unique_holder(s, j, x);
        }
    }
}

/// Writing a run of consecutive mapped bytes keeps the layout, lands the
/// bytes, and touches nothing else.
pub proof fn lemma_write_range(s: Seq<Span>, a: int, vals: Seq<u8>)
    requires
        wf_entries(s),
        range_mapped(s, a, vals.len() as int),
    ensures
        wf_entries(write_range_s(s, a, vals)),
        same_layout(s, write_range_s(s, a, vals)),
        forall|i: int|
            0 <= i < vals.len() ==> byte_at(write_range_s(s, a, vals), a + i) == Option::Some(
                #[trigger] vals[i],
            ),
        forall|x: int|
            !(a <= x < a + vals.len()) ==> #[trigger] byte_at(write_range_s(s, a, vals), x)
                == byte_at(s, x),
    decreases vals.len(),
{
    let dsts = Seq::new(vals.len(), |i: int| a + i);
    let t = write_range_s(s, a, vals);
    if vals.len() > 0 {
        let short = vals.drop_last();
        lemma_write_range(s, a, short);
        let prev = write_range_s(s, a, short);
        assert(dsts.drop_last() =~= Seq::new(short.len(), |i: int| a + i));
        assert(dsts.last() == a + vals.len() - 1);
        lemma_same_layout_mapped(s, prev);
        assert(mapped(prev, a + vals.len() - 1));
        lemma_write_byte_s(prev, a + vals.len() - 1, vals.last());
        assert(t == write_byte_s(prev, a + vals.len() - 1, vals.last()));
        assert forall|i: int| 0 <= i < vals.len() implies byte_at(t, a + i) == Option::Some(
            #[trigger] vals[i],
        ) by {
            if i < vals.len() - 1 {
                assert(byte_at(prev, a + i) == Option::Some(short[i]));
            }
        }
        assert forall|x: int| !(a <= x < a + vals.len()) implies #[trigger] byte_at(t, x)
            == byte_at(s, x) by {
            assert(byte_at(prev, x) == byte_at(s, x));
            assert(x != a + vals.len() - 1);
        }
    } else {
        assert(dsts =~= Seq::<int>::empty());
    }
}

/// A vector of `n` zero bytes.
fn zero_vec(n: usize) -> (r: Vec<u8>)
    ensures
        r@ =~= Seq::new(n as nat, |i: int| 0u8),
{
    let mut v: Vec<u8> = Vec::new();
    let mut i: usize = 0;
    while i < n
        invariant
            i <= n,
            v@ =~= Seq::new(i as nat, |k: int| 0u8),
        decreases n - i,
    {
        v.push(0);
        i = i + 1;
    }
    v
}

/// Per-device execution environment. It owns the device address space: a
/// bump reservation cursor and the table of currently mapped ranges.
pub struct Ctx {
    entries: Vec<MapEntry>,
    next_base: usize,
}

impl Ctx {
    /// The current mapping table.
    pub closed spec fn table(self) -> Seq<Span> {
        spans_of(self.entries@)
    }

    /// One past the highest address handed out by a reservation.
    pub closed spec fn reserved(self) -> int {
        self.next_base as int
    }

    /// Well-formedness: the table is well formed and every entry lies below
    /// the reservation cursor.
    pub open spec fn wf(self) -> bool {
        &&& wf_entries(self.table())
        &&& forall|i: int|
            0 <= i < self.table().len() ==> (#[trigger] self.table()[i]).base
                + self.table()[i].bytes.len() <= self.reserved()
    }

    /// A fresh context with an empty address space.
    pub fn new() -> (r: Ctx)
        ensures
            r.wf(),
            r.table() =~= Seq::<Span>::empty(),
            r.reserved() == 0,
    {
        Ctx { entries: Vec::new(), next_base: 0 }
    }

    /// Index of the entry holding address `a`, if the address is mapped.
    fn find_entry(&self, a: usize) -> (r: Option<usize>)
        ensures
            match r {
                Option::Some(j) => mapped(self.table(), a as int) && holder(
                    self.table(),
                    a as int,
                ) == j && j < self.table().len(),
                Option::None => !mapped(self.table(), a as int),
            },
    {
        let n = self.entries.len();
        let mut j: usize = 0;
        while j < n
            invariant
                j <= n,
                n == self.entries.len(),
                forall|k: int| 0 <= k < j ==> !entry_holds(#[trigger] self.table()[k], a as int),
            decreases n - j,
        {
            let e_base = self.entries[j].base;
            let e_len = self.entries[j].bytes.len();
            if e_base <= a && a - e_base < e_len {
                proof {
                    assert(entry_holds(self.table()[j as int], a as int));
                    lemma_holder_found(self.table(), j as int, a as int);
                }
                return Option::Some(j);
            }
            proof {
                assert(!entry_holds(self.table()[j as int], a as int));
            }
            j = j + 1;
        }
        proof {
            lemma_no_holder(self.table(), a as int);
        }
        Option::None
    }

    /// Whether address `a` is currently mapped.
    pub fn is_mapped(&self, a: usize) -> (r: bool)
        ensures
            r == mapped(self.table(), a as int),
    {
        match self.find_entry(a) {
            Option::Some(_) => true,
            Option::None => false,
        }
    }

    /// The byte currently visible at a mapped address.
    pub fn read_byte(&self, a: usize) -> (r: u8)
        requires
            mapped(self.table(), a as int),
        ensures
            byte_at(self.table(), a as int) == Option::Some(r),
    {
        proof {
            lemma_holder_props(self.table(), a as int);
        }
        match self.find_entry(a) {
            Option::Some(j) => {
                let e = &self.entries[j];
                e.bytes[a - e.base]
            },
            Option::None => {
                proof {
                    assert(false);
                }
                0
            },
        }
    }

    /// Overwrite the byte at a mapped address.
    pub fn write_byte(&mut self, a: usize, v: u8)
        requires
            old(self).wf(),
            mapped(old(self).table(), a as int),
        ensures
            final(self).wf(),
            final(self).table() == write_byte_s(old(self).table(), a as int, v),
            final(self).reserved() == old(self).reserved(),
            same_layout(old(self).table(), final(self).table()),
            byte_at(final(self).table(), a as int) == Option::Some(v),
            forall|x: int|
                x != a ==> #[trigger] byte_at(final(self).table(), x) == byte_at(
                    old(self).table(),
                    x,
                ),
    {
        proof {
            lemma_write_byte_s(self.table(), a as int, v);
            lemma_holder_props(self.table(), a as int);
        }
        match self.find_entry(a) {
            Option::Some(j) => {
                let e_base = self.entries[j].base;
                let idx = a - e_base;
                self.entries[j].bytes[idx] = v;
                proof {
                    assert(final(self).table() =~= write_byte_s(old(self).table(), a as int, v));
                }
            },
            Option::None => {
                proof {
                    assert(false);
                }
            },
        }
    }

    /// Eager allocation: a zero-filled buffer mapped at a fresh base address.
    pub fn malloc(&mut self, n: usize) -> (r: DevSlice)
        requires
            old(self).wf(),
            old(self).reserved() + n <= usize::MAX,
        ensures
            final(self).wf(),
            r.addr == old(self).reserved(),
            r.len == n,
            final(self).reserved() == old(self).reserved() + n,
            final(self).table() =~= old(self).table().push(
                Span { base: r.addr as int, bytes: Seq::new(n as nat, |i: int| 0u8) },
            ),
            range_mapped(final(self).table(), r.addr as int, r.len as int),
            forall|x: int|
                !(r.addr <= x < r.addr + r.len) ==> #[trigger] byte_at(final(self).table(), x)
                    == byte_at(old(self).table(), x),
            forall|i: int|
                0 <= i < n ==> #[trigger] byte_at(final(self).table(), r.addr + i)
                    == Option::Some(0u8),
    {
        let base = self.next_base;
        let bytes = zero_vec(n);
        let entry = MapEntry { base, bytes };
        let ghost sp = entry@;
        self.entries.push(entry);
        self.next_base = base + n;
        proof {
            let t = final(self).table();
            assert(t =~= old(self).table().push(sp));
            assert(wf_entries(t)) by {
                assert forall|i: int, j: int|
                    0 <= i < t.len() && 0 <= j < t.len() && i != j implies ((
                #[trigger] t[i]).base + t[i].bytes.len() <= (#[trigger] t[j]).base || t[j].base
                    + t[j].bytes.len() <= t[i].base) by {
                    if i < t.len() - 1 && j < t.len() - 1 {
                        assert(t[i] == old(self).table()[i]);
                        assert(t[j] == old(self).table()[j]);
                    }
                }
            }
            assert forall|x: int| true implies #[trigger] byte_at(t, x) == if sp.base <= x
                < sp.base + n {
                Option::Some(0u8)
            } else {
                byte_at(old(self).table(), x)
            } by {
                lemma_byte_at_push(old(self).table(), sp, x);
            }
        }
        DevSlice { addr: base, len: n }
    }

    /// Host-to-device copy: overwrite a mapped device range with host bytes.
    pub fn memcpy_h2d(&mut self, dst: &DevSlice, src: &Vec<u8>)
        requires
            old(self).wf(),
            src@.len() == dst.len,
            range_mapped(old(self).table(), dst.addr as int, dst.len as int),
        ensures
            final(self).wf(),
            same_layout(old(self).table(), final(self).table()),
            final(self).reserved() == old(self).reserved(),
            forall|i: int|
                0 <= i < dst.len ==> #[trigger] byte_at(final(self).table(), dst.addr + i)
                    == Option::Some(src@[i]),
            forall|x: int|
                !(dst.addr <= x < dst.addr + dst.len) ==> #[trigger] byte_at(
                    final(self).table(),
                    x,
                ) == byte_at(old(self).table(), x),
            final(self).table() == write_range_s(old(self).table(), dst.addr as int, src@),
    {
        let ghost dsts = Seq::new(src@.len(), |k: int| dst.addr + k);
        let mut i: usize = 0;
        while i < dst.len
            invariant
                i <= dst.len,
                src@.len() == dst.len,
                self.wf(),
                same_layout(old(self).table(), self.table()),
                self.reserved() == old(self).reserved(),
                range_mapped(old(self).table(), dst.addr as int, dst.len as int),
                dsts == Seq::new(src@.len(), |k: int| dst.addr + k),
                forall|k: int|
                    0 <= k < i ==> #[trigger] byte_at(self.table(), dst.addr + k)
                        == Option::Some(src@[k]),
                forall|x: int|
                    !(dst.addr <= x < dst.addr + i) ==> #[trigger] byte_at(self.table(), x)
                        == byte_at(old(self).table(), x),
                self.table() == crate::memcpy::scatter_s(
                    old(self).table(),
                    dsts.take(i as int),
                    src@.take(i as int),
                ),
            decreases dst.len - i,
    {
            proof {
                lemma_same_layout_mapped(old(self).table(), self.table());
                assert(mapped(self.table(), dst.addr + i));
                lemma_holder_props(self.table(), dst.addr + i as int);
            }
            let a = dst.addr + i;
            let v = src[i];
            let ghost prev = self.table();
            self.write_byte(a, v);
            proof {
                assert(same_layout(old(self).table(), self.table()));
                assert(dsts.take(i as int + 1).drop_last() =~= dsts.take(i as int));
                assert(src@.take(i as int + 1).drop_last() =~= src@.take(i as int));
                assert(dsts.take(i as int + 1).last() == dst.addr + i);
                assert(src@.take(i as int + 1).last() == src@[i as int]);
                assert(self.table() == crate::memcpy::scatter_s(
                    old(self).table(),
                    dsts.take(i as int + 1),
                    src@.take(i as int + 1),
                ));
            }
            i = i + 1;
        }
        proof {
            assert(dsts.take(dst.len as int) =~= dsts);
            assert(src@.take(dst.len as int) =~= src@);
        }
    }

    /// Device-to-host copy: read a mapped device range back into host memory.
    pub fn memcpy_d2h(&self, dst: &mut Vec<u8>, src: &DevSlice)
        requires
            self.wf(),
            old(dst)@.len() == src.len,
            range_mapped(self.table(), src.addr as int, src.len as int),
        ensures
            final(dst)@.len() == src.len,
            forall|i: int|
                0 <= i < src.len ==> byte_at(self.table(), src.addr + i) == Option::Some(
                    #[trigger] final(dst)@[i],
                ),
    {
        let mut i: usize = 0;
        while i < src.len
            invariant
                i <= src.len,
                dst@.len() == src.len,
                self.wf(),
                range_mapped(self.table(), src.addr as int, src.len as int),
                forall|k: int|
                    0 <= k < i ==> byte_at(self.table(), src.addr + k) == Option::Some(
                        #[trigger] dst@[k],
                    ),
            decreases src.len - i,
        {
            proof {
                assert(mapped(self.table(), src.addr + i));
                lemma_holder_props(self.table(), src.addr + i as int);
            }
            let v = self.read_byte(src.addr + i);
            dst[i] = v;
            i = i + 1;
        }
    }
}

/// Allocation properties of a device: the minimum granularity that virtual
/// reservations, physical blocks and map offsets must honour.
#[derive(Clone, Copy, PartialEq, Eq, Structural, Debug)]
pub struct MemProp {}

impl MemProp {
    /// The smallest legal size and offset unit.
    pub fn granularity_minimum(&self) -> (r: usize)
        ensures
            r == GRANULARITY,
    {
        GRANULARITY
    }

    /// Allocate a zero-filled physical block of `n` bytes. The size must be a
    /// positive multiple of the granularity.
    pub fn create(&self, n: usize) -> (r: Result<PhysMem, Error>)
        ensures
            match r {
                Result::Ok(p) => n > 0 && n % GRANULARITY == 0 && p.contents() =~= Seq::new(
                    n as nat,
                    |i: int| 0u8,
                ),
                Result::Err(e) => e == Error::InvalidAlignment && (n == 0 || n % GRANULARITY != 0),
            },
    {
        if n == 0 || n % GRANULARITY != 0 {
            Result::Err(Error::InvalidAlignment)
        } else {
            Result::Ok(PhysMem { bytes: zero_vec(n) })
        }
    }
}

/// A reserved virtual address range with no backing of its own; physical
/// blocks are bound into it with `map` and taken back with `unmap`.
pub struct VirMem {
    base: usize,
    size: usize,
}

impl VirMem {
    /// First address of the reservation.
    pub closed spec fn start(self) -> int {
        self.base as int
    }

    /// Length of the reservation in bytes.
    pub closed spec fn extent(self) -> int {
        self.size as int
    }

    /// The reservation was carved out of this context's address space.
    pub open spec fn in_ctx(self, c: Ctx) -> bool {
        self.start() + self.extent() <= c.reserved()
    }

    /// Reserve a fresh virtual address range of `size` bytes; the size must
    /// be a positive multiple of the granularity. No byte of it is mapped.
    pub fn new(c: &mut Ctx, size: usize) -> (r: Result<VirMem, Error>)
        requires
            old(c).wf(),
            old(c).reserved() + size <= usize::MAX,
        ensures
            final(c).wf(),
            final(c).table() == old(c).table(),
            match r {
                Result::Ok(v) => size > 0 && size % GRANULARITY == 0 && v.start() == old(
                    c,
                ).reserved() && v.extent() == size && final(c).reserved() == old(c).reserved()
                    + size && v.in_ctx(*final(c)) && range_free(
                    final(c).table(),
                    v.start(),
                    v.extent(),
                ),
                Result::Err(e) => e == Error::InvalidAlignment && (size == 0 || size % GRANULARITY
                    != 0) && *final(c) == *old(c),
            },
    {
        if size == 0 || size % GRANULARITY != 0 {
            return Result::Err(Error::InvalidAlignment);
        }
        let base = c.next_base;
        c.next_base = base + size;
        proof {
            assert(range_free(c.table(), base as int, size as int)) by {
                assert forall|j: int| 0 <= j < c.table().len() implies ((#[trigger] c.table()[j]).base
                    + c.table()[j].bytes.len() <= base as int || base + size
                    <= c.table()[j].base) by {
                    assert(old(c).table()[j] == c.table()[j]);
                }
            }
        }
        Result::Ok(VirMem { base, size })
    }

    /// Bind a physical block at `offset` inside the reservation. The offset
    /// must be a granularity multiple, the block must fit the reservation,
    /// and no byte of the target range may already be mapped.
    pub fn map(&self, c: &mut Ctx, offset: usize, phys: PhysMem) -> (r: Result<DevSlice, Error>)
        requires
            old(c).wf(),
            self.in_ctx(*old(c)),
        ensures
            final(c).wf(),
            final(c).reserved() == old(c).reserved(),
            self.in_ctx(*final(c)),
            match r {
                Result::Ok(sl) => {
                    let t = final(c).table();
                    let plen = phys.contents().len() as int;
                    &&& offset % GRANULARITY == 0
                    &&& offset + plen <= self.extent()
                    &&& range_free(old(c).table(), self.start() + offset, plen)
                    &&& sl.addr == self.start() + offset
                    &&& sl.len == plen
                    &&& t =~= old(c).table().push(
                        Span { base: sl.addr as int, bytes: phys.contents() },
                    )
                    &&& range_mapped(t, sl.addr as int, sl.len as int)
                    &&& forall|i: int|
                        0 <= i < sl.len ==> #[trigger] byte_at(t, sl.addr + i) == Option::Some(
                            phys.contents()[i],
                        )
                    &&& forall|x: int|
                        !(sl.addr <= x < sl.addr + sl.len) ==> #[trigger] byte_at(t, x) == byte_at(
                            old(c).table(),
                            x,
                        )
                },
                Result::Err(e) => {
                    let plen = phys.contents().len() as int;
                    &&& *final(c) == *old(c)
                    &&& if offset % GRANULARITY != 0 || offset > self.extent() || plen
                        > self.extent() - offset {
                        e == Error::InvalidAlignment
                    } else {
                        e == Error::MapConflict && !range_free(
                            old(c).table(),
                            self.start() + offset,
                            plen,
                        )
                    }
                },
            },
    {
        let plen = phys.bytes.len();
        if offset % GRANULARITY != 0 || offset > self.size || plen > self.size - offset {
            return Result::Err(Error::InvalidAlignment);
        }
        let base = self.base + offset;
        let n = c.entries.len();
        let mut j: usize = 0;
        while j < n
            invariant
                j <= n,
                n == c.entries.len(),
                c.wf(),
                *c == *old(c),
                self.in_ctx(*c),
                base == self.start() + offset,
                base + plen <= usize::MAX,
                plen == phys.contents().len(),
                offset % GRANULARITY == 0,
                offset <= self.extent(),
                plen <= self.extent() - offset,
                forall|k: int|
                    0 <= k < j ==> ((#[trigger] c.table()[k]).base + c.table()[k].bytes.len()
                        <= base as int || base + plen <= c.table()[k].base),
            decreases n - j,
        {
            let e_base = c.entries[j].base;
            let e_len = c.entries[j].bytes.len();
            proof {
                assert(c.table()[j as int].base + c.table()[j as int].bytes.len() <= usize::MAX);
            }
            if !(e_base + e_len <= base || base + plen <= e_base) {
                proof {
                    assert(!((c.table()[j as int].base + c.table()[j as int].bytes.len()
                        <= base as int) || (base + plen <= c.table()[j as int].base)));
                }
                return Result::Err(Error::MapConflict);
            }
            j = j + 1;
        }
        let ghost sp = Span { base: base as int, bytes: phys.contents() };
        c.entries.push(MapEntry { base, bytes: phys.bytes });
        proof {
            let t = final(c).table();
            assert(t =~= old(c).table().push(sp));
            assert(wf_entries(t)) by {
                assert forall|i1: int, i2: int|
                    0 <= i1 < t.len() && 0 <= i2 < t.len() && i1 != i2 implies ((
                #[trigger] t[i1]).base + t[i1].bytes.len() <= (#[trigger] t[i2]).base || t[i2].base
                    + t[i2].bytes.len() <= t[i1].base) by {
                    if i1 < t.len() - 1 && i2 < t.len() - 1 {
                        assert(t[i1] == old(c).table()[i1]);
                        assert(t[i2] == old(c).table()[i2]);
                    }
                }
            }
            assert forall|x: int| true implies #[trigger] byte_at(t, x) == if entry_holds(sp, x) {
                Option::Some(sp.bytes[x - sp.base])
            } else {
                byte_at(old(c).table(), x)
            } by {
                lemma_byte_at_push(old(c).table(), sp, x);
            }
            assert forall|i: int| 0 <= i < t.len() implies (#[trigger] t[i]).base
                + t[i].bytes.len() <= final(c).reserved() by {
                if i < t.len() - 1 {
                    assert(t[i] == old(c).table()[i]);
                }
            }
        }
        Result::Ok(DevSlice { addr: base, len: plen })
    }

    /// Unbind the physical block mapped at `offset` and hand it back; its
    /// bytes are the ones last visible through the mapping.
    pub fn unmap(&self, c: &mut Ctx, offset: usize) -> (r: Result<PhysMem, Error>)
        requires
            old(c).wf(),
            self.in_ctx(*old(c)),
            offset <= self.extent(),
        ensures
            final(c).wf(),
            final(c).reserved() == old(c).reserved(),
            self.in_ctx(*final(c)),
            match r {
                Result::Ok(p) => exists|j: int|
                    0 <= j < old(c).table().len() && (#[trigger] old(c).table()[j]).base
                        == self.start() + offset && p.contents() == old(c).table()[j].bytes
                        && final(c).table() =~= old(c).table().remove(j),
                Result::Err(e) => e == Error::NotMapped && *final(c) == *old(c) && forall|j: int|
                    0 <= j < old(c).table().len() ==> (#[trigger] old(c).table()[j]).base
                        != self.start() + offset,
            },
    {
        let base = self.base + offset;
        let n = c.entries.len();
        let mut j: usize = 0;
        while j < n
            invariant
                j <= n,
                n == c.entries.len(),
                c.wf(),
                *c == *old(c),
                self.in_ctx(*c),
                base == self.start() + offset,
                forall|k: int| 0 <= k < j ==> (#[trigger] c.table()[k]).base != base as int,
            decreases n - j,
        {
            if c.entries[j].base == base {
                proof {
                    lemma_wf_remove(c.table(), j as int);
                }
                let ghost pre = c.table();
                let entry = c.entries.remove(j);
                proof {
                    let t = c.table();
                    assert(t =~= pre.remove(j as int));
                    assert((pre[j as int]).base == self.start() + offset);
                    assert(entry@.bytes == pre[j as int].bytes);
                    assert forall|i: int| 0 <= i < t.len() implies (#[trigger] t[i]).base
                        + t[i].bytes.len() <= c.reserved() by {
                        assert(t[i] == pre[if i < j { i } else { i + 1 }]);
                    }
                }
                return Result::Ok(PhysMem { bytes: entry.bytes });
            }
            j = j + 1;
        }
        Result::Err(Error::NotMapped)
    }
}

/// Initialise the driver model. The modelled device is always present, so
/// initialisation always succeeds; it is idempotent.
pub fn init() -> (r: Result<(), Error>)
    ensures
        r is Ok,
{
    Result::Ok(())
}

/// A handle on one device, selected by ordinal.
#[derive(Clone, Copy, PartialEq, Eq, Structural, Debug)]
pub struct Device {
    pub ordinal: usize,
}

impl Device {
    /// Select a device by ordinal.
    pub fn new(ordinal: usize) -> (r: Device)
        ensures
            r.ordinal == ordinal,
    {
        Device { ordinal }
    }

    /// Open a fresh context on this device.
    pub fn context(&self) -> (r: Ctx)
        ensures
            r.wf(),
            r.table() =~= Seq::<Span>::empty(),
            r.reserved() == 0,
    {
        Ctx::new()
    }

    /// The device's allocation properties.
    pub fn mem_prop(&self) -> (r: MemProp) {
        MemProp {  }
    }
}

} // verus!
