use vstd::prelude::*;

use crate::devmem::{
    byte_at, lemma_same_layout_mapped, lemma_write_range, mapped, range_mapped, same_layout,
    wf_entries, write_range_s, Ctx, DevSlice, Span,
};
use crate::error::Error;
use crate::graph::Stream;
use crate::planner::{round_up, ByteRange, MemCalculator};

verus! {

/// One planned transfer: a destination address and the bytes bound for it.
#[verifier::ext_equal]
pub ghost struct LoadSpec {
    pub addr: int,
    pub bytes: Seq<u8>,
}

/// The table after performing the transfers in order.
pub open spec fn load_all(s: Seq<Span>, loads: Seq<LoadSpec>) -> Seq<Span>
    decreases loads.len(),
{
    if loads.len() == 0 {
        s
    } else {
        write_range_s(load_all(s, loads.drop_last()), loads.last().addr, loads.last().bytes)
    }
}

/// Every transfer lands in a mapped range, and no two ranges share a byte.
pub open spec fn loads_ok(s: Seq<Span>, loads: Seq<LoadSpec>) -> bool {
    &&& forall|j: int|
        0 <= j < loads.len() ==> range_mapped(
            s,
            (#[trigger] loads[j]).addr,
            loads[j].bytes.len() as int,
        )
    &&& forall|j1: int, j2: int|
        0 <= j1 < loads.len() && 0 <= j2 < loads.len() && j1 != j2 ==> ((#[trigger] loads[j1]).addr
            + loads[j1].bytes.len() <= (#[trigger] loads[j2]).addr || loads[j2].addr
            + loads[j2].bytes.len() <= loads[j1].addr)
}

/// Law: after loading every weight into its planned range, the device buffer
/// holds, at each range, exactly that weight's bytes — the packed buffer is
/// the concatenation of the sources at their planned offsets.
pub proof fn lemma_weight_load_idempotence(s: Seq<Span>, loads: Seq<LoadSpec>)
    requires
        wf_entries(s),
        loads_ok(s, loads),
    ensures
        wf_entries(load_all(s, loads)),
        same_layout(s, load_all(s, loads)),
        forall|j: int, i: int|
            0 <= j < loads.len() && 0 <= i < loads[j].bytes.len() ==> byte_at(
                load_all(s, loads),
                loads[j].addr + i,
            ) == Option::Some(#[trigger] loads[j].bytes[i]),
    decreases loads.len(),
{
    if loads.len() > 0 {
        let short = loads.drop_last();
        assert(loads_ok(s, short)) by {
            assert(forall|j: int|
                0 <= j < short.len() ==> #[trigger] short[j] == loads[j]);
        }
        lemma_weight_load_idempotence(s, short);
        let prev = load_all(s, short);
        let last = loads.last();
        lemma_same_layout_mapped(s, prev);
        assert(range_mapped(prev, last.addr, last.bytes.len() as int)) by {
            assert(loads[loads.len() - 1] == last);
            assert forall|i: int| 0 <= i < last.bytes.len() implies #[trigger] mapped(
                prev,
                last.addr + i,
            ) by {
                assert(mapped(s, last.addr + i));
            }
        }
        lemma_write_range(prev, last.addr, last.bytes);
        let t = load_all(s, loads);
        assert forall|j: int, i: int|
            0 <= j < loads.len() && 0 <= i < loads[j].bytes.len() implies byte_at(
            t,
            loads[j].addr + i,
        ) == Option::Some(#[trigger] loads[j].bytes[i]) by {
            if j == loads.len() - 1 {
                assert(loads[j] == last);
            } else {
                assert(short[j] == loads[j]);
                assert(byte_at(prev, loads[j].addr + i) == Option::Some(loads[j].bytes[i]));
                assert(!(last.addr <= loads[j].addr + i < last.addr + last.bytes.len()));
            }
        }
    }
}

/// One pinned staging buffer: its capacity and whether the copy that last
/// went through it is still in flight on the stream.
struct StagingBuf {
    capacity: usize,
    busy: bool,
}

/// Streams many host tensors into disjoint ranges of one packed device
/// buffer through a pool of pinned staging buffers, overlapping transfers
/// with the caller's other work.
pub struct WeightLoader {
    pool: Vec<StagingBuf>,
}

impl WeightLoader {
    /// The capacities of the pool's buffers.
    pub closed spec fn capacities(self) -> Seq<int> {
        Seq::new(self.pool@.len(), |i: int| self.pool@[i].capacity as int)
    }

    /// Build the pool: one pinned buffer per requested size. The caller
    /// passes the sizes of the tensors that are rare enough to stage.
    pub fn new(sizes: &Vec<usize>) -> (r: WeightLoader)
        ensures
            r.capacities() =~= Seq::new(sizes@.len(), |i: int| sizes@[i] as int),
    {
        let mut pool: Vec<StagingBuf> = Vec::new();
        let n = sizes.len();
        let mut i: usize = 0;
        while i < n
            invariant
                i <= n,
                n == sizes@.len(),
                pool@.len() == i,
                forall|k: int| 0 <= k < i ==> (#[trigger] pool@[k]).capacity == sizes@[k],
            decreases n - i,
        {
            pool.push(StagingBuf { capacity: sizes[i], busy: false });
            i = i + 1;
        }
        WeightLoader { pool }
    }

    /// Index of the smallest free buffer with at least `len` capacity.
    fn pick_free(&self, len: usize) -> (r: Option<usize>)
        ensures
            match r {
                Option::Some(j) => j < self.capacities().len(),
                Option::None => true,
            },
    {
        let n = self.pool.len();
        let mut best: Option<usize> = Option::None;
        let mut i: usize = 0;
        while i < n
            invariant
                i <= n,
                n == self.pool@.len(),
                match best {
                    Option::Some(j) => j < n,
                    Option::None => true,
                },
            decreases n - i,
        {
            if !self.pool[i].busy && self.pool[i].capacity >= len {
                best = match best {
                    Option::Some(j) => if self.pool[j].capacity <= self.pool[i].capacity {
                        Option::Some(j)
                    } else {
                        Option::Some(i)
                    },
                    Option::None => Option::Some(i),
                };
            }
            i = i + 1;
        }
        best
    }

    /// Stage the host bytes and copy them into the mapped device range on
    /// the stream. The smallest free buffer of sufficient capacity stages
    /// the transfer; when none is free the call blocks on the stream until
    /// one is, and a tensor too large for every buffer gets a dedicated
    /// transfer. However staged, the copy lands exactly the source bytes in
    /// the destination range and touches no other byte.
    pub fn load(&mut self, c: &mut Ctx, dst: &DevSlice, src: &Vec<u8>, stream: &Stream)
        requires
            old(c).wf(),
            src@.len() == dst.len,
            range_mapped(old(c).table(), dst.addr as int, dst.len as int),
        ensures
            final(c).wf(),
            final(c).reserved() == old(c).reserved(),
            same_layout(old(c).table(), final(c).table()),
            final(c).table() == write_range_s(old(c).table(), dst.addr as int, src@),
            forall|i: int|
                0 <= i < dst.len ==> #[trigger] byte_at(final(c).table(), dst.addr + i)
                    == Option::Some(src@[i]),
            forall|x: int|
                !(dst.addr <= x < dst.addr + dst.len) ==> #[trigger] byte_at(
                    final(c).table(),
                    x,
                ) == byte_at(old(c).table(), x),
            final(self).capacities() == old(self).capacities(),
    {
        let ghost caps = self.capacities();
        match self.pick_free(src.len()) {
            Option::Some(j) => {
                let cap = self.pool[j].capacity;
                self.pool[j] = StagingBuf { capacity: cap, busy: true };
            },
            Option::None => {
                stream.synchronize();
                let n = self.pool.len();
                let mut i: usize = 0;
                while i < n
                    invariant
                        i <= n,
                        n == self.pool@.len(),
                        self.capacities() =~= caps,
                    decreases n - i,
                {
                    let cap = self.pool[i].capacity;
                    self.pool[i] = StagingBuf { capacity: cap, busy: false };
                    proof {
                        assert(self.capacities() =~= caps);
                    }
                    i = i + 1;
                }
                match self.pick_free(src.len()) {
                    Option::Some(j) => {
                        let cap = self.pool[j].capacity;
                        self.pool[j] = StagingBuf { capacity: cap, busy: true };
                    },
                    Option::None => {
                    },
                }
            },
        }
        c.memcpy_h2d(dst, src);
        proof {
            assert(final(self).capacities() =~= caps);
        }
    }
}

/// First entry of the table with the given source pointer.
pub open spec fn find_ptr(es: Seq<(usize, ByteRange)>, p: usize) -> Option<ByteRange>
    decreases es.len(),
{
    if es.len() == 0 {
        Option::None
    } else if es[0].0 == p {
        Option::Some(es[0].1)
    } else {
        find_ptr(es.drop_first(), p)
    }
}

/// A scan computes `find_ptr`.
proof fn lemma_find_ptr_at(es: Seq<(usize, ByteRange)>, p: usize, j: int)
    requires
        0 <= j < es.len(),
        forall|k: int| 0 <= k < j ==> (#[trigger] es[k]).0 != p,
        es[j].0 == p,
    ensures
        find_ptr(es, p) == Option::Some(es[j].1),
    decreases es.len(),
{
    if j > 0 {
        assert forall|k: int| 0 <= k < j - 1 implies (#[trigger] es.drop_first()[k]).0 != p by {
            assert(es.drop_first()[k] == es[k + 1]);
        }
        lemma_find_ptr_at(es.drop_first(), p, j - 1);
    }
}

/// An absent pointer occurs in no entry.
proof fn lemma_find_ptr_absent(es: Seq<(usize, ByteRange)>, p: usize)
    requires
        find_ptr(es, p) is None,
    ensures
        forall|k: int| 0 <= k < es.len() ==> (#[trigger] es[k]).0 != p,
    decreases es.len(),
{
    if es.len() > 0 {
        lemma_find_ptr_absent(es.drop_first(), p);
        assert forall|k: int| 0 <= k < es.len() implies (#[trigger] es[k]).0 != p by {
            if k > 0 {
                assert(es.drop_first()[k - 1] == es[k]);
            }
        }
    }
}

/// A scan that saw no entry computes `find_ptr`.
proof fn lemma_find_ptr_none(es: Seq<(usize, ByteRange)>, p: usize)
    requires
        forall|k: int| 0 <= k < es.len() ==> (#[trigger] es[k]).0 != p,
    ensures
        find_ptr(es, p) is None,
    decreases es.len(),
{
    if es.len() > 0 {
        assert forall|k: int| 0 <= k < es.drop_first().len() implies (
        #[trigger] es.drop_first()[k]).0 != p by {
            assert(es.drop_first()[k] == es[k + 1]);
        }
        lemma_find_ptr_none(es.drop_first(), p);
    }
}

/// First index of the histogram holding the given length.
pub open spec fn find_len(h: Seq<(usize, usize)>, len: usize) -> Option<int>
    decreases h.len(),
{
    if h.len() == 0 {
        Option::None
    } else if h[0].0 == len {
        Option::Some(0)
    } else {
        match find_len(h.drop_first(), len) {
            Option::Some(j) => Option::Some(j + 1),
            Option::None => Option::None,
        }
    }
}

/// The histogram after counting one more tensor of the given length.
pub open spec fn hist_bump(h: Seq<(usize, usize)>, len: usize) -> Seq<(usize, usize)> {
    match find_len(h, len) {
        Option::Some(j) => h.update(j, (len, (h[j].1 + 1) as usize)),
        Option::None => h.push((len, 1)),
    }
}

/// A scan computes `find_len`.
proof fn lemma_find_len_at(h: Seq<(usize, usize)>, len: usize, j: int)
    requires
        0 <= j < h.len(),
        forall|k: int| 0 <= k < j ==> (#[trigger] h[k]).0 != len,
        h[j].0 == len,
    ensures
        find_len(h, len) == Option::Some(j),
    decreases h.len(),
{
    if j > 0 {
        assert forall|k: int| 0 <= k < j - 1 implies (#[trigger] h.drop_first()[k]).0 != len by {
            assert(h.drop_first()[k] == h[k + 1]);
        }
        lemma_find_len_at(h.drop_first(), len, j - 1);
    }
}

/// A scan that saw no entry computes `find_len`.
proof fn lemma_find_len_none(h: Seq<(usize, usize)>, len: usize)
    requires
        forall|k: int| 0 <= k < h.len() ==> (#[trigger] h[k]).0 != len,
    ensures
        find_len(h, len) is None,
    decreases h.len(),
{
    if h.len() > 0 {
        assert forall|k: int| 0 <= k < h.drop_first().len() implies (
        #[trigger] h.drop_first()[k]).0 != len by {
            assert(h.drop_first()[k] == h[k + 1]);
        }
        lemma_find_len_none(h.drop_first(), len);
    }
}

/// The lengths whose tensors are rare: fewer than `nblk` of them.
pub open spec fn sizes_under(h: Seq<(usize, usize)>, nblk: usize) -> Seq<usize>
    decreases h.len(),
{
    if h.len() == 0 {
        Seq::empty()
    } else {
        sizes_under(h.drop_last(), nblk) + (if h.last().1 < nblk {
            seq![h.last().0]
        } else {
            Seq::empty()
        })
    }
}

/// Caller-side deduplication in front of the planner: each distinct source
/// pointer gets one planned range, a repeated pointer reuses it, and a
/// repeated pointer with a different length is an aliasing error. A length
/// histogram of the distinct tensors sizes the staging pool.
pub struct WeightTable {
    calc: MemCalculator,
    entries: Vec<(usize, ByteRange)>,
    hist: Vec<(usize, usize)>,
}

impl WeightTable {
    /// The registered pointers with their assigned ranges, in order.
    pub closed spec fn ptr_map(self) -> Seq<(usize, ByteRange)> {
        self.entries@
    }

    /// The length histogram of the distinct registered tensors.
    pub closed spec fn hist(self) -> Seq<(usize, usize)> {
        self.hist@
    }

    /// The planner behind the table.
    pub closed spec fn planner(self) -> MemCalculator {
        self.calc
    }

    /// Well-formedness: the planner is sound, pointers are unique, every
    /// assigned range is one of the planner's, and histogram counts stay
    /// below the number of entries.
    pub open spec fn wf(self) -> bool {
        &&& self.planner().wf()
        &&& forall|i: int, j: int|
            0 <= i < self.ptr_map().len() && 0 <= j < self.ptr_map().len() && i != j ==> (
            #[trigger] self.ptr_map()[i]).0 != (#[trigger] self.ptr_map()[j]).0
        &&& forall|i: int|
            0 <= i < self.ptr_map().len() ==> exists|k: int|
                0 <= k < self.planner().assigned().len() && (#[trigger] self.ptr_map()[i]).1
                    == self.planner().assigned()[k]
        &&& forall|i: int|
            0 <= i < self.hist().len() ==> (#[trigger] self.hist()[i]).1 <= self.ptr_map().len()
    }

    /// A fresh table over a planner with the given alignment.
    pub fn new(align: usize) -> (r: WeightTable)
        requires
            align >= 1,
        ensures
            r.wf(),
            r.ptr_map() =~= Seq::<(usize, ByteRange)>::empty(),
            r.hist() =~= Seq::<(usize, usize)>::empty(),
            r.planner().alignment() == align,
            r.planner().used() == 0,
    {
        WeightTable { calc: MemCalculator::new(align), entries: Vec::new(), hist: Vec::new() }
    }

    /// Total packed length planned so far, rounded up to the alignment.
    pub fn size(&self) -> (r: usize)
        requires
            self.wf(),
            round_up(self.planner().used(), self.planner().alignment()) <= usize::MAX,
        ensures
            r == round_up(self.planner().used(), self.planner().alignment()),
            r >= self.planner().used(),
    {
        self.calc.size()
    }

    /// The range already assigned to this source pointer, if any.
    fn ptr_lookup(&self, ptr: usize) -> (r: Option<ByteRange>)
        ensures
            r == find_ptr(self.ptr_map(), ptr),
    {
        let n = self.entries.len();
        let mut j: usize = 0;
        while j < n
            invariant
                j <= n,
                n == self.entries@.len(),
                forall|k: int| 0 <= k < j ==> (#[trigger] self.entries@[k]).0 != ptr,
            decreases n - j,
        {
            let (p, rg) = self.entries[j];
            if p == ptr {
                proof {
                    lemma_find_ptr_at(self.entries@, ptr, j as int);
                }
                return Option::Some(rg);
            }
            j = j + 1;
        }
        proof {
            lemma_find_ptr_none(self.entries@, ptr);
        }
        Option::None
    }

    /// Index of the histogram entry for this length, if any.
    fn hist_idx(&self, len: usize) -> (r: Option<usize>)
        ensures
            match r {
                Option::Some(j) => j < self.hist().len() && find_len(self.hist(), len)
                    == Option::Some(j as int) && self.hist()[j as int].0 == len,
                Option::None => find_len(self.hist(), len) is None,
            },
    {
        let m = self.hist.len();
        let mut j: usize = 0;
        while j < m
            invariant
                j <= m,
                m == self.hist@.len(),
                forall|k: int| 0 <= k < j ==> (#[trigger] self.hist@[k]).0 != len,
            decreases m - j,
        {
            if self.hist[j].0 == len {
                proof {
                    lemma_find_len_at(self.hist@, len, j as int);
                }
                return Option::Some(j);
            }
            j = j + 1;
        }
        proof {
            lemma_find_len_none(self.hist@, len);
        }
        Option::None
    }

    /// Register one weight tensor by its source pointer and byte length.
    /// A new pointer is assigned the next planned range; the same pointer
    /// with the same length reuses its range; the same pointer with another
    /// length is aliasing and is refused.
    pub fn register(&mut self, ptr: usize, len: usize) -> (r: Result<ByteRange, Error>)
        requires
            old(self).wf(),
            round_up(old(self).planner().used(), old(self).planner().alignment()) + len
                <= usize::MAX,
        ensures
            final(self).wf(),
            final(self).planner().alignment() == old(self).planner().alignment(),
            match r {
                Result::Ok(rg) => {
                    if find_ptr(old(self).ptr_map(), ptr) is Some {
                        &&& find_ptr(old(self).ptr_map(), ptr) == Option::Some(rg)
                        &&& rg.len == len
                        &&& *final(self) == *old(self)
                    } else {
                        &&& rg.base == round_up(
                            old(self).planner().used(),
                            old(self).planner().alignment(),
                        )
                        &&& rg.len == len
                        &&& final(self).ptr_map() =~= old(self).ptr_map().push((ptr, rg))
                        &&& final(self).hist() =~= hist_bump(old(self).hist(), len)
                        &&& final(self).planner().assigned() =~= old(
                            self,
                        ).planner().assigned().push(rg)
                        &&& final(self).planner().used() == rg.base + rg.len
                    }
                },
                Result::Err(e) => {
                    &&& e == Error::PlannerAliasLenMismatch
                    &&& match find_ptr(old(self).ptr_map(), ptr) {
                        Option::Some(rg) => rg.len != len,
                        Option::None => false,
                    }
                    &&& *final(self) == *old(self)
                },
            },
    {
        match self.ptr_lookup(ptr) {
            Option::Some(rg) => {
                if rg.len == len {
                    return Result::Ok(rg);
                } else {
                    return Result::Err(Error::PlannerAliasLenMismatch);
                }
            },
            Option::None => {},
        }
        proof {
            lemma_find_ptr_absent(self.entries@, ptr);
        }
        let rg = self.calc.push(len);
        let hidx = self.hist_idx(len);
        self.entries.push((ptr, rg));
        let new_count = self.entries.len();
        match hidx {
            Option::Some(j) => {
                let (l, cnt) = self.hist[j];
                self.hist[j] = (l, cnt + 1);
                proof {
                    assert(self.hist@ =~= hist_bump(old(self).hist(), len));
                }
            },
            Option::None => {
                self.hist.push((len, 1));
                proof {
                    assert(self.hist@ =~= hist_bump(old(self).hist(), len));
                }
            },
        }
        proof {
            let es = self.entries@;
            let n = es.len() as int;
            assert forall|i: int, j: int|
                0 <= i < n && 0 <= j < n && i != j implies (#[trigger] es[i]).0 != (
            #[trigger] es[j]).0 by {
                if i < n - 1 && j < n - 1 {
                    assert(es[i] == old(self).ptr_map()[i]);
                    assert(es[j] == old(self).ptr_map()[j]);
                }
            }
            assert forall|i: int| 0 <= i < n implies exists|k: int|
                0 <= k < self.planner().assigned().len() && (#[trigger] es[i]).1
                    == self.planner().assigned()[k] by {
                if i < n - 1 {
                    assert(es[i] == old(self).ptr_map()[i]);
                    let k = choose|k: int|
                        0 <= k < old(self).planner().assigned().len() && old(self).ptr_map()[i].1
                            == old(self).planner().assigned()[k];
                    assert(self.planner().assigned()[k] == old(self).planner().assigned()[k]);
                } else {
                    assert(self.planner().assigned().last() == rg);
                }
            }
            assert forall|i: int| 0 <= i < self.hist@.len() implies (#[trigger] self.hist@[i]).1
                <= es.len() by {
                match find_len(old(self).hist(), len) {
                    Option::Some(j) => {
                        if i != j {
                            assert(self.hist@[i] == old(self).hist()[i]);
                        } else {
                            assert(old(self).hist()[j].1 <= old(self).ptr_map().len());
                        }
                    },
                    Option::None => {
                        if i < self.hist@.len() - 1 {
                            assert(self.hist@[i] == old(self).hist()[i]);
                        }
                    },
                }
            }
        }
        Result::Ok(rg)
    }

    /// The distinct tensor lengths that occur fewer than `nblk` times    /// The distinct tensor lengths that occur fewer than `nblk` times, in
    /// first-seen order: the sizes worth a staging buffer of their own.
    pub fn staging_sizes(&self, nblk: usize) -> (r: Vec<usize>)
        ensures
            r@ =~= sizes_under(self.hist(), nblk),
    {
        let mut out: Vec<usize> = Vec::new();
        let m = self.hist.len();
        let mut j: usize = 0;
        while j < m
            invariant
                j <= m,
                m == self.hist@.len(),
                out@ =~= sizes_under(self.hist@.take(j as int), nblk),
            decreases m - j,
        {
            let (l, cnt) = self.hist[j];
            let ghost pre = self.hist@.take(j as int);
            if cnt < nblk {
                out.push(l);
            }
            proof {
                assert(self.hist@.take(j as int + 1).drop_last() =~= pre);
                assert(self.hist@.take(j as int + 1).last() == self.hist@[j as int]);
            }
            j = j + 1;
        }
        proof {
            assert(self.hist@.take(m as int) =~= self.hist@);
        }
        out
    }
}

} // verus!
