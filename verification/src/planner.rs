use vstd::prelude::*;

verus! {

/// Half-open byte range `[base, base + len)` inside the packed device buffer.
#[derive(Clone, Copy, PartialEq, Eq, Structural, Debug)]
pub struct ByteRange {
    pub base: usize,
    pub len: usize,
}

impl ByteRange {
    /// One past the last byte of the range.
    pub open spec fn end(self) -> int {
        self.base + self.len
    }

    /// The two ranges share no byte.
    pub open spec fn disjoint(self, other: ByteRange) -> bool {
        self.end() <= other.base || other.end() <= self.base
    }
}

/// `cursor` rounded up to the next multiple of `align`.
pub open spec fn round_up(cursor: int, align: int) -> int
    recommends
        align >= 1,
        cursor >= 0,
{
    if cursor % align == 0 {
        cursor
    } else {
        cursor - cursor % align + align
    }
}

/// Monotonic bump allocator that assigns aligned, pairwise disjoint byte
/// ranges inside one packed buffer: one `push` per distinct storage object.
pub struct MemCalculator {
    align: usize,
    cursor: usize,
    history: Ghost<Seq<ByteRange>>,
}

impl MemCalculator {
    /// The alignment every assigned base honours.
    pub closed spec fn alignment(self) -> int {
        self.align as int
    }

    /// Total packed length so far.
    pub closed spec fn used(self) -> int {
        self.cursor as int
    }

    /// Every range assigned so far, in call order.
    pub closed spec fn assigned(self) -> Seq<ByteRange> {
        self.history@
    }

    /// Well-formedness: bases are aligned, ranges are assigned left to right
    /// without overlap, and the cursor covers them all.
    pub closed spec fn wf(self) -> bool {
        &&& self.align >= 1
        &&& forall|i: int|
            0 <= i < self.history@.len() ==> (#[trigger] self.history@[i]).base as int
                % self.align as int == 0
        &&& forall|i: int, j: int|
            0 <= i < j < self.history@.len() ==> (#[trigger] self.history@[i]).end()
                <= (#[trigger] self.history@[j]).base
        &&& forall|i: int|
            0 <= i < self.history@.len() ==> (#[trigger] self.history@[i]).end()
                <= self.cursor
    }

    /// A fresh planner for the given alignment.
    pub fn new(align: usize) -> (r: MemCalculator)
        requires
            align >= 1,
        ensures
            r.wf(),
            r.alignment() == align,
            r.used() == 0,
            r.assigned() =~= Seq::<ByteRange>::empty(),
    {
        MemCalculator { align, cursor: 0, history: Ghost(Seq::empty()) }
    }

    /// Assign the next range: the base is the cursor rounded up to the
    /// alignment, and the cursor moves past the new range.
    pub fn push(&mut self, len: usize) -> (r: ByteRange)
        requires
            old(self).wf(),
            round_up(old(self).used(), old(self).alignment()) + len <= usize::MAX,
        ensures
            final(self).wf(),
            r.base == round_up(old(self).used(), old(self).alignment()),
            r.len == len,
            final(self).assigned() =~= old(self).assigned().push(r),
            final(self).used() == r.base + len,
            final(self).alignment() == old(self).alignment(),
    {
        let rem: usize = self.cursor % self.align;
        proof {
            assert(rem <= self.cursor && rem < self.align) by (nonlinear_arith)
                requires
                    self.align >= 1,
                    rem == self.cursor as int % self.align as int,
            ;
        }
        let base: usize = if rem == 0 {
            self.cursor
        } else {
            self.cursor - rem + self.align
        };
        proof {
            assert(base as int == round_up(self.cursor as int, self.align as int));
            assert((base as int) % (self.align as int) == 0) by {
                lemma_round_up_aligned(self.cursor as int, self.align as int);
            }
        }
        let r = ByteRange { base, len };
        self.cursor = base + len;
        proof {
            self.history@ = self.history@.push(r);
        }
        r
    }

    /// Total packed length: the cursor rounded up to the alignment, so the
    /// packed buffer itself ends on an alignment boundary. Every assigned
    /// range lies below it.
    pub fn size(&self) -> (r: usize)
        requires
            self.wf(),
            round_up(self.used(), self.alignment()) <= usize::MAX,
        ensures
            r == round_up(self.used(), self.alignment()),
            r >= self.used(),
    {
        let rem: usize = self.cursor % self.align;
        proof {
            assert(rem <= self.cursor && rem < self.align) by (nonlinear_arith)
                requires
                    self.align >= 1,
                    rem == self.cursor as int % self.align as int,
            ;
        }
        if rem == 0 {
            self.cursor
        } else {
            self.cursor - rem + self.align
        }
    }
}

/// Rounding up lands on a multiple of the alignment, at or past the cursor.
pub proof fn lemma_round_up_aligned(cursor: int, align: int)
    requires
        align >= 1,
        cursor >= 0,
    ensures
        round_up(cursor, align) % align == 0,
        cursor <= round_up(cursor, align) < cursor + align,
{
    assert(round_up(cursor, align) % align == 0 && cursor <= round_up(cursor, align)
        < cursor + align) by (nonlinear_arith)
        requires
            align >= 1,
            cursor >= 0,
    ;
}

/// Law: for any sequence of pushes, the assigned ranges are pairwise
/// disjoint, every base is a multiple of the alignment, and the total size
/// covers every range.
pub proof fn lemma_planner_disjointness(c: MemCalculator)
    requires
        c.wf(),
    ensures
        forall|i: int, j: int|
            0 <= i < c.assigned().len() && 0 <= j < c.assigned().len() && i != j
                ==> (#[trigger] c.assigned()[i]).disjoint(#[trigger] c.assigned()[j]),
        forall|i: int|
            0 <= i < c.assigned().len() ==> (#[trigger] c.assigned()[i]).base as int
                % c.alignment() == 0,
        forall|i: int|
            0 <= i < c.assigned().len() ==> (#[trigger] c.assigned()[i]).end() <= c.used(),
        c.used() <= round_up(c.used(), c.alignment()),
{
    lemma_round_up_aligned(c.used(), c.alignment());
}

/// Law: bases are non-decreasing in call order.
pub proof fn lemma_planner_monotonicity(c: MemCalculator)
    requires
        c.wf(),
    ensures
        forall|i: int, j: int|
            0 <= i <= j < c.assigned().len() ==> (#[trigger] c.assigned()[i]).base
                <= (#[trigger] c.assigned()[j]).base,
{
}

} // verus!
