use vstd::prelude::*;
use crate::raster::Pixel;

verus! {

/// What a server sends a client in one step.
pub struct CompressionStep<T> {
    pub data: T,
}

/// `a + b`, or `usize::MAX` where that is more.
pub open spec fn add_capped(a: int, b: int) -> int {
    if a + b <= usize::MAX { a + b } else { usize::MAX as int }
}

/// The sum of a sequence of numbers.
pub open spec fn sum_of(s: Seq<int>) -> int
    decreases s.len(),
{
    if s.len() == 0 {
        0
    } else {
        sum_of(s.drop_last()) + s.last()
    }
}

/// How many bytes a value owns on the heap.
pub trait HeapSize {
    /// `bytes` is a count that `heap_size_in_bytes` may report for `self`.
    spec fn reports_heap_size(&self, bytes: int) -> bool;

    fn heap_size_in_bytes(&self) -> (r: usize)
        ensures
            self.reports_heap_size(r as int),
    ;
}

impl HeapSize for i32 {
    open spec fn reports_heap_size(&self, bytes: int) -> bool {
        bytes == 0
    }

    fn heap_size_in_bytes(&self) -> (r: usize) {
        0
    }
}

impl HeapSize for u32 {
    open spec fn reports_heap_size(&self, bytes: int) -> bool {
        bytes == 0
    }

    fn heap_size_in_bytes(&self) -> (r: usize) {
        0
    }
}

impl HeapSize for u8 {
    open spec fn reports_heap_size(&self, bytes: int) -> bool {
        bytes == 0
    }

    fn heap_size_in_bytes(&self) -> (r: usize) {
        0
    }
}

impl HeapSize for usize {
    open spec fn reports_heap_size(&self, bytes: int) -> bool {
        bytes == 0
    }

    fn heap_size_in_bytes(&self) -> (r: usize) {
        0
    }
}

impl HeapSize for Pixel {
    open spec fn reports_heap_size(&self, bytes: int) -> bool {
        bytes == 0
    }

    fn heap_size_in_bytes(&self) -> (r: usize) {
        0
    }
}

impl<A: HeapSize, B: HeapSize> HeapSize for (A, B) {
    open spec fn reports_heap_size(&self, bytes: int) -> bool {
        exists|ra: int, rb: int|
            #![trigger self.0.reports_heap_size(ra), self.1.reports_heap_size(rb)]
            0 <= ra <= usize::MAX && 0 <= rb <= usize::MAX && self.0.reports_heap_size(ra)
                && self.1.reports_heap_size(rb) && bytes == add_capped(ra, rb)
    }

    fn heap_size_in_bytes(&self) -> (r: usize) {
        let ra = self.0.heap_size_in_bytes();
        let rb = self.1.heap_size_in_bytes();
        let r = ra.saturating_add(rb);
        assert(self.0.reports_heap_size(ra as int) && self.1.reports_heap_size(rb as int));
        r
    }
}

impl<A: HeapSize, B: HeapSize, C: HeapSize> HeapSize for (A, B, C) {
    open spec fn reports_heap_size(&self, bytes: int) -> bool {
        exists|ra: int, rb: int, rc: int|
            #![trigger self.0.reports_heap_size(ra), self.1.reports_heap_size(rb), self.2.reports_heap_size(rc)]
            0 <= ra <= usize::MAX && 0 <= rb <= usize::MAX && 0 <= rc <= usize::MAX
                && self.0.reports_heap_size(ra) && self.1.reports_heap_size(rb)
                && self.2.reports_heap_size(rc) && bytes == add_capped(ra + rb, rc)
    }

    fn heap_size_in_bytes(&self) -> (r: usize) {
        let ra = self.0.heap_size_in_bytes();
        let rb = self.1.heap_size_in_bytes();
        let rc = self.2.heap_size_in_bytes();
        let r = ra.saturating_add(rb).saturating_add(rc);
        assert(self.0.reports_heap_size(ra as int) && self.1.reports_heap_size(rb as int)
            && self.2.reports_heap_size(rc as int));
        r
    }
}

/// `x` reports a single count: `heap_size_in_bytes` gives the same on every call.
pub open spec fn reports_one_size<T: HeapSize>(x: T) -> bool {
    forall|p: int, q: int|
        #![trigger x.reports_heap_size(p), x.reports_heap_size(q)]
        x.reports_heap_size(p) && x.reports_heap_size(q) ==> p == q
}

/// The heap size of a triple is the sum of its parts' heap sizes, where each part
/// reports a single count and the sum fits in a `usize`.
pub proof fn lemma_triple_heap_size_adds<A: HeapSize, B: HeapSize, C: HeapSize>(
    t: (A, B, C),
    ra: int,
    rb: int,
    rc: int,
    r: int,
)
    requires
        reports_one_size(t.0),
        reports_one_size(t.1),
        reports_one_size(t.2),
        t.0.reports_heap_size(ra),
        t.1.reports_heap_size(rb),
        t.2.reports_heap_size(rc),
        0 <= ra,
        0 <= rb,
        0 <= rc,
        ra + rb + rc <= usize::MAX,
        t.reports_heap_size(r),
    ensures
        r == ra + rb + rc,
{
    let (xa, xb, xc) = choose|xa: int, xb: int, xc: int|
        #![trigger t.0.reports_heap_size(xa), t.1.reports_heap_size(xb), t.2.reports_heap_size(xc)]
        0 <= xa <= usize::MAX && 0 <= xb <= usize::MAX && 0 <= xc <= usize::MAX
            && t.0.reports_heap_size(xa) && t.1.reports_heap_size(xb)
            && t.2.reports_heap_size(xc) && r == add_capped(xa + xb, xc);
    assert(xa == ra);
    assert(xb == rb);
    assert(xc == rc);
}

/// `Vec::capacity`: how many items `v` can hold without reallocating. Claimed: at least
/// its length, and no more than `isize::MAX` bytes' worth of items (std refuses larger
/// allocations).
#[verifier::external_body]
fn vec_capacity<T>(v: &Vec<T>) -> (r: usize)
    ensures
        r >= v.len(),
        r * vstd::layout::size_of::<T>() <= isize::MAX,
{
    v.capacity()
}

/// The count `bytes` that a vector `v` reports when its capacity is `cap` and its items
/// report `sizes`: the buffer (`cap` items of `size_of::<T>()` bytes) plus the items'
/// counts, capped at `usize::MAX`.
pub open spec fn vec_reports_heap_size_with<T: HeapSize>(v: Vec<T>, cap: int, sizes: Seq<int>, bytes: int) -> bool {
    &&& cap >= v.len()
    &&& cap * vstd::layout::size_of::<T>() <= isize::MAX
    &&& sizes.len() == v.len()
    &&& forall|j: int| 0 <= j < sizes.len() ==> 0 <= #[trigger] sizes[j] && v@[j].reports_heap_size(sizes[j])
    &&& bytes == add_capped(cap * vstd::layout::size_of::<T>(), sum_of(sizes))
}

impl<T: HeapSize> HeapSize for Vec<T> {
    /// The buffer (`capacity` items of `size_of::<T>()` bytes) plus what the items
    /// report, capped at `usize::MAX`.
    open spec fn reports_heap_size(&self, bytes: int) -> bool {
        exists|cap: int, sizes: Seq<int>|
            #![trigger vec_reports_heap_size_with(*self, cap, sizes, bytes)]
            vec_reports_heap_size_with(*self, cap, sizes, bytes)
    }

    fn heap_size_in_bytes(&self) -> (r: usize) {
        let cap = vec_capacity(self);
        vec_heap_size_with_capacity(self, cap)
    }
}

/// The heap bytes of a vector whose capacity is `cap`: the buffer (`cap` items of
/// `size_of::<T>()` bytes) plus what its items report, capped at `usize::MAX`.
pub fn vec_heap_size_with_capacity<T: HeapSize>(v: &Vec<T>, cap: usize) -> (r: usize)
    requires
        cap >= v.len(),
        cap * vstd::layout::size_of::<T>() <= isize::MAX,
    ensures
        exists|sizes: Seq<int>| vec_reports_heap_size_with(*v, cap as int, sizes, r as int),
{
    let item_size = core::mem::size_of::<T>();
    let buffer: usize = cap * item_size;
    let ghost mut sizes: Seq<int> = seq![];
    let mut items: usize = 0;
    let mut i: usize = 0;
    while i < v.len()
        invariant
            i <= v.len(),
            sizes.len() == i,
            forall|j: int| 0 <= j < i ==> 0 <= #[trigger] sizes[j] <= usize::MAX && v@[j].reports_heap_size(sizes[j]),
            items as int == if sum_of(sizes) <= usize::MAX { sum_of(sizes) } else { usize::MAX as int },
            0 <= sum_of(sizes),
        decreases v.len() - i,
    {
        let s = v[i].heap_size_in_bytes();
        items = items.saturating_add(s);
        proof {
            let old_sizes = sizes;
            sizes = sizes.push(s as int);
            assert(sizes.drop_last() =~= old_sizes);
        }
        i = i + 1;
    }
    let r = buffer.saturating_add(items);
    assert(vec_reports_heap_size_with(*v, cap as int, sizes, r as int));
    r
}

impl<T: HeapSize> CompressionStep<T> {
    /// The size of the step itself plus the heap bytes its data reports, capped at
    /// `usize::MAX`.
    pub fn current_size_in_bytes(&self) -> (r: usize)
        ensures
            exists|rb: int|
                #![trigger self.data.reports_heap_size(rb)]
                0 <= rb <= usize::MAX && self.data.reports_heap_size(rb) && r == add_capped(
                    vstd::layout::spec_size_of_val::<CompressionStep<T>>(self) as int,
                    rb,
                ),
    {
        let own = core::mem::size_of_val(self);
        let rb = self.data.heap_size_in_bytes();
        assert(self.data.reports_heap_size(rb as int));
        own.saturating_add(rb)
    }
}

} // verus!
