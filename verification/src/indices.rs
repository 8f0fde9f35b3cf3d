//! Lists of dimension indices, as the reductions take them.

use vstd::prelude::*;

use crate::shape::Shape;

verus! {

/// Values that name a list of dimensions.
pub trait IntoIndices: Sized {
    /// The dimensions the value names, in order.
    spec fn spec_indices(self) -> Seq<usize>;

    /// The dimensions the value names, in order.
    fn indices(self) -> (r: Vec<usize>)
        ensures
            r@ == self.spec_indices(),
    ;
}

/// The dimensions along which two shapes differ.
pub struct ShapeDiff {
    pub lhs: Shape,
    pub rhs: Shape,
}

impl ShapeDiff {
    /// The dimensions along which `lhs` and `rhs` differ.
    pub fn new(lhs: Shape, rhs: Shape) -> (r: ShapeDiff)
        ensures
            r.lhs == lhs && r.rhs == rhs,
    {
        ShapeDiff { lhs, rhs }
    }
}

/// The dimensions `0..i` of `lhs` and `rhs` that differ, in increasing order.
pub open spec fn differing(lhs: Seq<u32>, rhs: Seq<u32>, i: int) -> Seq<usize>
    decreases i,
{
    if i <= 0 {
        Seq::empty()
    } else if lhs[i - 1] != rhs[i - 1] {
        differing(lhs, rhs, i - 1).push((i - 1) as usize)
    } else {
        differing(lhs, rhs, i - 1)
    }
}

impl IntoIndices for ShapeDiff {
    open spec fn spec_indices(self) -> Seq<usize> {
        differing(self.lhs@, self.rhs@, 8)
    }

    fn indices(self) -> (r: Vec<usize>) {
        let mut r: Vec<usize> = Vec::new();
        let mut i: usize = 0;
        while i < 8
            invariant
                i <= 8,
                r@ == differing(self.lhs@, self.rhs@, i as int),
            decreases 8 - i,
        {
            if self.lhs[i] != self.rhs[i] {
                r.push(i);
            }
            i = i + 1;
        }
        r
    }
}

/// Every dimension of a shape.
pub struct AllDimensions;

impl IntoIndices for AllDimensions {
    open spec fn spec_indices(self) -> Seq<usize> {
        seq![0usize, 1usize, 2usize, 3usize, 4usize, 5usize, 6usize, 7usize]
    }

    fn indices(self) -> (r: Vec<usize>) {
        let r = vec![0, 1, 2, 3, 4, 5, 6, 7];
        assert(r@ =~= self.spec_indices());
        r
    }
}

/// The members of `differing` are exactly the differing dimensions, each
/// once, in increasing order.
pub proof fn lemma_differing_members(lhs: Seq<u32>, rhs: Seq<u32>, i: int)
    requires
        0 <= i <= 8,
    ensures
        forall|k: int| 0 <= k < differing(lhs, rhs, i).len() ==> {
            let d = #[trigger] differing(lhs, rhs, i)[k] as int;
            0 <= d < i && lhs[d] != rhs[d]
        },
        forall|d: int| 0 <= d < i && lhs[d] != rhs[d] ==> #[trigger] differing(lhs, rhs, i).contains(d as usize),
        forall|k: int, l: int| 0 <= k < l < differing(lhs, rhs, i).len() ==> differing(lhs, rhs, i)[k] < differing(lhs, rhs, i)[l],
    decreases i,
{
    if i > 0 {
        lemma_differing_members(lhs, rhs, i - 1);
        let prev = differing(lhs, rhs, i - 1);
        let cur = differing(lhs, rhs, i);
        if lhs[i - 1] != rhs[i - 1] {
            assert(cur == prev.push((i - 1) as usize));
        } else {
            assert(cur == prev);
        }
        assert forall|d: int| 0 <= d < i && lhs[d] != rhs[d] implies #[trigger] cur.contains(d as usize) by {
            if d < i - 1 {
                assert(prev.contains(d as usize));
                let k = choose|k: int| 0 <= k < prev.len() && prev[k] == d as usize;
                assert(cur[k] == d as usize);
            } else {
                assert(cur[prev.len() as int] == d as usize);
            }
        }
    }
}

impl IntoIndices for usize {
    open spec fn spec_indices(self) -> Seq<usize> {
        seq![self]
    }

    fn indices(self) -> (r: Vec<usize>) {
        let r = vec![self];
        assert(r@ =~= self.spec_indices());
        r
    }
}

impl IntoIndices for (usize,) {
    open spec fn spec_indices(self) -> Seq<usize> {
        seq![self.0]
    }

    fn indices(self) -> (r: Vec<usize>) {
        let r = vec![self.0];
        assert(r@ =~= self.spec_indices());
        r
    }
}

impl IntoIndices for (usize, usize) {
    open spec fn spec_indices(self) -> Seq<usize> {
        seq![self.0, self.1]
    }

    fn indices(self) -> (r: Vec<usize>) {
        let r = vec![self.0, self.1];
        assert(r@ =~= self.spec_indices());
        r
    }
}

impl IntoIndices for (usize, usize, usize) {
    open spec fn spec_indices(self) -> Seq<usize> {
        seq![self.0, self.1, self.2]
    }

    fn indices(self) -> (r: Vec<usize>) {
        let r = vec![self.0, self.1, self.2];
        assert(r@ =~= self.spec_indices());
        r
    }
}

impl IntoIndices for (usize, usize, usize, usize) {
    open spec fn spec_indices(self) -> Seq<usize> {
        seq![self.0, self.1, self.2, self.3]
    }

    fn indices(self) -> (r: Vec<usize>) {
        let r = vec![self.0, self.1, self.2, self.3];
        assert(r@ =~= self.spec_indices());
        r
    }
}

impl IntoIndices for (usize, usize, usize, usize, usize) {
    open spec fn spec_indices(self) -> Seq<usize> {
        seq![self.0, self.1, self.2, self.3, self.4]
    }

    fn indices(self) -> (r: Vec<usize>) {
        let r = vec![self.0, self.1, self.2, self.3, self.4];
        assert(r@ =~= self.spec_indices());
        r
    }
}

impl IntoIndices for (usize, usize, usize, usize, usize, usize) {
    open spec fn spec_indices(self) -> Seq<usize> {
        seq![self.0, self.1, self.2, self.3, self.4, self.5]
    }

    fn indices(self) -> (r: Vec<usize>) {
        let r = vec![self.0, self.1, self.2, self.3, self.4, self.5];
        assert(r@ =~= self.spec_indices());
        r
    }
}

impl IntoIndices for (usize, usize, usize, usize, usize, usize, usize) {
    open spec fn spec_indices(self) -> Seq<usize> {
        seq![self.0, self.1, self.2, self.3, self.4, self.5, self.6]
    }

    fn indices(self) -> (r: Vec<usize>) {
        let r = vec![self.0, self.1, self.2, self.3, self.4, self.5, self.6];
        assert(r@ =~= self.spec_indices());
        r
    }
}

impl IntoIndices for (usize, usize, usize, usize, usize, usize, usize, usize) {
    open spec fn spec_indices(self) -> Seq<usize> {
        seq![self.0, self.1, self.2, self.3, self.4, self.5, self.6, self.7]
    }

    fn indices(self) -> (r: Vec<usize>) {
        let r = vec![self.0, self.1, self.2, self.3, self.4, self.5, self.6, self.7];
        assert(r@ =~= self.spec_indices());
        r
    }
}

} // verus!
