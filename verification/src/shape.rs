//! Tensor shapes: eight dimensions, the first varying fastest in memory.

use vstd::prelude::*;

verus! {

/// The sizes of a tensor's eight dimensions; unused dimensions have size one.
pub type Shape = [u32; 8];

/// Whether two shapes are equal, dimension by dimension.
pub fn shapes_equal(a: &Shape, b: &Shape) -> (r: bool)
    ensures
        r == (a@ == b@),
{
    let mut i: usize = 0;
    while i < 8
        invariant
            i <= 8,
            forall|j: int| 0 <= j < i ==> a[j] == b[j],
        decreases 8 - i,
    {
        if a[i] != b[i] {
            return false;
        }
        i = i + 1;
    }
    assert(a@ =~= b@);
    true
}

/// Values that name a shape: a full shape, or the sizes of its leading
/// dimensions (the rest being one).
pub trait IntoShape: Sized {
    /// The shape the value names.
    spec fn spec_shape(self) -> Seq<u32>;

    /// The shape the value names.
    fn shape(self) -> (r: Shape)
        ensures
            r@ == self.spec_shape(),
    ;
}

impl IntoShape for Shape {
    open spec fn spec_shape(self) -> Seq<u32> {
        self@
    }

    fn shape(self) -> (r: Shape) {
        let r: Shape = self;
        assert(r@ =~= self.spec_shape());
        r
    }
}

impl IntoShape for u32 {
    open spec fn spec_shape(self) -> Seq<u32> {
        seq![self, 1u32, 1u32, 1u32, 1u32, 1u32, 1u32, 1u32]
    }

    fn shape(self) -> (r: Shape) {
        let r: Shape = [self, 1, 1, 1, 1, 1, 1, 1];
        assert(r@ =~= self.spec_shape());
        r
    }
}

impl IntoShape for (u32,) {
    open spec fn spec_shape(self) -> Seq<u32> {
        seq![self.0, 1u32, 1u32, 1u32, 1u32, 1u32, 1u32, 1u32]
    }

    fn shape(self) -> (r: Shape) {
        let r: Shape = [self.0, 1, 1, 1, 1, 1, 1, 1];
        assert(r@ =~= self.spec_shape());
        r
    }
}

impl IntoShape for (u32, u32) {
    open spec fn spec_shape(self) -> Seq<u32> {
        seq![self.0, self.1, 1u32, 1u32, 1u32, 1u32, 1u32, 1u32]
    }

    fn shape(self) -> (r: Shape) {
        let r: Shape = [self.0, self.1, 1, 1, 1, 1, 1, 1];
        assert(r@ =~= self.spec_shape());
        r
    }
}

impl IntoShape for (u32, u32, u32) {
    open spec fn spec_shape(self) -> Seq<u32> {
        seq![self.0, self.1, self.2, 1u32, 1u32, 1u32, 1u32, 1u32]
    }

    fn shape(self) -> (r: Shape) {
        let r: Shape = [self.0, self.1, self.2, 1, 1, 1, 1, 1];
        assert(r@ =~= self.spec_shape());
        r
    }
}

impl IntoShape for (u32, u32, u32, u32) {
    open spec fn spec_shape(self) -> Seq<u32> {
        seq![self.0, self.1, self.2, self.3, 1u32, 1u32, 1u32, 1u32]
    }

    fn shape(self) -> (r: Shape) {
        let r: Shape = [self.0, self.1, self.2, self.3, 1, 1, 1, 1];
        assert(r@ =~= self.spec_shape());
        r
    }
}

impl IntoShape for (u32, u32, u32, u32, u32) {
    open spec fn spec_shape(self) -> Seq<u32> {
        seq![self.0, self.1, self.2, self.3, self.4, 1u32, 1u32, 1u32]
    }

    fn shape(self) -> (r: Shape) {
        let r: Shape = [self.0, self.1, self.2, self.3, self.4, 1, 1, 1];
        assert(r@ =~= self.spec_shape());
        r
    }
}

impl IntoShape for (u32, u32, u32, u32, u32, u32) {
    open spec fn spec_shape(self) -> Seq<u32> {
        seq![self.0, self.1, self.2, self.3, self.4, self.5, 1u32, 1u32]
    }

    fn shape(self) -> (r: Shape) {
        let r: Shape = [self.0, self.1, self.2, self.3, self.4, self.5, 1, 1];
        assert(r@ =~= self.spec_shape());
        r
    }
}

impl IntoShape for (u32, u32, u32, u32, u32, u32, u32) {
    open spec fn spec_shape(self) -> Seq<u32> {
        seq![self.0, self.1, self.2, self.3, self.4, self.5, self.6, 1u32]
    }

    fn shape(self) -> (r: Shape) {
        let r: Shape = [self.0, self.1, self.2, self.3, self.4, self.5, self.6, 1];
        assert(r@ =~= self.spec_shape());
        r
    }
}

impl IntoShape for (u32, u32, u32, u32, u32, u32, u32, u32) {
    open spec fn spec_shape(self) -> Seq<u32> {
        seq![self.0, self.1, self.2, self.3, self.4, self.5, self.6, self.7]
    }

    fn shape(self) -> (r: Shape) {
        let r: Shape = [self.0, self.1, self.2, self.3, self.4, self.5, self.6, self.7];
        assert(r@ =~= self.spec_shape());
        r
    }
}

} // verus!
