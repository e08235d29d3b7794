//! Three-component vectors.

use vstd::prelude::*;
use crate::scalar::Scalar;

verus! {

/// Three numbers in order: a position, a direction or a colour.
#[derive(Clone, Copy, Debug)]
pub struct Vec3 {
    e: [Scalar; 3],
}

impl Vec3 {
    /// The components in order.
    pub closed spec fn view(self) -> Seq<Scalar> {
        self.e@
    }

    /// The vector of the opposite components.
    pub closed spec fn spec_negated(self) -> Vec3 {
        Vec3 { e: [self.e[0].spec_neg(), self.e[1].spec_neg(), self.e[2].spec_neg()] }
    }

    /// The vector with the three given components.
    pub fn new(e0: Scalar, e1: Scalar, e2: Scalar) -> (v: Vec3)
        ensures
            v@ == seq![e0, e1, e2],
    {
        let v = Vec3 { e: [e0, e1, e2] };
        assert(v@ =~= seq![e0, e1, e2]);
        v
    }

    /// First component, read as a coordinate.
    pub fn x(&self) -> (s: Scalar)
        ensures
            s == self@[0],
    {
        self.e[0]
    }

    /// Second component, read as a coordinate.
    pub fn y(&self) -> (s: Scalar)
        ensures
            s == self@[1],
    {
        self.e[1]
    }

    /// Third component, read as a coordinate.
    pub fn z(&self) -> (s: Scalar)
        ensures
            s == self@[2],
    {
        self.e[2]
    }

    /// First component, read as a colour channel.
    pub fn r(&self) -> (s: Scalar)
        ensures
            s == self@[0],
    {
        self.e[0]
    }

    /// Second component, read as a colour channel.
    pub fn g(&self) -> (s: Scalar)
        ensures
            s == self@[1],
    {
        self.e[1]
    }

    /// Third component, read as a colour channel.
    pub fn b(&self) -> (s: Scalar)
        ensures
            s == self@[2],
    {
        self.e[2]
    }

    /// The component at `idx`.
    pub fn index(&self, idx: usize) -> (s: Scalar)
        requires
            idx < 3,
        ensures
            s == self@[idx as int],
    {
        self.e[idx]
    }

    /// The component at `index`, to be written through.
    pub fn index_mut(&mut self, index: usize) -> (slot: &mut Scalar)
        requires
            index < 3,
        ensures
            *slot == old(self)@[index as int],
            final(self)@ == old(self)@.update(index as int, *final(slot)),
    {
        &mut self.e[index]
    }
}

impl<'a> core::ops::Neg for &'a Vec3 {
    type Output = Vec3;

    /// The vector of the opposite components.
    fn neg(self) -> (v: Vec3)
        ensures
            v@ == seq![self@[0].spec_neg(), self@[1].spec_neg(), self@[2].spec_neg()],
    {
        let v = Vec3::new(self.e[0].neg(), self.e[1].neg(), self.e[2].neg());
        assert(v.e =~= self.spec_negated().e);
        v
    }
}

impl<'a> vstd::std_specs::ops::NegSpecImpl for &'a Vec3 {
    open spec fn obeys_neg_spec() -> bool {
        true
    }

    open spec fn neg_req(self) -> bool {
        true
    }

    open spec fn neg_spec(self) -> Vec3 {
        self.spec_negated()
    }
}

} // verus!
