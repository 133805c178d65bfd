//! The values of a table's constraints on a row, and the row's accesses to memory.
use vstd::prelude::*;
use crate::field::Field;
use crate::recursion::types::{Address, Block};

verus! {

/// An access to memory: a value at a place, with a multiplicity.
#[derive(Clone, Copy, Debug, PartialEq, Eq)]
pub struct Interaction<E> {
    pub addr: E,
    pub value: Block<E>,
    pub mult: E,
    /// The value is sent, not received.
    pub is_send: bool,
}

/// The values that must vanish on a row, and the row's accesses to memory.
#[derive(Clone, Debug)]
pub struct RowBuilder<E> {
    /// The constant `w` of the extension by a root of `X^4 - w`.
    pub w: E,
    pub constraints: Vec<E>,
    pub interactions: Vec<Interaction<E>>,
}

/// The values that must vanish on a row, and the row's accesses to memory, mathematically.
#[verifier::ext_equal]
pub struct RowModel<E> {
    pub constraints: Seq<E>,
    pub interactions: Seq<Interaction<E>>,
}

impl<E> View for RowBuilder<E> {
    type V = RowModel<E>;

    open spec fn view(&self) -> RowModel<E> {
        RowModel { constraints: self.constraints@, interactions: self.interactions@ }
    }
}

/// One after the other.
pub open spec fn joined<E>(a: RowModel<E>, b: RowModel<E>) -> RowModel<E> {
    RowModel {
        constraints: a.constraints + b.constraints,
        interactions: a.interactions + b.interactions,
    }
}

pub open spec fn nothing<E>() -> RowModel<E> {
    RowModel { constraints: Seq::empty(), interactions: Seq::empty() }
}

/// One value after the other is sent or received.
pub open spec fn exchanged<E>(s: Seq<Interaction<E>>) -> RowModel<E> {
    RowModel { constraints: Seq::empty(), interactions: s }
}

/// Values that must vanish.
pub open spec fn vanishing<E>(s: Seq<E>) -> RowModel<E> {
    RowModel { constraints: s, interactions: Seq::empty() }
}

/// Every constraint vanishes.
pub open spec fn satisfied<E: Field>(m: RowModel<E>) -> bool {
    forall|i: int| 0 <= i < m.constraints.len() ==> #[trigger] m.constraints[i] == E::zero_elem()
}

/// The block of a single element.
pub open spec fn single<E: Field>(x: E) -> Block<E> {
    Block(x, E::zero_elem(), E::zero_elem(), E::zero_elem())
}

pub open spec fn sent<E: Field>(addr: Address<E>, value: Block<E>, mult: E) -> Interaction<E> {
    Interaction { addr: addr.0, value, mult, is_send: true }
}

pub open spec fn received<E: Field>(addr: Address<E>, value: Block<E>, mult: E) -> Interaction<E> {
    Interaction { addr: addr.0, value, mult, is_send: false }
}

/// A condition times a difference.
pub open spec fn equal_when<E: Field>(c: E, x: E, y: E) -> E {
    c.times(x.minus(y))
}

/// The four differences of two blocks, each times a condition.
pub open spec fn blocks_equal_when<E: Field>(c: E, x: Block<E>, y: Block<E>) -> Seq<E> {
    seq![
        equal_when(c, x.0, y.0),
        equal_when(c, x.1, y.1),
        equal_when(c, x.2, y.2),
        equal_when(c, x.3, y.3),
    ]
}

/// The four differences of two blocks, each times two conditions.
pub open spec fn blocks_equal_when_both<E: Field>(c: E, d: E, x: Block<E>, y: Block<E>) -> Seq<E> {
    seq![
        c.times(equal_when(d, x.0, y.0)),
        c.times(equal_when(d, x.1, y.1)),
        c.times(equal_when(d, x.2, y.2)),
        c.times(equal_when(d, x.3, y.3)),
    ]
}

pub open spec fn block_sum<E: Field>(x: Block<E>, y: Block<E>) -> Block<E> {
    Block(x.0.plus(y.0), x.1.plus(y.1), x.2.plus(y.2), x.3.plus(y.3))
}

pub open spec fn block_difference<E: Field>(x: Block<E>, y: Block<E>) -> Block<E> {
    Block(x.0.minus(y.0), x.1.minus(y.1), x.2.minus(y.2), x.3.minus(y.3))
}

/// The product modulo `X^4 - w`.
pub open spec fn block_product<E: Field>(x: Block<E>, y: Block<E>, w: E) -> Block<E> {
    Block(
        x.0.times(y.0).plus(w.times(x.1.times(y.3).plus(x.2.times(y.2)).plus(x.3.times(y.1)))),
        x.0.times(y.1).plus(x.1.times(y.0)).plus(w.times(x.2.times(y.3).plus(x.3.times(y.2)))),
        x.0.times(y.2).plus(x.1.times(y.1)).plus(x.2.times(y.0)).plus(w.times(x.3.times(y.3))),
        x.0.times(y.3).plus(x.1.times(y.2)).plus(x.2.times(y.1)).plus(x.3.times(y.0)),
    )
}

pub fn add_blocks<E: Field>(x: &Block<E>, y: &Block<E>) -> (r: Block<E>)
    ensures
        r == block_sum(*x, *y),
{
    Block(x.0.add(y.0), x.1.add(y.1), x.2.add(y.2), x.3.add(y.3))
}

pub fn sub_blocks<E: Field>(x: &Block<E>, y: &Block<E>) -> (r: Block<E>)
    ensures
        r == block_difference(*x, *y),
{
    Block(x.0.sub(y.0), x.1.sub(y.1), x.2.sub(y.2), x.3.sub(y.3))
}

pub fn mul_blocks<E: Field>(x: &Block<E>, y: &Block<E>, w: E) -> (r: Block<E>)
    ensures
        r == block_product(*x, *y, w),
{
    Block(
        x.0.mul(y.0).add(w.mul(x.1.mul(y.3).add(x.2.mul(y.2)).add(x.3.mul(y.1)))),
        x.0.mul(y.1).add(x.1.mul(y.0)).add(w.mul(x.2.mul(y.3).add(x.3.mul(y.2)))),
        x.0.mul(y.2).add(x.1.mul(y.1)).add(x.2.mul(y.0)).add(w.mul(x.3.mul(y.3))),
        x.0.mul(y.3).add(x.1.mul(y.2)).add(x.2.mul(y.1)).add(x.3.mul(y.0)),
    )
}

pub fn single_block<E: Field>(x: E) -> (r: Block<E>)
    ensures
        r == single(x),
{
    Block(x, E::zero(), E::zero(), E::zero())
}

impl<E: Field> RowBuilder<E> {
    /// A builder over the extension by a root of `X^4 - w`.
    pub fn new(w: E) -> (r: Self)
        ensures
            r@ == nothing::<E>(),
            r.w == w,
    {
        RowBuilder { w, constraints: Vec::new(), interactions: Vec::new() }
    }

    /// A value that must vanish.
    pub fn assert_zero(&mut self, x: E)
        ensures
            final(self)@ == joined(old(self)@, vanishing(seq![x])),
            final(self).w == old(self).w,
    {
        self.constraints.push(x);
        assert(self@ =~= joined(old(self)@, vanishing(seq![x])));
    }

    /// Two values that must be equal.
    pub fn assert_eq(&mut self, x: E, y: E)
        ensures
            final(self)@ == joined(old(self)@, vanishing(seq![x.minus(y)])),
            final(self).w == old(self).w,
    {
        self.assert_zero(x.sub(y));
    }

    /// A value that must be zero or one.
    pub fn assert_bool(&mut self, x: E)
        ensures
            final(self)@ == joined(
                old(self)@,
                vanishing(seq![x.times(x.minus(E::one_elem()))]),
            ),
            final(self).w == old(self).w,
    {
        self.assert_zero(x.mul(x.sub(E::one())));
    }

    /// Two values that must be equal where a condition does not vanish.
    pub fn assert_eq_when(&mut self, c: E, x: E, y: E)
        ensures
            final(self)@ == joined(old(self)@, vanishing(seq![equal_when(c, x, y)])),
            final(self).w == old(self).w,
    {
        self.assert_zero(c.mul(x.sub(y)));
    }

    /// Two blocks that must be equal where a condition does not vanish.
    pub fn assert_ext_eq_when(&mut self, c: E, x: &Block<E>, y: &Block<E>)
        ensures
            final(self)@ == joined(old(self)@, vanishing(blocks_equal_when(c, *x, *y))),
            final(self).w == old(self).w,
    {
        self.assert_eq_when(c, x.0, y.0);
        self.assert_eq_when(c, x.1, y.1);
        self.assert_eq_when(c, x.2, y.2);
        self.assert_eq_when(c, x.3, y.3);
        assert(self@ =~= joined(old(self)@, vanishing(blocks_equal_when(c, *x, *y))));
    }

    /// Two blocks that must be equal where neither of two conditions vanishes.
    pub fn assert_ext_eq_when_both(&mut self, c: E, d: E, x: &Block<E>, y: &Block<E>)
        ensures
            final(self)@ == joined(old(self)@, vanishing(blocks_equal_when_both(c, d, *x, *y))),
            final(self).w == old(self).w,
    {
        self.assert_zero(c.mul(d.mul(x.0.sub(y.0))));
        self.assert_zero(c.mul(d.mul(x.1.sub(y.1))));
        self.assert_zero(c.mul(d.mul(x.2.sub(y.2))));
        self.assert_zero(c.mul(d.mul(x.3.sub(y.3))));
        assert(self@ =~= joined(old(self)@, vanishing(blocks_equal_when_both(c, d, *x, *y))));
    }

    pub fn send_block(&mut self, addr: Address<E>, value: Block<E>, mult: E)
        ensures
            final(self)@ == joined(old(self)@, exchanged(seq![sent(addr, value, mult)])),
            final(self).w == old(self).w,
    {
        self.interactions.push(Interaction { addr: addr.0, value, mult, is_send: true });
        assert(self@ =~= joined(old(self)@, exchanged(seq![sent(addr, value, mult)])));
    }

    pub fn receive_block(&mut self, addr: Address<E>, value: Block<E>, mult: E)
        ensures
            final(self)@ == joined(old(self)@, exchanged(seq![received(addr, value, mult)])),
            final(self).w == old(self).w,
    {
        self.interactions.push(Interaction { addr: addr.0, value, mult, is_send: false });
        assert(self@ =~= joined(old(self)@, exchanged(seq![received(addr, value, mult)])));
    }

    pub fn send_single(&mut self, addr: Address<E>, value: E, mult: E)
        ensures
            final(self)@ == joined(old(self)@, exchanged(seq![sent(addr, single(value), mult)])),
            final(self).w == old(self).w,
    {
        self.send_block(addr, single_block(value), mult);
    }

    pub fn receive_single(&mut self, addr: Address<E>, value: E, mult: E)
        ensures
            final(self)@ == joined(
                old(self)@,
                exchanged(seq![received(addr, single(value), mult)]),
            ),
            final(self).w == old(self).w,
    {
        self.receive_block(addr, single_block(value), mult);
    }
}

} // verus!
