//! Deterministic test fixtures.
//!
//! A [`Fixturator`] walks a family of example values of one item type
//! along one curve: [`Predictable`] for a reproducible series,
//! [`Unpredictable`] for an arbitrary one, [`Empty`] for the emptiest
//! value. The curves are type-level markers; the fixturator itself only
//! tracks how far along the series it is, so tests stay deterministic.

use vstd::prelude::*;

verus! {

/// Marker curve: arbitrary values.
#[derive(Clone, Copy, Debug, PartialEq, Eq, Structural)]
pub enum Unpredictable {
    /// The one marker value.
    Curve,
}

/// Marker curve: a reproducible series.
#[derive(Clone, Copy, Debug, PartialEq, Eq, Structural)]
pub enum Predictable {
    /// The one marker value.
    Curve,
}

/// Marker curve: the emptiest value.
#[derive(Clone, Copy, Debug, PartialEq, Eq, Structural)]
pub enum Empty {
    /// The one marker value.
    Curve,
}

/// A position in the series of example values of `Item` along `Curve`.
pub struct Fixturator<Curve, Item> {
    /// The curve marker.
    pub curve: core::marker::PhantomData<Curve>,
    /// The item marker.
    pub item: core::marker::PhantomData<Item>,
    /// How far along the series this fixturator is.
    pub index: usize,
}

impl<Curve, Item> Fixturator<Curve, Item> {
    /// A fixturator at the start of its series.
    pub fn new() -> (r: Fixturator<Curve, Item>)
        ensures
            r.index == 0,
    {
        Fixturator::<Curve, Item> {
            index: 0,
            curve: core::marker::PhantomData,
            item: core::marker::PhantomData,
        }
    }

    /// Step to the next value of the series, giving the position used.
    pub fn step(&mut self) -> (r: usize)
        requires
            old(self).index < usize::MAX,
        ensures
            r == old(self).index,
            final(self).index == old(self).index + 1,
    {
        let i = self.index;
        self.index = self.index + 1;
        i
    }
}

/// An item type with fixtures: any curve yields a fresh fixturator.
pub trait Fixt {
    /// A fixturator for this type along the given curve.
    fn fixturator<Curve>() -> (r: Fixturator<Curve, Self>) where Self: Sized
        ensures
            r.index == 0,
    {
        Fixturator::<Curve, Self>::new()
    }
}

} // verus!
