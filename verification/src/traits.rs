//! The interface that every generator offers.

use crate::error::Error;
use crate::fraction::Fraction;
use crate::with_buf::QRngWithBuf;
use vstd::arithmetic::div_mod::{lemma_add_mod_noop_right, lemma_mod_twice};
use vstd::prelude::*;

verus! {

/// The step counters run over `MAX_LOG_N` bits.
pub const MAX_LOG_N: usize = 48;

/// The period of the generators: two to the `MAX_LOG_N`. After that many
/// draws a generator starts over.
pub const MAX_N: u64 = 0x1_0000_0000_0000;

/// Where a generator stands after one more draw.
pub open spec fn next_position(position: nat) -> nat {
    (position + 1) % (MAX_N as nat)
}

/// A multi-dimensional quasi-random sequence generator.
///
/// To the contracts a generator is a cursor over a fixed cycle of `MAX_N`
/// points: `point(k)` is the point that the draw from position `k` yields,
/// and drawing moves the position on by one, modulo `MAX_N`. Each point has
/// `dim()` coordinates, exact fractions in `[0, 1)`.
pub trait QRng: Sized + Clone {
    /// The generator's internal state is consistent.
    spec fn inv(&self) -> bool;

    /// The number of coordinates of each point.
    spec fn dim(&self) -> nat;

    /// How many points have been drawn so far, modulo `MAX_N`.
    spec fn position(&self) -> nat;

    /// The point that the draw from position `k` yields.
    spec fn point(&self, k: nat) -> Seq<Fraction>;

    /// A clone stands where the generator that it was made from stands,
    /// over the same cycle of points.
    proof fn lemma_clone_stands_alike(&self, other: &Self)
        requires
            self.inv(),
            cloned::<Self>(*self, *other),
        ensures
            other.inv(),
            other.dim() == self.dim(),
            other.position() == self.position(),
            forall|k: nat| #[trigger] other.point(k) == self.point(k),
    ;

    /// Returns the sequence dimensionality: the number of coordinates that
    /// each draw writes.
    fn ndim(&self) -> (n: usize)
        requires
            self.inv(),
        ensures
            n == self.dim(),
    ;

    /// Writes the next point of the sequence to the front of `out`, without
    /// a check of its length: the caller provides a buffer of length
    /// `ndim()` or more. What lies behind the point in `out` stays as it is.
    fn gen_fill_unchecked(&mut self, out: &mut [Fraction])
        requires
            old(self).inv(),
            old(out)@.len() >= old(self).dim(),
        ensures
            final(self).inv(),
            final(self).dim() == old(self).dim(),
            final(self).position() == next_position(old(self).position()),
            forall|k: nat| #[trigger] final(self).point(k) == old(self).point(k),
            final(out)@ == old(self).point(old(self).position()) + old(out)@.skip(
                old(self).dim() as int,
            ),
            old(self).point(old(self).position()).len() == old(self).dim(),
            forall|i: int| 0 <= i < old(self).dim() ==> (#[trigger] final(out)@[i]).below_one(),
    ;

    /// Writes the next point of the sequence to the front of `out`, after a
    /// check of its length. A buffer shorter than `ndim()` is refused with
    /// `Error::BufferTooSmall`, and then neither the generator nor the
    /// buffer changes.
    fn gen_fill(&mut self, out: &mut [Fraction]) -> (r: Result<(), Error>)
        requires
            old(self).inv(),
        ensures
            final(self).inv(),
            r is Err <==> old(out)@.len() < old(self).dim(),
            r is Err ==> r == Err::<(), Error>(Error::BufferTooSmall) && *final(self) == *old(self)
                && final(out)@ == old(out)@,
            r is Ok ==> {
                &&& final(self).dim() == old(self).dim()
                &&& final(self).position() == next_position(old(self).position())
                &&& forall|k: nat| #[trigger] final(self).point(k) == old(self).point(k)
                &&& final(out)@ == old(self).point(old(self).position()) + old(out)@.skip(
                    old(self).dim() as int,
                )
                &&& old(self).point(old(self).position()).len() == old(self).dim()
                &&& forall|i: int|
                    0 <= i < old(self).dim() ==> (#[trigger] final(out)@[i]).below_one()
            },
    {
        if out.len() < self.ndim() {
            return Err(Error::BufferTooSmall);
        }
        self.gen_fill_unchecked(out);
        Ok(())
    }
}

/// The point that the draw after `t` more draws yields: `nth_draw(g, 0)` is
/// what the next draw writes, `nth_draw(g, 1)` what the one after it writes.
pub open spec fn nth_draw<R: QRng>(g: &R, t: nat) -> Seq<Fraction> {
    g.point((g.position() + t) % (MAX_N as nat))
}

/// Drawing moves a generator one point on: what was its draw after `t + 1`
/// more draws is, once it has drawn, its draw after `t` more.
pub proof fn lemma_draw_moves_on<R: QRng>(before: &R, after: &R, t: nat)
    requires
        after.position() == next_position(before.position()),
        forall|k: nat| #[trigger] after.point(k) == before.point(k),
    ensures
        nth_draw(after, t) == nth_draw(before, t + 1),
{
    let p = before.position() as int;
    let n = MAX_N as int;
    assert(((p + 1) % n + t) % n == (p + t + 1) % n) by {
        lemma_add_mod_noop_right(t as int, p + 1, n);
        lemma_add_mod_noop_right(t as int, (p + 1) % n, n);
        lemma_mod_twice(p + 1, n);
    }
}

/// A generator and its clone, each advanced the same number of times, yield
/// the same points: whatever the number `t` of draws made from both, the
/// next draw of the one writes what the next draw of the other writes.
pub proof fn lemma_clones_draw_alike<R: QRng>(g: &R, copy: &R, t: nat)
    requires
        g.inv(),
        cloned::<R>(*g, *copy),
    ensures
        copy.inv(),
        copy.dim() == g.dim(),
        nth_draw(copy, t) == nth_draw(g, t),
{
    g.lemma_clone_stands_alike(copy);
}

/// Wrapping a generator together with a buffer of its own.
pub trait Buffered: QRng {
    /// Returns the generator wrapped with an output buffer of its
    /// dimensionality, so that drawing needs no buffer from the caller.
    fn with_buf(self) -> (w: QRngWithBuf<Self>)
        requires
            self.inv(),
        ensures
            w.inv(),
            w.generator() == self,
    ;
}

impl<R: QRng> Buffered for R {
    fn with_buf(self) -> (w: QRngWithBuf<Self>) {
        QRngWithBuf::new(self)
    }
}

} // verus!
