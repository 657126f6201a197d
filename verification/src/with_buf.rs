//! A generator together with an output buffer of its own.

use crate::fraction::Fraction;
use crate::traits::{next_position, QRng};
use vstd::prelude::*;

verus! {

/// A generator that owns the buffer it writes its points to. The buffer has
/// the generator's dimensionality, from the wrapping on.
pub struct QRngWithBuf<R: QRng> {
    qrng: R,
    buf: Vec<Fraction>,
}

impl<R: QRng> QRngWithBuf<R> {
    /// The generator inside.
    pub closed spec fn generator(&self) -> R {
        self.qrng
    }

    /// The generator inside is consistent and the buffer has its
    /// dimensionality.
    pub closed spec fn inv(&self) -> bool {
        &&& self.qrng.inv()
        &&& self.buf.len() == self.qrng.dim()
    }

    /// Wraps `qrng` with a buffer of its dimensionality.
    pub fn new(qrng: R) -> (w: Self)
        requires
            qrng.inv(),
        ensures
            w.inv(),
            w.generator() == qrng,
    {
        let ndim = qrng.ndim();
        let buf = vec![Fraction::zero(); ndim];
        QRngWithBuf { qrng, buf }
    }

    /// Draws the next point and returns a view of it, which is valid until
    /// the next draw.
    pub fn gen(&mut self) -> (point: &[Fraction])
        requires
            old(self).inv(),
        ensures
            final(self).inv(),
            point@ == old(self).generator().point(old(self).generator().position()),
            point@.len() == old(self).generator().dim(),
            forall|i: int| 0 <= i < point@.len() ==> (#[trigger] point@[i]).below_one(),
            final(self).generator().dim() == old(self).generator().dim(),
            final(self).generator().position() == next_position(
                old(self).generator().position(),
            ),
            forall|k: nat| #[trigger]
                final(self).generator().point(k) == old(self).generator().point(k),
    {
        self.qrng.gen_fill_unchecked(&mut self.buf);
        self.buf.as_slice()
    }
}

impl<R: QRng> Clone for QRngWithBuf<R> {
    fn clone(&self) -> (w: Self)
        ensures
            cloned::<R>(self.generator(), w.generator()),
            self.inv() ==> w.inv(),
    {
        let w = QRngWithBuf { qrng: self.qrng.clone(), buf: self.buf.clone() };
        proof {
            if self.inv() {
                self.qrng.lemma_clone_stands_alike(&w.qrng);
            }
        }
        w
    }
}

impl<R: QRng> QRng for QRngWithBuf<R> {
    open spec fn inv(&self) -> bool {
        QRngWithBuf::inv(self)
    }

    open spec fn dim(&self) -> nat {
        self.generator().dim()
    }

    open spec fn position(&self) -> nat {
        self.generator().position()
    }

    open spec fn point(&self, k: nat) -> Seq<Fraction> {
        self.generator().point(k)
    }

    proof fn lemma_clone_stands_alike(&self, other: &Self) {
        self.qrng.lemma_clone_stands_alike(&other.qrng);
    }

    fn ndim(&self) -> (n: usize) {
        self.qrng.ndim()
    }

    fn gen_fill_unchecked(&mut self, out: &mut [Fraction]) {
        self.qrng.gen_fill_unchecked(out);
    }
}

} // verus!
