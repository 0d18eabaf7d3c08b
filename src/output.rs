use vstd::prelude::*;

verus! {

/// An output of [`encode`](crate::encode) or [`decode`](crate::decode): it takes one byte at a time.
pub trait Output {
    /// The bytes that the output holds, in the order they were pushed.
    spec fn contents(&self) -> Seq<u8>;

    /// Whether `n` more bytes can be pushed.
    spec fn fits(&self, n: nat) -> bool;

    /// Room for some bytes is room for fewer.
    proof fn lemma_fits_fewer(&self, n: nat, m: nat)
        requires
            self.fits(n),
            m <= n,
        ensures
            self.fits(m),
    ;

    /// Output one byte.
    fn push(&mut self, ch: u8)
        requires
            old(self).fits(1),
        ensures
            final(self).contents() == old(self).contents().push(ch),
            forall|n: nat| old(self).fits(n + 1) ==> #[trigger] final(self).fits(n),
    ;
}

impl Output for Vec<u8> {
    open spec fn contents(&self) -> Seq<u8> {
        self@
    }

    open spec fn fits(&self, n: nat) -> bool {
        true
    }

    proof fn lemma_fits_fewer(&self, n: nat, m: nat) {
    }

    fn push(&mut self, ch: u8) {
        Vec::push(self, ch);
    }
}

} // verus!
