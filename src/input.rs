use vstd::prelude::*;

verus! {

/// An input for [`decode`](crate::decode): it hands out symbols in chunks of `N`.
pub trait Input<const N: usize> {
    /// The symbols not yet handed out, in order.
    spec fn rest(&self) -> Seq<u8>;

    /// The number of symbols not yet handed out.
    fn remaining_len(&self) -> (r: usize)
        ensures
            r == self.rest().len(),
    ;

    /// Get the next chunk of size `N` from the input.
    ///
    /// Returns `None` if the input doesn't have sufficient number of bytes.
    fn next_chunk(&mut self) -> (r: Option<&[u8]>)
        ensures
            old(self).rest().len() >= N ==> (r matches Some(chunk) && chunk@ == old(
                self,
            ).rest().take(N as int) && final(self).rest() == old(self).rest().skip(N as int)),
            old(self).rest().len() < N ==> r is None && final(self).rest() == old(self).rest(),
    ;

    /// Get the remainder of the input.
    ///
    /// Should only be called after [`next_chunk`](Self::next_chunk) returns `None`.
    fn remainder(&self) -> (r: &[u8])
        requires
            self.rest().len() < N,
        ensures
            r@ == self.rest(),
    ;
}

impl<const N: usize> Input<N> for &[u8] {
    open spec fn rest(&self) -> Seq<u8> {
        (**self)@
    }

    fn remaining_len(&self) -> (r: usize) {
        (**self).len()
    }

    fn next_chunk(&mut self) -> (r: Option<&[u8]>) {
        let s: &[u8] = *self;
        if s.len() < N {
            return None;
        }
        let (chunk, rest) = s.split_at(N);
        *self = rest;
        Some(chunk)
    }

    fn remainder(&self) -> (r: &[u8]) {
        *self
    }
}

} // verus!
