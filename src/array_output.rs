use vstd::prelude::*;

use crate::output::Output;

verus! {

/// An [`Output`](crate::Output) of fixed capacity `N` that never allocates.
///
/// Callers size it with [`encoded_len`](crate::encoded_len) or
/// [`decoded_len`](crate::decoded_len): pushing past its capacity is ruled out by the
/// contract of [`Output::push`](crate::Output::push).
pub struct ArrayOutput<const N: usize> {
    array: [u8; N],
    len: usize,
}

impl<const N: usize> ArrayOutput<N> {
    spec fn filled(&self) -> usize {
        if self.len <= N {
            self.len
        } else {
            N
        }
    }

    /// The bytes pushed so far.
    pub closed spec fn view(&self) -> Seq<u8> {
        self.array@.take(self.filled() as int)
    }

    /// How many more bytes it takes.
    pub closed spec fn room(&self) -> nat {
        (N - self.filled()) as nat
    }

    fn filled_len(&self) -> (r: usize)
        ensures
            r == self.filled(),
    {
        if self.len <= N {
            self.len
        } else {
            N
        }
    }

    /// Create an empty output.
    pub fn new() -> (r: Self)
        ensures
            r@ == Seq::<u8>::empty(),
            r.room() == N,
    {
        ArrayOutput { array: vstd::array::array_fill_for_copy_types(0u8), len: 0 }
    }

    /// The bytes pushed so far.
    pub fn as_slice(&self) -> (r: &[u8])
        ensures
            r@ == self@,
    {
        let (filled, _) = self.array.as_slice().split_at(self.filled_len());
        filled
    }

    /// The number of bytes pushed so far.
    pub fn len(&self) -> (r: usize)
        ensures
            r == self@.len(),
    {
        self.filled_len()
    }
}

impl<const N: usize> Output for ArrayOutput<N> {
    open spec fn contents(&self) -> Seq<u8> {
        self@
    }

    open spec fn fits(&self, n: nat) -> bool {
        n <= self.room()
    }

    proof fn lemma_fits_fewer(&self, n: nat, m: nat) {
    }

    fn push(&mut self, ch: u8) {
        let len = self.len;
        self.array.set(len, ch);
        self.len = len + 1;
        assert(self.array@.take(self.len as int) =~= old(self).array@.take(len as int).push(ch));
    }
}

} // verus!
