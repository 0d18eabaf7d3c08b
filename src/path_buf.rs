use vstd::prelude::*;

use crate::alphabet::is_symbol;
use crate::output::Output;

verus! {

/// An [`Output`](crate::Output) that collects the bytes of a file system path.
///
/// The bytes are those of the path's native encoding on Unix-like platforms; the conversion
/// from and to the platform's path type is left to the caller.
pub struct PathBufOutput {
    bytes: Vec<u8>,
}

impl PathBufOutput {
    /// The bytes collected so far.
    pub closed spec fn view(&self) -> Seq<u8> {
        self.bytes@
    }

    /// Create empty path buffer.
    pub fn new() -> (r: Self)
        ensures
            r.view() == Seq::<u8>::empty(),
    {
        PathBufOutput { bytes: Vec::new() }
    }

    /// Create empty path buffer with desired capacity.
    pub fn with_capacity(capacity: usize) -> (r: Self)
        ensures
            r.view() == Seq::<u8>::empty(),
    {
        PathBufOutput { bytes: Vec::with_capacity(capacity) }
    }

    /// Create path buffer that starts with the bytes of a path.
    pub fn from_bytes(bytes: Vec<u8>) -> (r: Self)
        ensures
            r.view() == bytes@,
    {
        PathBufOutput { bytes }
    }

    /// The bytes collected so far.
    pub fn as_bytes(&self) -> (r: &[u8])
        ensures
            r@ == self.view(),
    {
        self.bytes.as_slice()
    }

    /// Transform into the bytes collected.
    pub fn into_bytes(self) -> (r: Vec<u8>)
        ensures
            r@ == self.view(),
    {
        self.bytes
    }
}

/// The byte that a 16-bit code unit of a wide-character path stands for: the unit itself
/// where it fits in a byte, else `u8::MAX`.
pub open spec fn narrow_unit(u: u16) -> u8 {
    if u <= 0xff {
        u as u8
    } else {
        0xff
    }
}

/// The bytes of a wide-character path, one for each 16-bit code unit.
///
/// A unit that does not fit in a byte becomes `u8::MAX`, which is no symbol, so that
/// decoding the result rejects it instead of reading another symbol in its place.
pub fn narrow_wide_chars(units: &[u16]) -> (r: Vec<u8>)
    ensures
        r@.len() == units@.len(),
        forall|i: int| 0 <= i < units@.len() ==> #[trigger] r@[i] == narrow_unit(units@[i]),
        forall|i: int| 0 <= i < units@.len() && units@[i] > 0xff ==> !is_symbol(#[trigger] r@[i]),
{
    let mut bytes: Vec<u8> = Vec::with_capacity(units.len());
    let mut i: usize = 0;
    while i < units.len()
        invariant
            i <= units@.len(),
            bytes@.len() == i,
            forall|j: int| 0 <= j < i ==> #[trigger] bytes@[j] == narrow_unit(units@[j]),
        decreases units@.len() - i,
    {
        let u = units[i];
        let b: u8 = if u <= 0xff {
            u as u8
        } else {
            u8::MAX
        };
        bytes.push(b);
        i += 1;
    }
    bytes
}

impl Output for PathBufOutput {
    open spec fn contents(&self) -> Seq<u8> {
        self.view()
    }

    open spec fn fits(&self, n: nat) -> bool {
        true
    }

    proof fn lemma_fits_fewer(&self, n: nat, m: nat) {
    }

    fn push(&mut self, ch: u8) {
        self.bytes.push(ch);
    }
}

} // verus!
