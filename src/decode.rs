use vstd::prelude::*;

use crate::alphabet::{char_index, index_of, is_symbol, is_valid_char};
use crate::chunk::{chunk_groups_value, groups_bytes, lemma_byte_bits};
use crate::error::DecodeError;
use crate::input::Input;
use crate::output::Output;

verus! {

/// How many bytes a final chunk of `r` symbols (`r < 8`) stands for; `None` where no
/// whole number of bytes takes `r` symbols.
pub open spec fn tail_bytes(r: nat) -> Option<nat> {
    if r == 0 {
        Some(0)
    } else if r == 2 {
        Some(1)
    } else if r == 4 {
        Some(2)
    } else if r == 5 {
        Some(3)
    } else if r == 7 {
        Some(4)
    } else {
        None
    }
}

/// The number of bytes that `m` symbols decode to: five for each whole chunk of eight
/// symbols, and those of the final chunk; `None` where `m` is not the length of any encoding.
pub open spec fn decoded_len_of(m: nat) -> Option<nat> {
    match tail_bytes(m % 8) {
        Some(t) => Some(m / 8 * 5 + t),
        None => None,
    }
}

/// Whether every byte of `s` is a symbol.
pub open spec fn all_symbols(s: Seq<u8>) -> bool {
    forall|i: int| 0 <= i < s.len() ==> is_symbol(#[trigger] s[i])
}

/// Whether `s` is a BASE32 encoding: its length is that of an encoding and each byte is
/// a symbol.
pub open spec fn is_encoding(s: Seq<u8>) -> bool {
    decoded_len_of(s.len()) is Some && all_symbols(s)
}

/// The 5-bit values that the symbols of `s` stand for.
pub open spec fn indices_of(s: Seq<u8>) -> Seq<u8> {
    s.map_values(|b: u8| index_of(b) as u8)
}

/// `s` followed by the symbol of zero up to a length of eight.
pub open spec fn pad_symbols(s: Seq<u8>) -> Seq<u8> {
    s + Seq::new((8 - s.len()) as nat, |i: int| '0' as u8)
}

/// The bytes that the symbols `s` decode to: each whole chunk of eight symbols gives the
/// five bytes of its 40 bits; a final chunk is padded with the symbol of zero and gives the
/// bytes that its length allows.
pub open spec fn decoding(s: Seq<u8>) -> Seq<u8>
    decreases s.len(),
{
    if s.len() < 8 {
        let count = match tail_bytes(s.len()) {
            Some(t) => t,
            None => 0,
        };
        groups_bytes(indices_of(pad_symbols(s))).take(count as int)
    } else {
        groups_bytes(indices_of(s)) + decoding(s.skip(8))
    }
}

/// The decoding of whole chunks followed by more symbols is the decoding of the chunks
/// followed by that of the symbols.
pub proof fn lemma_decoding_append(p: Seq<u8>, q: Seq<u8>)
    requires
        p.len() % 8 == 0,
    ensures
        decoding(p + q) == decoding(p) + decoding(q),
    decreases p.len(),
{
    if p.len() == 0 {
        assert(p + q =~= q);
        assert(decoding(p) =~= Seq::<u8>::empty());
    } else {
        let pq = p + q;
        assert(pq.skip(8) =~= p.skip(8) + q);
        assert(chunk_groups_value(indices_of(pq)) == chunk_groups_value(indices_of(p)));
        lemma_decoding_append(p.skip(8), q);
        assert(decoding(pq) =~= decoding(p) + decoding(q));
    }
}

/// Returns the length of the original byte sequence for the given BASE32-encoded string length.
///
/// Returns `None` if `input_len` is invalid (i.e. was not returned by
/// [`encoded_len`](crate::encoded_len)).
pub fn decoded_len(input_len: usize) -> (r: Option<usize>)
    ensures
        match decoded_len_of(input_len as nat) {
            Some(n) => r == Some(n as usize),
            None => r is None,
        },
{
    match remainder_decoded_len(input_len) {
        Some(remainder_len) => Some(input_len / 8 * 5 + remainder_len),
        None => None,
    }
}

fn remainder_decoded_len(input_len: usize) -> (r: Option<usize>)
    ensures
        match tail_bytes((input_len % 8) as nat) {
            Some(n) => r == Some(n as usize),
            None => r is None,
        },
{
    match input_len % 8 {
        0 => Some(0),
        1 => None,
        2 => Some(1),
        3 => None,
        4 => Some(2),
        5 => Some(3),
        6 => None,
        _ => Some(4),
    }
}

/// Returns `true` if the `input` is a valid BASE32-encoded string.
pub fn is_valid(input: &[u8]) -> (r: bool)
    ensures
        r == is_encoding(input@),
{
    decoded_len(input.len()).is_some() && is_valid_chunk(input)
}

fn is_valid_chunk(input: &[u8]) -> (r: bool)
    ensures
        r == all_symbols(input@),
{
    let mut i: usize = 0;
    while i < input.len()
        invariant
            i <= input@.len(),
            all_symbols(input@.take(i as int)),
        decreases input@.len() - i,
    {
        if !is_valid_char(input[i]) {
            return false;
        }
        assert(input@.take(i + 1) =~= input@.take(i as int).push(input@[i as int]));
        i += 1;
    }
    assert(input@.take(i as int) =~= input@);
    true
}

/// Pushes the first `count` bytes of the 40 bits that the eight 5-bit values `g` make.
fn push_bytes<O: Output>(
    output: &mut O,
    g: [u8; 8],
    count: usize,
    Ghost(room): Ghost<nat>,
)
    requires
        forall|j: int| 0 <= j < 8 ==> #[trigger] g@[j] < 32,
        count <= 5,
        count <= room,
        old(output).fits(room),
    ensures
        final(output).contents() == old(output).contents() + groups_bytes(g@).take(count as int),
        final(output).fits((room - count) as nat),
{
    proof {
        assert(g@[0] < 32 && g@[1] < 32 && g@[2] < 32 && g@[3] < 32);
        assert(g@[4] < 32 && g@[5] < 32 && g@[6] < 32 && g@[7] < 32);
        lemma_byte_bits(g@[0], g@[1], g@[2], g@[3], g@[4], g@[5], g@[6], g@[7]);
    }
    let bytes: [u8; 5] = [
        (g[0] << 3) | ((g[1] >> 2) & 7),
        ((g[1] & 3) << 6) | (g[2] << 1) | (g[3] >> 4),
        ((g[3] & 15) << 4) | (g[4] >> 1),
        ((g[4] & 1) << 7) | (g[5] << 2) | (g[6] >> 3),
        ((g[6] & 7) << 5) | g[7],
    ];
    let ghost expected = groups_bytes(g@);
    assert(bytes@ =~= expected);
    let mut k: usize = 0;
    while k < count
        invariant
            k <= count <= 5,
            count <= room,
            output.fits((room - k) as nat),
            output.contents() == old(output).contents() + expected.take(k as int),
            bytes@ == expected,
        decreases count - k,
    {
        proof {
            output.lemma_fits_fewer((room - k) as nat, 1);
        }
        output.push(bytes[k]);
        assert(output.fits((room - (k + 1)) as nat));
        assert(expected.take(k + 1) =~= expected.take(k as int).push(expected[k as int]));
        k += 1;
    }
}

/// Whether the `k`-th chunk of eight symbols of `s` is the first that holds a byte which is
/// not a symbol.
pub open spec fn first_bad_chunk(s: Seq<u8>, k: int) -> bool {
    let end = if 8 * k + 8 <= s.len() {
        8 * k + 8
    } else {
        s.len() as int
    };
    &&& 0 <= k
    &&& 8 * k < s.len()
    &&& all_symbols(s.take(8 * k))
    &&& !all_symbols(s.subrange(8 * k, end))
}

/// Checks the symbols of `chunk`, at most eight; when all are symbols, pushes the bytes
/// they decode to and returns `true`, else pushes nothing and returns `false`.
fn decode_chunk<O: Output>(output: &mut O, chunk: &[u8], Ghost(room): Ghost<nat>) -> (r: bool)
    requires
        chunk@.len() <= 8,
        tail_bytes(chunk@.len() % 8) is Some,
        decoding(chunk@).len() <= room,
        old(output).fits(room),
    ensures
        r == all_symbols(chunk@),
        r ==> final(output).contents() == old(output).contents() + decoding(chunk@),
        r ==> final(output).fits((room - decoding(chunk@).len()) as nat),
        !r ==> *final(output) == *old(output),
{
    if !is_valid_chunk(chunk) {
        return false;
    }
    let len = chunk.len();
    let count: usize = if len == 8 {
        5
    } else {
        match remainder_decoded_len(len) {
            Some(count) => count,
            None => 0,
        }
    };
    let mut g: [u8; 8] = [0; 8];
    let mut j: usize = 0;
    while j < len
        invariant
            j <= len == chunk@.len() <= 8,
            all_symbols(chunk@),
            forall|k: int| 0 <= k < 8 ==> #[trigger] g@[k] < 32,
            forall|k: int| 0 <= k < j ==> #[trigger] g@[k] == index_of(chunk@[k]),
            forall|k: int| j <= k < 8 ==> #[trigger] g@[k] == 0,
        decreases len - j,
    {
        g[j] = char_index(chunk[j]);
        j += 1;
    }
    let ghost c = chunk@;
    proof {
        if len == 8 {
            assert(g@ =~= indices_of(c));
            assert(c.skip(8) =~= Seq::<u8>::empty());
            assert(decoding(c.skip(8)) =~= Seq::<u8>::empty());
            assert(groups_bytes(g@).take(5) =~= decoding(c));
        } else {
            assert(g@ =~= indices_of(pad_symbols(c)));
        }
    }
    push_bytes(output, g, count, Ghost(room));
    true
}

/// Decode `input` byte sequence using BASE32 encoding and write the resulting byte sequence to
/// `output`.
///
/// The length is checked before any symbol: a length that no encoding has gives
/// [`InvalidLength`](DecodeError::InvalidLength) and leaves `output` as it was. Each chunk of
/// eight symbols is checked before its bytes are pushed, so that on
/// [`InvalidCharacter`](DecodeError::InvalidCharacter) `output` has received the bytes of the
/// chunks before the first one that holds a byte which is not a symbol, and nothing else.
#[verifier::rlimit(30)]
pub fn decode<I: Input<8>, O: Output>(input: I, output: &mut O) -> (r: Result<(), DecodeError>)
    requires
        decoded_len_of(input.rest().len()) matches Some(n) ==> old(output).fits(n),
    ensures
        decoded_len_of(input.rest().len()) is None ==> r == Err::<(), DecodeError>(
            DecodeError::InvalidLength,
        ) && *final(output) == *old(output),
        decoded_len_of(input.rest().len()) is Some && !all_symbols(input.rest()) ==> r == Err::<
            (),
            DecodeError,
        >(DecodeError::InvalidCharacter) && exists|k: int|
            first_bad_chunk(input.rest(), k) && final(output).contents() == old(output).contents()
                + decoding(#[trigger] input.rest().take(8 * k)),
        is_encoding(input.rest()) ==> r == Ok::<(), DecodeError>(()) && final(output).contents()
            == old(output).contents() + decoding(input.rest()),
        is_encoding(input.rest()) ==> final(output).contents().len() == old(
            output,
        ).contents().len() + decoded_len_of(input.rest().len())->0,
{
    let ghost s = input.rest();
    proof {
        if decoded_len_of(s.len()) is Some {
            crate::laws::lemma_decoding_len(s);
        }
    }
    let total = match decoded_len(input.remaining_len()) {
        Some(total) => total,
        None => return Err(DecodeError::InvalidLength),
    };
    let mut source = input;
    let ghost mut i: int = 0;
    loop
        invariant_except_break
            source.rest() == s.skip(i),
        invariant
            s == input.rest(),
            0 <= i <= s.len(),
            i % 8 == 0,
            all_symbols(s.take(i)),
            decoded_len_of(s.len()) == Some(total as nat),
            i / 8 * 5 <= total,
            output.fits((total - i / 8 * 5) as nat),
            output.contents() == old(output).contents() + decoding(s.take(i)),
        ensures
            source.rest() == s.skip(i),
            source.rest().len() < 8,
        decreases source.rest().len(),
    {
        match source.next_chunk() {
            Some(chunk) => {
                let ghost c = chunk@;
                proof {
                    assert(c =~= s.subrange(i, i + 8));
                    assert(decoding(c).len() == 5) by {
                        assert(c.skip(8) =~= Seq::<u8>::empty());
                        assert(decoding(c.skip(8)) =~= Seq::<u8>::empty());
                    }
                    assert((i + 8) / 8 * 5 <= total) by (nonlinear_arith)
                        requires
                            i % 8 == 0,
                            i + 8 <= s.len(),
                            total >= s.len() / 8 * 5,
                    ;
                }
                if !decode_chunk(output, chunk, Ghost((total - i / 8 * 5) as nat)) {
                    proof {
                        assert(first_bad_chunk(s, i / 8));
                        assert(s.take(8 * (i / 8)) == s.take(i));
                    }
                    return Err(DecodeError::InvalidCharacter);
                }
                proof {
                    assert(s.take(i + 8) =~= s.take(i) + c);
                    lemma_decoding_append(s.take(i), c);
                    assert(all_symbols(s.take(i + 8)));
                    assert(s.skip(i).skip(8) =~= s.skip(i + 8));
                    assert((total - i / 8 * 5) - 5 == total - (i + 8) / 8 * 5);
                    i = i + 8;
                }
            },
            None => break,
        }
    }
    let remainder = source.remainder();
    let ghost rem = remainder@;
    proof {
        assert(s.take(i) + rem =~= s);
        assert(rem.len() == s.len() % 8);
        assert(decoding(rem).len() == total - i / 8 * 5);
    }
    if !decode_chunk(output, remainder, Ghost((total - i / 8 * 5) as nat)) {
        proof {
            assert(s.subrange(i, s.len() as int) =~= rem);
            assert(first_bad_chunk(s, i / 8));
            assert(s.take(8 * (i / 8)) == s.take(i));
        }
        return Err(DecodeError::InvalidCharacter);
    }
    proof {
        lemma_decoding_append(s.take(i), rem);
        assert forall|j: int| 0 <= j < s.len() implies is_symbol(#[trigger] s[j]) by {
            if j < i {
                assert(s.take(i)[j] == s[j]);
            } else {
                assert(rem[j - i] == s[j]);
            }
        }
    }
    Ok(())
}

} // verus!
