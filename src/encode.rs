use vstd::prelude::*;

use crate::alphabet::{symbol_at, symbol_for};
use crate::chunk::{chunk_groups, chunk_value, lemma_group_bits};
use crate::output::Output;

verus! {

/// Maximum number of bytes that can be encoded as BASE32.
pub const MAX_INPUT_LEN: usize = usize::MAX / 8 * 5 + 4;

/// How many symbols a final chunk of `r` bytes (`r < 5`) takes.
pub open spec fn tail_symbols(r: nat) -> nat {
    if r == 0 {
        0
    } else if r == 1 {
        2
    } else if r == 2 {
        4
    } else if r == 3 {
        5
    } else {
        7
    }
}

/// The length of the encoding of `n` bytes: eight symbols for each whole chunk of five
/// bytes, and the symbols of the final chunk.
pub open spec fn encoded_len_of(n: nat) -> nat {
    n / 5 * 8 + tail_symbols(n % 5)
}

/// The symbols of a sequence of 5-bit values.
pub open spec fn symbols_of(g: Seq<u8>) -> Seq<u8> {
    g.map_values(|x: u8| symbol_at(x as int))
}

/// `x` followed by zero bytes up to a length of five.
pub open spec fn pad_bytes(x: Seq<u8>) -> Seq<u8> {
    x + Seq::new((5 - x.len()) as nat, |i: int| 0u8)
}

/// The BASE32 encoding of `x`: each whole chunk of five bytes becomes the symbols of its
/// eight 5-bit groups; a final chunk of one to four bytes is padded with zero bytes and
/// gives only the groups that hold one of its bits.
pub open spec fn encoding(x: Seq<u8>) -> Seq<u8>
    decreases x.len(),
{
    if x.len() < 5 {
        symbols_of(chunk_groups(pad_bytes(x))).take(tail_symbols(x.len()) as int)
    } else {
        symbols_of(chunk_groups(x)) + encoding(x.skip(5))
    }
}

/// Returns the length of the BASE32-encoded string for the given input length.
///
/// `input_len` must not be greater than [`MAX_INPUT_LEN`](crate::MAX_INPUT_LEN).
pub fn encoded_len(input_len: usize) -> (r: usize)
    requires
        input_len <= MAX_INPUT_LEN,
    ensures
        r == encoded_len_of(input_len as nat),
{
    let tail: usize = match input_len % 5 {
        0 => 0,
        1 => 2,
        2 => 4,
        3 => 5,
        _ => 7,
    };
    proof {
        let n = input_len as int;
        assert(n / 5 <= usize::MAX / 8) by (nonlinear_arith)
            requires
                0 <= n <= usize::MAX / 8 * 5 + 4,
        ;
        assert(n / 5 == usize::MAX / 8 ==> n % 5 <= 4);
        assert(usize::MAX / 8 * 8 + 7 == usize::MAX);
    }
    input_len / 5 * 8 + tail
}

/// Pushes the symbols of the first `count` groups of the chunk `a b c d e`.
fn push_groups<O: Output>(
    output: &mut O,
    a: u8,
    b: u8,
    c: u8,
    d: u8,
    e: u8,
    count: usize,
    Ghost(room): Ghost<nat>,
)
    requires
        count <= 8,
        count <= room,
        old(output).fits(room),
    ensures
        final(output).contents() == old(output).contents() + symbols_of(
            chunk_groups(seq![a, b, c, d, e]),
        ).take(count as int),
        final(output).fits((room - count) as nat),
{
    proof {
        lemma_group_bits(a, b, c, d, e);
    }
    let groups: [u8; 8] = [
        a >> 3,
        ((a & 7) << 2) | (b >> 6),
        (b >> 1) & 31,
        ((b & 1) << 4) | (c >> 4),
        ((c & 15) << 1) | (d >> 7),
        (d >> 2) & 31,
        ((d & 3) << 3) | (e >> 5),
        e & 31,
    ];
    let ghost symbols = symbols_of(chunk_groups(seq![a, b, c, d, e]));
    assert(forall|k: int|
        0 <= k < 8 ==> #[trigger] groups@[k] < 32 && symbol_at(groups@[k] as int) == symbols[k]);
    let mut k: usize = 0;
    while k < count
        invariant
            k <= count <= 8,
            count <= room,
            output.fits((room - k) as nat),
            output.contents() == old(output).contents() + symbols.take(k as int),
            forall|j: int|
                0 <= j < 8 ==> #[trigger] groups@[j] < 32 && symbol_at(groups@[j] as int)
                    == symbols[j],
            symbols.len() == 8,
        decreases count - k,
    {
        proof {
            output.lemma_fits_fewer((room - k) as nat, 1);
        }
        output.push(symbol_for(groups[k]));
        assert(output.fits((room - (k + 1)) as nat));
        assert(symbols.take(k + 1) == symbols.take(k as int).push(symbols[k as int]));
        k += 1;
    }
}

/// The encoding of whole chunks followed by more bytes is the encoding of the chunks
/// followed by that of the bytes.
pub proof fn lemma_encoding_append(p: Seq<u8>, q: Seq<u8>)
    requires
        p.len() % 5 == 0,
    ensures
        encoding(p + q) == encoding(p) + encoding(q),
    decreases p.len(),
{
    if p.len() == 0 {
        assert(p + q =~= q);
        assert(encoding(p) =~= Seq::<u8>::empty());
    } else {
        let pq = p + q;
        assert(pq.skip(5) =~= p.skip(5) + q);
        assert(chunk_value(pq) == chunk_value(p));
        lemma_encoding_append(p.skip(5), q);
        assert(encoding(pq) =~= encoding(p) + encoding(q));
    }
}

/// Encode `input` byte sequence using BASE32 encoding and write the resulting byte sequence to
/// `output`.
pub fn encode<O: Output>(input: &[u8], output: &mut O)
    requires
        old(output).fits(encoded_len_of(input@.len())),
    ensures
        final(output).contents() == old(output).contents() + encoding(input@),
        final(output).contents().len() == old(output).contents().len() + encoded_len_of(
            input@.len(),
        ),
{
    proof {
        crate::laws::lemma_encoding_len(input@);
    }
    let n = input.len();
    let mut i: usize = 0;
    while n - i >= 5
        invariant
            i <= n == input@.len(),
            i % 5 == 0,
            output.contents() == old(output).contents() + encoding(input@.take(i as int)),
            output.fits(encoded_len_of((n - i) as nat)),
        decreases n - i,
    {
        let ghost chunk = input@.subrange(i as int, i + 5);
        proof {
            assert(input@.take(i + 5) =~= input@.take(i as int) + chunk);
            lemma_encoding_append(input@.take(i as int), chunk);
            assert(chunk.skip(5) =~= Seq::<u8>::empty());
            assert(encoding(chunk.skip(5)) =~= Seq::<u8>::empty());
            assert(encoding(chunk) =~= symbols_of(chunk_groups(chunk)));
            assert(chunk_value(chunk) == chunk_value(
                seq![input[i as int], input[i + 1], input[i + 2], input[i + 3], input[i + 4]],
            ));
            assert(encoded_len_of((n - i) as nat) == 8 + encoded_len_of((n - i - 5) as nat));
        }
        push_groups(
            output,
            input[i],
            input[i + 1],
            input[i + 2],
            input[i + 3],
            input[i + 4],
            8,
            Ghost(encoded_len_of((n - i) as nat)),
        );
        proof {
            assert(symbols_of(chunk_groups(chunk)).take(8) =~= symbols_of(chunk_groups(chunk)));
        }
        i += 5;
    }
    let r = n - i;
    let ghost rest = input@.skip(i as int);
    proof {
        assert(input@ =~= input@.take(i as int) + rest);
        lemma_encoding_append(input@.take(i as int), rest);
    }
    if r > 0 {
        let a = input[i];
        let b = if r > 1 {
            input[i + 1]
        } else {
            0
        };
        let c = if r > 2 {
            input[i + 2]
        } else {
            0
        };
        let d = if r > 3 {
            input[i + 3]
        } else {
            0
        };
        let count: usize = if r == 1 {
            2
        } else if r == 2 {
            4
        } else if r == 3 {
            5
        } else {
            7
        };
        proof {
            assert(chunk_value(pad_bytes(rest)) == chunk_value(seq![a, b, c, d, 0u8]));
        }
        push_groups(output, a, b, c, d, 0, count, Ghost(encoded_len_of(r as nat)));
    } else {
        assert(encoding(rest) =~= Seq::<u8>::empty());
    }
}

} // verus!
