use vstd::prelude::*;

use crate::alphabet::{is_symbol, lemma_alphabet_bijection, lemma_symbols_increase, symbol_at};
use crate::chunk::{
    chunk_groups,
    chunk_value,
    group,
    groups_bytes,
    lemma_bytes_order,
    lemma_bytes_value_bound,
    lemma_group_small,
    lemma_groups_order,
    lemma_groups_of_bytes,
    lemma_padding_groups,
};
use crate::decode::{
    all_symbols,
    decoded_len_of,
    decoding,
    indices_of,
    is_encoding,
    lemma_decoding_append,
    pad_symbols,
    tail_bytes,
};
use crate::encode::{encoded_len_of, encoding, pad_bytes, symbols_of, tail_symbols};

verus! {

/// Decoding the length of an encoding gives back the number of bytes.
pub proof fn lemma_length_inverse(n: nat)
    ensures
        decoded_len_of(encoded_len_of(n)) == Some(n),
{
    let q = n / 5;
    let t = tail_symbols(n % 5);
    assert(n == 5 * q + n % 5);
    assert((8 * q + t) / 8 == q && (8 * q + t) % 8 == t) by (nonlinear_arith)
        requires
            0 <= t < 8,
            q >= 0,
    ;
    assert(q * 8 == 8 * q);
}

/// The lengths that no encoding has are those of one, three or six symbols past the last
/// whole chunk of eight.
pub proof fn lemma_malformed_lengths(m: nat)
    ensures
        decoded_len_of(m) is None <==> (m % 8 == 1 || m % 8 == 3 || m % 8 == 6),
{
}

/// The encoding of `n` bytes has `encoded_len_of(n)` symbols.
pub proof fn lemma_encoding_len(x: Seq<u8>)
    ensures
        encoding(x).len() == encoded_len_of(x.len()),
    decreases x.len(),
{
    if x.len() >= 5 {
        lemma_encoding_len(x.skip(5));
        let n = x.len() as int;
        assert(n / 5 == (n - 5) / 5 + 1 && n % 5 == (n - 5) % 5) by (nonlinear_arith)
            requires
                n >= 5,
        ;
    }
}

/// A sequence of symbols whose length is that of an encoding decodes to as many bytes as
/// `decoded_len_of` gives.
pub proof fn lemma_decoding_len(s: Seq<u8>)
    requires
        decoded_len_of(s.len()) is Some,
    ensures
        decoding(s).len() == decoded_len_of(s.len())->0,
    decreases s.len(),
{
    let m = s.len() as int;
    assert(m >= 8 ==> m / 8 == (m - 8) / 8 + 1 && m % 8 == (m - 8) % 8) by (nonlinear_arith);
    if s.len() >= 8 {
        lemma_decoding_len(s.skip(8));
    }
}

/// Every byte of an encoding is a symbol.
proof fn lemma_encoding_symbols(x: Seq<u8>)
    ensures
        all_symbols(encoding(x)),
    decreases x.len(),
{
    let c = if x.len() < 5 {
        pad_bytes(x)
    } else {
        x
    };
    let v = chunk_value(c);
    let g = chunk_groups(c);
    assert forall|k: int| 0 <= k < 8 implies is_symbol(#[trigger] symbols_of(g)[k]) by {
        assert(g[k] == group(v, k as u64));
        lemma_group_small(v, k as u64);
        lemma_alphabet_bijection(g[k] as int);
    }
    if x.len() >= 5 {
        lemma_encoding_symbols(x.skip(5));
        let e = encoding(x);
        assert forall|i: int| 0 <= i < e.len() implies is_symbol(#[trigger] e[i]) by {
            if i >= 8 {
                assert(e[i] == encoding(x.skip(5))[i - 8]);
            }
        }
    }
}

/// The values of the symbols of 5-bit values are those values.
proof fn lemma_indices_of_symbols(g: Seq<u8>)
    requires
        forall|k: int| 0 <= k < g.len() ==> #[trigger] g[k] < 32,
    ensures
        indices_of(symbols_of(g)) == g,
{
    assert forall|k: int| 0 <= k < g.len() implies #[trigger] indices_of(symbols_of(g))[k]
        == g[k] by {
        lemma_alphabet_bijection(g[k] as int);
    }
    assert(indices_of(symbols_of(g)) =~= g);
}

/// The groups of five bytes are 5-bit values.
proof fn lemma_chunk_groups_small(c: Seq<u8>)
    ensures
        forall|k: int| 0 <= k < 8 ==> #[trigger] chunk_groups(c)[k] < 32,
        chunk_groups(c).len() == 8,
{
    let v = chunk_value(c);
    assert forall|k: int| 0 <= k < 8 implies #[trigger] chunk_groups(c)[k] < 32 by {
        assert(chunk_groups(c)[k] == group(v, k as u64));
        lemma_group_small(v, k as u64);
    }
}

/// A whole chunk decodes to its five bytes.
proof fn lemma_round_trip_chunk(x: Seq<u8>)
    requires
        x.len() >= 5,
    ensures
        decoding(symbols_of(chunk_groups(x))) == x.take(5),
{
    let g = chunk_groups(x);
    let e = symbols_of(g);
    lemma_chunk_groups_small(x);
    lemma_indices_of_symbols(g);
    assert(e.skip(8) =~= Seq::<u8>::empty());
    assert(decoding(e.skip(8)) =~= Seq::<u8>::empty());
    lemma_groups_of_bytes(x[0], x[1], x[2], x[3], x[4]);
    assert(groups_bytes(g) =~= x.take(5));
}

/// A final chunk of one to four bytes decodes to those bytes.
proof fn lemma_round_trip_tail(x: Seq<u8>)
    requires
        0 < x.len() < 5,
    ensures
        decoding(encoding(x)) == x,
{
    let p = pad_bytes(x);
    let g = chunk_groups(p);
    let t = tail_symbols(x.len());
    let e = encoding(x);
    assert(e == symbols_of(g).take(t as int));
    lemma_chunk_groups_small(p);
    lemma_padding_groups(p[0], p[1], p[2], p[3]);
    assert(indices_of(pad_symbols(e)) =~= g) by {
        assert forall|k: int| 0 <= k < 8 implies #[trigger] indices_of(pad_symbols(e))[k]
            == g[k] by {
            if k < t {
                lemma_alphabet_bijection(g[k] as int);
            } else {
                assert(pad_symbols(e)[k] == '0' as u8);
            }
        }
    }
    assert(tail_bytes(t) == Some(x.len()));
    lemma_groups_of_bytes(p[0], p[1], p[2], p[3], p[4]);
    assert(groups_bytes(g) =~= p);
    assert(decoding(e) =~= x);
}

/// Decoding the encoding of a byte sequence gives the sequence back, and the encoding is
/// one that decoding accepts.
pub proof fn lemma_round_trip(x: Seq<u8>)
    ensures
        is_encoding(encoding(x)),
        decoding(encoding(x)) == x,
    decreases x.len(),
{
    lemma_encoding_len(x);
    lemma_length_inverse(x.len());
    lemma_encoding_symbols(x);
    if x.len() >= 5 {
        let e = symbols_of(chunk_groups(x));
        lemma_round_trip(x.skip(5));
        lemma_round_trip_chunk(x);
        lemma_decoding_append(e, encoding(x.skip(5)));
        assert(x.take(5) + x.skip(5) =~= x);
    } else if x.len() == 0 {
        assert(encoding(x) =~= Seq::<u8>::empty());
        assert(decoding(encoding(x)) =~= x);
    } else {
        lemma_round_trip_tail(x);
    }
}

/// Whether `a` comes before `b` when both are compared byte by byte from the first, as
/// unsigned numbers, a proper prefix coming first.
pub open spec fn lex_less(a: Seq<u8>, b: Seq<u8>) -> bool
    decreases a.len(),
{
    if a.len() == 0 {
        b.len() > 0
    } else if b.len() == 0 {
        false
    } else if a[0] != b[0] {
        a[0] < b[0]
    } else {
        lex_less(a.skip(1), b.skip(1))
    }
}

/// No sequence comes before itself.
proof fn lemma_lex_irreflexive(a: Seq<u8>)
    ensures
        !lex_less(a, a),
    decreases a.len(),
{
    if a.len() > 0 {
        lemma_lex_irreflexive(a.skip(1));
    }
}

/// Comparing two sequences that start with parts of one length compares those parts, and
/// the rest only where they are equal.
proof fn lemma_lex_concat(p: Seq<u8>, q: Seq<u8>, r: Seq<u8>, s: Seq<u8>)
    requires
        p.len() == q.len(),
    ensures
        lex_less(p + r, q + s) == (lex_less(p, q) || (p == q && lex_less(r, s))),
    decreases p.len(),
{
    if p.len() == 0 {
        assert(p + r =~= r);
        assert(q + s =~= s);
        assert(p =~= q);
    } else {
        assert((p + r).skip(1) =~= p.skip(1) + r);
        assert((q + s).skip(1) =~= q.skip(1) + s);
        lemma_lex_concat(p.skip(1), q.skip(1), r, s);
        if p[0] == q[0] && p.skip(1) == q.skip(1) {
            assert(p =~= q) by {
                assert forall|i: int| 0 <= i < p.len() implies p[i] == q[i] by {
                    if i > 0 {
                        assert(p.skip(1)[i - 1] == q.skip(1)[i - 1]);
                    }
                }
            }
        }
        if p == q {
            lemma_lex_irreflexive(p);
        }
    }
}

/// Symbols compare as the values they stand for.
proof fn lemma_lex_symbols(g: Seq<u8>, h: Seq<u8>)
    requires
        g.len() == h.len(),
        forall|k: int| 0 <= k < g.len() ==> #[trigger] g[k] < 32,
        forall|k: int| 0 <= k < h.len() ==> #[trigger] h[k] < 32,
    ensures
        lex_less(symbols_of(g), symbols_of(h)) == lex_less(g, h),
        symbols_of(g) == symbols_of(h) <==> g == h,
    decreases g.len(),
{
    if g.len() > 0 {
        assert(symbols_of(g).skip(1) =~= symbols_of(g.skip(1)));
        assert(symbols_of(h).skip(1) =~= symbols_of(h.skip(1)));
        lemma_lex_symbols(g.skip(1), h.skip(1));
        if g[0] < h[0] {
            lemma_symbols_increase(g[0] as int, h[0] as int);
        } else if h[0] < g[0] {
            lemma_symbols_increase(h[0] as int, g[0] as int);
        }
        assert(g =~= seq![g[0]] + g.skip(1));
        assert(h =~= seq![h[0]] + h.skip(1));
        assert(symbols_of(g) =~= seq![symbol_at(g[0] as int)] + symbols_of(g.skip(1)));
        assert(symbols_of(h) =~= seq![symbol_at(h[0] as int)] + symbols_of(h.skip(1)));
    } else {
        assert(g =~= h);
        assert(symbols_of(g) =~= symbols_of(h));
    }
}

/// Five bytes compare as the 40-bit numbers they make.
proof fn lemma_lex_chunk_bytes(c: Seq<u8>, d: Seq<u8>)
    requires
        c.len() == 5,
        d.len() == 5,
    ensures
        lex_less(c, d) == (chunk_value(c) < chunk_value(d)),
{
    reveal_with_fuel(lex_less, 6);
    lemma_bytes_order(c[0], c[1], c[2], c[3], c[4], d[0], d[1], d[2], d[3], d[4]);
}

/// The groups of five bytes compare as the 40-bit numbers the bytes make.
proof fn lemma_lex_chunk_groups(c: Seq<u8>, d: Seq<u8>)
    requires
        c.len() >= 5,
        d.len() >= 5,
    ensures
        lex_less(chunk_groups(c), chunk_groups(d)) == (chunk_value(c) < chunk_value(d)),
{
    reveal_with_fuel(lex_less, 9);
    lemma_bytes_value_bound(c[0], c[1], c[2], c[3], c[4]);
    lemma_bytes_value_bound(d[0], d[1], d[2], d[3], d[4]);
    lemma_groups_order(chunk_value(c), chunk_value(d));
}

/// The symbols of two chunks of five bytes compare as the chunks do, and are equal exactly
/// when the chunks are.
proof fn lemma_lex_chunk(c: Seq<u8>, d: Seq<u8>)
    requires
        c.len() == 5,
        d.len() == 5,
    ensures
        lex_less(symbols_of(chunk_groups(c)), symbols_of(chunk_groups(d))) == lex_less(c, d),
        symbols_of(chunk_groups(c)) == symbols_of(chunk_groups(d)) <==> c == d,
{
    lemma_chunk_groups_small(c);
    lemma_chunk_groups_small(d);
    lemma_lex_symbols(chunk_groups(c), chunk_groups(d));
    lemma_lex_chunk_groups(c, d);
    lemma_lex_chunk_bytes(c, d);
    lemma_groups_of_bytes(c[0], c[1], c[2], c[3], c[4]);
    lemma_groups_of_bytes(d[0], d[1], d[2], d[3], d[4]);
    if chunk_groups(c) == chunk_groups(d) {
        assert(groups_bytes(chunk_groups(c)) =~= c);
        assert(groups_bytes(chunk_groups(d)) =~= d);
    }
}

/// The encodings of two final chunks of the same length compare as the chunks do.
proof fn lemma_lex_tail(a: Seq<u8>, b: Seq<u8>)
    requires
        0 < a.len() < 5,
        a.len() == b.len(),
    ensures
        lex_less(encoding(a), encoding(b)) == lex_less(a, b),
{
    let pa = pad_bytes(a);
    let pb = pad_bytes(b);
    let zeros = Seq::new((5 - a.len()) as nat, |i: int| 0u8);
    assert(pb =~= b + zeros);
    lemma_lex_concat(a, b, zeros, zeros);
    lemma_lex_irreflexive(zeros);
    lemma_lex_chunk(pa, pb);
    let t = tail_symbols(a.len()) as int;
    let sa = symbols_of(chunk_groups(pa));
    let sb = symbols_of(chunk_groups(pb));
    lemma_padding_groups(pa[0], pa[1], pa[2], pa[3]);
    lemma_padding_groups(pb[0], pb[1], pb[2], pb[3]);
    assert(sa.skip(t) =~= sb.skip(t));
    assert(sa =~= sa.take(t) + sa.skip(t));
    assert(sb =~= sb.take(t) + sb.skip(t));
    lemma_lex_concat(sa.take(t), sb.take(t), sa.skip(t), sb.skip(t));
    lemma_lex_irreflexive(sa.skip(t));
}

/// Encoding keeps order: of two byte sequences of one length, the one that comes first
/// byte by byte has the encoding that comes first symbol by symbol.
pub proof fn lemma_order_preserved(a: Seq<u8>, b: Seq<u8>)
    requires
        a.len() == b.len(),
    ensures
        lex_less(a, b) <==> lex_less(encoding(a), encoding(b)),
    decreases a.len(),
{
    if a.len() >= 5 {
        lemma_order_preserved(a.skip(5), b.skip(5));
        let ca = a.take(5);
        let cb = b.take(5);
        assert(chunk_groups(ca) == chunk_groups(a));
        assert(chunk_groups(cb) == chunk_groups(b));
        lemma_lex_chunk(ca, cb);
        lemma_chunk_groups_small(a);
        lemma_chunk_groups_small(b);
        lemma_lex_concat(
            symbols_of(chunk_groups(a)),
            symbols_of(chunk_groups(b)),
            encoding(a.skip(5)),
            encoding(b.skip(5)),
        );
        assert(a =~= ca + a.skip(5));
        assert(b =~= cb + b.skip(5));
        lemma_lex_concat(ca, cb, a.skip(5), b.skip(5));
    } else if a.len() == 0 {
        assert(encoding(a) =~= Seq::<u8>::empty());
        assert(encoding(b) =~= Seq::<u8>::empty());
    } else {
        lemma_lex_tail(a, b);
    }
}

} // verus!
