use vstd::prelude::*;

verus! {

/// The symbol that stands for the 5-bit value `i`: the ten digits, then the lowercase
/// letters without `i`, `l`, `o` and `u`, in increasing byte order.
pub open spec fn symbol_at(i: int) -> u8 {
    if i < 10 {
        (('0' as u8) + i) as u8
    } else if i < 18 {
        (('a' as u8) + (i - 10)) as u8
    } else if i < 20 {
        (('j' as u8) + (i - 18)) as u8
    } else if i < 22 {
        (('m' as u8) + (i - 20)) as u8
    } else if i < 27 {
        (('p' as u8) + (i - 22)) as u8
    } else {
        (('v' as u8) + (i - 27)) as u8
    }
}

/// Whether `b` is one of the 32 symbols.
pub open spec fn is_symbol(b: u8) -> bool {
    ||| ('0' as u8) <= b <= ('9' as u8)
    ||| (('a' as u8) <= b <= ('z' as u8) && b != ('i' as u8) && b != ('l' as u8) && b != ('o' as u8)
        && b != ('u' as u8))
}

/// The 5-bit value that the symbol `b` stands for.
pub open spec fn index_of(b: u8) -> int {
    if b <= ('9' as u8) {
        b - ('0' as u8)
    } else if b < ('i' as u8) {
        b - ('a' as u8) + 10
    } else if b < ('l' as u8) {
        b - ('j' as u8) + 18
    } else if b < ('o' as u8) {
        b - ('m' as u8) + 20
    } else if b < ('u' as u8) {
        b - ('p' as u8) + 22
    } else {
        b - ('v' as u8) + 27
    }
}

/// Crockford's base32 alphabet, in the order of the values the symbols stand for.
pub(crate) const CHARS: [u8; 32] = [
    ('0' as u8), ('1' as u8), ('2' as u8), ('3' as u8), ('4' as u8), ('5' as u8), ('6' as u8), ('7' as u8),
    ('8' as u8), ('9' as u8), ('a' as u8), ('b' as u8), ('c' as u8), ('d' as u8), ('e' as u8), ('f' as u8),
    ('g' as u8), ('h' as u8), ('j' as u8), ('k' as u8), ('m' as u8), ('n' as u8), ('p' as u8), ('q' as u8),
    ('r' as u8), ('s' as u8), ('t' as u8), ('v' as u8), ('w' as u8), ('x' as u8), ('y' as u8), ('z' as u8),
];

/// The symbol for the 5-bit value `i`.
pub(crate) fn symbol_for(i: u8) -> (r: u8)
    requires
        i < 32,
    ensures
        r == symbol_at(i as int),
{
    CHARS[i as usize]
}

/// The 5-bit value that the symbol `ch` stands for.
///
/// Bit 6 of a symbol tells digits (clear) from letters (set); a letter's low six bits
/// then give its value once the letters skipped before it are accounted for.
pub(crate) fn char_index(ch: u8) -> (r: u8)
    requires
        is_symbol(ch),
    ensures
        r == index_of(ch),
        r < 32,
{
    let i: u8 = (ch >> 6) & 1;
    if i == 0 {
        proof {
            assert(ch <= 57 ==> (ch >> 6) & 1 == 0) by (bit_vector);
            assert(97 <= ch <= 127 ==> (ch >> 6) & 1 == 1) by (bit_vector);
        }
        ch - ('0' as u8)
    } else {
        proof {
            assert(ch <= 57 ==> (ch >> 6) & 1 == 0) by (bit_vector);
            assert(ch >= 97 && ch <= 127 ==> ch & 0x3f == ch - 64) by (bit_vector);
        }
        let correction: u8 = if ch < ('i' as u8) {
            23
        } else if ch < ('l' as u8) {
            24
        } else if ch < ('o' as u8) {
            25
        } else if ch < ('u' as u8) {
            26
        } else {
            27
        };
        (ch & 0x3f) - correction
    }
}

/// Whether `b` is a symbol: a digit, or a lowercase letter other than `i`, `l`, `o`, `u`.
pub(crate) fn is_valid_char(b: u8) -> (r: bool)
    ensures
        r == is_symbol(b),
{
    let digit = ('0' as u8) <= b && b <= ('9' as u8);
    let lowercase = ('a' as u8) <= b && b <= ('z' as u8);
    if !digit && !lowercase {
        return false;
    }
    if b == ('i' as u8) || b == ('l' as u8) || b == ('o' as u8) || b == ('u' as u8) {
        return false;
    }
    true
}

/// Each of the 32 values has a symbol, and that symbol stands for the value again.
pub proof fn lemma_alphabet_bijection(i: int)
    requires
        0 <= i < 32,
    ensures
        is_symbol(symbol_at(i)),
        index_of(symbol_at(i)) == i,
{
}

/// Each symbol is the symbol of the value it stands for.
pub proof fn lemma_symbol_of_index(b: u8)
    requires
        is_symbol(b),
    ensures
        0 <= index_of(b) < 32,
        symbol_at(index_of(b)) == b,
{
}

/// The symbols are listed in increasing byte order.
pub proof fn lemma_symbols_increase(i: int, j: int)
    requires
        0 <= i < j < 32,
    ensures
        symbol_at(i) < symbol_at(j),
{
}

} // verus!
