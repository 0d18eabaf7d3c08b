//! Crockford-style BASE32 without padding, whose encoding keeps the byte order of its input.
mod alphabet;
mod array_output;
mod chunk;
mod decode;
mod encode;
mod error;
mod input;
mod laws;
mod output;
mod path_buf;

pub use self::alphabet::{
    index_of,
    is_symbol,
    lemma_alphabet_bijection,
    lemma_symbol_of_index,
    lemma_symbols_increase,
    symbol_at,
};
pub use self::array_output::ArrayOutput;
pub use self::chunk::{
    byte,
    bytes_value,
    chunk_groups,
    chunk_groups_value,
    chunk_value,
    group,
    groups_bytes,
    groups_value,
};
pub use self::decode::{
    all_symbols,
    decode,
    decoded_len,
    decoded_len_of,
    decoding,
    first_bad_chunk,
    indices_of,
    is_encoding,
    is_valid,
    lemma_decoding_append,
    pad_symbols,
    tail_bytes,
};
pub use self::encode::{
    encode,
    encoded_len,
    encoded_len_of,
    encoding,
    lemma_encoding_append,
    pad_bytes,
    symbols_of,
    tail_symbols,
    MAX_INPUT_LEN,
};
pub use self::error::DecodeError;
pub use self::input::Input;
pub use self::laws::{
    lemma_decoding_len,
    lemma_encoding_len,
    lemma_length_inverse,
    lemma_malformed_lengths,
    lemma_order_preserved,
    lemma_round_trip,
    lex_less,
};
pub use self::output::Output;
pub use self::path_buf::{narrow_unit, narrow_wide_chars, PathBufOutput};
