use base32_fs::{decode, narrow_wide_chars, ArrayOutput, decoded_len, encode, encoded_len, is_valid, DecodeError, PathBufOutput, MAX_INPUT_LEN};

const CHARS: &[u8; 32] = b"0123456789abcdefghjkmnpqrstvwxyz";

/// A small deterministic generator of test inputs.
struct Gen(u64);

impl Gen {
    fn next(&mut self) -> u64 {
        let mut x = self.0;
        x ^= x << 13;
        x ^= x >> 7;
        x ^= x << 17;
        self.0 = x;
        x
    }

    fn byte(&mut self) -> u8 {
        (self.next() >> 24) as u8
    }

    fn below(&mut self, n: usize) -> usize {
        (self.next() % n as u64) as usize
    }

    fn bytes(&mut self, len: usize) -> Vec<u8> {
        (0..len).map(|_| self.byte()).collect()
    }
}

fn encode_vec(input: &[u8]) -> Vec<u8> {
    let mut encoded = Vec::with_capacity(encoded_len(input.len()));
    encode(input, &mut encoded);
    encoded
}

fn decode_vec(input: &[u8]) -> Result<Vec<u8>, DecodeError> {
    let mut decoded = Vec::new();
    decode(input, &mut decoded).map(|()| decoded)
}

fn round_trip(input: &[u8]) {
    let encoded = encode_vec(input);
    assert_eq!(encoded.len(), encoded_len(input.len()));
    assert!(!encoded.contains(&b'_'), "input = {:?}, encoded = {:?}", input, core::str::from_utf8(&encoded));
    let mut decoded: Vec<u8> = Vec::with_capacity(decoded_len(encoded.len()).unwrap());
    decode(encoded.as_slice(), &mut decoded).unwrap();
    assert_eq!(input, &decoded[..], "input = {input:?}, encoded = {:?}, decoded = {decoded:?}", core::str::from_utf8(&encoded));
}

#[test]
fn test_is_valid_chunk() {
    let mut g = Gen(0x9e37_79b9_7f4a_7c15);
    for round in 0..4000 {
        let chunk: [u8; 8] = if round % 2 == 0 {
            let mut c = [0u8; 8];
            for b in c.iter_mut() {
                *b = g.byte();
            }
            c
        } else {
            let mut c = [0u8; 8];
            for b in c.iter_mut() {
                *b = CHARS[g.below(32)];
            }
            if round % 4 == 1 {
                c[g.below(8)] = g.byte();
            }
            c
        };
        let slow = chunk.iter().all(|b| CHARS.contains(b));
        assert_eq!(slow, is_valid(&chunk), "chunk = {chunk:?}");
    }
}

#[test]
fn test_encoded_len() {
    let mut g = Gen(0x1234_5678_9abc_def1);
    let mut lens: Vec<usize> = (0..64).collect();
    lens.push(usize::MAX / 8);
    lens.push(usize::MAX / 8 - 1);
    for _ in 0..2000 {
        lens.push(g.below(usize::MAX / 8 + 1));
    }
    for input_len in lens {
        let enc_len = encoded_len(input_len);
        let dec_len = decoded_len(enc_len).unwrap();
        assert_eq!(input_len, dec_len);
    }
}

#[test]
fn test_encoded_len_no_panic() {
    let _enc_len = encoded_len(MAX_INPUT_LEN);
}

#[test]
fn test_encode() {
    let input = *b"hello";
    let mut output = Vec::with_capacity(encoded_len(5));
    encode(&input, &mut output);
    let mut decoded = Vec::with_capacity(5);
    decode(output.as_slice(), &mut decoded).unwrap();
    assert_eq!(input[..], decoded[..]);
}

#[test]
fn test_len_divisible_by_5() {
    let mut g = Gen(0x0bad_cafe_f00d_1234);
    for _ in 0..300 {
        let input_len = g.below(64) * 5;
        let input = g.bytes(input_len);
        round_trip(&input);
    }
}

#[test]
fn test_len_non_divisible_by_5() {
    let mut g = Gen(0x5555_aaaa_3333_cccc);
    for _ in 0..300 {
        let input_len = g.below(5);
        let input = g.bytes(input_len);
        round_trip(&input);
    }
}

#[test]
fn test_any_len() {
    let mut g = Gen(0x0123_4567_89ab_cdef);
    for _ in 0..500 {
        let input_len = g.below(300);
        let input = g.bytes(input_len);
        round_trip(&input);
    }
}

#[test]
fn test_decode() {
    let mut g = Gen(0xfeed_face_dead_beef);
    for _ in 0..500 {
        let input_len = g.below(300);
        let Some(output_len) = decoded_len(input_len) else {
            continue;
        };
        let input: Vec<u8> = (0..input_len).map(|_| CHARS[g.below(32)]).collect();
        let mut decoded: Vec<u8> = Vec::with_capacity(output_len);
        decode(input.as_slice(), &mut decoded).unwrap();
        assert_eq!(decoded.len(), output_len);
    }
}

#[test]
fn test_decode_zeroes() {
    for input_len in 0..300 {
        let input = vec![0_u8; input_len];
        round_trip(&input);
    }
}

#[test]
fn test_hashes() {
    let mut g = Gen(0x7777_1111_2222_9999);
    for _ in 0..20 {
        let count = g.below(50);
        let mut hashes: Vec<[u8; 32]> = (0..count)
            .map(|_| {
                let mut h = [0u8; 32];
                for b in h.iter_mut() {
                    *b = g.byte();
                }
                h
            })
            .collect();
        hashes.sort_unstable();
        hashes.dedup();
        let mut strings = Vec::with_capacity(hashes.len());
        for hash in hashes.iter() {
            let mut hash_string = Vec::with_capacity(encoded_len(32));
            encode(&hash[..], &mut hash_string);
            strings.push(hash_string);
        }
        strings.sort_unstable();
        strings.dedup();
        assert_eq!(hashes.len(), strings.len());
        let mut actual_hashes = Vec::with_capacity(hashes.len());
        for string in strings.iter() {
            let mut actual_hash = Vec::with_capacity(32);
            decode(&string[..], &mut actual_hash).unwrap();
            let mut h = [0u8; 32];
            h.copy_from_slice(&actual_hash);
            actual_hashes.push(h);
        }
        actual_hashes.sort_unstable();
        assert_eq!(hashes, actual_hashes);
    }
}

#[test]
fn test_sorting() {
    let mut g = Gen(0x3141_5926_5358_9793);
    for round in 0..1000 {
        let hash_len = g.below(40);
        let mut hashes = [g.bytes(hash_len), g.bytes(hash_len)];
        if round % 3 == 0 && hash_len > 0 {
            // Share a prefix, so that the comparison reaches deeper.
            let cut = g.below(hash_len);
            let prefix = hashes[0][..cut].to_vec();
            hashes[1][..cut].copy_from_slice(&prefix);
        }
        let expected = hashes[0].cmp(&hashes[1]);
        let encoded = [encode_vec(&hashes[0]), encode_vec(&hashes[1])];
        let actual = encoded[0].cmp(&encoded[1]);
        assert_eq!(
            expected,
            actual,
            "expected = {expected:?}, actual = {actual:?}, raw = {:?} {:?}, encoded = {} {}",
            hashes[0],
            hashes[1],
            core::str::from_utf8(&encoded[0]).unwrap(),
            core::str::from_utf8(&encoded[1]).unwrap(),
        );
    }
}

#[test]
fn empty_input_encodes_and_decodes_to_empty() {
    assert_eq!(encode_vec(&[]), b"");
    assert_eq!(decode_vec(b""), Ok(vec![]));
    assert_eq!(encoded_len(0), 0);
    assert_eq!(decoded_len(0), Some(0));
}

#[test]
fn hello_encodes_to_eight_symbols() {
    let encoded = encode_vec(b"hello");
    assert_eq!(encoded, b"d1jprv3f");
    assert_eq!(decode_vec(&encoded), Ok(b"hello".to_vec()));
}

#[test]
fn final_chunks_of_each_length() {
    assert_eq!(encode_vec(b"f"), b"cr");
    assert_eq!(encode_vec(b"fo"), b"csqg");
    assert_eq!(encode_vec(b"foo"), b"csqpy");
    assert_eq!(encode_vec(b"foob"), b"csqpyrg");
    assert_eq!(encode_vec(b"fooba"), b"csqpyrk1");
    assert_eq!(encode_vec(b"foobar"), b"csqpyrk1e8");
    assert_eq!(encode_vec(&[0xff; 5]), b"zzzzzzzz");
    assert_eq!(encode_vec(&[0, 1]), b"000g");
    assert_eq!(decode_vec(b"csqpyrk1e8"), Ok(b"foobar".to_vec()));
    assert_eq!(decode_vec(b"csqpyrg"), Ok(b"foob".to_vec()));
}

#[test]
fn decodes_a_digest_of_52_symbols() {
    let input = b"64s36d1n6rvkge9g64s36d1n6rvkge9g64s36d1n6rvkge9g64s0";
    assert_eq!(input.len(), 52);
    assert!(is_valid(input));
    let decoded = decode_vec(input).unwrap();
    assert_eq!(decoded.len(), 32);
    assert_eq!(decoded, b"12345678901234567890123456789012");
    assert_eq!(encode_vec(&decoded), input.to_vec());
}

#[test]
fn encoded_len_of_a_digest() {
    assert_eq!(encoded_len(32), 52);
    assert_eq!(encoded_len(5), 8);
    assert_eq!(encoded_len(7), 12);
    assert_eq!(decoded_len(52), Some(32));
    assert_eq!(decoded_len(12), Some(7));
}

#[test]
fn largest_input_length() {
    assert_eq!(MAX_INPUT_LEN, usize::MAX / 8 * 5 + 4);
    assert_eq!(encoded_len(MAX_INPUT_LEN), usize::MAX);
    assert_eq!(decoded_len(usize::MAX), Some(MAX_INPUT_LEN));
}

#[test]
fn malformed_lengths_are_rejected() {
    for len in 0..64usize {
        let input = vec![b'0'; len];
        let bad = matches!(len % 8, 1 | 3 | 6);
        assert_eq!(decoded_len(len).is_none(), bad);
        assert_eq!(is_valid(&input), !bad);
        let mut out = Vec::new();
        let r = decode(input.as_slice(), &mut out);
        if bad {
            assert_eq!(r, Err(DecodeError::InvalidLength));
            assert!(out.is_empty());
        } else {
            assert_eq!(r, Ok(()));
        }
    }
    // The length is checked before any symbol.
    assert_eq!(decode_vec(b"!"), Err(DecodeError::InvalidLength));
    assert_eq!(decode_vec(b"UUUUUUUUU"), Err(DecodeError::InvalidLength));
}

#[test]
fn invalid_characters_are_rejected() {
    for bad in [b'A', b'Z', b'i', b'l', b'o', b'u', b'!', b' ', b'/', b':', b'`', b'{', 0, 0x80, 0xff] {
        for pos in 0..8 {
            let mut input = *b"00000000";
            input[pos] = bad;
            assert!(!is_valid(&input));
            assert_eq!(decode_vec(&input), Err(DecodeError::InvalidCharacter));
        }
        assert_eq!(decode_vec(&[b'0', bad]), Err(DecodeError::InvalidCharacter));
    }
}

#[test]
fn invalid_character_after_a_whole_chunk_keeps_that_chunk() {
    let mut out = Vec::new();
    let r = decode(&b"d1jprv3fd1jprvUf"[..], &mut out);
    assert_eq!(r, Err(DecodeError::InvalidCharacter));
    assert_eq!(out, b"hello");
    let mut out = Vec::new();
    let r = decode(&b"d1jprv3fcI"[..], &mut out);
    assert_eq!(r, Err(DecodeError::InvalidCharacter));
    assert_eq!(out, b"hello");
}

#[test]
fn test_indices() {
    for (i, &ch) in CHARS.iter().enumerate() {
        // A symbol followed by the symbol of zero decodes to the value in the top five bits.
        let decoded = decode_vec(&[ch, b'0']).unwrap();
        assert_eq!(decoded, vec![(i as u8) << 3], "i = {i}, ch = {:?}", char::from(ch));
        assert_eq!(encode_vec(&[(i as u8) << 3]), vec![ch, b'0']);
    }
}

#[test]
fn decode_appends_to_what_the_output_holds() {
    let mut out = b"ab".to_vec();
    decode(&b"cr"[..], &mut out).unwrap();
    assert_eq!(out, b"abf");
    let mut out = b"x".to_vec();
    encode(b"f", &mut out);
    assert_eq!(out, b"xcr");
}

#[test]
fn path_buf_output_collects_an_encoding() {
    let mut out = PathBufOutput::with_capacity(encoded_len(5));
    encode(b"hello", &mut out);
    assert_eq!(out.as_bytes(), b"d1jprv3f");
    let mut out2 = PathBufOutput::new();
    decode(out.as_bytes(), &mut out2).unwrap();
    assert_eq!(out2.into_bytes(), b"hello");
    let out3 = PathBufOutput::from_bytes(b"dir/".to_vec());
    assert_eq!(out3.as_bytes(), b"dir/");
}

#[test]
fn error_messages_tell_the_kinds_apart() {
    assert_eq!(DecodeError::InvalidLength.message(), "invalid BASE32 length");
    assert_eq!(DecodeError::InvalidCharacter.message(), "invalid BASE32 character");
}

#[test]
fn array_output_holds_exactly_what_fits() {
    let mut out = ArrayOutput::<52>::new();
    assert_eq!(out.len(), 0);
    encode(b"12345678901234567890123456789012", &mut out);
    assert_eq!(out.len(), 52);
    assert_eq!(out.as_slice(), &b"64s36d1n6rvkge9g64s36d1n6rvkge9g64s36d1n6rvkge9g64s0"[..]);
    let mut decoded = ArrayOutput::<32>::new();
    decode(out.as_slice(), &mut decoded).unwrap();
    assert_eq!(decoded.as_slice(), &b"12345678901234567890123456789012"[..]);
}

#[test]
fn wide_chars_out_of_byte_range_fail_decoding() {
    let units: Vec<u16> = "d1jprv3f".encode_utf16().collect();
    let bytes = narrow_wide_chars(&units);
    assert_eq!(bytes, b"d1jprv3f");
    assert_eq!(decode_vec(&bytes), Ok(b"hello".to_vec()));
    let units: Vec<u16> = vec![0x64, 0x0131, 0x41, 0xff, 0x100];
    assert_eq!(narrow_wide_chars(&units), vec![0x64, 0xff, 0x41, 0xff, 0xff]);
    // A unit whose low byte is a symbol must not decode as that symbol.
    let units: Vec<u16> = vec![0x0130, 0x0130];
    let bytes = narrow_wide_chars(&units);
    assert_eq!(decode_vec(&bytes), Err(DecodeError::InvalidCharacter));
}
