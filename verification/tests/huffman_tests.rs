use huffman::codec::HuffmanCode;
use huffman::codec::HuffmanError;

fn attempt_compress(s: &str) {
    let encoder = HuffmanCode::new(s);
    let bin_seq = encoder.encode_string(s).unwrap();
    let decoded_str = encoder.decode_string(&bin_seq).unwrap();
    assert_eq!(s, decoded_str);
}

#[test]
fn test_compressor() {
    let strings = vec![
        "abcdefghijklmnopqrstuvwxyzABCDEFGHIJKLMNOPQRSTUVWXYZ",
        "dagoth ur was a hotep",
        "fifty liquors yeah good",
        "the quick brown fox jumped over the lazy dog",
    ];
    for s in strings {
        attempt_compress(s);
    }
}

fn codewords_are_unique(symbols: &[String]) -> bool {
    for i in 0..symbols.len() {
        for j in 0..symbols.len() {
            if i != j {
                assert!(!(symbols[i] == symbols[j]));
            }
        }
    }
    true
}

fn is_valid_prefix_code(symbols: &[String]) -> bool {
    for i in 0..symbols.len() {
        for j in 0..symbols.len() {
            if i != j {
                assert!(!symbols[i].starts_with(&symbols[j]));
            }
        }
    }
    true
}

#[test]
fn test_internals() {
    let encoder = HuffmanCode::new("dagoth ur was a hotep");
    let code1 = encoder.codewords();
    let code2 = encoder.codewords();
    assert_eq!(code1, code2);
    assert!(codewords_are_unique(&code1));
    assert!(is_valid_prefix_code(&code2));
}

#[test]
fn test_single_symbol() {
    let encoder = HuffmanCode::new("aaaa");
    let words = encoder.codewords();
    assert_eq!(words.len(), 1);
    assert_eq!(words[0], "0");
    let bits = encoder.encode_string("aaaa").unwrap();
    assert_eq!(bits, "0000");
    let decoded = encoder.decode_string(&bits).unwrap();
    assert_eq!(decoded, "aaaa");
}

#[test]
fn test_empty_input() {
    let encoder = HuffmanCode::new("");
    assert_eq!(encoder.encode_string("").unwrap(), "");
    assert_eq!(encoder.decode_string("").unwrap(), "");
    assert_eq!(
        encoder.encode_string("a"),
        Err(HuffmanError::UnknownSymbol)
    );
    assert_eq!(
        encoder.decode_string("0"),
        Err(HuffmanError::MalformedBitstring)
    );
}

#[test]
fn test_unknown_symbol() {
    let encoder = HuffmanCode::new("dagoth ur was a hotep");
    assert_eq!(
        encoder.encode_string("hotep!"),
        Err(HuffmanError::UnknownSymbol)
    );
    // no partial output on failure: the call reports the error instead
    assert!(encoder.encode_string("zzz").is_err());
}

#[test]
fn test_malformed_bitstring() {
    // frequencies: a:3, b:2, c:1 -- the earliest-minimum tie-break gives
    // a = "0", c = "10", b = "11"
    let encoder = HuffmanCode::new("aaabbc");
    assert_eq!(encoder.decode_string("10").unwrap(), "c");
    assert_eq!(encoder.decode_string("01110").unwrap(), "abc");
    assert_eq!(
        encoder.decode_string("1"),
        Err(HuffmanError::MalformedBitstring)
    );
    assert_eq!(
        encoder.decode_string("011"),
        Ok("ab".to_string())
    );
    assert_eq!(
        encoder.decode_string("01101"),
        Err(HuffmanError::MalformedBitstring)
    );
    assert_eq!(
        encoder.decode_string("x"),
        Err(HuffmanError::MalformedBitstring)
    );
}

#[test]
fn test_weighted_optimality() {
    // frequencies 1, 1, 2, 3, 5: the optimal weighted path length is
    // 1*4 + 1*4 + 2*3 + 3*2 + 5*1 = 25
    let s = "abccdddeeeee";
    let encoder = HuffmanCode::new(s);
    let bits = encoder.encode_string(s).unwrap();
    assert_eq!(bits.len(), 25);
}

#[test]
fn test_determinism() {
    let s = "the quick brown fox jumped over the lazy dog";
    let first = HuffmanCode::new(s);
    let second = HuffmanCode::new(s);
    assert_eq!(first.codewords(), second.codewords());
    assert_eq!(
        first.encode_string(s).unwrap(),
        second.encode_string(s).unwrap()
    );
}
