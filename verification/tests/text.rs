use schedj::text::{decimal_exec, is_white_exec, percent_encode};

#[test]
fn percent_encodes_utf8_bytes() {
    assert_eq!(percent_encode("a-Z_0.~"), "a-Z_0.~");
    assert_eq!(percent_encode("a b/ü@x"), "a%20b%2F%C3%BC%40x");
    assert_eq!(percent_encode(""), "");
}

#[test]
fn writes_decimals() {
    for n in [0i64, 7, 10, 1234567, -1, -90, i64::MAX, i64::MIN] {
        assert_eq!(decimal_exec(n), n.to_string());
    }
}

#[test]
fn white_space_matches_std() {
    for u in 0u32..=0x10FFFF {
        if let Some(c) = char::from_u32(u) {
            assert_eq!(is_white_exec(c), c.is_whitespace(), "{u:x}");
        }
    }
}

fn percent_decode(s: &str) -> Vec<u8> {
    let b = s.as_bytes();
    let mut out = Vec::new();
    let mut i = 0;
    while i < b.len() {
        if b[i] == b'%' && i + 2 < b.len() {
            let hex = std::str::from_utf8(&b[i + 1..i + 3]).unwrap();
            out.push(u8::from_str_radix(hex, 16).unwrap());
            i += 3;
        } else {
            out.push(b[i]);
            i += 1;
        }
    }
    out
}

#[test]
fn percent_decoding_gives_the_bytes_back() {
    for value in ["", "plain", "a b/ü@x", "%41 already%", "日本語 + emoji 🎉"] {
        assert_eq!(percent_decode(&percent_encode(value)), value.as_bytes());
    }
    assert_ne!(percent_encode("a b"), percent_encode("a+b"));
}
