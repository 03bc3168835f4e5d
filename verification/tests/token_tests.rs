use urso_capture::token::{charset, generate_secure_token};

fn expected_token(length: usize, alphabet: &[u8], nanos: u128, pid: u32) -> String {
    let mut seed = nanos ^ ((pid as u128) << 32) ^ (length as u128);
    let len = length.clamp(4, 128);
    let mut out = String::new();
    for _ in 0..len {
        seed ^= seed << 13;
        seed ^= seed >> 7;
        seed ^= seed << 17;
        let b = (seed & 0xFF) as u8;
        out.push(alphabet[(b as usize) % alphabet.len()] as char);
    }
    out
}

#[test]
fn alphabets() {
    assert_eq!(charset("hex").len(), 16);
    assert_eq!(charset("numeric").len(), 10);
    assert_eq!(charset("alphanumeric").len(), 62);
    assert_eq!(charset("symbols").len(), 74);
    assert_eq!(charset("whatever").len(), 62);
    assert_eq!(charset("hex").iter().collect::<String>(), "0123456789abcdef");
}

#[test]
fn length_is_clamped() {
    let t = generate_secure_token(0, "hex".to_string(), 12345, 7);
    assert_eq!(t.length, 4);
    assert_eq!(t.token.chars().count(), 4);
    let t = generate_secure_token(1000, "numeric".to_string(), 12345, 7);
    assert_eq!(t.length, 128);
    assert_eq!(t.token.len(), 128);
    let t = generate_secure_token(32, "symbols".to_string(), 12345, 7);
    assert_eq!(t.length, 32);
    assert_eq!(t.charset_size, 74);
}

#[test]
fn token_follows_the_generator() {
    let nanos: u128 = 1_725_029_869_123_456_789;
    let pid = 4242;
    let t = generate_secure_token(24, "alphanumeric".to_string(), nanos, pid);
    assert_eq!(t.token_type, "alphanumeric");
    assert_eq!(
        t.token,
        expected_token(
            24,
            b"0123456789ABCDEFGHIJKLMNOPQRSTUVWXYZabcdefghijklmnopqrstuvwxyz",
            nanos,
            pid
        )
    );
    let t = generate_secure_token(16, "hex".to_string(), nanos, pid);
    assert_eq!(t.token, expected_token(16, b"0123456789abcdef", nanos, pid));
}

#[test]
fn token_characters_come_from_the_alphabet() {
    for (i, kind) in ["hex", "numeric", "alphanumeric", "symbols", "other"].iter().enumerate() {
        let t = generate_secure_token(64, kind.to_string(), 987654321 * (i as u128 + 1), 11);
        let alphabet: String = charset(kind).iter().collect();
        assert!(t.token.chars().all(|c| alphabet.contains(c)));
    }
}

#[test]
fn same_inputs_same_token() {
    let a = generate_secure_token(20, "symbols".to_string(), 55, 1);
    let b = generate_secure_token(20, "symbols".to_string(), 55, 1);
    assert_eq!(a.token, b.token);
}
