//! Random-looking tokens from a xorshift generator over a chosen alphabet.

use crate::strings::push_char;
use vstd::arithmetic::div_mod::lemma_mod_bound;
use vstd::prelude::*;

verus! {

/// One step of the 128-bit xorshift generator (shifts 13, 7, 17).
pub open spec fn xorshift(s: u128) -> u128 {
    let a = s ^ (s << 13u32);
    let b = a ^ (a >> 7u32);
    b ^ (b << 17u32)
}

/// The generator state after `k` steps from `seed`.
pub open spec fn rng_state(seed: u128, k: nat) -> u128
    decreases k,
{
    if k == 0 {
        seed
    } else {
        xorshift(rng_state(seed, (k - 1) as nat))
    }
}

/// The `k`-th byte drawn (from 0): the low byte of the state after `k + 1`
/// steps.
pub open spec fn rng_byte(seed: u128, k: nat) -> u8 {
    (rng_state(seed, k + 1) & 0xffu128) as u8
}

/// The seed mixes the time in nanoseconds, the process id and the
/// requested length.
pub open spec fn token_seed(now_nanos: u128, pid: u32, length: usize) -> u128 {
    now_nanos ^ ((pid as u128) << 32u32) ^ (length as u128)
}

/// The alphabet of a token type; unknown types use letters and digits.
pub open spec fn charset_for(token_type: Seq<char>) -> Seq<char> {
    if token_type == "hex"@ {
        "0123456789abcdef"@
    } else if token_type == "numeric"@ {
        "0123456789"@
    } else if token_type == "symbols"@ {
        "0123456789ABCDEFGHIJKLMNOPQRSTUVWXYZabcdefghijklmnopqrstuvwxyz!@#$%^&*-_=+"@
    } else {
        "0123456789ABCDEFGHIJKLMNOPQRSTUVWXYZabcdefghijklmnopqrstuvwxyz"@
    }
}

/// The requested length clamped to `4..=128`.
pub open spec fn token_len(length: usize) -> nat {
    if length < 4 {
        4
    } else if length > 128 {
        128
    } else {
        length as nat
    }
}

/// The token: character `i` is the alphabet entry at the `i`-th drawn byte
/// modulo the alphabet size.
pub open spec fn token_chars(seed: u128, cs: Seq<char>, n: nat) -> Seq<char> {
    Seq::new(n, |i: int| cs[(rng_byte(seed, i as nat) as int) % (cs.len() as int)])
}

/// A generated token with what it was made from.
pub struct SecureToken {
    pub token: String,
    pub token_type: String,
    /// Number of characters of the token.
    pub length: usize,
    /// Size of the alphabet the characters were drawn from.
    pub charset_size: usize,
}

/// The characters of `s`.
fn chars_of(s: &str) -> (v: Vec<char>)
    ensures
        v@ == s@,
{
    let mut v: Vec<char> = Vec::new();
    for c in it: s.chars()
        invariant
            it.seq() == s@,
            v@ == s@.take(it.index()),
    {
        assert(s@.take(it.index() + 1) =~= v@.push(c));
        v.push(c);
    }
    assert(s@.take(s@.len() as int) =~= s@);
    v
}

/// The alphabet of `token_type`.
pub fn charset(token_type: &str) -> (cs: Vec<char>)
    ensures
        cs@ == charset_for(token_type@),
{
    let t = token_type.to_owned();
    if t == "hex".to_owned() {
        chars_of("0123456789abcdef")
    } else if t == "numeric".to_owned() {
        chars_of("0123456789")
    } else if t == "symbols".to_owned() {
        chars_of("0123456789ABCDEFGHIJKLMNOPQRSTUVWXYZabcdefghijklmnopqrstuvwxyz!@#$%^&*-_=+")
    } else {
        chars_of("0123456789ABCDEFGHIJKLMNOPQRSTUVWXYZabcdefghijklmnopqrstuvwxyz")
    }
}

/// Builds a token of `length` (clamped to `4..=128`) characters of the
/// alphabet of `token_type`, drawn with a xorshift generator seeded from
/// the time in nanoseconds, the process id and the length.
pub fn generate_secure_token(length: usize, token_type: String, now_nanos: u128, pid: u32) -> (r:
    SecureToken)
    ensures
        r.token@ == token_chars(
            token_seed(now_nanos, pid, length),
            charset_for(token_type@),
            token_len(length),
        ),
        r.token_type@ == token_type@,
        r.length == token_len(length),
        r.charset_size == charset_for(token_type@).len(),
{
    let mut seed: u128 = now_nanos ^ ((pid as u128) << 32u32) ^ (length as u128);
    let ghost seed0 = seed;
    let cs = charset(token_type.as_str());
    proof {
        reveal_strlit("0123456789abcdef");
        reveal_strlit("0123456789");
        reveal_strlit("0123456789ABCDEFGHIJKLMNOPQRSTUVWXYZabcdefghijklmnopqrstuvwxyz!@#$%^&*-_=+");
        reveal_strlit("0123456789ABCDEFGHIJKLMNOPQRSTUVWXYZabcdefghijklmnopqrstuvwxyz");
    }
    let len: usize = if length < 4 {
        4
    } else if length > 128 {
        128
    } else {
        length
    };
    let mut token = String::new();
    let mut i: usize = 0;
    while i < len
        invariant
            i <= len,
            len == token_len(length),
            cs@ == charset_for(token_type@),
            cs.len() >= 10,
            seed == rng_state(seed0, i as nat),
            token@ == token_chars(seed0, cs@, i as nat),
        decreases len - i,
    {
        seed = seed ^ (seed << 13u32);
        seed = seed ^ (seed >> 7u32);
        seed = seed ^ (seed << 17u32);
        let byte = (seed & 0xffu128) as u8;
        let idx = (byte as usize) % cs.len();
        push_char(&mut token, cs[idx]);
        proof {
            assert(token@ =~= token_chars(seed0, cs@, (i + 1) as nat));
        }
        i = i + 1;
    }
    SecureToken { token, token_type, length: len, charset_size: cs.len() }
}


/// Every character of a token belongs to its alphabet.
pub proof fn lemma_token_uses_charset(seed: u128, cs: Seq<char>, n: nat)
    requires
        cs.len() > 0,
    ensures
        token_chars(seed, cs, n).len() == n,
        forall|i: int| 0 <= i < n ==> cs.contains(#[trigger] token_chars(seed, cs, n)[i]),
{
    assert forall|i: int| 0 <= i < n implies cs.contains(#[trigger] token_chars(seed, cs, n)[i]) by {
        let k = (rng_byte(seed, i as nat) as int) % (cs.len() as int);
        lemma_mod_bound(rng_byte(seed, i as nat) as int, cs.len() as int);
        assert(token_chars(seed, cs, n)[i] == cs[k]);
    }
}

/// The numeric alphabet is the ten decimal digits '0' to '9', in order.
pub proof fn lemma_numeric_alphabet()
    ensures
        charset_for("numeric"@).len() == 10,
        forall|i: int| 0 <= i < 10 ==> #[trigger] charset_for("numeric"@)[i] as int == 48 + i,
{
    reveal_strlit("numeric");
    reveal_strlit("hex");
    reveal_strlit("0123456789");
    assert("numeric"@.len() != "hex"@.len());
}

/// The hex alphabet is '0' to '9' then 'a' to 'f'.
pub proof fn lemma_hex_alphabet()
    ensures
        charset_for("hex"@).len() == 16,
        forall|i: int| 0 <= i < 10 ==> #[trigger] charset_for("hex"@)[i] as int == 48 + i,
        forall|i: int| 10 <= i < 16 ==> #[trigger] charset_for("hex"@)[i] as int == 87 + i,
{
    reveal_strlit("hex");
    reveal_strlit("0123456789abcdef");
}

/// The alphanumeric alphabet, also used for unknown types: '0' to '9',
/// then 'A' to 'Z', then 'a' to 'z'.
pub proof fn lemma_alphanumeric_alphabet(token_type: Seq<char>)
    requires
        token_type != "hex"@,
        token_type != "numeric"@,
        token_type != "symbols"@,
    ensures
        charset_for(token_type).len() == 62,
        forall|i: int| 0 <= i < 10 ==> #[trigger] charset_for(token_type)[i] as int == 48 + i,
        forall|i: int| 10 <= i < 36 ==> #[trigger] charset_for(token_type)[i] as int == 55 + i,
        forall|i: int| 36 <= i < 62 ==> #[trigger] charset_for(token_type)[i] as int == 61 + i,
{
    reveal_strlit("0123456789ABCDEFGHIJKLMNOPQRSTUVWXYZabcdefghijklmnopqrstuvwxyz");
}

/// Every character of a numeric token is a decimal digit.
pub proof fn lemma_numeric_token_digits(seed: u128, n: nat)
    ensures
        forall|i: int|
            0 <= i < n ==> '0' <= #[trigger] token_chars(seed, charset_for("numeric"@), n)[i]
                && token_chars(seed, charset_for("numeric"@), n)[i] <= '9',
{
    lemma_numeric_alphabet();
    let cs = charset_for("numeric"@);
    lemma_token_uses_charset(seed, cs, n);
    assert forall|i: int| 0 <= i < n implies '0' <= #[trigger] token_chars(seed, cs, n)[i]
        && token_chars(seed, cs, n)[i] <= '9' by {
        let c = token_chars(seed, cs, n)[i];
        assert(cs.contains(c));
        let k = choose|k: int| 0 <= k < cs.len() && cs[k] == c;
        assert(cs[k] as int == 48 + k);
    }
}

} // verus!
