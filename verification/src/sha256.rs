//! SHA-256 (FIPS 180-4) of a byte string, rendered as lowercase hex.

use crate::strings::{hex_digit, hex_digit_char, push_char};
use vstd::arithmetic::div_mod::*;
use vstd::prelude::*;

verus! {

/// Addition modulo 2^32.
pub open spec fn add32(a: u32, b: u32) -> u32 {
    ((a + b) % 0x1_0000_0000) as u32
}

/// Right rotation of a 32-bit word by `n` bits, `0 < n < 32`.
pub open spec fn rotr(x: u32, n: u32) -> u32 {
    (x >> n) | (x << ((32 - n) as u32))
}

pub open spec fn ch(e: u32, f: u32, g: u32) -> u32 {
    (e & f) ^ (!e & g)
}

pub open spec fn maj(a: u32, b: u32, c: u32) -> u32 {
    (a & b) ^ (a & c) ^ (b & c)
}

pub open spec fn big_sigma0(a: u32) -> u32 {
    rotr(a, 2) ^ rotr(a, 13) ^ rotr(a, 22)
}

pub open spec fn big_sigma1(e: u32) -> u32 {
    rotr(e, 6) ^ rotr(e, 11) ^ rotr(e, 25)
}

pub open spec fn small_sigma0(x: u32) -> u32 {
    rotr(x, 7) ^ rotr(x, 18) ^ (x >> 3)
}

pub open spec fn small_sigma1(x: u32) -> u32 {
    rotr(x, 17) ^ rotr(x, 19) ^ (x >> 10)
}

/// The initial hash value H(0).
pub open spec fn sha256_h0() -> Seq<u32> {
    seq![
        0x6a09e667u32,
        0xbb67ae85u32,
        0x3c6ef372u32,
        0xa54ff53au32,
        0x510e527fu32,
        0x9b05688cu32,
        0x1f83d9abu32,
        0x5be0cd19u32,
    ]
}

/// The 64 round constants K.
pub open spec fn sha256_k() -> Seq<u32> {
    seq![
        0x428a2f98u32, 0x71374491u32, 0xb5c0fbcfu32, 0xe9b5dba5u32,
        0x3956c25bu32, 0x59f111f1u32, 0x923f82a4u32, 0xab1c5ed5u32,
        0xd807aa98u32, 0x12835b01u32, 0x243185beu32, 0x550c7dc3u32,
        0x72be5d74u32, 0x80deb1feu32, 0x9bdc06a7u32, 0xc19bf174u32,
        0xe49b69c1u32, 0xefbe4786u32, 0x0fc19dc6u32, 0x240ca1ccu32,
        0x2de92c6fu32, 0x4a7484aau32, 0x5cb0a9dcu32, 0x76f988dau32,
        0x983e5152u32, 0xa831c66du32, 0xb00327c8u32, 0xbf597fc7u32,
        0xc6e00bf3u32, 0xd5a79147u32, 0x06ca6351u32, 0x14292967u32,
        0x27b70a85u32, 0x2e1b2138u32, 0x4d2c6dfcu32, 0x53380d13u32,
        0x650a7354u32, 0x766a0abbu32, 0x81c2c92eu32, 0x92722c85u32,
        0xa2bfe8a1u32, 0xa81a664bu32, 0xc24b8b70u32, 0xc76c51a3u32,
        0xd192e819u32, 0xd6990624u32, 0xf40e3585u32, 0x106aa070u32,
        0x19a4c116u32, 0x1e376c08u32, 0x2748774cu32, 0x34b0bcb5u32,
        0x391c0cb3u32, 0x4ed8aa4au32, 0x5b9cca4fu32, 0x682e6ff3u32,
        0x748f82eeu32, 0x78a5636fu32, 0x84c87814u32, 0x8cc70208u32,
        0x90befffau32, 0xa4506cebu32, 0xbef9a3f7u32, 0xc67178f2u32,
    ]
}

/// Number of zero bytes between the 0x80 marker and the 64-bit length, so
/// that the padded message is a whole number of 64-byte blocks.
pub open spec fn zero_fill_len(len: nat) -> nat {
    ((64 - ((len + 9) % 64)) % 64) as nat
}

/// The 8 big-endian bytes of `v`.
pub open spec fn be64(v: u64) -> Seq<u8> {
    Seq::new(8, |i: int| (v >> ((56 - 8 * i) as u64)) as u8)
}

/// The padded message: the message, the byte 0x80, zero bytes, and the
/// message length in bits as a big-endian 64-bit number.
pub open spec fn sha256_pad(msg: Seq<u8>) -> Seq<u8> {
    msg + seq![0x80u8] + Seq::new(zero_fill_len(msg.len()), |i: int| 0u8) + be64(
        (msg.len() * 8) as u64,
    )
}

/// The big-endian word made of bytes `i .. i + 4` of `b`.
pub open spec fn be_word(b: Seq<u8>, i: int) -> u32 {
    ((b[i] as u32) << 24u32) | ((b[i + 1] as u32) << 16u32) | ((b[i + 2] as u32) << 8u32) | (b[i
        + 3] as u32)
}

/// Word `t` of the message schedule of a 64-byte block.
pub open spec fn schedule(block: Seq<u8>, t: nat) -> u32
    decreases t,
{
    if t < 16 {
        be_word(block, 4 * t as int)
    } else {
        add32(
            add32(
                add32(schedule(block, (t - 16) as nat), small_sigma0(schedule(block, (t - 15) as nat))),
                schedule(block, (t - 7) as nat),
            ),
            small_sigma1(schedule(block, (t - 2) as nat)),
        )
    }
}

/// One compression round applied to the working variables `s = [a..h]`.
pub open spec fn round_step(s: Seq<u32>, k: u32, w: u32) -> Seq<u32> {
    let t1 = add32(add32(add32(add32(s[7], big_sigma1(s[4])), ch(s[4], s[5], s[6])), k), w);
    let t2 = add32(big_sigma0(s[0]), maj(s[0], s[1], s[2]));
    seq![add32(t1, t2), s[0], s[1], s[2], add32(s[3], t1), s[4], s[5], s[6]]
}

/// The working variables after the first `t` rounds on `block`, from `h`.
pub open spec fn rounds(h: Seq<u32>, block: Seq<u8>, t: nat) -> Seq<u32>
    decreases t,
{
    if t == 0 {
        h
    } else {
        round_step(rounds(h, block, (t - 1) as nat), sha256_k()[t - 1], schedule(block, (t - 1) as nat))
    }
}

/// The hash value after processing one block.
pub open spec fn compress(h: Seq<u32>, block: Seq<u8>) -> Seq<u32> {
    Seq::new(8, |i: int| add32(h[i], rounds(h, block, 64)[i]))
}

/// Block `b` (64 bytes) of a padded message.
pub open spec fn block_of(padded: Seq<u8>, b: nat) -> Seq<u8> {
    padded.subrange(64 * b as int, 64 * b as int + 64)
}

/// The hash value after the first `n` blocks of a padded message.
pub open spec fn hash_blocks(padded: Seq<u8>, n: nat) -> Seq<u32>
    decreases n,
{
    if n == 0 {
        sha256_h0()
    } else {
        compress(hash_blocks(padded, (n - 1) as nat), block_of(padded, (n - 1) as nat))
    }
}

/// The SHA-256 hash value of `msg` as eight words.
pub open spec fn sha256(msg: Seq<u8>) -> Seq<u32> {
    hash_blocks(sha256_pad(msg), sha256_pad(msg).len() / 64)
}

/// Nibble `i` (from the most significant) of `w`, for `i < 8`.
pub open spec fn nibble(w: u32, i: int) -> u8 {
    ((w >> ((28 - 4 * i) as u32)) & 15u32) as u8
}

/// The eight lowercase hex digits of `w`, most significant first.
pub open spec fn word_hex(w: u32) -> Seq<char> {
    Seq::new(8, |i: int| hex_digit(nibble(w, i)))
}

/// The words of `ws` in hex, one after the other.
pub open spec fn words_hex(ws: Seq<u32>) -> Seq<char>
    decreases ws.len(),
{
    if ws.len() == 0 {
        Seq::empty()
    } else {
        words_hex(ws.drop_last()) + word_hex(ws.last())
    }
}

/// The SHA-256 digest of `msg` as 64 lowercase hex digits.
pub open spec fn sha256_hex(msg: Seq<u8>) -> Seq<char> {
    words_hex(sha256(msg))
}

fn add32_exec(a: u32, b: u32) -> (r: u32)
    ensures
        r == add32(a, b),
{
    a.wrapping_add(b)
}

fn rotr_exec(x: u32, n: u32) -> (r: u32)
    requires
        0 < n < 32,
    ensures
        r == rotr(x, n),
{
    (x >> n) | (x << (32 - n))
}


fn initial_hash() -> (h: Vec<u32>)
    ensures
        h@ == sha256_h0(),
{
    let h = vec![
        0x6a09e667u32,
        0xbb67ae85u32,
        0x3c6ef372u32,
        0xa54ff53au32,
        0x510e527fu32,
        0x9b05688cu32,
        0x1f83d9abu32,
        0x5be0cd19u32,
    ];
    assert(h@ =~= sha256_h0());
    h
}

fn round_constants() -> (k: Vec<u32>)
    ensures
        k@ == sha256_k(),
{
    let k = vec![
        0x428a2f98u32, 0x71374491u32, 0xb5c0fbcfu32, 0xe9b5dba5u32,
        0x3956c25bu32, 0x59f111f1u32, 0x923f82a4u32, 0xab1c5ed5u32,
        0xd807aa98u32, 0x12835b01u32, 0x243185beu32, 0x550c7dc3u32,
        0x72be5d74u32, 0x80deb1feu32, 0x9bdc06a7u32, 0xc19bf174u32,
        0xe49b69c1u32, 0xefbe4786u32, 0x0fc19dc6u32, 0x240ca1ccu32,
        0x2de92c6fu32, 0x4a7484aau32, 0x5cb0a9dcu32, 0x76f988dau32,
        0x983e5152u32, 0xa831c66du32, 0xb00327c8u32, 0xbf597fc7u32,
        0xc6e00bf3u32, 0xd5a79147u32, 0x06ca6351u32, 0x14292967u32,
        0x27b70a85u32, 0x2e1b2138u32, 0x4d2c6dfcu32, 0x53380d13u32,
        0x650a7354u32, 0x766a0abbu32, 0x81c2c92eu32, 0x92722c85u32,
        0xa2bfe8a1u32, 0xa81a664bu32, 0xc24b8b70u32, 0xc76c51a3u32,
        0xd192e819u32, 0xd6990624u32, 0xf40e3585u32, 0x106aa070u32,
        0x19a4c116u32, 0x1e376c08u32, 0x2748774cu32, 0x34b0bcb5u32,
        0x391c0cb3u32, 0x4ed8aa4au32, 0x5b9cca4fu32, 0x682e6ff3u32,
        0x748f82eeu32, 0x78a5636fu32, 0x84c87814u32, 0x8cc70208u32,
        0x90befffau32, 0xa4506cebu32, 0xbef9a3f7u32, 0xc67178f2u32,
    ];
    assert(k@ =~= sha256_k());
    k
}

/// The padded message, whose length is a multiple of 64.
fn pad_message(input: &[u8]) -> (msg: Vec<u8>)
    requires
        input@.len() < 0x2000_0000_0000_0000,
        input@.len() + 128 <= usize::MAX,
    ensures
        msg@ == sha256_pad(input@),
        msg@.len() % 64 == 0,
{
    let bit_len: u64 = (input.len() as u64) * 8;
    let mut msg = vstd::slice::slice_to_vec(input);
    msg.push(0x80u8);
    let ghost len = input@.len();
    let ghost prefix = msg@;
    let ghost r: int = ((len + 9) % 64) as int;
    let ghost fill: nat = zero_fill_len(len);
    proof {
        lemma_mod_bound((len + 9) as int, 64);
    }
    while (msg.len() + 8) % 64 != 0
        invariant
            prefix == input@ + seq![0x80u8],
            len == input@.len(),
            len < 0x2000_0000_0000_0000,
            len + 128 <= usize::MAX,
            r == (len + 9) % 64,
            0 <= r < 64,
            fill == zero_fill_len(len),
            prefix.len() <= msg@.len() <= prefix.len() + fill,
            msg@ == prefix + Seq::new((msg@.len() - prefix.len()) as nat, |i: int| 0u8),
        decreases prefix.len() + fill - msg@.len(),
    {
        proof {
            let c = msg@.len() - prefix.len();
            if c == fill {
                if r == 0 {
                    assert(fill == 0);
                } else {
                    assert(fill == 64 - r);
                    lemma_add_mod_noop((len + 9) as int, c as int, 64);
                    lemma_mod_self_0(64);
                }
                assert((msg.len() + 8) % 64 == 0);
            }
        }
        msg.push(0u8);
    }
    proof {
        let c = msg@.len() - prefix.len();
        if c < fill {
            assert(r != 0);
            lemma_add_mod_noop((len + 9) as int, c as int, 64);
            lemma_small_mod((r + c) as nat, 64);
            assert((len + 9 + c) % 64 != 0);
            assert(false);
        }
    }
    let ghost filled = msg@;
    let mut shift: u64 = 64;
    let mut b: usize = 0;
    while b < 8
        invariant
            b <= 8,
            shift == 64 - 8 * b,
            msg@ == filled + be64(bit_len).take(b as int),
        decreases 8 - b,
    {
        shift = shift - 8;
        msg.push((bit_len >> shift) as u8);
        proof {
            assert(be64(bit_len).take(b + 1) =~= be64(bit_len).take(b as int).push(be64(bit_len)[b as int]));
        }
        b = b + 1;
    }
    proof {
        assert(be64(bit_len).take(8) =~= be64(bit_len));
        assert(msg@ =~= sha256_pad(input@));
        assert(msg@.len() == len + 9 + fill);
        if r == 0 {
            assert(fill == 0);
        } else {
            assert(fill == 64 - r);
        }
        lemma_add_mod_noop((len + 9) as int, fill as int, 64);
        lemma_mod_self_0(64);
    }
    msg
}


/// The 64-word message schedule of the block at `msg[off .. off + 64]`.
fn message_schedule(msg: &Vec<u8>, off: usize) -> (w: Vec<u32>)
    requires
        off + 64 <= msg.len(),
    ensures
        w.len() == 64,
        forall|t: int|
            0 <= t < 64 ==> #[trigger] w[t] == schedule(
                msg@.subrange(off as int, off + 64),
                t as nat,
            ),
{
    let ghost block = msg@.subrange(off as int, off + 64);
    let mut w: Vec<u32> = Vec::with_capacity(64);
    let mut t: usize = 0;
    while t < 16
        invariant
            t <= 16,
            off + 64 <= msg.len(),
            block == msg@.subrange(off as int, off + 64),
            w.len() == t,
            forall|j: int| 0 <= j < t ==> #[trigger] w[j] == schedule(block, j as nat),
        decreases 16 - t,
    {
        let i = off + 4 * t;
        let word = ((msg[i] as u32) << 24u32) | ((msg[i + 1] as u32) << 16u32) | ((msg[i + 2]
            as u32) << 8u32) | (msg[i + 3] as u32);
        proof {
            assert(block[4 * t as int] == msg@[i as int]);
            assert(block[4 * t + 1] == msg@[i + 1]);
            assert(block[4 * t + 2] == msg@[i + 2]);
            assert(block[4 * t + 3] == msg@[i + 3]);
        }
        w.push(word);
        t = t + 1;
    }
    while t < 64
        invariant
            16 <= t <= 64,
            block == msg@.subrange(off as int, off + 64),
            w.len() == t,
            forall|j: int| 0 <= j < t ==> #[trigger] w[j] == schedule(block, j as nat),
        decreases 64 - t,
    {
        let x = w[t - 15];
        let y = w[t - 2];
        let s0 = rotr_exec(x, 7) ^ rotr_exec(x, 18) ^ (x >> 3u32);
        let s1 = rotr_exec(y, 17) ^ rotr_exec(y, 19) ^ (y >> 10u32);
        let next = add32_exec(add32_exec(add32_exec(w[t - 16], s0), w[t - 7]), s1);
        proof {
            assert(w[t - 16] == schedule(block, (t - 16) as nat));
            assert(w[t - 15] == schedule(block, (t - 15) as nat));
            assert(w[t - 7] == schedule(block, (t - 7) as nat));
            assert(w[t - 2] == schedule(block, (t - 2) as nat));
        }
        w.push(next);
        t = t + 1;
    }
    w
}

/// The hash value after processing the block at `msg[off .. off + 64]`.
fn compress_block(h: &Vec<u32>, msg: &Vec<u8>, off: usize, k: &Vec<u32>) -> (out: Vec<u32>)
    requires
        h.len() == 8,
        k@ == sha256_k(),
        off + 64 <= msg.len(),
    ensures
        out@ == compress(h@, msg@.subrange(off as int, off + 64)),
{
    let ghost block = msg@.subrange(off as int, off + 64);
    let w = message_schedule(msg, off);
    let mut a = h[0];
    let mut b = h[1];
    let mut c = h[2];
    let mut d = h[3];
    let mut e = h[4];
    let mut f = h[5];
    let mut g = h[6];
    let mut hh = h[7];
    assert(seq![a, b, c, d, e, f, g, hh] =~= rounds(h@, block, 0));
    let mut i: usize = 0;
    while i < 64
        invariant
            i <= 64,
            h.len() == 8,
            k@ == sha256_k(),
            w.len() == 64,
            forall|t: int| 0 <= t < 64 ==> #[trigger] w[t] == schedule(block, t as nat),
            seq![a, b, c, d, e, f, g, hh] == rounds(h@, block, i as nat),
        decreases 64 - i,
    {
        let s1 = rotr_exec(e, 6) ^ rotr_exec(e, 11) ^ rotr_exec(e, 25);
        let chv = (e & f) ^ ((!e) & g);
        let temp1 = add32_exec(add32_exec(add32_exec(add32_exec(hh, s1), chv), k[i]), w[i]);
        let s0 = rotr_exec(a, 2) ^ rotr_exec(a, 13) ^ rotr_exec(a, 22);
        let majv = (a & b) ^ (a & c) ^ (b & c);
        let temp2 = add32_exec(s0, majv);
        let ghost prev = seq![a, b, c, d, e, f, g, hh];
        hh = g;
        g = f;
        f = e;
        e = add32_exec(d, temp1);
        d = c;
        c = b;
        b = a;
        a = add32_exec(temp1, temp2);
        proof {
            assert(w[i as int] == schedule(block, i as nat));
            assert(seq![a, b, c, d, e, f, g, hh] =~= round_step(prev, sha256_k()[i as int], w[i as int]));
        }
        i = i + 1;
    }
    let out = vec![
        add32_exec(h[0], a),
        add32_exec(h[1], b),
        add32_exec(h[2], c),
        add32_exec(h[3], d),
        add32_exec(h[4], e),
        add32_exec(h[5], f),
        add32_exec(h[6], g),
        add32_exec(h[7], hh),
    ];
    assert(out@ =~= compress(h@, block));
    out
}


/// The words of `h` as lowercase hex, eight digits per word.
fn words_to_hex(h: &Vec<u32>) -> (s: String)
    ensures
        s@ == words_hex(h@),
{
    let mut s = String::new();
    let mut wi: usize = 0;
    assert(h@.take(0) =~= Seq::<u32>::empty());
    while wi < h.len()
        invariant
            wi <= h.len(),
            s@ == words_hex(h@.take(wi as int)),
        decreases h.len() - wi,
    {
        let w = h[wi];
        let ghost before = s@;
        let mut j: usize = 0;
        while j < 8
            invariant
                j <= 8,
                s@ == before + word_hex(w).take(j as int),
            decreases 8 - j,
        {
            let shift: u32 = 28 - 4 * (j as u32);
            let d = ((w >> shift) & 15u32) as u8;
            assert(((w >> shift) & 15u32) < 16) by (bit_vector);
            let ch = hex_digit_char(d);
            push_char(&mut s, ch);
            proof {
                assert(d == nibble(w, j as int));
                assert(word_hex(w).take(j + 1) =~= word_hex(w).take(j as int).push(ch));
            }
            j = j + 1;
        }
        proof {
            assert(word_hex(w).take(8) =~= word_hex(w));
            let next = h@.take(wi + 1);
            assert(next.drop_last() =~= h@.take(wi as int));
            assert(next.last() == w);
        }
        wi = wi + 1;
    }
    assert(h@.take(h.len() as int) =~= h@);
    s
}

/// SHA-256 of `input`, as 64 lowercase hexadecimal digits.
pub fn sha256_digest(input: &[u8]) -> (digest: String)
    requires
        input@.len() < 0x2000_0000_0000_0000,
        input@.len() + 128 <= usize::MAX,
    ensures
        digest@ == sha256_hex(input@),
        digest@.len() == 64,
        forall|i: int| 0 <= i < 64 ==> is_lower_hex_char(#[trigger] digest@[i]),
{
    let k = round_constants();
    let msg = pad_message(input);
    let mut h = initial_hash();
    let nblocks = msg.len() / 64;
    proof {
        lemma_fundamental_div_mod(msg.len() as int, 64);
    }
    let mut bi: usize = 0;
    while bi < nblocks
        invariant
            bi <= nblocks,
            nblocks * 64 == msg.len(),
            nblocks == msg@.len() / 64,
            msg@ == sha256_pad(input@),
            k@ == sha256_k(),
            h.len() == 8,
            h@ == hash_blocks(msg@, bi as nat),
        decreases nblocks - bi,
    {
        proof {
            assert(bi * 64 + 64 <= nblocks * 64) by (nonlinear_arith)
                requires
                    bi < nblocks,
            ;
        }
        let off = bi * 64;
        h = compress_block(&h, &msg, off, &k);
        bi = bi + 1;
    }
    let digest = words_to_hex(&h);
    proof {
        lemma_words_hex_len(h@);
        lemma_words_hex_digits(h@);
    }
    digest
}

/// Every word contributes eight digits.
pub proof fn lemma_words_hex_len(ws: Seq<u32>)
    ensures
        words_hex(ws).len() == 8 * ws.len(),
    decreases ws.len(),
{
    if ws.len() > 0 {
        lemma_words_hex_len(ws.drop_last());
    }
}


/// Masking with 15 leaves a value below 16.
proof fn lemma_low_nibble(x: u32)
    ensures
        (x & 15u32) < 16,
{
    assert((x & 15u32) < 16) by (bit_vector);
}

/// `c` is one of `0-9`, `a-f`.
pub open spec fn is_lower_hex_char(c: char) -> bool {
    ('0' <= c <= '9') || ('a' <= c <= 'f')
}

/// Hex renderings consist of lowercase hex digits only.
pub proof fn lemma_words_hex_digits(ws: Seq<u32>)
    ensures
        forall|i: int| 0 <= i < words_hex(ws).len() ==> is_lower_hex_char(#[trigger] words_hex(ws)[i]),
    decreases ws.len(),
{
    if ws.len() > 0 {
        lemma_words_hex_digits(ws.drop_last());
        let w = ws.last();
        assert forall|j: int| 0 <= j < 8 implies is_lower_hex_char(#[trigger] word_hex(w)[j]) by {
            let d = nibble(w, j);
            lemma_low_nibble(w >> ((28 - 4 * j) as u32));
            assert(d < 16);
        }
        let front = words_hex(ws.drop_last());
        assert forall|i: int| 0 <= i < words_hex(ws).len() implies is_lower_hex_char(
            #[trigger] words_hex(ws)[i],
        ) by {
            if i < front.len() {
                assert(words_hex(ws)[i] == front[i]);
            } else {
                assert(words_hex(ws)[i] == word_hex(w)[i - front.len()]);
            }
        }
    }
}

} // verus!
