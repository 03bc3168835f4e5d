//! Character, word and line statistics of a text, with its SHA-256.

use crate::sha256::{sha256_digest, sha256_hex};
use vstd::prelude::*;
use vstd::string::StringSliceAdditionalSpecFns;

verus! {

/// What `char::is_uppercase` answers for `c` (the Unicode Uppercase property).
pub uninterp spec fn spec_is_uppercase(c: char) -> bool;

/// What `char::is_lowercase` answers for `c` (the Unicode Lowercase property).
pub uninterp spec fn spec_is_lowercase(c: char) -> bool;

/// What `char::is_whitespace` answers for `c` (the Unicode White_Space property).
pub uninterp spec fn spec_is_whitespace(c: char) -> bool;

/// Calls `char::is_uppercase`; its answer is named `spec_is_uppercase`.
#[verifier::external_body]
pub(crate) fn char_is_uppercase(c: char) -> (b: bool)
    ensures
        b == spec_is_uppercase(c),
{
    c.is_uppercase()
}

/// Calls `char::is_lowercase`; its answer is named `spec_is_lowercase`.
#[verifier::external_body]
pub(crate) fn char_is_lowercase(c: char) -> (b: bool)
    ensures
        b == spec_is_lowercase(c),
{
    c.is_lowercase()
}

/// Calls `char::is_whitespace`; its answer is named `spec_is_whitespace`.
#[verifier::external_body]
pub(crate) fn char_is_whitespace(c: char) -> (b: bool)
    ensures
        b == spec_is_whitespace(c),
{
    c.is_whitespace()
}

/// The class a character is counted in, tested in this order.
pub enum CharClass {
    Uppercase,
    Lowercase,
    Digit,
    Whitespace,
    Special,
}

pub open spec fn is_ascii_digit(c: char) -> bool {
    '0' <= c <= '9'
}

pub open spec fn class_of(c: char) -> CharClass {
    if spec_is_uppercase(c) {
        CharClass::Uppercase
    } else if spec_is_lowercase(c) {
        CharClass::Lowercase
    } else if is_ascii_digit(c) {
        CharClass::Digit
    } else if spec_is_whitespace(c) {
        CharClass::Whitespace
    } else {
        CharClass::Special
    }
}

/// How many characters of `s` fall in class `k`.
pub open spec fn count_class(s: Seq<char>, k: CharClass) -> nat
    decreases s.len(),
{
    if s.len() == 0 {
        0
    } else {
        count_class(s.drop_last(), k) + if class_of(s.last()) == k {
            1nat
        } else {
            0nat
        }
    }
}

/// How many characters of `s` have code point `b`.
pub open spec fn count_code(s: Seq<char>, b: int) -> nat
    decreases s.len(),
{
    if s.len() == 0 {
        0
    } else {
        count_code(s.drop_last(), b) + if s.last() as u32 == b {
            1nat
        } else {
            0nat
        }
    }
}

/// The number of words: maximal runs of characters that are not whitespace.
pub open spec fn word_count(s: Seq<char>) -> nat
    decreases s.len(),
{
    if s.len() == 0 {
        0
    } else {
        word_count(s.drop_last()) + if !spec_is_whitespace(s.last()) && (s.len() == 1
            || spec_is_whitespace(s[s.len() - 2])) {
            1nat
        } else {
            0nat
        }
    }
}

/// The number of lines: line feeds, plus one for a last line without one.
pub open spec fn line_count(s: Seq<char>) -> nat {
    if s.len() == 0 {
        0
    } else {
        count_code(s, 10) + if s.last() != '\n' {
            1nat
        } else {
            0nat
        }
    }
}

/// Statistics of a text, as the analysis panel shows them.
pub struct TextStats {
    /// Number of characters.
    pub original_length: usize,
    /// Number of bytes in UTF-8.
    pub byte_size: usize,
    pub word_count: usize,
    pub line_count: usize,
    pub uppercase_count: usize,
    pub lowercase_count: usize,
    pub digits_count: usize,
    pub whitespace_count: usize,
    pub special_count: usize,
    /// For each code point below 256, how often it occurs.
    pub char_freq: Vec<usize>,
    /// SHA-256 of the UTF-8 bytes, in lowercase hex.
    pub sha256_hash: String,
}

/// A UTF-8 encoding has at least one byte per character.
pub proof fn lemma_utf8_len_at_least_chars(s: Seq<char>)
    ensures
        vstd::utf8::encode_utf8(s).len() >= s.len(),
    decreases s.len(),
{
    if s.len() > 0 {
        lemma_utf8_len_at_least_chars(s.drop_first());
    }
}

/// Each character is counted in exactly one class.
pub proof fn lemma_classes_partition(s: Seq<char>)
    ensures
        count_class(s, CharClass::Uppercase) + count_class(s, CharClass::Lowercase) + count_class(
            s,
            CharClass::Digit,
        ) + count_class(s, CharClass::Whitespace) + count_class(s, CharClass::Special) == s.len(),
    decreases s.len(),
{
    if s.len() > 0 {
        lemma_classes_partition(s.drop_last());
    }
}

/// A character that is neither upper- nor lowercase is counted as a digit
/// exactly when it is one of '0' to '9'.
pub proof fn lemma_digit_class(c: char)
    requires
        !spec_is_uppercase(c),
        !spec_is_lowercase(c),
    ensures
        (class_of(c) == CharClass::Digit) == ('0' <= c && c <= '9'),
{
}

/// The digit count of a text is the number of its characters '0' to '9'
/// (which have no case).
pub proof fn lemma_digits_counted(s: Seq<char>)
    requires
        forall|i: int|
            0 <= i < s.len() && '0' <= #[trigger] s[i] && s[i] <= '9' ==> !spec_is_uppercase(s[i])
                && !spec_is_lowercase(s[i]),
    ensures
        count_class(s, CharClass::Digit) == s.filter(|c: char| '0' <= c && c <= '9').len(),
    decreases s.len(),
{
    reveal(Seq::filter);
    if s.len() > 0 {
        let t = s.drop_last();
        assert forall|i: int| 0 <= i < t.len() && '0' <= #[trigger] t[i] && t[i] <= '9' implies
            !spec_is_uppercase(t[i]) && !spec_is_lowercase(t[i]) by {
            assert(t[i] == s[i]);
        }
        lemma_digits_counted(t);
        let c = s.last();
        assert(c == s[s.len() - 1]);
        if '0' <= c && c <= '9' {
            lemma_digit_class(c);
        }
    }
}

/// Counts characters by class, words, lines and code points below 256 of
/// `text`, and hashes its UTF-8 bytes.
pub fn analyze_text(text: &str) -> (st: TextStats)
    requires
        text.spec_bytes().len() + 128 <= usize::MAX,
        text.spec_bytes().len() < 0x2000_0000_0000_0000,
    ensures
        st.original_length == text@.len(),
        st.byte_size == text.spec_bytes().len(),
        st.word_count == word_count(text@),
        st.line_count == line_count(text@),
        st.uppercase_count == count_class(text@, CharClass::Uppercase),
        st.lowercase_count == count_class(text@, CharClass::Lowercase),
        st.digits_count == count_class(text@, CharClass::Digit),
        st.whitespace_count == count_class(text@, CharClass::Whitespace),
        st.special_count == count_class(text@, CharClass::Special),
        st.char_freq.len() == 256,
        forall|b: int| 0 <= b < 256 ==> #[trigger] st.char_freq[b] == count_code(text@, b),
        st.sha256_hash@ == sha256_hex(text.spec_bytes()),
{
    let mut chars: usize = 0;
    let mut words: usize = 0;
    let mut newlines: usize = 0;
    let mut upper: usize = 0;
    let mut lower: usize = 0;
    let mut digits: usize = 0;
    let mut spaces: usize = 0;
    let mut special: usize = 0;
    let mut last: char = '\n';
    let mut prev_space = true;
    let mut freq: Vec<usize> = vec![0usize; 256];
    proof {
        lemma_utf8_len_at_least_chars(text@);
        assert forall|b: int| 0 <= b < 256 implies #[trigger] freq[b] == count_code(text@.take(0), b) by {
            assert(cloned(0usize, freq@[b]));
        }
    }
    for c in it: text.chars()
        invariant
            text@.len() + 128 <= usize::MAX,
            chars == it.index(),
            it.seq() == text@,
            words == word_count(text@.take(chars as int)),
            upper == count_class(text@.take(chars as int), CharClass::Uppercase),
            lower == count_class(text@.take(chars as int), CharClass::Lowercase),
            digits == count_class(text@.take(chars as int), CharClass::Digit),
            spaces == count_class(text@.take(chars as int), CharClass::Whitespace),
            special == count_class(text@.take(chars as int), CharClass::Special),
            newlines == count_code(text@.take(chars as int), 10),
            chars > 0 ==> last == text@[chars - 1],
            prev_space == (chars == 0 || spec_is_whitespace(text@[chars - 1])),
            freq.len() == 256,
            forall|b: int| 0 <= b < 256 ==> #[trigger] freq[b] == count_code(text@.take(chars as int), b),
            words <= chars,
            upper <= chars,
            lower <= chars,
            digits <= chars,
            spaces <= chars,
            special <= chars,
            newlines <= chars,
            forall|b: int| 0 <= b < 256 ==> #[trigger] freq[b] <= chars,
    {
        proof {
            let prefix = text@.take(chars as int + 1);
            assert(prefix.drop_last() =~= text@.take(chars as int));
            assert(prefix.last() == c);
        }
        let ws = char_is_whitespace(c);
        if !ws && prev_space {
            words = words + 1;
        }
        if char_is_uppercase(c) {
            upper = upper + 1;
        } else if char_is_lowercase(c) {
            lower = lower + 1;
        } else if c >= '0' && c <= '9' {
            digits = digits + 1;
        } else if ws {
            spaces = spaces + 1;
        } else {
            special = special + 1;
        }
        let code = c as u32;
        if code == 10 {
            newlines = newlines + 1;
        }
        let ghost old_freq = freq@;
        if code < 256 {
            let b = code as usize;
            let old_count = freq[b];
            freq.set(b, old_count + 1);
        }
        proof {
            let prefix = text@.take(chars as int + 1);
            assert forall|b: int| 0 <= b < 256 implies #[trigger] freq[b] == count_code(prefix, b) by {
                assert(count_code(prefix, b) == count_code(text@.take(chars as int), b) + if c as u32 == b {
                    1nat
                } else {
                    0nat
                });
                assert(old_freq[b] == count_code(text@.take(chars as int), b));
                if c as u32 == b {
                    assert(code == b);
                } else {
                    assert(code != b);
                }
            }
        }
        last = c;
        prev_space = ws;
        chars = chars + 1;
    }
    proof {
        assert(text@.take(chars as int) =~= text@);
    }
    let line_count = if chars == 0 {
        0
    } else if last == '\n' {
        newlines
    } else {
        newlines + 1
    };
    let hash = sha256_digest(text.as_bytes());
    TextStats {
        original_length: chars,
        byte_size: text.len(),
        word_count: words,
        line_count,
        uppercase_count: upper,
        lowercase_count: lower,
        digits_count: digits,
        whitespace_count: spaces,
        special_count: special,
        char_freq: freq,
        sha256_hash: hash,
    }
}

} // verus!
