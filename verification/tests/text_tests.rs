use urso_capture::sha256::sha256_digest;
use urso_capture::text::analyze_text;

#[test]
fn counts_of_a_mixed_text() {
    let text = "Olá Mundo\n123 !";
    let st = analyze_text(text);
    assert_eq!(st.original_length, 15);
    assert_eq!(st.byte_size, 16);
    assert_eq!(st.word_count, 4);
    assert_eq!(st.line_count, 2);
    assert_eq!(st.uppercase_count, 2);
    assert_eq!(st.lowercase_count, 6);
    assert_eq!(st.digits_count, 3);
    assert_eq!(st.whitespace_count, 3);
    assert_eq!(st.special_count, 1);
    assert_eq!(st.char_freq.len(), 256);
    assert_eq!(st.char_freq['l' as usize], 1);
    assert_eq!(st.char_freq[225], 1);
    assert_eq!(st.char_freq[' ' as usize], 2);
    assert_eq!(st.sha256_hash, sha256_digest(text.as_bytes()));
}

#[test]
fn empty_text() {
    let st = analyze_text("");
    assert_eq!(st.original_length, 0);
    assert_eq!(st.byte_size, 0);
    assert_eq!(st.word_count, 0);
    assert_eq!(st.line_count, 0);
    assert_eq!(
        st.sha256_hash,
        "e3b0c44298fc1c149afbf4c8996fb92427ae41e4649b934ca495991b7852b855"
    );
    assert!(st.char_freq.iter().all(|&f| f == 0));
}

#[test]
fn line_endings() {
    assert_eq!(analyze_text("\n").line_count, 1);
    assert_eq!(analyze_text("a\n").line_count, 1);
    assert_eq!(analyze_text("a\nb").line_count, 2);
    assert_eq!(analyze_text("a\r\nb\r\n").line_count, 2);
    assert_eq!(analyze_text("a\n\nb").line_count, 3);
}

#[test]
fn classes_partition_the_characters() {
    for text in ["ÀÉÎ õü ß 42\t\u{3000}€!", "ǅungla", "   ", "x\u{2028}y"] {
        let st = analyze_text(text);
        assert_eq!(
            st.uppercase_count
                + st.lowercase_count
                + st.digits_count
                + st.whitespace_count
                + st.special_count,
            st.original_length
        );
    }
}

#[test]
fn agrees_with_standard_library_counts() {
    let samples = [
        "The quick brown fox\njumps over\n\nthe lazy dog.",
        "  leading and trailing  ",
        "tabs\tand\u{00a0}no-break\u{2003}spaces",
        "Ünïcödé ΣΕΛΙΔΑ σελίδα 日本語 テキスト",
        "line\r\nwindows\r\n",
        "a",
        "\n\n\n",
    ];
    for text in samples {
        let st = analyze_text(text);
        assert_eq!(st.original_length, text.chars().count());
        assert_eq!(st.byte_size, text.len());
        assert_eq!(st.word_count, text.split_whitespace().count());
        assert_eq!(st.line_count, text.lines().count());
        assert_eq!(st.uppercase_count, text.chars().filter(|c| c.is_uppercase()).count());
        let mut freq = vec![0usize; 256];
        for c in text.chars() {
            if (c as u32) < 256 {
                freq[c as usize] += 1;
            }
        }
        assert_eq!(st.char_freq, freq);
    }
}
