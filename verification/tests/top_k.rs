use top_words::top_k_words;

fn lines(xs: &[&str]) -> Vec<String> {
    let mut v: Vec<String> = Vec::new();
    for x in xs {
        v.push(x.to_string());
    }
    v
}

fn expect(xs: &[(&str, usize)]) -> Vec<(String, usize)> {
    let mut v: Vec<(String, usize)> = Vec::new();
    for (w, c) in xs {
        v.push((w.to_string(), *c));
    }
    v
}

#[test]
fn error_logs_top_two() {
    let logs = lines(&[
        "Error: Disk full",
        "Warning: Memory low",
        "error: network down",
        "Error: Disk full",
    ]);
    assert_eq!(top_k_words(&logs, 2), expect(&[("error", 3), ("disk", 2)]));
}

#[test]
fn empty_input_gives_empty_result() {
    let logs: Vec<String> = Vec::new();
    assert_eq!(top_k_words(&logs, 5), expect(&[]));
}

#[test]
fn k_zero_gives_empty_result() {
    let logs = lines(&["a a a", "b b", "c"]);
    assert_eq!(top_k_words(&logs, 0), expect(&[]));
}

#[test]
fn frequency_dominates_alphabetical_order() {
    let logs = lines(&["Tie tie TIE", "bat Bat"]);
    assert_eq!(top_k_words(&logs, 2), expect(&[("tie", 3), ("bat", 2)]));
}

#[test]
fn digits_are_word_characters() {
    let logs = lines(&["x1 X1 x2"]);
    assert_eq!(top_k_words(&logs, 2), expect(&[("x1", 2), ("x2", 1)]));
}

#[test]
fn k_larger_than_vocabulary_returns_all() {
    let logs = lines(&["a b a"]);
    assert_eq!(top_k_words(&logs, 10), expect(&[("a", 2), ("b", 1)]));
}

#[test]
fn equal_counts_sort_alphabetically() {
    let logs = lines(&["b a c"]);
    assert_eq!(
        top_k_words(&logs, 3),
        expect(&[("a", 1), ("b", 1), ("c", 1)])
    );
}

#[test]
fn punctuation_separates_and_case_folds() {
    let logs = lines(&["Hello, hello! HELLO?world"]);
    assert_eq!(top_k_words(&logs, 3), expect(&[("hello", 3), ("world", 1)]));
}

#[test]
fn non_ascii_characters_are_separators() {
    let logs = lines(&["caf\u{e9} na\u{ef}ve caf\u{e9}"]);
    assert_eq!(
        top_k_words(&logs, 5),
        expect(&[("caf", 2), ("na", 1), ("ve", 1)])
    );
}

#[test]
fn empty_lines_produce_no_tokens() {
    let logs = lines(&["", "a", ""]);
    assert_eq!(top_k_words(&logs, 2), expect(&[("a", 1)]));
}

#[test]
fn letters_and_digits_form_one_token() {
    let logs = lines(&["abc123def abc123def"]);
    assert_eq!(top_k_words(&logs, 1), expect(&[("abc123def", 2)]));
}

#[test]
fn underscore_is_a_separator() {
    let logs = lines(&["a_b a_b"]);
    assert_eq!(top_k_words(&logs, 2), expect(&[("a", 2), ("b", 2)]));
}

#[test]
fn tokens_do_not_span_lines() {
    let logs = lines(&["ab", "ab", "abab"]);
    assert_eq!(top_k_words(&logs, 2), expect(&[("ab", 2), ("abab", 1)]));
}

#[test]
fn result_length_is_min_of_k_and_distinct() {
    let logs = lines(&["one two three two one zero"]);
    assert_eq!(top_k_words(&logs, 2).len(), 2);
    assert_eq!(top_k_words(&logs, 4).len(), 4);
    assert_eq!(top_k_words(&logs, 9).len(), 4);
    assert_eq!(top_k_words(&logs, 0).len(), 0);
}

#[test]
fn result_tokens_are_pairwise_distinct() {
    let logs = lines(&["red blue red green blue red", "green blue yellow"]);
    let r = top_k_words(&logs, 10);
    for i in 0..r.len() {
        for j in 0..r.len() {
            if i != j {
                assert_ne!(r[i].0, r[j].0);
            }
        }
    }
}

#[test]
fn result_is_sorted_by_count_then_token() {
    let logs = lines(&["cc aa bb aa cc dd", "aa ee bb"]);
    let r = top_k_words(&logs, 10);
    for w in r.windows(2) {
        let (a, b) = (&w[0], &w[1]);
        assert!(a.1 > b.1 || (a.1 == b.1 && a.0 < b.0));
    }
}

#[test]
fn result_tokens_are_lowercase_alphanumeric() {
    let logs = lines(&["Mixed-CASE tokens; with PUNCT!! and Digits99"]);
    let r = top_k_words(&logs, 10);
    assert!(!r.is_empty());
    for (w, c) in &r {
        assert!(*c >= 1);
        assert!(!w.is_empty());
        for ch in w.chars() {
            assert!(ch.is_ascii_lowercase() || ch.is_ascii_digit());
        }
    }
}

#[test]
fn larger_k_keeps_smaller_k_prefix() {
    let logs = lines(&[
        "alpha beta gamma alpha",
        "delta beta alpha gamma",
        "epsilon delta beta",
    ]);
    let small = top_k_words(&logs, 2);
    let large = top_k_words(&logs, 5);
    assert_eq!(small.len(), 2);
    assert_eq!(&large[..2], &small[..]);
}
