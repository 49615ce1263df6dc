//! The token model: which characters form words, how letters are folded to
//! lower case, and how a sequence of lines decomposes into tokens.

use vstd::prelude::*;

verus! {

/// A character from which words are built: an ASCII letter or digit.
pub open spec fn is_word_char(c: char) -> bool {
    (48 <= c as u32 && c as u32 <= 57)  // '0' ..= '9'
    || (65 <= c as u32 && c as u32 <= 90)  // 'A' ..= 'Z'
    || (97 <= c as u32 && c as u32 <= 122)  // 'a' ..= 'z'
}

/// A character that may appear in a finished token: a lowercase ASCII letter
/// or an ASCII digit.
pub open spec fn is_token_char(c: char) -> bool {
    (48 <= c as u32 && c as u32 <= 57) || (97 <= c as u32 && c as u32 <= 122)
}

/// Case folding for a single character: ASCII uppercase letters map to the
/// corresponding lowercase letter; every other character is unchanged.
pub open spec fn fold_char(c: char) -> char {
    if 65 <= c as u32 && c as u32 <= 90 {
        ((c as u32 + 32) as u32) as char
    } else {
        c
    }
}

/// A finished token: non-empty, made of lowercase letters and digits only.
pub open spec fn is_token(t: Seq<char>) -> bool {
    t.len() > 0 && (forall|i: int| 0 <= i < t.len() ==> is_token_char(#[trigger] t[i]))
}

/// Folding a word character yields a character that may stand in a token.
pub proof fn lemma_fold_char_is_token_char(c: char)
    requires
        is_word_char(c),
    ensures
        is_token_char(fold_char(c)),
{
}

/// The tokens a partially accumulated word contributes when a separator (or
/// the end of the line) is reached: none if the buffer is empty, otherwise
/// the buffered word itself.
pub open spec fn flush(buf: Seq<char>) -> Seq<Seq<char>> {
    if buf.len() == 0 {
        Seq::empty()
    } else {
        seq![buf]
    }
}

/// The tokens of the rest of a line, given that `buf` holds the (already
/// folded) word characters read immediately before `s` with no separator in
/// between. Word characters extend the buffer; any other character ends the
/// current word, as does the end of the line. A token is therefore always a
/// maximal run of word characters, folded to lower case.
pub open spec fn tokens_from(buf: Seq<char>, s: Seq<char>) -> Seq<Seq<char>>
    decreases s.len(),
{
    if s.len() == 0 {
        flush(buf)
    } else if is_word_char(s[0]) {
        tokens_from(buf.push(fold_char(s[0])), s.drop_first())
    } else {
        flush(buf) + tokens_from(Seq::empty(), s.drop_first())
    }
}

/// The tokens of one line, in order of appearance.
pub open spec fn tokens_of_line(s: Seq<char>) -> Seq<Seq<char>> {
    tokens_from(Seq::empty(), s)
}

/// The tokens of a sequence of lines, in order of appearance. A token never
/// spans two lines: each line is tokenized on its own.
pub open spec fn tokens_of_lines(lines: Seq<Seq<char>>) -> Seq<Seq<char>>
    decreases lines.len(),
{
    if lines.len() == 0 {
        Seq::empty()
    } else {
        tokens_of_lines(lines.drop_last()) + tokens_of_line(lines.last())
    }
}

/// The views of a sequence of line strings.
pub open spec fn views_of(lines: Seq<String>) -> Seq<Seq<char>> {
    lines.map_values(|s: String| s@)
}

/// Classifies one character the way the tokenizer sees it: `Some(d)` when
/// `c` is an ASCII letter or digit, where `d` is `c` folded to lower case;
/// `None` when `c` is a separator.
pub fn fold_word_char(c: char) -> (r: Option<char>)
    ensures
        is_word_char(c) ==> r == Some(fold_char(c)),
        !is_word_char(c) ==> r is None,
{
    let u = c as u32;
    if 65 <= u && u <= 90 {
        let b: u8 = (u + 32) as u8;
        Some(b as char)
    } else if (48 <= u && u <= 57) || (97 <= u && u <= 122) {
        Some(c)
    } else {
        None
    }
}

/// The total number of characters across all lines.
pub open spec fn total_chars(lines: Seq<Seq<char>>) -> nat
    decreases lines.len(),
{
    if lines.len() == 0 {
        0
    } else {
        total_chars(lines.drop_last()) + lines.last().len()
    }
}

proof fn lemma_tokens_from_len(buf: Seq<char>, s: Seq<char>)
    ensures
        tokens_from(buf, s).len() <= s.len() + 1,
    decreases s.len(),
{
    if s.len() > 0 {
        if is_word_char(s[0]) {
            lemma_tokens_from_len(buf.push(fold_char(s[0])), s.drop_first());
        } else {
            lemma_tokens_from_len(Seq::empty(), s.drop_first());
        }
    }
}

/// A line never yields more tokens than it has characters.
pub proof fn lemma_tokens_of_line_len(s: Seq<char>)
    ensures
        tokens_of_line(s).len() <= s.len(),
    decreases s.len(),
{
    if s.len() > 0 {
        if is_word_char(s[0]) {
            lemma_tokens_from_len(seq![fold_char(s[0])], s.drop_first());
        } else {
            lemma_tokens_of_line_len(s.drop_first());
        }
    }
}

/// The lines never yield more token occurrences than they have characters
/// in total. A caller therefore meets the bound asked of `top_k_words`
/// whenever the total input length fits in a `usize`.
pub proof fn lemma_tokens_of_lines_len(lines: Seq<Seq<char>>)
    ensures
        tokens_of_lines(lines).len() <= total_chars(lines),
    decreases lines.len(),
{
    if lines.len() > 0 {
        lemma_tokens_of_lines_len(lines.drop_last());
        lemma_tokens_of_line_len(lines.last());
    }
}

/// Tokenizing one more line extends the token sequence of the prefix by the
/// tokens of that line.
pub proof fn lemma_tokens_of_lines_take_succ(lines: Seq<Seq<char>>, i: int)
    requires
        0 <= i < lines.len(),
    ensures
        tokens_of_lines(lines.take(i + 1)) == tokens_of_lines(lines.take(i)) + tokens_of_line(
            lines[i],
        ),
{
    let p = lines.take(i + 1);
    assert(p.drop_last() =~= lines.take(i));
    assert(p.last() == lines[i]);
}

/// A prefix of the lines never has more tokens than the whole.
pub proof fn lemma_tokens_of_lines_prefix_len(lines: Seq<Seq<char>>, i: int)
    requires
        0 <= i <= lines.len(),
    ensures
        tokens_of_lines(lines.take(i)).len() <= tokens_of_lines(lines).len(),
    decreases lines.len() - i,
{
    if i == lines.len() {
        assert(lines.take(i) =~= lines);
    } else {
        lemma_tokens_of_lines_take_succ(lines, i);
        lemma_tokens_of_lines_prefix_len(lines, i + 1);
    }
}

/// Everything `tokens_from` produces is a well-formed token, provided the
/// buffer holds only token characters.
pub proof fn lemma_tokens_from_are_tokens(buf: Seq<char>, s: Seq<char>)
    requires
        forall|i: int| 0 <= i < buf.len() ==> is_token_char(#[trigger] buf[i]),
    ensures
        forall|j: int|
            0 <= j < tokens_from(buf, s).len() ==> is_token(#[trigger] tokens_from(buf, s)[j]),
    decreases s.len(),
{
    if s.len() == 0 {
        if buf.len() > 0 {
            assert(tokens_from(buf, s)[0] == buf);
        }
    } else if is_word_char(s[0]) {
        lemma_fold_char_is_token_char(s[0]);
        let buf2 = buf.push(fold_char(s[0]));
        assert forall|i: int| 0 <= i < buf2.len() implies is_token_char(#[trigger] buf2[i]) by {
            if i < buf.len() {
                assert(buf2[i] == buf[i]);
            }
        }
        lemma_tokens_from_are_tokens(buf2, s.drop_first());
        assert forall|j: int| 0 <= j < tokens_from(buf, s).len() implies is_token(
            #[trigger] tokens_from(buf, s)[j],
        ) by {
            assert(tokens_from(buf, s) == tokens_from(buf2, s.drop_first()));
            assert(is_token(tokens_from(buf2, s.drop_first())[j]));
        }
    } else {
        lemma_tokens_from_are_tokens(Seq::empty(), s.drop_first());
        let a = flush(buf);
        let b = tokens_from(Seq::empty(), s.drop_first());
        assert forall|j: int| 0 <= j < tokens_from(buf, s).len() implies is_token(
            #[trigger] tokens_from(buf, s)[j],
        ) by {
            if j < a.len() {
                assert(tokens_from(buf, s)[j] == a[j]);
                assert(a[j] == buf);
            } else {
                assert(tokens_from(buf, s)[j] == b[j - a.len()]);
            }
        }
    }
}

/// Every token of every line is a well-formed token: non-empty, and made of
/// lowercase ASCII letters and digits only.
pub proof fn lemma_tokens_of_lines_are_tokens(lines: Seq<Seq<char>>)
    ensures
        forall|j: int|
            0 <= j < tokens_of_lines(lines).len() ==> is_token(
                #[trigger] tokens_of_lines(lines)[j],
            ),
    decreases lines.len(),
{
    if lines.len() > 0 {
        lemma_tokens_of_lines_are_tokens(lines.drop_last());
        lemma_tokens_from_are_tokens(Seq::empty(), lines.last());
        let a = tokens_of_lines(lines.drop_last());
        let b = tokens_of_line(lines.last());
        assert forall|j: int| 0 <= j < tokens_of_lines(lines).len() implies is_token(
            #[trigger] tokens_of_lines(lines)[j],
        ) by {
            if j < a.len() {
                assert(tokens_of_lines(lines)[j] == a[j]);
            } else {
                assert(tokens_of_lines(lines)[j] == b[j - a.len()]);
            }
        }
    }
}

} // verus!
