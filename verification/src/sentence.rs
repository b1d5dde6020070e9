//! Sentence splitting.
use vstd::prelude::*;
use crate::text::{
    chars_of, is_whitespace, lemma_trim_empty, lemma_trim_end_len, lemma_trim_start_len,
    lemma_views_push, is_ws, string_of, trim, trim_end, trim_of, trim_start, views,
};

verus! {

pub open spec fn is_terminal(c: char) -> bool {
    c == '.' || c == '!' || c == '?'
}

/// From position `j`, the last position of the run of spaces that follows it.
pub open spec fn skip_spaces(s: Seq<char>, j: int) -> int
    decreases s.len() - j,
{
    if 0 <= j && j + 1 < s.len() && s[j + 1] == ' ' {
        skip_spaces(s, j + 1)
    } else {
        j
    }
}

/// A finished sentence, if it is not blank.
pub open spec fn emit(cur: Seq<char>) -> Seq<Seq<char>> {
    if trim(cur).len() > 0 {
        seq![trim(cur)]
    } else {
        seq![]
    }
}

/// The sentences of `s` from position `i`, with `cur` collected so far.
///
/// A sentence ends at a newline, or at `.`, `!`, `?` that is followed by
/// whitespace or ends the text; the spaces after such a terminal are skipped.
pub open spec fn split_from(s: Seq<char>, i: int, cur: Seq<char>) -> Seq<Seq<char>>
    decreases s.len() - i, 0int,
{
    if i < 0 || i >= s.len() {
        emit(cur)
    } else {
        let ch = s[i];
        let cur2 = cur.push(ch);
        let next_is_space = i + 1 < s.len() && is_ws(s[i + 1]);
        let at_end = i + 1 == s.len();
        if ch == '\n' || (is_terminal(ch) && (next_is_space || at_end)) {
            let i2 = if next_is_space && ch != '\n' {
                skip_spaces(s, i + 1) + 1
            } else {
                i + 1
            };
            proof {
                lemma_skip_spaces(s, i + 1);
            }
            emit(cur2) + split_from(s, i2, seq![])
        } else {
            split_from(s, i + 1, cur2)
        }
    }
}

/// The sentences of `s`.
pub open spec fn sentences(s: Seq<char>) -> Seq<Seq<char>> {
    split_from(s, 0, seq![])
}

pub proof fn lemma_skip_spaces(s: Seq<char>, j: int)
    ensures
        0 <= j ==> j <= skip_spaces(s, j),
        0 <= j < s.len() ==> skip_spaces(s, j) < s.len(),
    decreases s.len() - j,
{
    if 0 <= j && j + 1 < s.len() && s[j + 1] == ' ' {
        lemma_skip_spaces(s, j + 1);
    }
}

/// Trimming twice is trimming once.
pub proof fn lemma_trim_idempotent(s: Seq<char>)
    ensures
        trim(trim(s)) == trim(s),
{
    let t = trim_start(s);
    lemma_trim_start_len(s);
    lemma_trim_end_len(t);
    let u = trim_end(t);
    if u.len() > 0 {
        assert(u[0] == t[0]);
    }
    assert(trim_start(u) == u);
    lemma_trim_end_len(u);
    assert(u.len() > 0 ==> u.last() == u[u.len() - 1]);
    assert(trim_end(u) == u);
}

/// Every sentence is non-blank and has no whitespace at either end.
pub proof fn lemma_sentences_trimmed(s: Seq<char>, i: int, cur: Seq<char>)
    ensures
        forall|k: int|
            0 <= k < split_from(s, i, cur).len() ==> trim(#[trigger] split_from(s, i, cur)[k])
                == split_from(s, i, cur)[k] && split_from(s, i, cur)[k].len() > 0,
    decreases s.len() - i,
{
    if i < 0 || i >= s.len() {
        lemma_trim_idempotent(cur);
        assert(split_from(s, i, cur) == emit(cur));
    } else {
        let ch = s[i];
        let cur2 = cur.push(ch);
        let next_is_space = i + 1 < s.len() && is_ws(s[i + 1]);
        let at_end = i + 1 == s.len();
        if ch == '\n' || (is_terminal(ch) && (next_is_space || at_end)) {
            let i2 = if next_is_space && ch != '\n' {
                skip_spaces(s, i + 1) + 1
            } else {
                i + 1
            };
            lemma_skip_spaces(s, i + 1);
            lemma_sentences_trimmed(s, i2, seq![]);
            lemma_trim_idempotent(cur2);
            let a = emit(cur2);
            let b = split_from(s, i2, seq![]);
            assert(split_from(s, i, cur) == a + b);
            assert forall|k: int| 0 <= k < (a + b).len() implies trim(#[trigger] (a + b)[k]) == (a
                + b)[k] && (a + b)[k].len() > 0 by {
                if k >= a.len() {
                    assert((a + b)[k] == b[k - a.len()]);
                }
            }
        } else {
            lemma_sentences_trimmed(s, i + 1, cur2);
            assert(split_from(s, i, cur) == split_from(s, i + 1, cur2));
        }
    }
}

/// Sentences are non-blank and trimmed.
pub proof fn lemma_split_sentences_trimmed(s: Seq<char>)
    ensures
        forall|k: int|
            0 <= k < sentences(s).len() ==> trim(#[trigger] sentences(s)[k]) == sentences(s)[k]
                && sentences(s)[k].len() > 0,
{
    lemma_sentences_trimmed(s, 0, seq![]);
}

/// The sentences of a text given as characters.
pub fn split_sentence_chars(chars: &[char]) -> (out: Vec<Vec<char>>)
    ensures
        views(out@) == sentences(chars@),
{
    let ghost s = chars@;
    let len = chars.len();
    let mut out: Vec<Vec<char>> = Vec::new();
    let mut current: Vec<char> = Vec::new();
    let mut i: usize = 0;
    assert(views(out@) =~= Seq::<Seq<char>>::empty());
    while i < len
        invariant
            s == chars@,
            len == chars.len(),
            i <= len,
            sentences(s) == views(out@) + split_from(s, i as int, current@),
        decreases len - i,
    {
        let ch = chars[i];
        let ghost i0 = i as int;
        let ghost cur0 = current@;
        current.push(ch);
        let is_terminal = ch == '.' || ch == '!' || ch == '?';
        let next_is_space = i + 1 < len && is_whitespace(chars[i + 1]);
        let at_end = i + 1 == len;
        if ch == '\n' || (is_terminal && (next_is_space || at_end)) {
            let trimmed = trim_of(current.as_slice());
            let ghost o0 = views(out@);
            if trimmed.len() > 0 {
                proof {
                    lemma_views_push(out@, trimmed);
                }
                out.push(trimmed);
            }
            assert(views(out@) == o0 + emit(current@));
            current = Vec::new();
            if next_is_space && ch != '\n' {
                i += 1;
                while i + 1 < len && chars[i + 1] == ' '
                    invariant
                        s == chars@,
                        len == chars.len(),
                        i0 + 1 <= i < len,
                        skip_spaces(s, i0 + 1) == skip_spaces(s, i as int),
                    decreases len - i,
                {
                    i += 1;
                }
            }
            proof {
                lemma_skip_spaces(s, i0 + 1);
                assert(views(out@) + split_from(s, i + 1, current@) =~= o0 + (emit(cur0.push(ch))
                    + split_from(s, i + 1, seq![])));
            }
        }
        i += 1;
    }
    let trimmed = trim_of(current.as_slice());
    let ghost o0 = views(out@);
    if trimmed.len() > 0 {
        proof {
            lemma_views_push(out@, trimmed);
        }
        out.push(trimmed);
    }
    assert(views(out@) =~= o0 + emit(current@));
    out
}

/// Split text into individual sentences.
///
/// Splits on `.`, `!`, `?` followed by whitespace, and on newlines; blank
/// pieces are dropped and each sentence is trimmed.
pub fn split_sentences(text: &str) -> (out: Vec<String>)
    ensures
        out@.map_values(|s: String| s@) == sentences(text@),
{
    let v = chars_of(text);
    let parts = split_sentence_chars(v.as_slice());
    let mut out: Vec<String> = Vec::new();
    let mut i: usize = 0;
    while i < parts.len()
        invariant
            i <= parts.len(),
            out@.map_values(|s: String| s@) == views(parts@).take(i as int),
        decreases parts.len() - i,
    {
        let s = string_of(parts[i].as_slice());
        let ghost o0 = out@;
        out.push(s);
        assert(views(parts@)[i as int] == parts@[i as int]@);
        assert(out@.map_values(|s: String| s@) =~= o0.map_values(|s: String| s@).push(s@));
        assert(out@.map_values(|s: String| s@) =~= views(parts@).take(i + 1));
        i += 1;
    }
    assert(views(parts@).take(parts.len() as int) =~= views(parts@));
    out
}

} // verus!
