//! Harvesting identifier tokens from a source excerpt.
//!
//! A token is a maximal run of word characters (letters, digits,
//! underscores) that begins with a letter or an underscore and spans at
//! least two characters.  Tokens shorter than the configured minimum
//! length, and tokens on the ignore list, are dropped; order and
//! duplicates are kept.

use vstd::prelude::*;

verus! {

/// A word character: an ASCII letter, digit or underscore.
pub open spec fn is_word_char(c: char) -> bool {
    ('a' as u32 <= c as u32 && c as u32 <= 'z' as u32) || ('A' as u32 <= c as u32 && c as u32
        <= 'Z' as u32) || ('0' as u32 <= c as u32 && c as u32 <= '9' as u32) || c == '_'
}

/// A character that may open a token: an ASCII letter or underscore.
pub open spec fn is_word_start(c: char) -> bool {
    ('a' as u32 <= c as u32 && c as u32 <= 'z' as u32) || ('A' as u32 <= c as u32 && c as u32
        <= 'Z' as u32) || c == '_'
}

/// The end of the word-character run beginning at `i`.
pub open spec fn word_end(t: Seq<char>, i: int) -> int
    decreases t.len() - i,
{
    if i < 0 || i >= t.len() {
        i
    } else if is_word_char(t[i]) {
        word_end(t, i + 1)
    } else {
        i
    }
}

/// The run end stays within the text, and a word character advances it.
pub proof fn lemma_word_end(t: Seq<char>, i: int)
    requires
        0 <= i <= t.len(),
    ensures
        i <= word_end(t, i) <= t.len(),
        i < t.len() && is_word_char(t[i]) ==> i + 1 <= word_end(t, i),
        forall|j: int| i <= j < word_end(t, i) ==> is_word_char(#[trigger] t[j]),
        word_end(t, i) < t.len() ==> !is_word_char(t[word_end(t, i)]),
    decreases t.len() - i,
{
    if i < t.len() && is_word_char(t[i]) {
        lemma_word_end(t, i + 1);
    }
}

/// The tokens of `t` from position `i` on, in order of appearance.
pub open spec fn tokens_from(t: Seq<char>, i: int) -> Seq<Seq<char>>
    decreases t.len() - i,
    via tokens_from_decreases
{
    if i < 0 || i >= t.len() {
        Seq::empty()
    } else if !is_word_char(t[i]) {
        tokens_from(t, i + 1)
    } else {
        let e = word_end(t, i);
        if is_word_start(t[i]) && e - i >= 2 {
            seq![t.subrange(i, e)] + tokens_from(t, e)
        } else {
            tokens_from(t, e)
        }
    }
}

#[via_fn]
proof fn tokens_from_decreases(t: Seq<char>, i: int) {
    if 0 <= i && i < t.len() && is_word_char(t[i]) {
        lemma_word_end(t, i);
    }
}

/// Whether a token survives the filter: long enough and not ignored.
pub open spec fn keep_token(tok: Seq<char>, min_len: int, ignored: Seq<Seq<char>>) -> bool {
    tok.len() >= min_len && !ignored.contains(tok)
}

/// The tokens of `toks` that survive the filter, order kept.
pub open spec fn kept_tokens(toks: Seq<Seq<char>>, min_len: int, ignored: Seq<Seq<char>>) -> Seq<
    Seq<char>,
>
    decreases toks.len(),
{
    if toks.len() == 0 {
        Seq::empty()
    } else {
        let front = kept_tokens(toks.drop_last(), min_len, ignored);
        if keep_token(toks.last(), min_len, ignored) {
            front.push(toks.last())
        } else {
            front
        }
    }
}

/// The filtered tokens of a whole excerpt.
pub open spec fn excerpt_keywords(t: Seq<char>, min_len: int, ignored: Seq<Seq<char>>) -> Seq<
    Seq<char>,
> {
    kept_tokens(tokens_from(t, 0), min_len, ignored)
}

/// Whether `c` is a word character.
fn word_char(c: char) -> (b: bool)
    ensures
        b == is_word_char(c),
{
    let u = c as u32;
    (97 <= u && u <= 122) || (65 <= u && u <= 90) || (48 <= u && u <= 57) || c == '_'
}

/// Whether `c` may open a token.
fn word_start(c: char) -> (b: bool)
    ensures
        b == is_word_start(c),
{
    let u = c as u32;
    (97 <= u && u <= 122) || (65 <= u && u <= 90) || c == '_'
}

/// Whether the character of `s` at `i` is a word character.
fn word_char_at(s: &str, i: usize) -> (b: bool)
    requires
        i < s@.len(),
    ensures
        b == is_word_char(s@[i as int]),
{
    word_char(s.get_char(i))
}

/// Whether `tok` appears in the ignore list.
fn is_ignored(tok: &String, ignored: &Vec<String>) -> (b: bool)
    ensures
        b == ignored.deep_view().contains(tok@),
{
    let mut j: usize = 0;
    while j < ignored.len()
        invariant
            j <= ignored.len(),
            forall|q: int| 0 <= q < j ==> ignored.deep_view()[q] != tok@,
        decreases ignored.len() - j,
    {
        if ignored[j] == *tok {
            assert(ignored.deep_view()[j as int] == tok@);
            return true;
        }
        proof {
            assert(ignored.deep_view()[j as int] == ignored@[j as int]@);
        }
        j = j + 1;
    }
    assert(!ignored.deep_view().contains(tok@)) by {
        if ignored.deep_view().contains(tok@) {
            let q = choose|q: int|
                0 <= q < ignored.deep_view().len() && ignored.deep_view()[q] == tok@;
        }
    }
    false
}

/// The interesting keywords of `text`: its identifier tokens of at least
/// `keyword_len` characters that are not in `ignored_keywords`, in order
/// of appearance, duplicates kept.
pub fn make_keywords(text: &str, keyword_len: usize, ignored_keywords: &Vec<String>) -> (r: Vec<
    String,
>)
    ensures
        r.deep_view() == excerpt_keywords(text@, keyword_len as int, ignored_keywords.deep_view()),
{
    let ghost t = text@;
    let ghost ignored = ignored_keywords.deep_view();
    let n = text.unicode_len();
    let mut r: Vec<String> = Vec::new();
    let ghost mut toks_done: Seq<Seq<char>> = Seq::empty();
    let mut i: usize = 0;
    proof {
        assert(r.deep_view() =~= kept_tokens(toks_done, keyword_len as int, ignored));
    }
    while i < n
        invariant
            i <= n,
            n == t.len(),
            t == text@,
            ignored == ignored_keywords.deep_view(),
            tokens_from(t, 0) == toks_done + tokens_from(t, i as int),
            r.deep_view() == kept_tokens(toks_done, keyword_len as int, ignored),
        decreases n - i,
    {
        if !word_char_at(text, i) {
            proof {
                assert(tokens_from(t, i as int) == tokens_from(t, i as int + 1));
            }
            i = i + 1;
        } else {
            // Find the end of the word-character run.
            let mut e: usize = i + 1;
            proof {
                lemma_word_end(t, i as int);
            }
            while e < n && word_char_at(text, e)
                invariant
                    i < e <= n,
                    n == t.len(),
                    t == text@,
                    word_end(t, i as int) == word_end(t, e as int),
                decreases n - e,
            {
                proof {
                    assert(word_end(t, e as int) == word_end(t, e as int + 1));
                }
                e = e + 1;
            }
            proof {
                assert(word_end(t, e as int) == e as int);
                assert(word_end(t, i as int) == e as int);
            }
            let qualifies = word_start(text.get_char(i)) && e - i >= 2;
            if qualifies {
                let tok = String::from_str(text.substring_char(i, e));
                let ghost tokv = t.subrange(i as int, e as int);
                assert(tok@ == tokv);
                let keep = tok.as_str().unicode_len() >= keyword_len && !is_ignored(
                    &tok,
                    ignored_keywords,
                );
                proof {
                    assert(tokens_from(t, i as int) == seq![tokv] + tokens_from(t, e as int));
                    assert(toks_done + tokens_from(t, i as int) =~= toks_done.push(tokv)
                        + tokens_from(t, e as int));
                    assert(toks_done.push(tokv).drop_last() =~= toks_done);
                    assert(toks_done.push(tokv).last() == tokv);
                    assert(keep == keep_token(tokv, keyword_len as int, ignored));
                }
                if keep {
                    r.push(tok);
                    proof {
                        assert(r.deep_view() =~= kept_tokens(
                            toks_done.push(tokv),
                            keyword_len as int,
                            ignored,
                        ));
                    }
                } else {
                    proof {
                        assert(r.deep_view() =~= kept_tokens(
                            toks_done.push(tokv),
                            keyword_len as int,
                            ignored,
                        ));
                    }
                }
                proof {
                    toks_done = toks_done.push(tokv);
                }
            } else {
                proof {
                    assert(tokens_from(t, i as int) == tokens_from(t, e as int));
                }
            }
            i = e;
        }
    }
    proof {
        assert(tokens_from(t, n as int) =~= Seq::<Seq<char>>::empty());
        assert(toks_done + tokens_from(t, n as int) =~= toks_done);
        assert(toks_done == tokens_from(t, 0));
    }
    r
}

} // verus!
