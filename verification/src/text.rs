//! Word splitting and the width-driven wrap of a body text into lines.

use vstd::prelude::*;

verus! {

/// The words of `s`, split on every single space character, exactly as
/// `str::split(" ")` produces them: an empty input yields one empty word,
/// and adjacent, leading or trailing separators yield empty words.
pub open spec fn split_words(s: Seq<char>) -> Seq<Seq<char>>
    decreases s.len(),
{
    if s.len() == 0 {
        seq![Seq::<char>::empty()]
    } else if s[0] == ' ' {
        seq![Seq::<char>::empty()] + split_words(s.drop_first())
    } else {
        let rest = split_words(s.drop_first());
        seq![seq![s[0]] + rest[0]] + rest.drop_first()
    }
}

/// Splitting always yields at least one word.
pub proof fn lemma_split_words_nonempty(s: Seq<char>)
    ensures
        split_words(s).len() >= 1,
    decreases s.len(),
{
    if s.len() > 0 {
        lemma_split_words_nonempty(s.drop_first());
    }
}

/// A text without spaces is a single word.
pub proof fn lemma_split_words_no_space(s: Seq<char>)
    requires
        forall|i: int| 0 <= i < s.len() ==> s[i] != ' ',
    ensures
        split_words(s) =~= seq![s],
    decreases s.len(),
{
    if s.len() == 0 {
        assert(split_words(s) =~~= seq![s]);
    } else {
        lemma_split_words_no_space(s.drop_first());
        assert(seq![s[0]] + s.drop_first() =~= s);
        assert(split_words(s) =~~= seq![s]);
    }
}

/// Splitting at the first space: a space-free prefix becomes the first
/// word, and the remainder is split on its own.
pub proof fn lemma_split_words_at_space(a: Seq<char>, b: Seq<char>)
    requires
        forall|i: int| 0 <= i < a.len() ==> a[i] != ' ',
    ensures
        split_words(a + seq![' '] + b) =~~= seq![a] + split_words(b),
    decreases a.len(),
{
    let s = a + seq![' '] + b;
    if a.len() == 0 {
        assert(s[0] == ' ');
        assert(s.drop_first() =~= b);
        assert(split_words(s) =~~= seq![a] + split_words(b));
    } else {
        assert(s[0] == a[0]);
        assert(s.drop_first() =~= a.drop_first() + seq![' '] + b);
        lemma_split_words_at_space(a.drop_first(), b);
        lemma_split_words_nonempty(b);
        assert(seq![s[0]] + (seq![a.drop_first()] + split_words(b))[0] =~= a);
        assert((seq![a.drop_first()] + split_words(b)).drop_first() =~= split_words(b));
        assert(split_words(s) =~~= seq![a] + split_words(b));
    }
}

/// No word is longer than the text it was split from.
pub proof fn lemma_split_words_len(s: Seq<char>)
    ensures
        forall|i: int|
            0 <= i < split_words(s).len() ==> #[trigger] split_words(s)[i].len() <= s.len(),
    decreases s.len(),
{
    if s.len() > 0 {
        lemma_split_words_len(s.drop_first());
        lemma_split_words_nonempty(s.drop_first());
    }
}

/// Every character of every word occurs in the text.
pub proof fn lemma_split_words_chars(s: Seq<char>)
    ensures
        forall|i: int, j: int|
            0 <= i < split_words(s).len() && 0 <= j < split_words(s)[i].len() ==> s.contains(
                #[trigger] split_words(s)[i][j],
            ),
    decreases s.len(),
{
    if s.len() > 0 {
        lemma_split_words_chars(s.drop_first());
        lemma_split_words_nonempty(s.drop_first());
        assert forall|i: int, j: int|
            0 <= i < split_words(s).len() && 0 <= j < split_words(s)[i].len() implies s.contains(
            split_words(s)[i][j],
        ) by {
            let w = split_words(s)[i];
            let rest = split_words(s.drop_first());
            if s[0] == ' ' {
                if i > 0 {
                    assert(w == rest[i - 1]);
                    assert(s.drop_first().contains(rest[i - 1][j]));
                    let k = choose|k: int|
                        0 <= k < s.drop_first().len() && s.drop_first()[k] == rest[i - 1][j];
                    assert(s[k + 1] == rest[i - 1][j]);
                }
            } else {
                if i == 0 {
                    if j == 0 {
                        assert(w[0] == s[0]);
                    } else {
                        assert(w == seq![s[0]] + rest[0]);
                        assert(w[j] == rest[0][j - 1]);
                        assert(s.drop_first().contains(rest[0][j - 1]));
                        let k = choose|k: int|
                            0 <= k < s.drop_first().len() && s.drop_first()[k] == rest[0][j - 1];
                        assert(s[k + 1] == rest[0][j - 1]);
                    }
                } else {
                    assert(w == rest[i]);
                    assert(s.drop_first().contains(rest[i][j]));
                    let k = choose|k: int|
                        0 <= k < s.drop_first().len() && s.drop_first()[k] == rest[i][j];
                    assert(s[k + 1] == rest[i][j]);
                }
            }
        }
    }
}

/// No word contains a space: the space characters of the text are all
/// consumed as separators.
pub proof fn lemma_split_words_space_free(s: Seq<char>)
    ensures
        forall|i: int, j: int|
            0 <= i < split_words(s).len() && 0 <= j < split_words(s)[i].len()
                ==> #[trigger] split_words(s)[i][j] != ' ',
    decreases s.len(),
{
    if s.len() > 0 {
        lemma_split_words_space_free(s.drop_first());
        lemma_split_words_nonempty(s.drop_first());
        assert forall|i: int, j: int|
            0 <= i < split_words(s).len() && 0 <= j < split_words(s)[i].len() implies split_words(
            s,
        )[i][j] != ' ' by {
            let w = split_words(s)[i];
            let rest = split_words(s.drop_first());
            if s[0] == ' ' {
                if i > 0 {
                    assert(w == rest[i - 1]);
                }
            } else {
                if i == 0 {
                    assert(w == seq![s[0]] + rest[0]);
                    if j > 0 {
                        assert(w[j] == rest[0][j - 1]);
                    }
                } else {
                    assert(w == rest[i]);
                }
            }
        }
    }
}

/// Folds one word into the lines wrapped so far. The very first word opens
/// the first line. A later word is appended to the last line, after a single
/// space, when that line's length plus the word's length is still below the
/// width, or when that line is empty; otherwise the word opens a new line.
/// The appended line's own final length may reach the width: the comparison
/// is made before the space and the word are added, and that looseness is
/// part of the contract.
pub open spec fn wrap_step(lines: Seq<Seq<char>>, word: Seq<char>, width: nat) -> Seq<Seq<char>> {
    if lines.len() == 0 {
        seq![word]
    } else {
        let last = lines.last();
        if last.len() + word.len() < width || last.len() == 0 {
            lines.update(lines.len() - 1, last + seq![' '] + word)
        } else {
            lines.push(word)
        }
    }
}

/// The lines produced by folding `wrap_step` over the words in order.
pub open spec fn wrap_words(words: Seq<Seq<char>>, width: nat) -> Seq<Seq<char>>
    decreases words.len(),
{
    if words.len() == 0 {
        Seq::<Seq<char>>::empty()
    } else {
        wrap_step(wrap_words(words.drop_last(), width), words.last(), width)
    }
}

/// The body lines of a text: its words, wrapped at the given width.
pub open spec fn wrap_body(text: Seq<char>, width: nat) -> Seq<Seq<char>> {
    wrap_words(split_words(text), width)
}

/// An empty body text wraps to exactly one empty line.
pub proof fn lemma_empty_body_single_empty_line(width: nat)
    ensures
        wrap_body(Seq::<char>::empty(), width) =~~= seq![Seq::<char>::empty()],
{
    let e = Seq::<char>::empty();
    let words = seq![e];
    assert(split_words(e) =~~= words);
    assert(words.drop_last() =~~= Seq::<Seq<char>>::empty());
    assert(wrap_words(Seq::<Seq<char>>::empty(), width) =~~= Seq::<Seq<char>>::empty());
    assert(words.last() == e);
    assert(wrap_words(words, width) == wrap_step(
        wrap_words(words.drop_last(), width),
        words.last(),
        width,
    ));
    assert(wrap_step(Seq::<Seq<char>>::empty(), e, width) =~~= seq![e]);
}

/// A word is only ever appended to a line that was strictly shorter than
/// the width, or empty, at the moment of the comparison: `wrap_step` keeps
/// the line count unchanged only under that condition.
pub proof fn lemma_append_only_to_short_line(lines: Seq<Seq<char>>, word: Seq<char>, width: nat)
    requires
        width >= 1,
        lines.len() >= 1,
    ensures
        wrap_step(lines, word, width).len() == lines.len() ==> (lines.last().len() < width
            || lines.last().len() == 0),
{
    if wrap_step(lines, word, width).len() == lines.len() {
        assert(lines.last().len() + word.len() < width || lines.last().len() == 0);
    }
}

/// True when position `p` holds the last space of `line`.
pub open spec fn is_last_space(line: Seq<char>, p: int) -> bool {
    &&& 0 <= p < line.len()
    &&& line[p] == ' '
    &&& forall|q: int| p < q < line.len() ==> line[q] != ' '
}

/// The wrap's accumulate-then-compare semantics, read off the finished
/// lines: a line that holds more than one word ends in a space followed by
/// its last word, and the prefix before that space, the line as it stood
/// when the last word was appended, was strictly shorter than the width or
/// empty.
pub proof fn lemma_line_prefix_short(words: Seq<Seq<char>>, width: nat)
    requires
        width >= 1,
        forall|i: int, j: int|
            0 <= i < words.len() && 0 <= j < words[i].len() ==> #[trigger] words[i][j] != ' ',
    ensures
        forall|i: int, p: int|
            0 <= i < wrap_words(words, width).len() && #[trigger] is_last_space(
                wrap_words(words, width)[i],
                p,
            ) ==> (p < width || p == 0),
    decreases words.len(),
{
    if words.len() > 0 {
        lemma_line_prefix_short(words.drop_last(), width);
        let prev = wrap_words(words.drop_last(), width);
        let w = words.last();
        assert(forall|j: int| 0 <= j < w.len() ==> #[trigger] w[j] != ' ');
        let result = wrap_words(words, width);
        assert forall|i: int, p: int|
            0 <= i < result.len() && is_last_space(result[i], p) implies (p < width || p
            == 0) by {
            if prev.len() == 0 {
                assert(result[i] == w);
                assert(result[i][p] != ' ');
            } else {
                let last = prev.last();
                if last.len() + w.len() < width || last.len() == 0 {
                    if i == prev.len() - 1 {
                        let line = last + seq![' '] + w;
                        assert(result[i] == line);
                        assert(line[last.len() as int] == ' ');
                        if p > last.len() {
                            assert(line[p] == w[p - last.len() - 1]);
                            assert(line[p] != ' ');
                        } else if p < last.len() {
                            assert(!is_last_space(line, p));
                        }
                        assert(p == last.len());
                    } else {
                        assert(result[i] == prev[i]);
                    }
                } else {
                    if i == prev.len() {
                        assert(result[i] == w);
                        assert(result[i][p] != ' ');
                    } else {
                        assert(result[i] == prev[i]);
                    }
                }
            }
        }
    }
}

/// The same, stated over the body text itself: in every wrapped body line,
/// the prefix before the last space was strictly shorter than the width, or
/// empty, at the moment its last word was added.
pub proof fn lemma_body_line_prefix_short(text: Seq<char>, width: nat)
    requires
        width >= 1,
    ensures
        forall|i: int, p: int|
            0 <= i < wrap_body(text, width).len() && #[trigger] is_last_space(
                wrap_body(text, width)[i],
                p,
            ) ==> (p < width || p == 0),
{
    lemma_split_words_space_free(text);
    lemma_line_prefix_short(split_words(text), width);
}

/// When every word fits in `m` characters, no wrapped line outgrows
/// `width + m + 1`: an appended line stays at or under the width, and a
/// fresh line holds a single word behind at most one space.
pub proof fn lemma_wrap_words_line_len(words: Seq<Seq<char>>, width: nat, m: nat)
    requires
        forall|i: int| 0 <= i < words.len() ==> #[trigger] words[i].len() <= m,
    ensures
        forall|i: int|
            0 <= i < wrap_words(words, width).len() ==> #[trigger] wrap_words(words, width)[i].len()
                <= width + m + 1,
    decreases words.len(),
{
    if words.len() > 0 {
        lemma_wrap_words_line_len(words.drop_last(), width, m);
        let prev = wrap_words(words.drop_last(), width);
        let w = words.last();
        assert(w.len() <= m);
        let result = wrap_words(words, width);
        assert forall|i: int| 0 <= i < result.len() implies result[i].len() <= width + m + 1 by {
            if prev.len() == 0 {
                assert(result[i] == w);
            } else {
                let last = prev.last();
                if last.len() + w.len() < width || last.len() == 0 {
                    if i == prev.len() - 1 {
                        assert(result[i] == last + seq![' '] + w);
                    } else {
                        assert(result[i] == prev[i]);
                    }
                } else {
                    if i == prev.len() {
                        assert(result[i] == w);
                    } else {
                        assert(result[i] == prev[i]);
                    }
                }
            }
        }
    }
}

/// Every character of every wrapped line is a space or a character of one
/// of the words.
pub proof fn lemma_wrap_words_chars(words: Seq<Seq<char>>, width: nat, c: char)
    requires
        c != ' ',
        forall|i: int, j: int|
            0 <= i < words.len() && 0 <= j < words[i].len() ==> #[trigger] words[i][j] != c,
    ensures
        forall|i: int, j: int|
            0 <= i < wrap_words(words, width).len() && 0 <= j < wrap_words(words, width)[i].len()
                ==> #[trigger] wrap_words(words, width)[i][j] != c,
    decreases words.len(),
{
    if words.len() > 0 {
        lemma_wrap_words_chars(words.drop_last(), width, c);
        let prev = wrap_words(words.drop_last(), width);
        let w = words.last();
        assert(forall|j: int| 0 <= j < w.len() ==> #[trigger] w[j] != c);
        let result = wrap_words(words, width);
        assert forall|i: int, j: int|
            0 <= i < result.len() && 0 <= j < result[i].len() implies result[i][j] != c by {
            if prev.len() == 0 {
                assert(result[i] == w);
            } else {
                let last = prev.last();
                if last.len() + w.len() < width || last.len() == 0 {
                    if i == prev.len() - 1 {
                        assert(result[i] == last + seq![' '] + w);
                        if j < last.len() {
                            assert(result[i][j] == last[j]);
                        } else if j == last.len() {
                            assert(result[i][j] == ' ');
                        } else {
                            assert(result[i][j] == w[j - last.len() - 1]);
                        }
                    } else {
                        assert(result[i] == prev[i]);
                    }
                } else {
                    if i == prev.len() {
                        assert(result[i] == w);
                    } else {
                        assert(result[i] == prev[i]);
                    }
                }
            }
        }
    }
}

/// Splits the text on single space characters, producing exactly the words
/// of the specification-level `split_words`.
pub fn split_spaces(text: &str) -> (words: Vec<String>)
    ensures
        words.deep_view() == split_words(text@),
{
    let n = text.unicode_len();
    let mut words: Vec<String> = Vec::new();
    let mut start: usize = 0;
    let mut i: usize = 0;
    proof {
        assert(text@.subrange(0, n as int) =~= text@);
        assert(words.deep_view() + split_words(text@) =~~= split_words(text@));
    }
    while i < n
        invariant
            start <= i <= n,
            n == text@.len(),
            forall|k: int| start <= k < i ==> text@[k] != ' ',
            words.deep_view() + split_words(text@.subrange(start as int, n as int))
                == split_words(text@),
        decreases n - i,
    {
        if text.get_char(i) == ' ' {
            let ghost prev = words.deep_view();
            let word = text.substring_char(start, i);
            words.push(String::from_str(word));
            proof {
                lemma_split_words_at_space(
                    text@.subrange(start as int, i as int),
                    text@.subrange(i + 1, n as int),
                );
                assert(text@.subrange(start as int, n as int) =~= text@.subrange(
                    start as int,
                    i as int,
                ) + seq![' '] + text@.subrange(i + 1, n as int));
                assert(words.deep_view() =~~= prev + seq![word@]);
                assert(words.deep_view() + split_words(text@.subrange(i + 1, n as int))
                    =~~= split_words(text@));
            }
            start = i + 1;
        }
        i += 1;
    }
    let ghost prev = words.deep_view();
    let word = text.substring_char(start, n);
    words.push(String::from_str(word));
    proof {
        lemma_split_words_no_space(text@.subrange(start as int, n as int));
        assert(words.deep_view() =~~= prev + seq![word@]);
        assert(words.deep_view() =~~= split_words(text@));
    }
    words
}

} // verus!
