//! The box renderer: configuration, alignment padding, and row emission.

use vstd::prelude::*;

use crate::text::{
    lemma_split_words_chars, lemma_split_words_len, lemma_wrap_words_chars,
    lemma_wrap_words_line_len, split_spaces, split_words, wrap_body, wrap_step, wrap_words,
};

verus! {

/// Horizontal placement of a line inside the box.
#[derive(Copy, Clone, Debug)]
pub enum Alignment {
    LEFT,
    MIDDLE,
    RIGHT,
}

/// The pair of pad widths that `get_alignment_padding` assigns to a line
/// whose visible length falls `length_diff` short of the largest visible
/// length among the lines.
pub open spec fn spec_alignment_padding(
    alignment: Alignment,
    length_diff: nat,
    padding_size: nat,
) -> (nat, nat) {
    match alignment {
        Alignment::LEFT => (padding_size, length_diff + padding_size),
        Alignment::MIDDLE => (
            (length_diff / 2 + length_diff % 2 + padding_size) as nat,
            (length_diff / 2 + padding_size) as nat,
        ),
        Alignment::RIGHT => (length_diff + padding_size, padding_size),
    }
}

/// Distributes a line's length deficit over the two sides of the line
/// according to the alignment, then widens both sides by the configured
/// padding. The two results always close the deficit exactly, which keeps
/// the box rectangular.
pub fn get_alignment_padding(
    alignment: Alignment,
    length_diff: usize,
    padding_size: usize,
) -> (padding: (usize, usize))
    requires
        length_diff + 2 * padding_size <= usize::MAX,
    ensures
        (padding.0 as nat, padding.1 as nat) == spec_alignment_padding(
            alignment,
            length_diff as nat,
            padding_size as nat,
        ),
        padding.0 + padding.1 == length_diff + 2 * padding_size,
{
    let padding = match alignment {
        Alignment::LEFT => (0usize, length_diff),
        Alignment::MIDDLE => (length_diff / 2 + length_diff % 2, length_diff / 2),
        Alignment::RIGHT => (length_diff, 0usize),
    };
    (padding.0 + padding_size, padding.1 + padding_size)
}

/// Middle alignment splits a deficit exactly: the two halves always close
/// the deficit, an even deficit is split evenly, and for an odd deficit the
/// extra space goes to the left pad.
pub proof fn lemma_middle_split_exact(d: nat, p: nat)
    ensures
        spec_alignment_padding(Alignment::MIDDLE, d, p).0 + spec_alignment_padding(
            Alignment::MIDDLE,
            d,
            p,
        ).1 == d + 2 * p,
        d % 2 == 1 ==> spec_alignment_padding(Alignment::MIDDLE, d, p).0 == spec_alignment_padding(
            Alignment::MIDDLE,
            d,
            p,
        ).1 + 1,
        d % 2 == 0 ==> spec_alignment_padding(Alignment::MIDDLE, d, p).0 == spec_alignment_padding(
            Alignment::MIDDLE,
            d,
            p,
        ).1,
{
}

/// Whatever the alignment, the two pads together always close the deficit
/// and add the configured padding on both sides.
pub proof fn lemma_alignment_padding_sum(alignment: Alignment, d: nat, p: nat)
    ensures
        spec_alignment_padding(alignment, d, p).0 + spec_alignment_padding(alignment, d, p).1 == d
            + 2 * p,
{
    if let Alignment::MIDDLE = alignment {
        lemma_middle_split_exact(d, p);
    }
}

/// The largest visible length among the lines, or zero when there are
/// none. Style markers are excluded from the measure: the box is sized by
/// what is displayed, not by what is stored.
pub open spec fn max_visible_len(lines: Seq<Seq<char>>) -> nat
    decreases lines.len(),
{
    if lines.len() == 0 {
        0
    } else {
        let rest = max_visible_len(lines.drop_last());
        if visible_len(lines.last()) > rest {
            visible_len(lines.last())
        } else {
            rest
        }
    }
}

/// No line's visible length exceeds the maximum.
pub proof fn lemma_max_visible_len_ge(lines: Seq<Seq<char>>)
    ensures
        forall|i: int|
            0 <= i < lines.len() ==> visible_len(#[trigger] lines[i]) <= max_visible_len(lines),
    decreases lines.len(),
{
    if lines.len() > 0 {
        lemma_max_visible_len_ge(lines.drop_last());
        assert forall|i: int| 0 <= i < lines.len() implies visible_len(#[trigger] lines[i])
            <= max_visible_len(lines) by {
            if i < lines.len() - 1 {
                assert(lines[i] == lines.drop_last()[i]);
                assert(visible_len(lines.drop_last()[i]) <= max_visible_len(lines.drop_last()));
            }
        }
    }
}

/// The largest visible length, in characters, among the strings: any style
/// markers a string carries are excluded from its measure.
pub fn max_length(strings: &Vec<String>) -> (max: usize)
    ensures
        max as nat == max_visible_len(strings.deep_view()),
{
    let mut max_length: usize = 0;
    let mut i: usize = 0;
    proof {
        assert(strings.deep_view().take(0) =~~= Seq::<Seq<char>>::empty());
    }
    while i < strings.len()
        invariant
            i <= strings.len(),
            max_length as nat == max_visible_len(strings.deep_view().take(i as int)),
        decreases strings.len() - i,
    {
        let length = visible_length(strings[i].as_str());
        proof {
            let taken = strings.deep_view().take(i + 1);
            assert(taken.drop_last() =~~= strings.deep_view().take(i as int));
            assert(taken.last() == strings@[i as int]@);
        }
        if length > max_length {
            max_length = length;
        }
        i += 1;
    }
    proof {
        assert(strings.deep_view().take(strings@.len() as int) =~~= strings.deep_view());
    }
    max_length
}

/// The control sequence that switches bold styling on.
pub open spec fn bold_on() -> Seq<char> {
    seq!['\x1b', '[', '1', 'm']
}

/// The control sequence that switches bold styling off.
pub open spec fn bold_off() -> Seq<char> {
    seq!['\x1b', '[', '0', 'm']
}

/// True when the line ends with the bold-off control sequence. The title
/// line always does; a plain-text line never does.
pub open spec fn ends_with_bold_off(line: Seq<char>) -> bool {
    &&& line.len() >= 4
    &&& line[line.len() - 4] == '\x1b'
    &&& line[line.len() - 3] == '['
    &&& line[line.len() - 2] == '0'
    &&& line[line.len() - 1] == 'm'
}

/// The number of style-marker characters carried by the line: one that
/// ends with the bold-off sequence, and is long enough to carry both marker
/// sequences, carries the characters of both, which take no visible space.
/// The constant is derived from the marker sequences themselves.
pub open spec fn marker_correction(line: Seq<char>) -> nat {
    if ends_with_bold_off(line) && line.len() >= bold_on().len() + bold_off().len() {
        bold_on().len() + bold_off().len()
    } else {
        0
    }
}

/// The count of visible characters of a line: its character count less the
/// style markers it carries.
pub open spec fn visible_len(line: Seq<char>) -> nat {
    (line.len() - marker_correction(line)) as nat
}

/// A line's padding deficit: how far its visible length falls short of the
/// largest visible length among the lines.
pub open spec fn line_deficit(line: Seq<char>, maxlen: nat) -> nat
    recommends
        visible_len(line) <= maxlen,
{
    (maxlen - visible_len(line)) as nat
}

/// The content rows of the box: the title wrapped in bold markers, one
/// blank separator line, then the wrapped body.
pub open spec fn content_lines(title: Seq<char>, text: Seq<char>, width: nat) -> Seq<Seq<char>> {
    seq![bold_on() + title + bold_off(), Seq::<char>::empty()] + wrap_body(text, width)
}

/// `n` copies of one character.
pub open spec fn spec_repeat(c: char, n: nat) -> Seq<char> {
    Seq::new(n, |i: int| c)
}

/// One content row: the line between the vertical border glyphs, padded on
/// both sides with spaces.
pub open spec fn boxed_row(line: Seq<char>, pads: (nat, nat)) -> Seq<char> {
    seq!['│'] + spec_repeat(' ', pads.0) + line + spec_repeat(' ', pads.1) + seq!['│']
}

/// A horizontal border row between its two corner glyphs.
pub open spec fn border_row(left_corner: char, interior: nat, right_corner: char) -> Seq<char> {
    seq![left_corner] + spec_repeat('─', interior) + seq![right_corner]
}

/// The row rendered for one content line, `maxlen` being the largest
/// visible length among the content lines.
pub open spec fn row_of(line: Seq<char>, maxlen: nat, padding: nat, alignment: Alignment) -> Seq<
    char,
> {
    boxed_row(line, spec_alignment_padding(alignment, line_deficit(line, maxlen), padding))
}

/// The whole rendered box, top to bottom: top border, one row per content
/// line, bottom border. The interior of both borders is as wide as the
/// largest visible length among the content lines plus the padding on
/// either side.
pub open spec fn spec_render(
    title: Seq<char>,
    text: Seq<char>,
    width: nat,
    padding: nat,
    alignment: Alignment,
) -> Seq<Seq<char>> {
    let lines = content_lines(title, text, width);
    let maxlen = max_visible_len(lines);
    seq![border_row('╭', maxlen + 2 * padding, '╮')] + lines.map_values(
        |line: Seq<char>| row_of(line, maxlen, padding, alignment),
    ) + seq![border_row('╰', maxlen + 2 * padding, '╯')]
}

/// A string of `n` copies of the single character of `piece`.
fn repeat_piece(piece: &str, n: usize) -> (r: String)
    requires
        piece@.len() == 1,
    ensures
        r@ == spec_repeat(piece@[0], n as nat),
{
    let mut r = String::new();
    let mut i: usize = 0;
    proof {
        assert(r@ =~= spec_repeat(piece@[0], 0));
    }
    while i < n
        invariant
            i <= n,
            piece@.len() == 1,
            r@ == spec_repeat(piece@[0], i as nat),
        decreases n - i,
    {
        r.append(piece);
        i += 1;
        proof {
            assert(r@ =~= spec_repeat(piece@[0], i as nat));
        }
    }
    r
}

/// Whether the line ends with the bold-off control sequence.
fn ends_with_bold_off_exec(line: &str) -> (r: bool)
    ensures
        r == ends_with_bold_off(line@),
{
    let n = line.unicode_len();
    if n < 4 {
        false
    } else {
        line.get_char(n - 4) == '\x1b' && line.get_char(n - 3) == '[' && line.get_char(n - 2)
            == '0' && line.get_char(n - 1) == 'm'
    }
}

/// The count of visible characters of the line, style markers excluded.
fn visible_length(line: &str) -> (r: usize)
    ensures
        r as nat == visible_len(line@),
{
    let n = line.unicode_len();
    if n >= 8 && ends_with_bold_off_exec(line) {
        n - 8
    } else {
        n
    }
}

/// Builds the content lines of the box: the bold-marked title line, the
/// blank separator, then the body's words wrapped at the width.
fn build_lines(title: &str, text: &str, width: usize) -> (lines: Vec<String>)
    requires
        title@.len() + 2 * text@.len() + width + 16 <= usize::MAX,
    ensures
        lines.deep_view() == content_lines(title@, text@, width as nat),
{
    let mut title_line = String::new();
    title_line.append("\x1b[1m");
    title_line.append(title);
    title_line.append("\x1b[0m");
    proof {
        reveal_strlit("\x1b[1m");
        reveal_strlit("\x1b[0m");
        assert(title_line@ =~= bold_on() + title@ + bold_off());
    }
    let words = split_spaces(text);
    let mut body: Vec<String> = Vec::new();
    let mut k: usize = 0;
    proof {
        assert(words.deep_view().take(0) =~~= Seq::<Seq<char>>::empty());
        lemma_split_words_len(text@);
    }
    while k < words.len()
        invariant
            k <= words.len(),
            words.deep_view() == split_words(text@),
            body.deep_view() == wrap_words(words.deep_view().take(k as int), width as nat),
            2 * text@.len() + width + 16 <= usize::MAX,
        decreases words.len() - k,
    {
        proof {
            lemma_split_words_len(text@);
            assert(forall|i: int|
                0 <= i < words.deep_view().take(k as int).len() ==> #[trigger] words.deep_view().take(
                    k as int,
                )[i].len() <= text@.len());
            lemma_wrap_words_line_len(
                words.deep_view().take(k as int),
                width as nat,
                text@.len(),
            );
        }
        let ghost prev = body.deep_view();
        let word_len = words[k].as_str().unicode_len();
        if body.len() == 0 {
            let word = words[k].clone();
            body.push(word);
            proof {
                assert(body.deep_view() =~~= wrap_step(prev, words.deep_view()[k as int], width as nat));
            }
        } else {
            let last_len = body[body.len() - 1].as_str().unicode_len();
            proof {
                assert(wrap_words(words.deep_view().take(k as int), width as nat)[body@.len()
                    - 1].len() <= width + text@.len() + 1);
                assert(split_words(text@)[k as int].len() <= text@.len());
            }
            if last_len + word_len < width || last_len == 0 {
                let mut last = body.pop().unwrap();
                last.append(" ");
                last.append(words[k].as_str());
                body.push(last);
                proof {
                    reveal_strlit(" ");
                    assert(" "@ =~= seq![' ']);
                    assert(body.deep_view() =~~= prev.update(
                        prev.len() - 1,
                        prev.last() + seq![' '] + words.deep_view()[k as int],
                    ));
                    assert(body.deep_view() =~~= wrap_step(
                        prev,
                        words.deep_view()[k as int],
                        width as nat,
                    ));
                }
            } else {
                let word = words[k].clone();
                body.push(word);
                proof {
                    assert(body.deep_view() =~~= wrap_step(
                        prev,
                        words.deep_view()[k as int],
                        width as nat,
                    ));
                }
            }
        }
        k += 1;
        proof {
            let wtake = words.deep_view().take(k as int);
            assert(wtake.drop_last() =~~= words.deep_view().take(k - 1));
            assert(wtake.last() == words.deep_view()[k - 1]);
            assert(body.deep_view() == wrap_words(wtake, width as nat));
        }
    }
    proof {
        assert(words.deep_view().take(words@.len() as int) =~~= words.deep_view());
    }
    let mut lines: Vec<String> = Vec::new();
    lines.push(title_line);
    lines.push(String::new());
    lines.append(&mut body);
    proof {
        assert(lines.deep_view() =~~= content_lines(title@, text@, width as nat));
    }
    lines
}

/// When every line's visible length is at most `b`, so is the maximum.
pub proof fn lemma_max_visible_len_le(lines: Seq<Seq<char>>, b: nat)
    requires
        forall|i: int| 0 <= i < lines.len() ==> visible_len(#[trigger] lines[i]) <= b,
    ensures
        max_visible_len(lines) <= b,
    decreases lines.len(),
{
    if lines.len() > 0 {
        assert(forall|i: int|
            0 <= i < lines.len() - 1 ==> visible_len(#[trigger] lines.drop_last()[i])
                == visible_len(lines[i]));
        lemma_max_visible_len_le(lines.drop_last(), b);
    }
}

/// Renders a title and a body text as a bordered box, under a configurable
/// width, padding and alignment, each with a default.
pub struct Printer {
    width: Option<u16>,
    padding: Option<usize>,
    alignment: Option<Alignment>,
}

impl Printer {
    /// The effective box width: the configured one, or fifty.
    pub closed spec fn spec_width(&self) -> nat {
        match self.width {
            Some(w) => w as nat,
            None => 50,
        }
    }

    /// The effective padding: the configured one, or one.
    pub closed spec fn spec_padding(&self) -> nat {
        match self.padding {
            Some(p) => p as nat,
            None => 1,
        }
    }

    /// The effective alignment: the configured one, or left.
    pub closed spec fn spec_alignment(&self) -> Alignment {
        match self.alignment {
            Some(a) => a,
            None => Alignment::LEFT,
        }
    }

    pub fn new(alignment: Option<Alignment>, width: Option<u16>, padding: Option<usize>) -> (r:
        Self)
        ensures
            r.spec_width() == (match width {
                Some(w) => w as nat,
                None => 50 as nat,
            }),
            r.spec_padding() == (match padding {
                Some(p) => p as nat,
                None => 1 as nat,
            }),
            r.spec_alignment() == (match alignment {
                Some(a) => a,
                None => Alignment::LEFT,
            }),
    {
        Printer { alignment, width, padding }
    }

    /// The single diagnostic line shown for a failure: a fixed prefix
    /// followed by the pre-formatted message. Failures are never boxed.
    pub fn render_error(self, message: String) -> (line: String)
        ensures
            line@ == "Error occured: "@ + message@,
    {
        let mut line = String::new();
        line.append("Error occured: ");
        line.append(message.as_str());
        line
    }

    /// Renders the box for a title and a body text: exactly the rows of
    /// `spec_render` under this printer's effective configuration, top
    /// border first, bottom border last. The result is a function of the
    /// arguments alone, so rendering the same inputs twice yields the same
    /// rows. The precondition only keeps the row widths within the machine's
    /// address space.
    pub fn render_message(&self, title: &str, text: &str) -> (rows: Vec<String>)
        requires
            title@.len() + 2 * text@.len() + self.spec_width() + 2 * self.spec_padding() + 32
                <= usize::MAX,
        ensures
            rows.deep_view() == spec_render(
                title@,
                text@,
                self.spec_width(),
                self.spec_padding(),
                self.spec_alignment(),
            ),
    {
        let padding_size = self.padding.unwrap_or(1);
        let alignment = self.alignment.unwrap_or(Alignment::LEFT);
        let width = self.width.unwrap_or(50);
        let width_usize = width as usize;

        let lines = build_lines(title, text, width_usize);
        let max_len = max_length(&lines);
        let ghost maxlen = max_visible_len(lines.deep_view());
        let ghost line_bound = title@.len() + text@.len() + width_usize + 9;
        proof {
            lemma_max_visible_len_ge(lines.deep_view());
            lemma_split_words_len(text@);
            lemma_wrap_words_line_len(split_words(text@), width_usize as nat, text@.len());
            assert(forall|i: int|
                0 <= i < lines.deep_view().len() ==> visible_len(#[trigger] lines.deep_view()[i])
                    <= line_bound);
            lemma_max_visible_len_le(lines.deep_view(), line_bound as nat);
        }
        let interior = max_len + padding_size * 2;
        let rule = repeat_piece_rule(interior);
        let mut rows: Vec<String> = Vec::new();

        let mut top = String::new();
        top.append("╭");
        top.append(rule.as_str());
        top.append("╮");
        proof {
            reveal_strlit("╭");
            reveal_strlit("╮");
            assert(top@ =~= border_row('╭', (maxlen + 2 * padding_size) as nat, '╮'));
        }
        rows.push(top);

        let ghost row_fn = |line: Seq<char>|
            row_of(line, maxlen, padding_size as nat, alignment);
        let mut i: usize = 0;
        proof {
            assert(rows.deep_view() =~~= seq![
                border_row('╭', (maxlen + 2 * padding_size) as nat, '╮'),
            ] + lines.deep_view().take(0).map_values(row_fn));
        }
        while i < lines.len()
            invariant
                i <= lines.len(),
                max_len as nat == maxlen,
                (maxlen + 2 * padding_size) as nat + 16 <= usize::MAX,
                forall|j: int|
                    0 <= j < lines.deep_view().len() ==> visible_len(
                        #[trigger] lines.deep_view()[j],
                    ) <= maxlen,
                row_fn == (|line: Seq<char>|
                    row_of(line, maxlen, padding_size as nat, alignment)),
                rows.deep_view() == seq![
                    border_row('╭', (maxlen + 2 * padding_size) as nat, '╮'),
                ] + lines.deep_view().take(i as int).map_values(row_fn),
            decreases lines.len() - i,
        {
            let line_len = visible_length(lines[i].as_str());
            proof {
                assert(line_len as nat == visible_len(lines.deep_view()[i as int]));
                assert(visible_len(lines.deep_view()[i as int]) <= maxlen);
            }
            let length_diff = max_len - line_len;
            proof {
                assert(length_diff as nat == line_deficit(lines.deep_view()[i as int], maxlen));
            }
            let pads = get_alignment_padding(alignment, length_diff, padding_size);
            proof {
                reveal_strlit(" ");
            }
            let left = repeat_piece(" ", pads.0);
            let right = repeat_piece(" ", pads.1);
            let mut row = String::new();
            row.append("│");
            row.append(left.as_str());
            row.append(lines[i].as_str());
            row.append(right.as_str());
            row.append("│");
            proof {
                reveal_strlit(" ");
                reveal_strlit("│");
                assert(row@ =~= row_of(
                    lines.deep_view()[i as int],
                    maxlen,
                    padding_size as nat,
                    alignment,
                ));
            }
            let ghost prev_rows = rows.deep_view();
            rows.push(row);
            i += 1;
            proof {
                let taken = lines.deep_view().take(i as int);
                assert(row_fn(lines.deep_view()[i - 1]) == row_of(
                    lines.deep_view()[i - 1],
                    maxlen,
                    padding_size as nat,
                    alignment,
                ));
                assert(rows.deep_view() =~~= prev_rows.push(row@));
                assert(taken.drop_last() =~~= lines.deep_view().take(i - 1));
                assert(taken.map_values(row_fn) =~~= taken.drop_last().map_values(row_fn).push(
                    row_fn(lines.deep_view()[i - 1]),
                ));
                assert(rows.deep_view() =~~= seq![
                    border_row('╭', (maxlen + 2 * padding_size) as nat, '╮'),
                ] + taken.map_values(row_fn));
            }
        }
        let mut bottom = String::new();
        bottom.append("╰");
        bottom.append(rule.as_str());
        bottom.append("╯");
        proof {
            reveal_strlit("╰");
            reveal_strlit("╯");
            assert(bottom@ =~= border_row('╰', (maxlen + 2 * padding_size) as nat, '╯'));
        }
        rows.push(bottom);
        proof {
            assert(lines.deep_view().take(lines@.len() as int) =~~= lines.deep_view());
            assert(rows.deep_view() =~~= spec_render(
                title@,
                text@,
                self.spec_width(),
                self.spec_padding(),
                self.spec_alignment(),
            ));
        }
        rows
    }
}

/// A string of `n` horizontal-rule characters, for the borders.
fn repeat_piece_rule(n: usize) -> (r: String)
    ensures
        r@ == spec_repeat('─', n as nat),
{
    proof {
        reveal_strlit("─");
    }
    repeat_piece("─", n)
}

/// The core rectangularity invariant: in every rendered box, each content
/// row's left pad, visible characters and right pad together span exactly
/// the interior width of the borders, the largest visible length among the
/// content lines plus the padding on both sides.
pub proof fn lemma_rows_rectangular(
    title: Seq<char>,
    text: Seq<char>,
    width: nat,
    padding: nat,
    alignment: Alignment,
)
    ensures
        ({
            let rows = spec_render(title, text, width, padding, alignment);
            let lines = content_lines(title, text, width);
            let maxlen = max_visible_len(lines);
            &&& rows.len() == lines.len() + 2
            &&& rows[0].len() == maxlen + 2 * padding + 2
            &&& rows[rows.len() - 1].len() == maxlen + 2 * padding + 2
            &&& forall|i: int|
                #![trigger lines[i]]
                0 <= i < lines.len() ==> {
                    let pads = spec_alignment_padding(
                        alignment,
                        line_deficit(lines[i], maxlen),
                        padding,
                    );
                    &&& rows[i + 1] == row_of(lines[i], maxlen, padding, alignment)
                    &&& pads.0 + visible_len(lines[i]) + pads.1 == maxlen + 2 * padding
                    &&& rows[i + 1].len() == 2 + pads.0 + lines[i].len() + pads.1
                }
        }),
{
    let rows = spec_render(title, text, width, padding, alignment);
    let lines = content_lines(title, text, width);
    let maxlen = max_visible_len(lines);
    lemma_max_visible_len_ge(lines);
    assert forall|i: int| #![trigger lines[i]] 0 <= i < lines.len() implies {
        let pads = spec_alignment_padding(alignment, line_deficit(lines[i], maxlen), padding);
        &&& rows[i + 1] == row_of(lines[i], maxlen, padding, alignment)
        &&& pads.0 + visible_len(lines[i]) + pads.1 == maxlen + 2 * padding
        &&& rows[i + 1].len() == 2 + pads.0 + lines[i].len() + pads.1
    } by {
        let d = line_deficit(lines[i], maxlen);
        let pads = spec_alignment_padding(alignment, d, padding);
        assert(visible_len(lines[i]) <= maxlen);
        lemma_alignment_padding_sum(alignment, d, padding);
        assert(d + visible_len(lines[i]) == maxlen);
        assert(rows[i + 1] == lines.map_values(
            |line: Seq<char>| row_of(line, maxlen, padding, alignment),
        )[i]);
    }
}

/// For plain-text inputs, which contain no escape character, only the
/// title line carries style markers: its visible length is the title's own
/// length, and every other line's visible length is its full length.
pub proof fn lemma_visible_lengths(title: Seq<char>, text: Seq<char>, width: nat)
    requires
        !title.contains('\x1b'),
        !text.contains('\x1b'),
    ensures
        ({
            let lines = content_lines(title, text, width);
            &&& ends_with_bold_off(lines[0])
            &&& visible_len(lines[0]) == title.len()
            &&& forall|i: int|
                1 <= i < lines.len() ==> visible_len(#[trigger] lines[i]) == lines[i].len()
        }),
{
    let lines = content_lines(title, text, width);
    let title_line = bold_on() + title + bold_off();
    assert(title_line.len() == title.len() + 8);
    assert(title_line[title_line.len() - 4] == '\x1b');
    assert(title_line[title_line.len() - 3] == '[');
    assert(title_line[title_line.len() - 2] == '0');
    assert(title_line[title_line.len() - 1] == 'm');
    assert(ends_with_bold_off(lines[0]));
    lemma_split_words_chars(text);
    assert forall|i: int, j: int|
        0 <= i < split_words(text).len() && 0 <= j < split_words(text)[i].len() implies #[trigger] split_words(
        text,
    )[i][j] != '\x1b' by {
        if split_words(text)[i][j] == '\x1b' {
            assert(text.contains('\x1b'));
        }
    }
    lemma_wrap_words_chars(split_words(text), width, '\x1b');
    assert forall|i: int| 1 <= i < lines.len() implies visible_len(#[trigger] lines[i])
        == lines[i].len() by {
        if i == 1 {
            assert(lines[i].len() == 0);
        } else {
            let body = wrap_body(text, width);
            assert(lines[i] == body[i - 2]);
            if ends_with_bold_off(lines[i]) {
                assert(body[i - 2][lines[i].len() - 4] == '\x1b');
            }
        }
    }
}

/// Rendering is a function of the title, the body and the configuration
/// alone: two renders of the same inputs yield identical rows.
pub proof fn lemma_render_deterministic(
    r1: Seq<Seq<char>>,
    r2: Seq<Seq<char>>,
    title: Seq<char>,
    text: Seq<char>,
    width: nat,
    padding: nat,
    alignment: Alignment,
)
    requires
        r1 == spec_render(title, text, width, padding, alignment),
        r2 == spec_render(title, text, width, padding, alignment),
    ensures
        r1 == r2,
{
}

} // verus!
