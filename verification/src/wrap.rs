//! Word-wrapping a line of text to the width of the paper.

use crate::text;
use crate::text::{chars_of, split_on, string_of};
use vstd::prelude::*;
use vstd::slice::slice_subrange;

verus! {

/// The blocks of exactly `width` characters that are cut off the front of an
/// over-long word until what is left fits.
pub open spec fn full_blocks(word: Seq<char>, width: nat) -> Seq<Seq<char>>
    decreases word.len(),
{
    if width == 0 || word.len() <= width {
        Seq::empty()
    } else {
        seq![word.take(width as int)] + full_blocks(word.skip(width as int), width)
    }
}

/// What is left of a word once its full blocks are cut off.
pub open spec fn last_block(word: Seq<char>, width: nat) -> Seq<char>
    decreases word.len(),
{
    if width == 0 || word.len() <= width {
        word
    } else {
        last_block(word.skip(width as int), width)
    }
}

/// Words laid out so far: the finished lines, and the line still open.
pub struct Laid {
    pub lines: Seq<Seq<char>>,
    pub open_line: Seq<char>,
}

impl Laid {
    /// The finished lines and the open one, if there is anything on it.
    pub open spec fn all(self) -> Seq<Seq<char>> {
        if self.open_line.len() == 0 {
            self.lines
        } else {
            self.lines.push(self.open_line)
        }
    }

    /// One more word. It joins the open line after a space where both fit,
    /// otherwise it starts a line of its own; a word wider than the paper is cut
    /// into blocks and its last block stays open.
    pub open spec fn with_word(self, word: Seq<char>, width: nat) -> Laid {
        if word.len() > width {
            Laid {
                lines: self.all() + full_blocks(word, width),
                open_line: last_block(word, width),
            }
        } else if self.open_line.len() == 0 {
            Laid { lines: self.lines, open_line: word }
        } else if self.open_line.len() + 1 + word.len() <= width {
            Laid { lines: self.lines, open_line: self.open_line.push(' ') + word }
        } else {
            Laid { lines: self.lines.push(self.open_line), open_line: word }
        }
    }
}

/// The words laid out one after the other on empty paper.
pub open spec fn laid(words: Seq<Seq<char>>, width: nat) -> Laid
    decreases words.len(),
{
    if words.len() == 0 {
        Laid { lines: Seq::empty(), open_line: Seq::empty() }
    } else {
        laid(words.drop_last(), width).with_word(words.last(), width)
    }
}

/// A line of text wrapped to `width`: itself where it fits, otherwise its words
/// laid out.
pub open spec fn wrapped(line: Seq<char>, width: nat) -> Seq<Seq<char>> {
    if line.len() <= width {
        seq![line]
    } else {
        laid(text::split(line, ' '), width).all()
    }
}

// --- laws ------------------------------------------------------------------

/// What is left of a text when its spaces are taken out.
pub open spec fn ink(s: Seq<char>) -> Seq<char> {
    s.filter(|c: char| c != ' ')
}

proof fn lemma_blocks(word: Seq<char>, width: nat)
    requires
        width > 0,
    ensures
        forall|i: int|
            0 <= i < full_blocks(word, width).len() ==> (#[trigger] full_blocks(word, width)[i]).len()
                == width,
        last_block(word, width).len() <= width,
        word.len() > 0 ==> last_block(word, width).len() > 0,
        full_blocks(word, width).flatten() + last_block(word, width) == word,
    decreases word.len(),
{
    let blocks = full_blocks(word, width);
    if word.len() > width {
        let rest = word.skip(width as int);
        lemma_blocks(rest, width);
        assert(blocks.first() == word.take(width as int));
        assert(blocks.drop_first() =~= full_blocks(rest, width));
        assert(word =~= word.take(width as int) + rest);
        assert(blocks.flatten() + last_block(word, width) =~= word.take(width as int) + (full_blocks(
            rest,
            width,
        ).flatten() + last_block(rest, width)));
    } else {
        assert(blocks.flatten() + last_block(word, width) =~= word);
    }
}

proof fn lemma_laid_widths(words: Seq<Seq<char>>, width: nat)
    requires
        width > 0,
    ensures
        laid(words, width).open_line.len() <= width,
        forall|i: int|
            0 <= i < laid(words, width).lines.len() ==> 0 < (#[trigger] laid(
                words,
                width,
            ).lines[i]).len() <= width,
    decreases words.len(),
{
    if words.len() > 0 {
        lemma_laid_widths(words.drop_last(), width);
        lemma_blocks(words.last(), width);
    }
}

/// No wrapped line is wider than the paper, and wrapping an over-long line never
/// leaves a blank one.
pub proof fn wrapped_lines_fit(line: Seq<char>, width: nat)
    requires
        width > 0,
    ensures
        forall|i: int|
            0 <= i < wrapped(line, width).len() ==> (#[trigger] wrapped(line, width)[i]).len()
                <= width,
        line.len() > width ==> forall|i: int|
            0 <= i < wrapped(line, width).len() ==> (#[trigger] wrapped(line, width)[i]).len() > 0,
{
    lemma_laid_widths(text::split(line, ' '), width);
}

proof fn lemma_ink_add(a: Seq<char>, b: Seq<char>)
    ensures
        ink(a + b) == ink(a) + ink(b),
{
    Seq::filter_distributes_over_add(a, b, |c: char| c != ' ');
}

proof fn lemma_ink_push(a: Seq<char>, c: char)
    ensures
        ink(a.push(c)) == if c == ' ' { ink(a) } else { ink(a).push(c) },
{
    reveal(Seq::filter);
    assert(a.push(c).drop_last() =~= a);
}

proof fn lemma_flatten_push(a: Seq<Seq<char>>, b: Seq<char>)
    ensures
        a.push(b).flatten() == a.flatten() + b,
{
    a.lemma_flatten_push(b);
}

proof fn lemma_all_flat(l: Laid)
    ensures
        l.all().flatten() == l.lines.flatten() + l.open_line,
{
    if l.open_line.len() > 0 {
        lemma_flatten_push(l.lines, l.open_line);
    } else {
        assert(l.lines.flatten() + l.open_line =~= l.lines.flatten());
    }
}

proof fn lemma_laid_ink(words: Seq<Seq<char>>, width: nat)
    requires
        width > 0,
    ensures
        ink(laid(words, width).all().flatten()) == ink(words.flatten()),
    decreases words.len(),
{
    let now = laid(words, width);
    if words.len() == 0 {
        assert(now.all() =~= words);
    } else {
        let before = laid(words.drop_last(), width);
        let word = words.last();
        lemma_laid_ink(words.drop_last(), width);
        lemma_all_flat(before);
        lemma_all_flat(now);
        assert(words =~= words.drop_last().push(word));
        lemma_flatten_push(words.drop_last(), word);
        lemma_ink_add(words.drop_last().flatten(), word);
        let done = before.lines.flatten();
        let line = before.open_line;
        lemma_ink_add(done, line);
        lemma_ink_add(done + line, word);
        if word.len() > width {
            lemma_blocks(word, width);
            vstd::seq_lib::lemma_flatten_concat(before.all(), full_blocks(word, width));
            assert(now.all().flatten() =~= before.all().flatten() + word);
        } else if line.len() == 0 {
            assert(done + line =~= done);
        } else if line.len() + 1 + word.len() <= width {
            lemma_ink_push(line, ' ');
            lemma_ink_add(line.push(' '), word);
            lemma_ink_add(done, line.push(' ') + word);
            assert(ink(now.all().flatten()) =~= ink(done) + ink(line) + ink(word));
        } else {
            lemma_flatten_push(before.lines, line);
        }
    }
}

proof fn lemma_split_ink(s: Seq<char>)
    ensures
        text::split(s, ' ').len() > 0,
        ink(text::split(s, ' ').flatten()) == ink(s),
    decreases s.len(),
{
    let now = text::split(s, ' ');
    if s.len() == 0 {
        assert(s =~= Seq::<char>::empty());
        assert(now =~= Seq::<Seq<char>>::empty().push(s));
        lemma_flatten_push(Seq::<Seq<char>>::empty(), s);
        assert(Seq::<Seq<char>>::empty().flatten() + s =~= s);
    } else {
        let before = text::split(s.drop_last(), ' ');
        lemma_split_ink(s.drop_last());
        assert(s =~= s.drop_last().push(s.last()));
        lemma_ink_push(s.drop_last(), s.last());
        assert(before =~= before.drop_last().push(before.last()));
        lemma_flatten_push(before.drop_last(), before.last());
        if s.last() == ' ' {
            lemma_flatten_push(before, Seq::empty());
            assert(now.flatten() =~= before.flatten());
        } else {
            lemma_flatten_push(before.drop_last(), before.last().push(s.last()));
            assert(now.flatten() =~= before.flatten().push(s.last()));
            lemma_ink_push(before.flatten(), s.last());
        }
    }
}

/// Wrapping loses nothing but spaces: the characters other than spaces come out
/// in the order they went in.
pub proof fn wrapping_keeps_every_character(line: Seq<char>, width: nat)
    requires
        width > 0,
    ensures
        ink(wrapped(line, width).flatten()) == ink(line),
{
    if line.len() <= width {
        assert(wrapped(line, width) =~= Seq::<Seq<char>>::empty().push(line));
        lemma_flatten_push(Seq::<Seq<char>>::empty(), line);
        assert(Seq::<Seq<char>>::empty().flatten() + line =~= line);
    } else {
        lemma_split_ink(line);
        lemma_laid_ink(text::split(line, ' '), width);
    }
}

/// Whether one of the lines holds the word unbroken.
pub open spec fn holds_whole(lines: Seq<Seq<char>>, word: Seq<char>) -> bool {
    exists|i: int| 0 <= i < lines.len() && text::holds(#[trigger] lines[i], word)
}

proof fn lemma_still_held(a: Seq<char>, b: Seq<char>, c: Seq<char>, word: Seq<char>)
    requires
        text::holds(b, word),
    ensures
        text::holds(a + b + c, word),
{
    let at = choose|at: int| text::stands_at(b, word, at);
    assert((a + b + c).subrange(a.len() + at, a.len() + at + word.len()) =~= b.subrange(
        at,
        at + word.len(),
    ));
    assert(text::stands_at(a + b + c, word, a.len() + at));
}

/// One more word keeps every word that was laid out, and is itself laid out whole if
/// it fits.
proof fn lemma_words_stay_whole(l: Laid, next: Seq<char>, width: nat, word: Seq<char>)
    requires
        width > 0,
        0 < word.len() <= width,
        holds_whole(l.all(), word) || word == next,
    ensures
        holds_whole(l.with_word(next, width).all(), word),
{
    let after = l.with_word(next, width);
    let none = Seq::<char>::empty();
    lemma_blocks(next, width);
    if holds_whole(l.all(), word) {
        let i = choose|i: int| 0 <= i < l.all().len() && text::holds(#[trigger] l.all()[i], word);
        if i < l.lines.len() || next.len() > width || l.open_line.len() + 1 + next.len() > width {
            assert(after.all()[i] == l.all()[i]);
        } else {
            let line = l.open_line;
            lemma_still_held(none, line, seq![' '] + next, word);
            assert(none + line + (seq![' '] + next) =~= line.push(' ') + next);
            assert(after.all()[i] == line.push(' ') + next);
        }
    } else {
        assert(word.subrange(0, word.len() as int) =~= word);
        assert(text::stands_at(word, word, 0));
        let last = after.all().len() - 1;
        if l.open_line.len() > 0 && l.open_line.len() + 1 + next.len() <= width {
            lemma_still_held(l.open_line.push(' '), next, none, word);
            assert(l.open_line.push(' ') + next + none =~= l.open_line.push(' ') + next);
        }
        assert(after.all()[last] == after.open_line);
        assert(text::holds(after.all()[last], word));
    }
}

proof fn lemma_laid_whole(words: Seq<Seq<char>>, width: nat, k: int)
    requires
        width > 0,
        0 <= k < words.len(),
        0 < words[k].len() <= width,
    ensures
        holds_whole(laid(words, width).all(), words[k]),
    decreases words.len(),
{
    let before = words.drop_last();
    if k < before.len() {
        lemma_laid_whole(before, width, k);
        assert(before[k] == words[k]);
    }
    lemma_words_stay_whole(laid(before, width), words.last(), width, words[k]);
}

/// Only over-long words are broken: a word that fits the width stands unbroken on one
/// of the lines.
pub proof fn words_that_fit_stay_whole(line: Seq<char>, width: nat, k: int)
    requires
        0 <= k < text::split(line, ' ').len(),
        0 < text::split(line, ' ')[k].len() <= width,
    ensures
        holds_whole(wrapped(line, width), text::split(line, ' ')[k]),
{
    if line.len() <= width {
        text::split_pieces_are_stretches(line, ' ');
        assert(wrapped(line, width)[0] == line);
    } else {
        lemma_laid_whole(text::split(line, ' '), width, k);
    }
}

/// A line that fits stays as it is, its spaces included, and comes out as one line.
pub proof fn a_line_that_fits_stays_as_it_is(line: Seq<char>, width: nat)
    requires
        line.len() <= width,
    ensures
        wrapped(line, width) == seq![line],
{
}

/// What stands before the first space of a line.
pub open spec fn first_word(line: Seq<char>) -> Seq<char> {
    text::split(line, ' ')[0]
}

/// No line ends while the next word would still fit on it.
spec fn well_filled(lines: Seq<Seq<char>>, width: nat) -> bool {
    forall|i: int|
        0 <= i < lines.len() - 1 ==> (#[trigger] lines[i]).len() + 1 + first_word(
            lines[i + 1],
        ).len() > width
}

proof fn lemma_one_word(word: Seq<char>)
    requires
        !word.contains(' '),
    ensures
        first_word(word) == word,
{
    text::a_text_without_separators_is_one_piece(word, ' ');
}

proof fn lemma_filled(l: Laid, word: Seq<char>, width: nat)
    requires
        width > 0,
        !word.contains(' '),
        well_filled(l.all(), width),
        l.open_line.len() == 0 && l.lines.len() > 0 ==> l.lines.last().len() >= width,
    ensures
        ({
            let after = l.with_word(word, width);
            &&& well_filled(after.all(), width)
            &&& after.open_line.len() == 0 && after.lines.len() > 0 ==> after.lines.last().len()
                >= width
        }),
{
    let after = l.with_word(word, width);
    let (was, now) = (l.all(), after.all());
    lemma_one_word(word);
    lemma_blocks(word, width);
    if word.len() > width {
        let blocks = full_blocks(word, width);
        assert(blocks[0] == word.take(width as int));
        assert forall|i: int| 0 <= i < word.take(width as int).len() implies word.take(
            width as int,
        )[i] != ' ' by {
            assert(word.contains(word[i]));
        }
        lemma_one_word(blocks[0]);
        assert forall|i: int| 0 <= i < now.len() - 1 implies (#[trigger] now[i]).len() + 1
            + first_word(now[i + 1]).len() > width by {
            if i < was.len() - 1 {
                assert(now[i] == was[i] && now[i + 1] == was[i + 1]);
            } else if i == was.len() - 1 {
                assert(now[i + 1] == blocks[0]);
            } else {
                assert(now[i] == blocks[i - was.len()]);
            }
        }
    } else {
        if l.open_line.len() > 0 && l.open_line.len() + 1 + word.len() <= width {
            text::a_separator_parts_a_text(l.open_line, word, ' ');
            text::split_pieces_rejoin(l.open_line, ' ');
            assert(first_word(after.open_line) == first_word(l.open_line));
        }
        assert forall|i: int| 0 <= i < now.len() - 1 implies (#[trigger] now[i]).len() + 1
            + first_word(now[i + 1]).len() > width by {
            if i < was.len() - 1 {
                assert(now[i] == was[i]);
                assert(was[i].len() + 1 + first_word(was[i + 1]).len() > width);
            }
        }
    }
}

proof fn lemma_laid_filled(words: Seq<Seq<char>>, width: nat)
    requires
        width > 0,
        forall|i: int| 0 <= i < words.len() ==> !(#[trigger] words[i]).contains(' '),
    ensures
        ({
            let l = laid(words, width);
            &&& well_filled(l.all(), width)
            &&& l.open_line.len() == 0 && l.lines.len() > 0 ==> l.lines.last().len() >= width
        }),
    decreases words.len(),
{
    if words.len() > 0 {
        let before = words.drop_last();
        assert(forall|i: int| 0 <= i < before.len() ==> #[trigger] before[i] == words[i]);
        lemma_laid_filled(before, width);
        assert(!words[words.len() - 1].contains(' '));
        lemma_filled(laid(before, width), words.last(), width);
    }
}

/// No paper is wasted: a line ends only where the word that begins the next one would
/// not have fitted behind it.
pub proof fn lines_are_filled_before_the_next(line: Seq<char>, width: nat, i: int)
    requires
        width > 0,
        0 <= i < wrapped(line, width).len() - 1,
    ensures
        wrapped(line, width)[i].len() + 1 + first_word(wrapped(line, width)[i + 1]).len() > width,
{
    text::split_pieces_rejoin(line, ' ');
    lemma_laid_filled(text::split(line, ' '), width);
}

/// A word that is wider than the paper is cut into lines that are full to the last
/// character, but for the last of them, and nothing of it is lost.
pub proof fn over_long_words_fill_their_lines(word: Seq<char>, width: nat)
    requires
        0 < width < word.len(),
        !word.contains(' '),
    ensures
        ({
            let lines = wrapped(word, width);
            &&& lines.len() > 1
            &&& forall|i: int| 0 <= i < lines.len() - 1 ==> (#[trigger] lines[i]).len() == width
            &&& lines.flatten() == word
        }),
{
    text::a_text_without_separators_is_one_piece(word, ' ');
    let none = Laid { lines: Seq::empty(), open_line: Seq::empty() };
    let words = seq![word];
    assert(words.drop_last() =~= Seq::<Seq<char>>::empty());
    assert(laid(words.drop_last(), width) == none);
    let after = none.with_word(word, width);
    assert(laid(words, width) == after);
    lemma_blocks(word, width);
    assert(after.lines =~= full_blocks(word, width));
    lemma_all_flat(after);
    assert(full_blocks(word, width)[0] == word.take(width as int));
}

/// The words, with a space between each two.
spec fn spaced(words: Seq<Seq<char>>) -> Seq<char> {
    text::joined(words, seq![' '])
}

proof fn lemma_tail_of_a_word(word: Seq<char>, width: nat)
    requires
        width > 0,
    ensures
        last_block(word, width).len() <= word.len(),
        last_block(word, width) == word.skip(word.len() - last_block(word, width).len()),
        forall|i: int|
            0 <= i < full_blocks(word, width).len() ==> text::holds(
                word,
                #[trigger] full_blocks(word, width)[i],
            ),
    decreases word.len(),
{
    if word.len() > width {
        let rest = word.skip(width as int);
        let blocks = full_blocks(word, width);
        lemma_tail_of_a_word(rest, width);
        let last = last_block(word, width);
        assert(last =~= word.skip(word.len() - last.len()));
        assert forall|i: int| 0 <= i < blocks.len() implies text::holds(
            word,
            #[trigger] blocks[i],
        ) by {
            if i == 0 {
                assert(word.subrange(0, width as int) =~= blocks[0]);
                assert(text::stands_at(word, blocks[0], 0));
            } else {
                let block = full_blocks(rest, width)[i - 1];
                assert(blocks[i] == block);
                let at = choose|at: int| text::stands_at(rest, block, at);
                assert(word.subrange(at + width, at + width + block.len()) =~= rest.subrange(
                    at,
                    at + block.len(),
                ));
                assert(text::stands_at(word, block, at + width));
            }
        }
    } else {
        assert(word.skip(0) =~= word);
    }
}

proof fn lemma_laid_stretches(words: Seq<Seq<char>>, width: nat)
    requires
        width > 0,
    ensures
        ({
            let l = laid(words, width);
            let so_far = spaced(words);
            &&& l.open_line.len() <= so_far.len()
            &&& l.open_line == so_far.skip(so_far.len() - l.open_line.len())
            &&& forall|i: int| 0 <= i < l.lines.len() ==> text::holds(so_far, #[trigger] l.lines[i])
        }),
    decreases words.len(),
{
    let now = laid(words, width);
    let s = spaced(words);
    if words.len() == 0 {
        assert(now.open_line =~= s.skip(0));
    } else {
        let init = words.drop_last();
        let word = words.last();
        let was = laid(init, width);
        let t = spaced(init);
        lemma_laid_stretches(init, width);
        lemma_tail_of_a_word(word, width);
        let lead = s.len() - word.len();
        assert(s.skip(lead) =~= word);
        let none = Seq::<char>::empty();
        let rest = s.skip(t.len() as int);
        assert(s =~= none + t + rest);
        assert forall|part: Seq<char>| text::holds(t, part) implies #[trigger] text::holds(
            s,
            part,
        ) by {
            lemma_still_held(none, t, rest, part);
        }
        assert forall|part: Seq<char>| text::holds(word, part) implies #[trigger] text::holds(
            s,
            part,
        ) by {
            lemma_still_held(s.take(lead), word, none, part);
            assert(s.take(lead) + word + none =~= s);
        }
        if was.open_line.len() > 0 {
            let at = t.len() - was.open_line.len();
            assert(t.subrange(at, t.len() as int) =~= was.open_line);
            assert(text::stands_at(t, was.open_line, at));
            assert(text::holds(t, was.open_line));
            assert(init.len() > 0);
            assert(s =~= t.push(' ') + word);
        }
        assert forall|i: int| 0 <= i < now.lines.len() implies text::holds(
            s,
            #[trigger] now.lines[i],
        ) by {
            if i < was.lines.len() {
                assert(now.lines[i] == was.lines[i]);
                assert(text::holds(t, was.lines[i]));
            } else if word.len() > width {
                let k = i - was.all().len();
                if k >= 0 {
                    assert(now.lines[i] == full_blocks(word, width)[k]);
                    assert(text::holds(word, full_blocks(word, width)[k]));
                } else {
                    assert(now.lines[i] == was.open_line);
                }
            } else {
                assert(now.lines[i] == was.open_line);
            }
        }
        assert(now.open_line =~= s.skip(s.len() - now.open_line.len()));
    }
}

/// Every line is a stretch of the text as it was given: nothing is put in, and what
/// stands together on a line stood together, with the same spaces between.
pub proof fn wrapped_lines_are_stretches(line: Seq<char>, width: nat)
    requires
        width > 0,
    ensures
        forall|i: int|
            0 <= i < wrapped(line, width).len() ==> text::holds(
                line,
                #[trigger] wrapped(line, width)[i],
            ),
{
    if line.len() <= width {
        assert(line.subrange(0, line.len() as int) =~= line);
        assert(text::stands_at(line, line, 0));
    } else {
        let words = text::split(line, ' ');
        text::split_pieces_rejoin(line, ' ');
        lemma_laid_stretches(words, width);
        let l = laid(words, width);
        if l.open_line.len() > 0 {
            let at = line.len() - l.open_line.len();
            assert(line.subrange(at, line.len() as int) =~= l.open_line);
            assert(text::stands_at(line, l.open_line, at));
            assert(text::holds(line, l.open_line));
        }
    }
}

// --- wrapping --------------------------------------------------------------

/// Adds one more word to the lines laid out so far.
fn add_word(lines: &mut Vec<Vec<char>>, open_line: Vec<char>, word: &[char], width: usize) -> (r:
    Vec<char>)
    requires
        width > 0 || word@.len() == 0,
    ensures
        ({
            let before = Laid { lines: text::pieces(old(lines)@), open_line: open_line@ };
            let after = before.with_word(word@, width as nat);
            text::pieces(final(lines)@) == after.lines && r@ == after.open_line
        }),
{
    let mut open_line = open_line;
    let ghost before = Laid { lines: text::pieces(lines@), open_line: open_line@ };
    if word.len() > width {
        if open_line.len() > 0 {
            let ghost lines_before = lines@;
            lines.push(open_line);
            assert(text::pieces(lines@) =~= text::pieces(lines_before).push(before.open_line));
        }
        assert(text::pieces(lines@) == before.all());
        let mut rest: &[char] = word;
        assert(text::pieces(lines@) + full_blocks(rest@, width as nat) =~= before.all() + full_blocks(
            word@,
            width as nat,
        ));
        while rest.len() > width
            invariant
                width > 0,
                text::pieces(lines@) + full_blocks(rest@, width as nat) == before.all() + full_blocks(
                    word@,
                    width as nat,
                ),
                last_block(rest@, width as nat) == last_block(word@, width as nat),
            decreases rest@.len(),
        {
            let ghost lines_before = lines@;
            let ghost blocks = full_blocks(rest@, width as nat);
            let mut block: Vec<char> = Vec::new();
            block.extend_from_slice(slice_subrange(rest, 0, width));
            assert(block@ =~= rest@.take(width as int));
            let ghost block_view = block@;
            lines.push(block);
            rest = slice_subrange(rest, width, rest.len());
            assert(text::pieces(lines@) =~= text::pieces(lines_before).push(block_view));
            assert(blocks == seq![block_view] + full_blocks(rest@, width as nat));
            assert(text::pieces(lines@) + full_blocks(rest@, width as nat) =~= text::pieces(lines_before)
                + blocks);
        }
        assert(text::pieces(lines@) =~= before.all() + full_blocks(word@, width as nat));
        let mut last: Vec<char> = Vec::new();
        last.extend_from_slice(rest);
        assert(last@ =~= rest@);
        return last;
    }
    if open_line.len() > 0 {
        if width - word.len() > open_line.len() {
            open_line.push(' ');
        } else {
            let ghost lines_before = lines@;
            lines.push(open_line);
            assert(text::pieces(lines@) =~= text::pieces(lines_before).push(before.open_line));
            open_line = Vec::new();
        }
    }
    open_line.extend_from_slice(word);
    assert(open_line@ =~= before.with_word(word@, width as nat).open_line);
    open_line
}

/// A line of characters wrapped to `width`. Only spaces fit into no width at all.
pub fn wrap_chars(line: &[char], width: usize) -> (out: Vec<Vec<char>>)
    requires
        width > 0 || forall|i: int| 0 <= i < line@.len() ==> #[trigger] line@[i] == ' ',
    ensures
        text::pieces(out@) == wrapped(line@, width as nat),
{
    let mut out: Vec<Vec<char>> = Vec::new();
    if line.len() <= width {
        let mut only: Vec<char> = Vec::new();
        only.extend_from_slice(line);
        assert(only@ =~= line@);
        out.push(only);
        assert(text::pieces(out@) =~= seq![line@]);
        return out;
    }
    let words = split_on(line, ' ');
    let mut open_line: Vec<char> = Vec::new();
    let ghost all_words = text::split(line@, ' ');
    assert(text::pieces(words@).take(0) =~= Seq::<Seq<char>>::empty());
    assert(text::pieces(out@) =~= Seq::<Seq<char>>::empty());
    proof {
        if width == 0 {
            text::separators_alone_make_empty_pieces(line@, ' ');
        }
    }
    for i in 0..words.len()
        invariant
            width > 0 || forall|k: int|
                0 <= k < all_words.len() ==> (#[trigger] all_words[k]).len() == 0,
            text::pieces(words@) == all_words,
            (Laid { lines: text::pieces(out@), open_line: open_line@ }) == laid(
                all_words.take(i as int),
                width as nat,
            ),
    {
        assert(all_words.take(i + 1).drop_last() =~= all_words.take(i as int));
        assert(all_words[i as int] == words@[i as int]@);
        open_line = add_word(&mut out, open_line, words[i].as_slice(), width);
    }
    assert(all_words.take(words@.len() as int) =~= all_words);
    if open_line.len() > 0 {
        let ghost out_before = out@;
        let ghost last = open_line@;
        out.push(open_line);
        assert(text::pieces(out@) =~= text::pieces(out_before).push(last));
    }
    out
}

/// Word-wrap a single line, breaking over-long words rather than overflowing.
pub fn wrap(line: &str, width: usize) -> (out: Vec<String>)
    requires
        width > 0 || forall|i: int| 0 <= i < line@.len() ==> #[trigger] line@[i] == ' ',
    ensures
        text::views(out@) == wrapped(line@, width as nat),
{
    let cs = chars_of(line);
    let lines = wrap_chars(cs.as_slice(), width);
    let mut out: Vec<String> = Vec::new();
    for i in 0..lines.len()
        invariant
            text::views(out@) == text::pieces(lines@).take(i as int),
    {
        let ghost out_before = out@;
        let s = string_of(lines[i].as_slice());
        let ghost text = s@;
        out.push(s);
        assert(text::views(out@) =~= text::views(out_before).push(text));
    }
    assert(text::views(out@) =~= text::pieces(lines@));
    out
}

} // verus!
