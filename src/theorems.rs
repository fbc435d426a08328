//! Facts about the layout as a whole, proved from the definitions.
use vstd::prelude::*;
use vstd::arithmetic::div_mod::lemma_fundamental_div_mod;
use crate::breaking::{
    Line, MAX_WIDTH, back_at, back_table, choice, costs, fits, lemma_scan_choice, lemma_walk_total, partition,
    lemma_span_grows, slack, span, total_words, walk,
};
use crate::layout::{layout, widths_of};
use crate::render::{Align, blanks, gaps, join, justified, line_text, line_words, page};
use crate::words::{is_word, split_state, white_space, words_of};

verus! {

proof fn lemma_append_word_chars(s: Seq<char>, w: Seq<char>)
    requires
        forall|k: int| 0 <= k < w.len() ==> !white_space(#[trigger] w[k]),
    ensures
        split_state(s + w) == (split_state(s).0, split_state(s).1 + w),
    decreases w.len(),
{
    if w.len() == 0 {
        assert(s + w =~= s);
        assert(split_state(s).1 + w =~= split_state(s).1);
    } else {
        let w0 = w.drop_last();
        lemma_append_word_chars(s, w0);
        assert((s + w).drop_last() =~= s + w0);
        assert((s + w).last() == w.last());
        assert(split_state(s).1 + w0 + seq![w.last()] =~= split_state(s).1 + w);
        assert((split_state(s).1 + w0).push(w.last()) =~= split_state(s).1 + w);
    }
}

proof fn lemma_split_join(ws: Seq<Seq<char>>)
    requires
        ws.len() >= 1,
        forall|k: int| 0 <= k < ws.len() ==> is_word(#[trigger] ws[k]),
    ensures
        split_state(join(ws)) == (ws.drop_last(), ws.last()),
    decreases ws.len(),
{
    let last = ws.last();
    assert(is_word(ws[ws.len() - 1]));
    if ws.len() == 1 {
        lemma_append_word_chars(seq![], last);
        assert(seq![] + last =~= last);
        assert(ws.drop_last() =~= seq![]);
    } else {
        let init = ws.drop_last();
        lemma_split_join(init);
        let s = join(init) + seq![' '];
        assert(s.drop_last() =~= join(init));
        assert(white_space(' '));
        assert(split_state(s) == (init.drop_last().push(init.last()), Seq::<char>::empty()));
        assert(init.drop_last().push(init.last()) =~= init);
        lemma_append_word_chars(s, last);
    }
}

proof fn lemma_words_are_words(s: Seq<char>)
    ensures
        forall|k: int| 0 <= k < split_state(s).0.len() ==> is_word(#[trigger] split_state(s).0[k]),
        forall|k: int| 0 <= k < split_state(s).1.len() ==> !white_space(#[trigger] split_state(s).1[k]),
        forall|k: int| 0 <= k < words_of(s).len() ==> is_word(#[trigger] words_of(s)[k]),
    decreases s.len(),
{
    let st = split_state(s);
    if s.len() > 0 {
        let p = split_state(s.drop_last());
        lemma_words_are_words(s.drop_last());
        let c = s.last();
        if white_space(c) {
            if p.1.len() > 0 {
                assert(st.0 == p.0.push(p.1));
                assert forall|k: int| 0 <= k < st.0.len() implies is_word(#[trigger] st.0[k]) by {
                    if k < p.0.len() {
                        assert(st.0[k] == p.0[k]);
                    } else {
                        assert(st.0[k] == p.1);
                    }
                }
            }
        } else {
            assert(st.1 == p.1.push(c));
            assert forall|k: int| 0 <= k < st.1.len() implies !white_space(#[trigger] st.1[k]) by {
                if k < p.1.len() {
                    assert(st.1[k] == p.1[k]);
                }
            }
        }
    }
    assert forall|k: int| 0 <= k < words_of(s).len() implies is_word(#[trigger] words_of(s)[k]) by {
        if k < st.0.len() {
            assert(words_of(s)[k] == st.0[k]);
        } else {
            assert(words_of(s)[k] == st.1);
        }
    }
}

/// Joining consecutive words of a text run with single spaces, as a
/// rendered line shows them, and splitting the result again gives back
/// exactly those words.
pub proof fn retokenize_joined_words(text: Seq<char>, a: int, b: int)
    requires
        0 <= a <= b <= words_of(text).len(),
    ensures
        words_of(join(words_of(text).subrange(a, b))) == words_of(text).subrange(a, b),
{
    let ws = words_of(text).subrange(a, b);
    lemma_words_are_words(text);
    if ws.len() == 0 {
        assert(join(ws) =~= Seq::<char>::empty());
        assert(ws =~= Seq::<Seq<char>>::empty());
    } else {
        assert forall|k: int| 0 <= k < ws.len() implies is_word(#[trigger] ws[k]) by {
            assert(ws[k] == words_of(text)[a + k]);
        }
        lemma_split_join(ws);
        assert(is_word(ws.last()));
        assert(ws.drop_last().push(ws.last()) =~= ws);
    }
}

/// Total number of characters over `ws`.
pub open spec fn chars_len(ws: Seq<Seq<char>>) -> int
    decreases ws.len(),
{
    if ws.len() == 0 {
        0
    } else {
        ws[0].len() + chars_len(ws.drop_first())
    }
}

proof fn lemma_chars_len_last(ws: Seq<Seq<char>>)
    requires
        ws.len() >= 1,
    ensures
        chars_len(ws) == chars_len(ws.drop_last()) + ws.last().len(),
    decreases ws.len(),
{
    if ws.len() > 1 {
        lemma_chars_len_last(ws.drop_first());
        assert(ws.drop_first().drop_last() =~= ws.drop_last().drop_first());
        assert(ws.drop_last()[0] == ws[0]);
        assert(ws.drop_first().last() == ws.last());
    } else {
        assert(ws.drop_first().len() == 0);
        assert(ws.drop_last().len() == 0);
        assert(chars_len(ws.drop_first()) == 0);
        assert(chars_len(ws.drop_last()) == 0);
    }
}

proof fn lemma_join_len(ws: Seq<Seq<char>>)
    requires
        ws.len() >= 1,
    ensures
        join(ws).len() == chars_len(ws) + ws.len() - 1,
    decreases ws.len(),
{
    lemma_chars_len_last(ws);
    if ws.len() > 1 {
        lemma_join_len(ws.drop_last());
    } else {
        assert(ws.drop_last().len() == 0);
    }
}

proof fn lemma_gaps_len(rest: Seq<Seq<char>>, sp: int)
    requires
        rest.len() >= 1,
        sp >= 0,
    ensures
        gaps(rest, sp).len() == chars_len(rest) + sp,
    decreases rest.len(),
{
    let a = sp / (rest.len() as int);
    assert(0 <= a <= sp) by (nonlinear_arith)
        requires a == sp / (rest.len() as int), rest.len() >= 1, sp >= 0;
    assert(blanks(a).len() == a);
    if rest.len() == 1 {
        assert(a == sp) by (nonlinear_arith)
            requires a == sp / (rest.len() as int), rest.len() == 1;
        assert(rest.drop_first().len() == 0);
        assert(chars_len(rest.drop_first()) == 0);
        assert(gaps(rest.drop_first(), 0).len() == 0);
        assert(gaps(rest, sp) == blanks(a) + rest[0] + gaps(rest.drop_first(), sp - a));
        assert(chars_len(rest) == rest[0].len() + chars_len(rest.drop_first()));
    } else {
        lemma_gaps_len(rest.drop_first(), sp - a);
        let g = gaps(rest, sp);
        assert(g == blanks(a) + rest[0] + gaps(rest.drop_first(), sp - a));
        assert(g.len() == a + rest[0].len() + gaps(rest.drop_first(), sp - a).len());
        assert(chars_len(rest) == rest[0].len() + chars_len(rest.drop_first()));
    }
}

proof fn lemma_span_chars(words: Seq<Seq<char>>, e: int, j: int)
    requires
        0 <= j <= e <= words.len(),
        forall|k: int| 0 <= k < words.len() ==> (#[trigger] words[k]).len() < usize::MAX,
    ensures
        span(widths_of(words), e, j) == chars_len(words.subrange(e - j, e)) + j,
    decreases j,
{
    if j > 0 {
        lemma_span_chars(words, e, j - 1);
        assert(words.subrange(e - j, e).drop_first() =~= words.subrange(e - j + 1, e));
        assert(words.subrange(e - j, e)[0] == words[e - j]);
    } else {
        assert(words.subrange(e, e).len() == 0);
    }
}

proof fn lemma_word_len(s: Seq<char>)
    ensures
        split_state(s).1.len() <= s.len(),
        split_state(s).0.len() + split_state(s).1.len() <= s.len(),
        words_of(s).len() <= s.len(),
        forall|k: int| 0 <= k < split_state(s).0.len() ==> (#[trigger] split_state(s).0[k]).len() <= s.len(),
        forall|k: int| 0 <= k < words_of(s).len() ==> (#[trigger] words_of(s)[k]).len() <= s.len(),
    decreases s.len(),
{
    let st = split_state(s);
    if s.len() > 0 {
        let p = split_state(s.drop_last());
        lemma_word_len(s.drop_last());
        assert forall|k: int| 0 <= k < st.0.len() implies (#[trigger] st.0[k]).len() <= s.len() by {
            if k < p.0.len() {
                assert(st.0[k] == p.0[k]);
            } else {
                assert(st.0[k] == p.1);
            }
        }
    }
    assert forall|k: int| 0 <= k < words_of(s).len() implies (#[trigger] words_of(s)[k]).len() <= s.len() by {
        if k < st.0.len() {
            assert(words_of(s)[k] == st.0[k]);
        } else {
            assert(words_of(s)[k] == st.1);
        }
    }
}

/// Line `li` of the walk from prefix `i` is the back-pointer at the prefix
/// where it ends, and starts right after the lines before it.
proof fn lemma_walk_line(ws: Seq<usize>, width: int, waive_last: bool, i: int, li: int)
    requires
        0 <= i <= ws.len(),
        ws.len() <= usize::MAX,
        0 <= li < walk(back_table(ws, width, waive_last), i).len(),
    ensures
        ({
            let lines = walk(back_table(ws, width, waive_last), i);
            let e = total_words(lines.take(li + 1));
            &&& 1 <= e <= i
            &&& lines[li] == back_at(ws, width, waive_last, e)
            &&& total_words(lines.take(li)) + lines[li].words == e
        }),
    decreases i,
{
    let back = back_table(ws, width, waive_last);
    let lines = walk(back, i);
    lemma_scan_choice(ws, width, waive_last, costs(ws, width, waive_last, (i - 1) as nat), i, i);
    let j = choice(ws, width, waive_last, i);
    assert(back[i].words == j);
    let prev = walk(back, i - j);
    assert(lines == prev.push(back[i]));
    if li < prev.len() {
        lemma_walk_line(ws, width, waive_last, i - j, li);
        assert(lines.take(li + 1) =~= prev.take(li + 1));
        assert(lines.take(li) =~= prev.take(li));
    } else {
        lemma_walk_total(ws, width, waive_last, i);
        lemma_walk_total(ws, width, waive_last, i - j);
        assert(lines.take(li + 1) =~= lines);
        assert(lines.take(li) =~= prev);
    }
}

/// In a justified paragraph, every line but the last that holds two words
/// or more is exactly `width` characters long.
pub proof fn justified_lines_fill_width(text: Seq<char>, width: int, li: int)
    requires
        0 <= width <= MAX_WIDTH,
        text.len() < usize::MAX,
        0 <= li < partition(widths_of(words_of(text)), width, true).len() - 1,
        partition(widths_of(words_of(text)), width, true)[li].words >= 2,
    ensures
        layout(text, Align::Justify, width)[li].len() == width,
{
    let words = words_of(text);
    let ws = widths_of(words);
    let lines = partition(ws, width, true);
    lemma_word_len(text);
    lemma_walk_line(ws, width, true, ws.len() as int, li);
    let e = total_words(lines.take(li + 1));
    let j = choice(ws, width, true, e);
    lemma_scan_choice(ws, width, true, costs(ws, width, true, (e - 1) as nat), e, e);
    lemma_span_chars(words, e, j);
    let lw = words.subrange(e - j, e);
    let sl = slack(ws, width, e, j);
    assert(fits(ws, width, e, j));
    lemma_span_grows(ws, e, 0, j);
    assert(0 <= sl <= width + 1);
    assert(lines[li] == Line { words: j as usize, slack: sl as usize });
    lemma_gaps_len(lw.drop_first(), sl + j - 1);
    assert(chars_len(lw) == lw[0].len() + chars_len(lw.drop_first()));
    assert(justified(lw, sl + j - 1).len() == width);
    assert(line_words(words, lines, li) == lw);
    assert(line_text(words, lines, Align::Justify, li) == justified(lw, sl + j - 1));
    assert(layout(text, Align::Justify, width) == page(words, lines, Align::Justify));
}

/// In a centered paragraph whose words are each at most `width` long, no
/// line, indent included, is longer than `width`.
pub proof fn centered_lines_fit(text: Seq<char>, width: int, li: int)
    requires
        0 <= width <= MAX_WIDTH,
        text.len() < usize::MAX,
        forall|k: int| 0 <= k < words_of(text).len() ==> (#[trigger] words_of(text)[k]).len() <= width,
        0 <= li < partition(widths_of(words_of(text)), width, false).len(),
    ensures
        layout(text, Align::Center, width)[li].len() <= width,
{
    let words = words_of(text);
    let ws = widths_of(words);
    let lines = partition(ws, width, false);
    lemma_word_len(text);
    lemma_walk_line(ws, width, false, ws.len() as int, li);
    let e = total_words(lines.take(li + 1));
    let j = choice(ws, width, false, e);
    lemma_scan_choice(ws, width, false, costs(ws, width, false, (e - 1) as nat), e, e);
    lemma_span_chars(words, e, j);
    let lw = words.subrange(e - j, e);
    if j == 1 {
        assert(lw[0] == words[e - 1]);
        assert(chars_len(lw) == lw[0].len() + chars_len(lw.drop_first()));
        assert(lw.drop_first().len() == 0);
    }
    assert(span(ws, e, j) <= width + 1);
    let sl = slack(ws, width, e, j);
    lemma_span_grows(ws, e, 0, j);
    assert(0 <= sl <= width + 1);
    assert(lines[li] == Line { words: j as usize, slack: sl as usize });
    lemma_join_len(lw);
    assert(blanks(sl / 2).len() == sl / 2);
}

/// Laying out is a function of its inputs: the same text, alignment and
/// width give the same output lines.
pub proof fn layout_deterministic(t1: Seq<char>, t2: Seq<char>, align: Align, width: int)
    requires
        t1 == t2,
    ensures
        layout(t1, align, width) == layout(t2, align, width),
{
}

/// A text run with no words gives no line, only the blank separator.
pub proof fn empty_text_gives_separator_only(text: Seq<char>, align: Align, width: int)
    requires
        words_of(text).len() == 0,
    ensures
        layout(text, align, width) == seq![Seq::<char>::empty()],
{
    let lines = partition(widths_of(words_of(text)), width, align == Align::Justify);
    assert(lines.len() == 0);
    assert(layout(text, align, width) =~= seq![Seq::<char>::empty()]);
}

proof fn lemma_blanks_split(s: Seq<char>, a: int)
    requires
        a >= 1,
    ensures
        split_state(s + blanks(a)) == (words_of(s), Seq::<char>::empty()),
    decreases a,
{
    assert(white_space(' '));
    let t = s + blanks(a);
    assert(t.last() == ' ');
    if a == 1 {
        assert(t.drop_last() =~= s);
    } else {
        lemma_blanks_split(s, a - 1);
        assert(t.drop_last() =~= s + blanks(a - 1));
    }
}

proof fn lemma_gaps_split(s: Seq<char>, rest: Seq<Seq<char>>, sp: int)
    requires
        rest.len() >= 1,
        sp >= rest.len(),
        split_state(s).1.len() > 0,
        forall|k: int| 0 <= k < rest.len() ==> is_word(#[trigger] rest[k]),
    ensures
        split_state(s + gaps(rest, sp)) == (words_of(s) + rest.drop_last(), rest.last()),
    decreases rest.len(),
{
    let l = rest.len() as int;
    let a = sp / l;
    lemma_fundamental_div_mod(sp, l);
    assert(a >= 1 && sp - a >= l - 1) by (nonlinear_arith)
        requires sp == l * a + sp % l, 0 <= sp % l < l, l >= 1, sp >= l;
    let s1 = s + blanks(a);
    lemma_blanks_split(s, a);
    assert(is_word(rest[0]));
    lemma_append_word_chars(s1, rest[0]);
    let s2 = s1 + rest[0];
    assert(split_state(s2) == (words_of(s), rest[0]));
    let df = rest.drop_first();
    assert(gaps(rest, sp) == blanks(a) + rest[0] + gaps(df, sp - a));
    assert(s + gaps(rest, sp) =~= s2 + gaps(df, sp - a));
    if l == 1 {
        assert(df.len() == 0);
        assert(s2 + gaps(df, sp - a) =~= s2);
        assert(words_of(s) + rest.drop_last() =~= words_of(s));
    } else {
        assert forall|k: int| 0 <= k < df.len() implies is_word(#[trigger] df[k]) by {
            assert(df[k] == rest[k + 1]);
        }
        lemma_gaps_split(s2, df, sp - a);
        assert(words_of(s2) == words_of(s).push(rest[0]));
        assert(words_of(s).push(rest[0]) + df.drop_last() =~= words_of(s) + rest.drop_last());
        assert(df.last() == rest.last());
    }
}

proof fn lemma_justified_words(ws: Seq<Seq<char>>, sp: int)
    requires
        ws.len() >= 1,
        sp >= ws.len() - 1,
        forall|k: int| 0 <= k < ws.len() ==> is_word(#[trigger] ws[k]),
    ensures
        words_of(justified(ws, sp)) == ws,
{
    assert(is_word(ws[0]));
    lemma_append_word_chars(Seq::<char>::empty(), ws[0]);
    assert(Seq::<char>::empty() + ws[0] =~= ws[0]);
    assert(split_state(ws[0]) == (Seq::<Seq<char>>::empty(), ws[0]));
    if ws.len() == 1 {
        assert(justified(ws, sp) == ws[0] + gaps(ws.drop_first(), sp));
        assert(ws[0] + gaps(ws.drop_first(), sp) =~= ws[0]);
        assert(words_of(ws[0]) =~= ws);
    } else {
        let df = ws.drop_first();
        assert forall|k: int| 0 <= k < df.len() implies is_word(#[trigger] df[k]) by {
            assert(df[k] == ws[k + 1]);
        }
        lemma_gaps_split(ws[0], df, sp);
        assert(words_of(ws[0]) =~= seq![ws[0]]);
        assert(is_word(df.last()));
        assert((seq![ws[0]] + df.drop_last()).push(df.last()) =~= ws);
    }
}

/// Each rendered line of a justified paragraph, split again on whitespace,
/// gives back exactly the words the partition put on it, in order.
pub proof fn justified_line_retokenizes(text: Seq<char>, width: int, li: int)
    requires
        text.len() < usize::MAX,
        0 <= li < partition(widths_of(words_of(text)), width, true).len(),
    ensures
        words_of(layout(text, Align::Justify, width)[li])
            == line_words(words_of(text), partition(widths_of(words_of(text)), width, true), li),
{
    let words = words_of(text);
    let ws = widths_of(words);
    let lines = partition(ws, width, true);
    lemma_word_len(text);
    lemma_words_are_words(text);
    lemma_walk_line(ws, width, true, ws.len() as int, li);
    let e = total_words(lines.take(li + 1));
    let start = total_words(lines.take(li));
    let j = choice(ws, width, true, e);
    lemma_scan_choice(ws, width, true, costs(ws, width, true, (e - 1) as nat), e, e);
    assert(lines[li].words as int == j);
    let lw = line_words(words, lines, li);
    assert(lw == words.subrange(start, start + j));
    assert(0 <= start);
    assert forall|k: int| 0 <= k < lw.len() implies is_word(#[trigger] lw[k]) by {
        assert(lw[k] == words[start + k]);
    }
    assert(layout(text, Align::Justify, width) == page(words, lines, Align::Justify));
    if li + 1 == lines.len() {
        assert(line_text(words, lines, Align::Justify, li) == join(lw));
        retokenize_joined_words(text, start, start + j);
    } else {
        let l = lines[li];
        assert(line_text(words, lines, Align::Justify, li) == justified(lw, l.slack + l.words - 1));
        lemma_justified_words(lw, l.slack + l.words - 1);
    }
}

} // verus!
