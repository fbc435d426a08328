//! A whole paragraph, from text run to output lines.
use vstd::prelude::*;
use crate::breaking::{Line, MAX_WIDTH, back_table, partition, partition_covers_all_words, reconstruct, solve, walk};
use crate::render::{Align, page, render_paragraph, strs, waives_last};
use crate::words::{tokenize, views, widths, word_width, words_of};

verus! {

/// The line width used when none is given.
pub const DEFAULT_WIDTH: usize = 72;

/// The width of each word.
pub open spec fn widths_of(words: Seq<Seq<char>>) -> Seq<usize> {
    Seq::new(words.len(), |k: int| word_width(words[k]) as usize)
}

/// The output lines for the text run `text`, set in `align` at `width` columns.
pub open spec fn layout(text: Seq<char>, align: Align, width: int) -> Seq<Seq<char>> {
    let words = words_of(text);
    page(words, partition(widths_of(words), width, waives_last(align)), align)
}

proof fn lemma_walk_lines(back: Seq<Line>, i: int)
    ensures
        forall|li: int| 0 <= li < walk(back, i).len() ==> (#[trigger] walk(back, i)[li]).words >= 1,
    decreases i,
{
    if !(i <= 0 || i >= back.len() || back[i].words == 0 || back[i].words > i) {
        let prev = walk(back, i - back[i].words);
        lemma_walk_lines(back, i - back[i].words);
        assert(walk(back, i) == prev.push(back[i]));
        assert forall|li: int| 0 <= li < walk(back, i).len() implies (#[trigger] walk(back, i)[li]).words >= 1 by {
            if li < prev.len() {
                assert(walk(back, i)[li] == prev[li]);
            }
        }
    }
}

/// Lays out one paragraph: its lines, each without a line break, followed by
/// one blank line. Output is a function of the text, the alignment and the
/// width alone.
pub fn format_paragraph(text: &str, align: Align, width: usize) -> (r: Vec<String>)
    requires
        width <= MAX_WIDTH,
        text@.len() < usize::MAX,
    ensures
        strs(r@) == layout(text@, align, width as int),
{
    let words = tokenize(text);
    proof {
        assert forall|k: int| 0 <= k < words@.len() implies #[trigger] words@[k]@.len() < usize::MAX by {
            assert(words@[k]@.len() <= text@.len());
        }
    }
    let ws = widths(&words);
    let waive = match align {
        Align::Justify => true,
        Align::Center => false,
    };
    proof {
        assert forall|k: int| 0 <= k < ws@.len() implies ws@[k] >= 1 by {
            assert(ws@[k] == word_width(words@[k]@));
        }
    }
    let back = solve(&ws, width, waive);
    let lines = reconstruct(&back, ws.len());
    proof {
        let wv = views(words@);
        assert(ws@ =~= widths_of(wv));
        let n = ws@.len();
        assert(back@ =~= back_table(ws@, width as int, waive));
        partition_covers_all_words(ws@, width as int, waive);
        lemma_walk_lines(back@, n as int);
    }
    render_paragraph(&words, &lines, align)
}

} // verus!
