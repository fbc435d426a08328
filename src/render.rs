//! Turning a partition into text: justified, ragged and centered lines.
use vstd::prelude::*;
use vstd::arithmetic::div_mod::lemma_hoist_over_denominator;
use crate::breaking::{Line, total_words, walk};
use crate::words::views;

verus! {

/// How the lines of a paragraph are set.
#[derive(Clone, Copy, Debug, PartialEq, Eq, Structural)]
pub enum Align {
    /// Flush on both margins; the paragraph's last line is ragged and costs nothing.
    Justify,
    /// Each line centered, with single spaces between words.
    Center,
}

/// Whether the solver lets the paragraph's last line go uncosted.
pub open spec fn waives_last(align: Align) -> bool {
    align == Align::Justify
}

/// `k` space characters.
pub open spec fn blanks(k: int) -> Seq<char> {
    Seq::new(k as nat, |_i: int| ' ')
}

/// Words joined by single spaces.
pub open spec fn join(ws: Seq<Seq<char>>) -> Seq<char>
    decreases ws.len(),
{
    if ws.len() == 0 {
        seq![]
    } else if ws.len() == 1 {
        ws[0]
    } else {
        join(ws.drop_last()) + seq![' '] + ws.last()
    }
}

/// The words `rest`, each after a run of spaces, sharing `sp` spaces: each
/// gap takes the floor of what is left over the gaps that are left.
pub open spec fn gaps(rest: Seq<Seq<char>>, sp: int) -> Seq<char>
    decreases rest.len(),
{
    if rest.len() == 0 {
        seq![]
    } else {
        let a = sp / (rest.len() as int);
        blanks(a) + rest[0] + gaps(rest.drop_first(), sp - a)
    }
}

/// A justified line: the words with `sp` spaces spread between them.
pub open spec fn justified(ws: Seq<Seq<char>>, sp: int) -> Seq<char> {
    if ws.len() == 0 {
        seq![]
    } else {
        ws[0] + gaps(ws.drop_first(), sp)
    }
}

/// A centered line: half the slack as indent, then the words singly spaced.
pub open spec fn centered(ws: Seq<Seq<char>>, slack: int) -> Seq<char> {
    blanks(slack / 2) + join(ws)
}

/// The words of line `li`.
pub open spec fn line_words(words: Seq<Seq<char>>, lines: Seq<Line>, li: int) -> Seq<Seq<char>> {
    let start = total_words(lines.take(li));
    words.subrange(start, start + lines[li].words as int)
}

/// The text of line `li` of a paragraph.
pub open spec fn line_text(words: Seq<Seq<char>>, lines: Seq<Line>, align: Align, li: int) -> Seq<char> {
    let ws = line_words(words, lines, li);
    let l = lines[li];
    match align {
        Align::Justify => if li + 1 == lines.len() {
            join(ws)
        } else {
            justified(ws, l.slack + l.words - 1)
        },
        Align::Center => centered(ws, l.slack as int),
    }
}

/// The output lines of a paragraph: one per line of the partition, then a blank one.
pub open spec fn page(words: Seq<Seq<char>>, lines: Seq<Line>, align: Align) -> Seq<Seq<char>> {
    Seq::new(
        (lines.len() + 1) as nat,
        |li: int| if li < lines.len() { line_text(words, lines, align, li) } else { seq![] },
    )
}

/// What a sequence of strings holds.
pub open spec fn strs(v: Seq<String>) -> Seq<Seq<char>> {
    v.map_values(|s: String| s@)
}

/// Relies on `String`'s `FromIterator<&char>`: the characters of `v` in order.
#[verifier::external_body]
fn string_of(v: &Vec<char>) -> (r: String)
    ensures
        r@ == v@,
{
    v.iter().collect()
}

fn push_word(out: &mut Vec<char>, w: &Vec<char>)
    ensures
        final(out)@ == old(out)@ + w@,
{
    let mut k: usize = 0;
    while k < w.len()
        invariant
            k <= w@.len(),
            out@ == old(out)@ + w@.take(k as int),
        decreases w@.len() - k,
    {
        out.push(w[k]);
        proof {
            assert(w@.take(k + 1) =~= w@.take(k as int).push(w@[k as int]));
        }
        k += 1;
    }
    proof {
        assert(w@.take(w@.len() as int) =~= w@);
    }
}

fn push_blanks(out: &mut Vec<char>, n: usize)
    ensures
        final(out)@ == old(out)@ + blanks(n as int),
{
    let mut k: usize = 0;
    while k < n
        invariant
            k <= n,
            out@ =~= old(out)@ + blanks(k as int),
        decreases n - k,
    {
        out.push(' ');
        proof {
            assert(blanks(k + 1) =~= blanks(k as int).push(' '));
        }
        k += 1;
    }
}

/// The `k` words from `start` joined by single spaces.
pub fn render_joined(words: &Vec<Vec<char>>, start: usize, k: usize) -> (r: Vec<char>)
    requires
        1 <= k,
        start + k <= words@.len(),
    ensures
        r@ == join(views(words@).subrange(start as int, start + k)),
{
    let ghost ws = views(words@).subrange(start as int, start + k);
    let total = words.len();
    let mut out: Vec<char> = Vec::new();
    push_word(&mut out, &words[start]);
    proof {
        assert(out@ =~= ws[0]);
        assert(ws.take(1).len() == 1);
    }
    let mut g: usize = 1;
    while g < k
        invariant
            1 <= g <= k,
            start + k <= words@.len(),
            total == words@.len(),
            ws == views(words@).subrange(start as int, start + k),
            out@ == join(ws.take(g as int)),
        decreases k - g,
    {
        out.push(' ');
        push_word(&mut out, &words[start + g]);
        proof {
            assert(ws.take(g + 1).drop_last() =~= ws.take(g as int));
        }
        g += 1;
    }
    proof {
        assert(ws.take(k as int) =~= ws);
    }
    out
}

/// The `k` words from `start`, centered: `slack / 2` spaces, then the words
/// singly spaced.
pub fn render_centered(words: &Vec<Vec<char>>, start: usize, k: usize, slack: usize) -> (r: Vec<char>)
    requires
        1 <= k,
        start + k <= words@.len(),
    ensures
        r@ == centered(views(words@).subrange(start as int, start + k), slack as int),
{
    let mut out: Vec<char> = Vec::new();
    push_blanks(&mut out, slack / 2);
    let body = render_joined(words, start, k);
    push_word(&mut out, &body);
    proof {
        assert(out@ =~= centered(views(words@).subrange(start as int, start + k), slack as int));
    }
    out
}

/// The `k` words from `start`, justified: `slack + k - 1` spaces spread over
/// the gaps, each taking the floor of what is left over the gaps left.
pub fn render_justified(words: &Vec<Vec<char>>, start: usize, k: usize, slack: usize) -> (r: Vec<char>)
    requires
        1 <= k,
        start + k <= words@.len(),
    ensures
        r@ == justified(views(words@).subrange(start as int, start + k), slack + k - 1),
{
    let ghost ws = views(words@).subrange(start as int, start + k);
    let total = words.len();
    let mut out: Vec<char> = Vec::new();
    push_word(&mut out, &words[start]);
    proof {
        assert(ws.skip(1) =~= ws.drop_first());
    }
    let mut extra: usize = slack;
    let mut g: usize = 1;
    while g < k
        invariant
            1 <= g <= k,
            start + k <= words@.len(),
            total == words@.len(),
            extra <= slack,
            ws == views(words@).subrange(start as int, start + k),
            out@ + gaps(ws.skip(g as int), extra + (k - g)) == justified(ws, slack + k - 1),
        decreases k - g,
    {
        let left = k - g;
        let q = extra / left;
        let ghost a = q + 1;
        proof {
            lemma_hoist_over_denominator(extra as int, 1, left as nat);
            assert(ws.skip(g as int).drop_first() =~= ws.skip(g + 1));
            assert(ws.skip(g as int)[0] == words@[start + g]@);
        }
        let ghost before = out@;
        push_blanks(&mut out, q);
        out.push(' ');
        proof {
            assert(blanks(a) =~= blanks(q as int).push(' '));
        }
        push_word(&mut out, &words[start + g]);
        proof {
            assert(before + gaps(ws.skip(g as int), extra + left)
                =~= out@ + gaps(ws.skip(g + 1), extra + left - a));
        }
        extra = extra - extra / left;
        g += 1;
    }
    proof {
        assert(ws.skip(k as int) =~= seq![]);
        assert(out@ + gaps(ws.skip(k as int), extra as int) =~= out@);
    }
    out
}

proof fn lemma_total_prefix(lines: Seq<Line>, a: int)
    requires
        0 <= a <= lines.len(),
    ensures
        total_words(lines.take(a)) <= total_words(lines),
    decreases lines.len(),
{
    if a < lines.len() {
        assert(lines.take(a) =~= lines.drop_last().take(a));
        lemma_total_prefix(lines.drop_last(), a);
    } else {
        assert(lines.take(a) =~= lines);
    }
}

/// The output lines for `words` laid out as `lines`, then a blank line.
pub fn render_paragraph(words: &Vec<Vec<char>>, lines: &Vec<Line>, align: Align) -> (r: Vec<String>)
    requires
        total_words(lines@) == words@.len(),
        forall|li: int| 0 <= li < lines@.len() ==> (#[trigger] lines@[li]).words >= 1,
    ensures
        strs(r@) == page(views(words@), lines@, align),
{
    let total = words.len();
    let mut out: Vec<String> = Vec::new();
    let mut pos: usize = 0;
    let mut li: usize = 0;
    while li < lines.len()
        invariant
            li <= lines@.len(),
            total_words(lines@) == words@.len(),
            total == words@.len(),
            forall|m: int| 0 <= m < lines@.len() ==> (#[trigger] lines@[m]).words >= 1,
            pos == total_words(lines@.take(li as int)),
            out@.len() == li,
            forall|m: int| 0 <= m < li ==> (#[trigger] out@[m])@ == line_text(views(words@), lines@, align, m),
        decreases lines@.len() - li,
    {
        let line = lines[li];
        proof {
            assert(lines@.take(li + 1).drop_last() =~= lines@.take(li as int));
            lemma_total_prefix(lines@, li + 1);
            assert(lines@.take(li + 1).last() == line);
        }
        let text = match align {
            Align::Justify => if li + 1 == lines.len() {
                render_joined(words, pos, line.words)
            } else {
                render_justified(words, pos, line.words, line.slack)
            },
            Align::Center => render_centered(words, pos, line.words, line.slack),
        };
        out.push(string_of(&text));
        pos = pos + line.words;
        li += 1;
    }
    out.push(String::new());
    proof {
        assert(strs(out@) =~= page(views(words@), lines@, align));
    }
    out
}

} // verus!
