//! Minimum-badness partition of a paragraph's words into lines.
use vstd::prelude::*;
use vstd::arithmetic::div_mod::lemma_fundamental_div_mod;

verus! {

/// The widest line this library lays out, so that costs fit in 128 bits.
pub const MAX_WIDTH: usize = 1048576;

/// One line of a partition: how many words it holds, and the room left
/// beyond one separator between each two of them (zero when they overflow).
#[derive(Clone, Copy, Debug, PartialEq, Eq, Structural)]
pub struct Line {
    pub words: usize,
    pub slack: usize,
}

/// Total width of the `j` words that end just before position `i`.
pub open spec fn span(ws: Seq<usize>, i: int, j: int) -> int
    decreases j,
{
    if j <= 0 {
        0
    } else {
        span(ws, i, j - 1) + ws[i - j] as int
    }
}

/// Whether the `j` words ending before `i` may share a line: one word always
/// may; more only when their characters and single separators fit.
pub open spec fn fits(ws: Seq<usize>, width: int, i: int, j: int) -> bool {
    j == 1 || span(ws, i, j) <= width + 1
}

/// The room left on that line, clamped at zero.
pub open spec fn slack(ws: Seq<usize>, width: int, i: int, j: int) -> int {
    if span(ws, i, j) <= width + 1 {
        width + 1 - span(ws, i, j)
    } else {
        0
    }
}

pub open spec fn cube(x: int) -> int {
    x * x * x
}

/// Cost of a line of `k` words with `slack` room left.
pub open spec fn badness(slack: int, k: int) -> int {
    if k > 1 {
        cube(slack / (k - 1)) * (k - 1)
    } else {
        cube(slack)
    }
}

/// Cost of the line of `j` words ending before `i`; with `waive_last`, the
/// paragraph's last line costs nothing.
pub open spec fn line_cost(ws: Seq<usize>, width: int, waive_last: bool, i: int, j: int) -> int {
    if waive_last && i == ws.len() {
        0
    } else {
        badness(slack(ws, width, i, j), j)
    }
}

/// Best (cost, word count) for the last line of the first `i` words among
/// the counts `1..=j`, given the costs `t` of the shorter prefixes; the first
/// count found at the minimum is kept.
pub open spec fn scan(ws: Seq<usize>, width: int, waive_last: bool, t: Seq<int>, i: int, j: int) -> (int, int)
    decreases j,
{
    if j <= 1 {
        (t[i - 1] + line_cost(ws, width, waive_last, i, 1), 1)
    } else {
        let prev = scan(ws, width, waive_last, t, i, j - 1);
        let c = t[i - j] + line_cost(ws, width, waive_last, i, j);
        if fits(ws, width, i, j) && c < prev.0 {
            (c, j)
        } else {
            prev
        }
    }
}

/// Least total cost of laying out each prefix of `0..=i` words.
pub open spec fn costs(ws: Seq<usize>, width: int, waive_last: bool, i: nat) -> Seq<int>
    decreases i,
{
    if i == 0 {
        seq![0]
    } else {
        let t = costs(ws, width, waive_last, (i - 1) as nat);
        t.push(scan(ws, width, waive_last, t, i as int, i as int).0)
    }
}

/// Word count of the last line in the best layout of the first `i` words.
pub open spec fn choice(ws: Seq<usize>, width: int, waive_last: bool, i: int) -> int {
    scan(ws, width, waive_last, costs(ws, width, waive_last, (i - 1) as nat), i, i).1
}

/// The back-pointer recorded for the prefix of `i` words.
pub open spec fn back_at(ws: Seq<usize>, width: int, waive_last: bool, i: int) -> Line {
    if i == 0 {
        Line { words: 0, slack: 0 }
    } else {
        let j = choice(ws, width, waive_last, i);
        Line { words: j as usize, slack: slack(ws, width, i, j) as usize }
    }
}

/// The lines, in reading order, that end at prefix `i` when walking back-pointers.
pub open spec fn walk(back: Seq<Line>, i: int) -> Seq<Line>
    decreases i,
{
    if i <= 0 || i >= back.len() || back[i].words == 0 || back[i].words > i {
        seq![]
    } else {
        walk(back, i - back[i].words).push(back[i])
    }
}

/// The back-pointers of every prefix, `0..=ws.len()`.
pub open spec fn back_table(ws: Seq<usize>, width: int, waive_last: bool) -> Seq<Line> {
    Seq::new((ws.len() + 1) as nat, |i: int| back_at(ws, width, waive_last, i))
}

/// The optimal partition of a paragraph with word widths `ws`.
pub open spec fn partition(ws: Seq<usize>, width: int, waive_last: bool) -> Seq<Line> {
    walk(back_table(ws, width, waive_last), ws.len() as int)
}

/// Total number of words over `lines`.
pub open spec fn total_words(lines: Seq<Line>) -> int
    decreases lines.len(),
{
    if lines.len() == 0 {
        0
    } else {
        total_words(lines.drop_last()) + lines.last().words as int
    }
}

pub open spec fn max_cost() -> int {
    1152924803144876033
}

proof fn lemma_max_cost()
    ensures
        cube(MAX_WIDTH as int + 1) == max_cost(),
{
    assert(1048577int * 1048577 * 1048577 == 1152924803144876033int) by (nonlinear_arith);
}

proof fn lemma_badness_bound(s: int, k: int)
    requires
        0 <= s <= MAX_WIDTH + 1,
        k >= 1,
    ensures
        0 <= badness(s, k) <= cube(s) <= max_cost(),
{
    lemma_max_cost();
    assert(0 <= cube(s) <= cube(MAX_WIDTH as int + 1)) by (nonlinear_arith)
        requires 0 <= s <= MAX_WIDTH + 1;
    if k > 1 {
        let q = s / (k - 1);
        lemma_fundamental_div_mod(s, k - 1);
        assert(0 <= q);
        assert(q * (k - 1) <= s);
        assert(q <= s) by (nonlinear_arith)
            requires q * (k - 1) <= s, k > 1, q >= 0;
        assert(0 <= cube(q) * (k - 1) <= cube(s)) by (nonlinear_arith)
            requires q * (k - 1) <= s, k > 1, q >= 0, q <= s;
    }
}

/// The badness of a line of `k` words with `slack` room left.
pub fn line_badness(slack: usize, k: usize) -> (r: u128)
    requires
        k >= 1,
        slack <= MAX_WIDTH + 1,
    ensures
        r == badness(slack as int, k as int),
        r <= max_cost(),
{
    proof {
        lemma_badness_bound(slack as int, k as int);
    }
    let s = slack as u128;
    if k > 1 {
        let q = s / ((k - 1) as u128);
        assert(q <= s) by (nonlinear_arith)
            requires q == s / ((k - 1) as u128), k > 1;
        assert(q * q <= max_cost() && q * q * q <= max_cost()) by (nonlinear_arith)
            requires q <= s, s * s * s <= max_cost();
        q * q * q * ((k - 1) as u128)
    } else {
        assert(s * s <= max_cost()) by (nonlinear_arith)
            requires s * s * s <= max_cost();
        s * s * s
    }
}

pub(crate) proof fn lemma_span_grows(ws: Seq<usize>, i: int, j: int, k: int)
    requires
        0 <= j <= k,
    ensures
        span(ws, i, j) <= span(ws, i, k),
    decreases k - j,
{
    if j < k {
        lemma_span_grows(ws, i, j, k - 1);
    }
}

/// Past the first count that does not fit, the scan result stays put.
proof fn lemma_scan_stops(ws: Seq<usize>, width: int, waive_last: bool, t: Seq<int>, i: int, j: int, k: int)
    requires
        2 <= j <= k,
        !fits(ws, width, i, j),
    ensures
        scan(ws, width, waive_last, t, i, k) == scan(ws, width, waive_last, t, i, j - 1),
    decreases k - j,
{
    lemma_span_grows(ws, i, j, k);
    if k > j {
        lemma_scan_stops(ws, width, waive_last, t, i, j, k - 1);
    }
}

/// The scan picks a count that fits, with the cost that count gives.
pub(crate) proof fn lemma_scan_choice(ws: Seq<usize>, width: int, waive_last: bool, t: Seq<int>, i: int, j: int)
    requires
        1 <= j,
    ensures
        1 <= scan(ws, width, waive_last, t, i, j).1 <= j,
        fits(ws, width, i, scan(ws, width, waive_last, t, i, j).1),
        scan(ws, width, waive_last, t, i, j).0 == t[i - scan(ws, width, waive_last, t, i, j).1]
            + line_cost(ws, width, waive_last, i, scan(ws, width, waive_last, t, i, j).1),
        scan(ws, width, waive_last, t, i, j).0 <= t[i - 1] + line_cost(ws, width, waive_last, i, 1),
    decreases j,
{
    if j > 1 {
        lemma_scan_choice(ws, width, waive_last, t, i, j - 1);
    }
}

proof fn lemma_costs_len(ws: Seq<usize>, width: int, waive_last: bool, i: nat)
    ensures
        costs(ws, width, waive_last, i).len() == i + 1,
        forall|k: int| 0 <= k < i ==> costs(ws, width, waive_last, i)[k]
            == #[trigger] costs(ws, width, waive_last, (i - 1) as nat)[k],
    decreases i,
{
    if i > 0 {
        lemma_costs_len(ws, width, waive_last, (i - 1) as nat);
    }
}

/// Computes, for each prefix of the words with widths `ws`, the last line of
/// its least-cost layout into lines of `width` columns.
pub fn solve(ws: &Vec<usize>, width: usize, waive_last: bool) -> (back: Vec<Line>)
    requires
        width <= MAX_WIDTH,
        ws@.len() < usize::MAX,
        forall|k: int| 0 <= k < ws@.len() ==> ws@[k] >= 1,
    ensures
        back@.len() == ws@.len() + 1,
        forall|i: int| 0 <= i <= ws@.len() ==> back@[i] == back_at(ws@, width as int, waive_last, i),
{
    let n = ws.len();
    let ghost w = width as int;
    let mut d: Vec<u128> = Vec::new();
    let mut back: Vec<Line> = Vec::new();
    d.push(0);
    back.push(Line { words: 0, slack: 0 });
    let mut i: usize = 1;
    while i <= n
        invariant
            1 <= i <= n + 1,
            n == ws@.len(),
            n < usize::MAX,
            w == width,
            width <= MAX_WIDTH,
            forall|k: int| 0 <= k < ws@.len() ==> ws@[k] >= 1,
            d@.len() == i,
            back@.len() == i,
            costs(ws@, w, waive_last, (i - 1) as nat).len() == i,
            forall|k: int| 0 <= k < i ==> d@[k] as int == #[trigger] costs(ws@, w, waive_last, (i - 1) as nat)[k],
            forall|k: int| 0 <= k < i ==> d@[k] <= k * max_cost(),
            forall|k: int| 0 <= k < i ==> back@[k] == back_at(ws@, w, waive_last, k),
        decreases n + 1 - i,
    {
        let ghost t = costs(ws@, w, waive_last, (i - 1) as nat);
        let mut spaces: usize = (width + 1).saturating_sub(ws[i - 1]);
        proof {
            reveal_with_fuel(span, 2);
            assert((i as int) * max_cost() <= u128::MAX) by (nonlinear_arith)
                requires (i as int) <= 0xffff_ffff_ffff_ffffint;
        }
        let first = if waive_last && i == n { 0 } else { line_badness(spaces, 1) };
        assert(d@[i - 1] + first <= i * max_cost()) by (nonlinear_arith)
            requires d@[i - 1] <= (i - 1) * max_cost(), first <= max_cost();
        let mut best: u128 = d[i - 1] + first;
        let mut best_line = Line { words: 1, slack: spaces };
        let mut j: usize = 2;
        while j <= i
            invariant
                2 <= j <= i + 1,
                1 <= i <= n,
                n == ws@.len(),
                n < usize::MAX,
                w == width,
                width <= MAX_WIDTH,
                forall|k: int| 0 <= k < ws@.len() ==> ws@[k] >= 1,
                d@.len() == i,
                t.len() == i,
                t == costs(ws@, w, waive_last, (i - 1) as nat),
                forall|k: int| 0 <= k < i ==> d@[k] as int == #[trigger] t[k],
                forall|k: int| 0 <= k < i ==> d@[k] <= k * max_cost(),
                spaces == slack(ws@, w, i as int, j - 1),
                j > 2 ==> span(ws@, i as int, j - 1) <= w + 1,
                best as int == scan(ws@, w, waive_last, t, i as int, j - 1).0,
                best_line.words as int == scan(ws@, w, waive_last, t, i as int, j - 1).1,
                best_line.slack as int == slack(ws@, w, i as int, best_line.words as int),
                best <= i * max_cost(),
                (i as int) * max_cost() <= u128::MAX,
            ensures
                best as int == scan(ws@, w, waive_last, t, i as int, i as int).0,
                best_line.words as int == scan(ws@, w, waive_last, t, i as int, i as int).1,
                best_line.slack as int == slack(ws@, w, i as int, best_line.words as int),
                best <= i * max_cost(),
            decreases i + 1 - j,
        {
            let wj = ws[i - j];
            if spaces < wj {
                proof {
                    lemma_span_grows(ws@, i as int, 1, j - 1);
                    lemma_scan_stops(ws@, w, waive_last, t, i as int, j as int, i as int);
                }
                break;
            }
            spaces = spaces - wj;
            proof {
                lemma_span_grows(ws@, i as int, 0, j as int);
            }
            let c_line = if waive_last && i == n { 0 } else { line_badness(spaces, j) };
            assert(d@[i - j] + c_line <= i * max_cost()) by (nonlinear_arith)
                requires d@[i - j] <= (i - j) * max_cost(), c_line <= max_cost(), j >= 1;
            let c = d[i - j] + c_line;
            if c < best {
                best = c;
                best_line = Line { words: j, slack: spaces };
            }
            j += 1;
        }
        proof {
            lemma_scan_choice(ws@, w, waive_last, t, i as int, i as int);
            lemma_costs_len(ws@, w, waive_last, i as nat);
        }
        let ghost d0 = d@;
        let ghost b0 = back@;
        d.push(best);
        back.push(best_line);
        proof {
            let t2 = costs(ws@, w, waive_last, i as nat);
            assert(t2 == t.push(scan(ws@, w, waive_last, t, i as int, i as int).0));
            assert forall|k: int| 0 <= k < i + 1 implies d@[k] as int == #[trigger] t2[k] by {
                if k < i {
                    assert(d@[k] == d0[k]);
                }
            }
            assert forall|k: int| 0 <= k < i + 1 implies back@[k] == back_at(ws@, w, waive_last, k) by {
                if k < i {
                    assert(back@[k] == b0[k]);
                }
            }
        }
        i += 1;
    }
    back
}

/// Collects the lines that end at prefix `n` by following the back-pointers,
/// in reading order.
pub fn reconstruct(back: &Vec<Line>, n: usize) -> (lines: Vec<Line>)
    requires
        n < back@.len(),
    ensures
        lines@ == walk(back@, n as int),
{
    let mut lines: Vec<Line> = Vec::new();
    let mut i: usize = n;
    while i > 0 && back[i].words > 0 && back[i].words <= i
        invariant
            i <= n < back@.len(),
            walk(back@, n as int) == walk(back@, i as int) + lines@,
        decreases i,
    {
        let line = back[i];
        let ghost before = lines@;
        lines.insert(0, line);
        proof {
            assert(lines@ =~= seq![line] + before);
            assert(walk(back@, i as int) == walk(back@, i - line.words).push(line));
            assert(walk(back@, i as int) + before =~= walk(back@, i - line.words) + lines@);
        }
        i = i - line.words;
    }
    proof {
        assert(walk(back@, i as int) =~= seq![]);
        assert(walk(back@, n as int) =~= lines@);
    }
    lines
}

pub(crate) proof fn lemma_walk_total(ws: Seq<usize>, width: int, waive_last: bool, i: int)
    requires
        0 <= i <= ws.len(),
        ws.len() <= usize::MAX,
    ensures
        total_words(walk(back_table(ws, width, waive_last), i)) == i,
    decreases i,
{
    let back = back_table(ws, width, waive_last);
    if i > 0 {
        let t = costs(ws, width, waive_last, (i - 1) as nat);
        lemma_scan_choice(ws, width, waive_last, t, i, i);
        let j = choice(ws, width, waive_last, i);
        assert(back[i].words == j);
        lemma_walk_total(ws, width, waive_last, i - j);
        let lines = walk(back, i);
        assert(lines.drop_last() == walk(back, i - j));
    }
}

/// Every word of a paragraph lands on exactly one line: the word counts of
/// the optimal partition add up to the number of words.
pub proof fn partition_covers_all_words(ws: Seq<usize>, width: int, waive_last: bool)
    requires
        ws.len() <= usize::MAX,
    ensures
        total_words(partition(ws, width, waive_last)) == ws.len(),
{
    lemma_walk_total(ws, width, waive_last, ws.len() as int);
}

proof fn lemma_scan_min(ws: Seq<usize>, width: int, waive_last: bool, t: Seq<int>, i: int, j: int, m: int)
    requires
        1 <= m <= j,
        fits(ws, width, i, m),
    ensures
        scan(ws, width, waive_last, t, i, j).0 <= t[i - m] + line_cost(ws, width, waive_last, i, m),
    decreases j,
{
    if j > m {
        lemma_scan_min(ws, width, waive_last, t, i, j - 1, m);
    } else if j > 1 {
        lemma_scan_choice(ws, width, waive_last, t, i, j - 1);
    }
}

/// The cost table is optimal line by line: no last line that fits gives
/// the first `i` words a lower total than the one recorded.
pub proof fn costs_are_minimal(ws: Seq<usize>, width: int, waive_last: bool, i: int, j: int)
    requires
        1 <= j <= i <= ws.len(),
        fits(ws, width, i, j),
    ensures
        costs(ws, width, waive_last, i as nat)[i]
            <= costs(ws, width, waive_last, i as nat)[i - j] + line_cost(ws, width, waive_last, i, j),
{
    let t = costs(ws, width, waive_last, (i - 1) as nat);
    lemma_costs_len(ws, width, waive_last, i as nat);
    lemma_costs_len(ws, width, waive_last, (i - 1) as nat);
    lemma_scan_min(ws, width, waive_last, t, i, i, j);
    assert(costs(ws, width, waive_last, i as nat)[i - j] == t[i - j]);
}

/// Whether `counts`, line word counts in reading order, lay out the first
/// `i` words: each line non-empty and fitting, together exactly `i` words.
pub open spec fn feasible(ws: Seq<usize>, width: int, counts: Seq<int>, i: int) -> bool
    decreases counts.len(),
{
    if counts.len() == 0 {
        i == 0
    } else {
        let j = counts.last();
        1 <= j <= i && fits(ws, width, i, j) && feasible(ws, width, counts.drop_last(), i - j)
    }
}

/// Total cost of the lines `counts` laying out the first `i` words.
pub open spec fn cost_of(ws: Seq<usize>, width: int, waive_last: bool, counts: Seq<int>, i: int) -> int
    decreases counts.len(),
{
    if counts.len() == 0 {
        0
    } else {
        let j = counts.last();
        cost_of(ws, width, waive_last, counts.drop_last(), i - j) + line_cost(ws, width, waive_last, i, j)
    }
}

/// The word counts of `lines`.
pub open spec fn counts_of(lines: Seq<Line>) -> Seq<int> {
    lines.map_values(|l: Line| l.words as int)
}

proof fn lemma_costs_prefix(ws: Seq<usize>, width: int, waive_last: bool, a: nat, b: nat, k: int)
    requires
        0 <= k <= a <= b,
    ensures
        costs(ws, width, waive_last, b)[k] == costs(ws, width, waive_last, a)[k],
    decreases b,
{
    if b > a {
        lemma_costs_len(ws, width, waive_last, b);
        lemma_costs_prefix(ws, width, waive_last, a, (b - 1) as nat, k);
    }
}

/// The scan keeps the first count at the minimum: every earlier count that
/// fits costs strictly more.
proof fn lemma_scan_first(ws: Seq<usize>, width: int, waive_last: bool, t: Seq<int>, i: int, j: int, m: int)
    requires
        1 <= m < scan(ws, width, waive_last, t, i, j).1,
        m <= j,
        fits(ws, width, i, m),
    ensures
        t[i - m] + line_cost(ws, width, waive_last, i, m) > scan(ws, width, waive_last, t, i, j).0,
    decreases j,
{
    if j > 1 {
        let prev = scan(ws, width, waive_last, t, i, j - 1);
        lemma_scan_choice(ws, width, waive_last, t, i, j - 1);
        if scan(ws, width, waive_last, t, i, j) != prev {
            lemma_scan_min(ws, width, waive_last, t, i, j - 1, m);
        } else {
            lemma_scan_first(ws, width, waive_last, t, i, j - 1, m);
        }
    }
}

proof fn lemma_cost_lower_bound(ws: Seq<usize>, width: int, waive_last: bool, counts: Seq<int>, i: int)
    requires
        0 <= i <= ws.len(),
        feasible(ws, width, counts, i),
    ensures
        costs(ws, width, waive_last, i as nat)[i] <= cost_of(ws, width, waive_last, counts, i),
    decreases counts.len(),
{
    if counts.len() > 0 {
        let j = counts.last();
        lemma_cost_lower_bound(ws, width, waive_last, counts.drop_last(), i - j);
        costs_are_minimal(ws, width, waive_last, i, j);
        lemma_costs_prefix(ws, width, waive_last, (i - j) as nat, i as nat, i - j);
    } else {
        assert(costs(ws, width, waive_last, 0)[0] == 0);
    }
}

proof fn lemma_walk_optimal(ws: Seq<usize>, width: int, waive_last: bool, i: int)
    requires
        0 <= i <= ws.len(),
        ws.len() <= usize::MAX,
    ensures
        feasible(ws, width, counts_of(walk(back_table(ws, width, waive_last), i)), i),
        cost_of(ws, width, waive_last, counts_of(walk(back_table(ws, width, waive_last), i)), i)
            == costs(ws, width, waive_last, i as nat)[i],
    decreases i,
{
    let back = back_table(ws, width, waive_last);
    let c = counts_of(walk(back, i));
    if i > 0 {
        let t = costs(ws, width, waive_last, (i - 1) as nat);
        lemma_scan_choice(ws, width, waive_last, t, i, i);
        let j = choice(ws, width, waive_last, i);
        assert(back[i].words == j);
        lemma_walk_optimal(ws, width, waive_last, i - j);
        assert(c.drop_last() =~= counts_of(walk(back, i - j)));
        assert(c.last() == j);
        lemma_costs_len(ws, width, waive_last, i as nat);
        lemma_costs_prefix(ws, width, waive_last, (i - j) as nat, (i - 1) as nat, i - j);
    } else {
        assert(c.len() == 0);
        assert(costs(ws, width, waive_last, 0)[0] == 0);
    }
}

/// The partition is a layout of all the words whose total cost is the least
/// of every layout's, and among the layouts of least cost it puts the fewest
/// words on the last line.
pub proof fn partition_is_optimal(ws: Seq<usize>, width: int, waive_last: bool, other: Seq<int>)
    requires
        ws.len() <= usize::MAX,
        feasible(ws, width, other, ws.len() as int),
    ensures
        feasible(ws, width, counts_of(partition(ws, width, waive_last)), ws.len() as int),
        cost_of(ws, width, waive_last, counts_of(partition(ws, width, waive_last)), ws.len() as int)
            <= cost_of(ws, width, waive_last, other, ws.len() as int),
        cost_of(ws, width, waive_last, other, ws.len() as int)
            == cost_of(ws, width, waive_last, counts_of(partition(ws, width, waive_last)), ws.len() as int)
            && other.len() > 0 ==> counts_of(partition(ws, width, waive_last)).last() <= other.last(),
{
    let n = ws.len() as int;
    let best = counts_of(partition(ws, width, waive_last));
    lemma_walk_optimal(ws, width, waive_last, n);
    lemma_cost_lower_bound(ws, width, waive_last, other, n);
    if other.len() > 0 && cost_of(ws, width, waive_last, other, n) == cost_of(ws, width, waive_last, best, n) {
        let m = other.last();
        let t = costs(ws, width, waive_last, (n - 1) as nat);
        lemma_scan_choice(ws, width, waive_last, t, n, n);
        let j = choice(ws, width, waive_last, n);
        let back = back_table(ws, width, waive_last);
        assert(back[n].words == j);
        assert(walk(back, n).last() == back[n]);
        if m < j {
            lemma_scan_first(ws, width, waive_last, t, n, n, m);
            lemma_cost_lower_bound(ws, width, waive_last, other.drop_last(), n - m);
            lemma_costs_prefix(ws, width, waive_last, (n - m) as nat, (n - 1) as nat, n - m);
            lemma_costs_len(ws, width, waive_last, n as nat);
        }
    }
}

} // verus!
