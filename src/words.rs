//! Splitting a text run into words and measuring them.
use vstd::prelude::*;

verus! {

/// The Unicode `White_Space` property.
pub open spec fn white_space(c: char) -> bool {
    let u = c as u32;
    (0x9 <= u && u <= 0xd) || u == 0x20 || u == 0x85 || u == 0xa0 || u == 0x1680
        || (0x2000 <= u && u <= 0x200a) || u == 0x2028 || u == 0x2029 || u == 0x202f
        || u == 0x205f || u == 0x3000
}

/// The words closed so far and the word being read, after reading `s`.
pub open spec fn split_state(s: Seq<char>) -> (Seq<Seq<char>>, Seq<char>)
    decreases s.len(),
{
    if s.len() == 0 {
        (seq![], seq![])
    } else {
        let st = split_state(s.drop_last());
        let c = s.last();
        if white_space(c) {
            if st.1.len() > 0 {
                (st.0.push(st.1), seq![])
            } else {
                (st.0, seq![])
            }
        } else {
            (st.0, st.1.push(c))
        }
    }
}

/// The maximal runs of non-whitespace characters of `s`, in order.
pub open spec fn words_of(s: Seq<char>) -> Seq<Seq<char>> {
    let st = split_state(s);
    if st.1.len() > 0 {
        st.0.push(st.1)
    } else {
        st.0
    }
}

/// What a sequence of character vectors holds.
pub open spec fn views(ws: Seq<Vec<char>>) -> Seq<Seq<char>> {
    ws.map_values(|w: Vec<char>| w@)
}

/// A word: non-empty and free of whitespace.
pub open spec fn is_word(w: Seq<char>) -> bool {
    w.len() > 0 && forall|k: int| 0 <= k < w.len() ==> !white_space(#[trigger] w[k])
}

/// The width a word takes: its characters and one separator after it.
pub open spec fn word_width(w: Seq<char>) -> int {
    w.len() as int + 1
}

/// Relies on `str::chars`, collected into a vector: the characters of `s` in order.
#[verifier::external_body]
fn chars_of(s: &str) -> (r: Vec<char>)
    ensures
        r@ == s@,
{
    s.chars().collect()
}

/// Whether `c` is whitespace (what `char::is_whitespace` answers).
fn is_white(c: char) -> (r: bool)
    ensures
        r == white_space(c),
{
    let u = c as u32;
    (0x9 <= u && u <= 0xd) || u == 0x20 || u == 0x85 || u == 0xa0 || u == 0x1680
        || (0x2000 <= u && u <= 0x200a) || u == 0x2028 || u == 0x2029 || u == 0x202f
        || u == 0x205f || u == 0x3000
}

/// Splits `text` on runs of whitespace, dropping empty pieces.
pub fn tokenize(text: &str) -> (words: Vec<Vec<char>>)
    ensures
        views(words@) == words_of(text@),
        forall|k: int| 0 <= k < words@.len() ==> words@[k]@.len() <= text@.len(),
        words@.len() <= text@.len(),
{
    let cs = chars_of(text);
    let mut words: Vec<Vec<char>> = Vec::new();
    let mut cur: Vec<char> = Vec::new();
    let mut i: usize = 0;
    while i < cs.len()
        invariant
            i <= cs.len(),
            cs@ == text@,
            views(words@) == split_state(cs@.take(i as int)).0,
            cur@ == split_state(cs@.take(i as int)).1,
            cur@.len() <= i,
            words@.len() + cur@.len() <= i,
            forall|k: int| 0 <= k < words@.len() ==> words@[k]@.len() <= i,
        decreases cs.len() - i,
    {
        let c = cs[i];
        proof {
            assert(cs@.take(i + 1).drop_last() =~= cs@.take(i as int));
        }
        if is_white(c) {
            if cur.len() > 0 {
                let ghost before = words@;
                words.push(cur);
                cur = Vec::new();
                proof {
                    assert(views(words@) =~= views(before).push(words@.last()@));
                }
            }
        } else {
            cur.push(c);
        }
        i += 1;
    }
    proof {
        assert(cs@.take(cs@.len() as int) =~= cs@);
    }
    if cur.len() > 0 {
        let ghost before = words@;
        words.push(cur);
        proof {
            assert(views(words@) =~= views(before).push(words@.last()@));
        }
    }
    words
}

/// The width of each word, as `word_width` gives it.
pub fn widths(words: &Vec<Vec<char>>) -> (r: Vec<usize>)
    requires
        forall|k: int| 0 <= k < words@.len() ==> words@[k]@.len() < usize::MAX,
    ensures
        r@.len() == words@.len(),
        forall|k: int| 0 <= k < r@.len() ==> r@[k] == word_width(#[trigger] words@[k]@),
{
    let mut r: Vec<usize> = Vec::new();
    let mut k: usize = 0;
    while k < words.len()
        invariant
            k <= words@.len(),
            r@.len() == k,
            forall|m: int| 0 <= m < k ==> r@[m] == word_width(#[trigger] words@[m]@),
            forall|m: int| 0 <= m < words@.len() ==> words@[m]@.len() < usize::MAX,
        decreases words@.len() - k,
    {
        r.push(words[k].len() + 1);
        k += 1;
    }
    r
}

} // verus!
