//! The status strip's sentence, wrapped into lines.
//!
//! The panels measure text with a fixed monospace advance; how many
//! characters a line may hold is worked out by the application from the strip's
//! width and the font size, and the wrapping itself — which words go on which
//! line — is decided here.

use vstd::prelude::*;
use crate::chars::{chars_of, string_from};

verus! {

/// Unicode's `White_Space` property, which is what std's `char::is_whitespace`
/// and `str::split_whitespace` go by.
pub open spec fn is_space(c: char) -> bool {
    let u = c as u32;
    ||| 0x09 <= u <= 0x0D
    ||| u == 0x20
    ||| u == 0x85
    ||| u == 0xA0
    ||| u == 0x1680
    ||| 0x2000 <= u <= 0x200A
    ||| u == 0x2028
    ||| u == 0x2029
    ||| u == 0x202F
    ||| u == 0x205F
    ||| u == 0x3000
}

fn is_space_exec(c: char) -> (space: bool)
    ensures
        space == is_space(c),
{
    let u = c as u32;
    (0x09 <= u && u <= 0x0D) || u == 0x20 || u == 0x85 || u == 0xA0 || u == 0x1680 || (0x2000 <= u
        && u <= 0x200A) || u == 0x2028 || u == 0x2029 || u == 0x202F || u == 0x205F || u == 0x3000
}

/// The words of `s`: its maximal runs of non-whitespace characters, in order.
pub open spec fn words(s: Seq<char>) -> Seq<Seq<char>>
    decreases s.len(),
{
    if s.len() == 0 {
        Seq::empty()
    } else if is_space(s.last()) {
        words(s.drop_last())
    } else if s.len() >= 2 && !is_space(s[s.len() - 2]) {
        let w = words(s.drop_last());
        w.update(w.len() - 1, w.last().push(s.last()))
    } else {
        words(s.drop_last()).push(seq![s.last()])
    }
}

/// A word is never empty and never holds whitespace, and a text that ends in
/// a non-space character ends in the middle of its last word.
pub proof fn lemma_words_shape(s: Seq<char>)
    ensures
        forall|i: int|
            0 <= i < words(s).len() ==> #[trigger] words(s)[i].len() > 0 && forall|j: int|
                0 <= j < words(s)[i].len() ==> !is_space(#[trigger] words(s)[i][j]),
        s.len() > 0 && !is_space(s.last()) ==> words(s).len() > 0 && words(s).last().last()
            == s.last(),
    decreases s.len(),
{
    if s.len() > 0 {
        let t = s.drop_last();
        lemma_words_shape(t);
        if !is_space(s.last()) && s.len() >= 2 && !is_space(s[s.len() - 2]) {
            assert(t.last() == s[s.len() - 2]);
        }
        let w = words(s);
        assert forall|i: int| 0 <= i < w.len() implies #[trigger] w[i].len() > 0 && forall|j: int|
            0 <= j < w[i].len() ==> !is_space(#[trigger] w[i][j]) by {
            if i < words(t).len() && w[i] != words(t)[i] {
                let old_word = words(t)[i];
                assert(w[i] == old_word.push(s.last()));
                assert forall|j: int| 0 <= j < w[i].len() implies !is_space(#[trigger] w[i][j]) by {
                    if j < old_word.len() {
                        assert(w[i][j] == old_word[j]);
                    }
                }
            }
        }
    }
}

/// Split text into its words, as std's `split_whitespace` does.
pub fn split_words(text: &Vec<char>) -> (split: Vec<Vec<char>>)
    ensures
        split@.map_values(|w: Vec<char>| w@) == words(text@),
{
    let mut split: Vec<Vec<char>> = Vec::new();
    let mut i: usize = 0;
    while i < text.len()
        invariant
            i <= text@.len(),
            split@.map_values(|w: Vec<char>| w@) == words(text@.take(i as int)),
        decreases text@.len() - i,
    {
        let c = text[i];
        let ghost prefix = text@.take(i as int);
        let ghost next = text@.take(i + 1);
        assert(next.drop_last() =~= prefix);
        assert(next.last() == c);
        if is_space_exec(c) {
        } else if i >= 1 && !is_space_exec(text[i - 1]) {
            assert(next[next.len() - 2] == text@[i - 1]);
            proof {
                lemma_words_shape(prefix);
                assert(prefix.last() == text@[i - 1]);
            }
            let mut word = split.pop().unwrap();
            word.push(c);
            split.push(word);
            assert(split@.map_values(|w: Vec<char>| w@) =~= words(next));
        } else {
            let mut word: Vec<char> = Vec::new();
            word.push(c);
            split.push(word);
            assert(split@.map_values(|w: Vec<char>| w@) =~= words(next));
        }
        i = i + 1;
    }
    assert(text@.take(text@.len() as int) =~= text@);
    split
}

/// The greedy wrapper's state between words: the finished lines, the line
/// being filled, and whether it has stopped at the line limit.
pub struct WrapState {
    pub lines: Seq<Seq<char>>,
    pub line: Seq<char>,
    pub done: bool,
}

/// One word through the greedy wrapper: it joins the current line after a
/// space if the line stays within `budget` characters; otherwise the current
/// line is finished and the word starts the next one — unless that finished
/// line reaches `max_lines`, where the wrapper stops.
pub open spec fn wrap_step(st: WrapState, word: Seq<char>, budget: nat, max_lines: nat) -> WrapState {
    if st.done {
        st
    } else {
        let breaks = st.line.len() > 0 && st.line.len() + 1 + word.len() > budget;
        let lines = if breaks {
            st.lines.push(st.line)
        } else {
            st.lines
        };
        if breaks && lines.len() >= max_lines {
            WrapState { lines, line: Seq::empty(), done: true }
        } else if breaks || st.line.len() == 0 {
            WrapState { lines, line: word, done: false }
        } else {
            WrapState { lines, line: st.line + seq![' '] + word, done: false }
        }
    }
}

/// The wrapper's state after the first `ws.len()` words.
pub open spec fn wrap_fold(ws: Seq<Seq<char>>, budget: nat, max_lines: nat) -> WrapState
    decreases ws.len(),
{
    if ws.len() == 0 {
        WrapState { lines: Seq::empty(), line: Seq::empty(), done: false }
    } else {
        wrap_step(wrap_fold(ws.drop_last(), budget, max_lines), ws.last(), budget, max_lines)
    }
}

/// The lines `text` wraps into: greedily, at most `budget` characters a line
/// unless a single word is longer, and no more than `max_lines` lines (with at
/// least one line once the text spills past its first).
pub open spec fn wrap_lines(text: Seq<char>, budget: nat, max_lines: nat) -> Seq<Seq<char>> {
    let st = wrap_fold(words(text), budget, max_lines);
    if !st.done && st.line.len() > 0 && st.lines.len() < max_lines {
        st.lines.push(st.line)
    } else {
        st.lines
    }
}

/// Greedy word wrap: the words of `text`, a space between neighbours, laid
/// into lines of at most `budget` characters (a word longer than that gets a
/// line of its own), stopping at `max_lines` lines.
pub fn wrap(text: &str, budget: usize, max_lines: usize) -> (lines: Vec<String>)
    ensures
        lines@.map_values(|l: String| l@) == wrap_lines(text@, budget as nat, max_lines as nat),
{
    let chars = chars_of(text);
    let ws = split_words(&chars);
    let ghost wsv = ws@.map_values(|w: Vec<char>| w@);
    let mut lines: Vec<String> = Vec::new();
    let mut line: Vec<char> = Vec::new();
    let mut k: usize = 0;
    while k < ws.len()
        invariant
            k <= ws@.len(),
            wsv == ws@.map_values(|w: Vec<char>| w@),
            wsv == words(text@),
            ({
                let st = wrap_fold(wsv.take(k as int), budget as nat, max_lines as nat);
                &&& !st.done
                &&& lines@.map_values(|l: String| l@) == st.lines
                &&& line@ == st.line
            }),
        decreases ws@.len() - k,
    {
        let word = &ws[k];
        let ghost st = wrap_fold(wsv.take(k as int), budget as nat, max_lines as nat);
        assert(wsv.take(k + 1).drop_last() =~= wsv.take(k as int));
        assert(wsv.take(k + 1).last() == word@);
        let candidate: u128 = line.len() as u128 + 1 + word.len() as u128;
        if line.len() > 0 && candidate > budget as u128 {
            let finished = string_from(&line);
            lines.push(finished);
            line = Vec::new();
            assert(lines@.map_values(|l: String| l@) =~= st.lines.push(st.line));
            if lines.len() >= max_lines {
                assert(wsv.take(k + 1) =~= wsv.take(k + 1));
                proof {
                    lemma_wrap_done_stays(wsv, (k + 1) as nat, budget as nat, max_lines as nat);
                }
                return lines;
            }
        }
        if line.len() > 0 {
            line.push(' ');
        }
        let mut j: usize = 0;
        let ghost base = line@;
        while j < word.len()
            invariant
                j <= word@.len(),
                line@ == base + word@.take(j as int),
            decreases word@.len() - j,
        {
            line.push(word[j]);
            assert(line@ =~= base + word@.take(j + 1));
            j = j + 1;
        }
        assert(word@.take(word@.len() as int) =~= word@);
        assert(line@ == wrap_fold(wsv.take(k + 1), budget as nat, max_lines as nat).line);
        k = k + 1;
    }
    assert(wsv.take(ws@.len() as int) =~= wsv);
    if line.len() > 0 && lines.len() < max_lines {
        lines.push(string_from(&line));
        assert(lines@.map_values(|l: String| l@) =~= wrap_fold(wsv, budget as nat, max_lines as nat).lines.push(line@));
    }
    lines
}

/// A line fits when it is within the budget, or is a single word too long
/// for any line.
pub open spec fn line_fits(line: Seq<char>, budget: nat) -> bool {
    line.len() <= budget || !line.contains(' ')
}

/// What holds of the wrapper at every word: every line fits, and the lines
/// never outnumber the limit (a limit of zero still lets one line through).
spec fn wrap_invariant(st: WrapState, budget: nat, max_lines: nat) -> bool {
    &&& forall|i: int| 0 <= i < st.lines.len() ==> line_fits(#[trigger] st.lines[i], budget)
    &&& line_fits(st.line, budget)
    &&& !st.done ==> (st.lines.len() < max_lines || st.lines.len() == 0)
    &&& st.done ==> st.lines.len() == (if max_lines >= 1 { max_lines } else { 1 })
}

proof fn lemma_wrap_fold_invariant(ws: Seq<Seq<char>>, budget: nat, max_lines: nat)
    requires
        forall|i: int| 0 <= i < ws.len() ==> !(#[trigger] ws[i]).contains(' '),
    ensures
        wrap_invariant(wrap_fold(ws, budget, max_lines), budget, max_lines),
    decreases ws.len(),
{
    if ws.len() > 0 {
        let t = ws.drop_last();
        assert forall|i: int| 0 <= i < t.len() implies !(#[trigger] t[i]).contains(' ') by {
            assert(t[i] == ws[i]);
        }
        lemma_wrap_fold_invariant(t, budget, max_lines);
        let st = wrap_fold(t, budget, max_lines);
        let word = ws.last();
        assert(!word.contains(' '));
        let next = wrap_step(st, word, budget, max_lines);
        if !st.done {
            let breaks = st.line.len() > 0 && st.line.len() + 1 + word.len() > budget;
            if !breaks && st.line.len() > 0 {
                assert(next.line.len() == st.line.len() + 1 + word.len());
            }
            assert forall|i: int| 0 <= i < next.lines.len() implies line_fits(#[trigger] next.lines[i], budget) by {
                if i < st.lines.len() {
                    assert(next.lines[i] == st.lines[i]);
                }
            }
        }
    }
}

/// What the wrapper promises of its lines: each one is within the budget or
/// is a single word, and there are no more of them than the limit (one line
/// gets through a limit of zero once the text spills past its first line).
pub proof fn lemma_wrapped_lines_fit(text: Seq<char>, budget: nat, max_lines: nat)
    ensures
        forall|i: int|
            0 <= i < wrap_lines(text, budget, max_lines).len() ==> line_fits(
                #[trigger] wrap_lines(text, budget, max_lines)[i],
                budget,
            ),
        wrap_lines(text, budget, max_lines).len() <= (if max_lines >= 1 {
            max_lines
        } else {
            1
        }),
{
    lemma_words_shape(text);
    let ws = words(text);
    assert(is_space(' '));
    assert forall|i: int| 0 <= i < ws.len() implies !(#[trigger] ws[i]).contains(' ') by {
        if ws[i].contains(' ') {
            let j = choose|j: int| 0 <= j < ws[i].len() && ws[i][j] == ' ';
            assert(!is_space(ws[i][j]));
        }
    }
    lemma_wrap_fold_invariant(ws, budget, max_lines);
    let st = wrap_fold(ws, budget, max_lines);
    let result = wrap_lines(text, budget, max_lines);
    assert forall|i: int| 0 <= i < result.len() implies line_fits(#[trigger] result[i], budget) by {
        if i < st.lines.len() {
            assert(result[i] == st.lines[i]);
        }
    }
}

/// Once the wrapper has stopped at its line limit, later words change nothing.
proof fn lemma_wrap_done_stays(ws: Seq<Seq<char>>, k: nat, budget: nat, max_lines: nat)
    requires
        k <= ws.len(),
        wrap_fold(ws.take(k as int), budget, max_lines).done,
    ensures
        wrap_fold(ws, budget, max_lines) == wrap_fold(ws.take(k as int), budget, max_lines),
    decreases ws.len() - k,
{
    if k < ws.len() {
        assert(ws.take((k + 1) as int).drop_last() =~= ws.take(k as int));
        lemma_wrap_done_stays(ws, k + 1, budget, max_lines);
    } else {
        assert(ws.take(k as int) =~= ws);
    }
}

/// Lines (or words) laid end to end with one space between neighbours.
pub open spec fn joined(ls: Seq<Seq<char>>) -> Seq<char>
    decreases ls.len(),
{
    if ls.len() == 0 {
        Seq::empty()
    } else if ls.len() == 1 {
        ls[0]
    } else {
        joined(ls.drop_last()) + seq![' '] + ls.last()
    }
}

/// The lines the wrapper holds so far: the finished ones and the one being
/// filled.
spec fn held_lines(st: WrapState) -> Seq<Seq<char>> {
    if st.line.len() > 0 {
        st.lines.push(st.line)
    } else {
        st.lines
    }
}

/// Until it stops at the line limit, the wrapper loses no word and moves none:
/// its lines, laid end to end, are the words laid end to end.
proof fn lemma_wrap_fold_keeps_words(ws: Seq<Seq<char>>, budget: nat, max_lines: nat)
    requires
        max_lines >= 1,
        forall|i: int| 0 <= i < ws.len() ==> (#[trigger] ws[i]).len() > 0,
    ensures
        ({
            let st = wrap_fold(ws, budget, max_lines);
            !st.done ==> {
                &&& joined(held_lines(st)) == joined(ws)
                &&& st.lines.len() < max_lines
                &&& (st.line.len() == 0 <==> ws.len() == 0)
                &&& (st.line.len() == 0 ==> st.lines.len() == 0)
            }
        }),
    decreases ws.len(),
{
    if ws.len() > 0 {
        let t = ws.drop_last();
        assert forall|i: int| 0 <= i < t.len() implies (#[trigger] t[i]).len() > 0 by {
            assert(t[i] == ws[i]);
        }
        lemma_wrap_fold_keeps_words(t, budget, max_lines);
        let st = wrap_fold(t, budget, max_lines);
        let word = ws.last();
        assert(word.len() > 0);
        assert(ws =~= t.push(word));
        let next = wrap_fold(ws, budget, max_lines);
        if !next.done {
            assert(!st.done);
            let breaks = st.line.len() > 0 && st.line.len() + 1 + word.len() > budget;
            if st.line.len() == 0 {
                assert(t.len() == 0);
                assert(held_lines(next) =~= seq![word]);
                assert(ws =~= seq![word]);
            } else if breaks {
                assert(held_lines(next) =~= held_lines(st).push(word));
                assert(held_lines(st).len() >= 1);
                assert(t.len() >= 1);
                assert(held_lines(next).drop_last() =~= held_lines(st));
                assert(ws.drop_last() =~= t);
            } else {
                let longer = st.line + seq![' '] + word;
                assert(held_lines(next) =~= st.lines.push(longer));
                assert(t.len() >= 1);
                assert(ws.drop_last() =~= t);
                assert(joined(ws) =~= joined(t) + seq![' '] + word);
                if st.lines.len() == 0 {
                    assert(held_lines(st) =~= seq![st.line]);
                    assert(st.lines.push(longer) =~= seq![longer]);
                } else {
                    assert(st.lines.push(longer).drop_last() =~= st.lines);
                    assert(held_lines(st).drop_last() =~= st.lines);
                    assert(joined(st.lines.push(longer)) =~= joined(st.lines) + seq![' '] + longer);
                    assert(joined(held_lines(st)) =~= joined(st.lines) + seq![' '] + st.line);
                }
            }
        }
    }
}

/// The wrapper loses no word and moves none: whenever the text's lines stay
/// under the limit, the lines laid end to end with a space between them are
/// the text's words laid end to end the same way.
pub proof fn lemma_wrap_keeps_every_word(text: Seq<char>, budget: nat, max_lines: nat)
    requires
        max_lines >= 1,
        wrap_lines(text, budget, max_lines).len() < max_lines,
    ensures
        joined(wrap_lines(text, budget, max_lines)) == joined(words(text)),
{
    lemma_words_shape(text);
    let ws = words(text);
    assert forall|i: int| 0 <= i < ws.len() implies (#[trigger] ws[i]).len() > 0 by {}
    lemma_wrap_fold_keeps_words(ws, budget, max_lines);
    lemma_wrapped_lines_fit(text, budget, max_lines);
    assert(is_space(' '));
    assert forall|i: int| 0 <= i < ws.len() implies !(#[trigger] ws[i]).contains(' ') by {
        if ws[i].contains(' ') {
            let j = choose|j: int| 0 <= j < ws[i].len() && ws[i][j] == ' ';
            assert(!is_space(ws[i][j]));
        }
    }
    lemma_wrap_fold_invariant(ws, budget, max_lines);
    let st = wrap_fold(ws, budget, max_lines);
    assert(!st.done);
    assert(wrap_lines(text, budget, max_lines) == held_lines(st));
}

/// No two neighbouring lines could have shared one line.
spec fn no_early_break(ls: Seq<Seq<char>>, budget: nat) -> bool {
    forall|i: int| 0 <= i < ls.len() - 1 ==> #[trigger] ls[i].len() + 1 + ls[i + 1].len() > budget
}

proof fn lemma_wrap_fold_breaks_only_when_full(ws: Seq<Seq<char>>, budget: nat, max_lines: nat)
    requires
        forall|i: int| 0 <= i < ws.len() ==> (#[trigger] ws[i]).len() > 0,
    ensures
        no_early_break(held_lines(wrap_fold(ws, budget, max_lines)), budget),
        !wrap_fold(ws, budget, max_lines).done && wrap_fold(ws, budget, max_lines).line.len() == 0
            ==> wrap_fold(ws, budget, max_lines).lines.len() == 0,
    decreases ws.len(),
{
    if ws.len() > 0 {
        let t = ws.drop_last();
        assert forall|i: int| 0 <= i < t.len() implies (#[trigger] t[i]).len() > 0 by {
            assert(t[i] == ws[i]);
        }
        lemma_wrap_fold_breaks_only_when_full(t, budget, max_lines);
        let st = wrap_fold(t, budget, max_lines);
        let word = ws.last();
        assert(word.len() > 0);
        let next = wrap_fold(ws, budget, max_lines);
        let h = held_lines(st);
        let hn = held_lines(next);
        if !st.done {
            let breaks = st.line.len() > 0 && st.line.len() + 1 + word.len() > budget;
            if breaks {
                assert(h =~= st.lines.push(st.line));
                assert forall|i: int| 0 <= i < hn.len() - 1 implies #[trigger] hn[i].len() + 1 + hn[i
                    + 1].len() > budget by {
                    if i + 1 < h.len() {
                        assert(hn[i] == h[i] && hn[i + 1] == h[i + 1]);
                    } else {
                        assert(hn[i] == st.line && hn[i + 1] == word);
                    }
                }
            } else if st.line.len() > 0 {
                let longer = st.line + seq![' '] + word;
                assert(hn =~= st.lines.push(longer));
                assert(h =~= st.lines.push(st.line));
                assert forall|i: int| 0 <= i < hn.len() - 1 implies #[trigger] hn[i].len() + 1 + hn[i
                    + 1].len() > budget by {
                    assert(hn[i] == h[i]);
                    if i + 1 < h.len() - 1 {
                        assert(hn[i + 1] == h[i + 1]);
                    } else {
                        assert(hn[i + 1] == longer && h[i + 1] == st.line);
                    }
                }
            } else {
                assert(hn =~= seq![word]);
            }
        }
    }
}

/// The wrapper breaks a line only when the next word will not fit on it: no
/// two neighbouring lines, with a space between them, would fit the budget
/// together.
pub proof fn lemma_wrap_breaks_only_when_full(text: Seq<char>, budget: nat, max_lines: nat)
    ensures
        forall|i: int|
            0 <= i < wrap_lines(text, budget, max_lines).len() - 1 ==> #[trigger] wrap_lines(
                text,
                budget,
                max_lines,
            )[i].len() + 1 + wrap_lines(text, budget, max_lines)[i + 1].len() > budget,
{
    let ws = words(text);
    lemma_words_shape(text);
    assert forall|i: int| 0 <= i < ws.len() implies (#[trigger] ws[i]).len() > 0 by {}
    lemma_wrap_fold_breaks_only_when_full(ws, budget, max_lines);
    let st = wrap_fold(ws, budget, max_lines);
    let result = wrap_lines(text, budget, max_lines);
    let h = held_lines(st);
    assert forall|i: int| 0 <= i < result.len() - 1 implies #[trigger] result[i].len() + 1
        + result[i + 1].len() > budget by {
        assert(result[i] == h[i] && result[i + 1] == h[i + 1]);
    }
}

} // verus!
