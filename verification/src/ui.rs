//! The window's interactive targets, the keyboard's path through them, and
//! the control strip's own state: its toggles and the seed field.
//!
//! Where every target sits is measured in window pixels by the application's
//! layout; what is decided here is which targets there are, the order Tab
//! walks them in, and what the seed field accepts and means.

use vstd::prelude::*;
use crate::chars::{
    all_digits, chars_of, decimal, digits_value, is_digit, parse_u32, parse_u32_text, pop_char,
    push_char, push_decimal, lemma_decimal_round_trip,
};

verus! {

/// The seed field's width in digits; ten digits is more than a `u32` holds,
/// so a typed seed either parses or is visibly rejected.
pub const SEED_MAX_CHARS: usize = 10;

/// Every interactive target in the window.
#[derive(Clone, Copy, Debug, PartialEq, Eq, Structural)]
pub enum Hit {
    Pause,
    Rays,
    Restart,
    NewSeed,
    Save,
    Load,
    Evolve,
    SpeedSlider,
    SeedField,
}

/// Keyboard traversal follows the visual reading order of the control strip.
pub const FOCUS_ORDER: [Hit; 9] = [
    Hit::Pause,
    Hit::Rays,
    Hit::Evolve,
    Hit::Restart,
    Hit::NewSeed,
    Hit::Save,
    Hit::Load,
    Hit::SeedField,
    Hit::SpeedSlider,
];

/// Where a target stands in [`FOCUS_ORDER`].
pub open spec fn focus_index(hit: Hit) -> int {
    match hit {
        Hit::Pause => 0,
        Hit::Rays => 1,
        Hit::Evolve => 2,
        Hit::Restart => 3,
        Hit::NewSeed => 4,
        Hit::Save => 5,
        Hit::Load => 6,
        Hit::SeedField => 7,
        Hit::SpeedSlider => 8,
    }
}

/// The target at index `i` of [`FOCUS_ORDER`], for `i` in `0..9`.
pub open spec fn focus_at(i: int) -> Hit {
    if i == 0 {
        Hit::Pause
    } else if i == 1 {
        Hit::Rays
    } else if i == 2 {
        Hit::Evolve
    } else if i == 3 {
        Hit::Restart
    } else if i == 4 {
        Hit::NewSeed
    } else if i == 5 {
        Hit::Save
    } else if i == 6 {
        Hit::Load
    } else if i == 7 {
        Hit::SeedField
    } else {
        Hit::SpeedSlider
    }
}

/// Where Tab moves the focus: to the target after the focused one in reading
/// order, wrapping round, or to the first target when nothing has focus.
pub open spec fn spec_next_focus(focus: Option<Hit>) -> Hit {
    match focus {
        Some(hit) => focus_at((focus_index(hit) + 1) % 9),
        None => focus_at(0),
    }
}

/// The focus order lists every target exactly once, at its own index.
pub proof fn lemma_focus_order_is_a_permutation()
    ensures
        FOCUS_ORDER@.len() == 9,
        forall|i: int| 0 <= i < 9 ==> #[trigger] FOCUS_ORDER@[i] == focus_at(i),
        forall|i: int| 0 <= i < 9 ==> focus_index(#[trigger] focus_at(i)) == i,
        forall|hit: Hit| #[trigger] focus_at(focus_index(hit)) == hit,
        forall|hit: Hit| 0 <= #[trigger] focus_index(hit) < 9,
{
    assert(FOCUS_ORDER@ =~= seq![
        Hit::Pause,
        Hit::Rays,
        Hit::Evolve,
        Hit::Restart,
        Hit::NewSeed,
        Hit::Save,
        Hit::Load,
        Hit::SeedField,
        Hit::SpeedSlider,
    ]);
}

/// The focus after `n` presses of Tab.
pub open spec fn tab_presses(focus: Option<Hit>, n: nat) -> Option<Hit>
    decreases n,
{
    if n == 0 {
        focus
    } else {
        Some(spec_next_focus(tab_presses(focus, (n - 1) as nat)))
    }
}

/// Counting on by one, nine at a time.
proof fn lemma_mod9_step(x: int)
    requires
        x >= 0,
    ensures
        ((x % 9) + 1) % 9 == (x + 1) % 9,
        0 <= x % 9 < 9,
{
    assert(((x % 9) + 1) % 9 == (x + 1) % 9) by (nonlinear_arith)
        requires
            x >= 0,
    ;
}

/// Where `n` presses of Tab land, counted along the focus order.
proof fn lemma_tab_presses_position(focus: Option<Hit>, n: nat)
    requires
        n >= 1,
    ensures
        tab_presses(focus, n) == Some(focus_at(match focus {
            Some(hit) => (focus_index(hit) + n) % 9,
            None => (n - 1) % 9,
        })),
    decreases n,
{
    if n > 1 {
        lemma_tab_presses_position(focus, (n - 1) as nat);
        let x = match focus {
            Some(hit) => focus_index(hit) + n - 1,
            None => n - 2,
        };
        lemma_mod9_step(x);
        let i = x % 9;
        assert(focus_index(focus_at(i)) == i);
    } else {
        assert(tab_presses(focus, 0) == focus);
    }
}

/// Tab walks a full circle: from wherever the focus is, or from nowhere,
/// nine presses or fewer reach every target, and nine presses from a focused
/// target come back to it.
pub proof fn lemma_tab_walks_a_circle(focus: Option<Hit>, target: Hit)
    ensures
        exists|n: nat| 1 <= n <= 9 && #[trigger] tab_presses(focus, n) == Some(target),
        focus is Some ==> tab_presses(focus, 9) == focus,
{
    let t = focus_index(target);
    assert(focus_at(t) == target);
    let n: nat = match focus {
        Some(hit) => {
            let a = focus_index(hit);
            if t > a { (t - a) as nat } else { (t - a + 9) as nat }
        },
        None => (t + 1) as nat,
    };
    lemma_tab_presses_position(focus, n);
    lemma_tab_presses_position(focus, 9);
    match focus {
        Some(hit) => {
            let a = focus_index(hit);
            assert(a + n == t || a + n == t + 9);
            assert((a + n) % 9 == t);
            assert((a + 9) % 9 == a);
            assert(focus_at(a) == hit);
        },
        None => {
            assert((n - 1) % 9 == t);
        },
    }
    assert(tab_presses(focus, n) == Some(target));
}

/// Where Tab moves the focus.
pub fn next_focus(focus: Option<Hit>) -> (next: Hit)
    ensures
        next == spec_next_focus(focus),
{
    proof {
        lemma_focus_order_is_a_permutation();
    }
    let index: usize = match focus {
        Some(hit) => {
            let position: usize = match hit {
                Hit::Pause => 0,
                Hit::Rays => 1,
                Hit::Evolve => 2,
                Hit::Restart => 3,
                Hit::NewSeed => 4,
                Hit::Save => 5,
                Hit::Load => 6,
                Hit::SeedField => 7,
                Hit::SpeedSlider => 8,
            };
            (position + 1) % 9
        },
        None => 0,
    };
    FOCUS_ORDER[index]
}

/// The UTF-8 length of a piece of text, in bytes, as std's `str::len`
/// reports it.
pub open spec fn byte_len(text: Seq<char>) -> usize {
    vstd::utf8::encode_utf8(text).len() as usize
}

/// A well-kept seed field: digits only, and no more of them than it is wide.
pub open spec fn seed_text_ok(text: Seq<char>) -> bool {
    all_digits(text) && text.len() <= SEED_MAX_CHARS
}

/// The control strip's toggles and the seed field, owned by the app shell.
pub struct Controls {
    pub paused: bool,
    pub rays: bool,
    /// What the seed field shows: the live run's seed while it is not being
    /// edited, and the digits the user is typing while it is.
    pub seed_text: String,
    pub seed_editing: bool,
    /// True while a loaded Genome is being replayed instead of evolving.
    pub watching: bool,
}

impl Default for Controls {
    fn default() -> (controls: Self)
        ensures
            !controls.paused,
            !controls.rays,
            controls.seed_text@ == Seq::<char>::empty(),
            !controls.seed_editing,
            !controls.watching,
    {
        Controls {
            paused: false,
            rays: false,
            seed_text: String::new(),
            seed_editing: false,
            watching: false,
        }
    }
}

impl Controls {
    /// Type a character into the seed field: a digit is appended while the
    /// field is shorter than [`SEED_MAX_CHARS`] bytes; anything else is ignored.
    pub fn push_seed_char(&mut self, c: char)
        ensures
            final(self).paused == old(self).paused,
            final(self).rays == old(self).rays,
            final(self).seed_editing == old(self).seed_editing,
            final(self).watching == old(self).watching,
            final(self).seed_text@ == (if is_digit(c) && byte_len(old(self).seed_text@) < SEED_MAX_CHARS {
                old(self).seed_text@.push(c)
            } else {
                old(self).seed_text@
            }),
    {
        if !('0' <= c && c <= '9') || self.seed_text.as_str().len() >= SEED_MAX_CHARS {
            return;
        }
        push_char(&mut self.seed_text, c);
    }

    /// Delete the last character of the seed field, if there is one.
    pub fn pop_seed_char(&mut self)
        ensures
            final(self).paused == old(self).paused,
            final(self).rays == old(self).rays,
            final(self).seed_editing == old(self).seed_editing,
            final(self).watching == old(self).watching,
            final(self).seed_text@ == (if old(self).seed_text@.len() > 0 {
                old(self).seed_text@.drop_last()
            } else {
                old(self).seed_text@
            }),
    {
        pop_char(&mut self.seed_text);
    }

    /// The seed the field names, once it names a run at all: the number it
    /// holds, read as std reads a `u32`, and `None` when it is empty or does
    /// not hold one.
    pub fn seed_value(&self) -> (seed: Option<u32>)
        ensures
            seed == parse_u32(self.seed_text@),
            self.seed_text@.len() == 0 ==> seed is None,
    {
        if self.seed_text.as_str().is_empty() {
            return None;
        }
        parse_u32_text(self.seed_text.as_str())
    }
}

/// A digit-only field holds as many bytes as characters.
pub proof fn lemma_digits_are_single_bytes(text: Seq<char>)
    requires
        all_digits(text),
        text.len() <= SEED_MAX_CHARS,
    ensures
        byte_len(text) == text.len(),
{
    assert(vstd::utf8::is_ascii_chars(text)) by {
        assert forall|i: int| 0 <= i < text.len() implies '\0' <= #[trigger] text[i] <= '\u{7f}' by {
            assert(is_digit(text[i]));
        }
    }
    vstd::utf8::is_ascii_chars_encode_utf8(text);
}

/// The seed field stays well kept: typing into a field of digits leaves a
/// field of digits no wider than [`SEED_MAX_CHARS`], and deleting does too.
pub proof fn lemma_seed_field_stays_digits(text: Seq<char>, c: char)
    requires
        seed_text_ok(text),
    ensures
        seed_text_ok(if is_digit(c) && byte_len(text) < SEED_MAX_CHARS {
            text.push(c)
        } else {
            text
        }),
        seed_text_ok(if text.len() > 0 {
            text.drop_last()
        } else {
            text
        }),
{
    lemma_digits_are_single_bytes(text);
    if is_digit(c) && byte_len(text) < SEED_MAX_CHARS {
        let t = text.push(c);
        assert forall|i: int| 0 <= i < t.len() implies is_digit(#[trigger] t[i]) by {
            if i < text.len() {
                assert(t[i] == text[i]);
            }
        }
    }
    if text.len() > 0 {
        let t = text.drop_last();
        assert forall|i: int| 0 <= i < t.len() implies is_digit(#[trigger] t[i]) by {
            assert(t[i] == text[i]);
        }
    }
}

/// A seed shown in the field reads back as the same seed.
pub proof fn lemma_seed_round_trip(seed: u32)
    ensures
        seed_text_ok(decimal(seed as nat)),
        parse_u32(decimal(seed as nat)) == Some(seed),
{
    lemma_decimal_round_trip(seed as nat);
    let d = decimal(seed as nat);
    assert(d.len() > 1 ==> d[0] != '+') by {
        assert(is_digit(d[0]));
    }
}

/// `digits` with a grouping comma before each full group of three from the
/// right, so a long number stays readable: `1234567` reads `1,234,567`.
pub open spec fn group_thousands(digits: Seq<char>) -> Seq<char>
    decreases digits.len(),
{
    if digits.len() <= 3 {
        digits
    } else {
        group_thousands(digits.take(digits.len() - 3)) + seq![','] + digits.skip(digits.len() - 3)
    }
}

/// The first `i` digits of `digits` as the grouping loop writes them out, a
/// comma going in before each digit that starts a group of three.
spec fn grouped_prefix(digits: Seq<char>, i: nat) -> Seq<char>
    decreases i,
{
    if i == 0 {
        Seq::empty()
    } else {
        let j = (i - 1) as nat;
        grouped_prefix(digits, j) + (if j > 0 && (digits.len() - j) % 3 == 0 {
            seq![',']
        } else {
            Seq::empty()
        }) + seq![digits[j as int]]
    }
}

/// Dropping the last group of three leaves the earlier digits written out as
/// before.
proof fn lemma_grouped_prefix_shorter(digits: Seq<char>, i: nat)
    requires
        digits.len() > 3,
        i <= digits.len() - 3,
    ensures
        grouped_prefix(digits, i) == grouped_prefix(digits.take(digits.len() - 3), i),
    decreases i,
{
    if i > 0 {
        lemma_grouped_prefix_shorter(digits, (i - 1) as nat);
        let short = digits.take(digits.len() - 3);
        let j = i - 1;
        assert((digits.len() - j) % 3 == (short.len() - j) % 3);
        assert(digits[j] == short[j]);
    }
}

/// Without a comma, the first `i` digits are written out as they are.
proof fn lemma_grouped_prefix_short(digits: Seq<char>, i: nat)
    requires
        digits.len() <= 3,
        i <= digits.len(),
    ensures
        grouped_prefix(digits, i) == digits.take(i as int),
    decreases i,
{
    if i > 0 {
        lemma_grouped_prefix_short(digits, (i - 1) as nat);
        assert(digits.take(i as int) =~= digits.take(i - 1).push(digits[i - 1]));
    }
}

/// The loop writes out exactly [`group_thousands`].
proof fn lemma_grouped_prefix_whole(digits: Seq<char>)
    ensures
        grouped_prefix(digits, digits.len()) == group_thousands(digits),
    decreases digits.len(),
{
    let n = digits.len();
    if n <= 3 {
        lemma_grouped_prefix_short(digits, n);
        assert(digits.take(n as int) =~= digits);
    } else {
        let short = digits.take(n - 3);
        lemma_grouped_prefix_shorter(digits, (n - 3) as nat);
        lemma_grouped_prefix_whole(short);
        let head = grouped_prefix(digits, (n - 3) as nat);
        assert(grouped_prefix(digits, (n - 2) as nat) == head + seq![','] + seq![digits[n - 3]]);
        assert(grouped_prefix(digits, (n - 1) as nat) == head + seq![','] + seq![digits[n - 3]] + seq![digits[n - 2]]);
        assert(grouped_prefix(digits, n) =~= head + seq![','] + digits.skip(n - 3));
    }
}

/// Digits with a grouping comma, so a long speed stays readable.
pub fn grouped(value: u32) -> (text: String)
    ensures
        text@ == group_thousands(decimal(value as nat)),
{
    let mut digits_text = String::new();
    push_decimal(&mut digits_text, value);
    let digits = chars_of(digits_text.as_str());
    let ghost d = digits@;
    assert(d =~= decimal(value as nat));
    let mut out = String::new();
    let mut index: usize = 0;
    while index < digits.len()
        invariant
            index <= digits@.len(),
            d == digits@,
            out@ == grouped_prefix(d, index as nat),
        decreases digits@.len() - index,
    {
        if index > 0 && (digits.len() - index) % 3 == 0 {
            push_char(&mut out, ',');
        }
        push_char(&mut out, digits[index]);
        assert(out@ =~= grouped_prefix(d, (index + 1) as nat));
        index = index + 1;
    }
    proof {
        lemma_grouped_prefix_whole(d);
    }
    out
}

} // verus!
