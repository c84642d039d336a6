//! The app shell's input decisions: what a key press or a click does to the
//! control strip, and what it asks the shell to do.
//!
//! The shell owns the window, the run and the renderer. It hands every key
//! press and every click it receives to this module, applies the state change
//! made here, and carries out the [`Command`] it gets back. The layout's
//! geometry — which control a point lands on, where the speed slider's knob
//! sits — stays with the shell; what happens once a target is known is decided
//! here.

use vstd::prelude::*;
use crate::chars::{chars_of, decimal, decimal_string, is_digit, parse_u32};
use crate::ui::{
    byte_len, next_focus, seed_text_ok, spec_next_focus, Controls, Hit, SEED_MAX_CHARS,
    focus_index, FOCUS_ORDER,
    lemma_seed_field_stays_digits, lemma_seed_round_trip,
};

verus! {

/// A key press, as the shell hands it over: the named keys the strip answers
/// to, the text a character key types, and everything else.
pub enum Key {
    Tab,
    ArrowLeft,
    ArrowRight,
    Enter,
    Space,
    Escape,
    Backspace,
    Character(String),
    Other,
}

/// What the shell has to carry out after an input has been decided.
#[derive(Clone, Copy, Debug, PartialEq, Eq, Structural)]
pub enum Command {
    /// Nothing beyond the state change already made.
    Nothing,
    /// Move the speed slider one notch, faster or slower.
    NudgeSpeed { faster: bool },
    /// Press the focused control as if it were clicked at its centre.
    PressFocused(Hit),
    /// Start a new run from Generation 1 with this seed.
    Restart(u32),
    /// The seed field holds no seed: say so on the status line.
    RejectSeed,
    /// Trails were switched on or off: drop what the motion effects recorded.
    MotionToggled,
    /// Save the best Genome of the run.
    Save,
    /// Load the next save file and watch it.
    Load,
    /// Evolve again from the loaded Genome.
    Evolve,
    /// The speed slider was grabbed: follow the pointer while it is held.
    DragSlider,
    /// Restart the current run from Generation 1, with its own seed.
    RestartSame,
    /// Start a run from a fresh seed.
    NewSeed,
}

/// The input-facing state the shell keeps: the control strip, which target
/// has the keyboard's focus, which one is under the pointer, which one is held
/// down, and whether motion trails are drawn.
pub struct InputState {
    pub controls: Controls,
    pub focus: Option<Hit>,
    pub hot: Option<Hit>,
    pub pressed: Option<Hit>,
    pub trails: bool,
}

/// [`InputState`] as values.
pub struct InputModel {
    pub paused: bool,
    pub rays: bool,
    pub seed_text: Seq<char>,
    pub seed_editing: bool,
    pub watching: bool,
    pub focus: Option<Hit>,
    pub hot: Option<Hit>,
    pub pressed: Option<Hit>,
    pub trails: bool,
}

impl InputState {
    pub open spec fn model(&self) -> InputModel {
        InputModel {
            paused: self.controls.paused,
            rays: self.controls.rays,
            seed_text: self.controls.seed_text@,
            seed_editing: self.controls.seed_editing,
            watching: self.controls.watching,
            focus: self.focus,
            hot: self.hot,
            pressed: self.pressed,
            trails: self.trails,
        }
    }
}

/// One character typed at the seed field: a digit goes in while the field is
/// shorter than its width; anything else is ignored.
pub open spec fn seed_push(text: Seq<char>, c: char) -> Seq<char> {
    if is_digit(c) && byte_len(text) < SEED_MAX_CHARS {
        text.push(c)
    } else {
        text
    }
}

/// The seed field after `typed` has been typed at it, character by character.
pub open spec fn seed_typed(text: Seq<char>, typed: Seq<char>) -> Seq<char>
    decreases typed.len(),
{
    if typed.len() == 0 {
        text
    } else {
        seed_push(seed_typed(text, typed.drop_last()), typed.last())
    }
}

/// Some character of `text` is a digit.
pub open spec fn has_digit(text: Seq<char>) -> bool {
    exists|i: int| 0 <= i < text.len() && is_digit(#[trigger] text[i])
}

/// Whether the seed field is where the eye is: being edited, focused, or
/// under the pointer.
pub open spec fn field_is_live(m: InputModel) -> bool {
    m.seed_editing || m.focus == Some(Hit::SeedField) || m.hot == Some(Hit::SeedField)
}

/// `text` is the single letter `lower`, in either case.
pub open spec fn is_letter(text: Seq<char>, lower: char, upper: char) -> bool {
    text == seq![lower] || text == seq![upper]
}

/// What a key press does. Tab moves the focus along the reading order and
/// puts the caret in the seed field exactly when it lands there; the arrows
/// nudge the speed while the slider has focus; Enter presses the focused
/// control, or — with nothing focused but the seed field — ends the edit and
/// restarts from the seed the field holds; Space pauses and resumes; Escape
/// leaves the field; Backspace deletes a digit while editing. Typed digits go
/// into the field only where the field is live, and while it is being edited
/// no letter is a command: otherwise `m`, `r`, `s`, `l` and `e` (in either
/// case) toggle trails, toggle rays, save, load and evolve.
pub open spec fn key_outcome(m: InputModel, key: Key) -> (InputModel, Command) {
    match key {
        Key::Tab => {
            let focus = spec_next_focus(m.focus);
            (
                InputModel { focus: Some(focus), seed_editing: focus == Hit::SeedField, ..m },
                Command::Nothing,
            )
        },
        Key::ArrowLeft => if m.focus == Some(Hit::SpeedSlider) {
            (m, Command::NudgeSpeed { faster: false })
        } else {
            (m, Command::Nothing)
        },
        Key::ArrowRight => if m.focus == Some(Hit::SpeedSlider) {
            (m, Command::NudgeSpeed { faster: true })
        } else {
            (m, Command::Nothing)
        },
        Key::Enter => match m.focus {
            Some(hit) => if hit != Hit::SeedField {
                (m, Command::PressFocused(hit))
            } else {
                enter_in_field(m)
            },
            None => enter_in_field(m),
        },
        Key::Space => (InputModel { paused: !m.paused, ..m }, Command::Nothing),
        Key::Escape => (InputModel { seed_editing: false, ..m }, Command::Nothing),
        Key::Backspace => if m.seed_editing {
            (
                InputModel {
                    seed_text: if m.seed_text.len() > 0 {
                        m.seed_text.drop_last()
                    } else {
                        m.seed_text
                    },
                    ..m
                },
                Command::Nothing,
            )
        } else {
            (m, Command::Nothing)
        },
        Key::Character(text) => {
            let typed = text@;
            if field_is_live(m) && has_digit(typed) {
                (
                    InputModel { seed_editing: true, seed_text: seed_typed(m.seed_text, typed), ..m },
                    Command::Nothing,
                )
            } else if m.seed_editing {
                (m, Command::Nothing)
            } else if is_letter(typed, 'm', 'M') {
                (InputModel { trails: !m.trails, ..m }, Command::MotionToggled)
            } else if is_letter(typed, 'r', 'R') {
                (InputModel { rays: !m.rays, ..m }, Command::Nothing)
            } else if is_letter(typed, 's', 'S') {
                (m, Command::Save)
            } else if is_letter(typed, 'l', 'L') {
                (m, Command::Load)
            } else if is_letter(typed, 'e', 'E') {
                (m, Command::Evolve)
            } else {
                (m, Command::Nothing)
            }
        },
        Key::Other => (m, Command::Nothing),
    }
}

/// Enter with the seed field (or nothing) focused: the edit ends, and the run
/// restarts from the field's seed, or the field is reported as holding none.
pub open spec fn enter_in_field(m: InputModel) -> (InputModel, Command) {
    let after = InputModel { seed_editing: false, ..m };
    match parse_u32(m.seed_text) {
        Some(seed) => (after, Command::Restart(seed)),
        None => (after, Command::RejectSeed),
    }
}

/// What a click does once the shell knows which control it landed on (`None`
/// for a click on no control): a click on nothing leaves the seed field; a
/// click on a control focuses it and holds it down, then toggles pause or
/// rays, opens the seed field (filling an empty one with the run's `seed`),
/// grabs the slider, or asks for a restart, a new seed, a save, a load or an
/// evolve.
pub open spec fn press_outcome(m: InputModel, hit: Option<Hit>, seed: u32) -> (InputModel, Command) {
    match hit {
        None => (InputModel { seed_editing: false, ..m }, Command::Nothing),
        Some(h) => {
            let held = InputModel { focus: Some(h), pressed: Some(h), ..m };
            match h {
                Hit::SpeedSlider => (held, Command::DragSlider),
                Hit::SeedField => (
                    InputModel {
                        seed_editing: true,
                        seed_text: if m.seed_text.len() == 0 {
                            decimal(seed as nat)
                        } else {
                            m.seed_text
                        },
                        ..held
                    },
                    Command::Nothing,
                ),
                Hit::Pause => (InputModel { paused: !m.paused, ..held }, Command::Nothing),
                Hit::Rays => (InputModel { rays: !m.rays, ..held }, Command::Nothing),
                Hit::Restart => (held, Command::RestartSame),
                Hit::NewSeed => (held, Command::NewSeed),
                Hit::Save => (held, Command::Save),
                Hit::Load => (held, Command::Load),
                Hit::Evolve => (held, Command::Evolve),
            }
        },
    }
}

/// Typing at a well-kept seed field keeps it well kept.
pub proof fn lemma_seed_typed_stays_digits(text: Seq<char>, typed: Seq<char>)
    requires
        seed_text_ok(text),
    ensures
        seed_text_ok(seed_typed(text, typed)),
    decreases typed.len(),
{
    if typed.len() > 0 {
        lemma_seed_typed_stays_digits(text, typed.drop_last());
        lemma_seed_field_stays_digits(seed_typed(text, typed.drop_last()), typed.last());
    }
}

/// The seed field holds digits only, and no more of them than it is wide,
/// whatever keys are pressed and wherever the pointer clicks.
pub proof fn lemma_seed_field_stays_well_kept(m: InputModel, key: Key, hit: Option<Hit>, seed: u32)
    requires
        seed_text_ok(m.seed_text),
    ensures
        seed_text_ok(key_outcome(m, key).0.seed_text),
        seed_text_ok(press_outcome(m, hit, seed).0.seed_text),
{
    lemma_seed_field_stays_digits(m.seed_text, '0');
    lemma_seed_round_trip(seed);
    match key {
        Key::Character(text) => {
            lemma_seed_typed_stays_digits(m.seed_text, text@);
        },
        _ => {},
    }
}

/// While the seed field is being edited it has the keyboard: a character key
/// types into it or does nothing, and no letter is also a command.
pub proof fn lemma_editing_field_owns_the_keyboard(m: InputModel, text: String)
    requires
        m.seed_editing,
    ensures
        ({
            let (after, command) = key_outcome(m, Key::Character(text));
            &&& command == Command::Nothing
            &&& after == InputModel { seed_text: after.seed_text, ..m }
        }),
{
}

/// A digit typed while the seed field is not live — not edited, not focused,
/// not under the pointer — is dropped rather than opening the field behind
/// the user's back.
pub proof fn lemma_digits_stay_out_of_a_dead_field(m: InputModel, text: String)
    requires
        !field_is_live(m),
    ensures
        key_outcome(m, Key::Character(text)).0.seed_text == m.seed_text,
        !key_outcome(m, Key::Character(text)).0.seed_editing,
{
}

/// Opening an empty seed field shows the live run's seed, and Enter then
/// restarts that same seed.
pub proof fn lemma_opened_field_restarts_its_seed(m: InputModel, seed: u32)
    requires
        m.seed_text.len() == 0,
    ensures
        ({
            let (opened, _) = press_outcome(m, Some(Hit::SeedField), seed);
            key_outcome(opened, Key::Enter).1 == Command::Restart(seed)
        }),
{
    lemma_seed_round_trip(seed);
}

/// Pause and Space each flip the pause: a paused run resumes, a running one
/// pauses, and pressing twice puts the run back as it was.
pub proof fn lemma_pause_flips(m: InputModel, seed: u32)
    ensures
        press_outcome(m, Some(Hit::Pause), seed).0.paused == !m.paused,
        key_outcome(m, Key::Space).0.paused == !m.paused,
        press_outcome(press_outcome(m, Some(Hit::Pause), seed).0, Some(Hit::Pause), seed).0.paused
            == m.paused,
        key_outcome(key_outcome(m, Key::Space).0, Key::Space).0.paused == m.paused,
{
}

/// The Rays button flips the overlay, and so does the r key outside an edited
/// seed field: on turns it off, off turns it on.
pub proof fn lemma_rays_flip(m: InputModel, seed: u32, text: String)
    ensures
        press_outcome(m, Some(Hit::Rays), seed).0.rays == !m.rays,
        !m.seed_editing && is_letter(text@, 'r', 'R') ==> key_outcome(
            m,
            Key::Character(text),
        ).0.rays == !m.rays,
{
    if !m.seed_editing && is_letter(text@, 'r', 'R') {
        lemma_one_letter_is_no_digit(text@, 'r', 'R');
    }
}

/// The m key flips the motion trails outside an edited seed field: reduced
/// motion turns off as readily as it turns on.
pub proof fn lemma_trails_flip(m: InputModel, text: String)
    ensures
        !m.seed_editing && is_letter(text@, 'm', 'M') ==> key_outcome(
            m,
            Key::Character(text),
        ).0.trails == !m.trails && key_outcome(m, Key::Character(text)).1
            == Command::MotionToggled,
{
    if !m.seed_editing && is_letter(text@, 'm', 'M') {
        lemma_one_letter_is_no_digit(text@, 'm', 'M');
    }
}

/// A one-letter command text types no digit.
proof fn lemma_one_letter_is_no_digit(text: Seq<char>, lower: char, upper: char)
    requires
        is_letter(text, lower, upper),
        !is_digit(lower),
        !is_digit(upper),
    ensures
        !has_digit(text),
{
    assert(text.len() == 1);
}

/// Typing one digit is pushing that digit.
proof fn lemma_one_digit_typed(text: Seq<char>, typed: Seq<char>)
    requires
        typed.len() == 1,
        is_digit(typed[0]),
    ensures
        has_digit(typed),
        seed_typed(text, typed) == seed_push(text, typed[0]),
{
    assert(typed.drop_last() =~= Seq::<char>::empty());
    assert(seed_typed(text, typed.drop_last()) == text);
    assert(typed.last() == typed[0]);
    assert(is_digit(typed[0]));
}

/// Compare a typed text against a one-letter command.
fn is_letter_exec(text: &Vec<char>, lower: char, upper: char) -> (matches: bool)
    ensures
        matches == is_letter(text@, lower, upper),
{
    if text.len() == 1 && (text[0] == lower || text[0] == upper) {
        assert(text@ =~= seq![text@[0]]);
        true
    } else {
        proof {
            if text@.len() == 1 {
                assert(text@ != seq![lower]) by {
                    if text@ == seq![lower] {
                        assert(text@[0] == lower);
                    }
                }
                assert(text@ != seq![upper]) by {
                    if text@ == seq![upper] {
                        assert(text@[0] == upper);
                    }
                }
            }
        }
        false
    }
}

impl InputState {
    /// Decide a key press: change the state as [`key_outcome`] says and return
    /// the command the shell carries out.
    pub fn on_key(&mut self, key: &Key) -> (command: Command)
        ensures
            (final(self).model(), command) == key_outcome(old(self).model(), *key),
            // Space pauses a running run and resumes a paused one.
            *key is Space ==> final(self).controls.paused == !old(self).controls.paused
                && final(self).controls.rays == old(self).controls.rays && final(self).trails
                == old(self).trails && command == Command::Nothing,
            // Escape leaves the seed field, keeping what was typed.
            *key is Escape ==> !final(self).controls.seed_editing && final(self).controls.seed_text@
                == old(self).controls.seed_text@ && command == Command::Nothing,
            // Backspace deletes the last digit while the field is edited, and
            // nothing otherwise.
            *key is Backspace && old(self).controls.seed_editing && old(self).controls.seed_text@.len() > 0 ==> final(self).controls.seed_text@ == old(self).controls.seed_text@.drop_last(),
            *key is Backspace && !old(self).controls.seed_editing ==> final(self).controls.seed_text@
                == old(self).controls.seed_text@,
            // Tab moves the focus one step along the reading order, from the
            // first control when nothing has it, and edits the seed field
            // exactly when it lands there.
            *key is Tab && old(self).focus is None ==> final(self).focus == Some(Hit::Pause),
            *key is Tab && old(self).focus is Some ==> final(self).focus == Some(
                FOCUS_ORDER@[(focus_index(old(self).focus->0) + 1) % 9],
            ),
            *key is Tab ==> final(self).controls.seed_editing == (final(self).focus == Some(
                Hit::SeedField,
            )),
            // The arrows nudge the speed, right faster and left slower, only
            // while the slider has the focus.
            *key is ArrowRight ==> command == (if old(self).focus == Some(Hit::SpeedSlider) {
                Command::NudgeSpeed { faster: true }
            } else {
                Command::Nothing
            }),
            *key is ArrowLeft ==> command == (if old(self).focus == Some(Hit::SpeedSlider) {
                Command::NudgeSpeed { faster: false }
            } else {
                Command::Nothing
            }),
            // Enter presses the focused control, unless that is the seed
            // field; there, or with nothing focused, it ends the edit and
            // restarts from the field's seed, or says it holds none.
            *key is Enter && old(self).focus is Some && old(self).focus != Some(Hit::SeedField)
                ==> command == Command::PressFocused(old(self).focus->0),
            *key is Enter && (old(self).focus is None || old(self).focus == Some(Hit::SeedField))
                ==> !final(self).controls.seed_editing && command == (match parse_u32(old(self).controls.seed_text@) {
                Some(seed) => Command::Restart(seed),
                None => Command::RejectSeed,
            }),
            // Outside an edited seed field the letters are commands: r and m
            // flip the rays overlay and the motion trails, s, l and e ask for a
            // save, a load and an evolve.
            (match *key {
                Key::Character(t) => !old(self).controls.seed_editing && is_letter(t@, 'r', 'R')
                    ==> final(self).controls.rays == !old(self).controls.rays && final(self).trails
                    == old(self).trails && final(self).controls.paused == old(self).controls.paused
                    && command == Command::Nothing,
                _ => true,
            }),
            (match *key {
                Key::Character(t) => !old(self).controls.seed_editing && is_letter(t@, 'm', 'M')
                    ==> final(self).trails == !old(self).trails && final(self).controls.rays == old(self).controls.rays && command == Command::MotionToggled,
                _ => true,
            }),
            (match *key {
                Key::Character(t) => !old(self).controls.seed_editing ==> (is_letter(t@, 's', 'S')
                    ==> command == Command::Save) && (is_letter(t@, 'l', 'L') ==> command
                    == Command::Load) && (is_letter(t@, 'e', 'E') ==> command == Command::Evolve),
                _ => true,
            }),
            // A digit typed where the seed field is live goes into it, while
            // it is shorter than its width, and the field is then edited.
            (match *key {
                Key::Character(t) => field_is_live(old(self).model()) && t@.len() == 1 && is_digit(
                    t@[0],
                ) ==> final(self).controls.seed_editing && final(self).controls.seed_text@ == (if byte_len(
                    old(self).controls.seed_text@,
                ) < SEED_MAX_CHARS {
                    old(self).controls.seed_text@.push(t@[0])
                } else {
                    old(self).controls.seed_text@
                }) && command == Command::Nothing,
                _ => true,
            }),
            // While the field is edited a key that types no digit changes
            // nothing and is no command.
            (match *key {
                Key::Character(t) => old(self).controls.seed_editing && !has_digit(t@) ==> final(self).model() == old(self).model() && command == Command::Nothing,
                _ => true,
            }),
    {
        match key {
            Key::Tab => {
                let focus = next_focus(self.focus);
                self.focus = Some(focus);
                self.controls.seed_editing = focus == Hit::SeedField;
                Command::Nothing
            },
            Key::ArrowLeft => {
                if self.focus == Some(Hit::SpeedSlider) {
                    Command::NudgeSpeed { faster: false }
                } else {
                    Command::Nothing
                }
            },
            Key::ArrowRight => {
                if self.focus == Some(Hit::SpeedSlider) {
                    Command::NudgeSpeed { faster: true }
                } else {
                    Command::Nothing
                }
            },
            Key::Enter => {
                match self.focus {
                    Some(hit) => {
                        if hit != Hit::SeedField {
                            return Command::PressFocused(hit);
                        }
                    },
                    None => {},
                }
                self.controls.seed_editing = false;
                match self.controls.seed_value() {
                    Some(seed) => Command::Restart(seed),
                    None => Command::RejectSeed,
                }
            },
            Key::Space => {
                self.controls.paused = !self.controls.paused;
                Command::Nothing
            },
            Key::Escape => {
                self.controls.seed_editing = false;
                Command::Nothing
            },
            Key::Backspace => {
                if self.controls.seed_editing {
                    self.controls.pop_seed_char();
                }
                Command::Nothing
            },
            Key::Character(text) => {
                proof {
                    if text@.len() == 1 && is_digit(text@[0]) {
                        lemma_one_digit_typed(old(self).controls.seed_text@, text@);
                    }
                }
                self.on_text(text)
            },
            Key::Other => Command::Nothing,
        }
    }

    /// A character key: digits for the seed field where it is live, then the
    /// letter commands when the field is not being edited.
    #[verifier::rlimit(40)]
    fn on_text(&mut self, text: &String) -> (command: Command)
        ensures
            (final(self).model(), command) == key_outcome(old(self).model(), Key::Character(*text)),
    {
        let typed = chars_of(text.as_str());
        let field = self.controls.seed_editing || self.focus == Some(Hit::SeedField) || self.hot
            == Some(Hit::SeedField);
        let ghost start = self.model();
        let mut any_digit = false;
        let mut i: usize = 0;
        while i < typed.len()
            invariant
                i <= typed@.len(),
                typed@ == text@,
                field == field_is_live(start),
                any_digit == has_digit(typed@.take(i as int)),
                field && any_digit ==> self.model() == (InputModel {
                    seed_editing: true,
                    seed_text: seed_typed(start.seed_text, typed@.take(i as int)),
                    ..start
                }),
                !(field && any_digit) ==> self.model() == start,
                !any_digit ==> seed_typed(start.seed_text, typed@.take(i as int)) == start.seed_text,
            decreases typed@.len() - i,
        {
            let c = typed[i];
            let ghost before = typed@.take(i as int);
            assert(typed@.take(i + 1) =~= before.push(c));
            assert(typed@.take(i + 1).drop_last() =~= before);
            if '0' <= c && c <= '9' {
                assert(typed@.take(i + 1)[i as int] == c);
                if field {
                    self.controls.seed_editing = true;
                    self.controls.push_seed_char(c);
                }
                any_digit = true;
            } else {
                proof {
                    if has_digit(typed@.take(i + 1)) {
                        let k = choose|k: int| 0 <= k < i + 1 && is_digit(#[trigger] typed@.take(i + 1)[k]);
                        assert(k != i);
                        assert(before[k] == typed@.take(i + 1)[k]);
                    }
                }
            }
            proof {
                if has_digit(before) {
                    let k = choose|k: int| 0 <= k < i && is_digit(#[trigger] before[k]);
                    assert(typed@.take(i + 1)[k] == before[k]);
                }
            }
            i = i + 1;
        }
        assert(typed@.take(typed@.len() as int) =~= typed@);
        if field && any_digit {
            return Command::Nothing;
        }
        // While the field is being edited the field has the keyboard: every
        // key belongs to it, so no letter is also a command.
        if self.controls.seed_editing {
            return Command::Nothing;
        }
        if is_letter_exec(&typed, 'm', 'M') {
            self.trails = !self.trails;
            Command::MotionToggled
        } else if is_letter_exec(&typed, 'r', 'R') {
            self.controls.rays = !self.controls.rays;
            Command::Nothing
        } else if is_letter_exec(&typed, 's', 'S') {
            Command::Save
        } else if is_letter_exec(&typed, 'l', 'L') {
            Command::Load
        } else if is_letter_exec(&typed, 'e', 'E') {
            Command::Evolve
        } else {
            Command::Nothing
        }
    }

    /// Decide a click on `hit` (the control under the pointer, or `None`),
    /// with `seed` the seed of the live run.
    pub fn press(&mut self, hit: Option<Hit>, seed: u32) -> (command: Command)
        ensures
            (final(self).model(), command) == press_outcome(old(self).model(), hit, seed),
            // A click on nothing leaves the seed field and does nothing else.
            hit is None ==> !final(self).controls.seed_editing && final(self).focus == old(self).focus && command == Command::Nothing,
            // A click on a control focuses it and holds it down.
            hit is Some ==> final(self).focus == hit && final(self).pressed == hit,
            // Pause resumes a paused run and pauses a running one; Rays flips
            // the overlay; neither touches the other.
            hit == Some(Hit::Pause) ==> final(self).controls.paused == !old(self).controls.paused
                && final(self).controls.rays == old(self).controls.rays && command
                == Command::Nothing,
            hit == Some(Hit::Rays) ==> final(self).controls.rays == !old(self).controls.rays
                && final(self).controls.paused == old(self).controls.paused && command
                == Command::Nothing,
            // The field opens for editing, showing the live seed when empty.
            hit == Some(Hit::SeedField) ==> final(self).controls.seed_editing && (old(self).controls.seed_text@.len() > 0 ==> final(self).controls.seed_text@ == old(self).controls.seed_text@) && (old(self).controls.seed_text@.len() == 0 ==> parse_u32(final(self).controls.seed_text@) == Some(seed)),
            // The other controls ask the shell for their action.
            hit == Some(Hit::SpeedSlider) ==> command == Command::DragSlider,
            hit == Some(Hit::Restart) ==> command == Command::RestartSame,
            hit == Some(Hit::NewSeed) ==> command == Command::NewSeed,
            hit == Some(Hit::Save) ==> command == Command::Save,
            hit == Some(Hit::Load) ==> command == Command::Load,
            hit == Some(Hit::Evolve) ==> command == Command::Evolve,
    {
        let h = match hit {
            None => {
                self.controls.seed_editing = false;
                return Command::Nothing;
            },
            Some(h) => h,
        };
        self.focus = Some(h);
        self.pressed = Some(h);
        match h {
            Hit::SpeedSlider => Command::DragSlider,
            Hit::SeedField => {
                proof {
                    lemma_seed_round_trip(seed);
                }
                self.controls.seed_editing = true;
                if self.controls.seed_text.as_str().is_empty() {
                    self.controls.seed_text = decimal_string(seed);
                }
                Command::Nothing
            },
            Hit::Pause => {
                self.controls.paused = !self.controls.paused;
                Command::Nothing
            },
            Hit::Rays => {
                self.controls.rays = !self.controls.rays;
                Command::Nothing
            },
            Hit::Restart => Command::RestartSame,
            Hit::NewSeed => Command::NewSeed,
            Hit::Save => Command::Save,
            Hit::Load => Command::Load,
            Hit::Evolve => Command::Evolve,
        }
    }
}

} // verus!
