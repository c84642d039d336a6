use neuroarena::appstate::{Command, InputState, Key};
use neuroarena::ui::{Controls, Hit, FOCUS_ORDER};

fn state() -> InputState {
    InputState {
        controls: Controls::default(),
        focus: None,
        hot: None,
        pressed: None,
        trails: true,
    }
}

fn character(text: &str) -> Key {
    Key::Character(text.to_string())
}

fn press(state: &mut InputState, key: Key) -> Command {
    state.on_key(&key)
}

#[test]
fn the_seed_field_takes_the_keyboard_only_where_it_is() {
    let mut app = state();
    app.controls.seed_text = "2026".to_string();
    app.controls.seed_editing = false;
    app.focus = None;
    app.hot = None;

    // Nowhere near the field: a digit is not a command, and does not open
    // the field behind the user's back.
    press(&mut app, character("7"));
    assert_eq!(app.controls.seed_text, "2026");
    assert!(!app.controls.seed_editing);

    // Hovered: a digit enters the field and is typed into it.
    app.hot = Some(Hit::SeedField);
    press(&mut app, character("7"));
    assert!(app.controls.seed_editing);
    assert_eq!(app.controls.seed_text, "20267");

    // Editing: digits land, and no letter is also a command.
    press(&mut app, character("8"));
    assert_eq!(app.controls.seed_text, "202678");
    let rays = app.controls.rays;
    press(&mut app, character("r"));
    assert_eq!(
        app.controls.rays, rays,
        "'r' is text while the field is edited"
    );
    assert_eq!(app.controls.seed_text, "202678");

    // The pointer leaving does not end the edit: the caret keeps the keys.
    app.hot = None;
    press(&mut app, character("9"));
    assert_eq!(app.controls.seed_text, "2026789");

    // Escape leaves the field with what was typed; commands return.
    press(&mut app, Key::Escape);
    assert!(!app.controls.seed_editing);
    assert_eq!(app.controls.seed_text, "2026789", "the digits are kept");
    press(&mut app, character("r"));
    assert_ne!(
        app.controls.rays, rays,
        "'r' toggles Rays once the field is left"
    );
    press(&mut app, character("m"));
    assert!(!app.trails, "'m' toggles Trails too");

    // Tab reaches the field and puts the caret in it.
    app.focus = None;
    let mut tabs = 0;
    while app.focus != Some(Hit::SeedField) && tabs <= FOCUS_ORDER.len() {
        press(&mut app, Key::Tab);
        tabs += 1;
    }
    assert_eq!(app.focus, Some(Hit::SeedField));
    assert!(
        app.controls.seed_editing,
        "Tab into the field starts editing"
    );

    // Focused but not editing: a digit re-enters the field.
    press(&mut app, Key::Escape);
    assert!(!app.controls.seed_editing);
    press(&mut app, character("4"));
    assert!(app.controls.seed_editing);
    assert_eq!(app.controls.seed_text, "20267894");
}

#[test]
fn space_toggles_pause_both_ways() {
    let mut app = state();
    press(&mut app, Key::Space);
    assert!(app.controls.paused);
    press(&mut app, Key::Space);
    assert!(!app.controls.paused);
}

#[test]
fn every_letter_command_survives_the_match_it_lives_in() {
    // The five letter hotkeys are one match; each is pinned by its own
    // observable: a toggled state, or the command the shell carries out.
    let mut app = state();
    app.controls.seed_editing = false;
    app.focus = None;

    let rays = app.controls.rays;
    press(&mut app, character("r"));
    assert_ne!(app.controls.rays, rays, "'r' toggles Rays");

    let trails = app.trails;
    press(&mut app, character("m"));
    assert_ne!(app.trails, trails, "'m' toggles Trails");

    assert_eq!(press(&mut app, character("s")), Command::Save, "'s' asks for a save");
    assert_eq!(press(&mut app, character("l")), Command::Load, "'l' asks for a load");
    assert_eq!(press(&mut app, character("e")), Command::Evolve, "'e' asks to evolve");
}

#[test]
fn every_letter_command_is_issued_outside_the_field() {
    let mut app = state();
    let rays = app.controls.rays;
    assert_eq!(press(&mut app, character("r")), Command::Nothing);
    assert_ne!(app.controls.rays, rays, "'r' toggles Rays");
    let trails = app.trails;
    assert_eq!(press(&mut app, character("M")), Command::MotionToggled);
    assert_ne!(app.trails, trails, "'m' toggles Trails");
    assert_eq!(press(&mut app, character("s")), Command::Save);
    assert_eq!(press(&mut app, character("l")), Command::Load);
    assert_eq!(press(&mut app, character("E")), Command::Evolve);
    assert_eq!(press(&mut app, character("x")), Command::Nothing);
    assert_eq!(press(&mut app, character("ss")), Command::Nothing);
}

#[test]
fn enter_restarts_from_the_field_or_says_it_holds_no_seed() {
    let mut app = state();
    app.controls.seed_text = "31".to_string();
    app.controls.seed_editing = true;
    assert_eq!(press(&mut app, Key::Enter), Command::Restart(31));
    assert!(!app.controls.seed_editing);
    app.controls.seed_text.clear();
    assert_eq!(press(&mut app, Key::Enter), Command::RejectSeed);
    // A focused control is pressed instead.
    app.focus = Some(Hit::Save);
    assert_eq!(press(&mut app, Key::Enter), Command::PressFocused(Hit::Save));
    app.focus = Some(Hit::SeedField);
    app.controls.seed_text = "9".to_string();
    assert_eq!(press(&mut app, Key::Enter), Command::Restart(9));
}

#[test]
fn the_arrows_nudge_the_speed_only_from_the_slider() {
    let mut app = state();
    assert_eq!(press(&mut app, Key::ArrowRight), Command::Nothing);
    app.focus = Some(Hit::SpeedSlider);
    assert_eq!(press(&mut app, Key::ArrowRight), Command::NudgeSpeed { faster: true });
    assert_eq!(press(&mut app, Key::ArrowLeft), Command::NudgeSpeed { faster: false });
    assert_eq!(press(&mut app, Key::Other), Command::Nothing);
}

#[test]
fn backspace_deletes_only_while_editing() {
    let mut app = state();
    app.controls.seed_text = "123".to_string();
    press(&mut app, Key::Backspace);
    assert_eq!(app.controls.seed_text, "123");
    app.controls.seed_editing = true;
    press(&mut app, Key::Backspace);
    assert_eq!(app.controls.seed_text, "12");
}

#[test]
fn a_click_focuses_and_holds_its_control() {
    let mut app = state();
    assert_eq!(app.press(Some(Hit::Pause), 7), Command::Nothing);
    assert!(app.controls.paused);
    assert_eq!(app.focus, Some(Hit::Pause));
    assert_eq!(app.pressed, Some(Hit::Pause));
    assert_eq!(app.press(Some(Hit::Rays), 7), Command::Nothing);
    assert!(app.controls.rays);
    assert_eq!(app.press(Some(Hit::SpeedSlider), 7), Command::DragSlider);
    assert_eq!(app.press(Some(Hit::Restart), 7), Command::RestartSame);
    assert_eq!(app.press(Some(Hit::NewSeed), 7), Command::NewSeed);
    assert_eq!(app.press(Some(Hit::Save), 7), Command::Save);
    assert_eq!(app.press(Some(Hit::Load), 7), Command::Load);
    assert_eq!(app.press(Some(Hit::Evolve), 7), Command::Evolve);
}

#[test]
fn clicking_the_empty_seed_field_shows_the_live_seed() {
    let mut app = state();
    app.press(Some(Hit::SeedField), 2026);
    assert!(app.controls.seed_editing);
    assert_eq!(app.controls.seed_text, "2026");
    // A field that already holds digits keeps them.
    app.controls.seed_text = "5".to_string();
    app.press(Some(Hit::SeedField), 2026);
    assert_eq!(app.controls.seed_text, "5");
    // A click on no control leaves the field.
    assert_eq!(app.press(None, 2026), Command::Nothing);
    assert!(!app.controls.seed_editing);
    assert_eq!(press(&mut app, Key::Enter), Command::Restart(5));
}
