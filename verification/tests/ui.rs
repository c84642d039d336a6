use neuroarena::chars::decimal_string;
use neuroarena::ui::{grouped, next_focus, Controls, Hit, FOCUS_ORDER, SEED_MAX_CHARS};

#[test]
fn the_seed_field_takes_digits_only() {
    let mut controls = Controls::default();
    assert_eq!(controls.seed_value(), None);
    for c in "12a3 4".chars() {
        controls.push_seed_char(c);
    }
    assert_eq!(controls.seed_text, "1234");
    assert_eq!(controls.seed_value(), Some(1234));
    controls.pop_seed_char();
    assert_eq!(controls.seed_value(), Some(123));

    controls.seed_text.clear();
    for _ in 0..20 {
        controls.push_seed_char('7');
    }
    assert_eq!(controls.seed_text, "7777777777");
    // Ten digits is more than a u32 holds: the field says so rather than
    // silently wrapping.
    assert_eq!(controls.seed_value(), None);

    controls.seed_text = u32::MAX.to_string();
    assert_eq!(controls.seed_value(), Some(u32::MAX));
}

#[test]
fn a_seed_reads_as_std_reads_a_u32() {
    let mut controls = Controls::default();
    for (text, expected) in [
        ("0", Some(0)),
        ("007", Some(7)),
        ("+42", Some(42)),
        ("+", None),
        ("-1", None),
        ("4294967296", None),
        ("12 3", None),
        ("", None),
    ] {
        controls.seed_text = text.to_string();
        assert_eq!(controls.seed_value(), expected, "{text:?}");
        assert_eq!(controls.seed_value(), text.parse::<u32>().ok(), "{text:?}");
    }
}

#[test]
fn the_seed_field_is_as_wide_as_a_u32_in_bytes() {
    let mut controls = Controls::default();
    // A field set directly to wide characters counts them in bytes, as its
    // width does.
    controls.seed_text = "ééééé".to_string();
    controls.push_seed_char('1');
    assert_eq!(controls.seed_text, "ééééé");
    assert_eq!(SEED_MAX_CHARS, 10);
}

#[test]
fn popping_an_empty_field_leaves_it_empty() {
    let mut controls = Controls::default();
    controls.pop_seed_char();
    assert_eq!(controls.seed_text, "");
    assert!(!controls.paused && !controls.rays && !controls.seed_editing && !controls.watching);
}

#[test]
fn digits_group_by_thousands() {
    assert_eq!(grouped(0), "0");
    assert_eq!(grouped(1), "1");
    assert_eq!(grouped(999), "999");
    assert_eq!(grouped(1000), "1,000");
    assert_eq!(grouped(10_000), "10,000");
    assert_eq!(grouped(250_000), "250,000");
    assert_eq!(grouped(1_000_000), "1,000,000");
    assert_eq!(grouped(u32::MAX), "4,294,967,295");
}

#[test]
fn decimal_matches_std() {
    for n in [0u32, 9, 10, 99, 100, 12345, u32::MAX] {
        assert_eq!(decimal_string(n), n.to_string());
    }
}

#[test]
fn tab_walks_the_reading_order_and_wraps() {
    assert_eq!(next_focus(None), Hit::Pause);
    let mut focus = None;
    for expected in FOCUS_ORDER {
        let next = next_focus(focus);
        assert_eq!(next, expected);
        focus = Some(next);
    }
    assert_eq!(next_focus(Some(Hit::SpeedSlider)), Hit::Pause);
    assert_eq!(next_focus(Some(Hit::Rays)), Hit::Evolve);
    assert_eq!(next_focus(Some(Hit::Load)), Hit::SeedField);
}
