use receipt::spoken::{after_trigger, requested, TRIGGER};

#[test]
fn a_message_that_starts_with_print_is_a_request() {
    assert_eq!(requested("print buy milk").as_deref(), Some("buy milk"));
    assert_eq!(requested("Print buy milk").as_deref(), Some("buy milk"));
    assert_eq!(requested("PRINT buy milk").as_deref(), Some("buy milk"));
    assert_eq!(requested("  print buy milk  ").as_deref(), Some("buy milk"));
}

#[test]
fn speech_to_text_punctuation_after_the_trigger_is_dropped() {
    assert_eq!(requested("Print: buy milk").as_deref(), Some("buy milk"));
    assert_eq!(requested("Print, buy milk").as_deref(), Some("buy milk"));
    assert_eq!(requested("print - buy milk").as_deref(), Some("buy milk"));
}

#[test]
fn the_trigger_has_to_be_a_word_of_its_own() {
    assert_eq!(requested("printer jammed again"), None);
    assert_eq!(requested("printing the report tomorrow"), None);
    assert_eq!(requested("prints are expensive"), None);
}

#[test]
fn an_ordinary_note_is_left_alone() {
    assert_eq!(requested("remember to call the dentist"), None);
    assert_eq!(requested("ask Kate about the print run"), None);
    assert_eq!(requested(""), None);
}

#[test]
fn the_trigger_on_its_own_prints_nothing() {
    assert_eq!(requested("print"), None);
    assert_eq!(requested("print   "), None);
    assert_eq!(requested("print."), None);
}

#[test]
fn letters_and_digits_of_any_script_run_on() {
    assert_eq!(TRIGGER, "print");
    assert_eq!(requested("print3d model"), None);
    assert_eq!(requested("print\u{e9} x"), None);
    assert_eq!(requested("print\u{663} x"), None);
    assert_eq!(requested("print_x").as_deref(), Some("x"));
    assert_eq!(requested("print\u{3000}x").as_deref(), Some("x"));
}

#[test]
fn punctuation_of_any_script_after_the_trigger_is_dropped() {
    assert_eq!(requested("Print \u{2014} buy milk").as_deref(), Some("buy milk"));
    assert_eq!(requested("Print\u{2026} buy milk").as_deref(), Some("buy milk"));
    assert_eq!(requested("print\u{2019}s x").as_deref(), Some("s x"));
    assert_eq!(requested("print: \u{201c}buy milk\u{201d}").as_deref(), Some("buy milk\u{201d}"));
    assert_eq!(requested("print\u{3001}\u{300c}x\u{300d}").as_deref(), Some("x\u{300d}"));
    assert_eq!(requested("print \u{bf}que?").as_deref(), Some("que?"));
    assert_eq!(requested("print \u{2013} \u{2014} "), None);
    // A sign that is no punctuation is part of the message.
    assert_eq!(requested("print \u{20ac}5").as_deref(), Some("\u{20ac}5"));
}

#[test]
fn what_runs_on_decides_whether_there_is_a_message() {
    let rest: Vec<char> = ", buy milk ".chars().collect();
    assert_eq!(after_trigger(&rest, false).as_deref(), Some("buy milk"));
    assert_eq!(after_trigger(&rest, true), None);
    let rest: Vec<char> = " .;! ".chars().collect();
    assert_eq!(after_trigger(&rest, false), None);
}

#[test]
fn punctuation_within_and_after_the_message_stays() {
    assert_eq!(requested("print: (a) b, c!").as_deref(), Some("a) b, c!"));
}
