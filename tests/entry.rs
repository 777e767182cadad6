use calculator::entry::Entry;

fn text(e: &Entry) -> String {
    e.text.iter().collect()
}

#[test]
fn new_display_reads_zero() {
    assert_eq!(text(&Entry::new()), "0");
}

#[test]
fn first_digit_replaces_zero() {
    let mut e = Entry::new();
    e.input_digit('7');
    assert_eq!(text(&e), "7");
    e.input_digit('0');
    e.input_symbol('+');
    e.input_digit('0');
    e.input_digit('5');
    assert_eq!(text(&e), "70+05");
}

#[test]
fn symbols_are_appended() {
    let mut e = Entry::new();
    e.input_symbol('.');
    e.input_digit('5');
    assert_eq!(text(&e), "0.5");
}

#[test]
fn backspace_removes_last() {
    let mut e = Entry::new();
    e.input_digit('1');
    e.input_symbol('*');
    e.backspace();
    assert_eq!(text(&e), "1");
    e.backspace();
    assert_eq!(text(&e), "");
    e.backspace();
    assert_eq!(text(&e), "");
}

#[test]
fn clear_resets_to_zero_or_stays_empty() {
    let mut e = Entry::new();
    e.input_digit('4');
    e.input_symbol('-');
    e.clear();
    assert_eq!(text(&e), "0");
    e.backspace();
    e.clear();
    assert_eq!(text(&e), "");
}

#[test]
fn set_replaces_text() {
    let mut e = Entry::new();
    e.set("-2.5");
    assert_eq!(text(&e), "-2.5");
    e.set("");
    assert_eq!(text(&e), "");
}
