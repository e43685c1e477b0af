use portscanner::form::{Form, FormEvent, FormKey, FormStep, KeyPhase};

fn press(k: FormKey) -> FormEvent {
    FormEvent::Key(k, KeyPhase::Press)
}

#[test]
fn form_starts_with_defaults() {
    let f = Form::new();
    assert_eq!(f.target(), "google.com");
    assert_eq!(f.ports(), "80,443");
    assert_eq!(f.format_name(), "txt");
    assert_eq!(f.input_mode(), 0);
    assert_eq!(f.format_labels(), vec!["[x] txt", "[ ] html", "[ ] zip"]);
}

#[test]
fn typing_edits_the_active_field() {
    let mut f = Form::new();
    assert_eq!(f.handle(press(FormKey::Backspace)), FormStep::Continue);
    assert_eq!(f.target(), "google.co");
    assert_eq!(f.handle(press(FormKey::Char('m'))), FormStep::Continue);
    assert_eq!(f.target(), "google.com");
    f.handle(press(FormKey::Tab));
    assert_eq!(f.input_mode(), 1);
    f.handle(FormEvent::Key(FormKey::Char(','), KeyPhase::Repeat));
    f.handle(press(FormKey::Char('2')));
    assert_eq!(f.ports(), "80,443,2");
    f.handle(press(FormKey::Tab));
    assert_eq!(f.input_mode(), 0);
}

#[test]
fn backspace_on_empty_field() {
    let mut f = Form::new();
    f.handle(press(FormKey::Tab));
    for _ in 0..10 {
        f.handle(press(FormKey::Backspace));
    }
    assert_eq!(f.ports(), "");
    assert_eq!(f.target(), "google.com");
}

#[test]
fn format_choice_stays_in_list() {
    let mut f = Form::new();
    f.handle(press(FormKey::Up));
    assert_eq!(f.format_name(), "txt");
    f.handle(press(FormKey::Down));
    assert_eq!(f.format_name(), "html");
    f.handle(press(FormKey::Down));
    f.handle(press(FormKey::Down));
    assert_eq!(f.format_name(), "zip");
    assert_eq!(f.selected_format(), 2);
    assert_eq!(f.format_labels(), vec!["[ ] txt", "[ ] html", "[x] zip"]);
}

#[test]
fn releases_and_other_events_change_nothing() {
    let mut f = Form::new();
    assert_eq!(f.handle(FormEvent::Key(FormKey::Char('x'), KeyPhase::Release)), FormStep::Continue);
    assert_eq!(f.handle(FormEvent::Key(FormKey::Esc, KeyPhase::Release)), FormStep::Continue);
    assert_eq!(f.handle(FormEvent::Other), FormStep::Continue);
    assert_eq!(f.handle(press(FormKey::Other)), FormStep::Continue);
    assert_eq!(f, Form::new());
}

#[test]
fn enter_starts_and_escape_aborts() {
    let mut f = Form::new();
    assert_eq!(f.handle(press(FormKey::Enter)), FormStep::Start);
    assert_eq!(f.handle(press(FormKey::Esc)), FormStep::Abort);
    assert_eq!(f, Form::new());
}
