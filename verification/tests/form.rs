use expense_ledger::error::{BuildError, ParseError};
use expense_ledger::inputs::{Action, InputMode, InputsState, Key, TextAreaHolder};
use expense_ledger::table::{footer, header, rows};
use expense_ledger::tabs::TabsState;
use expense_ledger::date::Date;
use expense_ledger::db_repo::{Record, RecordsHolder};
use expense_ledger::money::{format_count, Money};

fn months(names: &[&str]) -> Vec<String> {
    names.iter().map(|m| m.to_string()).collect()
}

#[test]
fn current_month_is_put_first_if_missing() {
    let tabs = TabsState::new(months(&["12-2023", "11-2023"]), "01-2024".to_string());
    assert_eq!(tabs.months, months(&["01-2024", "12-2023", "11-2023"]));
    assert_eq!(tabs.index, 0);
    assert_eq!(tabs.current(), "01-2024");
}

#[test]
fn current_month_is_not_listed_twice() {
    let tabs = TabsState::new(months(&["12-2023", "01-2024"]), "01-2024".to_string());
    assert_eq!(tabs.months, months(&["12-2023", "01-2024"]));
    assert_eq!(tabs.index, 0);
    let tabs = TabsState::new(Vec::new(), "01-2024".to_string());
    assert_eq!(tabs.months, months(&["01-2024"]));
}

#[test]
fn tabs_go_round() {
    let mut tabs = TabsState::new(months(&["a", "b", "c"]), "a".to_string());
    tabs.select_next();
    assert_eq!((tabs.index, tabs.current().as_str()), (1, "b"));
    tabs.select_next();
    tabs.select_next();
    assert_eq!(tabs.index, 0);
    tabs.select_previous();
    assert_eq!((tabs.index, tabs.current().as_str()), (2, "c"));
    tabs.select_previous();
    assert_eq!(tabs.index, 1);
    let mut one = TabsState::new(Vec::new(), "only".to_string());
    one.select_next();
    assert_eq!(one.index, 0);
    one.select_previous();
    assert_eq!(one.index, 0);
}

#[test]
fn field_shows_its_error_in_place_of_its_title() {
    let mut field = TextAreaHolder::new("Store");
    assert_eq!(field.get_title(), "Store");
    assert!(!field.no_validation);
    field.error_message = "invalid float literal".to_string();
    assert_eq!(field.get_title(), "invalid float literal");
    let comment = TextAreaHolder::new_validation_disabled("Comment");
    assert!(comment.no_validation);
    assert_eq!(comment.text, "");
    let date = TextAreaHolder::new_validation_disabled_with_value("Date", "2024-01-01");
    assert_eq!((date.text.as_str(), date.title.as_str(), date.no_validation), ("2024-01-01", "Date", true));
}

#[test]
fn new_form_is_blank_but_for_the_date() {
    let state = InputsState::new("2024-01-01");
    assert_eq!(state.input_mode, InputMode::Normal);
    assert_eq!(state.selected_input_index, 0);
    assert_eq!(state.inputs.len(), 4);
    assert_eq!(state.date_input.text, "2024-01-01");
    for (i, field) in state.inputs.iter().enumerate() {
        assert_eq!(field.text, "");
        assert_eq!(field.error_message, "");
        assert_eq!(field.no_validation, i == 3);
    }
}

#[test]
fn tab_checks_the_field_and_moves_on() {
    let mut state = InputsState::new("2024-01-01");
    state.inputs[0].text = "abc".to_string();
    state.inputs[1].text = "10+".to_string();
    state.inputs[3].text = "abc".to_string();
    state.move_cursor_to_next_input();
    assert_eq!(state.inputs[0].error_message, "invalid float literal");
    assert_eq!(state.inputs[0].text, "abc");
    assert_eq!(state.selected_input_index, 1);
    state.move_cursor_to_next_input();
    assert_eq!(state.inputs[1].error_message, "");
    state.move_cursor_to_next_input();
    assert_eq!(state.selected_input_index, 3);
    state.move_cursor_to_next_input();
    assert_eq!(state.inputs[3].error_message, "");
    assert_eq!(state.selected_input_index, 0);
    state.inputs[0].text = "12".to_string();
    state.move_cursor_to_next_input();
    assert_eq!(state.inputs[0].error_message, "");
}

#[test]
fn submitting_builds_the_entry_and_empties_the_form() {
    let mut state = InputsState::new("2023-12-21");
    state.inputs[0].text = "20.00".to_string();
    state.inputs[1].text = "-5.00".to_string();
    state.inputs[2].text = "0.0".to_string();
    state.inputs[3].text = "refund".to_string();
    let record = state.submit_message().unwrap();
    assert_eq!((record.store.cents(), record.beer.cents(), record.allos.cents()), (1500, 500, 0));
    assert_eq!(record.comments, "refund");
    assert_eq!(record.date.to_iso(), "2023-12-21");
    assert!(state.inputs.iter().all(|f| f.text.is_empty()));
    assert_eq!(state.date_input.text, "2023-12-21");
}

#[test]
fn failed_submit_notes_the_error_on_the_field_in_the_way() {
    let mut state = InputsState::new("someday");
    state.inputs[0].text = "20".to_string();
    assert_eq!(state.submit_message().unwrap_err(), BuildError::InvalidDate);
    assert_eq!(state.inputs[0].text, "20");
    assert_eq!(state.date_input.error_message, "invalid date");
    assert_eq!(state.date_input.text, "someday");
    assert_eq!(state.date_input.get_title(), "invalid date");
    assert!(state.inputs.iter().all(|f| f.error_message.is_empty()));
    assert_eq!((state.input_mode, state.selected_input_index), (InputMode::DateEditing, 0));

    state.inputs[2].text = "x".to_string();
    assert_eq!(state.submit_message().unwrap_err(), BuildError::Amount(ParseError::MalformedTerm));
    assert_eq!(state.inputs[2].text, "x");
    assert_eq!(state.inputs[2].error_message, "invalid float literal");
    assert_eq!(state.inputs[0].error_message, "");
    assert_eq!(state.inputs[1].error_message, "");
    assert_eq!((state.input_mode, state.selected_input_index), (InputMode::Editing, 2));

    state.inputs[1].text = "99999999999999999999".to_string();
    assert_eq!(state.submit_message().unwrap_err(), BuildError::Amount(ParseError::OutOfRange));
    assert_eq!(state.inputs[1].error_message, "amount out of range");
    assert_eq!(state.inputs[1].text, "99999999999999999999");
    assert_eq!((state.input_mode, state.selected_input_index), (InputMode::Editing, 1));

    state.inputs[0].text = "y".to_string();
    state.inputs[1].text = "1".to_string();
    assert_eq!(state.submit_message().unwrap_err(), BuildError::Amount(ParseError::MalformedTerm));
    assert_eq!(state.inputs[0].error_message, "invalid float literal");
    assert_eq!((state.input_mode, state.selected_input_index), (InputMode::Editing, 0));
}

#[test]
fn good_submit_clears_the_message_of_the_date() {
    let mut state = InputsState::new("someday");
    assert_eq!(state.submit_message().unwrap_err(), BuildError::InvalidDate);
    state.date_input.text = "2024-03-04".to_string();
    let record = state.submit_message().unwrap();
    assert_eq!(record.date.to_iso(), "2024-03-04");
    assert_eq!(state.date_input.error_message, "");
    assert_eq!(state.date_input.text, "2024-03-04");
    assert_eq!(state.date_input.get_title(), state.date_input.title);
}

#[test]
fn field_takes_a_message_and_stays_the_same_otherwise() {
    let field = TextAreaHolder::new_validation_disabled_with_value("Date", "x");
    let noted = field.noting("wrong".to_string());
    assert_eq!(
        (noted.text.as_str(), noted.title.as_str(), noted.error_message.as_str(), noted.no_validation),
        ("x", "Date", "wrong", true)
    );
}

#[test]
fn keys_in_normal_mode() {
    let mut state = InputsState::new("2024-01-01");
    for (key, control, action) in [
        (Key::Esc, false, Action::Quit),
        (Key::Char('q'), false, Action::Quit),
        (Key::Char('c'), true, Action::Quit),
        (Key::Char('C'), true, Action::Quit),
        (Key::Char('c'), false, Action::Nothing),
        (Key::Char('q'), true, Action::Quit),
        (Key::Tab, false, Action::NextTab),
        (Key::Down, false, Action::RowDown),
        (Key::Up, false, Action::RowUp),
        (Key::Right, false, Action::ColumnRight),
        (Key::Left, false, Action::ColumnLeft),
        (Key::Char('g'), false, Action::FirstRow),
        (Key::Char('G'), false, Action::LastRow),
        (Key::Char('['), false, Action::DeleteAll),
        (Key::Char('x'), false, Action::Nothing),
        (Key::Enter, false, Action::Nothing),
        (Key::Other, false, Action::Nothing),
    ] {
        assert_eq!(state.on_key_event(key, control), action);
        assert_eq!(state.input_mode, InputMode::Normal);
    }
    assert_eq!(state.on_key_event(Key::Char('e'), false), Action::Nothing);
    assert_eq!(state.input_mode, InputMode::Editing);
}

#[test]
fn keys_in_editing_mode() {
    let mut state = InputsState::new("2024-01-01");
    state.on_key_event(Key::Char('e'), false);
    assert_eq!(state.on_key_event(Key::Char('q'), false), Action::Type);
    assert_eq!(state.on_key_event(Key::Up, false), Action::Type);
    assert_eq!(state.input_mode, InputMode::Editing);
    state.inputs[0].text = "oops".to_string();
    assert_eq!(state.on_key_event(Key::Tab, false), Action::Nothing);
    assert_eq!(state.selected_input_index, 1);
    assert_eq!(state.inputs[0].error_message, "invalid float literal");
    assert_eq!(state.on_key_event(Key::Esc, false), Action::Nothing);
    assert_eq!((state.input_mode, state.selected_input_index), (InputMode::Normal, 0));
    state.on_key_event(Key::Char('e'), false);
    state.on_key_event(Key::Tab, false);
    assert_eq!(state.on_key_event(Key::Enter, false), Action::Submit);
    assert_eq!((state.input_mode, state.selected_input_index), (InputMode::Normal, 0));
}

#[test]
fn keys_in_date_mode() {
    let mut state = InputsState::new("2024-01-01");
    state.on_key_event(Key::Char('d'), false);
    assert_eq!(state.input_mode, InputMode::DateEditing);
    assert_eq!(state.on_key_event(Key::Char('1'), false), Action::TypeDate);
    assert_eq!(state.on_key_event(Key::Tab, false), Action::TypeDate);
    assert_eq!(state.input_mode, InputMode::DateEditing);
    assert_eq!(state.on_key_event(Key::Enter, false), Action::Nothing);
    assert_eq!(state.input_mode, InputMode::Normal);
    state.on_key_event(Key::Char('d'), false);
    assert_eq!(state.on_key_event(Key::Esc, false), Action::Nothing);
    assert_eq!(state.input_mode, InputMode::Normal);
}

#[test]
fn table_rows_and_footer() {
    let record = |date: &str, store: i64, beer: i64, allos: i64| Record {
        id: 0,
        store: Money::from_cents(store).unwrap(),
        beer: Money::from_cents(beer).unwrap(),
        allos: Money::from_cents(allos).unwrap(),
        comments: "c".to_string(),
        date: Date::parse(date).unwrap(),
    };
    let holder = RecordsHolder::new(&vec![
        record("2024-01-01", 1000, 500, 0),
        record("2024-01-01", 0, 0, 200),
        record("2024-01-02", 5, 0, 0),
    ]);
    assert_eq!(header().len(), 6);
    assert_eq!(
        rows(&holder),
        vec![
            vec!["2024-01-01", "10", "5", "0", "15.00", "c"],
            vec!["2024-01-01", "0", "0", "2", "2.00", "c"],
            vec!["2024-01-02", "0.05", "0", "0", "0.05", "c"],
        ]
    );
    assert_eq!(
        footer(&holder),
        vec!["Ημέρεz : 2", "Προϊόντα: 10.05", "Μπύρα: 5.00", "Αλλος: 2.00", "Σύνολο: 17.05"]
    );
    assert_eq!(format_count(0), "0");
    assert_eq!(format_count(1234567890), "1234567890");
}
