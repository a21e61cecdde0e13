//! The entry form: its fields, which of them has the cursor, and what a
//! key does in each mode.

use vstd::prelude::*;
use crate::db_repo::Record;
use crate::error::{malformed_text, BuildError};
use crate::input_validator::{
    accepted, built, convert_to_f32, date_model, into_record, refused_amount, validate,
};

verus! {

/// What the keyboard is used for at the moment.
#[derive(Clone, Copy, Debug, PartialEq, Eq, Structural)]
pub enum InputMode {
    /// Moving about the table and the tabs.
    Normal,
    /// Typing into the amount and comment fields.
    Editing,
    /// Typing into the date field.
    DateEditing,
}

/// A key, as far as the form tells keys apart.
#[derive(Clone, Copy, Debug, PartialEq, Eq, Structural)]
pub enum Key {
    Esc,
    Enter,
    Tab,
    Up,
    Down,
    Left,
    Right,
    Char(char),
    Other,
}

/// What is left for the caller to do after a key.
#[derive(Clone, Copy, Debug, PartialEq, Eq, Structural)]
pub enum Action {
    Nothing,
    Quit,
    NextTab,
    RowDown,
    RowUp,
    ColumnRight,
    ColumnLeft,
    FirstRow,
    LastRow,
    DeleteAll,
    /// Build the entry from the fields and save it.
    Submit,
    /// Hand the key to the field that has the cursor.
    Type,
    /// Hand the key to the date field.
    TypeDate,
}

/// One field of the form.
pub struct TextAreaHolder {
    /// What the field holds: its first line.
    pub text: String,
    pub title: String,
    /// What is wrong with the text, empty if nothing.
    pub error_message: String,
    /// Whether the text is left unchecked, as a comment is.
    pub no_validation: bool,
}

/// Whether `after` is the field `before` with `message` as what is wrong
/// with it, and the same otherwise.
pub open spec fn with_message(
    before: TextAreaHolder,
    after: TextAreaHolder,
    message: Seq<char>,
) -> bool {
    &&& after.text == before.text
    &&& after.title == before.title
    &&& after.no_validation == before.no_validation
    &&& after.error_message@ == message
}

impl TextAreaHolder {
    /// An empty field that is checked.
    pub fn new(title: &str) -> (holder: TextAreaHolder)
        ensures
            holder.text@ == Seq::<char>::empty(),
            holder.title@ == title@,
            holder.error_message@ == Seq::<char>::empty(),
            !holder.no_validation,
    {
        TextAreaHolder {
            text: String::new(),
            title: title.to_owned(),
            error_message: String::new(),
            no_validation: false,
        }
    }

    /// An empty field that is not checked.
    pub fn new_validation_disabled(title: &str) -> (holder: TextAreaHolder)
        ensures
            holder.text@ == Seq::<char>::empty(),
            holder.title@ == title@,
            holder.error_message@ == Seq::<char>::empty(),
            holder.no_validation,
    {
        TextAreaHolder {
            text: String::new(),
            title: title.to_owned(),
            error_message: String::new(),
            no_validation: true,
        }
    }

    /// A field that holds `value` and is not checked.
    pub fn new_validation_disabled_with_value(title: &str, value: &str) -> (holder: TextAreaHolder)
        ensures
            holder.text@ == value@,
            holder.title@ == title@,
            holder.error_message@ == Seq::<char>::empty(),
            holder.no_validation,
    {
        TextAreaHolder {
            text: value.to_owned(),
            title: title.to_owned(),
            error_message: String::new(),
            no_validation: true,
        }
    }

    /// The same field with `message` as what is wrong with it.
    pub fn noting(&self, message: String) -> (noted: TextAreaHolder)
        ensures
            with_message(*self, noted, message@),
    {
        TextAreaHolder {
            text: self.text.clone(),
            title: self.title.clone(),
            error_message: message,
            no_validation: self.no_validation,
        }
    }

    /// What stands above the field: the error message if there is one, the
    /// title otherwise.
    pub fn get_title(&self) -> (shown: String)
        ensures
            shown@ == if self.error_message@.len() == 0 {
                self.title@
            } else {
                self.error_message@
            },
    {
        if self.error_message.as_str().is_empty() {
            return self.title.clone();
        }
        self.error_message.clone()
    }
}

/// The entry form.
pub struct InputsState {
    pub input_mode: InputMode,
    /// Store, beer, other, comment.
    pub inputs: Vec<TextAreaHolder>,
    pub date_input: TextAreaHolder,
    /// Which of `inputs` has the cursor.
    pub selected_input_index: usize,
}

/// The title of the `i`-th field: store, beer, other, comment.
pub open spec fn field_title(i: int) -> Seq<char> {
    if i == 0 {
        "Προϊόντα"@
    } else if i == 1 {
        "Μπύρα"@
    } else if i == 2 {
        "Αλλος"@
    } else {
        "Σχόλια"@
    }
}

pub open spec fn date_title() -> Seq<char> {
    "Ημερομηνία"@
}

/// The four fields in their first state: three amounts that are checked
/// and a comment that is not, all empty, each under its title.
pub open spec fn blank_fields(inputs: Seq<TextAreaHolder>) -> bool {
    &&& inputs.len() == 4
    &&& forall|i: int|
        0 <= i < 4 ==> {
            &&& (#[trigger] inputs[i]).text@.len() == 0
            &&& inputs[i].title@ == field_title(i)
            &&& inputs[i].error_message@.len() == 0
            &&& inputs[i].no_validation == (i == 3)
        }
}

/// Whether `after` is the field `before` once checked: the same field, with
/// what is wrong with its text noted.
pub open spec fn field_checked(before: TextAreaHolder, after: TextAreaHolder) -> bool {
    with_message(
        before,
        after,
        if accepted(before.text@, before.no_validation) {
            Seq::<char>::empty()
        } else {
            malformed_text()
        },
    )
}

/// Whether `after` is the form `before` once it was told why no entry
/// could be built: the field that stands in the way has the error's
/// message and is open for typing, and no text has changed. For an amount
/// that is the first amount field that cannot be read, which gets the
/// cursor; for the date it is the date field.
pub open spec fn refusal_noted(before: InputsState, after: InputsState, error: BuildError) -> bool {
    &&& after.inputs.len() == before.inputs.len()
    &&& match error {
        BuildError::InvalidDate => {
            &&& after.input_mode == InputMode::DateEditing
            &&& after.selected_input_index == before.selected_input_index
            &&& after.inputs == before.inputs
            &&& with_message(before.date_input, after.date_input, error.text())
        },
        BuildError::Amount(_) => {
            let refused = refused_amount(
                before.inputs[0].text@,
                before.inputs[1].text@,
                before.inputs[2].text@,
            );
            &&& after.input_mode == InputMode::Editing
            &&& after.selected_input_index == refused
            &&& after.date_input == before.date_input
            &&& forall|i: int|
                0 <= i < before.inputs.len() && i != refused ==> after.inputs[i]
                    == before.inputs[i]
            &&& with_message(before.inputs[refused], after.inputs[refused], error.text())
        },
    }
}

/// Whether `after` is the form `before` once the cursor has left its field:
/// that field is checked, the others are as they were, and the cursor
/// stands on the next field.
pub open spec fn cursor_moved(before: InputsState, after: InputsState) -> bool {
    &&& after.input_mode == before.input_mode
    &&& after.date_input == before.date_input
    &&& after.selected_input_index == next_index(
        before.selected_input_index as int,
        before.inputs.len() as int,
    )
    &&& after.inputs.len() == before.inputs.len()
    &&& forall|i: int|
        0 <= i < before.inputs.len() && i != before.selected_input_index ==> after.inputs[i]
            == before.inputs[i]
    &&& field_checked(
        before.inputs[before.selected_input_index as int],
        after.inputs[before.selected_input_index as int],
    )
}

/// The mode after `key` was pressed in `mode`.
pub open spec fn next_mode(mode: InputMode, key: Key) -> InputMode {
    match mode {
        InputMode::Normal => match key {
            Key::Char('e') => InputMode::Editing,
            Key::Char('d') => InputMode::DateEditing,
            _ => InputMode::Normal,
        },
        InputMode::Editing => match key {
            Key::Esc | Key::Enter => InputMode::Normal,
            _ => InputMode::Editing,
        },
        InputMode::DateEditing => match key {
            Key::Esc | Key::Enter => InputMode::Normal,
            _ => InputMode::DateEditing,
        },
    }
}

/// What `key` asks for in `mode`; `control` tells whether the control key,
/// and no other modifier, was held.
pub open spec fn action_for(mode: InputMode, key: Key, control: bool) -> Action {
    match mode {
        InputMode::Normal => match key {
            Key::Esc | Key::Char('q') => Action::Quit,
            Key::Char('c') | Key::Char('C') => if control {
                Action::Quit
            } else {
                Action::Nothing
            },
            Key::Tab => Action::NextTab,
            Key::Down => Action::RowDown,
            Key::Up => Action::RowUp,
            Key::Right => Action::ColumnRight,
            Key::Left => Action::ColumnLeft,
            Key::Char('g') => Action::FirstRow,
            Key::Char('G') => Action::LastRow,
            Key::Char('[') => Action::DeleteAll,
            _ => Action::Nothing,
        },
        InputMode::Editing => match key {
            Key::Esc | Key::Tab => Action::Nothing,
            Key::Enter => Action::Submit,
            _ => Action::Type,
        },
        InputMode::DateEditing => match key {
            Key::Esc | Key::Enter => Action::Nothing,
            _ => Action::TypeDate,
        },
    }
}

/// The index after `index` among `len` fields, the first after the last.
pub open spec fn next_index(index: int, len: int) -> int {
    if index + 1 >= len {
        0
    } else {
        index + 1
    }
}

impl InputsState {
    /// A cursor stands on one of the four fields.
    pub open spec fn wf(&self) -> bool {
        &&& self.inputs.len() == 4
        &&& self.selected_input_index < 4
    }

    /// The form as it is first shown: no text but today's date.
    pub fn new(today: &str) -> (state: InputsState)
        ensures
            state.wf(),
            state.input_mode == InputMode::Normal,
            state.selected_input_index == 0,
            blank_fields(state.inputs@),
            state.date_input.text@ == today@,
            state.date_input.title@ == date_title(),
            state.date_input.error_message@.len() == 0,
            state.date_input.no_validation,
    {
        let mut state = InputsState {
            input_mode: InputMode::Normal,
            inputs: Vec::new(),
            date_input: TextAreaHolder::new_validation_disabled_with_value("Ημερομηνία", today),
            selected_input_index: 0,
        };
        state.inputs_to_default();
        state
    }

    /// Empties the four fields.
    pub fn inputs_to_default(&mut self)
        ensures
            blank_fields(final(self).inputs@),
            final(self).input_mode == old(self).input_mode,
            final(self).date_input == old(self).date_input,
            final(self).selected_input_index == old(self).selected_input_index,
    {
        let mut inputs: Vec<TextAreaHolder> = Vec::new();
        inputs.push(TextAreaHolder::new("Προϊόντα"));
        inputs.push(TextAreaHolder::new("Μπύρα"));
        inputs.push(TextAreaHolder::new("Αλλος"));
        inputs.push(TextAreaHolder::new_validation_disabled("Σχόλια"));
        self.inputs = inputs;
    }

    /// Checks the field that has the cursor, notes what is wrong with it,
    /// and moves the cursor to the next field.
    pub fn move_cursor_to_next_input(&mut self)
        requires
            old(self).selected_input_index < old(self).inputs.len(),
        ensures
            cursor_moved(*old(self), *final(self)),
    {
        let i = self.selected_input_index;
        let field = &self.inputs[i];
        let checked = field.noting(validate(field.text.as_str(), field.no_validation));
        self.inputs.set(i, checked);
        self.selected_input_index = if i + 1 >= self.inputs.len() {
            0
        } else {
            i + 1
        };
    }

    /// Builds the entry that the form spells. If there is one, the four
    /// fields are emptied for the next, and the date field is cleared of
    /// any message. If there is none, the field that stands in the way gets
    /// the message and is opened for typing; what was typed stays.
    pub fn submit_message(&mut self) -> (r: Result<Record, BuildError>)
        requires
            old(self).inputs.len() >= 4,
        ensures
            built(
                r,
                old(self).inputs[0].text@,
                old(self).inputs[1].text@,
                old(self).inputs[2].text@,
                old(self).inputs[3].text@,
                date_model(old(self).date_input.text@),
            ),
            r is Ok ==> {
                &&& final(self).input_mode == old(self).input_mode
                &&& final(self).selected_input_index == old(self).selected_input_index
                &&& blank_fields(final(self).inputs@)
                &&& with_message(
                    old(self).date_input,
                    final(self).date_input,
                    Seq::<char>::empty(),
                )
            },
            r is Err ==> refusal_noted(*old(self), *final(self), r->Err_0),
    {
        let r = into_record(
            self.inputs[0].text.as_str(),
            self.inputs[1].text.as_str(),
            self.inputs[2].text.as_str(),
            self.inputs[3].text.as_str(),
            self.date_input.text.as_str(),
        );
        match &r {
            Ok(_) => {
                self.inputs_to_default();
                self.date_input = self.date_input.noting(String::new());
            },
            Err(BuildError::InvalidDate) => {
                self.date_input = self.date_input.noting(BuildError::InvalidDate.message());
                self.input_mode = InputMode::DateEditing;
            },
            Err(BuildError::Amount(e)) => {
                let i: usize = if convert_to_f32(self.inputs[0].text.as_str()).is_err() {
                    0
                } else if convert_to_f32(self.inputs[1].text.as_str()).is_err() {
                    1
                } else {
                    2
                };
                let noted = self.inputs[i].noting(e.message());
                self.inputs.set(i, noted);
                self.input_mode = InputMode::Editing;
                self.selected_input_index = i;
            },
        }
        r
    }

    /// Takes a key: changes the mode, moves the cursor, and says what is
    /// left for the caller to do.
    pub fn on_key_event(&mut self, key: Key, control: bool) -> (action: Action)
        requires
            old(self).wf(),
        ensures
            final(self).wf(),
            action == action_for(old(self).input_mode, key, control),
            final(self).input_mode == next_mode(old(self).input_mode, key),
            final(self).date_input == old(self).date_input,
            final(self).selected_input_index == if old(self).input_mode == InputMode::Editing {
                match key {
                    Key::Esc | Key::Enter => 0,
                    Key::Tab => next_index(old(self).selected_input_index as int, 4),
                    _ => old(self).selected_input_index as int,
                }
            } else {
                old(self).selected_input_index as int
            },
            old(self).input_mode == InputMode::Editing && key == Key::Tab ==> cursor_moved(
                *old(self),
                *final(self),
            ),
            !(old(self).input_mode == InputMode::Editing && key == Key::Tab) ==> final(self).inputs
                == old(self).inputs,
    {
        match self.input_mode {
            InputMode::Normal => match key {
                Key::Esc | Key::Char('q') => Action::Quit,
                Key::Char('c') | Key::Char('C') => {
                    if control {
                        Action::Quit
                    } else {
                        Action::Nothing
                    }
                },
                Key::Tab => Action::NextTab,
                Key::Down => Action::RowDown,
                Key::Up => Action::RowUp,
                Key::Right => Action::ColumnRight,
                Key::Left => Action::ColumnLeft,
                Key::Char('g') => Action::FirstRow,
                Key::Char('G') => Action::LastRow,
                Key::Char('e') => {
                    self.input_mode = InputMode::Editing;
                    Action::Nothing
                },
                Key::Char('d') => {
                    self.input_mode = InputMode::DateEditing;
                    Action::Nothing
                },
                Key::Char('[') => Action::DeleteAll,
                _ => Action::Nothing,
            },
            InputMode::Editing => match key {
                Key::Esc => {
                    self.input_mode = InputMode::Normal;
                    self.selected_input_index = 0;
                    Action::Nothing
                },
                Key::Enter => {
                    self.input_mode = InputMode::Normal;
                    self.selected_input_index = 0;
                    Action::Submit
                },
                Key::Tab => {
                    self.move_cursor_to_next_input();
                    Action::Nothing
                },
                _ => Action::Type,
            },
            InputMode::DateEditing => match key {
                Key::Esc | Key::Enter => {
                    self.input_mode = InputMode::Normal;
                    Action::Nothing
                },
                _ => Action::TypeDate,
            },
        }
    }
}

} // verus!
