//! The prompt for the invite code of a vault to join.

use vstd::prelude::*;

use crate::engine::text;
use crate::tui::key::KeyCode;

verus! {

/// What was typed so far.
#[derive(Debug, Clone)]
pub struct JoinForm {
    pub input: String,
    pub error: Option<String>,
}

/// The form as a mathematical value.
#[verifier::ext_equal]
pub struct FormModel {
    pub input: Seq<char>,
    pub error: Option<Seq<char>>,
}

impl View for JoinForm {
    type V = FormModel;

    open spec fn view(&self) -> FormModel {
        FormModel { input: self.input@, error: text::opt_text(self.error) }
    }
}

impl FormModel {
    /// An empty form.
    pub open spec fn blank() -> FormModel {
        FormModel { input: Seq::empty(), error: None }
    }

    /// What a key does to the form, and whether the form is done.
    pub open spec fn pressed(self, key: KeyCode) -> (FormModel, Option<JoinOutcome>) {
        match key {
            KeyCode::Esc => (self, Some(JoinOutcome::Cancel)),
            KeyCode::Enter => (self, Some(JoinOutcome::Submit)),
            KeyCode::Backspace => (
                FormModel { input: text::popped(self.input), ..self },
                None,
            ),
            KeyCode::Char(c) => (FormModel { input: self.input.push(c), ..self }, None),
            _ => (self, None),
        }
    }
}

impl Default for JoinForm {
    fn default() -> (r: Self)
        ensures
            r@ == FormModel::blank(),
    {
        JoinForm { input: String::new(), error: None }
    }
}

/// How the form was left.
#[derive(Debug, Clone, Copy, PartialEq, Eq, Structural)]
pub enum JoinOutcome {
    Submit,
    Cancel,
}

/// Handles one key press. The caller submits or drops the form where this says
/// so.
pub fn handle_key(form: &mut JoinForm, key: KeyCode) -> (r: Option<JoinOutcome>)
    ensures
        (final(form)@, r) == old(form)@.pressed(key),
{
    match key {
        KeyCode::Esc => {
            return Some(JoinOutcome::Cancel);
        },
        KeyCode::Enter => {
            return Some(JoinOutcome::Submit);
        },
        KeyCode::Backspace => text::erase_last(&mut form.input),
        KeyCode::Char(c) => form.input.push(c),
        _ => {},
    }
    None
}

/// The code is what was typed: each character goes to its end, and backspace takes
/// it back. Enter submits it as it is, escape gives up, and nothing else leaves the
/// form.
pub proof fn law_code_is_what_was_typed(f: FormModel, c: char, key: KeyCode)
    ensures
        f.pressed(KeyCode::Char(c)) == (
            FormModel { input: f.input + seq![c], ..f },
            None::<JoinOutcome>,
        ),
        f.pressed(KeyCode::Char(c)).0.pressed(KeyCode::Backspace).0 == f,
        f.pressed(key).1 == Some(JoinOutcome::Submit) <==> key is Enter,
        f.pressed(key).1 == Some(JoinOutcome::Cancel) <==> key is Esc,
        f.pressed(key).1 is Some ==> f.pressed(key).0 == f,
{
    assert(f.input.push(c) =~= f.input + seq![c]);
    assert(f.input.push(c).drop_last() =~= f.input);
    assert(f.pressed(KeyCode::Char(c)).0.pressed(KeyCode::Backspace).0 =~= f);
}

} // verus!
