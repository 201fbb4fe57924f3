//! The password prompt in front of a vault.

use vstd::prelude::*;

use crate::engine::text;
use crate::tui::key::KeyCode;

verus! {

/// What was typed so far.
#[derive(Debug, Clone)]
pub struct UnlockForm {
    pub password: String,
    pub error: Option<String>,
}

/// The form as a mathematical value.
#[verifier::ext_equal]
pub struct FormModel {
    pub password: Seq<char>,
    pub error: Option<Seq<char>>,
}

impl View for UnlockForm {
    type V = FormModel;

    open spec fn view(&self) -> FormModel {
        FormModel { password: self.password@, error: text::opt_text(self.error) }
    }
}

impl FormModel {
    /// An empty form.
    pub open spec fn blank() -> FormModel {
        FormModel { password: Seq::empty(), error: None }
    }

    /// What a key does to the form, and whether the form is done.
    pub open spec fn pressed(self, key: KeyCode) -> (FormModel, Option<UnlockOutcome>) {
        match key {
            KeyCode::Esc => (self, Some(UnlockOutcome::Cancel)),
            KeyCode::Enter => (self, Some(UnlockOutcome::Submit)),
            KeyCode::Backspace => (
                FormModel { password: text::popped(self.password), ..self },
                None,
            ),
            KeyCode::Char(c) => (FormModel { password: self.password.push(c), ..self }, None),
            _ => (self, None),
        }
    }
}

impl Default for UnlockForm {
    fn default() -> (r: Self)
        ensures
            r@ == FormModel::blank(),
    {
        UnlockForm { password: String::new(), error: None }
    }
}

/// How the form was left.
#[derive(Debug, Clone, Copy, PartialEq, Eq, Structural)]
pub enum UnlockOutcome {
    Submit,
    Cancel,
}

/// Handles one key press. The caller submits or drops the form where this says
/// so.
pub fn handle_key(form: &mut UnlockForm, key: KeyCode) -> (r: Option<UnlockOutcome>)
    ensures
        (final(form)@, r) == old(form)@.pressed(key),
{
    match key {
        KeyCode::Esc => {
            return Some(UnlockOutcome::Cancel);
        },
        KeyCode::Enter => {
            return Some(UnlockOutcome::Submit);
        },
        KeyCode::Backspace => text::erase_last(&mut form.password),
        KeyCode::Char(c) => form.password.push(c),
        _ => {},
    }
    None
}

/// The password is what was typed: each character goes to its end, and backspace
/// takes it back. Enter submits it as it is, escape gives up, and nothing else
/// leaves the form.
pub proof fn law_password_is_what_was_typed(f: FormModel, c: char, key: KeyCode)
    ensures
        f.pressed(KeyCode::Char(c)) == (
            FormModel { password: f.password + seq![c], ..f },
            None::<UnlockOutcome>,
        ),
        f.pressed(KeyCode::Char(c)).0.pressed(KeyCode::Backspace).0 == f,
        f.pressed(key).1 == Some(UnlockOutcome::Submit) <==> key is Enter,
        f.pressed(key).1 == Some(UnlockOutcome::Cancel) <==> key is Esc,
        f.pressed(key).1 is Some ==> f.pressed(key).0 == f,
{
    assert(f.password.push(c) =~= f.password + seq![c]);
    assert(f.password.push(c).drop_last() =~= f.password);
    assert(f.pressed(KeyCode::Char(c)).0.pressed(KeyCode::Backspace).0 =~= f);
}

} // verus!
