//! The form for a new vault.

use vstd::prelude::*;

use crate::engine::bytes;
use crate::engine::crypto;
use crate::engine::error;
use crate::engine::founding;
use crate::engine::identity::{Identity, Keys};
use crate::engine::image;
use crate::engine::model::{self, VaultModel};
use crate::engine::readings;
use crate::engine::text;
use crate::engine::vault::Vault;
use crate::tui::key::KeyCode;

use super::naming::{self, CapacityNumber};

verus! {

/// The fields of the form, in order.
#[derive(Debug, Clone, Copy, PartialEq, Eq, Structural)]
pub enum Field {
    Name,
    Description,
    Capacity,
    Password,
    Confirm,
}

impl Field {
    /// The field below; the first one below the last.
    pub open spec fn below(self) -> Field {
        match self {
            Field::Name => Field::Description,
            Field::Description => Field::Capacity,
            Field::Capacity => Field::Password,
            Field::Password => Field::Confirm,
            Field::Confirm => Field::Name,
        }
    }

    /// The field above; the last one above the first.
    pub open spec fn above(self) -> Field {
        match self {
            Field::Name => Field::Confirm,
            Field::Description => Field::Name,
            Field::Capacity => Field::Description,
            Field::Password => Field::Capacity,
            Field::Confirm => Field::Password,
        }
    }

    pub fn next(self) -> (r: Self)
        ensures
            r == self.below(),
    {
        match self {
            Field::Name => Field::Description,
            Field::Description => Field::Capacity,
            Field::Capacity => Field::Password,
            Field::Password => Field::Confirm,
            Field::Confirm => Field::Name,
        }
    }

    pub fn prev(self) -> (r: Self)
        ensures
            r == self.above(),
    {
        match self {
            Field::Name => Field::Confirm,
            Field::Description => Field::Name,
            Field::Capacity => Field::Description,
            Field::Password => Field::Capacity,
            Field::Confirm => Field::Password,
        }
    }
}

/// Going down and up again leads back.
pub proof fn law_fields_are_a_ring(f: Field)
    ensures
        f.below().above() == f,
        f.above().below() == f,
        f.below().below().below().below().below() == f,
{
}

/// What was typed so far.
#[derive(Debug, Clone)]
pub struct CreateForm {
    pub name: String,
    pub description: String,
    pub capacity: String,
    pub password: String,
    pub confirm: String,
    pub focus: Field,
    pub error: Option<String>,
}

/// The form as a mathematical value.
#[verifier::ext_equal]
pub struct FormModel {
    pub name: Seq<char>,
    pub description: Seq<char>,
    pub capacity: Seq<char>,
    pub password: Seq<char>,
    pub confirm: Seq<char>,
    pub focus: Field,
    pub error: Option<Seq<char>>,
}

impl View for CreateForm {
    type V = FormModel;

    open spec fn view(&self) -> FormModel {
        FormModel {
            name: self.name@,
            description: self.description@,
            capacity: self.capacity@,
            password: self.password@,
            confirm: self.confirm@,
            focus: self.focus,
            error: text::opt_text(self.error),
        }
    }
}

impl FormModel {
    /// An empty form, with the usual capacity filled in.
    pub open spec fn blank() -> FormModel {
        FormModel {
            name: Seq::empty(),
            description: Seq::empty(),
            capacity: "10 GB"@,
            password: Seq::empty(),
            confirm: Seq::empty(),
            focus: Field::Name,
            error: None,
        }
    }

    /// What stands in the focused field.
    pub open spec fn focused(self) -> Seq<char> {
        match self.focus {
            Field::Name => self.name,
            Field::Description => self.description,
            Field::Capacity => self.capacity,
            Field::Password => self.password,
            Field::Confirm => self.confirm,
        }
    }

    /// The form with this text in the focused field.
    pub open spec fn with_focused(self, s: Seq<char>) -> FormModel {
        match self.focus {
            Field::Name => FormModel { name: s, ..self },
            Field::Description => FormModel { description: s, ..self },
            Field::Capacity => FormModel { capacity: s, ..self },
            Field::Password => FormModel { password: s, ..self },
            Field::Confirm => FormModel { confirm: s, ..self },
        }
    }

    /// What a key does to the form, and whether the form is done.
    pub open spec fn pressed(self, key: KeyCode) -> (FormModel, Option<CreateOutcome>) {
        match key {
            KeyCode::Esc => (self, Some(CreateOutcome::Cancel)),
            KeyCode::Tab | KeyCode::Down => (
                FormModel { focus: self.focus.below(), ..self },
                None,
            ),
            KeyCode::BackTab | KeyCode::Up => (
                FormModel { focus: self.focus.above(), ..self },
                None,
            ),
            KeyCode::Enter => if self.focus == Field::Confirm {
                (self, Some(CreateOutcome::Submit))
            } else {
                (FormModel { focus: self.focus.below(), ..self }, None)
            },
            KeyCode::Backspace => (self.with_focused(text::popped(self.focused())), None),
            KeyCode::Char(c) => (self.with_focused(self.focused().push(c)), None),
            KeyCode::Other => (self, None),
        }
    }
}

impl Default for CreateForm {
    fn default() -> (r: Self)
        ensures
            r@ == FormModel::blank(),
    {
        CreateForm {
            name: String::new(),
            description: String::new(),
            capacity: "10 GB".to_owned(),
            password: String::new(),
            confirm: String::new(),
            focus: Field::Name,
            error: None,
        }
    }
}

/// How the form was left.
#[derive(Debug, Clone, Copy, PartialEq, Eq, Structural)]
pub enum CreateOutcome {
    Submit,
    Cancel,
}

/// Handles one key press. The caller submits or drops the form where this says
/// so.
pub fn handle_key(form: &mut CreateForm, key: KeyCode) -> (r: Option<CreateOutcome>)
    ensures
        (final(form)@, r) == old(form)@.pressed(key),
{
    match key {
        KeyCode::Esc => {
            return Some(CreateOutcome::Cancel);
        },
        KeyCode::Tab | KeyCode::Down => {
            form.focus = form.focus.next();
        },
        KeyCode::BackTab | KeyCode::Up => {
            form.focus = form.focus.prev();
        },
        KeyCode::Enter => {
            if form.focus == Field::Confirm {
                return Some(CreateOutcome::Submit);
            }
            form.focus = form.focus.next();
        },
        KeyCode::Backspace => match form.focus {
            Field::Name => text::erase_last(&mut form.name),
            Field::Description => text::erase_last(&mut form.description),
            Field::Capacity => text::erase_last(&mut form.capacity),
            Field::Password => text::erase_last(&mut form.password),
            Field::Confirm => text::erase_last(&mut form.confirm),
        },
        KeyCode::Char(c) => match form.focus {
            Field::Name => form.name.push(c),
            Field::Description => form.description.push(c),
            Field::Capacity => form.capacity.push(c),
            Field::Password => form.password.push(c),
            Field::Confirm => form.confirm.push(c),
        },
        KeyCode::Other => {},
    }
    None
}

// ---------------------------------------------------------------------
// What the form asks for
// ---------------------------------------------------------------------

impl FormModel {
    /// What is wrong with the form before its capacity is read.
    pub open spec fn objection(self) -> Option<Seq<char>> {
        if text::trimmed(self.name).len() == 0 {
            Some("Name is required"@)
        } else if self.password.len() == 0 {
            Some("Password is required"@)
        } else if self.password != self.confirm {
            Some("Passwords do not match"@)
        } else if text::trimmed(self.capacity).len() == 0 {
            Some(naming::CAPACITY_REQUIRED@)
        } else {
            None
        }
    }

    /// The vault that the form asks for, given what its capacity comes to and
    /// what chance gave; or what is wrong.
    pub open spec fn founding(
        self,
        number: Option<CapacityNumber>,
        admin: Keys,
        salt: Seq<u8>,
        key: Seq<u8>,
        nonce: Seq<u8>,
        at: i64,
    ) -> core::result::Result<VaultModel, Seq<char>> {
        match (self.objection(), number) {
            (Some(m), _) => Err(m),
            (None, None) => Err(naming::CAPACITY_NOT_A_NUMBER@),
            (None, Some(n)) => if !n.positive {
                Err(naming::CAPACITY_NOT_POSITIVE@)
            } else {
                match model::creating(
                    text::trimmed(self.name),
                    text::trimmed(self.description),
                    n.bytes,
                    bytes::text(self.password),
                    admin,
                    salt,
                    key,
                    nonce,
                    at,
                ) {
                    Ok(v) => Ok(v),
                    Err(f) => Err(f.message()),
                }
            },
        }
    }
}

/// The value of a vault, or of the message that stands for it.
pub open spec fn founded_or(r: core::result::Result<Vault, String>) -> core::result::Result<
    VaultModel,
    Seq<char>,
> {
    match r {
        Ok(v) => Ok(v@),
        Err(m) => Err(m@),
    }
}

impl CreateForm {
    /// The number and the unit of the capacity, if nothing else is wrong with
    /// the form.
    pub fn capacity_parts(&self) -> (r: core::result::Result<(String, u64), String>)
        ensures
            match (r, self@.objection()) {
                (Ok((number, unit)), None) => (number@, unit) == naming::unit_split(
                    naming::lowercase_of(text::trimmed(self@.capacity)),
                ),
                (Err(m), Some(objection)) => m@ == objection,
                _ => false,
            },
            vstd::utf8::is_ascii_chars(text::trimmed(self@.capacity)) ==> (r matches Ok(
                (number, unit),
            ) ==> (number@, unit) == naming::unit_split(
                naming::ascii_lowered(text::trimmed(self@.capacity)),
            )),
    {
        if text::trim(self.name.as_str()).is_empty() {
            return Err("Name is required".to_owned());
        }
        if self.password.as_str().is_empty() {
            return Err("Password is required".to_owned());
        }
        if !text::same_text(self.password.as_str(), self.confirm.as_str()) {
            return Err("Passwords do not match".to_owned());
        }
        match naming::split_capacity(self.capacity.as_str()) {
            Ok(parts) => Ok(parts),
            Err(m) => Err(m.to_owned()),
        }
    }

    /// Makes the vault that the form asks for, given what the number of its
    /// capacity comes to.
    pub fn found(&self, number: Option<CapacityNumber>, admin: Identity) -> (r: core::result::Result<
        Vault,
        String,
    >)
        ensures
            r matches Ok(v) ==> v.wf() && v@.header.operable(),
            exists|salt: Seq<u8>, key: Seq<u8>, nonce: Seq<u8>, at: i64|
                salt.len() == 16 && key.len() == 32 && nonce.len() == 12 && founded_or(r)
                    == #[trigger] self@.founding(number, admin@, salt, key, nonce, at) && (
                r matches Ok(v) ==> readings::drawn(salt) && readings::drawn(key) && readings::drawn(nonce)
                    && readings::clock_showed(at) && v@.key == key && v@.header.salt == salt
                    && number is Some && founding::as_asked(
                    v@,
                    text::trimmed(self@.name),
                    text::trimmed(self@.description),
                    number->Some_0.bytes,
                    admin@,
                    at,
                )),
            r matches Ok(v) ==> founding::founded(v@, bytes::text(self@.password)),
            r is Ok <==> self@.objection() is None && (number matches Some(n) && n.positive
                && n.bytes >= 4096 && model::Layout::of(n.bytes).total_size() <= image::MAX_LEN)
                && bytes::text(text::trimmed(self@.name)).len() <= 128 && bytes::text(
                text::trimmed(self@.description),
            ).len() <= 256 && bytes::text(self@.password).len() <= crypto::PASSWORD_MAX,
    {
        let ghost salt = bytes::zeros(16);
        let ghost key = bytes::zeros(32);
        let ghost nonce = bytes::zeros(12);
        match self.capacity_parts() {
            Ok(_) => {},
            Err(m) => {
                assert(Err::<VaultModel, Seq<char>>(m@) == self@.founding(
                    number,
                    admin@,
                    salt,
                    key,
                    nonce,
                    0,
                ));
                return Err(m);
            },
        }
        let capacity: u64 = match naming::check_capacity(number) {
            Ok(n) => n,
            Err(m) => {
                assert(Err::<VaultModel, Seq<char>>(m@) == self@.founding(
                    number,
                    admin@,
                    salt,
                    key,
                    nonce,
                    0,
                ));
                return Err(m.to_owned());
            },
        };
        let ghost keys = admin@;
        let created = Vault::create(
            text::trim(self.name.as_str()),
            text::trim(self.description.as_str()),
            capacity,
            self.password.as_str(),
            admin,
        );
        let ghost (salt, key, nonce, at) = choose|salt: Seq<u8>, key: Seq<u8>, nonce: Seq<u8>, at: i64|
            salt.len() == 16 && key.len() == 32 && nonce.len() == 12 && error::outcome(created)
                == #[trigger] model::creating(
                text::trimmed(self.name@),
                text::trimmed(self.description@),
                capacity,
                bytes::text(self.password@),
                keys,
                salt,
                key,
                nonce,
                at,
            ) && readings::drawn(salt) && readings::drawn(key) && readings::drawn(nonce)
                && readings::clock_showed(at) && (created matches Ok(v) ==> v@.key == key
                && v@.header.salt == salt && founding::as_asked(
                v@,
                text::trimmed(self.name@),
                text::trimmed(self.description@),
                capacity,
                keys,
                at,
            ));
        let r = match created {
            Ok(v) => Ok(v),
            Err(e) => Err(e.message()),
        };
        assert(founded_or(r) == self@.founding(number, keys, salt, key, nonce, at));
        r
    }
}

// ---------------------------------------------------------------------
// What the form promises
// ---------------------------------------------------------------------

/// What is typed goes to the end of the field that has the focus and to no other,
/// and backspace takes it back.
pub proof fn law_typing_goes_to_the_focus(f: FormModel, c: char)
    ensures
        f.pressed(KeyCode::Char(c)) == (
            match f.focus {
                Field::Name => FormModel { name: f.name + seq![c], ..f },
                Field::Description => FormModel { description: f.description + seq![c], ..f },
                Field::Capacity => FormModel { capacity: f.capacity + seq![c], ..f },
                Field::Password => FormModel { password: f.password + seq![c], ..f },
                Field::Confirm => FormModel { confirm: f.confirm + seq![c], ..f },
            },
            None::<CreateOutcome>,
        ),
        f.pressed(KeyCode::Char(c)).0.pressed(KeyCode::Backspace) == (f, None::<CreateOutcome>),
{
    let s = f.focused();
    assert(s.push(c) =~= s + seq![c]);
    assert(s.push(c).drop_last() =~= s);
    assert(f.pressed(KeyCode::Char(c)).0.pressed(KeyCode::Backspace).0 =~= f);
}

/// Escape gives the form up, enter in the last field submits it, and nothing else
/// leaves it. Enter elsewhere, like tab, goes to the next field.
pub proof fn law_form_is_left_on_purpose(f: FormModel, key: KeyCode)
    ensures
        f.pressed(key).1 == Some(CreateOutcome::Cancel) <==> key is Esc,
        f.pressed(key).1 == Some(CreateOutcome::Submit) <==> key is Enter && f.focus is Confirm,
        f.pressed(key).1 is Some ==> f.pressed(key).0 == f,
        f.pressed(KeyCode::Tab).0.focus == (match f.focus {
            Field::Name => Field::Description,
            Field::Description => Field::Capacity,
            Field::Capacity => Field::Password,
            Field::Password => Field::Confirm,
            Field::Confirm => Field::Name,
        }),
        !(f.focus is Confirm) ==> f.pressed(KeyCode::Enter) == f.pressed(KeyCode::Tab),
        f.pressed(KeyCode::Tab).0.pressed(KeyCode::BackTab).0 == f,
        f.pressed(KeyCode::Down) == f.pressed(KeyCode::Tab),
        f.pressed(KeyCode::Up) == f.pressed(KeyCode::BackTab),
{
    assert(f.pressed(KeyCode::Tab).0.pressed(KeyCode::BackTab).0 =~= f);
}

/// A form is in order exactly if it has a name, a password that was typed twice the
/// same, and a capacity.
pub proof fn law_form_is_checked(f: FormModel)
    ensures
        f.objection() is None <==> {
            &&& text::trimmed(f.name).len() > 0
            &&& f.password.len() > 0
            &&& f.password == f.confirm
            &&& text::trimmed(f.capacity).len() > 0
        },
{
}

} // verus!
