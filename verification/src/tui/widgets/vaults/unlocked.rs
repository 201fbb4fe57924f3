//! An unlocked vault: its files, what can be done with them, and the session
//! that locks it again.

use vstd::prelude::*;

use crate::engine::error::{self, Fault};
use crate::engine::health;
use crate::engine::laws;
use crate::engine::model::VaultModel;
use crate::engine::readings;
use crate::engine::records::EntryModel;
use crate::engine::replay;
use crate::engine::session::{Instant, Session, SystemClock};
use crate::engine::text;
use crate::engine::vault::{self, FileInfo, Vault};
use crate::net::journal::{self, PatchJournal};
use crate::tui::key::KeyCode;

verus! {

// ---------------------------------------------------------------------
// The screen
// ---------------------------------------------------------------------

/// The form for a file to add.
#[derive(Debug, Clone)]
pub struct AddFileForm {
    pub source_path: String,
    pub dest_name: String,
    pub focus_dest: bool,
    pub error: Option<String>,
}

/// The form for new content of the selected file.
#[derive(Debug, Clone)]
pub struct UpdateFileForm {
    pub source_path: String,
    pub error: Option<String>,
}

/// The form for a file to add, as a mathematical value.
#[verifier::ext_equal]
pub struct AddModel {
    pub source: Seq<char>,
    pub dest: Seq<char>,
    pub focus_dest: bool,
    pub error: Option<Seq<char>>,
}

/// The form for new content, as a mathematical value.
#[verifier::ext_equal]
pub struct UpdateModel {
    pub source: Seq<char>,
    pub error: Option<Seq<char>>,
}

impl View for AddFileForm {
    type V = AddModel;

    open spec fn view(&self) -> AddModel {
        AddModel {
            source: self.source_path@,
            dest: self.dest_name@,
            focus_dest: self.focus_dest,
            error: text::opt_text(self.error),
        }
    }
}

impl View for UpdateFileForm {
    type V = UpdateModel;

    open spec fn view(&self) -> UpdateModel {
        UpdateModel { source: self.source_path@, error: text::opt_text(self.error) }
    }
}

impl Default for AddFileForm {
    fn default() -> (r: Self)
        ensures
            r@ == AddModel::blank(),
    {
        AddFileForm {
            source_path: String::new(),
            dest_name: String::new(),
            focus_dest: false,
            error: None,
        }
    }
}

impl Default for UpdateFileForm {
    fn default() -> (r: Self)
        ensures
            r@ == UpdateModel::blank(),
    {
        UpdateFileForm { source_path: String::new(), error: None }
    }
}

impl AddModel {
    pub open spec fn blank() -> AddModel {
        AddModel { source: Seq::empty(), dest: Seq::empty(), focus_dest: false, error: None }
    }

    /// Both fields hold something.
    pub open spec fn filled(self) -> bool {
        text::trimmed(self.source).len() > 0 && text::trimmed(self.dest).len() > 0
    }
}

impl UpdateModel {
    pub open spec fn blank() -> UpdateModel {
        UpdateModel { source: Seq::empty(), error: None }
    }
}

/// A listed file as a mathematical value.
#[verifier::ext_equal]
pub struct FileModel {
    pub name: Seq<char>,
    pub size: u64,
    pub created_at: i64,
    pub modified_at: i64,
}

/// The value of a listed file.
pub open spec fn file_of(f: FileInfo) -> FileModel {
    FileModel {
        name: f.name@,
        size: f.size,
        created_at: f.created_at,
        modified_at: f.modified_at,
    }
}

/// The values of listed files.
pub open spec fn files_of(s: Seq<FileInfo>) -> Seq<FileModel> {
    s.map_values(|f: FileInfo| file_of(f))
}

/// What is shown of an unlocked vault.
#[verifier::ext_equal]
pub struct ScreenModel {
    pub files: Seq<FileModel>,
    pub selected: int,
    pub message: Option<Seq<char>>,
    pub add_form: Option<AddModel>,
    pub update_form: Option<UpdateModel>,
    /// The file whose deletion is to be confirmed.
    pub delete_confirm: Option<Seq<char>>,
}

/// A vault that is served to peers: the port, and the patches recorded so far.
pub struct Serving {
    pub port: u16,
    pub journal: PatchJournal,
}

/// An unlocked vault with everything that belongs to it on the screen.
pub struct UnlockedState {
    pub vault: Vault,
    pub path: String,
    pub name: String,
    pub files: Vec<FileInfo>,
    pub selected: usize,
    pub session: Session<SystemClock>,
    pub message: Option<String>,
    pub add_form: Option<AddFileForm>,
    pub update_form: Option<UpdateFileForm>,
    pub delete_confirm: Option<String>,
    pub serving: Option<Serving>,
    /// Ranges that were written to the file but not yet recorded for peers.
    pub unrecorded: Vec<(u64, Vec<u8>)>,
    pub local_identity_bytes: [u8; 64],
}

/// The value of an optional form.
pub open spec fn add_of(f: Option<AddFileForm>) -> Option<AddModel> {
    match f {
        Some(f) => Some(f@),
        None => None,
    }
}

/// The value of an optional form.
pub open spec fn update_of(f: Option<UpdateFileForm>) -> Option<UpdateModel> {
    match f {
        Some(f) => Some(f@),
        None => None,
    }
}

impl UnlockedState {
    /// What is shown.
    pub open spec fn screen(&self) -> ScreenModel {
        ScreenModel {
            files: files_of(self.files@),
            selected: self.selected as int,
            message: text::opt_text(self.message),
            add_form: add_of(self.add_form),
            update_form: update_of(self.update_form),
            delete_confirm: text::opt_text(self.delete_confirm),
        }
    }

    /// Everything but the screen and the session is the same.
    pub open spec fn same_vault(&self, other: &UnlockedState) -> bool {
        &&& self.vault == other.vault
        &&& self.path == other.path
        &&& self.name == other.name
        &&& self.serving == other.serving
        &&& self.unrecorded == other.unrecorded
        &&& self.local_identity_bytes == other.local_identity_bytes
    }
}

/// What a key press asks for.
#[derive(Debug, Clone)]
pub enum Outcome {
    Continue,
    Lock,
    /// Read this file, then [`UnlockedState::submit_add`].
    Add(String),
    /// Read this file, then [`UnlockedState::submit_update`].
    Update(String),
    /// [`UnlockedState::confirm_delete`].
    Delete,
    /// [`UnlockedState::verify`].
    Verify,
}

/// What a key press asks for, as a mathematical value.
pub enum OutcomeModel {
    Continue,
    Lock,
    Add(Seq<char>),
    Update(Seq<char>),
    Delete,
    Verify,
}

impl View for Outcome {
    type V = OutcomeModel;

    open spec fn view(&self) -> OutcomeModel {
        match self {
            Outcome::Continue => OutcomeModel::Continue,
            Outcome::Lock => OutcomeModel::Lock,
            Outcome::Add(p) => OutcomeModel::Add(p@),
            Outcome::Update(p) => OutcomeModel::Update(p@),
            Outcome::Delete => OutcomeModel::Delete,
            Outcome::Verify => OutcomeModel::Verify,
        }
    }
}

impl ScreenModel {
    /// The selection moved by `delta`, kept within the list.
    pub open spec fn moved(self, delta: int) -> ScreenModel {
        let n = self.files.len() as int;
        if n == 0 {
            self
        } else {
            ScreenModel {
                selected: if self.selected + delta < 0 {
                    0
                } else if self.selected + delta >= n {
                    n - 1
                } else {
                    self.selected + delta
                },
                ..self
            }
        }
    }

    /// Whether a file is selected.
    pub open spec fn has_selection(self) -> bool {
        0 <= self.selected < self.files.len()
    }

    /// What a key does while the form for a file to add is open.
    pub open spec fn pressed_adding(self, f: AddModel, key: KeyCode) -> (
        ScreenModel,
        OutcomeModel,
    ) {
        match key {
            KeyCode::Esc => (ScreenModel { add_form: None, ..self }, OutcomeModel::Continue),
            KeyCode::Tab | KeyCode::Down | KeyCode::Up => (
                ScreenModel {
                    add_form: Some(AddModel { focus_dest: !f.focus_dest, ..f }),
                    ..self
                },
                OutcomeModel::Continue,
            ),
            KeyCode::Enter => if !f.focus_dest {
                (
                    ScreenModel { add_form: Some(AddModel { focus_dest: true, ..f }), ..self },
                    OutcomeModel::Continue,
                )
            } else if f.filled() {
                (self, OutcomeModel::Add(text::trimmed(f.source)))
            } else {
                (
                    ScreenModel {
                        add_form: Some(
                            AddModel { error: Some("Both fields are required"@), ..f },
                        ),
                        ..self
                    },
                    OutcomeModel::Continue,
                )
            },
            KeyCode::Backspace => (
                ScreenModel {
                    add_form: Some(
                        if f.focus_dest {
                            AddModel { dest: text::popped(f.dest), ..f }
                        } else {
                            AddModel { source: text::popped(f.source), ..f }
                        },
                    ),
                    ..self
                },
                OutcomeModel::Continue,
            ),
            KeyCode::Char(c) => (
                ScreenModel {
                    add_form: Some(
                        if f.focus_dest {
                            AddModel { dest: f.dest.push(c), ..f }
                        } else {
                            AddModel { source: f.source.push(c), ..f }
                        },
                    ),
                    ..self
                },
                OutcomeModel::Continue,
            ),
            _ => (self, OutcomeModel::Continue),
        }
    }

    /// What a key does while the form for new content is open.
    pub open spec fn pressed_updating(self, f: UpdateModel, key: KeyCode) -> (
        ScreenModel,
        OutcomeModel,
    ) {
        match key {
            KeyCode::Esc => (ScreenModel { update_form: None, ..self }, OutcomeModel::Continue),
            KeyCode::Enter => if !self.has_selection() {
                (ScreenModel { update_form: None, ..self }, OutcomeModel::Continue)
            } else if text::trimmed(f.source).len() == 0 {
                (
                    ScreenModel {
                        update_form: Some(
                            UpdateModel { error: Some("A source path is required"@), ..f },
                        ),
                        ..self
                    },
                    OutcomeModel::Continue,
                )
            } else {
                (self, OutcomeModel::Update(text::trimmed(f.source)))
            },
            KeyCode::Backspace => (
                ScreenModel {
                    update_form: Some(UpdateModel { source: text::popped(f.source), ..f }),
                    ..self
                },
                OutcomeModel::Continue,
            ),
            KeyCode::Char(c) => (
                ScreenModel {
                    update_form: Some(UpdateModel { source: f.source.push(c), ..f }),
                    ..self
                },
                OutcomeModel::Continue,
            ),
            _ => (self, OutcomeModel::Continue),
        }
    }

    /// What a key does while a deletion is to be confirmed.
    pub open spec fn pressed_deleting(self, key: KeyCode) -> (ScreenModel, OutcomeModel) {
        if key is Enter || key == KeyCode::Char('y') || key == KeyCode::Char('Y') {
            (self, OutcomeModel::Delete)
        } else if key is Esc || key == KeyCode::Char('n') || key == KeyCode::Char('N') {
            (ScreenModel { delete_confirm: None, ..self }, OutcomeModel::Continue)
        } else {
            (self, OutcomeModel::Continue)
        }
    }

    /// What a key does while nothing is open.
    pub open spec fn pressed_browsing(self, key: KeyCode) -> (ScreenModel, OutcomeModel) {
        match key {
            KeyCode::Esc => (self, OutcomeModel::Lock),
            KeyCode::Up => (self.moved(-1), OutcomeModel::Continue),
            KeyCode::Down => (self.moved(1), OutcomeModel::Continue),
            KeyCode::Char(c) => if c == 'q' {
                (self, OutcomeModel::Lock)
            } else if c == 'a' {
                (
                    ScreenModel { add_form: Some(AddModel::blank()), ..self },
                    OutcomeModel::Continue,
                )
            } else if c == 'u' && self.has_selection() {
                (
                    ScreenModel { update_form: Some(UpdateModel::blank()), ..self },
                    OutcomeModel::Continue,
                )
            } else if c == 'd' && self.has_selection() {
                (
                    ScreenModel {
                        delete_confirm: Some(self.files[self.selected].name),
                        ..self
                    },
                    OutcomeModel::Continue,
                )
            } else if c == 'v' {
                (self, OutcomeModel::Verify)
            } else {
                (self, OutcomeModel::Continue)
            },
            _ => (self, OutcomeModel::Continue),
        }
    }

    /// What a key does.
    pub open spec fn pressed(self, key: KeyCode) -> (ScreenModel, OutcomeModel) {
        match self.add_form {
            Some(f) => self.pressed_adding(f, key),
            None => match self.update_form {
                Some(f) => self.pressed_updating(f, key),
                None => if self.delete_confirm is Some {
                    self.pressed_deleting(key)
                } else {
                    self.pressed_browsing(key)
                },
            },
        }
    }
}

impl ScreenModel {
    /// Nothing is open.
    pub open spec fn browsing(self) -> bool {
        self.add_form is None && self.update_form is None && self.delete_confirm is None
    }
}

/// The keys that confirm.
pub open spec fn confirms(key: KeyCode) -> bool {
    key is Enter || key == KeyCode::Char('y') || key == KeyCode::Char('Y')
}

/// The keys that decline.
pub open spec fn declines(key: KeyCode) -> bool {
    key is Esc || key == KeyCode::Char('n') || key == KeyCode::Char('N')
}

/// Deleting is about the selected file: `d` asks for confirmation by its name and
/// changes nothing else. Confirming deletes it, declining takes everything back,
/// and any other key goes on asking.
pub proof fn law_delete_is_of_the_selected(s: ScreenModel, key: KeyCode)
    requires
        s.browsing(),
        0 <= s.selected < s.files.len(),
    ensures
        s.pressed(KeyCode::Char('d')) == (
            ScreenModel { delete_confirm: Some(s.files[s.selected].name), ..s },
            OutcomeModel::Continue,
        ),
        ({
            let asked = s.pressed(KeyCode::Char('d')).0;
            asked.pressed(key) == (if confirms(key) {
                (asked, OutcomeModel::Delete)
            } else if declines(key) {
                (s, OutcomeModel::Continue)
            } else {
                (asked, OutcomeModel::Continue)
            })
        }),
{
    let asked = s.pressed(KeyCode::Char('d')).0;
    assert(ScreenModel { delete_confirm: None, ..asked } =~= s);
}

/// A file is deleted only when its deletion was asked for and is confirmed, and a
/// vault is locked only when nothing is open.
pub proof fn law_nothing_happens_by_itself(s: ScreenModel, key: KeyCode)
    ensures
        s.pressed(key).1 is Delete <==> s.add_form is None && s.update_form is None
            && s.delete_confirm is Some && confirms(key),
        s.pressed(key).1 is Lock <==> s.browsing() && (key is Esc || key == KeyCode::Char('q')),
        s.pressed(key).1 is Verify <==> s.browsing() && key == KeyCode::Char('v'),
        s.pressed(key).1 is Add ==> s.add_form is Some && key is Enter,
        s.pressed(key).1 is Update ==> s.update_form is Some && key is Enter,
        !(s.pressed(key).1 is Continue) ==> s.pressed(key).0 == s,
        s.delete_confirm is None && s.pressed(key).0.delete_confirm is Some ==> s.browsing() && key
            == KeyCode::Char('d'),
{
}

/// Keys move the selection within the list and never touch the list itself.
pub proof fn law_selection_stays_in_the_list(s: ScreenModel, key: KeyCode)
    requires
        0 <= s.selected < s.files.len() || (s.files.len() == 0 && s.selected == 0),
    ensures
        s.pressed(key).0.files == s.files,
        s.pressed(key).0.message == s.message,
        s.files.len() > 0 ==> 0 <= s.pressed(key).0.selected < s.files.len(),
        s.files.len() == 0 ==> s.pressed(key).0.selected == 0,
        s.pressed(key).0.selected != s.selected ==> s.browsing() && (key is Up || key is Down),
{
}

/// Down goes to the next file and up to the one before it, so that every file can
/// be selected; at the ends the selection stays.
pub proof fn law_selection_moves(s: ScreenModel)
    requires
        s.browsing(),
        0 <= s.selected < s.files.len(),
    ensures
        s.selected + 1 < s.files.len() ==> s.pressed(KeyCode::Down).0 == (ScreenModel {
            selected: s.selected + 1,
            ..s
        }) && s.pressed(KeyCode::Down).0.pressed(KeyCode::Up).0 == s,
        s.selected + 1 == s.files.len() ==> s.pressed(KeyCode::Down).0 == s,
        s.selected > 0 ==> s.pressed(KeyCode::Up).0 == (ScreenModel {
            selected: s.selected - 1,
            ..s
        }),
        s.selected == 0 ==> s.pressed(KeyCode::Up).0 == s,
{
    if s.selected + 1 < s.files.len() {
        let next = s.pressed(KeyCode::Down).0;
        assert(next.selected == s.selected + 1);
        assert(next.pressed(KeyCode::Up).0 =~= s);
    }
}

/// What is typed goes to the end of the field that has the focus, and backspace
/// takes it back.
pub proof fn law_typing_is_taken_back(s: ScreenModel, c: char)
    requires
        s.add_form is Some || s.update_form is Some,
    ensures
        s.pressed(KeyCode::Char(c)).1 is Continue,
        s.pressed(KeyCode::Char(c)).0.pressed(KeyCode::Backspace) == (s, OutcomeModel::Continue),
        s.add_form matches Some(f) ==> s.pressed(KeyCode::Char(c)).0.add_form == Some(
            if f.focus_dest {
                AddModel { dest: f.dest + seq![c], ..f }
            } else {
                AddModel { source: f.source + seq![c], ..f }
            },
        ),
        s.add_form is None ==> s.pressed(KeyCode::Char(c)).0.update_form == Some(
            UpdateModel {
                source: s.update_form->Some_0.source + seq![c],
                ..s.update_form->Some_0
            },
        ),
{
    let t = s.pressed(KeyCode::Char(c)).0;
    let u = t.pressed(KeyCode::Backspace).0;
    match s.add_form {
        Some(f) => {
            assert(f.dest.push(c) =~= f.dest + seq![c]);
            assert(f.source.push(c) =~= f.source + seq![c]);
            assert(f.dest.push(c).drop_last() =~= f.dest);
            assert(f.source.push(c).drop_last() =~= f.source);
            assert(u.add_form->Some_0 =~= f);
        },
        None => {
            let f = s.update_form->Some_0;
            assert(f.source.push(c) =~= f.source + seq![c]);
            assert(f.source.push(c).drop_last() =~= f.source);
            assert(u.update_form->Some_0 =~= f);
        },
    }
    assert(u =~= s);
}

/// Adding a file asks for its source and then for its name. Once both are there,
/// enter asks for exactly that source to be read; escape gives up.
pub proof fn law_adding_asks_for_both(s: ScreenModel, f: AddModel)
    requires
        s.browsing(),
    ensures
        s.pressed(KeyCode::Char('a')).0 == (ScreenModel {
            add_form: Some(
                AddModel {
                    source: Seq::empty(),
                    dest: Seq::empty(),
                    focus_dest: false,
                    error: None,
                },
            ),
            ..s
        }),
        ({
            let t = ScreenModel { add_form: Some(f), ..s };
            let (source, dest) = (text::trimmed(f.source), text::trimmed(f.dest));
            &&& t.pressed(KeyCode::Esc).0 == s
            &&& t.pressed(KeyCode::Tab).0.pressed(KeyCode::Tab).0 == t
            &&& t.pressed(KeyCode::Tab).0.add_form->Some_0.focus_dest != f.focus_dest
            &&& !f.focus_dest ==> t.pressed(KeyCode::Enter) == (
                ScreenModel { add_form: Some(AddModel { focus_dest: true, ..f }), ..t },
                OutcomeModel::Continue,
            )
            &&& f.focus_dest && source.len() > 0 && dest.len() > 0 ==> t.pressed(KeyCode::Enter)
                == (t, OutcomeModel::Add(source))
            &&& f.focus_dest && (source.len() == 0 || dest.len() == 0) ==> t.pressed(
                KeyCode::Enter,
            ).1 is Continue && t.pressed(KeyCode::Enter).0.add_form->Some_0.error is Some
        }),
{
    let t = ScreenModel { add_form: Some(f), ..s };
    assert(t.pressed(KeyCode::Esc).0 =~= s);
    assert(t.pressed(KeyCode::Tab).0.pressed(KeyCode::Tab).0.add_form->Some_0 =~= f);
    assert(t.pressed(KeyCode::Tab).0.pressed(KeyCode::Tab).0 =~= t);
}

/// Updating is about the selected file and asks for a source. Once it is there,
/// enter asks for exactly that source to be read; escape gives up.
pub proof fn law_updating_asks_for_a_source(s: ScreenModel, f: UpdateModel)
    requires
        s.browsing(),
    ensures
        0 <= s.selected < s.files.len() ==> s.pressed(KeyCode::Char('u')).0 == (ScreenModel {
            update_form: Some(UpdateModel { source: Seq::empty(), error: None }),
            ..s
        }),
        s.files.len() == 0 ==> s.pressed(KeyCode::Char('u')).0 == s && s.pressed(
            KeyCode::Char('d'),
        ).0 == s,
        ({
            let t = ScreenModel { update_form: Some(f), ..s };
            let source = text::trimmed(f.source);
            &&& t.pressed(KeyCode::Esc).0 == s
            &&& 0 <= s.selected < s.files.len() && source.len() > 0 ==> t.pressed(KeyCode::Enter)
                == (t, OutcomeModel::Update(source))
            &&& 0 <= s.selected < s.files.len() && source.len() == 0 ==> t.pressed(
                KeyCode::Enter,
            ).1 is Continue && t.pressed(KeyCode::Enter).0.update_form->Some_0.error is Some
        }),
{
    let t = ScreenModel { update_form: Some(f), ..s };
    assert(t.pressed(KeyCode::Esc).0 =~= s);
}

fn press_add_form(form: &mut AddFileForm, key: KeyCode) -> (r: Outcome)
    requires
        !(key is Esc),
    ensures
        forall|s: ScreenModel|
            s.add_form == Some(old(form)@) ==> (#[trigger] s.pressed_adding(old(form)@, key)) == (
                ScreenModel { add_form: Some(final(form)@), ..s },
                r@,
            ),
{
    match key {
        KeyCode::Tab | KeyCode::Down | KeyCode::Up => {
            form.focus_dest = !form.focus_dest;
        },
        KeyCode::Enter => {
            if !form.focus_dest {
                form.focus_dest = true;
            } else {
                let source = text::trim(form.source_path.as_str());
                let dest = text::trim(form.dest_name.as_str());
                if !source.is_empty() && !dest.is_empty() {
                    return Outcome::Add(source.to_owned());
                }
                form.error = Some("Both fields are required".to_owned());
            }
        },
        KeyCode::Backspace => {
            if form.focus_dest {
                text::erase_last(&mut form.dest_name);
            } else {
                text::erase_last(&mut form.source_path);
            }
        },
        KeyCode::Char(c) => {
            if form.focus_dest {
                form.dest_name.push(c);
            } else {
                form.source_path.push(c);
            }
        },
        _ => {},
    }
    Outcome::Continue
}

impl UnlockedState {
    /// Moves the selection up or down by one, within the list.
    fn move_selection(&mut self, down: bool)
        ensures
            final(self).same_vault(old(self)),
            final(self).session == old(self).session,
            final(self).screen() == old(self).screen().moved(if down {
                1
            } else {
                -1
            }),
    {
        let n: usize = self.files.len();
        if n == 0 {
            return;
        }
        if down {
            if self.selected >= n - 1 {
                self.selected = n - 1;
            } else {
                self.selected = self.selected + 1;
            }
        } else if self.selected == 0 {
            self.selected = 0;
        } else if self.selected - 1 >= n {
            self.selected = n - 1;
        } else {
            self.selected = self.selected - 1;
        }
    }

    /// The name of the selected file.
    fn selected_name(&self) -> (r: Option<String>)
        ensures
            r is Some <==> self.screen().has_selection(),
            r matches Some(n) ==> n@ == self.screen().files[self.selected as int].name,
    {
        if self.selected < self.files.len() {
            assert(self.screen().files[self.selected as int] == file_of(
                self.files@[self.selected as int],
            ));
            Some(self.files[self.selected].name.clone())
        } else {
            None
        }
    }
}

/// Handles one key press while the vault is unlocked. Every key press starts the
/// idle time over.
pub fn handle_key(state: &mut UnlockedState, key: KeyCode, now: Instant) -> (r: Outcome)
    ensures
        final(state).same_vault(old(state)),
        final(state).session == (Session { last_activity: now, ..old(state).session }),
        (final(state).screen(), r@) == old(state).screen().pressed(key),
        old(state).screen().browsing() && key == KeyCode::Char('d') && old(state).selected
            < old(state).files@.len() ==> final(state).screen().delete_confirm == Some(
            old(state).files@[old(state).selected as int].name@,
        ),
{
    proof {
        let s = old(state).screen();
        if s.browsing() && s.has_selection() {
            law_delete_is_of_the_selected(s, key);
            assert(s.files[s.selected] == file_of(old(state).files@[s.selected]));
        }
    }
    state.session.record_activity_at(now);

    if state.add_form.is_some() {
        if let KeyCode::Esc = key {
            state.add_form = None;
            return Outcome::Continue;
        }
        let mut form = match state.add_form.take() {
            Some(f) => f,
            None => {
                assert(false);
                return Outcome::Continue;
            },
        };
        let r = press_add_form(&mut form, key);
        state.add_form = Some(form);
        assert(old(state).screen().pressed_adding(old(state).screen().add_form->Some_0, key) == (
            state.screen(),
            r@,
        ));
        return r;
    }
    if state.update_form.is_some() {
        let mut form = match state.update_form.take() {
            Some(f) => f,
            None => {
                assert(false);
                return Outcome::Continue;
            },
        };
        let mut r = Outcome::Continue;
        match key {
            KeyCode::Esc => {
                return Outcome::Continue;
            },
            KeyCode::Enter => {
                if state.selected >= state.files.len() {
                    return Outcome::Continue;
                }
                let source = text::trim(form.source_path.as_str());
                if source.is_empty() {
                    form.error = Some("A source path is required".to_owned());
                } else {
                    r = Outcome::Update(source.to_owned());
                }
            },
            KeyCode::Backspace => text::erase_last(&mut form.source_path),
            KeyCode::Char(c) => form.source_path.push(c),
            _ => {},
        }
        state.update_form = Some(form);
        return r;
    }
    if state.delete_confirm.is_some() {
        return match key {
            KeyCode::Enter => Outcome::Delete,
            KeyCode::Esc => {
                state.delete_confirm = None;
                Outcome::Continue
            },
            KeyCode::Char(c) => if c == 'y' || c == 'Y' {
                Outcome::Delete
            } else if c == 'n' || c == 'N' {
                state.delete_confirm = None;
                Outcome::Continue
            } else {
                Outcome::Continue
            },
            _ => Outcome::Continue,
        };
    }
    match key {
        KeyCode::Esc => Outcome::Lock,
        KeyCode::Up => {
            state.move_selection(false);
            Outcome::Continue
        },
        KeyCode::Down => {
            state.move_selection(true);
            Outcome::Continue
        },
        KeyCode::Char(c) => {
            if c == 'q' {
                return Outcome::Lock;
            }
            if c == 'a' {
                state.add_form = Some(AddFileForm::default());
            } else if c == 'u' {
                if state.selected < state.files.len() {
                    state.update_form = Some(UpdateFileForm::default());
                }
            } else if c == 'd' {
                let name = state.selected_name();
                if name.is_some() {
                    state.delete_confirm = name;
                }
            } else if c == 'v' {
                return Outcome::Verify;
            }
            Outcome::Continue
        },
        _ => Outcome::Continue,
    }
}

// ---------------------------------------------------------------------
// The vault behind the screen
// ---------------------------------------------------------------------

/// The vault, the patches recorded for its peers if it is served, how many of
/// those are kept, and what was written since the last one.
pub struct BookModel {
    pub vault: VaultModel,
    pub journal: Option<Seq<journal::Recorded>>,
    pub limit: nat,
    pub unrecorded: Seq<(u64, Seq<u8>)>,
}

impl BookModel {
    /// After the vault became `w`: what it logged is handed out to be written
    /// to the file, and still to be recorded for peers.
    pub open spec fn settled(self, w: VaultModel) -> BookModel {
        BookModel {
            vault: VaultModel { log: Seq::empty(), ..w },
            unrecorded: self.unrecorded + w.log,
            ..self
        }
    }

    /// After the vault became `w` by sealing its content under another key: no
    /// patch leads across that, so peers that are behind need the whole
    /// container.
    pub open spec fn rotated(self, w: VaultModel) -> BookModel {
        if w.log.len() == 0 {
            self.settled(w)
        } else {
            BookModel {
                vault: VaultModel { log: Seq::empty(), ..w },
                journal: match self.journal {
                    Some(_) => Some(Seq::empty()),
                    None => None,
                },
                unrecorded: Seq::empty(),
                ..self
            }
        }
    }

    /// After recording everything still to be recorded under `seq`; only a
    /// served vault records anything.
    pub open spec fn recorded(self, seq: u64) -> BookModel {
        match self.journal {
            None => self,
            Some(entries) => BookModel {
                journal: Some(
                    if self.limit == 0 {
                        entries
                    } else {
                        journal::last_of(
                            entries.push((seq, self.unrecorded)),
                            self.limit as int,
                        )
                    },
                ),
                unrecorded: Seq::empty(),
                ..self
            },
        }
    }
}

impl BookModel {
    /// The book is in step with the vault: every recorded patch leads where it
    /// should, and what was written since the last one leads on to the vault, from
    /// wherever a replica stands that has come to `first` or further. `at(s)` is
    /// the vault before the change with sequence number `s`.
    pub open spec fn in_step(self, at: spec_fn(int) -> VaultModel, first: int) -> bool {
        let seq = self.vault.header.chain_next_seq as int;
        &&& self.vault.log.len() == 0
        &&& replay::same_container(at(seq), self.vault)
        &&& 0 <= first <= seq
        &&& forall|t: int|
            first <= t <= seq ==> replay::leads(#[trigger] at(t), self.unrecorded, self.vault)
        &&& self.journal matches Some(entries) ==> {
            &&& journal::faithful(entries, at)
            &&& entries.len() > 0 ==> entries.last().0 + 1 == first
            &&& self.limit == 0 ==> entries.len() == 0
        }
    }

    /// From when on the book is in step after a change with number `seq` was
    /// recorded.
    pub open spec fn first_after(self, first: int, seq: u64) -> int {
        if self.journal is Some {
            seq + 1
        } else {
            first
        }
    }
}

/// After a change, what it wrote is still to be recorded, and the book stays in
/// step.
pub proof fn law_settling_keeps_step(
    b: BookModel,
    w: VaultModel,
    at: spec_fn(int) -> VaultModel,
    first: int,
)
    requires
        b.in_step(at, first),
        replay::keeps_lead(b.vault, w),
        health::advances(b.vault, w),
        replay::same_container(at(b.vault.header.chain_next_seq + 1), w),
    ensures
        b.settled(w).in_step(at, first),
{
    let v = b.vault;
    let seq = v.header.chain_next_seq as int;
    let c = b.settled(w);
    let all = b.unrecorded + w.log;
    let none = Seq::<(u64, Seq<u8>)>::empty();
    replay::law_change_leads(v, w);
    assert forall|t: int| first <= t <= seq + 1 implies replay::leads(
        #[trigger] at(t),
        c.unrecorded,
        c.vault,
    ) by {
        assert(replay::leads(at(first), b.unrecorded, v));
        replay::law_leads_add_up(at(first), b.unrecorded, v, w.log, w);
        if t <= seq {
            assert(replay::leads(at(t), b.unrecorded, v));
            replay::law_leads_add_up(at(t), b.unrecorded, v, w.log, w);
        } else {
            assert(replay::leads(w, none, w));
            replay::law_replay_leads(at(first), all, w, none, w);
            assert(all + none =~= all);
            assert(replay::leads(at(t), all, w));
        }
    }
}

/// Recording a change keeps the book in step.
pub proof fn law_recording_keeps_step(
    b: BookModel,
    at: spec_fn(int) -> VaultModel,
    first: int,
    seq: u64,
)
    requires
        b.in_step(at, first),
        b.vault.header.chain_next_seq == seq + 1,
        first <= seq,
    ensures
        b.recorded(seq).in_step(at, b.first_after(first, seq)),
        b.recorded(seq).journal matches Some(entries) ==> b.limit > 0 ==> entries.len() > 0
            && entries.last().0 == seq,
{
    if let Some(entries) = b.journal {
        let c = b.recorded(seq);
        assert forall|t: int|
            seq + 1 <= t <= seq + 1 implies replay::leads(
            #[trigger] at(t),
            c.unrecorded,
            c.vault,
        ) by {
            replay::law_replica_starts_lead(c.vault, at(t));
        }
        if b.limit > 0 {
            assert forall|t: int|
                (if entries.len() > 0 {
                    entries.last().0 + 1
                } else {
                    seq as int
                }) <= t <= seq implies replay::leads(
                #[trigger] at(t),
                b.unrecorded,
                at(seq + 1),
            ) by {
                assert(replay::leads(at(t), b.unrecorded, b.vault));
            }
            journal::law_recording_keeps_faith(entries, at, seq, b.unrecorded, b.limit as int);
            let all = entries.push((seq, b.unrecorded));
            assert(journal::last_of(all, b.limit as int).last() == all.last());
        }
    }
}

/// The patches recorded for the peers of a served vault.
pub open spec fn journal_of(s: Option<Serving>) -> Option<Seq<journal::Recorded>> {
    match s {
        Some(s) => Some(s.journal@),
        None => None,
    }
}

/// How many patches a served vault keeps.
pub open spec fn limit_of(s: Option<Serving>) -> nat {
    match s {
        Some(s) => s.journal.limit(),
        None => 0,
    }
}

/// The files of a vault.
pub open spec fn listing(v: VaultModel) -> core::result::Result<Seq<FileModel>, Fault> {
    match v.live_entries(v.header.max_files as int) {
        Err(f) => Err(f),
        Ok(entries) => Ok(
            entries.map_values(
                |p: (int, EntryModel)|
                    FileModel {
                        name: p.1.name,
                        size: p.1.size,
                        created_at: p.1.created_at,
                        modified_at: p.1.modified_at,
                    },
            ),
        ),
    }
}

impl ScreenModel {
    /// A screen that shows nothing.
    pub open spec fn blank() -> ScreenModel {
        ScreenModel {
            files: Seq::empty(),
            selected: 0,
            message: None,
            add_form: None,
            update_form: None,
            delete_confirm: None,
        }
    }

    /// The screen with the files of `v`; the selection stays within them.
    pub open spec fn refreshed(self, v: VaultModel) -> ScreenModel {
        match listing(v) {
            Ok(files) => ScreenModel {
                files,
                selected: if self.selected < files.len() {
                    self.selected
                } else if files.len() == 0 {
                    0
                } else {
                    files.len() - 1
                },
                ..self
            },
            Err(f) => ScreenModel {
                message: Some("Failed to list files: "@ + f.message()),
                ..self
            },
        }
    }

    /// After adding the file of the form came to `r` and made the vault `w`.
    pub open spec fn added(
        self,
        f: AddModel,
        w: VaultModel,
        r: core::result::Result<(), Fault>,
    ) -> ScreenModel {
        match r {
            Ok(_) => ScreenModel {
                add_form: None,
                message: Some(quoted("Added "@, text::trimmed(f.dest))),
                ..self.refreshed(w)
            },
            Err(fault) => ScreenModel {
                add_form: Some(AddModel { error: Some(fault.message()), ..f }),
                ..self
            },
        }
    }

    /// After replacing the content of `name` came to `r` and made the vault
    /// `w`.
    pub open spec fn updated(
        self,
        f: UpdateModel,
        name: Seq<char>,
        w: VaultModel,
        r: core::result::Result<(), Fault>,
    ) -> ScreenModel {
        match r {
            Ok(_) => ScreenModel {
                update_form: None,
                message: Some(quoted("Updated "@, name)),
                ..self.refreshed(w)
            },
            Err(fault) => ScreenModel {
                update_form: Some(UpdateModel { error: Some(fault.message()), ..f }),
                ..self
            },
        }
    }

    /// After deleting `name` came to `r` and made the vault `w`.
    pub open spec fn deleted(
        self,
        name: Seq<char>,
        w: VaultModel,
        r: core::result::Result<(), Fault>,
    ) -> ScreenModel {
        match r {
            Ok(_) => ScreenModel {
                delete_confirm: None,
                message: Some(quoted("Deleted "@, name)),
                ..self.refreshed(w)
            },
            Err(fault) => ScreenModel {
                delete_confirm: None,
                message: Some(fault.message()),
                ..self
            },
        }
    }
}

/// A word, and a name in quotes.
pub open spec fn quoted(word: Seq<char>, name: Seq<char>) -> Seq<char> {
    word + "\""@ + name + "\""@
}

/// A line for the application's log: what happened to which file of which
/// vault.
pub open spec fn logged(what: Seq<char>, vault: Seq<char>, file: Seq<char>) -> Seq<char> {
    quoted(what, vault) + ": "@ + file
}

fn quote(word: &str, name: &str) -> (r: String)
    ensures
        r@ == quoted(word@, name@),
{
    let mut out = text::concat(word, "\"");
    out.append(name);
    out.append("\"");
    out
}

fn log_line(what: &str, vault: &str, file: &str) -> (r: String)
    ensures
        r@ == logged(what@, vault@, file@),
{
    let mut out = quote(what, vault);
    out.append(": ");
    out.append(file);
    out
}

/// What the caller is to do after an operation: write these ranges to the
/// vault's file, and append this line to the application's log.
pub struct Effects {
    pub writes: Vec<(u64, Vec<u8>)>,
    pub log: Option<String>,
}

impl Effects {
    fn nothing() -> (r: Self)
        ensures
            vault::ranges_of(r.writes@) == Seq::<(u64, Seq<u8>)>::empty(),
            r.log is None,
    {
        let r = Effects { writes: Vec::new(), log: None };
        assert(vault::ranges_of(r.writes@) =~= Seq::empty());
        r
    }
}

impl UnlockedState {
    /// The vault behind the screen, and what its peers get.
    pub open spec fn book(&self) -> BookModel {
        BookModel {
            vault: self.vault@,
            journal: journal_of(self.serving),
            limit: limit_of(self.serving),
            unrecorded: vault::ranges_of(self.unrecorded@),
        }
    }

    /// The vault and its journal are well-formed.
    pub open spec fn wf(&self) -> bool {
        &&& self.vault.wf()
        &&& self.serving matches Some(s) ==> s.journal.wf()
    }

    /// The vault can be changed, if it was opened by its admin.
    pub open spec fn changeable(&self) -> bool {
        &&& self.wf()
        &&& self.vault@.admin is Some ==> self.vault@.header.writable()
            && self.vault@.header.chain_next_seq < u64::MAX
    }

    /// Names, session and port are the same.
    pub open spec fn same_place(&self, other: &UnlockedState) -> bool {
        &&& self.path == other.path
        &&& self.name == other.name
        &&& self.session == other.session
        &&& self.local_identity_bytes == other.local_identity_bytes
        &&& (self.serving is Some <==> other.serving is Some)
        &&& self.serving matches Some(s) ==> s.port == other.serving->Some_0.port
    }

    /// The vault as an operation left it, with what the operation wrote.
    pub open spec fn changed(&self, r: Effects) -> VaultModel {
        VaultModel { log: vault::ranges_of(r.writes@), ..self.vault@ }
    }

    /// A change was made and handed on: the files on the screen are those of the
    /// vault, no form is open any more, and the book is in step with the vault if
    /// it was before. A served vault's journal ends with the change.
    pub open spec fn handed_on(&self, before: UnlockedState) -> bool {
        let seq = before.vault@.header.chain_next_seq;
        &&& listing(self.vault@) == Ok::<Seq<FileModel>, Fault>(self.screen().files)
        &&& self.screen().files.len() > 0 ==> self.screen().has_selection()
        &&& self.vault@.log.len() == 0
        &&& self.book().limit == before.book().limit
        &&& forall|at: spec_fn(int) -> VaultModel, first: int|
            before.book().in_step(at, first) && replay::same_container(at(seq + 1), self.vault@)
                ==> #[trigger] self.book().in_step(at, before.book().first_after(first, seq))
        &&& self.book().journal matches Some(entries) ==> self.book().limit > 0 ==> entries.len()
            > 0 && entries.last().0 == seq
    }

    /// A change that succeeded is handed on.
    proof fn lemma_handed_on(before: UnlockedState, after: UnlockedState, w: VaultModel)
        requires
            before.wf(),
            after.wf(),
            w.healthy(),
            replay::keeps_lead(before.vault@, w),
            health::advances(before.vault@, w),
            after.book() == before.book().settled(w).recorded(before.vault@.header.chain_next_seq),
            after.screen().files == before.screen().refreshed(w).files,
            after.screen().selected == before.screen().refreshed(w).selected,
        ensures
            after.handed_on(before),
    {
        let b = before.book();
        let seq = before.vault@.header.chain_next_seq;
        crate::engine::sharing::lemma_live_list(w, w.header.max_files as int);
        lemma_listing_without_log(w, after.vault@);
        if b.journal is Some {
            before.serving->Some_0.journal.lemma_bounded();
            if b.limit > 0 {
                let all = b.journal->Some_0.push((seq, b.settled(w).unrecorded));
                assert(journal::last_of(all, b.limit as int).last() == all.last());
            }
        }
        assert forall|at: spec_fn(int) -> VaultModel, first: int|
            b.in_step(at, first) && replay::same_container(
                at(seq + 1),
                after.vault@,
            ) implies #[trigger] after.book().in_step(at, b.first_after(first, seq)) by {
            law_settling_keeps_step(b, w, at, first);
            law_recording_keeps_step(b.settled(w), at, first, seq);
        }
    }

    /// An unlocked vault, with its files listed.
    pub fn new(
        vault: Vault,
        path: String,
        name: String,
        local_identity_bytes: [u8; 64],
        session: Session<SystemClock>,
    ) -> (r: Self)
        requires
            vault.wf(),
        ensures
            r.wf(),
            r.vault == vault,
            r.path == path,
            r.name == name,
            r.session == session,
            r.serving is None,
            r.unrecorded@.len() == 0,
            r.local_identity_bytes == local_identity_bytes,
            r.screen() == ScreenModel::blank().refreshed(vault@),
    {
        let mut state = UnlockedState {
            vault,
            path,
            name,
            files: Vec::new(),
            selected: 0,
            session,
            message: None,
            add_form: None,
            update_form: None,
            delete_confirm: None,
            serving: None,
            unrecorded: Vec::new(),
            local_identity_bytes,
        };
        assert(files_of(state.files@) =~= Seq::empty());
        state.refresh_files();
        state
    }

    /// Lists the files again.
    pub fn refresh_files(&mut self)
        requires
            old(self).wf(),
        ensures
            final(self).wf(),
            final(self).same_vault(old(self)),
            final(self).session == old(self).session,
            final(self).screen() == old(self).screen().refreshed(old(self).vault@),
    {
        match self.vault.list_files() {
            Ok(files) => {
                proof {
                    let v = self.vault@;
                    let entries = v.live_entries(v.header.max_files as int)->Ok_0;
                    assert(vault::infos_match(files@, entries));
                    assert(files_of(files@) =~= listing(v)->Ok_0) by {
                        assert forall|i: int| 0 <= i < files@.len() implies #[trigger] files_of(
                            files@,
                        )[i] == listing(v)->Ok_0[i] by {
                            assert(vault::info_matches(files@[i], entries[i].1));
                        }
                    }
                }
                self.files = files;
                if self.selected >= self.files.len() {
                    self.selected = if self.files.len() == 0 {
                        0
                    } else {
                        self.files.len() - 1
                    };
                }
            },
            Err(e) => {
                self.message = Some(
                    text::concat("Failed to list files: ", e.message().as_str()),
                );
            },
        }
    }

    /// Takes what the vault logged: it is to be written to the file, and
    /// remembered for the next patch.
    pub(crate) fn settle(&mut self) -> (r: Vec<(u64, Vec<u8>)>)
        requires
            old(self).wf(),
        ensures
            final(self).wf(),
            final(self).same_place(old(self)),
            final(self).screen() == old(self).screen(),
            final(self).book() == old(self).book().settled(old(self).vault@),
            vault::ranges_of(r@) == old(self).vault@.log,
    {
        let writes = self.vault.take_change_log();
        journal::append_ranges(&mut self.unrecorded, &writes);
        writes
    }

    /// The same after the content was sealed under another key: no patch leads
    /// across that.
    pub(crate) fn settle_rotation(&mut self) -> (r: Vec<(u64, Vec<u8>)>)
        requires
            old(self).wf(),
        ensures
            final(self).wf(),
            final(self).same_place(old(self)),
            final(self).screen() == old(self).screen(),
            final(self).book() == old(self).book().rotated(old(self).vault@),
            vault::ranges_of(r@) == old(self).vault@.log,
    {
        let writes = self.settle();
        if writes.len() > 0 {
            self.unrecorded = Vec::new();
            assert(vault::ranges_of(self.unrecorded@) =~= Seq::empty());
            let mut serving = self.serving.take();
            match &mut serving {
                Some(s) => {
                    s.journal.forget();
                },
                None => {},
            }
            self.serving = serving;
        }
        writes
    }

    /// Records what was written since the last patch, if the vault is served.
    fn record_patch_if_serving(&mut self, seq_before: u64)
        requires
            old(self).wf(),
        ensures
            final(self).wf(),
            final(self).same_place(old(self)),
            final(self).screen() == old(self).screen(),
            final(self).book() == old(self).book().recorded(seq_before),
    {
        let mut serving = self.serving.take();
        match &mut serving {
            Some(s) => {
                let mut ranges: Vec<(u64, Vec<u8>)> = Vec::new();
                core::mem::swap(&mut ranges, &mut self.unrecorded);
                assert(vault::ranges_of(self.unrecorded@) =~= Seq::empty());
                s.journal.record(seq_before, ranges);
            },
            None => {},
        }
        self.serving = serving;
    }

    /// Adds the file of the open form, given what reading its source came to.
    pub fn submit_add(&mut self, data: core::result::Result<Vec<u8>, String>) -> (r: Effects)
        requires
            old(self).changeable(),
            data matches Ok(d) ==> old(self).vault@.admin is Some ==> old(self).vault@.can_store(
                d@.len() as int,
            ),
        ensures
            final(self).wf(),
            final(self).same_place(old(self)),
            match (old(self).screen().add_form, data) {
                (None, _) => final(self).screen() == old(self).screen() && final(self).book()
                    == old(self).book() && vault::ranges_of(r.writes@) == Seq::<
                    (u64, Seq<u8>),
                >::empty() && r.log is None,
                (Some(f), Err(e)) => final(self).book() == old(self).book() && vault::ranges_of(
                    r.writes@,
                ) == Seq::<(u64, Seq<u8>)>::empty() && r.log is None && final(self).screen() == (
                ScreenModel {
                    add_form: Some(
                        AddModel { error: Some("Could not read source file: "@ + e@), ..f },
                    ),
                    ..old(self).screen()
                }),
                (Some(f), Ok(d)) => exists|id: u128, at: i64, chained_at: i64|
                    {
                        let (w, res) = #[trigger] old(self).vault@.adding(
                            text::trimmed(f.dest),
                            d@,
                            id,
                            at,
                            chained_at,
                        );
                        &&& readings::issued(id)
                        &&& readings::clock_showed(at)
                        &&& readings::clock_showed(chained_at)
                        &&& old(self).vault@.healthy() && r.log is Some ==> vault::added_when(
                            old(self).vault@,
                            final(self).changed(r),
                            text::trimmed(f.dest),
                            d@,
                            id,
                            at,
                            chained_at,
                        )
                        &&& final(self).screen() == old(self).screen().added(f, w, res)
                        &&& vault::ranges_of(r.writes@) == w.log
                        &&& final(self).book() == (if res is Ok {
                            old(self).book().settled(w).recorded(
                                old(self).vault@.header.chain_next_seq,
                            )
                        } else {
                            old(self).book().settled(w)
                        })
                        &&& text::opt_text(r.log) == (if res is Ok {
                            Some(
                                logged(
                                    "file added to vault "@,
                                    old(self).name@,
                                    text::trimmed(f.dest),
                                ),
                            )
                        } else {
                            None
                        })
                    },
            },
            old(self).vault@.healthy() ==> (match (old(self).screen().add_form, data) {
                (Some(f), Ok(d)) => if laws::addable(
                    old(self).vault@,
                    text::trimmed(f.dest),
                    d@,
                ) {
                    &&& laws::added(
                        old(self).vault@,
                        final(self).changed(r),
                        text::trimmed(f.dest),
                        d@,
                    )
                    &&& final(self).handed_on(*old(self))
                    &&& final(self).screen().add_form is None
                    &&& r.log is Some
                } else {
                    &&& final(self).vault@.image == old(self).vault@.image
                    &&& final(self).book().journal == old(self).book().journal
                    &&& final(self).screen().files == old(self).screen().files
                    &&& final(self).screen().add_form matches Some(g) && g.error is Some && g.source
                        == f.source && g.dest == f.dest
                    &&& r.log is None
                },
                _ => final(self).book() == old(self).book(),
            }),
    {
        let mut form = match self.add_form.take() {
            Some(f) => f,
            None => {
                return Effects::nothing();
            },
        };
        let data = match data {
            Ok(d) => d,
            Err(e) => {
                form.error = Some(text::concat("Could not read source file: ", e.as_str()));
                self.add_form = Some(form);
                return Effects::nothing();
            },
        };
        let dest = text::trim(form.dest_name.as_str()).to_owned();
        let ghost v = self.vault@;
        let (seq_before, _) = self.vault.chain_state();
        let result = self.vault.add_file(dest.as_str(), data.as_slice());
        let ghost w = self.vault@;
        let writes = self.settle();
        assert(listing(w) == listing(self.vault@)) by {
            lemma_listing_without_log(w, self.vault@);
        }
        match result {
            Ok(()) => {
                self.record_patch_if_serving(seq_before);
                self.refresh_files();
                let log = log_line("file added to vault ", self.name.as_str(), dest.as_str());
                self.message = Some(quote("Added ", dest.as_str()));
                let effects = Effects { writes, log: Some(log) };
                proof {
                    if v.healthy() {
                        assert(self.changed(effects) == w);
                        UnlockedState::lemma_handed_on(*old(self), *self, w);
                    }
                }
                effects
            },
            Err(e) => {
                form.error = Some(e.message());
                self.add_form = Some(form);
                Effects { writes, log: None }
            },
        }
    }
}

impl UnlockedState {
    /// Replaces the content of the selected file, given what reading the source
    /// came to.
    pub fn submit_update(&mut self, data: core::result::Result<Vec<u8>, String>) -> (r: Effects)
        requires
            old(self).changeable(),
            data matches Ok(d) ==> old(self).vault@.admin is Some ==> old(self).vault@.can_store(
                d@.len() as int,
            ),
        ensures
            final(self).wf(),
            final(self).same_place(old(self)),
            match (old(self).screen().update_form, data) {
                (None, _) => final(self).screen() == old(self).screen() && final(self).book()
                    == old(self).book() && vault::ranges_of(r.writes@) == Seq::<
                    (u64, Seq<u8>),
                >::empty() && r.log is None,
                (Some(f), data) => if !old(self).screen().has_selection() {
                    &&& final(self).screen() == (ScreenModel {
                        update_form: None,
                        ..old(self).screen()
                    })
                    &&& final(self).book() == old(self).book()
                    &&& vault::ranges_of(r.writes@) == Seq::<(u64, Seq<u8>)>::empty()
                    &&& r.log is None
                } else {
                    match data {
                        Err(e) => final(self).book() == old(self).book() && vault::ranges_of(
                            r.writes@,
                        ) == Seq::<(u64, Seq<u8>)>::empty() && r.log is None
                            && final(self).screen() == (ScreenModel {
                            update_form: Some(
                                UpdateModel {
                                    error: Some("Could not read source file: "@ + e@),
                                    ..f
                                },
                            ),
                            ..old(self).screen()
                        }),
                        Ok(d) => {
                            let name = old(self).screen().files[old(self).selected as int].name;
                            exists|id: u128, at: i64, chained_at: i64|
                            {
                                let (w, res) = #[trigger] old(self).vault@.updating(
                                    name,
                                    d@,
                                    id,
                                    at,
                                    chained_at,
                                );
                                &&& readings::issued(id)
                                &&& readings::clock_showed(at)
                                &&& readings::clock_showed(chained_at)
                                &&& old(self).vault@.healthy() && r.log is Some ==> laws::updated(
                                    old(self).vault@,
                                    final(self).changed(r),
                                    name,
                                    d@,
                                    id,
                                ) && vault::updated_when(
                                    old(self).vault@,
                                    final(self).changed(r),
                                    name,
                                    d@,
                                    id,
                                    at,
                                    chained_at,
                                )
                                &&& final(self).screen() == old(self).screen().updated(
                                    f,
                                    name,
                                    w,
                                    res,
                                )
                                &&& vault::ranges_of(r.writes@) == w.log
                                &&& final(self).book() == (if res is Ok {
                                    old(self).book().settled(w).recorded(
                                        old(self).vault@.header.chain_next_seq,
                                    )
                                } else {
                                    old(self).book().settled(w)
                                })
                                &&& text::opt_text(r.log) == (if res is Ok {
                                    Some(logged("file updated in vault "@, old(self).name@, name))
                                } else {
                                    None
                                })
                            }
                        },
                    }
                },
            },
            old(self).vault@.healthy() ==> (match (old(self).screen().update_form, data) {
                (Some(f), Ok(d)) => if old(self).screen().has_selection() && laws::updatable(
                    old(self).vault@,
                    old(self).files@[old(self).selected as int].name@,
                    d@,
                ) {
                    &&& final(self).changed(r).file(
                        old(self).files@[old(self).selected as int].name@,
                    ) == Ok::<Seq<u8>, Fault>(d@)
                    &&& final(self).handed_on(*old(self))
                    &&& final(self).screen().update_form is None
                    &&& r.log is Some
                } else {
                    &&& final(self).vault@.image == old(self).vault@.image
                    &&& final(self).book().journal == old(self).book().journal
                    &&& final(self).screen().files == old(self).screen().files
                    &&& r.log is None
                },
                _ => final(self).book() == old(self).book(),
            }),
    {
        let mut form = match self.update_form.take() {
            Some(f) => f,
            None => {
                return Effects::nothing();
            },
        };
        let name = match self.selected_name() {
            Some(n) => n,
            None => {
                return Effects::nothing();
            },
        };
        let data = match data {
            Ok(d) => d,
            Err(e) => {
                form.error = Some(text::concat("Could not read source file: ", e.as_str()));
                self.update_form = Some(form);
                return Effects::nothing();
            },
        };
        let (seq_before, _) = self.vault.chain_state();
        let ghost v = self.vault@;
        let result = self.vault.update_file(name.as_str(), data.as_slice());
        let ghost w = self.vault@;
        let writes = self.settle();
        assert(listing(w) == listing(self.vault@)) by {
            lemma_listing_without_log(w, self.vault@);
        }
        match result {
            Ok(()) => {
                self.record_patch_if_serving(seq_before);
                self.refresh_files();
                let log = log_line("file updated in vault ", self.name.as_str(), name.as_str());
                self.message = Some(quote("Updated ", name.as_str()));
                let effects = Effects { writes, log: Some(log) };
                proof {
                    if v.healthy() {
                        assert(self.changed(effects) == w);
                        UnlockedState::lemma_handed_on(*old(self), *self, w);
                    }
                }
                effects
            },
            Err(e) => {
                form.error = Some(e.message());
                self.update_form = Some(form);
                Effects { writes, log: None }
            },
        }
    }

    /// Whether `self` and the effects `r` are what deleting `name` at the moment `chained_at`
    /// makes of the state `before`.
    pub open spec fn is_after_deletion(
        self,
        before: Self,
        r: Effects,
        name: Seq<char>,
        chained_at: i64,
    ) -> bool {
        let (w, res) = before.vault@.deleting(name, chained_at);
        &&& self.screen() == before.screen().deleted(name, w, res)
        &&& vault::ranges_of(r.writes@) == w.log
        &&& self.book() == (if res is Ok {
            before.book().settled(w).recorded(before.vault@.header.chain_next_seq)
        } else {
            before.book().settled(w)
        })
        &&& text::opt_text(r.log) == (if res is Ok {
            Some(logged("file deleted from vault "@, before.name@, name))
        } else {
            None
        })
    }

    /// Deletes the file whose deletion was to be confirmed.
    pub fn confirm_delete(&mut self) -> (r: Effects)
        requires
            old(self).changeable(),
        ensures
            final(self).wf(),
            final(self).same_place(old(self)),
            old(self).screen().delete_confirm is None ==> {
                &&& final(self).screen() == old(self).screen()
                &&& final(self).book() == old(self).book()
                &&& vault::ranges_of(r.writes@) == Seq::<(u64, Seq<u8>)>::empty()
                &&& r.log is None
            },
            old(self).screen().delete_confirm is Some ==> exists|chained_at: i64| #[trigger]
                final(self).is_after_deletion(
                    *old(self),
                    r,
                    old(self).screen().delete_confirm->0,
                    chained_at,
                ) && readings::clock_showed(chained_at),
            old(self).vault@.healthy() ==> (match old(self).screen().delete_confirm {
                Some(name) => if laws::deletable(old(self).vault@, name) {
                    &&& laws::deleted(old(self).vault@, final(self).changed(r), name)
                    &&& final(self).handed_on(*old(self))
                    &&& r.log is Some
                } else {
                    &&& final(self).vault@.image == old(self).vault@.image
                    &&& final(self).book().journal == old(self).book().journal
                    &&& final(self).screen().files == old(self).screen().files
                    &&& r.log is None
                },
                None => final(self).book() == old(self).book(),
            }),
            final(self).screen().delete_confirm is None,
    {
        let name = match self.delete_confirm.take() {
            Some(n) => n,
            None => {
                return Effects::nothing();
            },
        };
        let (seq_before, _) = self.vault.chain_state();
        let ghost v = self.vault@;
        let result = self.vault.delete_file(name.as_str());
        let ghost w = self.vault@;
        let ghost res = error::outcome(result);
        let ghost chained_at = choose|c: i64| #[trigger]
            v.deleting(name@, c) == (w, res) && readings::clock_showed(c);
        let writes = self.settle();
        assert(listing(w) == listing(self.vault@)) by {
            lemma_listing_without_log(w, self.vault@);
        }
        let effects = match result {
            Ok(()) => {
                self.record_patch_if_serving(seq_before);
                self.refresh_files();
                let log = log_line("file deleted from vault ", self.name.as_str(), name.as_str());
                self.message = Some(quote("Deleted ", name.as_str()));
                Effects { writes, log: Some(log) }
            },
            Err(e) => {
                self.message = Some(e.message());
                Effects { writes, log: None }
            },
        };
        assert(self.screen() =~= old(self).screen().deleted(name@, w, res));
        proof {
            if v.healthy() && res is Ok {
                assert(self.changed(effects) == w);
                UnlockedState::lemma_handed_on(*old(self), *self, w);
            }
        }
        assert(old(self).screen().delete_confirm == Some(name@));
        assert(self.is_after_deletion(
            *old(self),
            effects,
            old(self).screen().delete_confirm->0,
            chained_at,
        ));
        effects
    }

    /// Checks the vault and says what came of it.
    pub fn verify(&mut self)
        requires
            old(self).wf(),
            old(self).vault@.header.legible(),
            old(self).vault@.header.max_chain_records > 0,
        ensures
            final(self).wf(),
            final(self).same_vault(old(self)),
            final(self).session == old(self).session,
            final(self).screen() == (ScreenModel {
                message: Some(
                    match old(self).vault@.integrity() {
                        Ok(_) => "Integrity check passed."@,
                        Err(f) => "Integrity check FAILED: "@ + f.message(),
                    },
                ),
                ..old(self).screen()
            }),
    {
        match self.vault.verify_integrity() {
            Ok(()) => {
                self.message = Some("Integrity check passed.".to_owned());
            },
            Err(e) => {
                self.message = Some(
                    text::concat("Integrity check FAILED: ", e.message().as_str()),
                );
            },
        }
    }
}

/// What is listed does not depend on the log.
proof fn lemma_listing_without_log(v: VaultModel, w: VaultModel)
    requires
        w == (VaultModel { log: w.log, ..v }),
    ensures
        listing(v) == listing(w),
{
    lemma_entries_without_log(v, w, v.header.max_files as int);
}

proof fn lemma_entries_without_log(v: VaultModel, w: VaultModel, n: int)
    requires
        w == (VaultModel { log: w.log, ..v }),
    ensures
        v.live_entries(n) == w.live_entries(n),
    decreases n,
{
    reveal(VaultModel::slot);
    if n > 0 {
        lemma_entries_without_log(v, w, n - 1);
    }
}

/// After the content was sealed under another key, peers that are behind get the
/// whole container: nothing is left in the journal, and the book is in step from
/// there on.
pub proof fn law_rotation_starts_afresh(
    b: BookModel,
    w: VaultModel,
    at: spec_fn(int) -> VaultModel,
    first: int,
)
    requires
        b.in_step(at, first),
        b.vault.stored(),
        w.stored(),
        replay::keeps_lead(b.vault, w),
        health::advances(b.vault, w),
        replay::same_container(at(b.vault.header.chain_next_seq + 1), w),
    ensures
        b.rotated(w).in_step(at, b.vault.header.chain_next_seq + 1),
        b.rotated(w).journal matches Some(entries) ==> entries.len() == 0,
{
    lemma_change_is_logged(b.vault, w);
    let c = b.rotated(w);
    let next = w.header.chain_next_seq as int;
    assert forall|t: int| next <= t <= next implies replay::leads(
        #[trigger] at(t),
        c.unrecorded,
        c.vault,
    ) by {
        replay::law_replica_starts_lead(c.vault, at(t));
    }
}

/// A change of the chain is logged.
pub(crate) proof fn lemma_change_is_logged(v: VaultModel, w: VaultModel)
    requires
        v.log.len() == 0,
        v.stored(),
        w.stored(),
        replay::keeps_lead(v, w),
        health::advances(v, w),
    ensures
        w.log.len() > 0,
{
    replay::law_change_leads(v, w);
    if w.log.len() == 0 {
        assert(w.image == v.image);
        assert(v.header.encoded() == w.header.encoded());
        crate::engine::format::law_header_round_trip(v.header);
        crate::engine::format::law_header_round_trip(w.header);
    }
}

} // verus!
