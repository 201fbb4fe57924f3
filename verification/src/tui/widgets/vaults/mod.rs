//! The Vaults tab: the vaults that were found, and what is done with them.
//!
//! A key press changes the state at once. Whatever it needs from outside (the
//! contents of a file, a scan of the directory) is returned as a [`Request`];
//! its result is handed back through the function that the request names.

pub mod create;
pub mod join;
pub mod naming;
pub mod unlock;
pub mod unlocked;

use vstd::prelude::*;

use crate::engine::error::VaultError;
use crate::engine::identity::Identity;
use crate::engine::session::{Clock, Instant, Session, SystemClock};
use crate::engine::text;
use crate::engine::vault::Vault;
use crate::tui::key::KeyCode;

use create::{CreateForm, CreateOutcome};
use naming::{ListingModel, VaultListing};
use unlock::{UnlockForm, UnlockOutcome};
use unlocked::{Outcome, OutcomeModel, ScreenModel, UnlockedState};

verus! {

/// What the tab is doing.
pub enum Mode {
    Browsing,
    Creating(CreateForm),
    /// The prompt, the vault's file, and its name.
    Unlocking(UnlockForm, String, String),
    Unlocked(UnlockedState),
}

/// The Vaults tab.
pub struct App {
    pub vaults_dir: String,
    pub listing: Vec<VaultListing>,
    pub selected: usize,
    pub mode: Mode,
    /// This device's identity. A new vault gets it as its admin.
    pub identity: Identity,
}

/// What the tab is doing, as a mathematical value.
#[verifier::ext_equal]
pub enum ModeModel {
    Browsing,
    Creating(create::FormModel),
    Unlocking(unlock::FormModel, Seq<char>, Seq<char>),
    Unlocked(Seq<char>, ScreenModel),
}

/// The tab as a mathematical value.
#[verifier::ext_equal]
pub struct TabModel {
    pub listing: Seq<ListingModel>,
    pub selected: int,
    pub mode: ModeModel,
}

impl View for Mode {
    type V = ModeModel;

    open spec fn view(&self) -> ModeModel {
        match self {
            Mode::Browsing => ModeModel::Browsing,
            Mode::Creating(f) => ModeModel::Creating(f@),
            Mode::Unlocking(f, path, name) => ModeModel::Unlocking(f@, path@, name@),
            Mode::Unlocked(s) => ModeModel::Unlocked(s.name@, s.screen()),
        }
    }
}

/// What a key press asks for.
#[derive(Debug, Clone)]
pub enum Request {
    Nothing,
    /// Look for vaults again, then [`App::refresh`].
    Refresh,
    /// Append this line to the application's log; then as [`Request::Refresh`].
    Locked(String),
    /// Make the vault that the form asks for ([`CreateForm::found`]), write it,
    /// then [`App::finish_create`].
    Create,
    /// Open the vault in this file with this password, then
    /// [`App::finish_unlock`].
    Unlock(String, String),
    /// What the unlocked vault asks for.
    File(Outcome),
}

/// What a key press asks for, as a mathematical value.
pub enum RequestModel {
    Nothing,
    Refresh,
    Locked(Seq<char>),
    Create,
    Unlock(Seq<char>, Seq<char>),
    File(OutcomeModel),
}

impl View for Request {
    type V = RequestModel;

    open spec fn view(&self) -> RequestModel {
        match self {
            Request::Nothing => RequestModel::Nothing,
            Request::Refresh => RequestModel::Refresh,
            Request::Locked(line) => RequestModel::Locked(line@),
            Request::Create => RequestModel::Create,
            Request::Unlock(path, password) => RequestModel::Unlock(path@, password@),
            Request::File(o) => RequestModel::File(o@),
        }
    }
}

impl TabModel {
    /// The tab in another mode.
    pub open spec fn doing(self, mode: ModeModel) -> TabModel {
        TabModel { mode, ..self }
    }

    /// What a key does while vaults are browsed.
    pub open spec fn pressed_browsing(self, key: KeyCode) -> (TabModel, RequestModel) {
        let n = self.listing.len() as int;
        match key {
            KeyCode::Char(c) => if c == '+' {
                (
                    self.doing(ModeModel::Creating(create::FormModel::blank())),
                    RequestModel::Nothing,
                )
            } else {
                (self, RequestModel::Refresh)
            },
            KeyCode::Up => (
                TabModel {
                    selected: if self.selected > 0 {
                        self.selected - 1
                    } else {
                        0
                    },
                    ..self
                },
                RequestModel::Refresh,
            ),
            KeyCode::Down => (
                TabModel {
                    selected: if self.selected + 1 < n {
                        self.selected + 1
                    } else {
                        self.selected
                    },
                    ..self
                },
                RequestModel::Refresh,
            ),
            KeyCode::Enter => if 0 <= self.selected < n {
                (
                    self.doing(
                        ModeModel::Unlocking(
                            unlock::FormModel::blank(),
                            self.listing[self.selected].path,
                            self.listing[self.selected].name,
                        ),
                    ),
                    RequestModel::Nothing,
                )
            } else {
                (self, RequestModel::Refresh)
            },
            _ => (self, RequestModel::Refresh),
        }
    }

    /// What a key does.
    pub open spec fn pressed(self, key: KeyCode) -> (TabModel, RequestModel) {
        match self.mode {
            ModeModel::Browsing => self.pressed_browsing(key),
            ModeModel::Creating(form) => {
                let (form, outcome) = form.pressed(key);
                match outcome {
                    None => (self.doing(ModeModel::Creating(form)), RequestModel::Nothing),
                    Some(CreateOutcome::Cancel) => (
                        self.doing(ModeModel::Browsing),
                        RequestModel::Refresh,
                    ),
                    Some(CreateOutcome::Submit) => (
                        self.doing(ModeModel::Creating(form)),
                        RequestModel::Create,
                    ),
                }
            },
            ModeModel::Unlocking(form, path, name) => {
                let (form, outcome) = form.pressed(key);
                match outcome {
                    None => (
                        self.doing(ModeModel::Unlocking(form, path, name)),
                        RequestModel::Nothing,
                    ),
                    Some(UnlockOutcome::Cancel) => (
                        self.doing(ModeModel::Browsing),
                        RequestModel::Refresh,
                    ),
                    Some(UnlockOutcome::Submit) => (
                        self.doing(ModeModel::Unlocking(form, path, name)),
                        RequestModel::Unlock(path, form.password),
                    ),
                }
            },
            ModeModel::Unlocked(name, screen) => {
                let (screen, outcome) = screen.pressed(key);
                match outcome {
                    OutcomeModel::Lock => (
                        self.doing(ModeModel::Browsing),
                        RequestModel::Locked("vault locked: "@ + name),
                    ),
                    OutcomeModel::Continue => (
                        self.doing(ModeModel::Unlocked(name, screen)),
                        RequestModel::Nothing,
                    ),
                    _ => (
                        self.doing(ModeModel::Unlocked(name, screen)),
                        RequestModel::File(outcome),
                    ),
                }
            },
        }
    }

    /// The tab with these vaults, in order; the selection stays within them.
    pub open spec fn refreshed(self, found: Seq<ListingModel>) -> TabModel {
        let listing = naming::sorted(found, 0);
        TabModel {
            listing,
            selected: if self.selected < listing.len() {
                self.selected
            } else if listing.len() == 0 {
                0
            } else {
                listing.len() - 1
            },
            ..self
        }
    }
}

/// The line that is logged when a vault locks itself.
pub open spec fn auto_locked(name: Seq<char>) -> Seq<char> {
    "vault auto-locked after inactivity: "@ + name
}

impl App {
    /// What the tab shows.
    pub open spec fn tab(&self) -> TabModel {
        TabModel {
            listing: naming::listings_of(self.listing@),
            selected: self.selected as int,
            mode: self.mode@,
        }
    }

    /// An unlocked vault is well-formed.
    pub open spec fn wf(&self) -> bool {
        self.mode matches Mode::Unlocked(s) ==> s.wf()
    }

    /// Directory and identity are the same.
    pub open spec fn same_device(&self, other: &App) -> bool {
        self.vaults_dir == other.vaults_dir && self.identity == other.identity
    }

    /// The tab for this directory, in which these vaults were found.
    pub fn new_with_dir(vaults_dir: String, found: Vec<VaultListing>, identity: Identity) -> (r: Self)
        ensures
            r.wf(),
            r.vaults_dir == vaults_dir,
            r.identity == identity,
            r.tab() == (TabModel {
                listing: naming::sorted(naming::listings_of(found@), 0),
                selected: 0,
                mode: ModeModel::Browsing,
            }),
    {
        App {
            vaults_dir,
            listing: naming::sort_listing(found),
            selected: 0,
            mode: Mode::Browsing,
            identity,
        }
    }

    /// Shows the vaults that were found now.
    pub fn refresh(&mut self, found: Vec<VaultListing>)
        ensures
            final(self).same_device(old(self)),
            final(self).mode == old(self).mode,
            final(self).tab() == old(self).tab().refreshed(naming::listings_of(found@)),
    {
        self.listing = naming::sort_listing(found);
        if self.selected >= self.listing.len() {
            self.selected = if self.listing.len() == 0 {
                0
            } else {
                self.listing.len() - 1
            };
        }
    }

    pub fn vaults_dir(&self) -> (r: &str)
        ensures
            r@ == self.vaults_dir@,
    {
        self.vaults_dir.as_str()
    }

    /// The keys of this device's identity.
    pub fn identity_bytes(&self) -> (r: [u8; 64])
        ensures
            r@ == self.identity@.signing + self.identity@.encryption,
    {
        self.identity.to_bytes()
    }

    /// Whether `q` and Esc mean something here, other than leaving the
    /// application.
    pub fn intercepts_quit(&self) -> (r: bool)
        ensures
            r <==> !(self.tab().mode is Browsing),
    {
        match &self.mode {
            Mode::Browsing => false,
            _ => true,
        }
    }

    /// Whether Tab means something here, other than going to the next tab.
    pub fn blocks_tab_switch(&self) -> (r: bool)
        ensures
            r == (match self.tab().mode {
                ModeModel::Browsing => false,
                ModeModel::Unlocked(_, screen) => screen.add_form is Some,
                _ => true,
            }),
    {
        match &self.mode {
            Mode::Browsing => false,
            Mode::Unlocked(state) => state.add_form.is_some(),
            _ => true,
        }
    }

    /// Opens the form for a new vault.
    pub fn create(&mut self)
        ensures
            final(self).wf(),
            final(self).same_device(old(self)),
            final(self).tab() == old(self).tab().doing(
                ModeModel::Creating(create::FormModel::blank()),
            ),
    {
        self.mode = Mode::Creating(CreateForm::default());
    }

    fn browse(&mut self, key: KeyCode) -> (r: Request)
        requires
            old(self).mode is Browsing,
        ensures
            final(self).wf(),
            final(self).same_device(old(self)),
            (final(self).tab(), r@) == old(self).tab().pressed_browsing(key),
    {
        match key {
            KeyCode::Char('+') => {
                self.create();
                return Request::Nothing;
            },
            KeyCode::Up => {
                if self.selected > 0 {
                    self.selected = self.selected - 1;
                }
            },
            KeyCode::Down => {
                if self.selected < self.listing.len() && self.selected + 1 < self.listing.len() {
                    self.selected = self.selected + 1;
                }
            },
            KeyCode::Enter => {
                if self.selected < self.listing.len() {
                    let path = self.listing[self.selected].path.clone();
                    let name = self.listing[self.selected].name.clone();
                    self.mode = Mode::Unlocking(UnlockForm::default(), path, name);
                    return Request::Nothing;
                }
            },
            _ => {},
        }
        Request::Refresh
    }

    /// Handles one key press.
    pub fn handle_key(&mut self, key: KeyCode) -> (r: Request)
        requires
            old(self).wf(),
        ensures
            final(self).wf(),
            final(self).same_device(old(self)),
            (final(self).tab(), r@) == old(self).tab().pressed(key),
            (old(self).mode, final(self).mode) matches (Mode::Unlocked(s), Mode::Unlocked(t))
                ==> t.same_vault(&s) && t.session.clock == s.session.clock && t.session.timeout
                == s.session.timeout && s.session.clock.shows(t.session.last_activity),
    {
        let mut mode = Mode::Browsing;
        core::mem::swap(&mut mode, &mut self.mode);
        match mode {
            Mode::Browsing => self.browse(key),
            Mode::Creating(form) => {
                let mut form = form;
                match create::handle_key(&mut form, key) {
                    Some(CreateOutcome::Cancel) => Request::Refresh,
                    Some(CreateOutcome::Submit) => {
                        self.mode = Mode::Creating(form);
                        Request::Create
                    },
                    None => {
                        self.mode = Mode::Creating(form);
                        Request::Nothing
                    },
                }
            },
            Mode::Unlocking(form, path, name) => {
                let mut form = form;
                match unlock::handle_key(&mut form, key) {
                    Some(UnlockOutcome::Cancel) => Request::Refresh,
                    Some(UnlockOutcome::Submit) => {
                        let request = Request::Unlock(path.clone(), form.password.clone());
                        self.mode = Mode::Unlocking(form, path, name);
                        request
                    },
                    None => {
                        self.mode = Mode::Unlocking(form, path, name);
                        Request::Nothing
                    },
                }
            },
            Mode::Unlocked(state) => {
                let mut state = state;
                let now = state.session.clock.now();
                match unlocked::handle_key(&mut state, key, now) {
                    Outcome::Lock => Request::Locked(
                        text::concat("vault locked: ", state.name.as_str()),
                    ),
                    Outcome::Continue => {
                        self.mode = Mode::Unlocked(state);
                        Request::Nothing
                    },
                    outcome => {
                        self.mode = Mode::Unlocked(state);
                        Request::File(outcome)
                    },
                }
            },
        }
    }

    /// Says what came of making the vault that the form asks for. Returns the
    /// line to log.
    pub fn finish_create(&mut self, result: core::result::Result<(), String>) -> (r: Option<String>)
        requires
            old(self).wf(),
        ensures
            final(self).wf(),
            final(self).same_device(old(self)),
            match (old(self).tab().mode, result) {
                (ModeModel::Creating(_), Ok(_)) => final(self).tab() == old(self).tab().doing(
                    ModeModel::Browsing,
                ),
                (ModeModel::Creating(form), Err(e)) => final(self).tab() == old(self).tab().doing(
                    ModeModel::Creating(create::FormModel { error: Some(e@), ..form }),
                ),
                _ => final(self).mode == old(self).mode && final(self).tab() == old(self).tab(),
            },
            text::opt_text(r) == (match (old(self).tab().mode, result) {
                (ModeModel::Creating(form), Ok(_)) => Some(
                    "vault created: "@ + text::trimmed(form.name),
                ),
                _ => None,
            }),
    {
        let mut mode = Mode::Browsing;
        core::mem::swap(&mut mode, &mut self.mode);
        match mode {
            Mode::Creating(form) => match result {
                Ok(()) => Some(text::concat("vault created: ", text::trim(form.name.as_str()))),
                Err(e) => {
                    let mut form = form;
                    form.error = Some(e);
                    self.mode = Mode::Creating(form);
                    None
                },
            },
            other => {
                self.mode = other;
                None
            },
        }
    }

    /// Says what came of opening the vault that was to be unlocked. Returns the
    /// line to log.
    pub fn finish_unlock(
        &mut self,
        opened: core::result::Result<Vault, VaultError>,
        session: Session<SystemClock>,
    ) -> (r: Option<String>)
        requires
            old(self).wf(),
            opened matches Ok(v) ==> v.wf(),
        ensures
            final(self).wf(),
            final(self).same_device(old(self)),
            final(self).listing == old(self).listing,
            final(self).selected == old(self).selected,
            match (old(self).tab().mode, opened) {
                (ModeModel::Unlocking(_, path, name), Ok(v)) => final(self).mode matches Mode::Unlocked(
                    s,
                ) && s.vault == v && s.path@ == path && s.name@ == name && s.session == session
                    && s.serving is None && s.unrecorded@.len() == 0 && s.local_identity_bytes@
                    == old(self).identity@.signing + old(self).identity@.encryption && s.screen()
                    == ScreenModel::blank().refreshed(v@),
                (ModeModel::Unlocking(form, path, name), Err(e)) => final(self).tab().mode
                    == ModeModel::Unlocking(
                    if e@ is IncorrectPassword {
                        unlock::FormModel {
                            password: Seq::empty(),
                            error: Some("Incorrect password"@),
                        }
                    } else {
                        unlock::FormModel { error: Some(e@.message()), ..form }
                    },
                    path,
                    name,
                ),
                _ => final(self).mode == old(self).mode,
            },
            text::opt_text(r) == (match (old(self).tab().mode, opened) {
                (ModeModel::Unlocking(_, _, name), Ok(_)) => Some("vault unlocked: "@ + name),
                _ => None,
            }),
    {
        let mut mode = Mode::Browsing;
        core::mem::swap(&mut mode, &mut self.mode);
        match mode {
            Mode::Unlocking(form, path, name) => match opened {
                Ok(vault) => {
                    let line = text::concat("vault unlocked: ", name.as_str());
                    let bytes = self.identity.to_bytes();
                    self.mode = Mode::Unlocked(
                        UnlockedState::new(vault, path, name, bytes, session),
                    );
                    Some(line)
                },
                Err(e) => {
                    let mut form = form;
                    match e {
                        VaultError::IncorrectPassword => {
                            form.password = String::new();
                            form.error = Some("Incorrect password".to_owned());
                        },
                        e => {
                            form.error = Some(e.message());
                        },
                    }
                    self.mode = Mode::Unlocking(form, path, name);
                    None
                },
            },
            other => {
                self.mode = other;
                None
            },
        }
    }

    /// Locks an unlocked vault whose session is expired at `now`. Returns the
    /// line to log; the caller then looks for vaults again.
    pub fn check_timeout_at(&mut self, now: Instant) -> (r: Option<String>)
        requires
            old(self).wf(),
        ensures
            final(self).wf(),
            final(self).same_device(old(self)),
            match old(self).mode {
                Mode::Unlocked(s) => if s.session.expired(now) {
                    final(self).tab() == old(self).tab().doing(ModeModel::Browsing)
                        && text::opt_text(r) == Some(auto_locked(s.name@))
                } else {
                    *final(self) == *old(self) && r is None
                },
                _ => *final(self) == *old(self) && r is None,
            },
    {
        let line = match &self.mode {
            Mode::Unlocked(state) => if state.session.is_expired_at(now) {
                Some(text::concat("vault auto-locked after inactivity: ", state.name.as_str()))
            } else {
                None
            },
            _ => None,
        };
        if line.is_some() {
            self.mode = Mode::Browsing;
        }
        line
    }

    /// Locks an unlocked vault whose session is expired now.
    pub fn check_timeout(&mut self) -> (r: Option<String>)
        requires
            old(self).wf(),
        ensures
            final(self).wf(),
            final(self).same_device(old(self)),
            match old(self).mode {
                Mode::Unlocked(s) => exists|now: Instant|
                    #![trigger s.session.clock.shows(now)]
                    s.session.clock.shows(now) && if s.session.expired(now) {
                        final(self).tab() == old(self).tab().doing(ModeModel::Browsing)
                            && text::opt_text(r) == Some(auto_locked(s.name@))
                    } else {
                        *final(self) == *old(self) && r is None
                    },
                _ => *final(self) == *old(self) && r is None,
            },
    {
        let now = match &self.mode {
            Mode::Unlocked(state) => state.session.clock.now(),
            _ => {
                return None;
            },
        };
        self.check_timeout_at(now)
    }
}

// ---------------------------------------------------------------------
// What the tab promises
// ---------------------------------------------------------------------

/// Enter asks for the password of the selected vault: its file and its name are
/// those of the vault at the selected place. What is typed is then tried on that
/// file, and escape gives up.
pub proof fn law_unlocking_is_of_the_selected(
    t: TabModel,
    form: unlock::FormModel,
    path: Seq<char>,
    name: Seq<char>,
)
    requires
        t.mode is Browsing,
    ensures
        0 <= t.selected < t.listing.len() ==> t.pressed(KeyCode::Enter) == (
            TabModel {
                mode: ModeModel::Unlocking(
                    unlock::FormModel { password: Seq::empty(), error: None },
                    t.listing[t.selected].path,
                    t.listing[t.selected].name,
                ),
                ..t
            },
            RequestModel::Nothing,
        ),
        ({
            let u = TabModel { mode: ModeModel::Unlocking(form, path, name), ..t };
            &&& u.pressed(KeyCode::Enter) == (u, RequestModel::Unlock(path, form.password))
            &&& u.pressed(KeyCode::Esc).0 == t
            &&& forall|c: char| (#[trigger] u.pressed(KeyCode::Char(c))).0.mode
                == ModeModel::Unlocking(
                unlock::FormModel { password: form.password.push(c), ..form },
                path,
                name,
            )
        }),
{
    let u = TabModel { mode: ModeModel::Unlocking(form, path, name), ..t };
    assert(u.pressed(KeyCode::Esc).0 =~= t);
}

/// Down goes to the next vault and up to the one before it, so that every vault can
/// be selected; at the ends the selection stays.
pub proof fn law_vault_selection_moves(t: TabModel)
    requires
        t.mode is Browsing,
        0 <= t.selected < t.listing.len(),
    ensures
        t.selected + 1 < t.listing.len() ==> t.pressed(KeyCode::Down).0 == (TabModel {
            selected: t.selected + 1,
            ..t
        }),
        t.selected + 1 == t.listing.len() ==> t.pressed(KeyCode::Down).0 == t,
        t.selected > 0 ==> t.pressed(KeyCode::Up).0 == (TabModel {
            selected: t.selected - 1,
            ..t
        }),
        t.selected == 0 ==> t.pressed(KeyCode::Up).0 == t,
{
}

/// A plus sign opens an empty form for a new vault. Submitting the form asks for
/// the vault and keeps the form, giving it up goes back to the list.
pub proof fn law_creating_goes_through_the_form(t: TabModel, f: create::FormModel, key: KeyCode)
    requires
        t.mode is Browsing,
    ensures
        t.pressed(KeyCode::Char('+')) == (
            TabModel { mode: ModeModel::Creating(create::FormModel::blank()), ..t },
            RequestModel::Nothing,
        ),
        ({
            let u = TabModel { mode: ModeModel::Creating(f), ..t };
            &&& u.pressed(KeyCode::Esc) == (t, RequestModel::Refresh)
            &&& u.pressed(key).1 is Create <==> key is Enter && f.focus is Confirm
            &&& u.pressed(key).1 is Create ==> u.pressed(key).0 == u
            &&& !(key is Esc) ==> u.pressed(key).0.mode == ModeModel::Creating(f.pressed(key).0)
        }),
{
    let u = TabModel { mode: ModeModel::Creating(f), ..t };
    assert(u.pressed(KeyCode::Esc).0 =~= t);
    create::law_form_is_left_on_purpose(f, key);
    if u.pressed(key).1 is Create {
        assert(u.pressed(key).0 =~= u);
    }
}

/// While a vault is unlocked every key goes to its screen, and what the screen asks
/// for is passed on. The vault is locked exactly when the screen says so, and the
/// list of vaults is not touched.
pub proof fn law_keys_reach_the_unlocked_vault(
    t: TabModel,
    name: Seq<char>,
    screen: ScreenModel,
    key: KeyCode,
)
    requires
        t.mode == ModeModel::Unlocked(name, screen),
    ensures
        t.pressed(key).0.listing == t.listing,
        t.pressed(key).0.selected == t.selected,
        t.pressed(key).0.mode is Browsing <==> screen.pressed(key).1 is Lock,
        t.pressed(key).1 is Locked <==> screen.pressed(key).1 is Lock,
        !(screen.pressed(key).1 is Lock) ==> t.pressed(key).0.mode == ModeModel::Unlocked(
            name,
            screen.pressed(key).0,
        ),
        screen.pressed(key).1 is Continue ==> t.pressed(key).1 is Nothing,
        !(screen.pressed(key).1 is Continue) && !(screen.pressed(key).1 is Lock) ==> t.pressed(
            key,
        ).1 == RequestModel::File(screen.pressed(key).1),
{
}

/// A refreshed list holds exactly the vaults that were found, in order of their
/// names. The selection stays where it is, as long as there is a vault there.
pub proof fn law_refreshing_lists_what_was_found(t: TabModel, found: Seq<ListingModel>)
    requires
        0 <= t.selected,
    ensures
        t.refreshed(found).listing.to_multiset() == found.to_multiset(),
        naming::in_order(t.refreshed(found).listing),
        t.refreshed(found).mode == t.mode,
        t.selected < t.refreshed(found).listing.len() ==> t.refreshed(found).selected == t.selected,
        t.refreshed(found).listing.len() > 0 ==> 0 <= t.refreshed(found).selected < t.refreshed(
            found,
        ).listing.len(),
{
    naming::law_listing_is_sorted(found, 0);
    assert(found.skip(0) =~= found);
}

} // verus!
