//! What a key press does to the application.

use vstd::prelude::*;

use crate::engine::session::{Clock, Instant, Session};
use crate::tui::app::{self, App, AppModel};
use crate::tui::key::KeyCode;
use crate::tui::tab::Tab;
use crate::tui::widgets::network_tab::{self, SurroundingsModel};
use crate::tui::widgets::settings;
use crate::tui::widgets::vaults::unlocked::UnlockedState;
use crate::tui::widgets::vaults::{self, Mode};

verus! {

/// What a key press asks for.
pub enum Request {
    Nothing,
    /// Leave the application.
    Quit,
    Vaults(vaults::Request),
    Network(network_tab::Request),
    SaveSettings,
}

/// What a key press asks for, as a mathematical value.
pub enum RequestModel {
    Nothing,
    Quit,
    Vaults(vaults::RequestModel),
    Network(network_tab::RequestModel),
    SaveSettings,
}

impl View for Request {
    type V = RequestModel;

    open spec fn view(&self) -> RequestModel {
        match self {
            Request::Nothing => RequestModel::Nothing,
            Request::Quit => RequestModel::Quit,
            Request::Vaults(r) => RequestModel::Vaults(r@),
            Request::Network(r) => RequestModel::Network(r@),
            Request::SaveSettings => RequestModel::SaveSettings,
        }
    }
}

impl AppModel {
    /// What a key does, given what the Network tab knows of the unlocked vault.
    pub open spec fn pressed(self, around: SurroundingsModel, key: KeyCode) -> (
        AppModel,
        RequestModel,
    ) {
        if !self.keeps_quit() && (key is Esc || key == KeyCode::Char('q')) {
            (self, RequestModel::Quit)
        } else if !self.keeps_tab() && key is Tab {
            (AppModel { tab: self.tab.following(), ..self }, RequestModel::Nothing)
        } else {
            match self.tab {
                Tab::Vaults => {
                    let (vaults, request) = self.vaults.pressed(key);
                    (AppModel { vaults, ..self }, RequestModel::Vaults(request))
                },
                Tab::Network => {
                    let (network, request) = self.network.pressed(around, key);
                    (AppModel { network, ..self }, RequestModel::Network(request))
                },
                Tab::Settings => {
                    let (settings, dir, save) = settings::pressed(self.settings, self.dir, key);
                    (
                        AppModel { settings, dir, ..self },
                        if save {
                            RequestModel::SaveSettings
                        } else {
                            RequestModel::Nothing
                        },
                    )
                },
                Tab::Logs => (self, RequestModel::Nothing),
            }
        }
    }
}

fn is_quit_key(key: KeyCode) -> (r: bool)
    ensures
        r <==> key is Esc || key == KeyCode::Char('q'),
{
    match key {
        KeyCode::Esc => true,
        KeyCode::Char(c) => c == 'q',
        _ => false,
    }
}

/// Starts the idle time of an unlocked vault over at `now`. Nothing else
/// changes.
fn record_activity(tab: &mut vaults::App, now: Instant)
    requires
        old(tab).wf(),
    ensures
        final(tab).wf(),
        final(tab).tab() == old(tab).tab(),
        final(tab).same_device(old(tab)),
        match (old(tab).mode, final(tab).mode) {
            (Mode::Unlocked(s), Mode::Unlocked(t)) => t == (UnlockedState {
                session: Session { last_activity: now, ..s.session },
                ..s
            }),
            (a, b) => a == b,
        },
{
    let mut mode = Mode::Browsing;
    core::mem::swap(&mut mode, &mut tab.mode);
    match mode {
        Mode::Unlocked(state) => {
            let mut state = state;
            state.session.record_activity_at(now);
            tab.mode = Mode::Unlocked(state);
        },
        other => {
            tab.mode = other;
        },
    }
}

/// Handles one key press. In the Vaults tab and in the Network tab it also
/// starts the idle time of an unlocked vault over.
pub fn handle_key(app: &mut App, key: KeyCode) -> (r: Request)
    requires
        old(app).wf(),
    ensures
        final(app).wf(),
        final(app).vaults.same_device(&old(app).vaults),
        (final(app)@, r@) == old(app)@.pressed(app::around(old(app).vaults.mode), key),
        (old(app).vaults.mode, final(app).vaults.mode) matches (
            Mode::Unlocked(s),
            Mode::Unlocked(t),
        ) ==> t.same_vault(&s) && if r@ is Vaults || r@ is Network {
            t.session.clock == s.session.clock && t.session.timeout == s.session.timeout
                && s.session.clock.shows(t.session.last_activity)
        } else {
            t.session == s.session
        },
{
    if !app.intercepts_quit() && is_quit_key(key) {
        return Request::Quit;
    }
    if !app.blocks_tab_switch() {
        if let KeyCode::Tab = key {
            app.next_tab();
            return Request::Nothing;
        }
    }
    match app.selected_tab {
        Tab::Vaults => Request::Vaults(app.vaults.handle_key(key)),
        Tab::Network => {
            let around = app.surroundings();
            if let Mode::Unlocked(state) = &app.vaults.mode {
                let now = state.session.clock.now();
                record_activity(&mut app.vaults, now);
            }
            Request::Network(network_tab::handle_key(&mut app.network_ui, &around, key))
        },
        Tab::Settings => {
            if settings::handle_key(&mut app.settings_ui, &mut app.settings, key) {
                Request::SaveSettings
            } else {
                Request::Nothing
            }
        },
        Tab::Logs => Request::Nothing,
    }
}

/// Where `q` and Esc mean nothing in the selected tab, they leave the
/// application and change nothing.
pub proof fn law_esc_leaves(a: AppModel, around: SurroundingsModel)
    requires
        !a.keeps_quit(),
    ensures
        a.pressed(around, KeyCode::Esc) == (a, RequestModel::Quit),
        a.pressed(around, KeyCode::Char('q')) == (a, RequestModel::Quit),
{
}

/// In the Vaults tab, with a vault unlocked and no form open, `q` and Esc lock
/// the vault rather than leave the application.
pub proof fn law_leaving_locks_first(a: AppModel, around: SurroundingsModel, key: KeyCode)
    requires
        a.tab is Vaults,
        a.vaults.mode matches vaults::ModeModel::Unlocked(_, screen) && screen.add_form is None
            && screen.update_form is None && screen.delete_confirm is None,
        key is Esc || key == KeyCode::Char('q'),
    ensures
        a.pressed(around, key).0.vaults.mode is Browsing,
        a.pressed(around, key).1 matches RequestModel::Vaults(vaults::RequestModel::Locked(_)),
{
}

/// Something in the selected tab is open: a form, a prompt, or an unlocked vault.
pub open spec fn occupied(a: AppModel) -> bool {
    match a.tab {
        Tab::Vaults => !(a.vaults.mode is Browsing),
        Tab::Network => !(a.network.mode is Idle),
        Tab::Settings => a.settings.editing,
        Tab::Logs => false,
    }
}

/// The application is left exactly by `q` or escape where nothing is open in the
/// selected tab.
pub proof fn law_leaving_needs_an_empty_tab(
    a: AppModel,
    around: SurroundingsModel,
    key: KeyCode,
)
    ensures
        a.pressed(around, key).1 is Quit <==> !occupied(a) && (key is Esc || key
            == KeyCode::Char('q')),
{
}

/// A key reaches the selected tab only: the other tabs stay as they are, and the
/// selected tab changes only by the tab key. From the list of vaults, the idle
/// network tab and the logs, the tab key goes on to the next tab.
pub proof fn law_keys_reach_the_selected_tab(
    a: AppModel,
    around: SurroundingsModel,
    key: KeyCode,
)
    ensures
        !(a.tab is Vaults) ==> a.pressed(around, key).0.vaults == a.vaults,
        !(a.tab is Network) ==> a.pressed(around, key).0.network == a.network,
        !(a.tab is Settings) ==> a.pressed(around, key).0.settings == a.settings && a.pressed(
            around,
            key,
        ).0.dir == a.dir,
        a.pressed(around, key).0.tab != a.tab ==> key is Tab && a.pressed(around, key).0 == (
        AppModel { tab: a.tab.following(), ..a }),
        !occupied(a) && key is Tab ==> a.pressed(around, key).0.tab == a.tab.following(),
        a.tab is Vaults && a.vaults.mode is Browsing && !(key is Esc) && !(key is Tab) && key
            != KeyCode::Char('q') ==> a.pressed(around, key) == (
            AppModel { vaults: a.vaults.pressed(key).0, ..a },
            RequestModel::Vaults(a.vaults.pressed(key).1),
        ),
        a.tab is Vaults && (a.vaults.mode is Creating || a.vaults.mode is Unlocking) ==> a.pressed(
            around,
            key,
        ) == (
            AppModel { vaults: a.vaults.pressed(key).0, ..a },
            RequestModel::Vaults(a.vaults.pressed(key).1),
        ),
        a.tab is Vaults && a.vaults.mode is Unlocked && !(key is Tab) ==> a.pressed(around, key)
            == (
            AppModel { vaults: a.vaults.pressed(key).0, ..a },
            RequestModel::Vaults(a.vaults.pressed(key).1),
        ),
        a.tab is Network && !(a.network.mode is Idle) ==> a.pressed(around, key) == (
            AppModel { network: a.network.pressed(around, key).0, ..a },
            RequestModel::Network(a.network.pressed(around, key).1),
        ),
        a.tab is Network && a.network.mode is Idle && !(key is Esc) && !(key is Tab) && key
            != KeyCode::Char('q') ==> a.pressed(around, key) == (
            AppModel { network: a.network.pressed(around, key).0, ..a },
            RequestModel::Network(a.network.pressed(around, key).1),
        ),
        a.pressed(around, key).1 is SaveSettings ==> a.tab is Settings && a.settings.editing && key
            is Enter,
{
}

} // verus!
