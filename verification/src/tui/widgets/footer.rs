//! The line at the bottom that says which keys mean something.

use vstd::prelude::*;

use crate::tui::app::{App, AppModel};
use crate::tui::tab::Tab;
use crate::tui::widgets::network_tab::{self, NetworkTabMode, NetworkTabWidget};
use crate::tui::widgets::vaults::{self, Mode};

verus! {

/// The keys that mean something in the Vaults tab.
pub open spec fn vaults_keys(mode: vaults::ModeModel) -> Seq<char> {
    match mode {
        vaults::ModeModel::Browsing =>
        "Press 'q' to quit, '↹' to navigate tabs, '↵' to unlock, '+' new vault."@,
        vaults::ModeModel::Creating(_) =>
        "Press ↵ to continue/submit, Esc to cancel, ↹/⬇⬆ to move between fields."@,
        vaults::ModeModel::Unlocking(_, _, _) => "Press ↵ to unlock, Esc to cancel."@,
        vaults::ModeModel::Unlocked(_, screen) => if screen.add_form is Some || screen.update_form
            is Some {
            "Press ↵ to continue/submit, Esc to cancel, ↹/⬇⬆ to switch fields."@
        } else if screen.delete_confirm is Some {
            "Press 'y' to confirm delete, 'n'/Esc to cancel."@
        } else {
            "Press 'q' to lock, '↹' to switch tabs, '⬇⬆' to navigate, 'a' add, 'u' update, 'd' delete, 'v' verify."@
        },
    }
}

/// The keys that mean something in the Network tab.
pub open spec fn network_keys(mode: network_tab::ModeModel) -> Seq<char> {
    match mode {
        network_tab::ModeModel::Idle =>
        "Press 'q' to quit, '↹' to navigate tabs, 'j' join a vault, 'g' grant, 'r' revoke, 'n' serve/stop."@,
        network_tab::ModeModel::ConfirmRevoke(_, _) =>
        "Press ↵ to confirm revocation, Esc to cancel."@,
        _ => "Press ↵ to submit, Esc to cancel."@,
    }
}

/// The keys that mean something.
pub open spec fn keys(a: AppModel) -> Seq<char> {
    match a.tab {
        Tab::Vaults => vaults_keys(a.vaults.mode),
        Tab::Network => network_keys(a.network.mode),
        Tab::Settings => if a.settings.editing {
            "Press ↵ to save, Esc to cancel."@
        } else {
            "Press 'q' to quit, '↹' to navigate tabs, '↵' to edit the vaults directory."@
        },
        Tab::Logs => "Press 'q' to quit, '↹' to navigate tabs."@,
    }
}

fn vaults_hint(tab: &vaults::App) -> (r: &'static str)
    ensures
        r@ == vaults_keys(tab.tab().mode),
{
    match &tab.mode {
        Mode::Browsing => "Press 'q' to quit, '↹' to navigate tabs, '↵' to unlock, '+' new vault.",
        Mode::Creating(_) =>
        "Press ↵ to continue/submit, Esc to cancel, ↹/⬇⬆ to move between fields.",
        Mode::Unlocking(_, _, _) => "Press ↵ to unlock, Esc to cancel.",
        Mode::Unlocked(state) => {
            if state.add_form.is_some() || state.update_form.is_some() {
                "Press ↵ to continue/submit, Esc to cancel, ↹/⬇⬆ to switch fields."
            } else if state.delete_confirm.is_some() {
                "Press 'y' to confirm delete, 'n'/Esc to cancel."
            } else {
                "Press 'q' to lock, '↹' to switch tabs, '⬇⬆' to navigate, 'a' add, 'u' update, 'd' delete, 'v' verify."
            }
        },
    }
}

fn network_hint(tab: &NetworkTabWidget) -> (r: &'static str)
    ensures
        r@ == network_keys(tab@.mode),
{
    match &tab.mode {
        NetworkTabMode::Idle =>
        "Press 'q' to quit, '↹' to navigate tabs, 'j' join a vault, 'g' grant, 'r' revoke, 'n' serve/stop.",
        NetworkTabMode::ConfirmRevoke { .. } => "Press ↵ to confirm revocation, Esc to cancel.",
        _ => "Press ↵ to submit, Esc to cancel.",
    }
}

/// The text of the line.
pub fn hint(app: &App) -> (r: &'static str)
    ensures
        r@ == keys(app@),
{
    match app.selected_tab {
        Tab::Vaults => vaults_hint(&app.vaults),
        Tab::Network => network_hint(&app.network_ui),
        Tab::Settings => {
            if app.settings_ui.editing {
                "Press ↵ to save, Esc to cancel."
            } else {
                "Press 'q' to quit, '↹' to navigate tabs, '↵' to edit the vaults directory."
            }
        },
        Tab::Logs => "Press 'q' to quit, '↹' to navigate tabs.",
    }
}

} // verus!
