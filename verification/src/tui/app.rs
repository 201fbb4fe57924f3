//! The application: its tabs, and which of them a key press reaches.

use vstd::prelude::*;

use crate::engine::error::Fault;
use crate::engine::model::VaultModel;
use crate::engine::records::SlotModel;
use crate::engine::session::{Clock, Instant};
use crate::engine::text;
use crate::engine::vault::{self, Vault};
use crate::net::sync;
use crate::tui::settings::AppSettings;
use crate::tui::tab::Tab;
use crate::tui::widgets::network_tab::{self, NetworkTabWidget, Surroundings, SurroundingsModel};
use crate::tui::widgets::settings::{self, SettingsWidget};
use crate::tui::widgets::vaults::{self, Mode};

verus! {

/// The application.
pub struct App {
    pub selected_tab: Tab,
    pub vaults: vaults::App,
    pub settings: AppSettings,
    pub settings_ui: SettingsWidget,
    pub network_ui: NetworkTabWidget,
}

/// The application as a mathematical value.
#[verifier::ext_equal]
pub struct AppModel {
    pub tab: Tab,
    pub vaults: vaults::TabModel,
    pub network: network_tab::WidgetModel,
    pub settings: settings::WidgetModel,
    /// The directory that is set.
    pub dir: Seq<char>,
}

impl View for App {
    type V = AppModel;

    open spec fn view(&self) -> AppModel {
        AppModel {
            tab: self.selected_tab,
            vaults: self.vaults.tab(),
            network: self.network_ui@,
            settings: self.settings_ui@,
            dir: self.settings.vaults_dir@,
        }
    }
}

impl AppModel {
    /// Whether `q` and Esc mean something in the selected tab, other than
    /// leaving the application.
    pub open spec fn keeps_quit(self) -> bool {
        match self.tab {
            Tab::Vaults => !(self.vaults.mode is Browsing),
            Tab::Network => !(self.network.mode is Idle),
            Tab::Settings => self.settings.editing,
            Tab::Logs => false,
        }
    }

    /// Whether Tab means something in the selected tab, other than going to the
    /// next tab.
    pub open spec fn keeps_tab(self) -> bool {
        match self.tab {
            Tab::Vaults => match self.vaults.mode {
                vaults::ModeModel::Browsing => false,
                vaults::ModeModel::Unlocked(_, screen) => screen.add_form is Some,
                _ => true,
            },
            Tab::Network => !(self.network.mode is Idle),
            Tab::Settings => self.settings.editing,
            Tab::Logs => false,
        }
    }
}

/// The peers of these slots.
pub open spec fn slot_peers(slots: Seq<SlotModel>) -> Seq<Seq<u8>> {
    slots.map_values(|s: SlotModel| s.signing_pubkey + s.encryption_pubkey)
}

/// The peers that have access to a vault; none if its keyring cannot be read.
pub open spec fn peers_with_access(v: VaultModel) -> Seq<Seq<u8>> {
    match v.granted(v.header.max_recipients as int) {
        Ok(slots) => slot_peers(slots),
        Err(_) => Seq::empty(),
    }
}

/// What the Network tab knows, given what the Vaults tab is doing.
pub open spec fn around(mode: Mode) -> SurroundingsModel {
    match mode {
        Mode::Unlocked(s) => SurroundingsModel {
            unlocked: true,
            serving: s.serving is Some,
            recipients: peers_with_access(s.vault@),
        },
        _ => SurroundingsModel { unlocked: false, serving: false, recipients: Seq::empty() },
    }
}

fn list_peers(vault: &Vault) -> (r: Vec<crate::engine::identity::PeerId>)
    requires
        vault.wf(),
    ensures
        network_tab::peers_of(r@) == peers_with_access(vault@),
{
    let mut out: Vec<crate::engine::identity::PeerId> = Vec::new();
    match vault.list_recipients() {
        Ok(infos) => {
            let ghost slots = vault@.granted(vault@.header.max_recipients as int)->Ok_0;
            let mut i: usize = 0;
            while i < infos.len()
                invariant
                    i <= infos@.len(),
                    out@.len() == i,
                    vault::peers_match(infos@, slots),
                    forall|k: int| 0 <= k < i ==> (#[trigger] out@[k])@ == slot_peers(slots)[k],
                decreases infos@.len() - i,
            {
                out.push(infos[i].peer_id);
                i = i + 1;
            }
            assert(network_tab::peers_of(out@) =~= slot_peers(slots));
        },
        Err(_) => {
            assert(network_tab::peers_of(out@) =~= Seq::empty());
        },
    }
    out
}

impl App {
    /// An unlocked vault is well-formed.
    pub open spec fn wf(&self) -> bool {
        self.vaults.wf()
    }

    /// The application with these settings and this Vaults tab.
    pub fn new(settings: AppSettings, vaults: vaults::App) -> (r: Self)
        ensures
            r.vaults == vaults,
            r.settings == settings,
            r@ == (AppModel {
                tab: Tab::Vaults,
                vaults: vaults.tab(),
                network: network_tab::WidgetModel { mode: network_tab::ModeModel::Idle, selected: 0 },
                settings: settings::WidgetModel { editing: false, buffer: settings.vaults_dir@ },
                dir: settings.vaults_dir@,
            }),
    {
        let settings_ui = SettingsWidget::new(&settings);
        App {
            selected_tab: Tab::Vaults,
            vaults,
            settings,
            settings_ui,
            network_ui: NetworkTabWidget::default(),
        }
    }

    /// Goes to the next tab.
    pub fn next_tab(&mut self)
        ensures
            *final(self) == (App { selected_tab: old(self).selected_tab.following(), ..*old(self) }),
    {
        self.selected_tab = self.selected_tab.next();
    }

    /// Whether `q` and Esc mean something in the selected tab, other than
    /// leaving the application.
    pub fn intercepts_quit(&self) -> (r: bool)
        ensures
            r == self@.keeps_quit(),
    {
        match self.selected_tab {
            Tab::Vaults => self.vaults.intercepts_quit(),
            Tab::Network => network_tab::is_modal(&self.network_ui),
            Tab::Settings => self.settings_ui.editing,
            Tab::Logs => false,
        }
    }

    /// Whether Tab means something in the selected tab, other than going to the
    /// next tab.
    pub fn blocks_tab_switch(&self) -> (r: bool)
        ensures
            r == self@.keeps_tab(),
    {
        match self.selected_tab {
            Tab::Vaults => self.vaults.blocks_tab_switch(),
            Tab::Network => network_tab::is_modal(&self.network_ui),
            Tab::Settings => self.settings_ui.editing,
            Tab::Logs => false,
        }
    }

    /// The place of the selected tab in the tab bar.
    pub fn index(&self) -> (r: usize)
        ensures
            r == self.selected_tab.place(),
    {
        self.selected_tab.index()
    }

    /// Locks an unlocked vault whose session is expired, whichever tab is
    /// selected. Returns the line to log; the caller then looks for vaults
    /// again. Called between key presses.
    pub fn tick(&mut self) -> (r: Option<String>)
        requires
            old(self).wf(),
        ensures
            final(self).wf(),
            *final(self) == (App { vaults: final(self).vaults, ..*old(self) }),
            match old(self).vaults.mode {
                Mode::Unlocked(s) => exists|now: Instant|
                    #![trigger s.session.clock.shows(now)]
                    s.session.clock.shows(now) && if s.session.expired(now) {
                        final(self).vaults.tab() == old(self).vaults.tab().doing(
                            vaults::ModeModel::Browsing,
                        ) && text::opt_text(r) == Some(vaults::auto_locked(s.name@))
                    } else {
                        *final(self) == *old(self) && r is None
                    },
                _ => *final(self) == *old(self) && r is None,
            },
    {
        self.vaults.check_timeout()
    }

    /// What the Network tab knows of the unlocked vault.
    pub fn surroundings(&self) -> (r: Surroundings)
        requires
            self.wf(),
        ensures
            r@ == around(self.vaults.mode),
    {
        match &self.vaults.mode {
            Mode::Unlocked(state) => Surroundings {
                unlocked: true,
                serving: state.serving.is_some(),
                recipients: list_peers(&state.vault),
            },
            _ => {
                let r = Surroundings { unlocked: false, serving: false, recipients: Vec::new() };
                assert(r@.recipients =~= Seq::empty());
                r
            },
        }
    }
}

/// The peers on the Network tab are exactly those that may ask for the vault.
pub proof fn law_listed_peers_have_access(v: VaultModel, peer: Seq<u8>)
    requires
        v.recipients_ok(),
    ensures
        peers_with_access(v).contains(peer) <==> sync::granted_to_peer(v, peer) == Ok::<bool, Fault>(
            true,
        ),
{
    sync::law_granted_peers_are_let_in(v, peer);
    let n = v.header.max_recipients as int;
    sync::lemma_granted(v, n);
    let slots = v.granted(n)->Ok_0;
    let peers = peers_with_access(v);
    if peers.contains(peer) {
        let k = choose|k: int| 0 <= k < peers.len() && peers[k] == peer;
        assert(slots[k].signing_pubkey + slots[k].encryption_pubkey == peer);
        assert(sync::among(slots, peer));
    }
    if sync::among(slots, peer) {
        let k = choose|k: int|
            0 <= k < slots.len() && (#[trigger] slots[k]).signing_pubkey
                + slots[k].encryption_pubkey == peer;
        assert(peers[k] == peer);
    }
}

} // verus!
