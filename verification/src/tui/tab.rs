//! The tabs of the application.

use vstd::prelude::*;

verus! {

#[derive(Debug, Clone, Copy, PartialEq, Eq, Structural)]
pub enum Tab {
    Vaults,
    Network,
    Logs,
    Settings,
}

impl Tab {
    /// The tab that comes after this one.
    pub open spec fn following(self) -> Tab {
        match self {
            Tab::Vaults => Tab::Network,
            Tab::Network => Tab::Logs,
            Tab::Logs => Tab::Vaults,
            Tab::Settings => Tab::Settings,
        }
    }

    /// The place of this tab in the tab bar.
    pub open spec fn place(self) -> int {
        match self {
            Tab::Vaults => 0,
            Tab::Network => 1,
            Tab::Logs => 2,
            Tab::Settings => 3,
        }
    }

    /// The tab that comes after this one.
    pub fn next(self) -> (r: Self)
        ensures
            r == self.following(),
    {
        match self {
            Tab::Vaults => Tab::Network,
            Tab::Network => Tab::Logs,
            Tab::Logs => Tab::Vaults,
            Tab::Settings => Tab::Settings,
        }
    }

    /// The place of this tab in the tab bar.
    pub fn index(self) -> (r: usize)
        ensures
            r == self.place(),
    {
        match self {
            Tab::Vaults => 0,
            Tab::Network => 1,
            Tab::Logs => 2,
            Tab::Settings => 3,
        }
    }
}

/// Different tabs have different places.
pub proof fn law_places_differ(a: Tab, b: Tab)
    requires
        a != b,
    ensures
        a.place() != b.place(),
{
}

/// Tab goes through vaults, network and logs, and then starts over.
pub proof fn law_tabs_go_round(t: Tab)
    ensures
        Tab::Vaults.following() is Network,
        Tab::Network.following() is Logs,
        Tab::Logs.following() is Vaults,
        t.following().place() == (t.place() + 1) % 3 || t is Settings,
        0 <= t.place() < 4,
{
}

} // verus!
