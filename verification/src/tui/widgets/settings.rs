//! The Settings tab: one field that can be edited.

use vstd::prelude::*;

use crate::engine::text;
use crate::tui::key::KeyCode;
use crate::tui::settings::AppSettings;

verus! {

/// Whether the field is being edited, and what was typed.
pub struct SettingsWidget {
    pub editing: bool,
    pub buffer: String,
}

/// The widget as a mathematical value.
#[verifier::ext_equal]
pub struct WidgetModel {
    pub editing: bool,
    pub buffer: Seq<char>,
}

impl View for SettingsWidget {
    type V = WidgetModel;

    open spec fn view(&self) -> WidgetModel {
        WidgetModel { editing: self.editing, buffer: self.buffer@ }
    }
}

/// What a key does: the widget, the directory that is set, and whether the
/// settings are to be saved.
pub open spec fn pressed(w: WidgetModel, dir: Seq<char>, key: KeyCode) -> (
    WidgetModel,
    Seq<char>,
    bool,
) {
    if w.editing {
        match key {
            KeyCode::Esc => (WidgetModel { editing: false, buffer: dir }, dir, false),
            KeyCode::Enter => {
                let typed = text::trimmed(w.buffer);
                (
                    WidgetModel { editing: false, ..w },
                    if typed.len() > 0 {
                        typed
                    } else {
                        dir
                    },
                    typed.len() > 0,
                )
            },
            KeyCode::Backspace => (
                WidgetModel { buffer: text::popped(w.buffer), ..w },
                dir,
                false,
            ),
            KeyCode::Char(c) => (WidgetModel { buffer: w.buffer.push(c), ..w }, dir, false),
            _ => (w, dir, false),
        }
    } else {
        (WidgetModel { editing: key is Enter, ..w }, dir, false)
    }
}

impl SettingsWidget {
    /// A widget that shows these settings.
    pub fn new(settings: &AppSettings) -> (r: Self)
        ensures
            r@ == (WidgetModel { editing: false, buffer: settings.vaults_dir@ }),
    {
        SettingsWidget { editing: false, buffer: settings.vaults_dir.clone() }
    }
}

/// Handles one key press. Returns whether the settings changed and are to be
/// saved.
pub fn handle_key(widget: &mut SettingsWidget, settings: &mut AppSettings, key: KeyCode) -> (r: bool)
    ensures
        (final(widget)@, final(settings).vaults_dir@, r) == pressed(
            old(widget)@,
            old(settings).vaults_dir@,
            key,
        ),
{
    if widget.editing {
        match key {
            KeyCode::Esc => {
                widget.editing = false;
                widget.buffer = settings.vaults_dir.clone();
            },
            KeyCode::Enter => {
                let typed = text::trim(widget.buffer.as_str()).to_owned();
                widget.editing = false;
                if !typed.as_str().is_empty() {
                    settings.vaults_dir = typed;
                    return true;
                }
            },
            KeyCode::Backspace => text::erase_last(&mut widget.buffer),
            KeyCode::Char(c) => widget.buffer.push(c),
            _ => {},
        }
    } else if let KeyCode::Enter = key {
        widget.editing = true;
    }
    false
}

/// Enter starts editing; what is typed goes to the end of the field and backspace
/// takes it back; enter then sets the directory to what was typed, without white
/// space around it, and escape gives up what was typed. Settings are saved exactly
/// when something was set.
pub proof fn law_directory_is_what_was_typed(
    w: WidgetModel,
    dir: Seq<char>,
    c: char,
    key: KeyCode,
)
    ensures
        !w.editing ==> pressed(w, dir, KeyCode::Enter) == (
            WidgetModel { editing: true, ..w },
            dir,
            false,
        ),
        !w.editing && !(key is Enter) ==> pressed(w, dir, key) == (w, dir, false),
        w.editing ==> {
            &&& pressed(w, dir, KeyCode::Char(c)).0 == (WidgetModel {
                buffer: w.buffer + seq![c],
                ..w
            })
            &&& pressed(pressed(w, dir, KeyCode::Char(c)).0, dir, KeyCode::Backspace).0 == w
            &&& pressed(w, dir, KeyCode::Esc) == (
                WidgetModel { editing: false, buffer: dir },
                dir,
                false,
            )
            &&& pressed(w, dir, KeyCode::Enter).0.editing == false
            &&& pressed(w, dir, KeyCode::Enter).1 == (if text::trimmed(w.buffer).len() > 0 {
                text::trimmed(w.buffer)
            } else {
                dir
            })
        },
        pressed(w, dir, key).2 <==> w.editing && key is Enter && text::trimmed(w.buffer).len() > 0,
        !pressed(w, dir, key).2 ==> pressed(w, dir, key).1 == dir,
{
    assert(w.buffer.push(c) =~= w.buffer + seq![c]);
    assert(w.buffer.push(c).drop_last() =~= w.buffer);
    if w.editing {
        assert(pressed(pressed(w, dir, KeyCode::Char(c)).0, dir, KeyCode::Backspace).0 =~= w);
    }
}

} // verus!
