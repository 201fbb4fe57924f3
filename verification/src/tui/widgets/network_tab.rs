//! The Network tab: joining a peer's vault, granting and revoking access to the
//! unlocked one, and serving it.

use vstd::prelude::*;

use crate::engine::identity::PeerId;
use crate::engine::text;
use crate::tui::key::KeyCode;

verus! {

pub const PORT_INVALID: &'static str = "Enter a valid port number (1-65535)";

/// What the tab is doing.
pub enum NetworkTabMode {
    Idle,
    /// Asks for the invite code of a peer whose vault is to be joined.
    Joining { input: String, error: Option<String> },
    /// Asks for the invite code of a peer that is to get access.
    Granting { input: String, error: Option<String> },
    /// Asks for the vault's password before a peer loses access.
    ConfirmRevoke { target: PeerId, password: String, error: Option<String> },
    /// Asks for the port to serve on.
    ServePrompt { port_input: String, error: Option<String> },
}

/// The Network tab.
pub struct NetworkTabWidget {
    pub mode: NetworkTabMode,
    pub recipients_selected: usize,
}

/// What is asked for: what was typed so far, and what was wrong with it.
#[verifier::ext_equal]
pub struct PromptModel {
    pub input: Seq<char>,
    pub error: Option<Seq<char>>,
}

/// What the tab is doing, as a mathematical value.
#[verifier::ext_equal]
pub enum ModeModel {
    Idle,
    Joining(PromptModel),
    Granting(PromptModel),
    ConfirmRevoke(Seq<u8>, PromptModel),
    ServePrompt(PromptModel),
}

/// The tab as a mathematical value.
#[verifier::ext_equal]
pub struct WidgetModel {
    pub mode: ModeModel,
    pub selected: int,
}

impl View for NetworkTabMode {
    type V = ModeModel;

    open spec fn view(&self) -> ModeModel {
        match self {
            NetworkTabMode::Idle => ModeModel::Idle,
            NetworkTabMode::Joining { input, error } => ModeModel::Joining(
                PromptModel { input: input@, error: text::opt_text(*error) },
            ),
            NetworkTabMode::Granting { input, error } => ModeModel::Granting(
                PromptModel { input: input@, error: text::opt_text(*error) },
            ),
            NetworkTabMode::ConfirmRevoke { target, password, error } => ModeModel::ConfirmRevoke(
                target@,
                PromptModel { input: password@, error: text::opt_text(*error) },
            ),
            NetworkTabMode::ServePrompt { port_input, error } => ModeModel::ServePrompt(
                PromptModel { input: port_input@, error: text::opt_text(*error) },
            ),
        }
    }
}

impl View for NetworkTabWidget {
    type V = WidgetModel;

    open spec fn view(&self) -> WidgetModel {
        WidgetModel { mode: self.mode@, selected: self.recipients_selected as int }
    }
}

impl Default for NetworkTabWidget {
    fn default() -> (r: Self)
        ensures
            r@ == (WidgetModel { mode: ModeModel::Idle, selected: 0 }),
    {
        NetworkTabWidget { mode: NetworkTabMode::Idle, recipients_selected: 0 }
    }
}

/// Whether something is asked for.
pub fn is_modal(widget: &NetworkTabWidget) -> (r: bool)
    ensures
        r <==> !(widget@.mode is Idle),
{
    match &widget.mode {
        NetworkTabMode::Idle => false,
        _ => true,
    }
}

/// What the tab knows of the vault that is unlocked, if one is.
pub struct Surroundings {
    pub unlocked: bool,
    pub serving: bool,
    /// The peers that have access to it.
    pub recipients: Vec<PeerId>,
}

/// The peers as mathematical values.
pub open spec fn peers_of(s: Seq<PeerId>) -> Seq<Seq<u8>> {
    s.map_values(|p: PeerId| p@)
}

/// What the tab knows of the unlocked vault, as a mathematical value.
#[verifier::ext_equal]
pub struct SurroundingsModel {
    pub unlocked: bool,
    pub serving: bool,
    pub recipients: Seq<Seq<u8>>,
}

impl View for Surroundings {
    type V = SurroundingsModel;

    open spec fn view(&self) -> SurroundingsModel {
        SurroundingsModel {
            unlocked: self.unlocked,
            serving: self.serving,
            recipients: peers_of(self.recipients@),
        }
    }
}

/// What a key press asks for. Once it is done, [`NetworkTabWidget::finish`] is
/// told what came of it; only [`Request::StopServing`] has no outcome.
#[derive(Debug, Clone)]
pub enum Request {
    Nothing,
    /// Join the vault that this invite code leads to.
    Join(String),
    /// Grant access to the peer of this invite code.
    Grant(String),
    /// Revoke the access of this peer, with this password.
    Revoke(PeerId, String),
    /// Serve on this port.
    Serve(u16),
    StopServing,
}

/// What a key press asks for, as a mathematical value.
#[verifier::ext_equal]
pub enum RequestModel {
    Nothing,
    Join(Seq<char>),
    Grant(Seq<char>),
    Revoke(Seq<u8>, Seq<char>),
    Serve(nat),
    StopServing,
}

impl View for Request {
    type V = RequestModel;

    open spec fn view(&self) -> RequestModel {
        match self {
            Request::Nothing => RequestModel::Nothing,
            Request::Join(s) => RequestModel::Join(s@),
            Request::Grant(s) => RequestModel::Grant(s@),
            Request::Revoke(p, s) => RequestModel::Revoke(p@, s@),
            Request::Serve(port) => RequestModel::Serve(*port as nat),
            Request::StopServing => RequestModel::StopServing,
        }
    }
}

impl PromptModel {
    /// Nothing typed yet.
    pub open spec fn blank() -> PromptModel {
        PromptModel { input: Seq::empty(), error: None }
    }

    /// What a key does to the text.
    pub open spec fn typed(self, key: KeyCode) -> PromptModel {
        match key {
            KeyCode::Backspace => PromptModel { input: text::popped(self.input), ..self },
            KeyCode::Char(c) => PromptModel { input: self.input.push(c), ..self },
            _ => self,
        }
    }

    /// What a key does to a text of digits.
    pub open spec fn typed_digit(self, key: KeyCode) -> PromptModel {
        match key {
            KeyCode::Char(c) => if '0' <= c <= '9' {
                self.typed(key)
            } else {
                self
            },
            _ => self.typed(key),
        }
    }
}

impl WidgetModel {
    /// The tab in another mode.
    pub open spec fn doing(self, mode: ModeModel) -> WidgetModel {
        WidgetModel { mode, ..self }
    }

    /// What a key does while nothing is asked for.
    pub open spec fn pressed_idle(self, around: SurroundingsModel, key: KeyCode) -> (
        WidgetModel,
        RequestModel,
    ) {
        let n = around.recipients.len() as int;
        match key {
            KeyCode::Char(c) => if c == 'j' {
                (self.doing(ModeModel::Joining(PromptModel::blank())), RequestModel::Nothing)
            } else if c == 'g' && around.unlocked {
                (self.doing(ModeModel::Granting(PromptModel::blank())), RequestModel::Nothing)
            } else if c == 'r' && 0 <= self.selected < n {
                (
                    self.doing(
                        ModeModel::ConfirmRevoke(
                            around.recipients[self.selected],
                            PromptModel::blank(),
                        ),
                    ),
                    RequestModel::Nothing,
                )
            } else if c == 'n' && around.serving {
                (self, RequestModel::StopServing)
            } else if c == 'n' && around.unlocked {
                (self.doing(ModeModel::ServePrompt(PromptModel::blank())), RequestModel::Nothing)
            } else {
                (self, RequestModel::Nothing)
            },
            KeyCode::Up => (
                WidgetModel {
                    selected: if self.selected > 0 {
                        self.selected - 1
                    } else {
                        0
                    },
                    ..self
                },
                RequestModel::Nothing,
            ),
            KeyCode::Down => (
                WidgetModel {
                    selected: if self.selected + 1 < n {
                        self.selected + 1
                    } else {
                        self.selected
                    },
                    ..self
                },
                RequestModel::Nothing,
            ),
            _ => (self, RequestModel::Nothing),
        }
    }

    /// What a key does.
    pub open spec fn pressed(self, around: SurroundingsModel, key: KeyCode) -> (
        WidgetModel,
        RequestModel,
    ) {
        let idle = self.doing(ModeModel::Idle);
        match self.mode {
            ModeModel::Idle => self.pressed_idle(around, key),
            ModeModel::Joining(p) => match key {
                KeyCode::Esc => (idle, RequestModel::Nothing),
                KeyCode::Enter => (self, RequestModel::Join(p.input)),
                _ => (self.doing(ModeModel::Joining(p.typed(key))), RequestModel::Nothing),
            },
            ModeModel::Granting(p) => match key {
                KeyCode::Esc => (idle, RequestModel::Nothing),
                KeyCode::Enter => if around.unlocked {
                    (self, RequestModel::Grant(p.input))
                } else {
                    (idle, RequestModel::Nothing)
                },
                _ => (self.doing(ModeModel::Granting(p.typed(key))), RequestModel::Nothing),
            },
            ModeModel::ConfirmRevoke(target, p) => match key {
                KeyCode::Esc => (idle, RequestModel::Nothing),
                KeyCode::Enter => if around.unlocked {
                    (self, RequestModel::Revoke(target, p.input))
                } else {
                    (WidgetModel { mode: ModeModel::Idle, selected: 0 }, RequestModel::Nothing)
                },
                _ => (
                    self.doing(ModeModel::ConfirmRevoke(target, p.typed(key))),
                    RequestModel::Nothing,
                ),
            },
            ModeModel::ServePrompt(p) => match key {
                KeyCode::Esc => (idle, RequestModel::Nothing),
                KeyCode::Enter => match text::parsed_number(text::trimmed(p.input), 65535) {
                    None => (
                        self.doing(
                            ModeModel::ServePrompt(
                                PromptModel { error: Some(PORT_INVALID@), ..p },
                            ),
                        ),
                        RequestModel::Nothing,
                    ),
                    Some(port) => if around.unlocked {
                        (self, RequestModel::Serve(port))
                    } else {
                        (idle, RequestModel::Nothing)
                    },
                },
                _ => (
                    self.doing(ModeModel::ServePrompt(p.typed_digit(key))),
                    RequestModel::Nothing,
                ),
            },
        }
    }

    /// After what was asked for succeeded, or failed with a message.
    pub open spec fn finished(self, result: core::result::Result<(), Seq<char>>) -> WidgetModel {
        match (self.mode, result) {
            (ModeModel::ConfirmRevoke(_, _), Ok(_)) => WidgetModel {
                mode: ModeModel::Idle,
                selected: 0,
            },
            (_, Ok(_)) => self.doing(ModeModel::Idle),
            (ModeModel::Idle, Err(_)) => self,
            (ModeModel::Joining(p), Err(m)) => self.doing(
                ModeModel::Joining(PromptModel { error: Some(m), ..p }),
            ),
            (ModeModel::Granting(p), Err(m)) => self.doing(
                ModeModel::Granting(PromptModel { error: Some(m), ..p }),
            ),
            (ModeModel::ConfirmRevoke(target, _), Err(m)) => self.doing(
                ModeModel::ConfirmRevoke(
                    target,
                    PromptModel { input: Seq::empty(), error: Some(m) },
                ),
            ),
            (ModeModel::ServePrompt(p), Err(m)) => self.doing(
                ModeModel::ServePrompt(PromptModel { error: Some(m), ..p }),
            ),
        }
    }
}

fn type_key(input: &mut String, key: KeyCode)
    ensures
        forall|error: Option<Seq<char>>|
            (#[trigger] (PromptModel { input: old(input)@, error }).typed(key)) == (PromptModel {
                input: final(input)@,
                error,
            }),
{
    match key {
        KeyCode::Backspace => text::erase_last(input),
        KeyCode::Char(c) => input.push(c),
        _ => {},
    }
}

fn press_idle(widget: &mut NetworkTabWidget, around: &Surroundings, key: KeyCode) -> (r: Request)
    requires
        old(widget).mode is Idle,
    ensures
        (final(widget)@, r@) == old(widget)@.pressed_idle(around@, key),
{
    let n: usize = around.recipients.len();
    match key {
        KeyCode::Char(c) => {
            if c == 'j' {
                widget.mode = NetworkTabMode::Joining { input: String::new(), error: None };
            } else if c == 'g' && around.unlocked {
                widget.mode = NetworkTabMode::Granting { input: String::new(), error: None };
            } else if c == 'r' && widget.recipients_selected < n {
                let target = around.recipients[widget.recipients_selected];
                assert(around@.recipients[widget.recipients_selected as int] == target@);
                widget.mode =
                NetworkTabMode::ConfirmRevoke { target, password: String::new(), error: None };
            } else if c == 'n' && around.serving {
                return Request::StopServing;
            } else if c == 'n' && around.unlocked {
                widget.mode =
                NetworkTabMode::ServePrompt { port_input: String::new(), error: None };
            }
        },
        KeyCode::Up => {
            if widget.recipients_selected > 0 {
                widget.recipients_selected = widget.recipients_selected - 1;
            }
        },
        KeyCode::Down => {
            if widget.recipients_selected < n && widget.recipients_selected + 1 < n {
                widget.recipients_selected = widget.recipients_selected + 1;
            }
        },
        _ => {},
    }
    Request::Nothing
}

/// Handles one key press.
pub fn handle_key(widget: &mut NetworkTabWidget, around: &Surroundings, key: KeyCode) -> (r: Request)
    ensures
        (final(widget)@, r@) == old(widget)@.pressed(around@, key),
{
    let mut mode = NetworkTabMode::Idle;
    core::mem::swap(&mut mode, &mut widget.mode);
    match mode {
        NetworkTabMode::Idle => press_idle(widget, around, key),
        NetworkTabMode::Joining { input, error } => {
            let mut input = input;
            match key {
                KeyCode::Esc => Request::Nothing,
                KeyCode::Enter => {
                    let request = Request::Join(input.clone());
                    widget.mode = NetworkTabMode::Joining { input, error };
                    request
                },
                _ => {
                    type_key(&mut input, key);
                    widget.mode = NetworkTabMode::Joining { input, error };
                    Request::Nothing
                },
            }
        },
        NetworkTabMode::Granting { input, error } => {
            let mut input = input;
            match key {
                KeyCode::Esc => Request::Nothing,
                KeyCode::Enter => {
                    if !around.unlocked {
                        return Request::Nothing;
                    }
                    let request = Request::Grant(input.clone());
                    widget.mode = NetworkTabMode::Granting { input, error };
                    request
                },
                _ => {
                    type_key(&mut input, key);
                    widget.mode = NetworkTabMode::Granting { input, error };
                    Request::Nothing
                },
            }
        },
        NetworkTabMode::ConfirmRevoke { target, password, error } => {
            let mut password = password;
            match key {
                KeyCode::Esc => Request::Nothing,
                KeyCode::Enter => {
                    if !around.unlocked {
                        widget.recipients_selected = 0;
                        return Request::Nothing;
                    }
                    let request = Request::Revoke(target, password.clone());
                    widget.mode = NetworkTabMode::ConfirmRevoke { target, password, error };
                    request
                },
                _ => {
                    type_key(&mut password, key);
                    widget.mode = NetworkTabMode::ConfirmRevoke { target, password, error };
                    Request::Nothing
                },
            }
        },
        NetworkTabMode::ServePrompt { port_input, error } => {
            let mut port_input = port_input;
            match key {
                KeyCode::Esc => Request::Nothing,
                KeyCode::Enter => match text::parse_u16(text::trim(port_input.as_str())) {
                    None => {
                        widget.mode =
                        NetworkTabMode::ServePrompt {
                            port_input,
                            error: Some(PORT_INVALID.to_owned()),
                        };
                        Request::Nothing
                    },
                    Some(port) => {
                        if !around.unlocked {
                            return Request::Nothing;
                        }
                        widget.mode = NetworkTabMode::ServePrompt { port_input, error };
                        Request::Serve(port)
                    },
                },
                KeyCode::Char(c) => {
                    if '0' <= c && c <= '9' {
                        type_key(&mut port_input, key);
                    }
                    widget.mode = NetworkTabMode::ServePrompt { port_input, error };
                    Request::Nothing
                },
                _ => {
                    type_key(&mut port_input, key);
                    widget.mode = NetworkTabMode::ServePrompt { port_input, error };
                    Request::Nothing
                },
            }
        },
    }
}

/// The value of what came of a request.
pub open spec fn result_of(r: core::result::Result<(), String>) -> core::result::Result<
    (),
    Seq<char>,
> {
    match r {
        Ok(u) => Ok(u),
        Err(m) => Err(m@),
    }
}

impl NetworkTabWidget {
    /// Shows what came of what was asked for.
    pub fn finish(&mut self, result: core::result::Result<(), String>)
        ensures
            final(self)@ == old(self)@.finished(result_of(result)),
    {
        let mut mode = NetworkTabMode::Idle;
        core::mem::swap(&mut mode, &mut self.mode);
        match result {
            Ok(()) => {
                if let NetworkTabMode::ConfirmRevoke { .. } = mode {
                    self.recipients_selected = 0;
                }
            },
            Err(m) => {
                self.mode =
                match mode {
                    NetworkTabMode::Idle => NetworkTabMode::Idle,
                    NetworkTabMode::Joining { input, .. } => NetworkTabMode::Joining {
                        input,
                        error: Some(m),
                    },
                    NetworkTabMode::Granting { input, .. } => NetworkTabMode::Granting {
                        input,
                        error: Some(m),
                    },
                    NetworkTabMode::ConfirmRevoke { target, .. } => NetworkTabMode::ConfirmRevoke {
                        target,
                        password: String::new(),
                        error: Some(m),
                    },
                    NetworkTabMode::ServePrompt { port_input, .. } => NetworkTabMode::ServePrompt {
                        port_input,
                        error: Some(m),
                    },
                };
            },
        }
    }
}

// ---------------------------------------------------------------------
// What the tab promises
// ---------------------------------------------------------------------

/// Revoking is about the selected peer: `r` asks for the password to take exactly
/// that peer's access away, enter then asks for it with the password that was typed,
/// and escape gives up.
pub proof fn law_revoking_is_of_the_selected(
    w: WidgetModel,
    around: SurroundingsModel,
    target: Seq<u8>,
    p: PromptModel,
)
    requires
        w.mode is Idle,
    ensures
        0 <= w.selected < around.recipients.len() ==> w.pressed(around, KeyCode::Char('r')) == (
            WidgetModel {
                mode: ModeModel::ConfirmRevoke(
                    around.recipients[w.selected],
                    PromptModel { input: Seq::empty(), error: None },
                ),
                ..w
            },
            RequestModel::Nothing,
        ),
        ({
            let u = WidgetModel { mode: ModeModel::ConfirmRevoke(target, p), ..w };
            &&& around.unlocked ==> u.pressed(around, KeyCode::Enter) == (
                u,
                RequestModel::Revoke(target, p.input),
            )
            &&& u.pressed(around, KeyCode::Esc) == (w, RequestModel::Nothing)
        }),
{
    let u = WidgetModel { mode: ModeModel::ConfirmRevoke(target, p), ..w };
    assert(u.pressed(around, KeyCode::Esc).0 =~= w);
}

/// Down goes to the next peer and up to the one before it, so that every peer can be
/// selected; at the ends the selection stays.
pub proof fn law_peer_selection_moves(w: WidgetModel, around: SurroundingsModel)
    requires
        w.mode is Idle,
        0 <= w.selected < around.recipients.len(),
    ensures
        w.selected + 1 < around.recipients.len() ==> w.pressed(around, KeyCode::Down).0 == (
        WidgetModel { selected: w.selected + 1, ..w }),
        w.selected + 1 == around.recipients.len() ==> w.pressed(around, KeyCode::Down).0 == w,
        w.selected > 0 ==> w.pressed(around, KeyCode::Up).0 == (WidgetModel {
            selected: w.selected - 1,
            ..w
        }),
        w.selected == 0 ==> w.pressed(around, KeyCode::Up).0 == w,
{
}

/// Joining and granting go by the invite code that was typed: `j` and `g` ask for
/// it, enter passes it on as it is, and escape gives up. Only an unlocked vault can
/// be granted.
pub proof fn law_invites_are_passed_on(
    w: WidgetModel,
    around: SurroundingsModel,
    p: PromptModel,
)
    requires
        w.mode is Idle,
    ensures
        w.pressed(around, KeyCode::Char('j')).0.mode == ModeModel::Joining(
            PromptModel { input: Seq::empty(), error: None },
        ),
        around.unlocked ==> w.pressed(around, KeyCode::Char('g')).0.mode == ModeModel::Granting(
            PromptModel { input: Seq::empty(), error: None },
        ),
        !around.unlocked ==> w.pressed(around, KeyCode::Char('g')).0 == w,
        ({
            let joining = WidgetModel { mode: ModeModel::Joining(p), ..w };
            let granting = WidgetModel { mode: ModeModel::Granting(p), ..w };
            &&& joining.pressed(around, KeyCode::Enter) == (joining, RequestModel::Join(p.input))
            &&& joining.pressed(around, KeyCode::Esc) == (w, RequestModel::Nothing)
            &&& around.unlocked ==> granting.pressed(around, KeyCode::Enter) == (
                granting,
                RequestModel::Grant(p.input),
            )
            &&& granting.pressed(around, KeyCode::Esc) == (w, RequestModel::Nothing)
        }),
{
    let joining = WidgetModel { mode: ModeModel::Joining(p), ..w };
    let granting = WidgetModel { mode: ModeModel::Granting(p), ..w };
    assert(joining.pressed(around, KeyCode::Esc).0 =~= w);
    assert(granting.pressed(around, KeyCode::Esc).0 =~= w);
}

/// Serving goes by the port that was typed: `n` stops serving, or else asks for the
/// port of the unlocked vault; enter serves on the number that was typed if it is
/// one of a port, and else says that it is not.
pub proof fn law_serving_is_on_the_typed_port(
    w: WidgetModel,
    around: SurroundingsModel,
    p: PromptModel,
)
    requires
        w.mode is Idle,
    ensures
        around.serving ==> w.pressed(around, KeyCode::Char('n')) == (w, RequestModel::StopServing),
        !around.serving && around.unlocked ==> w.pressed(around, KeyCode::Char('n')).0.mode
            == ModeModel::ServePrompt(PromptModel { input: Seq::empty(), error: None }),
        !around.serving && !around.unlocked ==> w.pressed(around, KeyCode::Char('n')) == (
            w,
            RequestModel::Nothing,
        ),
        ({
            let u = WidgetModel { mode: ModeModel::ServePrompt(p), ..w };
            &&& u.pressed(around, KeyCode::Esc) == (w, RequestModel::Nothing)
            &&& around.unlocked ==> match text::parsed_number(text::trimmed(p.input), 65535) {
                Some(port) => u.pressed(around, KeyCode::Enter) == (u, RequestModel::Serve(port)),
                None => u.pressed(around, KeyCode::Enter).1 is Nothing && u.pressed(
                    around,
                    KeyCode::Enter,
                ).0.mode == ModeModel::ServePrompt(
                    PromptModel { error: Some(PORT_INVALID@), ..p },
                ),
            }
        }),
{
    let u = WidgetModel { mode: ModeModel::ServePrompt(p), ..w };
    assert(u.pressed(around, KeyCode::Esc).0 =~= w);
}

/// What is being typed in a mode.
pub open spec fn prompt_of(mode: ModeModel) -> PromptModel {
    match mode {
        ModeModel::Idle => PromptModel { input: Seq::empty(), error: None },
        ModeModel::Joining(p) => p,
        ModeModel::Granting(p) => p,
        ModeModel::ConfirmRevoke(_, p) => p,
        ModeModel::ServePrompt(p) => p,
    }
}

/// What is typed goes to the end of the text, and backspace takes it back. The
/// prompt for a port takes digits only.
pub proof fn law_prompt_is_what_was_typed(
    w: WidgetModel,
    around: SurroundingsModel,
    c: char,
)
    requires
        !(w.mode is Idle),
    ensures
        ({
            let u = w.pressed(around, KeyCode::Char(c)).0;
            let refused = w.mode is ServePrompt && !('0' <= c <= '9');
            &&& w.pressed(around, KeyCode::Char(c)).1 is Nothing
            &&& refused ==> u == w
            &&& !refused ==> prompt_of(u.mode).input == prompt_of(w.mode).input + seq![c]
            &&& !refused ==> u.pressed(around, KeyCode::Backspace) == (w, RequestModel::Nothing)
        }),
{
    let u = w.pressed(around, KeyCode::Char(c)).0;
    let p = prompt_of(w.mode);
    assert(p.input.push(c) =~= p.input + seq![c]);
    assert(p.input.push(c).drop_last() =~= p.input);
    if w.mode is ServePrompt && !('0' <= c <= '9') {
        assert(u =~= w);
    } else {
        let back = u.pressed(around, KeyCode::Backspace).0;
        assert(prompt_of(back.mode) =~= p);
        assert(back.mode =~= w.mode);
        assert(back =~= w);
    }
}

/// Nothing is asked for unless it was prompted for and entered.
pub proof fn law_nothing_is_asked_by_itself(
    w: WidgetModel,
    around: SurroundingsModel,
    key: KeyCode,
)
    ensures
        w.pressed(around, key).1 is Join <==> w.mode is Joining && key is Enter,
        w.pressed(around, key).1 is Grant <==> w.mode is Granting && key is Enter
            && around.unlocked,
        w.pressed(around, key).1 is Revoke <==> w.mode is ConfirmRevoke && key is Enter
            && around.unlocked,
        w.pressed(around, key).1 is Serve ==> w.mode is ServePrompt && key is Enter
            && around.unlocked,
        w.pressed(around, key).1 is StopServing <==> w.mode is Idle && key == KeyCode::Char('n')
            && around.serving,
        !(w.pressed(around, key).1 is Nothing) ==> w.pressed(around, key).0 == w,
{
}

/// What was asked for and succeeded is done with. What failed stays open with the
/// reason, and with what was typed, except for a password.
pub proof fn law_failures_are_shown(w: WidgetModel, why: Seq<char>)
    ensures
        w.finished(Ok(())).mode is Idle,
        w.finished(Err(why)).selected == w.selected,
        !(w.mode is Idle) ==> prompt_of(w.finished(Err(why)).mode).error == Some(why),
        w.mode is Joining || w.mode is Granting || w.mode is ServePrompt ==> prompt_of(
            w.finished(Err(why)).mode,
        ).input == prompt_of(w.mode).input,
        w.mode matches ModeModel::ConfirmRevoke(target, _) ==> w.finished(Err(why)).mode
            == ModeModel::ConfirmRevoke(
            target,
            PromptModel { input: Seq::empty(), error: Some(why) },
        ),
        w.mode is Joining ==> w.finished(Err(why)).mode is Joining,
        w.mode is Granting ==> w.finished(Err(why)).mode is Granting,
        w.mode is ServePrompt ==> w.finished(Err(why)).mode is ServePrompt,
{
}

} // verus!
