use ruvault::engine::error::VaultError;
use ruvault::engine::identity::Identity;
use ruvault::engine::image::Image;
use ruvault::engine::session::{Duration, Instant, Session};
use ruvault::engine::vault::Vault;
use ruvault::net::invite::InviteCode;
use ruvault::net::protocol::SyncMessage;
use ruvault::tui::app::App;
use ruvault::tui::event::{handle_key, Request};
use ruvault::tui::key::KeyCode;
use ruvault::tui::log::{log_entry, read_recent};
use ruvault::tui::network_bridge::{conclude, requested_seq, BridgeEvent, SyncResponse};
use ruvault::tui::paths;
use ruvault::tui::settings::AppSettings;
use ruvault::tui::tab::Tab;
use ruvault::tui::widgets::footer::hint;
use ruvault::tui::widgets::network_tab::{self, NetworkTabMode};
use ruvault::tui::widgets::peering;
use ruvault::tui::widgets::vaults::create::CreateForm;
use ruvault::tui::widgets::vaults::naming::{CapacityNumber, VaultListing};
use ruvault::tui::widgets::vaults::unlocked::{Outcome, UnlockedState};
use ruvault::tui::widgets::vaults::{self, Mode};

const CAPACITY: u64 = 256 * 1024;

fn listing(path: &str, name: &str) -> VaultListing {
    VaultListing {
        path: path.to_string(),
        name: name.to_string(),
        description: String::new(),
        capacity_bytes: CAPACITY,
    }
}

fn application(found: Vec<VaultListing>) -> App {
    let vaults = vaults::App::new_with_dir("/vaults".to_string(), found, Identity::generate());
    App::new(AppSettings { vaults_dir: "/vaults".to_string() }, vaults)
}

fn press(app: &mut App, text: &str) {
    for c in text.chars() {
        handle_key(app, KeyCode::Char(c));
    }
}

fn opened(identity: &Identity) -> Vault {
    Vault::create("Demo", "", CAPACITY, "pw", Identity::from_bytes(&identity.to_bytes())).unwrap()
}

/// An application with one vault, unlocked.
fn unlocked() -> App {
    let mut app = application(vec![listing("/vaults/demo.rvlt", "Demo")]);
    let vault = opened(&app.vaults.identity);
    handle_key(&mut app, KeyCode::Enter);
    app.vaults.finish_unlock(Ok(vault), Session::new());
    app
}

fn state(app: &mut App) -> &mut UnlockedState {
    match &mut app.vaults.mode {
        Mode::Unlocked(s) => s,
        _ => panic!("no vault is unlocked"),
    }
}

#[test]
fn tabs_follow_each_other() {
    let mut app = application(vec![]);
    assert_eq!(app.index(), 0);
    for expected in [Tab::Network, Tab::Logs, Tab::Vaults] {
        assert!(matches!(handle_key(&mut app, KeyCode::Tab), Request::Nothing));
        assert_eq!(app.selected_tab, expected);
    }
    assert!(matches!(handle_key(&mut app, KeyCode::Char('q')), Request::Quit));
    assert!(matches!(handle_key(&mut app, KeyCode::Esc), Request::Quit));
}

#[test]
fn the_selection_stays_in_the_list() {
    let mut app = application(vec![listing("b", "b"), listing("a", "a")]);
    assert_eq!(app.vaults.listing[0].name, "a");
    handle_key(&mut app, KeyCode::Down);
    handle_key(&mut app, KeyCode::Down);
    assert_eq!(app.vaults.selected, 1);
    app.vaults.refresh(vec![listing("a", "a")]);
    assert_eq!(app.vaults.selected, 0);
    app.vaults.refresh(vec![]);
    assert_eq!(app.vaults.selected, 0);
    assert!(matches!(
        handle_key(&mut app, KeyCode::Enter),
        Request::Vaults(vaults::Request::Refresh)
    ));
}

#[test]
fn a_vault_is_created_from_the_form() {
    let mut app = application(vec![]);
    handle_key(&mut app, KeyCode::Char('+'));
    assert!(app.intercepts_quit() && app.blocks_tab_switch());
    press(&mut app, " Demo ");
    handle_key(&mut app, KeyCode::Tab);
    handle_key(&mut app, KeyCode::Tab);
    handle_key(&mut app, KeyCode::Tab);
    press(&mut app, "pw");
    handle_key(&mut app, KeyCode::Enter);
    press(&mut app, "pw");
    assert!(matches!(
        handle_key(&mut app, KeyCode::Enter),
        Request::Vaults(vaults::Request::Create)
    ));
    let form = match &app.vaults.mode {
        Mode::Creating(form) => form,
        _ => panic!("the form is gone"),
    };
    let (number, unit) = form.capacity_parts().unwrap();
    assert_eq!((number.as_str(), unit), ("10", 1 << 30));
    let number = CapacityNumber { positive: true, bytes: CAPACITY };
    let vault = form.found(Some(number), app.vaults.identity.duplicate()).unwrap();
    assert_eq!(vault.summary().name, "Demo");
    assert!(vault.is_admin());
    assert_eq!(app.vaults.finish_create(Ok(())).unwrap(), "vault created: Demo");
    assert!(matches!(app.vaults.mode, Mode::Browsing));
}

#[test]
fn the_form_for_a_new_vault_says_what_is_missing() {
    let mut form = CreateForm::default();
    let refusal = |f: &CreateForm| {
        let number = CapacityNumber { positive: true, bytes: CAPACITY };
        f.found(Some(number), Identity::generate()).err().unwrap()
    };
    assert_eq!(refusal(&form), "Name is required");
    form.name = "n".to_string();
    assert_eq!(refusal(&form), "Password is required");
    form.password = "a".to_string();
    assert_eq!(refusal(&form), "Passwords do not match");
    form.confirm = "a".to_string();
    form.capacity = " ".to_string();
    assert_eq!(refusal(&form), "Capacity is required");
    form.capacity = "1 kb".to_string();
    assert_eq!(
        form.found(None, Identity::generate()).err().unwrap(),
        "Could not parse capacity number"
    );
    let zero = CapacityNumber { positive: false, bytes: 0 };
    assert_eq!(
        form.found(Some(zero), Identity::generate()).err().unwrap(),
        "Capacity must be greater than zero"
    );
    let small = CapacityNumber { positive: true, bytes: 10 };
    assert_eq!(
        form.found(Some(small), Identity::generate()).err().unwrap(),
        "requested capacity is too small to hold vault metadata"
    );
}

#[test]
fn a_failed_creation_keeps_the_form() {
    let mut app = application(vec![]);
    app.vaults.create();
    assert!(app.vaults.finish_create(Err("no room".to_string())).is_none());
    match &app.vaults.mode {
        Mode::Creating(form) => assert_eq!(form.error.as_deref(), Some("no room")),
        _ => panic!("the form is gone"),
    }
}

#[test]
fn a_wrong_password_clears_the_prompt() {
    let mut app = application(vec![listing("/v/demo.rvlt", "Demo")]);
    handle_key(&mut app, KeyCode::Enter);
    press(&mut app, "pqx");
    handle_key(&mut app, KeyCode::Backspace);
    match handle_key(&mut app, KeyCode::Enter) {
        Request::Vaults(vaults::Request::Unlock(path, password)) => {
            assert_eq!((path.as_str(), password.as_str()), ("/v/demo.rvlt", "pq"));
        }
        _ => panic!("nothing to open"),
    }
    assert!(app.vaults.finish_unlock(Err(VaultError::IncorrectPassword), Session::new()).is_none());
    match &app.vaults.mode {
        Mode::Unlocking(form, _, _) => {
            assert_eq!(form.password, "");
            assert_eq!(form.error.as_deref(), Some("Incorrect password"));
        }
        _ => panic!("the prompt is gone"),
    }
    press(&mut app, "z");
    app.vaults.finish_unlock(Err(VaultError::NotARvltFile), Session::new());
    match &app.vaults.mode {
        Mode::Unlocking(form, _, _) => {
            assert_eq!(form.password, "z");
            assert_eq!(
                form.error.as_deref(),
                Some("the file is not a valid .rvlt container (bad magic bytes)")
            );
        }
        _ => panic!("the prompt is gone"),
    }
}

#[test]
fn files_are_added_updated_and_deleted() {
    let mut app = unlocked();
    handle_key(&mut app, KeyCode::Char('a'));
    assert!(app.blocks_tab_switch());
    press(&mut app, "/tmp/x");
    handle_key(&mut app, KeyCode::Enter);
    press(&mut app, "x.txt");
    match handle_key(&mut app, KeyCode::Enter) {
        Request::Vaults(vaults::Request::File(Outcome::Add(path))) => assert_eq!(path, "/tmp/x"),
        _ => panic!("nothing to add"),
    }
    let s = state(&mut app);
    let effects = s.submit_add(Ok(b"content".to_vec()));
    assert_eq!(effects.log.as_deref(), Some("file added to vault \"Demo\": x.txt"));
    assert!(!effects.writes.is_empty());
    assert_eq!(s.files.len(), 1);
    assert_eq!(s.vault.read_file("x.txt").unwrap(), b"content");

    handle_key(&mut app, KeyCode::Char('u'));
    press(&mut app, "/tmp/y");
    assert!(matches!(
        handle_key(&mut app, KeyCode::Enter),
        Request::Vaults(vaults::Request::File(Outcome::Update(_)))
    ));
    let s = state(&mut app);
    s.submit_update(Ok(b"new".to_vec()));
    assert_eq!(s.vault.read_file("x.txt").unwrap(), b"new");

    handle_key(&mut app, KeyCode::Char('v'));
    state(&mut app).verify();
    assert_eq!(state(&mut app).message.as_deref(), Some("Integrity check passed."));

    handle_key(&mut app, KeyCode::Char('d'));
    assert_eq!(state(&mut app).delete_confirm.as_deref(), Some("x.txt"));
    assert!(matches!(
        handle_key(&mut app, KeyCode::Char('y')),
        Request::Vaults(vaults::Request::File(Outcome::Delete))
    ));
    let s = state(&mut app);
    let effects = s.confirm_delete();
    assert_eq!(effects.log.as_deref(), Some("file deleted from vault \"Demo\": x.txt"));
    assert!(s.files.is_empty());
    assert_eq!(s.message.as_deref(), Some("Deleted \"x.txt\""));
}

#[test]
fn what_was_written_is_what_the_file_needs() {
    let mut app = unlocked();
    let s = state(&mut app);
    let mut file = Image::from_bytes(&s.vault.export_full().unwrap());
    s.add_form = Some(Default::default());
    s.add_form.as_mut().unwrap().dest_name = "x.txt".to_string();
    let effects = s.submit_add(Ok(vec![5; 5000]));
    for (offset, bytes) in &effects.writes {
        file.write(*offset, bytes).unwrap();
    }
    assert_eq!(file.to_vec(), s.vault.export_full().unwrap());
}

#[test]
fn a_source_that_cannot_be_read_is_reported() {
    let mut app = unlocked();
    let s = state(&mut app);
    s.add_form = Some(Default::default());
    let effects = s.submit_add(Err("no such file".to_string()));
    assert!(effects.writes.is_empty());
    let error = s.add_form.as_ref().unwrap().error.clone();
    assert_eq!(error.as_deref(), Some("Could not read source file: no such file"));
}

#[test]
fn an_idle_vault_locks_itself() {
    let mut app = unlocked();
    let start = state(&mut app).session.last_activity;
    let after = |secs: u64| Instant { nanos: start.nanos + Duration::from_secs(secs).nanos };
    assert!(app.vaults.check_timeout_at(after(29)).is_none());
    assert!(matches!(app.vaults.mode, Mode::Unlocked(_)));
    assert!(app.tick().is_none());
    assert_eq!(
        app.vaults.check_timeout_at(after(30)).as_deref(),
        Some("vault auto-locked after inactivity: Demo")
    );
    assert!(matches!(app.vaults.mode, Mode::Browsing));
}

#[test]
fn leaving_an_unlocked_vault_locks_it() {
    let mut app = unlocked();
    match handle_key(&mut app, KeyCode::Char('q')) {
        Request::Vaults(vaults::Request::Locked(line)) => assert_eq!(line, "vault locked: Demo"),
        _ => panic!("the vault is still open"),
    }
    assert!(matches!(app.vaults.mode, Mode::Browsing));
}

#[test]
fn the_network_tab_asks_for_ports() {
    let mut app = unlocked();
    handle_key(&mut app, KeyCode::Tab);
    handle_key(&mut app, KeyCode::Char('n'));
    assert!(app.intercepts_quit());
    press(&mut app, "70x000");
    assert!(matches!(
        handle_key(&mut app, KeyCode::Enter),
        Request::Network(network_tab::Request::Nothing)
    ));
    match &app.network_ui.mode {
        NetworkTabMode::ServePrompt { port_input, error } => {
            assert_eq!(port_input, "70000");
            assert_eq!(error.as_deref(), Some("Enter a valid port number (1-65535)"));
        }
        _ => panic!("no port is asked for"),
    }
    handle_key(&mut app, KeyCode::Backspace);
    assert!(matches!(
        handle_key(&mut app, KeyCode::Enter),
        Request::Network(network_tab::Request::Serve(7000))
    ));
    assert_eq!(
        peering::start_serving(state(&mut app), 7000),
        "started serving vault \"Demo\" on port 7000"
    );
    app.network_ui.finish(Ok(()));
    assert!(!network_tab::is_modal(&app.network_ui));
    assert!(matches!(
        handle_key(&mut app, KeyCode::Char('n')),
        Request::Network(network_tab::Request::StopServing)
    ));
    assert_eq!(
        peering::stop_serving(state(&mut app)).as_deref(),
        Some("stopped serving vault \"Demo\"")
    );
    assert!(peering::stop_serving(state(&mut app)).is_none());
}

#[test]
fn peers_are_granted_served_and_revoked() {
    let mut app = unlocked();
    let peer = Identity::generate();
    let print = peer.peer_id().fingerprint();
    let invite = InviteCode { peer_id: peer.peer_id(), address: None };

    let s = state(&mut app);
    peering::start_serving(s, 7000);
    assert!(matches!(peering::answer(s, &peer.peer_id(), 0), SyncResponse::NotGranted));
    let done = peering::submit_grant(s, &invite.encode(), true);
    assert!(done.result.is_ok());
    assert_eq!(
        done.effects.log.unwrap(),
        format!("granted access to {print} on vault \"Demo\"")
    );
    assert!(matches!(
        peering::answer(s, &peer.peer_id(), 0),
        SyncResponse::Message(SyncMessage::FullSync { .. })
    ));
    let again = peering::submit_grant(s, &invite.encode(), true);
    assert_eq!(again.result.err().unwrap(), "this identity already has access to the vault");
    let broken = peering::submit_grant(s, "xyz", true);
    assert!(broken.result.is_err() && broken.effects.writes.is_empty());

    let (seq, _) = s.vault.chain_state();
    s.add_form = Some(Default::default());
    s.add_form.as_mut().unwrap().dest_name = "x.txt".to_string();
    s.submit_add(Ok(b"content".to_vec()));
    assert!(matches!(
        peering::answer(s, &peer.peer_id(), seq),
        SyncResponse::Message(SyncMessage::Patch { .. })
    ));

    let line = peering::note_event(s, BridgeEvent::Synced(peer.peer_id()));
    assert_eq!(line.unwrap(), format!("peer synced: {print} on vault \"Demo\""));
    assert!(peering::note_event(s, BridgeEvent::Failed("gone".to_string())).is_none());
    assert_eq!(s.message.as_deref(), Some("Sync failed: gone"));

    handle_key(&mut app, KeyCode::Tab);
    handle_key(&mut app, KeyCode::Char('r'));
    press(&mut app, "pw");
    let (target, password) = match handle_key(&mut app, KeyCode::Enter) {
        Request::Network(network_tab::Request::Revoke(t, p)) => (t, p),
        _ => panic!("nobody to revoke"),
    };
    assert_eq!(target, peer.peer_id());
    app.network_ui.finish(Err("no".to_string()));
    match &app.network_ui.mode {
        NetworkTabMode::ConfirmRevoke { password, error, .. } => {
            assert_eq!(password, "");
            assert_eq!(error.as_deref(), Some("no"));
        }
        _ => panic!("no password is asked for"),
    }
    let done = peering::submit_revoke(state(&mut app), &target, &password);
    assert_eq!(
        done.effects.log.unwrap(),
        format!("revoked access from {print} on vault \"Demo\" (key rotated)")
    );
    app.network_ui.finish(done.result);
    assert!(!network_tab::is_modal(&app.network_ui));
    let s = state(&mut app);
    assert!(matches!(peering::answer(s, &peer.peer_id(), 0), SyncResponse::NotGranted));
    assert_eq!(s.vault.read_file("x.txt").unwrap(), b"content");

    // No patch leads across the rotation.
    assert!(peering::submit_grant(s, &invite.encode(), true).result.is_ok());
    let (next, _) = s.vault.chain_state();
    s.add_form = Some(Default::default());
    s.add_form.as_mut().unwrap().dest_name = "y.txt".to_string();
    s.submit_add(Ok(b"more".to_vec()));
    assert!(matches!(
        peering::answer(s, &peer.peer_id(), seq),
        SyncResponse::Message(SyncMessage::FullSync { .. })
    ));
    assert!(matches!(
        peering::answer(s, &peer.peer_id(), next),
        SyncResponse::Message(SyncMessage::Patch { .. })
    ));
}

#[test]
fn without_a_vault_there_is_nobody_to_grant() {
    let mut app = application(vec![]);
    handle_key(&mut app, KeyCode::Tab);
    for key in ['g', 'r', 'n'] {
        handle_key(&mut app, KeyCode::Char(key));
        assert!(!network_tab::is_modal(&app.network_ui));
    }
    handle_key(&mut app, KeyCode::Char('j'));
    press(&mut app, "00");
    let input = match handle_key(&mut app, KeyCode::Enter) {
        Request::Network(network_tab::Request::Join(input)) => input,
        _ => panic!("nothing to join"),
    };
    let why = peering::plan_join(&input, true).err().unwrap();
    assert_eq!(why, ".rvlt container is corrupted or malformed: invite code is too short");
    app.network_ui.finish(Err(why.clone()));
    match &app.network_ui.mode {
        NetworkTabMode::Joining { error, .. } => assert_eq!(error.as_deref(), Some(why.as_str())),
        _ => panic!("no code is asked for"),
    }
    handle_key(&mut app, KeyCode::Esc);
    assert!(!network_tab::is_modal(&app.network_ui));
}

#[test]
fn joining_needs_an_address() {
    let peer_id = Identity::generate().peer_id();
    let without = InviteCode { peer_id, address: None }.encode();
    assert_eq!(
        peering::plan_join(&without, true).err().unwrap(),
        "This invite code has no address to connect to."
    );
    let with = InviteCode { peer_id, address: Some("10.0.0.1:9".to_string()) }.encode();
    let plan = peering::plan_join(&with, true).ok().unwrap();
    assert_eq!(plan.address, "10.0.0.1:9");
    assert_eq!(plan.file_name, format!("joined-{}.rvlt", peer_id.fingerprint()));
    assert_eq!(
        peering::plan_join(&with, false).err().unwrap(),
        ".rvlt container is corrupted or malformed: invite code has an invalid address"
    );
    assert_eq!(
        peering::joined_line("Demo", "10.0.0.1:9"),
        "joined vault \"Demo\" as a peer via 10.0.0.1:9"
    );
}

#[test]
fn answers_end_a_connection() {
    let peer = Identity::generate().peer_id();
    let (message, result) = conclude(SyncResponse::NotGranted, peer);
    assert_eq!(
        message,
        SyncMessage::Error { message: "not granted access to this vault".to_string() }
    );
    assert_eq!(
        result.err().unwrap(),
        format!("{} is not granted access", peer.fingerprint())
    );
    let (message, result) = conclude(SyncResponse::Message(SyncMessage::UpToDate), peer);
    assert_eq!(message, SyncMessage::UpToDate);
    assert_eq!(result.unwrap(), peer);
    let state = SyncMessage::ChainState { next_seq: 9, last_hash: [0; 32] };
    assert_eq!(requested_seq(&state.encode()).unwrap(), 9);
    assert_eq!(
        requested_seq(&SyncMessage::UpToDate.encode()).err().unwrap(),
        "peer did not send ChainState first"
    );
}

#[test]
fn the_footer_names_the_keys() {
    let mut app = application(vec![]);
    assert_eq!(
        hint(&app),
        "Press 'q' to quit, '↹' to navigate tabs, '↵' to unlock, '+' new vault."
    );
    handle_key(&mut app, KeyCode::Char('+'));
    assert_eq!(
        hint(&app),
        "Press ↵ to continue/submit, Esc to cancel, ↹/⬇⬆ to move between fields."
    );
    handle_key(&mut app, KeyCode::Esc);
    app.selected_tab = Tab::Settings;
    handle_key(&mut app, KeyCode::Enter);
    assert_eq!(hint(&app), "Press ↵ to save, Esc to cancel.");
}

#[test]
fn the_vaults_directory_is_edited() {
    let mut app = application(vec![]);
    app.selected_tab = Tab::Settings;
    handle_key(&mut app, KeyCode::Enter);
    press(&mut app, "/new ");
    assert!(matches!(handle_key(&mut app, KeyCode::Enter), Request::SaveSettings));
    assert_eq!(app.settings.vaults_dir, "/vaults/new");
    handle_key(&mut app, KeyCode::Enter);
    press(&mut app, "zzz");
    assert!(matches!(handle_key(&mut app, KeyCode::Esc), Request::Nothing));
    assert_eq!(app.settings.vaults_dir, "/vaults/new");
}

#[test]
fn settings_are_read_back() {
    let settings = AppSettings { vaults_dir: "/a/b c".to_string() };
    let text = settings.render();
    assert_eq!(AppSettings::parse(&text, "/default").vaults_dir, "/a/b c");
    assert_eq!(AppSettings::parse("", "/default").vaults_dir, "/default");
    assert_eq!(AppSettings::parse("other=1\n", "/default").vaults_dir, "/default");
}

#[test]
fn log_lines_carry_their_time_and_the_last_are_read() {
    let lines: Vec<String> =
        (0..5u64).map(|i| log_entry(100 + i, &format!("event {i}"))).collect();
    let recent = read_recent(&lines, 2);
    assert_eq!(recent.len(), 2);
    assert!(recent[0].contains("event 3") && recent[0].contains("103"));
    assert!(recent[1].contains("event 4"));
    assert_eq!(read_recent(&lines, 10).len(), 5);
}

#[test]
fn files_stand_in_the_home_directory() {
    let some = |s: &str| Some(s.to_string());
    assert_eq!(paths::app_home_dir(some("/r"), some("/h")), "/r");
    let home = paths::app_home_dir(None, some("/h"));
    assert_eq!(home, "/h/.revault");
    assert!(paths::identity_file(&home).starts_with("/h/.revault/"));
    assert_eq!(paths::join("/a", "b"), "/a/b");
}

#[test]
fn a_grant_goes_along_with_the_next_patch() {
    let mut app = unlocked();
    let peer = Identity::generate();
    let invite = InviteCode { peer_id: peer.peer_id(), address: None };
    let s = state(&mut app);
    let add = |s: &mut UnlockedState, name: &str| {
        s.add_form = Some(Default::default());
        s.add_form.as_mut().unwrap().dest_name = name.to_string();
        s.submit_add(Ok(b"content".to_vec()));
    };
    peering::start_serving(s, 7000);
    add(s, "a");
    let before = s.vault.export_full().unwrap();
    let (seq_before, _) = s.vault.chain_state();
    peering::submit_grant(s, &invite.encode(), true);
    let between = s.vault.export_full().unwrap();
    let (seq_between, _) = s.vault.chain_state();
    add(s, "b");
    let after = s.vault.export_full().unwrap();
    for (start, seq) in [(before, seq_before), (between, seq_between)] {
        match peering::answer(s, &peer.peer_id(), seq) {
            SyncResponse::Message(SyncMessage::Patch { ranges, .. }) => {
                let mut replica = Image::from_bytes(&start);
                for (offset, bytes) in &ranges {
                    replica.write(*offset, bytes).unwrap();
                }
                assert_eq!(replica.to_vec(), after);
            }
            _ => panic!("no patch"),
        }
    }
}
