use ruvault::cli::console::{parse_command, split_words, Command, Served};
use ruvault::engine::error::VaultError;
use ruvault::engine::identity::Identity;
use ruvault::engine::vault::Vault;
use ruvault::net::journal::PatchJournal;

#[test]
fn words_stand_between_white_space() {
    assert_eq!(split_words("  add\ta.txt   b "), vec!["add", "a.txt", "b"]);
    assert!(split_words(" \t ").is_empty());
    assert_eq!(split_words("\u{2003}x\u{a0}y"), vec!["x", "y"]);
}

#[test]
fn commands_are_read() {
    assert!(matches!(parse_command(""), Command::Help));
    assert!(matches!(parse_command("help me"), Command::Help));
    assert!(matches!(parse_command(" list "), Command::List));
    assert!(matches!(parse_command("quit"), Command::Quit));
    assert!(matches!(parse_command("exit"), Command::Quit));
    assert!(matches!(parse_command("add /tmp/a a.txt more"),
        Command::Add(s, n) if s == "/tmp/a" && n == "a.txt"));
    assert!(matches!(parse_command("update /tmp/a a.txt"),
        Command::Update(s, n) if s == "/tmp/a" && n == "a.txt"));
    assert!(matches!(parse_command("delete a.txt"), Command::Delete(n) if n == "a.txt"));
    assert!(matches!(parse_command("frob x"), Command::Unknown(w) if w == "frob"));
}

#[test]
fn commands_with_something_missing_say_how_they_are_used() {
    assert!(matches!(parse_command("add one"), Command::Usage("add <source-path> <name>")));
    assert!(matches!(parse_command("update"), Command::Usage("update <source-path> <name>")));
    assert!(matches!(parse_command("delete"), Command::Usage("delete <name>")));
}

#[test]
fn a_change_is_recorded_only_if_it_succeeds() {
    let vault = Vault::create("V", "d", 256 * 1024, "pw", Identity::generate()).unwrap();
    let mut served = Served { vault, journal: PatchJournal::new(4) };
    let (seq, _) = served.vault.chain_state();
    let change = served.add("a.txt", b"alpha");
    assert!(change.result.is_ok());
    assert!(!change.writes.is_empty());
    assert_eq!(served.journal.ranges_since(seq).unwrap(), change.writes);
    assert!(served.vault.change_log().is_empty());

    let change = served.add("a.txt", b"again");
    assert!(matches!(change.result, Err(VaultError::FileAlreadyExists(_))));
    assert!(change.writes.is_empty());
    assert_eq!(served.journal.ranges_since(seq + 1).unwrap(), vec![]);

    assert!(served.update("a.txt", b"beta").result.is_ok());
    assert_eq!(served.vault.read_file("a.txt").unwrap(), b"beta");
    assert!(served.delete("a.txt").result.is_ok());
    assert!(matches!(served.delete("a.txt").result, Err(VaultError::FileNotFound(_))));
}
