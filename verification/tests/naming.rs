use ruvault::tui::widgets::vaults::naming::{
    check_capacity, is_vault_file, slugify, sort_listing, split_capacity, vault_file_name,
    CapacityNumber, VaultListing,
};

/// Reads a capacity; only the number itself is left to floating point.
fn parse_capacity(input: &str) -> Result<u64, &'static str> {
    let (number, unit) = split_capacity(input)?;
    let parsed = number
        .parse::<f64>()
        .ok()
        .map(|n| CapacityNumber { positive: !(n <= 0.0), bytes: (n * unit as f64) as u64 });
    check_capacity(parsed)
}

#[test]
fn parse_capacity_units() {
    assert_eq!(parse_capacity("10 GB").unwrap(), 10 * 1024 * 1024 * 1024);
    assert_eq!(parse_capacity("500MB").unwrap(), 500 * 1024 * 1024);
    assert_eq!(parse_capacity("1tb").unwrap(), 1024 * 1024 * 1024 * 1024);
    assert_eq!(parse_capacity("2048").unwrap(), 2048);
}

#[test]
fn parse_capacity_rejects_garbage() {
    assert!(parse_capacity("").is_err());
    assert!(parse_capacity("not a number").is_err());
    assert!(parse_capacity("-5 GB").is_err());
}

#[test]
fn slugify_produces_filesystem_safe_names() {
    assert_eq!(slugify("My Cool Vault!"), "my-cool-vault");
    assert_eq!(slugify("   "), "vault");
    // Non-ASCII letters are treated as separators (kept ASCII-only for
    // filesystem-safety); only the ASCII consonants survive here.
    assert_eq!(slugify("Ünïcödé"), "n-c-d");
}

#[test]
fn each_flaw_of_a_capacity_has_its_message() {
    assert_eq!(parse_capacity("  "), Err("Capacity is required"));
    assert_eq!(parse_capacity("ten gb"), Err("Could not parse capacity number"));
    assert_eq!(parse_capacity("0 kb"), Err("Capacity must be greater than zero"));
    assert_eq!(parse_capacity("1.5 KB"), Ok(1536));
    assert_eq!(split_capacity("3 B").unwrap(), ("3".to_string(), 1));
}

#[test]
fn file_names_are_numbered_from_the_second_on() {
    assert_eq!(vault_file_name("notes", 1), "notes.rvlt");
    assert_eq!(vault_file_name("notes", 2), "notes-2.rvlt");
    assert!(is_vault_file("notes-2.rvlt"));
    assert!(!is_vault_file("notes.txt"));
    assert!(!is_vault_file(".rvlt"));
}

#[test]
fn vaults_are_listed_by_name() {
    let listing = |name: &str, path: &str| VaultListing {
        path: path.to_string(),
        name: name.to_string(),
        description: String::new(),
        capacity_bytes: 0,
    };
    let found = vec![listing("b", "1"), listing("a", "2"), listing("b", "3"), listing("B", "4")];
    let order: Vec<String> = sort_listing(found).into_iter().map(|l| l.path).collect();
    assert_eq!(order, vec!["4", "2", "1", "3"]);
}
