//! Where the application keeps its own files. A vault needs none of them.

use vstd::prelude::*;

use crate::engine::text;

verus! {

/// The path of `name` inside the directory `dir`.
pub open spec fn inside(dir: Seq<char>, name: Seq<char>) -> Seq<char> {
    if dir.len() == 0 || dir.last() == '/' {
        dir + name
    } else {
        dir.push('/') + name
    }
}

/// The application's directory, given what the environment says of
/// `REVAULT_HOME` and of `HOME`.
pub open spec fn home_of(revault_home: Option<Seq<char>>, home: Option<Seq<char>>) -> Seq<char> {
    match (revault_home, home) {
        (Some(dir), _) => dir,
        (None, Some(dir)) => inside(dir, ".revault"@),
        (None, None) => ".revault"@,
    }
}

/// The path of `name`, a relative name, inside the directory `dir`.
pub fn join(dir: &str, name: &str) -> (r: String)
    ensures
        r@ == inside(dir@, name@),
{
    let n: usize = dir.unicode_len();
    let mut out = dir.to_owned();
    if n > 0 && dir.get_char(n - 1) != '/' {
        out.push('/');
    }
    out.append(name);
    out
}

/// The application's directory: `REVAULT_HOME` if it is set, else `.revault`
/// in `HOME` if that is set, else `.revault` in the current directory.
pub fn app_home_dir(revault_home: Option<String>, home: Option<String>) -> (r: String)
    ensures
        r@ == home_of(text::opt_text(revault_home), text::opt_text(home)),
{
    match revault_home {
        Some(dir) => dir,
        None => match home {
            Some(dir) => join(dir.as_str(), ".revault"),
            None => ".revault".to_owned(),
        },
    }
}

/// Where vaults are looked for by default.
pub fn default_vaults_dir(app_home: &str) -> (r: String)
    ensures
        r@ == inside(app_home@, "vaults"@),
{
    join(app_home, "vaults")
}

/// Where the settings are kept.
pub fn settings_file(app_home: &str) -> (r: String)
    ensures
        r@ == inside(app_home@, "settings.cfg"@),
{
    join(app_home, "settings.cfg")
}

/// Where the application's log is kept.
pub fn log_file(app_home: &str) -> (r: String)
    ensures
        r@ == inside(app_home@, "revault.log"@),
{
    join(app_home, "revault.log")
}

/// Where this device's identity is kept.
pub fn identity_file(app_home: &str) -> (r: String)
    ensures
        r@ == inside(app_home@, "identity"@),
{
    join(app_home, "identity")
}

/// A file in a directory is named by the directory, a slash and its own name; the
/// application's files are all in its directory, under different names. The
/// directory is the one that is set, or else one in the user's own.
pub proof fn law_files_are_apart(dir: Seq<char>, home: Seq<char>, name: Seq<char>)
    requires
        dir.len() > 0,
        dir.last() != '/',
    ensures
        inside(dir, name) == dir + seq!['/'] + name,
        inside(dir.push('/'), name) == dir + seq!['/'] + name,
        home_of(Some(dir), Some(home)) == dir,
        home_of(Some(dir), None) == dir,
        home_of(None, Some(dir)) == dir + seq!['/'] + ".revault"@,
        inside(dir, "settings.cfg"@) != inside(dir, "revault.log"@),
        inside(dir, "settings.cfg"@) != inside(dir, "identity"@),
        inside(dir, "settings.cfg"@) != inside(dir, "vaults"@),
        inside(dir, "revault.log"@) != inside(dir, "identity"@),
        inside(dir, "revault.log"@) != inside(dir, "vaults"@),
        inside(dir, "identity"@) != inside(dir, "vaults"@),
{
    reveal_strlit("settings.cfg");
    reveal_strlit("revault.log");
    reveal_strlit("identity");
    reveal_strlit("vaults");
    assert(inside(dir, name) =~= dir + seq!['/'] + name);
    assert(inside(dir.push('/'), name) =~= dir + seq!['/'] + name);
    assert(inside(dir, ".revault"@) =~= dir + seq!['/'] + ".revault"@);
    assert(inside(dir, "settings.cfg"@).len() == dir.len() + 13);
    assert(inside(dir, "revault.log"@).len() == dir.len() + 12);
    assert(inside(dir, "identity"@).len() == dir.len() + 9);
    assert(inside(dir, "vaults"@).len() == dir.len() + 7);
}

} // verus!
