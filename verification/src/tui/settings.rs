//! The application's settings: a text of `key=value` lines. The only setting is
//! where to look for vaults.

use vstd::prelude::*;

use crate::engine::text;

verus! {

pub const VAULTS_DIR_KEY: &'static str = "vaults_dir=";

/// The settings.
#[derive(Debug, Clone)]
pub struct AppSettings {
    pub vaults_dir: String,
}

/// The place of the first line feed from `from` on, or the length of the text.
pub open spec fn line_end(s: Seq<char>, from: int) -> int
    decreases s.len() - from,
{
    if from >= s.len() {
        s.len() as int
    } else if s[from] == '\n' {
        from
    } else {
        line_end(s, from + 1)
    }
}

/// The directory that applies after this line: the one it sets, if it sets one.
pub open spec fn after_line(line: Seq<char>, dir: Seq<char>) -> Seq<char> {
    let key = VAULTS_DIR_KEY@;
    if key.len() <= line.len() && line.take(key.len() as int) == key && text::trimmed(
        line.skip(key.len() as int),
    ).len() > 0 {
        text::trimmed(line.skip(key.len() as int))
    } else {
        dir
    }
}

/// The directory that these lines set last, from `from` on; `dir` if they set
/// none.
pub open spec fn dir_set(s: Seq<char>, from: int, dir: Seq<char>) -> Seq<char>
    decreases s.len() - from,
{
    if from < 0 || from >= s.len() {
        dir
    } else {
        let end = line_end(s, from);
        if from <= end < s.len() {
            dir_set(s, end + 1, after_line(s.subrange(from, end), dir))
        } else {
            after_line(s.subrange(from, end), dir)
        }
    }
}

proof fn lemma_line_end(s: Seq<char>, from: int)
    requires
        0 <= from <= s.len(),
    ensures
        from <= line_end(s, from) <= s.len(),
        line_end(s, from) < s.len() ==> s[line_end(s, from)] == '\n',
        forall|i: int| from <= i < line_end(s, from) ==> s[i] != '\n',
    decreases s.len() - from,
{
    if from < s.len() && s[from] != '\n' {
        lemma_line_end(s, from + 1);
    }
}

/// Whether `s` starts with `prefix`.
pub fn starts_with(s: &str, prefix: &str) -> (r: bool)
    ensures
        r == (prefix@.len() <= s@.len() && s@.take(prefix@.len() as int) == prefix@),
{
    let n: usize = prefix.unicode_len();
    if s.unicode_len() < n {
        return false;
    }
    text::same_text(s.substring_char(0, n), prefix)
}

impl AppSettings {
    /// Reads settings; `default_dir` applies where they set no directory.
    pub fn parse(contents: &str, default_dir: &str) -> (r: Self)
        ensures
            r.vaults_dir@ == dir_set(contents@, 0, default_dir@),
    {
        let n: usize = contents.unicode_len();
        let mut dir = default_dir.to_owned();
        let mut from: usize = 0;
        while from < n
            invariant
                n == contents@.len(),
                dir_set(contents@, from as int, dir@) == dir_set(contents@, 0, default_dir@),
            decreases n - from,
        {
            proof {
                lemma_line_end(contents@, from as int);
            }
            let mut end: usize = from;
            while end < n && contents.get_char(end) != '\n'
                invariant
                    from <= end <= n,
                    n == contents@.len(),
                    line_end(contents@, end as int) == line_end(contents@, from as int),
                decreases n - end,
            {
                end = end + 1;
            }
            let line = contents.substring_char(from, end);
            if starts_with(line, VAULTS_DIR_KEY) {
                let k: usize = VAULTS_DIR_KEY.unicode_len();
                let m: usize = line.unicode_len();
                let value = text::trim(line.substring_char(k, m));
                assert(line@.subrange(k as int, m as int) =~= line@.skip(k as int));
                if !value.is_empty() {
                    dir = value.to_owned();
                }
            }
            if end == n {
                return AppSettings { vaults_dir: dir };
            }
            from = end + 1;
        }
        AppSettings { vaults_dir: dir }
    }

    /// The settings as text.
    pub fn render(&self) -> (r: String)
        ensures
            r@ == VAULTS_DIR_KEY@ + self.vaults_dir@ + "\n"@,
    {
        let mut out = text::concat(VAULTS_DIR_KEY, self.vaults_dir.as_str());
        out.append("\n");
        out
    }
}

/// Settings are read back as they were written, for every directory whose name
/// is a single line that neither starts nor ends with white space.
pub proof fn law_settings_round_trip(dir: Seq<char>, default_dir: Seq<char>)
    requires
        dir.len() > 0,
        text::trimmed(dir) == dir,
        forall|i: int| 0 <= i < dir.len() ==> #[trigger] dir[i] != '\n',
    ensures
        dir_set(VAULTS_DIR_KEY@ + dir + "\n"@, 0, default_dir) == dir,
{
    reveal_strlit("vaults_dir=");
    reveal_strlit("\n");
    let key = VAULTS_DIR_KEY@;
    let s = key + dir + "\n"@;
    let n = key.len() + dir.len();
    lemma_line_end(s, 0);
    let end = line_end(s, 0);
    assert(s[n as int] == '\n');
    assert forall|i: int| 0 <= i < n implies s[i] != '\n' by {
        if i < key.len() {
            assert(s[i] == key[i]);
        } else {
            assert(s[i] == dir[i - key.len()]);
        }
    }
    assert(end == n);
    let line = s.subrange(0, end);
    assert(line.take(key.len() as int) =~= key);
    assert(line.skip(key.len() as int) =~= dir);
    assert(after_line(line, default_dir) == dir);
    assert(dir_set(s, end + 1, dir) == dir);
}

/// A text is made of whole lines.
pub open spec fn whole_lines(s: Seq<char>) -> bool {
    s.len() > 0 ==> s.last() == '\n'
}

proof fn lemma_line_end_at(s: Seq<char>, from: int, end: int)
    requires
        0 <= from <= end <= s.len(),
        forall|i: int| from <= i < end ==> s[i] != '\n',
        end < s.len() ==> s[end] == '\n',
    ensures
        line_end(s, from) == end,
    decreases end - from,
{
    if from < end {
        lemma_line_end_at(s, from + 1, end);
    }
}

/// The lines after a place are those of the text after it.
proof fn lemma_dir_set_after(p: Seq<char>, t: Seq<char>, from: int, dir: Seq<char>)
    requires
        0 <= from <= t.len(),
    ensures
        dir_set(p + t, p.len() + from, dir) == dir_set(t, from, dir),
    decreases t.len() - from,
{
    let s = p + t;
    let k = p.len() as int;
    if from < t.len() {
        lemma_line_end(t, from);
        let end = line_end(t, from);
        assert forall|i: int| k + from <= i < k + end implies s[i] != '\n' by {
            assert(s[i] == t[i - k]);
        }
        lemma_line_end_at(s, k + from, k + end);
        assert(s.subrange(k + from, k + end) =~= t.subrange(from, end));
        if end < t.len() {
            lemma_dir_set_after(p, t, end + 1, after_line(t.subrange(from, end), dir));
        }
    }
}

proof fn lemma_dir_set_in_turn(p: Seq<char>, t: Seq<char>, from: int, dir: Seq<char>)
    requires
        whole_lines(p),
        0 <= from <= p.len(),
    ensures
        dir_set(p + t, from, dir) == dir_set(t, 0, dir_set(p, from, dir)),
    decreases p.len() - from,
{
    let s = p + t;
    if from < p.len() {
        lemma_line_end(p, from);
        let end = line_end(p, from);
        assert(end < p.len());
        assert forall|i: int| from <= i < end implies s[i] != '\n' by {
            assert(s[i] == p[i]);
        }
        assert(s[end] == p[end]);
        lemma_line_end_at(s, from, end);
        assert(s.subrange(from, end) =~= p.subrange(from, end));
        lemma_dir_set_in_turn(p, t, end + 1, after_line(p.subrange(from, end), dir));
    } else {
        lemma_dir_set_after(p, t, 0, dir);
    }
}

/// Lines are read in turn: what the first ones set is what applies where the others
/// set nothing.
pub proof fn law_lines_are_read_in_turn(first: Seq<char>, rest: Seq<char>, default_dir: Seq<char>)
    requires
        whole_lines(first),
    ensures
        dir_set(first + rest, 0, default_dir) == dir_set(rest, 0, dir_set(first, 0, default_dir)),
{
    lemma_dir_set_in_turn(first, rest, 0, default_dir);
}

/// The last directory that is set applies, whatever stands before it; a line that
/// sets no directory has no effect.
pub proof fn law_last_setting_applies(
    first: Seq<char>,
    dir: Seq<char>,
    line: Seq<char>,
    default_dir: Seq<char>,
)
    requires
        whole_lines(first),
        dir.len() > 0,
        text::trimmed(dir) == dir,
        forall|i: int| 0 <= i < dir.len() ==> #[trigger] dir[i] != '\n',
        forall|i: int| 0 <= i < line.len() ==> #[trigger] line[i] != '\n',
        line.len() == 0 || line[0] != 'v',
    ensures
        dir_set(first + (VAULTS_DIR_KEY@ + dir + "\n"@), 0, default_dir) == dir,
        dir_set(line + "\n"@ + first, 0, default_dir) == dir_set(first, 0, default_dir),
{
    reveal_strlit("vaults_dir=");
    reveal_strlit("\n");
    law_lines_are_read_in_turn(first, VAULTS_DIR_KEY@ + dir + "\n"@, default_dir);
    law_settings_round_trip(dir, dir_set(first, 0, default_dir));
    let l = line + "\n"@;
    law_lines_are_read_in_turn(l, first, default_dir);
    let n = line.len() as int;
    assert forall|i: int| 0 <= i < n implies l[i] != '\n' by {
        assert(l[i] == line[i]);
    }
    lemma_line_end_at(l, 0, n);
    assert(l.subrange(0, n) =~= line);
    if VAULTS_DIR_KEY@.len() <= line.len() {
        assert(line.take(VAULTS_DIR_KEY@.len() as int)[0] == line[0]);
    }
    assert(after_line(line, default_dir) == default_dir);
    assert(dir_set(l, n + 1, default_dir) == default_dir);
}

} // verus!
