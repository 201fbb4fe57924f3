//! The commands that an admin types while a vault is served.

use vstd::prelude::*;

use crate::engine::error::{self, Fault, Result};
use crate::engine::health;
use crate::engine::laws;
use crate::engine::model::VaultModel;
use crate::engine::readings;
use crate::engine::replay;
use crate::engine::text;
use crate::engine::vault::{self, Vault};
use crate::net::journal::{self, PatchJournal};

verus! {

// ---------------------------------------------------------------------
// Words
// ---------------------------------------------------------------------

/// The first place from `i` on that holds no white space.
pub open spec fn word_start(s: Seq<char>, i: int) -> int
    decreases s.len() - i,
{
    if 0 <= i < s.len() && text::is_space(s[i]) {
        word_start(s, i + 1)
    } else {
        i
    }
}

/// The first place from `i` on that holds white space, or the end.
pub open spec fn word_end(s: Seq<char>, i: int) -> int
    decreases s.len() - i,
{
    if 0 <= i < s.len() && !text::is_space(s[i]) {
        word_end(s, i + 1)
    } else {
        i
    }
}

/// The words of `s` from `i` on: what stands between white space.
pub open spec fn words(s: Seq<char>, i: int) -> Seq<Seq<char>>
    decreases s.len() - i,
{
    let a = word_start(s, i);
    let b = word_end(s, a);
    if i < 0 || a >= s.len() || b <= i || b > s.len() {
        Seq::empty()
    } else {
        seq![s.subrange(a, b)] + words(s, b)
    }
}

/// The words as mathematical values.
pub open spec fn texts_of(v: Seq<String>) -> Seq<Seq<char>> {
    v.map_values(|s: String| s@)
}

/// Splits a line into words.
pub fn split_words(line: &str) -> (r: Vec<String>)
    ensures
        texts_of(r@) == words(line@, 0),
{
    let len: usize = line.unicode_len();
    let mut out: Vec<String> = Vec::new();
    let mut i: usize = 0;
    let ghost s = line@;
    assert(texts_of(out@) + words(s, 0) =~= words(s, 0));
    loop
        invariant
            s == line@,
            len == s.len(),
            i <= len,
            texts_of(out@) + words(s, i as int) == words(s, 0),
        ensures
            texts_of(out@) == words(s, 0),
        decreases len - i,
    {
        let ghost from = i as int;
        while i < len && text::is_white_space(line.get_char(i))
            invariant
                s == line@,
                len == s.len(),
                from <= i <= len,
                word_start(s, from) == word_start(s, i as int),
            decreases len - i,
        {
            i = i + 1;
        }
        if i == len {
            assert(words(s, from) =~= Seq::empty());
            assert(texts_of(out@) + words(s, from) =~= texts_of(out@));
            break;
        }
        let start: usize = i;
        while i < len && !text::is_white_space(line.get_char(i))
            invariant
                s == line@,
                len == s.len(),
                start <= i <= len,
                word_end(s, start as int) == word_end(s, i as int),
                start < i || !text::is_space(s[start as int]),
                start < len,
            decreases len - i,
        {
            i = i + 1;
        }
        let ghost before = out@;
        out.push(line.substring_char(start, i).to_owned());
        proof {
            assert(texts_of(out@) =~= texts_of(before).push(s.subrange(start as int, i as int)));
            assert(words(s, from) == seq![s.subrange(start as int, i as int)] + words(
                s,
                i as int,
            ));
            assert(texts_of(out@) + words(s, i as int) =~= texts_of(before) + words(s, from));
        }
    }
    out
}

// ---------------------------------------------------------------------
// Commands
// ---------------------------------------------------------------------

pub const ADD_USAGE: &'static str = "add <source-path> <name>";

pub const UPDATE_USAGE: &'static str = "update <source-path> <name>";

pub const DELETE_USAGE: &'static str = "delete <name>";

/// A command.
#[derive(Debug, Clone)]
pub enum Command {
    Help,
    List,
    /// Add the file at this path, under this name.
    Add(String, String),
    /// Replace the file of this name by the one at this path.
    Update(String, String),
    Delete(String),
    Quit,
    /// Something is missing; this is how the command is used.
    Usage(&'static str),
    Unknown(String),
}

/// A command as a mathematical value.
#[verifier::ext_equal]
pub enum CommandModel {
    Help,
    List,
    Add(Seq<char>, Seq<char>),
    Update(Seq<char>, Seq<char>),
    Delete(Seq<char>),
    Quit,
    Usage(Seq<char>),
    Unknown(Seq<char>),
}

impl View for Command {
    type V = CommandModel;

    open spec fn view(&self) -> CommandModel {
        match self {
            Command::Help => CommandModel::Help,
            Command::List => CommandModel::List,
            Command::Add(source, name) => CommandModel::Add(source@, name@),
            Command::Update(source, name) => CommandModel::Update(source@, name@),
            Command::Delete(name) => CommandModel::Delete(name@),
            Command::Quit => CommandModel::Quit,
            Command::Usage(m) => CommandModel::Usage(m@),
            Command::Unknown(w) => CommandModel::Unknown(w@),
        }
    }
}

impl CommandModel {
    /// The command that these words stand for. Words that a command has no use
    /// for are ignored.
    pub open spec fn of(w: Seq<Seq<char>>) -> CommandModel {
        if w.len() == 0 || w[0] == "help"@ {
            CommandModel::Help
        } else if w[0] == "list"@ {
            CommandModel::List
        } else if w[0] == "add"@ {
            if w.len() >= 3 {
                CommandModel::Add(w[1], w[2])
            } else {
                CommandModel::Usage(ADD_USAGE@)
            }
        } else if w[0] == "update"@ {
            if w.len() >= 3 {
                CommandModel::Update(w[1], w[2])
            } else {
                CommandModel::Usage(UPDATE_USAGE@)
            }
        } else if w[0] == "delete"@ {
            if w.len() >= 2 {
                CommandModel::Delete(w[1])
            } else {
                CommandModel::Usage(DELETE_USAGE@)
            }
        } else if w[0] == "quit"@ || w[0] == "exit"@ {
            CommandModel::Quit
        } else {
            CommandModel::Unknown(w[0])
        }
    }
}

/// Reads a command.
pub fn parse_command(line: &str) -> (r: Command)
    ensures
        r@ == CommandModel::of(words(text::trimmed(line@), 0)),
{
    let w = split_words(text::trim(line));
    let ghost all = texts_of(w@);
    assert(all == words(text::trimmed(line@), 0));
    if w.len() == 0 {
        return Command::Help;
    }
    assert(all[0] == w@[0]@);
    let first = w[0].as_str();
    if text::same_text(first, "help") {
        Command::Help
    } else if text::same_text(first, "list") {
        Command::List
    } else if text::same_text(first, "add") {
        if w.len() >= 3 {
            assert(all[1] == w@[1]@ && all[2] == w@[2]@);
            Command::Add(w[1].clone(), w[2].clone())
        } else {
            Command::Usage(ADD_USAGE)
        }
    } else if text::same_text(first, "update") {
        if w.len() >= 3 {
            assert(all[1] == w@[1]@ && all[2] == w@[2]@);
            Command::Update(w[1].clone(), w[2].clone())
        } else {
            Command::Usage(UPDATE_USAGE)
        }
    } else if text::same_text(first, "delete") {
        if w.len() >= 2 {
            assert(all[1] == w@[1]@);
            Command::Delete(w[1].clone())
        } else {
            Command::Usage(DELETE_USAGE)
        }
    } else if text::same_text(first, "quit") || text::same_text(first, "exit") {
        Command::Quit
    } else {
        Command::Unknown(w[0].clone())
    }
}

// ---------------------------------------------------------------------
// Changes to the served vault
// ---------------------------------------------------------------------

/// What a change came to, and the ranges to write to the vault's file.
pub struct Change {
    pub writes: Vec<(u64, Vec<u8>)>,
    pub result: Result<()>,
}

/// The served vault and the patches recorded for its peers.
pub struct Served {
    pub vault: Vault,
    pub journal: PatchJournal,
}

impl Served {
    /// The vault and its journal are well-formed.
    pub open spec fn wf(&self) -> bool {
        self.vault.wf() && self.journal.wf()
    }

    /// The vault can be changed, if it was opened by its admin.
    pub open spec fn changeable(&self) -> bool {
        &&& self.wf()
        &&& self.vault@.admin is Some ==> self.vault@.header.writable()
            && self.vault@.header.chain_next_seq < u64::MAX
    }

    /// `after` and `change` are what is left of `self` when its vault became `w`
    /// with this outcome. A change that succeeded is recorded for peers under
    /// the sequence number that the vault had before; one that failed is not,
    /// and what it wrote goes with the next.
    pub open spec fn ends(
        self,
        after: Served,
        change: Change,
        w: VaultModel,
        outcome: core::result::Result<(), Fault>,
    ) -> bool {
        &&& error::outcome(change.result) == outcome
        &&& vault::ranges_of(change.writes@) == w.log
        &&& after.journal.limit() == self.journal.limit()
        &&& if outcome is Ok {
            &&& after.vault@ == (VaultModel { log: Seq::empty(), ..w })
            &&& after.journal@ == (if self.journal.limit() == 0 {
                self.journal@
            } else {
                journal::last_of(
                    self.journal@.push((self.vault@.header.chain_next_seq, w.log)),
                    self.journal.limit() as int,
                )
            })
        } else {
            &&& after.vault@ == w
            &&& after.journal@ == self.journal@
        }
    }

    /// Adding a file, under this identifier and at these times, ended so.
    pub open spec fn ends_adding(
        self,
        after: Served,
        change: Change,
        name: Seq<char>,
        data: Seq<u8>,
        id: u128,
        at: i64,
        chained_at: i64,
    ) -> bool {
        let (w, outcome) = self.vault@.adding(name, data, id, at, chained_at);
        self.ends(after, change, w, outcome)
    }

    /// Replacing a file's content under this identifier and at these times ended so.
    pub open spec fn ends_updating(
        self,
        after: Served,
        change: Change,
        name: Seq<char>,
        data: Seq<u8>,
        id: u128,
        at: i64,
        chained_at: i64,
    ) -> bool {
        let (w, outcome) = self.vault@.updating(name, data, id, at, chained_at);
        self.ends(after, change, w, outcome)
    }

    /// Deleting a file at this time ended so.
    pub open spec fn ends_deleting(
        self,
        after: Served,
        change: Change,
        name: Seq<char>,
        chained_at: i64,
    ) -> bool {
        let (w, outcome) = self.vault@.deleting(name, chained_at);
        self.ends(after, change, w, outcome)
    }

    /// The vault as the change left it, with what it wrote.
    pub open spec fn changed(&self, change: Change) -> VaultModel {
        VaultModel { log: vault::ranges_of(change.writes@), ..self.vault@ }
    }

    /// The journal is in step with the vault.
    pub open spec fn in_step(&self, at: spec_fn(int) -> VaultModel) -> bool {
        journal::in_step(self.journal@, at, self.vault@)
    }

    /// The change is handed on to peers: whoever was in step before it is in step
    /// after it, and it is the last that the journal holds.
    pub open spec fn handed_on(&self, before: Served) -> bool {
        let seq = before.vault@.header.chain_next_seq;
        &&& self.vault@.header.chain_next_seq == seq + 1
        &&& self.vault@.log.len() == 0
        &&& self.journal.limit() == before.journal.limit()
        &&& self.journal.limit() > 0 ==> self.journal@.len() > 0 && self.journal@.last().0 == seq
        &&& forall|at: spec_fn(int) -> VaultModel|
            before.in_step(at) && replay::same_container(at(seq + 1), self.vault@)
                ==> #[trigger] self.in_step(at)
    }

    /// A change that succeeded is handed on.
    proof fn lemma_handed_on(
        before: Served,
        after: Served,
        change: Change,
        w: VaultModel,
        outcome: core::result::Result<(), Fault>,
    )
        requires
            before.wf(),
            before.ends(after, change, w, outcome),
            outcome is Ok,
            replay::keeps_lead(before.vault@, w),
            health::advances(before.vault@, w),
        ensures
            after.handed_on(before),
    {
        before.journal.lemma_bounded();
        let v = before.vault@;
        let seq = v.header.chain_next_seq;
        let limit = before.journal.limit() as int;
        let all = before.journal@.push((seq, w.log));
        if limit > 0 {
            assert(journal::last_of(all, limit).last() == all.last());
        }
        assert forall|at: spec_fn(int) -> VaultModel|
            before.in_step(at) && replay::same_container(
                at(seq + 1),
                after.vault@,
            ) implies #[trigger] after.in_step(at) by {
            journal::law_recording_keeps_step(before.journal@, at, v, w, limit);
        }
    }

    /// Ends a change: what it wrote is handed out, and recorded if it succeeded.
    fn end(&mut self, seq: u64, result: Result<()>) -> (r: Change)
        requires
            old(self).wf(),
        ensures
            final(self).wf(),
            forall|before: Served|
                before.journal == old(self).journal && before.vault@.header.chain_next_seq == seq
                    ==> #[trigger] before.ends(
                    *final(self),
                    r,
                    old(self).vault@,
                    error::outcome(result),
                ),
    {
        let mut writes: Vec<(u64, Vec<u8>)> = Vec::new();
        assert(vault::ranges_of(writes@) =~= Seq::empty());
        journal::append_ranges(&mut writes, self.vault.change_log());
        assert(vault::ranges_of(writes@) =~= self.vault@.log);
        if result.is_ok() {
            let ranges = self.vault.take_change_log();
            self.journal.record(seq, ranges);
        }
        Change { writes, result }
    }

    /// Adds a file.
    pub fn add(&mut self, name: &str, data: &[u8]) -> (r: Change)
        requires
            old(self).changeable(),
            old(self).vault@.admin is Some ==> old(self).vault@.can_store(data@.len() as int),
        ensures
            final(self).wf(),
            exists|id: u128, at: i64, chained_at: i64| #[trigger]
                old(self).ends_adding(*final(self), r, name@, data@, id, at, chained_at)
                    && readings::issued(id) && readings::clock_showed(at) && readings::clock_showed(
                    chained_at,
                ) && (old(self).vault@.healthy() && r.result is Ok ==> vault::added_when(
                    old(self).vault@,
                    final(self).changed(r),
                    name@,
                    data@,
                    id,
                    at,
                    chained_at,
                )),
            old(self).vault@.healthy() && r.result is Ok ==> laws::added(
                old(self).vault@,
                final(self).changed(r),
                name@,
                data@,
            ) && final(self).handed_on(*old(self)),
            old(self).vault@.healthy() && r.result is Err ==> final(self).vault@ == old(self).vault@
                && final(self).journal@ == old(self).journal@,
    {
        let ghost before = *self;
        let (seq, _) = self.vault.chain_state();
        let result = self.vault.add_file(name, data);
        let ghost w = self.vault@;
        let ghost outcome = error::outcome(result);
        let ghost (id, at, chained_at) = choose|id: u128, at: i64, chained_at: i64| #[trigger]
            before.vault@.adding(name@, data@, id, at, chained_at) == (w, outcome)
                && readings::issued(id) && readings::clock_showed(at) && readings::clock_showed(
                chained_at,
            ) && (before.vault@.healthy() && result is Ok ==> vault::added_when(
                before.vault@,
                w,
                name@,
                data@,
                id,
                at,
                chained_at,
            ));
        let r = self.end(seq, result);
        assert(before.ends(*self, r, w, outcome));
        proof {
            if before.vault@.healthy() && outcome is Ok {
                assert(self.changed(r) == w);
                Served::lemma_handed_on(before, *self, r, w, outcome);
            }
        }
        assert(before.ends_adding(*self, r, name@, data@, id, at, chained_at));
        r
    }

    /// Replaces a file's content.
    pub fn update(&mut self, name: &str, data: &[u8]) -> (r: Change)
        requires
            old(self).changeable(),
            old(self).vault@.admin is Some ==> old(self).vault@.can_store(data@.len() as int),
        ensures
            final(self).wf(),
            exists|id: u128, at: i64, chained_at: i64| #[trigger]
                old(self).ends_updating(*final(self), r, name@, data@, id, at, chained_at)
                    && readings::issued(id) && readings::clock_showed(at) && readings::clock_showed(
                    chained_at,
                ) && (old(self).vault@.healthy() && r.result is Ok ==> laws::updated(
                    old(self).vault@,
                    final(self).changed(r),
                    name@,
                    data@,
                    id,
                ) && vault::updated_when(
                    old(self).vault@,
                    final(self).changed(r),
                    name@,
                    data@,
                    id,
                    at,
                    chained_at,
                )),
            old(self).vault@.healthy() && r.result is Ok ==> final(self).handed_on(*old(self)),
            old(self).vault@.healthy() && r.result is Err ==> final(self).vault@ == old(self).vault@
                && final(self).journal@ == old(self).journal@,
    {
        let ghost before = *self;
        let (seq, _) = self.vault.chain_state();
        let result = self.vault.update_file(name, data);
        let ghost w = self.vault@;
        let ghost outcome = error::outcome(result);
        let ghost (id, at, chained_at) = choose|id: u128, at: i64, chained_at: i64| #[trigger]
            before.vault@.updating(name@, data@, id, at, chained_at) == (w, outcome)
                && readings::issued(id) && readings::clock_showed(at) && readings::clock_showed(
                chained_at,
            ) && (before.vault@.healthy() && result is Ok ==> laws::updated(
                before.vault@,
                w,
                name@,
                data@,
                id,
            ) && vault::updated_when(before.vault@, w, name@, data@, id, at, chained_at));
        let r = self.end(seq, result);
        assert(before.ends(*self, r, w, outcome));
        proof {
            if before.vault@.healthy() && outcome is Ok {
                assert(self.changed(r) == w);
                Served::lemma_handed_on(before, *self, r, w, outcome);
            }
        }
        assert(before.ends_updating(*self, r, name@, data@, id, at, chained_at));
        r
    }

    /// Deletes a file.
    pub fn delete(&mut self, name: &str) -> (r: Change)
        requires
            old(self).changeable(),
        ensures
            final(self).wf(),
            exists|chained_at: i64| #[trigger]
                old(self).ends_deleting(*final(self), r, name@, chained_at)
                    && readings::clock_showed(chained_at) && (old(self).vault@.healthy()
                    && r.result is Ok ==> laws::tells_of_deletion(
                    old(self).vault@,
                    final(self).changed(r),
                    name@,
                    chained_at,
                )),
            old(self).vault@.healthy() && r.result is Ok ==> laws::deleted(
                old(self).vault@,
                final(self).changed(r),
                name@,
            ) && final(self).handed_on(*old(self)),
            old(self).vault@.healthy() && r.result is Err ==> final(self).vault@ == old(self).vault@
                && final(self).journal@ == old(self).journal@,
    {
        let ghost before = *self;
        let (seq, _) = self.vault.chain_state();
        let result = self.vault.delete_file(name);
        let ghost w = self.vault@;
        let ghost outcome = error::outcome(result);
        let ghost chained_at = choose|chained_at: i64| #[trigger]
            before.vault@.deleting(name@, chained_at) == (w, outcome) && readings::clock_showed(
                chained_at,
            ) && (before.vault@.healthy() && result is Ok ==> laws::tells_of_deletion(
                before.vault@,
                w,
                name@,
                chained_at,
            ));
        let r = self.end(seq, result);
        assert(before.ends(*self, r, w, outcome));
        proof {
            if before.vault@.healthy() && outcome is Ok {
                assert(self.changed(r) == w);
                Served::lemma_handed_on(before, *self, r, w, outcome);
            }
        }
        assert(before.ends_deleting(*self, r, name@, chained_at));
        r
    }
}

// ---------------------------------------------------------------------
// What a line of words promises
// ---------------------------------------------------------------------

/// A word: something without white space in it.
pub open spec fn is_word(s: Seq<char>) -> bool {
    s.len() > 0 && forall|i: int| 0 <= i < s.len() ==> !text::is_space(#[trigger] s[i])
}

proof fn lemma_word_start(s: Seq<char>, i: int, a: int)
    requires
        0 <= i <= a <= s.len(),
        forall|k: int| i <= k < a ==> text::is_space(#[trigger] s[k]),
        a < s.len() ==> !text::is_space(s[a]),
    ensures
        word_start(s, i) == a,
    decreases a - i,
{
    if i < a {
        lemma_word_start(s, i + 1, a);
    }
}

proof fn lemma_word_end(s: Seq<char>, i: int, b: int)
    requires
        0 <= i <= b <= s.len(),
        forall|k: int| i <= k < b ==> !text::is_space(#[trigger] s[k]),
        b < s.len() ==> text::is_space(s[b]),
    ensures
        word_end(s, i) == b,
    decreases b - i,
{
    if i < b {
        lemma_word_end(s, i + 1, b);
    }
}

/// The words after a place are those of the text after it.
proof fn lemma_words_after(s: Seq<char>, i: int, d: int)
    requires
        0 <= d <= i <= s.len(),
    ensures
        words(s, i) == words(s.skip(d), i - d),
    decreases s.len() - i,
{
    let t = s.skip(d);
    lemma_starts_alike(s, i, d);
    let a = word_start(s, i);
    lemma_ends_alike(s, a, d);
    let b = word_end(s, a);
    if a < s.len() && b > i && b <= s.len() {
        assert(s.subrange(a, b) =~= t.subrange(a - d, b - d));
        lemma_words_after(s, b, d);
    }
}

proof fn lemma_starts_alike(s: Seq<char>, i: int, d: int)
    requires
        0 <= d <= i <= s.len(),
    ensures
        word_start(s, i) == word_start(s.skip(d), i - d) + d,
        i <= word_start(s, i) <= s.len(),
    decreases s.len() - i,
{
    if i < s.len() && text::is_space(s[i]) {
        lemma_starts_alike(s, i + 1, d);
    }
}

proof fn lemma_ends_alike(s: Seq<char>, i: int, d: int)
    requires
        0 <= d <= i <= s.len(),
    ensures
        word_end(s, i) == word_end(s.skip(d), i - d) + d,
        i <= word_end(s, i) <= s.len(),
    decreases s.len() - i,
{
    if i < s.len() && !text::is_space(s[i]) {
        lemma_ends_alike(s, i + 1, d);
    }
}

/// White space, then a word, then the rest of the line: the word is the first, and
/// the others are those of the rest. A line of white space holds no words.
pub proof fn law_words_are_told_apart(gap: Seq<char>, word: Seq<char>, rest: Seq<char>)
    requires
        text::all_space(gap),
        is_word(word),
        rest.len() > 0 ==> text::is_space(rest[0]),
    ensures
        words(gap + word + rest, 0) == seq![word] + words(rest, 0),
        words(gap, 0) == Seq::<Seq<char>>::empty(),
{
    let s = gap + word + rest;
    let a = gap.len() as int;
    let b = a + word.len();
    assert(s[a] == word[0]);
    assert forall|k: int| a <= k < b implies !text::is_space(#[trigger] s[k]) by {
        assert(s[k] == word[k - a]);
    }
    assert forall|k: int| 0 <= k < a implies text::is_space(#[trigger] s[k]) by {
        assert(s[k] == gap[k]);
    }
    lemma_word_start(s, 0, a);
    lemma_word_end(s, a, b);
    assert(s.subrange(a, b) =~= word);
    assert(s.skip(b) =~= rest);
    lemma_words_after(s, b, b);
    lemma_word_start(gap, 0, a);
}

/// Changes are told apart by their first word, and take the words after it as the
/// source and the name, in this order.
pub proof fn law_commands_are_told_apart(source: Seq<char>, name: Seq<char>)
    ensures
        CommandModel::of(seq!["add"@, source, name]) == CommandModel::Add(source, name),
        CommandModel::of(seq!["update"@, source, name]) == CommandModel::Update(source, name),
        CommandModel::of(seq!["delete"@, name]) == CommandModel::Delete(name),
        CommandModel::of(seq!["add"@, source]) == CommandModel::Usage(ADD_USAGE@),
        CommandModel::of(seq!["update"@, source]) == CommandModel::Usage(UPDATE_USAGE@),
        CommandModel::of(seq!["delete"@]) == CommandModel::Usage(DELETE_USAGE@),
        CommandModel::of(seq!["list"@]) is List,
        CommandModel::of(seq!["help"@]) is Help,
        CommandModel::of(seq!["quit"@]) is Quit,
        CommandModel::of(seq!["exit"@]) is Quit,
        CommandModel::of(Seq::empty()) is Help,
{
    reveal_strlit("add");
    reveal_strlit("update");
    reveal_strlit("delete");
    reveal_strlit("list");
    reveal_strlit("help");
    reveal_strlit("quit");
    reveal_strlit("exit");
    assert("add"@.len() == 3 && "update"@.len() == 6 && "delete"@.len() == 6);
    assert("update"@[0] == 'u' && "delete"@[0] == 'd');
    assert("list"@[0] == 'l' && "help"@[0] == 'h' && "quit"@[0] == 'q' && "exit"@[0] == 'e');
}

/// Every command has its word: what is asked for decides what the first word was.
pub proof fn law_commands_are_named(w: Seq<Seq<char>>)
    ensures
        CommandModel::of(w) is Add ==> w.len() >= 3 && w[0] == "add"@,
        CommandModel::of(w) is Update ==> w.len() >= 3 && w[0] == "update"@,
        CommandModel::of(w) is Delete ==> w.len() >= 2 && w[0] == "delete"@,
        CommandModel::of(w) is Quit ==> w.len() >= 1 && (w[0] == "quit"@ || w[0] == "exit"@),
        CommandModel::of(w) is List ==> w.len() >= 1 && w[0] == "list"@,
{
}

} // verus!
