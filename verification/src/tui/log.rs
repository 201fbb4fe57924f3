//! The application's own log: plain lines for people to read. It has nothing to
//! do with the chain inside a vault.

use vstd::prelude::*;

use crate::engine::text;

verus! {

/// A line of the log: when, and what.
pub open spec fn entry_of(secs: u64, message: Seq<char>) -> Seq<char> {
    "["@ + text::decimal_of(secs as nat) + "] "@ + message + "\n"@
}

/// The line to append for an event.
pub fn log_entry(secs: u64, message: &str) -> (r: String)
    ensures
        r@ == entry_of(secs, message@),
{
    let mut out = "[".to_owned();
    out.append(text::decimal(secs).as_str());
    out.append("] ");
    out.append(message);
    out.append("\n");
    out
}

/// The lines as mathematical values.
pub open spec fn texts_of(lines: Seq<String>) -> Seq<Seq<char>> {
    lines.map_values(|l: String| l@)
}

/// The last `n` of these lines, oldest first.
pub open spec fn recent_of(lines: Seq<Seq<char>>, n: nat) -> Seq<Seq<char>> {
    if lines.len() <= n {
        lines
    } else {
        lines.skip(lines.len() - n)
    }
}

/// The last `n` of these lines, oldest first.
pub fn read_recent(lines: &Vec<String>, n: usize) -> (r: Vec<String>)
    ensures
        texts_of(r@) == recent_of(texts_of(lines@), n as nat),
{
    let start: usize = if lines.len() > n {
        lines.len() - n
    } else {
        0
    };
    let mut out: Vec<String> = Vec::new();
    let mut i: usize = start;
    while i < lines.len()
        invariant
            start <= i <= lines@.len(),
            texts_of(out@) == texts_of(lines@).subrange(start as int, i as int),
        decreases lines@.len() - i,
    {
        let ghost before = out@;
        out.push(lines[i].clone());
        assert(texts_of(out@) =~= texts_of(before).push(lines@[i as int]@));
        i = i + 1;
        assert(texts_of(out@) =~= texts_of(lines@).subrange(start as int, i as int));
    }
    assert(texts_of(out@) =~= recent_of(texts_of(lines@), n as nat));
    out
}

/// The lines that are shown are the last ones, in order, and no more than asked
/// for.
pub proof fn law_recent_lines_are_the_last(lines: Seq<Seq<char>>, n: nat)
    ensures
        recent_of(lines, n).len() == (if lines.len() <= n {
            lines.len()
        } else {
            n
        }),
        forall|k: int|
            0 <= k < recent_of(lines, n).len() ==> #[trigger] recent_of(lines, n)[k]
                == lines[lines.len() - recent_of(lines, n).len() + k],
{
}

/// A log entry ends its line and holds the message in front of that.
pub proof fn law_entry_holds_the_message(secs: u64, message: Seq<char>)
    ensures
        ({
            let e = entry_of(secs, message);
            let n = e.len() as int;
            &&& n > message.len()
            &&& e.last() == '\n'
            &&& e.subrange(n - 1 - message.len(), n - 1) == message
            &&& e.take(n - 1 - message.len()) == seq!['['] + text::decimal_of(secs as nat) + seq![
                ']',
                ' ',
            ]
        }),
{
    reveal_strlit("[");
    reveal_strlit("] ");
    reveal_strlit("\n");
    let e = entry_of(secs, message);
    let n = e.len() as int;
    assert("["@ =~= seq!['[']);
    assert("] "@ =~= seq![']', ' ']);
    assert(e.subrange(n - 1 - message.len(), n - 1) =~= message);
    assert(e.take(n - 1 - message.len()) =~= seq!['['] + text::decimal_of(secs as nat) + seq![
        ']',
        ' ',
    ]);
}

} // verus!
