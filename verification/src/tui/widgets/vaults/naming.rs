//! Names and sizes that people type, and the list of vaults that they see.

use vstd::prelude::*;

use crate::engine::bytes;
use crate::engine::text;

verus! {

// ---------------------------------------------------------------------
// Lower case
// ---------------------------------------------------------------------

/// The lower-case form of a text, as Unicode defines it.
pub uninterp spec fn lowercase_of(s: Seq<char>) -> Seq<char>;

/// The lower-case form of an ASCII character.
pub open spec fn ascii_lower(c: char) -> char {
    if 'A' <= c <= 'Z' {
        (c as u32 + 32) as char
    } else {
        c
    }
}

/// A text with each of its characters in the lower-case form that ASCII has for
/// it.
pub open spec fn ascii_lowered(s: Seq<char>) -> Seq<char> {
    s.map_values(|c: char| ascii_lower(c))
}

/// `str::to_lowercase`, named by [`lowercase_of`]. In a text of ASCII
/// characters only, the letters `A` to `Z` become `a` to `z` and nothing else
/// changes. What becomes of other characters is left unsaid.
#[verifier::external_body]
fn to_lowercase(s: &str) -> (r: String)
    ensures
        r@ == lowercase_of(s@),
        vstd::utf8::is_ascii_chars(s@) ==> r@ == ascii_lowered(s@),
{
    s.to_lowercase()
}

// ---------------------------------------------------------------------
// File names
// ---------------------------------------------------------------------

/// Whether `c` is an ASCII letter or digit.
pub open spec fn is_alphanumeric(c: char) -> bool {
    'a' <= c <= 'z' || 'A' <= c <= 'Z' || '0' <= c <= '9'
}

/// The letters and digits of the first `n` characters; every run of other
/// characters becomes one dash.
pub open spec fn dashed(s: Seq<char>, n: int) -> Seq<char>
    decreases n,
{
    if n <= 0 {
        Seq::empty()
    } else {
        let before = dashed(s, n - 1);
        if is_alphanumeric(s[n - 1]) {
            before.push(s[n - 1])
        } else if before.len() > 0 && before.last() == '-' {
            before
        } else {
            before.push('-')
        }
    }
}

/// A text without the dashes at both ends.
pub open spec fn undashed(s: Seq<char>) -> Seq<char>
    decreases s.len(),
{
    if s.len() == 0 {
        s
    } else if s[0] == '-' {
        undashed(s.drop_first())
    } else if s.last() == '-' {
        undashed(s.drop_last())
    } else {
        s
    }
}

/// The file name, without extension, of a vault whose lower-case name this is.
pub open spec fn slug_of(lowered: Seq<char>) -> Seq<char> {
    let s = undashed(dashed(lowered, lowered.len() as int));
    if s.len() == 0 {
        "vault"@
    } else {
        s
    }
}

/// The file name, without extension, of a vault whose lower-case name this is.
pub fn slug(lowered: &str) -> (r: String)
    ensures
        r@ == slug_of(lowered@),
{
    let n: usize = lowered.unicode_len();
    let mut out = String::new();
    let mut ends_with_dash: bool = false;
    let mut i: usize = 0;
    while i < n
        invariant
            i <= n,
            n == lowered@.len(),
            out@ == dashed(lowered@, i as int),
            ends_with_dash == (out@.len() > 0 && out@.last() == '-'),
        decreases n - i,
    {
        let c = lowered.get_char(i);
        if ('a' <= c && c <= 'z') || ('A' <= c && c <= 'Z') || ('0' <= c && c <= '9') {
            out.push(c);
            ends_with_dash = false;
        } else if !ends_with_dash {
            out.push('-');
            ends_with_dash = true;
        }
        i = i + 1;
    }
    let trimmed = trim_dashes(out.as_str());
    if trimmed.is_empty() {
        "vault".to_owned()
    } else {
        trimmed.to_owned()
    }
}

/// The text without the dashes at both ends.
fn trim_dashes(s: &str) -> (r: &str)
    ensures
        r@ == undashed(s@),
{
    let mut from: usize = 0;
    let mut to: usize = s.unicode_len();
    assert(s@.subrange(0, to as int) =~= s@);
    while from < to && s.get_char(from) == '-'
        invariant
            from <= to <= s@.len(),
            undashed(s@.subrange(from as int, to as int)) == undashed(s@),
        decreases to - from,
    {
        assert(s@.subrange(from as int, to as int).drop_first() =~= s@.subrange(
            from + 1,
            to as int,
        ));
        from = from + 1;
    }
    while from < to && s.get_char(to - 1) == '-'
        invariant
            from <= to <= s@.len(),
            undashed(s@.subrange(from as int, to as int)) == undashed(s@),
            from < to ==> s@[from as int] != '-',
        decreases to - from,
    {
        assert(s@.subrange(from as int, to as int).drop_last() =~= s@.subrange(
            from as int,
            to - 1,
        ));
        to = to - 1;
    }
    s.substring_char(from, to)
}

/// The file name, without extension, of a vault of this name.
pub fn slugify(name: &str) -> (r: String)
    ensures
        r@ == slug_of(lowercase_of(name@)),
        vstd::utf8::is_ascii_chars(name@) ==> r@ == slug_of(ascii_lowered(name@)),
{
    let lowered = to_lowercase(name);
    slug(lowered.as_str())
}

proof fn lemma_dashed(s: Seq<char>, n: int)
    requires
        0 <= n <= s.len(),
    ensures
        forall|i: int|
            0 <= i < dashed(s, n).len() ==> is_alphanumeric(#[trigger] dashed(s, n)[i]) || dashed(
                s,
                n,
            )[i] == '-',
    decreases n,
{
    if n > 0 {
        lemma_dashed(s, n - 1);
        let before = dashed(s, n - 1);
        let d = dashed(s, n);
        assert forall|i: int| 0 <= i < d.len() implies is_alphanumeric(#[trigger] d[i]) || d[i]
            == '-' by {
            if i < before.len() {
                assert(d[i] == before[i]);
            }
        }
    }
}

proof fn lemma_undashed(s: Seq<char>)
    requires
        forall|i: int| 0 <= i < s.len() ==> is_alphanumeric(#[trigger] s[i]) || s[i] == '-',
    ensures
        forall|i: int|
            0 <= i < undashed(s).len() ==> is_alphanumeric(#[trigger] undashed(s)[i]) || undashed(
                s,
            )[i] == '-',
        undashed(s).len() > 0 ==> undashed(s)[0] != '-' && undashed(s).last() != '-',
    decreases s.len(),
{
    if s.len() > 0 {
        if s[0] == '-' {
            lemma_undashed(s.drop_first());
        } else if s.last() == '-' {
            lemma_undashed(s.drop_last());
        }
    }
}

/// A file name made of a vault's name is never empty, consists of ASCII letters,
/// digits and dashes only, and neither starts nor ends with a dash.
pub proof fn law_slug_is_file_safe(lowered: Seq<char>)
    ensures
        slug_of(lowered).len() > 0,
        forall|i: int|
            0 <= i < slug_of(lowered).len() ==> is_alphanumeric(#[trigger] slug_of(lowered)[i])
                || slug_of(lowered)[i] == '-',
        slug_of(lowered)[0] != '-',
        slug_of(lowered).last() != '-',
{
    reveal_strlit("vault");
    lemma_dashed(lowered, lowered.len() as int);
    lemma_undashed(dashed(lowered, lowered.len() as int));
}

/// The name of the `n`th file to try for a vault.
pub open spec fn candidate(base: Seq<char>, n: u64) -> Seq<char> {
    if n <= 1 {
        base + ".rvlt"@
    } else {
        base + "-"@ + text::decimal_of(n as nat) + ".rvlt"@
    }
}

/// The name of the `n`th file to try for a vault: the first that does not exist
/// yet is taken.
pub fn vault_file_name(base: &str, n: u64) -> (r: String)
    ensures
        r@ == candidate(base@, n),
{
    let mut out = base.to_owned();
    if n > 1 {
        out.append("-");
        out.append(text::decimal(n).as_str());
    }
    out.append(".rvlt");
    out
}

/// Whether a file name has the extension of a vault: something in front of the
/// dot, and `rvlt` behind it.
pub open spec fn names_vault(name: Seq<char>) -> bool {
    name.len() > 5 && name.skip(name.len() - 5) == ".rvlt"@
}

/// Whether a file name has the extension of a vault.
pub fn is_vault_file(name: &str) -> (r: bool)
    ensures
        r == names_vault(name@),
{
    proof {
        reveal_strlit(".rvlt");
    }
    let n: usize = name.unicode_len();
    if n <= 5 {
        return false;
    }
    assert(name@.subrange(n - 5, n as int) =~= name@.skip(n - 5));
    text::same_text(name.substring_char(n - 5, n), ".rvlt")
}

/// Every file name that is tried for a vault has the extension of a vault.
pub proof fn law_candidates_name_vaults(base: Seq<char>, n: u64)
    requires
        base.len() > 0,
    ensures
        names_vault(candidate(base, n)),
{
    reveal_strlit(".rvlt");
    reveal_strlit("-");
    let c = candidate(base, n);
    assert(c.skip(c.len() - 5) =~= ".rvlt"@);
}

// ---------------------------------------------------------------------
// Capacities
// ---------------------------------------------------------------------

pub const CAPACITY_REQUIRED: &'static str = "Capacity is required";

pub const CAPACITY_NOT_A_NUMBER: &'static str = "Could not parse capacity number";

pub const CAPACITY_NOT_POSITIVE: &'static str = "Capacity must be greater than zero";

/// Whether `s` ends with `suffix`.
pub open spec fn ends_with(s: Seq<char>, suffix: Seq<char>) -> bool {
    suffix.len() <= s.len() && s.skip(s.len() - suffix.len()) == suffix
}

/// `s` without its last `n` characters and without white space around it.
pub open spec fn number_part(s: Seq<char>, n: int) -> Seq<char> {
    text::trimmed(s.take(s.len() - n))
}

/// A capacity in lower case, split into the number and the unit in bytes.
pub open spec fn unit_split(s: Seq<char>) -> (Seq<char>, u64) {
    if ends_with(s, "tb"@) {
        (number_part(s, 2), 1_099_511_627_776)
    } else if ends_with(s, "gb"@) {
        (number_part(s, 2), 1_073_741_824)
    } else if ends_with(s, "mb"@) {
        (number_part(s, 2), 1_048_576)
    } else if ends_with(s, "kb"@) {
        (number_part(s, 2), 1024)
    } else if ends_with(s, "b"@) {
        (number_part(s, 1), 1)
    } else {
        (number_part(s, 0), 1)
    }
}

/// Whether `s` ends with `suffix`, a text of `n` characters.
fn has_suffix(s: &str, suffix: &str, n: usize) -> (r: bool)
    requires
        n == suffix@.len(),
    ensures
        r == ends_with(s@, suffix@),
{
    let len: usize = s.unicode_len();
    if len < n {
        return false;
    }
    assert(s@.subrange(len - n, len as int) =~= s@.skip(len - n));
    text::same_text(s.substring_char(len - n, len), suffix)
}

/// `s` without its last `n` characters and without white space around it.
fn without_suffix(s: &str, n: usize) -> (r: String)
    requires
        n <= s@.len(),
    ensures
        r@ == number_part(s@, n as int),
{
    let len: usize = s.unicode_len();
    assert(s@.subrange(0, len - n) =~= s@.take(len - n));
    text::trim(s.substring_char(0, len - n)).to_owned()
}

/// Splits a capacity in lower case into the number and the unit in bytes.
pub fn split_unit(s: &str) -> (r: (String, u64))
    ensures
        (r.0@, r.1) == unit_split(s@),
{
    proof {
        reveal_strlit("tb");
        reveal_strlit("gb");
        reveal_strlit("mb");
        reveal_strlit("kb");
        reveal_strlit("b");
    }
    if has_suffix(s, "tb", 2) {
        (without_suffix(s, 2), 1_099_511_627_776)
    } else if has_suffix(s, "gb", 2) {
        (without_suffix(s, 2), 1_073_741_824)
    } else if has_suffix(s, "mb", 2) {
        (without_suffix(s, 2), 1_048_576)
    } else if has_suffix(s, "kb", 2) {
        (without_suffix(s, 2), 1024)
    } else if has_suffix(s, "b", 1) {
        (without_suffix(s, 1), 1)
    } else {
        (without_suffix(s, 0), 1)
    }
}

/// Splits a capacity such as "10 GB", "500MB", "1 TB" or "2048" into the text of
/// the number and the unit in bytes.
pub fn split_capacity(input: &str) -> (r: core::result::Result<(String, u64), &'static str>)
    ensures
        match r {
            Ok((number, unit)) => text::trimmed(input@).len() > 0 && (number@, unit) == unit_split(
                lowercase_of(text::trimmed(input@)),
            ),
            Err(m) => text::trimmed(input@).len() == 0 && m == CAPACITY_REQUIRED,
        },
        vstd::utf8::is_ascii_chars(text::trimmed(input@)) ==> (r matches Ok((number, unit)) ==> (
            number@,
            unit,
        ) == unit_split(ascii_lowered(text::trimmed(input@)))),
{
    let s = text::trim(input);
    if s.is_empty() {
        return Err(CAPACITY_REQUIRED);
    }
    let lowered = to_lowercase(s);
    Ok(split_unit(lowered.as_str()))
}

/// What the number of a capacity comes to: whether it is greater than zero, and
/// how many whole bytes it makes with its unit.
#[derive(Debug, Clone, Copy)]
pub struct CapacityNumber {
    pub positive: bool,
    pub bytes: u64,
}

/// The capacity in bytes, or what is wrong with the number; `None` stands for a
/// text that is no number.
pub fn check_capacity(number: Option<CapacityNumber>) -> (r: core::result::Result<
    u64,
    &'static str,
>)
    ensures
        r == (match number {
            None => Err(CAPACITY_NOT_A_NUMBER),
            Some(n) => if n.positive {
                Ok(n.bytes)
            } else {
                Err(CAPACITY_NOT_POSITIVE)
            },
        }),
{
    match number {
        None => Err(CAPACITY_NOT_A_NUMBER),
        Some(n) => if n.positive {
            Ok(n.bytes)
        } else {
            Err(CAPACITY_NOT_POSITIVE)
        },
    }
}

// ---------------------------------------------------------------------
// The list of vaults
// ---------------------------------------------------------------------

/// A vault that was found.
#[derive(Debug, Clone)]
pub struct VaultListing {
    pub path: String,
    pub name: String,
    pub description: String,
    pub capacity_bytes: u64,
}

/// A listed vault as a mathematical value.
#[verifier::ext_equal]
pub struct ListingModel {
    pub path: Seq<char>,
    pub name: Seq<char>,
    pub description: Seq<char>,
    pub capacity: u64,
}

impl View for VaultListing {
    type V = ListingModel;

    open spec fn view(&self) -> ListingModel {
        ListingModel {
            path: self.path@,
            name: self.name@,
            description: self.description@,
            capacity: self.capacity_bytes,
        }
    }
}

/// The listed vaults as mathematical values.
pub open spec fn listings_of(s: Seq<VaultListing>) -> Seq<ListingModel> {
    s.map_values(|l: VaultListing| l@)
}

/// Whether `a` comes before `b`: the first byte that differs decides.
pub open spec fn bytes_before(a: Seq<u8>, b: Seq<u8>) -> bool
    decreases a.len(),
{
    if b.len() == 0 {
        false
    } else if a.len() == 0 {
        true
    } else if a[0] != b[0] {
        a[0] < b[0]
    } else {
        bytes_before(a.drop_first(), b.drop_first())
    }
}

/// Whether the vault `a` is listed before the vault `b`: by name.
pub open spec fn listed_before(a: ListingModel, b: ListingModel) -> bool {
    bytes_before(bytes::text(a.name), bytes::text(b.name))
}

/// The sorted list with `x` put in front of everything that does not come
/// before it.
pub open spec fn placed(s: Seq<ListingModel>, x: ListingModel) -> Seq<ListingModel>
    decreases s.len(),
{
    if s.len() > 0 && listed_before(s[0], x) {
        seq![s[0]] + placed(s.drop_first(), x)
    } else {
        seq![x] + s
    }
}

/// The vaults of `s` from `i` on, sorted by name. Vaults of the same name keep
/// their order.
pub open spec fn sorted(s: Seq<ListingModel>, i: int) -> Seq<ListingModel>
    decreases s.len() - i,
{
    if i < 0 || i >= s.len() {
        Seq::empty()
    } else {
        placed(sorted(s, i + 1), s[i])
    }
}

/// Whether the bytes of `a` come before those of `b`.
pub fn is_before(a: &[u8], b: &[u8]) -> (r: bool)
    ensures
        r == bytes_before(a@, b@),
{
    let mut i: usize = 0;
    assert(a@.skip(0) =~= a@ && b@.skip(0) =~= b@);
    while i < a.len() && i < b.len() && a[i] == b[i]
        invariant
            i <= a@.len(),
            i <= b@.len(),
            bytes_before(a@.skip(i as int), b@.skip(i as int)) == bytes_before(a@, b@),
        decreases a@.len() - i,
    {
        assert(a@.skip(i as int).drop_first() =~= a@.skip(i + 1));
        assert(b@.skip(i as int).drop_first() =~= b@.skip(i + 1));
        i = i + 1;
    }
    if i >= b.len() {
        false
    } else if i >= a.len() {
        true
    } else {
        a[i] < b[i]
    }
}

/// `x` belongs right behind the first `k` vaults of `s` if all of them come
/// before it and the next one does not.
proof fn lemma_placed(s: Seq<ListingModel>, x: ListingModel, k: int)
    requires
        0 <= k <= s.len(),
        forall|j: int| 0 <= j < k ==> listed_before(#[trigger] s[j], x),
        k < s.len() ==> !listed_before(s[k], x),
    ensures
        placed(s, x) == s.insert(k, x),
    decreases k,
{
    if k > 0 {
        let rest = s.drop_first();
        assert(listed_before(s[0], x));
        assert forall|j: int| 0 <= j < k - 1 implies listed_before(#[trigger] rest[j], x) by {
            assert(rest[j] == s[j + 1]);
        }
        if k < s.len() {
            assert(rest[k - 1] == s[k]);
        }
        lemma_placed(rest, x, k - 1);
        assert(seq![s[0]] + rest.insert(k - 1, x) =~= s.insert(k, x));
    } else {
        assert(seq![x] + s =~= s.insert(0, x));
    }
}

/// Sorts the listed vaults by name. Vaults of the same name keep their order.
pub fn sort_listing(found: Vec<VaultListing>) -> (r: Vec<VaultListing>)
    ensures
        listings_of(r@) == sorted(listings_of(found@), 0),
{
    let ghost all = listings_of(found@);
    let mut rest = found;
    let mut out: Vec<VaultListing> = Vec::new();
    assert(listings_of(out@) =~= Seq::empty());
    while rest.len() > 0
        invariant
            rest@.len() <= all.len(),
            listings_of(rest@) == all.take(rest@.len() as int),
            listings_of(out@) == sorted(all, rest@.len() as int),
        decreases rest@.len(),
    {
        let ghost before = rest@;
        let x = match rest.pop() {
            Some(x) => x,
            None => {
                assert(false);
                return out;
            },
        };
        let ghost i = rest@.len() as int;
        proof {
            assert(listings_of(before)[i] == all[i]);
            assert(x@ == all[i]);
            assert(listings_of(rest@) =~= all.take(i));
        }
        let ghost s = listings_of(out@);
        let mut k: usize = 0;
        while k < out.len() && is_before(
            out[k].name.as_str().as_bytes(),
            x.name.as_str().as_bytes(),
        )
            invariant
                k <= out@.len(),
                s == listings_of(out@),
                forall|j: int| 0 <= j < k ==> listed_before(#[trigger] s[j], x@),
            decreases out@.len() - k,
        {
            assert(s[k as int] == out@[k as int]@);
            k = k + 1;
        }
        proof {
            if k < out@.len() {
                assert(s[k as int] == out@[k as int]@);
            }
            lemma_placed(s, x@, k as int);
        }
        let ghost sorted_before = out@;
        out.insert(k, x);
        assert(listings_of(out@) =~= s.insert(k as int, x@));
    }
    assert(all.take(0).len() == 0);
    out
}

// What sorting promises.

proof fn lemma_before_transitive(a: Seq<u8>, b: Seq<u8>, c: Seq<u8>)
    requires
        !bytes_before(b, a),
        !bytes_before(c, b),
    ensures
        !bytes_before(c, a),
    decreases a.len(),
{
    if a.len() > 0 && b.len() > 0 && c.len() > 0 && a[0] == b[0] && b[0] == c[0] {
        lemma_before_transitive(a.drop_first(), b.drop_first(), c.drop_first());
    }
}

proof fn lemma_before_one_way(a: Seq<u8>, b: Seq<u8>)
    requires
        bytes_before(a, b),
    ensures
        !bytes_before(b, a),
    decreases a.len(),
{
    if a.len() > 0 && b.len() > 0 && a[0] == b[0] {
        lemma_before_one_way(a.drop_first(), b.drop_first());
    }
}

/// No vault of the list comes before one in front of it.
pub open spec fn in_order(s: Seq<ListingModel>) -> bool {
    forall|i: int, j: int| 0 <= i < j < s.len() ==> !listed_before(#[trigger] s[j], #[trigger] s[i])
}

proof fn lemma_placed_in_order(s: Seq<ListingModel>, x: ListingModel)
    requires
        in_order(s),
    ensures
        in_order(placed(s, x)),
        placed(s, x).to_multiset() == s.to_multiset().insert(x),
        placed(s, x).len() == s.len() + 1,
        forall|y: ListingModel| #[trigger] placed(s, x).contains(y) ==> y == x || s.contains(y),
    decreases s.len(),
{
    broadcast use vstd::seq_lib::group_to_multiset_ensures;

    if s.len() > 0 && listed_before(s[0], x) {
        let rest = s.drop_first();
        assert forall|i: int, j: int| 0 <= i < j < rest.len() implies !listed_before(
            #[trigger] rest[j],
            #[trigger] rest[i],
        ) by {
            assert(rest[j] == s[j + 1] && rest[i] == s[i + 1]);
        }
        lemma_placed_in_order(rest, x);
        let t = placed(rest, x);
        let w = placed(s, x);
        assert(w == seq![s[0]] + t);
        assert forall|i: int, j: int| 0 <= i < j < w.len() implies !listed_before(
            #[trigger] w[j],
            #[trigger] w[i],
        ) by {
            assert(w[j] == t[j - 1]);
            if i > 0 {
                assert(w[i] == t[i - 1]);
            } else {
                assert(t.contains(t[j - 1]));
                if t[j - 1] == x {
                    lemma_before_one_way(bytes::text(s[0].name), bytes::text(x.name));
                } else {
                    let k = choose|k: int| 0 <= k < rest.len() && rest[k] == t[j - 1];
                    assert(rest[k] == s[k + 1]);
                }
            }
        }
        assert(s =~= seq![s[0]] + rest);
        vstd::seq_lib::lemma_multiset_commutative(seq![s[0]], rest);
        vstd::seq_lib::lemma_multiset_commutative(seq![s[0]], t);
        assert(w.to_multiset() =~= s.to_multiset().insert(x));
        assert forall|y: ListingModel| #[trigger] w.contains(y) implies y == x || s.contains(y) by {
            let k = choose|k: int| 0 <= k < w.len() && w[k] == y;
            if k == 0 {
                assert(s[0] == y);
            } else {
                assert(t[k - 1] == y);
                assert(t.contains(y));
                if y != x {
                    let l = choose|l: int| 0 <= l < rest.len() && rest[l] == y;
                    assert(s[l + 1] == y);
                }
            }
        }
    } else {
        let w = placed(s, x);
        assert(w == seq![x] + s);
        vstd::seq_lib::lemma_multiset_commutative(seq![x], s);
        assert(seq![x].to_multiset() =~= vstd::multiset::Multiset::singleton(x)) by {
            assert(seq![x] =~= Seq::empty().push(x));
        }
        assert(w.to_multiset() =~= s.to_multiset().insert(x));
        assert forall|i: int, j: int| 0 <= i < j < w.len() implies !listed_before(
            #[trigger] w[j],
            #[trigger] w[i],
        ) by {
            assert(w[j] == s[j - 1]);
            if i > 0 {
                assert(w[i] == s[i - 1]);
            } else if j > 1 {
                assert(!listed_before(s[j - 1], s[0]));
                lemma_before_transitive(
                    bytes::text(x.name),
                    bytes::text(s[0].name),
                    bytes::text(s[j - 1].name),
                );
            }
        }
        assert forall|y: ListingModel| #[trigger] w.contains(y) implies y == x || s.contains(y) by {
            let k = choose|k: int| 0 <= k < w.len() && w[k] == y;
            if k > 0 {
                assert(s[k - 1] == y);
            }
        }
    }
}

/// The list of vaults is in order, and every vault that was found is listed as
/// often as it was found.
pub proof fn law_listing_is_sorted(s: Seq<ListingModel>, i: int)
    requires
        0 <= i <= s.len(),
    ensures
        in_order(sorted(s, i)),
        sorted(s, i).to_multiset() == s.skip(i).to_multiset(),
    decreases s.len() - i,
{
    broadcast use vstd::seq_lib::group_to_multiset_ensures;

    if i < s.len() {
        law_listing_is_sorted(s, i + 1);
        lemma_placed_in_order(sorted(s, i + 1), s[i]);
        let rest = s.skip(i + 1);
        assert(s.skip(i) =~= seq![s[i]] + rest);
        vstd::seq_lib::lemma_multiset_commutative(seq![s[i]], rest);
        assert(seq![s[i]].to_multiset() =~= vstd::multiset::Multiset::singleton(s[i])) by {
            assert(seq![s[i]] =~= Seq::empty().push(s[i]));
        }
        assert(s.skip(i).to_multiset() =~= rest.to_multiset().insert(s[i]));
    } else {
        assert(s.skip(i) =~= Seq::empty());
    }
}

// ---------------------------------------------------------------------
// What names and sizes promise
// ---------------------------------------------------------------------

/// Every unit is 1024 times the next smaller one, with white space in front of it or
/// without; a number with the unit of bytes, or with none, counts bytes.
pub proof fn law_units_are_powers(n: Seq<char>)
    ensures
        unit_split(n + "kb"@) == (text::trimmed(n), 1024u64),
        unit_split(n + "mb"@) == (text::trimmed(n), (1024 * 1024) as u64),
        unit_split(n + "gb"@) == (text::trimmed(n), (1024 * 1024 * 1024) as u64),
        unit_split(n + "tb"@) == (text::trimmed(n), (1024 * 1024 * 1024 * 1024) as u64),
        n.len() > 0 && n.last() != 't' && n.last() != 'g' && n.last() != 'm' && n.last() != 'k'
            ==> unit_split(n + "b"@) == (text::trimmed(n), 1u64),
        n.len() > 0 && n.last() != 'b' ==> unit_split(n) == (text::trimmed(n), 1u64),
{
    reveal_strlit("tb");
    reveal_strlit("gb");
    reveal_strlit("mb");
    reveal_strlit("kb");
    reveal_strlit("b");
    lemma_unit(n, "tb"@);
    lemma_unit(n, "gb"@);
    lemma_unit(n, "mb"@);
    lemma_unit(n, "kb"@);
    let s = n + "b"@;
    assert(s.skip(s.len() - 1) =~= "b"@);
    assert(s.take(s.len() - 1) =~= n);
    if n.len() > 0 {
        lemma_no_unit(s, n.last(), 'b');
        assert(n.take(n.len() as int) =~= n);
        if n.last() != 'b' {
            if n.len() > 1 {
                lemma_no_unit(n, n[n.len() - 2], n.last());
            }
            assert(n.skip(n.len() - 1)[0] == n.last());
        }
    }
}

proof fn lemma_unit(n: Seq<char>, unit: Seq<char>)
    requires
        unit.len() == 2,
        unit[1] == 'b',
    ensures
        ends_with(n + unit, unit),
        forall|other: Seq<char>|
            other.len() == 2 && other[0] != unit[0] ==> !#[trigger] ends_with(n + unit, other),
        number_part(n + unit, 2) == text::trimmed(n),
{
    let s = n + unit;
    assert(s.skip(s.len() - 2) =~= unit);
    assert(s.take(s.len() - 2) =~= n);
}

proof fn lemma_no_unit(s: Seq<char>, a: char, b: char)
    requires
        s.len() > 1,
        s[s.len() - 2] == a,
        s.last() == b,
    ensures
        forall|other: Seq<char>|
            other.len() == 2 && (other[0] != a || other[1] != b) ==> !#[trigger] ends_with(s, other),
{
    assert forall|other: Seq<char>|
        other.len() == 2 && (other[0] != a || other[1] != b) implies !#[trigger] ends_with(
        s,
        other,
    ) by {
        assert(s.skip(s.len() - 2)[0] == a);
        assert(s.skip(s.len() - 2)[1] == b);
    }
}

/// Whether every character is an ASCII letter or digit.
pub open spec fn all_alphanumeric(s: Seq<char>) -> bool {
    forall|i: int| 0 <= i < s.len() ==> is_alphanumeric(#[trigger] s[i])
}

/// Whether no character is an ASCII letter or digit.
pub open spec fn none_alphanumeric(s: Seq<char>) -> bool {
    forall|i: int| 0 <= i < s.len() ==> !is_alphanumeric(#[trigger] s[i])
}

/// Two words become two words with one dash between them, whatever stands between
/// and around them; one word stays as it is.
pub proof fn law_slug_keeps_the_words(
    before: Seq<char>,
    a: Seq<char>,
    gap: Seq<char>,
    b: Seq<char>,
    after: Seq<char>,
)
    requires
        none_alphanumeric(before),
        none_alphanumeric(gap),
        none_alphanumeric(after),
        all_alphanumeric(a),
        all_alphanumeric(b),
        a.len() > 0,
        b.len() > 0,
        gap.len() > 0,
    ensures
        slug_of(before + a + gap + b + after) == a + seq!['-'] + b,
        slug_of(a) == a,
{
    let s1 = before + a;
    let s2 = s1 + gap;
    let s3 = s2 + b;
    let s = s3 + after;
    let dash = seq!['-'];
    lemma_dashed_others(Seq::empty(), before);
    lemma_dashed_word(before, a);
    lemma_dashed_others(s1, gap);
    lemma_dashed_word(s2, b);
    lemma_dashed_others(s3, after);
    assert(Seq::<char>::empty() + before =~= before);
    let lead = dashed(before, before.len() as int);
    let body = a + dash + b;
    let tail = if after.len() > 0 {
        dash
    } else {
        Seq::<char>::empty()
    };
    let d1 = dashed(s1, s1.len() as int);
    assert(d1 == lead + a);
    assert(d1.last() == a.last());
    let d2 = dashed(s2, s2.len() as int);
    assert(d2 =~= lead + a + dash);
    let d3 = dashed(s3, s3.len() as int);
    assert(d3 =~= lead + body);
    assert(d3.last() == b.last());
    let d = dashed(s, s.len() as int);
    assert(d =~= lead + body + tail);
    assert(body[0] == a[0] && body.last() == b.last());
    lemma_undashed_body(lead, body, tail);
    lemma_dashed_word(Seq::empty(), a);
    assert(Seq::<char>::empty() + a =~= a);
    lemma_undashed_body(Seq::empty(), a, Seq::empty());
    assert(Seq::<char>::empty() + a + Seq::<char>::empty() =~= a);
}

/// The first characters decide what becomes of them.
proof fn lemma_dashed_prefix(s: Seq<char>, t: Seq<char>, n: int)
    requires
        0 <= n <= s.len(),
        n <= t.len(),
        s.take(n) == t.take(n),
    ensures
        dashed(s, n) == dashed(t, n),
    decreases n,
{
    if n > 0 {
        assert(s[n - 1] == s.take(n)[n - 1] && t[n - 1] == t.take(n)[n - 1]);
        assert(s.take(n - 1) =~= s.take(n).take(n - 1));
        assert(t.take(n - 1) =~= t.take(n).take(n - 1));
        lemma_dashed_prefix(s, t, n - 1);
    }
}

proof fn lemma_dashed_word(s: Seq<char>, w: Seq<char>)
    requires
        all_alphanumeric(w),
    ensures
        dashed(s + w, (s + w).len() as int) == dashed(s, s.len() as int) + w,
    decreases w.len(),
{
    let t = s + w;
    if w.len() == 0 {
        assert(t =~= s);
        assert(dashed(s, s.len() as int) + w =~= dashed(s, s.len() as int));
    } else {
        let u = w.drop_last();
        let n = t.len() as int;
        lemma_dashed_word(s, u);
        assert(t.take(n - 1) =~= (s + u).take(n - 1));
        lemma_dashed_prefix(t, s + u, n - 1);
        assert(t[n - 1] == w.last());
        assert(is_alphanumeric(w[w.len() - 1]));
        assert((dashed(s, s.len() as int) + u).push(w.last()) =~= dashed(s, s.len() as int) + w);
    }
}

proof fn lemma_dashed_others(s: Seq<char>, gap: Seq<char>)
    requires
        none_alphanumeric(gap),
    ensures
        ({
            let d = dashed(s, s.len() as int);
            dashed(s + gap, (s + gap).len() as int) == (if gap.len() == 0 || (d.len() > 0
                && d.last() == '-') {
                d
            } else {
                d.push('-')
            })
        }),
    decreases gap.len(),
{
    let t = s + gap;
    if gap.len() == 0 {
        assert(t =~= s);
    } else {
        let u = gap.drop_last();
        let n = t.len() as int;
        lemma_dashed_others(s, u);
        assert(t.take(n - 1) =~= (s + u).take(n - 1));
        lemma_dashed_prefix(t, s + u, n - 1);
        assert(t[n - 1] == gap.last());
        assert(!is_alphanumeric(gap[gap.len() - 1]));
    }
}

/// At most one dash on each side is cut.
proof fn lemma_undashed_body(lead: Seq<char>, body: Seq<char>, tail: Seq<char>)
    requires
        body.len() > 0,
        body[0] != '-',
        body.last() != '-',
        forall|i: int| 0 <= i < lead.len() ==> lead[i] == '-',
        forall|i: int| 0 <= i < tail.len() ==> tail[i] == '-',
    ensures
        undashed(lead + body + tail) == body,
    decreases lead.len() + tail.len(),
{
    let s = lead + body + tail;
    if lead.len() > 0 {
        assert(s[0] == lead[0]);
        assert(s.drop_first() =~= lead.drop_first() + body + tail);
        lemma_undashed_body(lead.drop_first(), body, tail);
    } else if tail.len() > 0 {
        assert(s[0] == body[0]);
        assert(s.last() == tail.last());
        assert(s.drop_last() =~= lead + body + tail.drop_last());
        lemma_undashed_body(lead, body, tail.drop_last());
    } else {
        assert(s =~= body);
    }
}

/// The file names that are tried for a vault all differ, so that one of them is free
/// sooner or later; each starts with the same text, and has the extension of a vault.
pub proof fn law_candidates_differ(base: Seq<char>, m: u64, n: u64)
    requires
        1 <= m < n,
    ensures
        candidate(base, m) != candidate(base, n),
        candidate(base, 1) == base + ".rvlt"@,
        candidate(base, n).take(base.len() as int) == base,
{
    reveal_strlit(".rvlt");
    reveal_strlit("-");
    let c = candidate(base, m);
    let d = candidate(base, n);
    assert(d.take(base.len() as int) =~= base);
    text::law_number_read_back(n as nat, u64::MAX as nat);
    text::law_number_read_back(m as nat, u64::MAX as nat);
    let digits = text::decimal_of(n as nat);
    assert(d.subrange(base.len() as int + 1, d.len() - 5) =~= digits);
    if c == d {
        if m > 1 {
            assert(c.subrange(base.len() as int + 1, c.len() - 5) =~= text::decimal_of(m as nat));
        } else {
            assert(c[base.len() as int] == '.');
            assert(d[base.len() as int] == '-');
        }
    }
}

/// A file is taken for a vault exactly if its name is some text with the extension
/// behind it.
pub proof fn law_vault_files_are_recognised(name: Seq<char>)
    ensures
        name.len() > 0 ==> names_vault(name + ".rvlt"@),
        names_vault(name) ==> name.take(name.len() - 5) + ".rvlt"@ == name && name.len() > 5,
{
    reveal_strlit(".rvlt");
    let s = name + ".rvlt"@;
    assert(s.skip(s.len() - 5) =~= ".rvlt"@);
    if names_vault(name) {
        assert(name =~= name.take(name.len() - 5) + name.skip(name.len() - 5));
    }
}

/// Names are compared byte by byte: what two names start with in common does not
/// matter, then the smaller byte comes first, and a name comes before its
/// continuations.
pub proof fn law_first_difference_decides(p: Seq<u8>, a: Seq<u8>, b: Seq<u8>)
    ensures
        bytes_before(p + a, p + b) == bytes_before(a, b),
        a.len() > 0 && b.len() > 0 && a[0] < b[0] ==> bytes_before(p + a, p + b) && !bytes_before(
            p + b,
            p + a,
        ),
        a.len() > 0 ==> bytes_before(p, p + a) && !bytes_before(p + a, p),
        !bytes_before(p, p),
    decreases p.len(),
{
    let none = Seq::<u8>::empty();
    assert(none + a =~= a && none + b =~= b);
    if p.len() > 0 {
        let q = p.drop_first();
        assert((p + a).drop_first() =~= q + a);
        assert((p + b).drop_first() =~= q + b);
        law_first_difference_decides(q, a, b);
    } else {
        assert(p + a =~= a && p + b =~= b);
    }
}

} // verus!
