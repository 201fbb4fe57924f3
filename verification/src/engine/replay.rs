//! What the change log promises: the ranges written since it was last taken
//! turn the container as it was then into the container as it is now, on any
//! replica.

use vstd::prelude::*;

use super::error::Fault;
use super::format::HeaderModel;
use super::health;
use super::identity;
use super::image;
use super::model::{self, Position, VaultModel};
use super::records::{ChainOp, RecordModel};
use super::sharing;

verus! {

/// The log of `v` leads from the container `base` to that of `v`.
pub open spec fn traces(base: Seq<u8>, v: VaultModel) -> bool {
    model::patched(base, v.log, v.log.len() as int) == (v.image, Ok::<(), Fault>(()))
}

/// From wherever the log of `v` leads to `v`, that of `w` leads to `w`.
pub open spec fn keeps_trace(v: VaultModel, w: VaultModel) -> bool {
    forall|base: Seq<u8>| traces(base, v) ==> #[trigger] traces(base, w)
}

/// Patching depends on the ranges applied only.
pub(crate) proof fn lemma_patched_prefix(
    base: Seq<u8>,
    a: Seq<(u64, Seq<u8>)>,
    b: Seq<(u64, Seq<u8>)>,
    n: int,
)
    requires
        n <= a.len(),
        n <= b.len(),
        forall|i: int| 0 <= i < n ==> a[i] == b[i],
    ensures
        model::patched(base, a, n) == model::patched(base, b, n),
    decreases n,
{
    if n > 0 {
        lemma_patched_prefix(base, a, b, n - 1);
    }
}

/// A write is traced.
pub(crate) proof fn lemma_write_traced(v: VaultModel, offset: u64, data: Seq<u8>)
    requires
        image::writable(offset as int, data),
    ensures
        keeps_trace(v, v.written(offset as int, data)),
{
    let w = v.written(offset as int, data);
    assert forall|base: Seq<u8>| traces(base, v) implies #[trigger] traces(base, w) by {
        let n = v.log.len() as int;
        assert(w.log == v.log.push((offset, data)));
        lemma_patched_prefix(base, w.log, v.log, n);
        assert(w.log[n] == (offset, data));
    }
}

/// A vault whose log was just taken starts a new trace.
pub proof fn law_taken_log_starts_trace(v: VaultModel)
    requires
        v.log.len() == 0,
    ensures
        traces(v.image, v),
{
}

// ---------------------------------------------------------------------
// Following the chain
// ---------------------------------------------------------------------

/// The ranges bring the replica to `v`: they turn its container into that of `v`,
/// and the chain that is followed along them ends where that of `v` does.
pub open spec fn leads(replica: VaultModel, ranges: Seq<(u64, Seq<u8>)>, v: VaultModel) -> bool {
    let n = ranges.len() as int;
    &&& v.header.admin_signing_pubkey == replica.header.admin_signing_pubkey
    &&& model::patched(replica.image, ranges, n) == (v.image, Ok::<(), Fault>(()))
    &&& replica.following(ranges, n) == Ok::<Position, Fault>(v.position())
}

/// Both hold the same bytes, and read them under the same header.
pub open spec fn same_container(a: VaultModel, b: VaultModel) -> bool {
    a.image == b.image && a.header == b.header
}

/// Whatever replica the log of `v` brings to `v`, that of `w` brings to `w`.
pub open spec fn keeps_lead(v: VaultModel, w: VaultModel) -> bool {
    forall|replica: VaultModel|
        leads(replica, v.log, v) ==> #[trigger] leads(replica, w.log, w)
}

/// A change whose ranges stand at `r` in the log is under way: `r` stores no
/// header, or one that does not go beyond the chain of `v`.
pub open spec fn interim(v: VaultModel, r: (u64, Seq<u8>)) -> bool {
    model::stores_header(r) ==> {
        &&& model::usable(r.1.take(1024)) matches Ok(h)
        &&& h.admin_signing_pubkey == v.header.admin_signing_pubkey
        &&& h.max_chain_records > 0
        &&& h.chain_next_seq <= v.header.chain_next_seq
    }
}

/// Everything written on the way from `v` to `x` belongs to a change that is
/// under way.
pub open spec fn calm(v: VaultModel, x: VaultModel) -> bool {
    &&& v.log.len() <= x.log.len()
    &&& x.log.take(v.log.len() as int) == v.log
    &&& forall|k: int| v.log.len() <= k < x.log.len() ==> interim(v, #[trigger] x.log[k])
}

/// The change from `v` to `w` is done: what was written last is the header of
/// `w`.
pub open spec fn concluded(v: VaultModel, w: VaultModel) -> bool {
    let n = w.log.len() as int - 1;
    &&& v.log.len() <= n
    &&& w.log.take(v.log.len() as int) == v.log
    &&& w.log[n] == (0u64, w.header.encoded())
    &&& forall|k: int| v.log.len() <= k < n ==> interim(v, #[trigger] w.log[k])
}

/// A write behind the header belongs to a change that is under way.
pub(crate) proof fn lemma_calm_write(v: VaultModel, x: VaultModel, offset: int, data: Seq<u8>)
    requires
        calm(v, x),
        1024 <= offset <= u64::MAX,
    ensures
        calm(v, x.written(offset, data)),
{
    let y = x.written(offset, data);
    assert(y.log.take(v.log.len() as int) =~= v.log) by {
        assert(x.log.take(v.log.len() as int) =~= v.log);
    }
    assert forall|k: int| v.log.len() <= k < y.log.len() implies interim(v, #[trigger] y.log[k]) by {
        if k < x.log.len() {
            assert(y.log[k] == x.log[k]);
        }
    }
}

/// So does storing a header that does not go beyond the chain.
pub(crate) proof fn lemma_calm_header(v: VaultModel, x: VaultModel, h: HeaderModel)
    requires
        calm(v, x),
        x.with_stored_header(h).stored(),
        h.admin_signing_pubkey == v.header.admin_signing_pubkey,
        h.chain_next_seq <= v.header.chain_next_seq,
    ensures
        calm(v, x.with_stored_header(h)),
{
    let y = x.with_stored_header(h);
    sharing::lemma_reloads(y);
    super::format::lemma_body_len(h);
    assert(h.encoded().take(1024) =~= h.encoded());
    assert(y.image.subrange(0, 1024) == h.encoded());
    assert(y.log.take(v.log.len() as int) =~= v.log) by {
        assert(x.log.take(v.log.len() as int) =~= v.log);
    }
    assert forall|k: int| v.log.len() <= k < y.log.len() implies interim(v, #[trigger] y.log[k]) by {
        if k < x.log.len() {
            assert(y.log[k] == x.log[k]);
        } else {
            assert(y.log[k] == (0u64, h.encoded()));
        }
    }
}

/// Appending a record concludes a change.
pub(crate) proof fn lemma_concluded(
    v: VaultModel,
    x: VaultModel,
    op: ChainOp,
    target: u128,
    hash: Seq<u8>,
    at: i64,
)
    requires
        calm(v, x),
        x.header.in_order(),
    ensures
        concluded(v, x.with_record(op, target, hash, at)),
{
    let rec = x.next_record(op, target, hash, at);
    let n = x.header.chain_next_seq as int;
    let w = x.with_record(op, target, hash, at);
    health::lemma_places(x.header);
    health::lemma_total(x.header);
    lemma_calm_write(v, x, x.header.record_at(n), rec.encoded());
    let y = x.written(x.header.record_at(n), rec.encoded());
    assert(w.log == y.log.push((0u64, w.header.encoded())));
    assert(w.log.take(v.log.len() as int) =~= v.log) by {
        assert(y.log.take(v.log.len() as int) =~= v.log);
    }
    assert forall|k: int| v.log.len() <= k < w.log.len() - 1 implies interim(
        v,
        #[trigger] w.log[k],
    ) by {
        assert(w.log[k] == y.log[k]);
    }
}

/// Following depends on the ranges followed only.
proof fn lemma_followed_prefix(
    admin: Seq<u8>,
    base: Seq<u8>,
    at: Position,
    a: Seq<(u64, Seq<u8>)>,
    b: Seq<(u64, Seq<u8>)>,
    n: int,
)
    requires
        n <= a.len(),
        n <= b.len(),
        forall|i: int| 0 <= i < n ==> a[i] == b[i],
    ensures
        model::followed(admin, base, at, a, n) == model::followed(admin, base, at, b, n),
    decreases n,
{
    if n > 0 {
        lemma_followed_prefix(admin, base, at, a, b, n - 1);
        lemma_patched_prefix(base, a, b, n);
    }
}

/// Following one list of ranges and then another.
proof fn lemma_followed_concat(
    admin: Seq<u8>,
    base: Seq<u8>,
    at: Position,
    a: Seq<(u64, Seq<u8>)>,
    b: Seq<(u64, Seq<u8>)>,
    n: int,
)
    requires
        0 <= n <= b.len(),
        model::patched(base, a, a.len() as int).1 is Ok,
        model::followed(admin, base, at, a, a.len() as int) is Ok,
    ensures
        model::followed(admin, base, at, a + b, a.len() + n) == model::followed(
            admin,
            model::patched(base, a, a.len() as int).0,
            model::followed(admin, base, at, a, a.len() as int)->Ok_0,
            b,
            n,
        ),
    decreases n,
{
    if n > 0 {
        lemma_followed_concat(admin, base, at, a, b, n - 1);
        lemma_patched_concat(base, a, b, n);
        assert((a + b)[a.len() + n - 1] == b[n - 1]);
    } else {
        lemma_followed_prefix(admin, base, at, a + b, a, a.len() as int);
    }
}

/// Ranges of changes that are known already do not move the position.
proof fn lemma_followed_known(
    admin: Seq<u8>,
    base: Seq<u8>,
    at: Position,
    ranges: Seq<(u64, Seq<u8>)>,
    n: int,
)
    requires
        0 <= n <= ranges.len(),
        forall|k: int| 0 <= k < n ==> known(admin, at.seq, #[trigger] ranges[k]),
    ensures
        model::followed(admin, base, at, ranges, n) == Ok::<Position, Fault>(at),
    decreases n,
{
    if n > 0 {
        lemma_followed_known(admin, base, at, ranges, n - 1);
        assert(known(admin, at.seq, ranges[n - 1]));
    }
}

/// The range stores no header, or one of this admin that goes no further than
/// `seq`.
pub open spec fn known(admin: Seq<u8>, seq: u64, r: (u64, Seq<u8>)) -> bool {
    model::stores_header(r) ==> {
        &&& model::usable(r.1.take(1024)) matches Ok(h)
        &&& h.admin_signing_pubkey == admin
        &&& h.max_chain_records > 0
        &&& h.chain_next_seq <= seq
    }
}

/// Whatever was followed is known from then on, and the position never goes
/// back.
proof fn lemma_followed_is_known(
    admin: Seq<u8>,
    base: Seq<u8>,
    at: Position,
    ranges: Seq<(u64, Seq<u8>)>,
    n: int,
)
    requires
        0 <= n <= ranges.len(),
        model::followed(admin, base, at, ranges, n) is Ok,
    ensures
        at.seq <= model::followed(admin, base, at, ranges, n)->Ok_0.seq,
        forall|k: int|
            0 <= k < n ==> known(
                admin,
                model::followed(admin, base, at, ranges, n)->Ok_0.seq,
                #[trigger] ranges[k],
            ),
    decreases n,
{
    if n > 0 {
        lemma_followed_is_known(admin, base, at, ranges, n - 1);
    }
}

/// A change that is concluded, and that the chain records, is followed.
pub(crate) proof fn lemma_keeps_lead(v: VaultModel, w: VaultModel)
    requires
        w.stored(),
        w.chain_ok(),
        health::advances(v, w),
        keeps_trace(v, w),
        concluded(v, w),
    ensures
        keeps_lead(v, w),
{
    let n = w.log.len() as int - 1;
    let s = v.header.chain_next_seq as int;
    sharing::lemma_reloads(w);
    super::format::lemma_body_len(w.header);
    assert(w.header.encoded().take(1024) =~= w.header.encoded());
    let l = model::locked(w.image, w.header);
    assert(l.record(s) == w.record(s)) by {
        reveal(VaultModel::record);
    }
    assert(w.newest() == s);
    assert(w.record_ok(s));
    assert(l.chain_from(v.header.chain_last_hash, s, s) == Ok::<Seq<u8>, Fault>(
        v.header.chain_last_hash,
    ));
    assert(l.chain_from(v.header.chain_last_hash, s, s + 1) == Ok::<Seq<u8>, Fault>(
        w.header.chain_last_hash,
    ));
    assert forall|replica: VaultModel| leads(replica, v.log, v) implies #[trigger] leads(
        replica,
        w.log,
        w,
    ) by {
        assert(traces(replica.image, v));
        assert(traces(replica.image, w));
        lemma_under_way(replica, v, w, n);
        assert(w.log[n] == (0u64, w.header.encoded()));
    }
}

/// A change that is under way does not move the position.
proof fn lemma_under_way(replica: VaultModel, v: VaultModel, w: VaultModel, n: int)
    requires
        leads(replica, v.log, v),
        v.log.len() <= n <= w.log.len(),
        w.log.take(v.log.len() as int) == v.log,
        forall|k: int| v.log.len() <= k < n ==> interim(v, #[trigger] w.log[k]),
    ensures
        replica.following(w.log, n) == Ok::<Position, Fault>(v.position()),
    decreases n,
{
    if n == v.log.len() {
        let m = v.log.len() as int;
        assert forall|i: int| 0 <= i < m implies w.log[i] == v.log[i] by {
            assert(w.log.take(m)[i] == v.log[i]);
        }
        lemma_followed_prefix(
            replica.header.admin_signing_pubkey,
            replica.image,
            replica.position(),
            w.log,
            v.log,
            m,
        );
    } else {
        lemma_under_way(replica, v, w, n - 1);
        assert(interim(v, w.log[n - 1]));
    }
}

/// A replica of a vault whose log was just taken is where the log begins.
pub proof fn law_replica_starts_lead(v: VaultModel, replica: VaultModel)
    requires
        v.log.len() == 0,
        replica.image == v.image,
        replica.position() == v.position(),
        replica.header.admin_signing_pubkey == v.header.admin_signing_pubkey,
    ensures
        leads(replica, v.log, v),
{
}

/// The log of a change leads from the vault before it to the vault after it.
pub proof fn law_change_leads(v: VaultModel, w: VaultModel)
    requires
        v.log.len() == 0,
        keeps_lead(v, w),
    ensures
        leads(v, w.log, w),
{
    law_replica_starts_lead(v, v);
}

/// Ranges that bring a replica to a healthy vault are applied: the replica's
/// container, header and bitmap become those of the vault.
pub proof fn law_verified_patch_is_applied(
    ranges: Seq<(u64, Seq<u8>)>,
    v: VaultModel,
    replica: VaultModel,
)
    requires
        v.stored(),
        v.chain_ok(),
        leads(replica, ranges, v),
    ensures
        replica.applying(ranges) == (
            VaultModel { image: v.image, header: v.header, bitmap: v.bitmap, ..replica },
            Ok::<(), Fault>(()),
        ),
{
    sharing::lemma_reloads(v);
    let next = VaultModel { image: v.image, header: v.header, bitmap: v.bitmap, ..replica };
    let at = v.position();
    assert(v.record_ok(v.newest()));
    assert(next.record(v.newest()) == v.record(v.newest())) by {
        reveal(VaultModel::record);
    }
    assert(next.chain_from(at.tip, at.seq as int, at.seq as int) == Ok::<Seq<u8>, Fault>(at.tip));
    assert(replica.advance_fault(next, at) is None);
}

/// Applying the log of a healthy vault to a replica that the log brings to the
/// vault makes the replica's container, header and bitmap those of the vault.
pub proof fn law_patch_reproduces(v: VaultModel, replica: VaultModel)
    requires
        v.stored(),
        v.chain_ok(),
        leads(replica, v.log, v),
    ensures
        replica.applying(v.log) == (
            VaultModel { image: v.image, header: v.header, bitmap: v.bitmap, ..replica },
            Ok::<(), Fault>(()),
        ),
{
    law_verified_patch_is_applied(v.log, v, replica);
}

/// However many changes a vault went through since its log was taken, the log
/// still reproduces it: a replica from before the first change becomes, byte for
/// byte, the vault after the last. `at(s)` is the vault after `s` changes.
pub proof fn law_changes_are_reproduced(
    at: spec_fn(int) -> VaultModel,
    n: int,
    replica: VaultModel,
)
    requires
        0 <= n,
        at(0).log.len() == 0,
        replica.image == at(0).image,
        replica.position() == at(0).position(),
        replica.header.admin_signing_pubkey == at(0).header.admin_signing_pubkey,
        forall|s: int| 0 <= s < n ==> keeps_lead(#[trigger] at(s), at(s + 1)),
        at(n).stored(),
        at(n).chain_ok(),
    ensures
        replica.applying(at(n).log) == (
            VaultModel {
                image: at(n).image,
                header: at(n).header,
                bitmap: at(n).bitmap,
                ..replica
            },
            Ok::<(), Fault>(()),
        ),
{
    law_replica_starts_lead(at(0), replica);
    lemma_led_through(at, n, replica);
    law_patch_reproduces(at(n), replica);
}

proof fn lemma_led_through(at: spec_fn(int) -> VaultModel, n: int, replica: VaultModel)
    requires
        0 <= n,
        leads(replica, at(0).log, at(0)),
        forall|s: int| 0 <= s < n ==> keeps_lead(#[trigger] at(s), at(s + 1)),
    ensures
        leads(replica, at(n).log, at(n)),
    decreases n,
{
    if n > 0 {
        lemma_led_through(at, n - 1, replica);
        assert(keeps_lead(at(n - 1), at(n - 1 + 1)));
        assert(leads(replica, at(n).log, at(n)));
    }
}

/// Ranges that lead from one vault to another, and then others that lead on,
/// lead all the way.
pub proof fn law_leads_add_up(
    a: VaultModel,
    first: Seq<(u64, Seq<u8>)>,
    b: VaultModel,
    second: Seq<(u64, Seq<u8>)>,
    c: VaultModel,
)
    requires
        leads(a, first, b),
        leads(b, second, c),
    ensures
        leads(a, first + second, c),
{
    let n = second.len() as int;
    lemma_patched_concat(a.image, first, second, n);
    lemma_followed_concat(
        a.header.admin_signing_pubkey,
        a.image,
        a.position(),
        first,
        second,
        n,
    );
    assert((first + second).len() == first.len() + n);
}

/// A replica that has some of the changes already is led to the same end when all
/// of them are replayed on it.
pub proof fn law_replay_leads(
    a: VaultModel,
    had: Seq<(u64, Seq<u8>)>,
    b: VaultModel,
    missed: Seq<(u64, Seq<u8>)>,
    c: VaultModel,
)
    requires
        leads(a, had, b),
        leads(b, missed, c),
    ensures
        leads(b, had + missed, c),
{
    let admin = b.header.admin_signing_pubkey;
    let none = Seq::<(u64, Seq<u8>)>::empty();
    law_replay_is_idempotent(a.image, had, none);
    assert(had + none =~= had);
    lemma_followed_is_known(admin, a.image, a.position(), had, had.len() as int);
    lemma_followed_known(admin, b.image, b.position(), had, had.len() as int);
    law_leads_add_up(b, had, b, missed, c);
}

/// A patch that is refused changes nothing, not even in part.
pub proof fn law_refused_patch_changes_nothing(v: VaultModel, ranges: Seq<(u64, Seq<u8>)>)
    ensures
        v.applying(ranges).1 is Err ==> v.applying(ranges).0 == v,
{
}

/// The container with the first `k` ranges laid over it holds this record, at its
/// place under the header `h`.
pub open spec fn stands(
    image: Seq<u8>,
    ranges: Seq<(u64, Seq<u8>)>,
    k: int,
    h: HeaderModel,
    rec: RecordModel,
) -> bool {
    &&& 0 <= k <= ranges.len()
    &&& model::locked(model::patched(image, ranges, k).0, h).record(rec.seq as int) == Ok::<
        Option<RecordModel>,
        Fault,
    >(Some(rec))
}

/// These records continue a chain from `start`: they are numbered on, each has the
/// hash of its contents, carries the admin's signature and links to the one before
/// it.
pub open spec fn continue_chain(admin: Seq<u8>, start: Position, recs: Seq<RecordModel>) -> bool {
    forall|i: int|
        0 <= i < recs.len() ==> {
            &&& (#[trigger] recs[i]).seq == start.seq + i
            &&& recs[i].self_consistent()
            &&& identity::signature_check(admin, recs[i].record_hash, recs[i].signature) is Ok
            &&& recs[i].prev_hash == tip_after(start, recs.take(i))
        }
}

/// The hash of the last of these records.
pub open spec fn tip_after(start: Position, recs: Seq<RecordModel>) -> Seq<u8> {
    if recs.len() == 0 {
        start.tip
    } else {
        recs.last().record_hash
    }
}

/// The container holds this record at some point of the patch.
pub open spec fn carried(image: Seq<u8>, ranges: Seq<(u64, Seq<u8>)>, rec: RecordModel) -> bool {
    exists|k: int, h: HeaderModel| #[trigger] stands(image, ranges, k, h, rec)
}

/// The container holds each of these records at some point of the patch.
pub open spec fn all_carried(
    image: Seq<u8>,
    ranges: Seq<(u64, Seq<u8>)>,
    recs: Seq<RecordModel>,
) -> bool {
    forall|i: int| 0 <= i < recs.len() ==> carried(image, ranges, #[trigger] recs[i])
}

/// A patch is applied only if it verifies: the admin's key is the same, and the
/// patch carries records that the admin signed, which continue the replica's chain
/// without a gap up to the one that the new header is anchored to. No record is
/// taken back.
pub proof fn law_applied_patch_verifies(v: VaultModel, ranges: Seq<(u64, Seq<u8>)>) -> (recs: Seq<
    RecordModel,
>)
    requires
        v.applying(ranges).1 is Ok,
    ensures
        ({
            let w = v.applying(ranges).0;
            &&& w.header.admin_signing_pubkey == v.header.admin_signing_pubkey
            &&& w.header.chain_next_seq == v.header.chain_next_seq + recs.len()
            &&& w.header.chain_last_hash == tip_after(v.position(), recs)
            &&& continue_chain(v.header.admin_signing_pubkey, v.position(), recs)
            &&& all_carried(v.image, ranges, recs)
            &&& w.anchor_fault() is None
        }),
{
    let admin = v.header.admin_signing_pubkey;
    let n = ranges.len() as int;
    let w = v.applying(ranges).0;
    let at = v.following(ranges, n)->Ok_0;
    let recs = lemma_carried(v, ranges, n);
    let l = model::locked(w.image, w.header);
    lemma_same_chain(l, w, at.tip, at.seq as int, w.header.chain_next_seq as int);
    lemma_extended(
        admin,
        v.image,
        v.position(),
        ranges,
        n,
        w.header,
        recs,
        at,
        w.header.chain_next_seq as int,
    )
}

proof fn lemma_same_chain(a: VaultModel, b: VaultModel, tip: Seq<u8>, first: int, end: int)
    requires
        a.image == b.image,
        a.header == b.header,
    ensures
        a.chain_from(tip, first, end) == b.chain_from(tip, first, end),
    decreases end - first,
{
    reveal(VaultModel::record);
    if first < end {
        lemma_same_chain(a, b, tip, first, end - 1);
    }
}

/// The records that following the first `n` ranges goes by.
proof fn lemma_carried(v: VaultModel, ranges: Seq<(u64, Seq<u8>)>, n: int) -> (recs: Seq<
    RecordModel,
>)
    requires
        0 <= n <= ranges.len(),
        v.following(ranges, n) is Ok,
    ensures
        v.following(ranges, n)->Ok_0.seq == v.header.chain_next_seq + recs.len(),
        v.following(ranges, n)->Ok_0.tip == tip_after(v.position(), recs),
        continue_chain(v.header.admin_signing_pubkey, v.position(), recs),
        all_carried(v.image, ranges, recs),
    decreases n,
{
    if n == 0 {
        Seq::empty()
    } else {
        let recs = lemma_carried(v, ranges, n - 1);
        let before = v.following(ranges, n - 1)->Ok_0;
        if model::stores_header(ranges[n - 1]) {
            let h = model::usable(ranges[n - 1].1.take(1024))->Ok_0;
            if before.seq < h.chain_next_seq {
                lemma_extended(
                    v.header.admin_signing_pubkey,
                    v.image,
                    v.position(),
                    ranges,
                    n,
                    h,
                    recs,
                    before,
                    h.chain_next_seq as int,
                )
            } else {
                recs
            }
        } else {
            recs
        }
    }
}

/// The records that following the chain into a container adds.
proof fn lemma_extended(
    admin: Seq<u8>,
    image: Seq<u8>,
    start: Position,
    ranges: Seq<(u64, Seq<u8>)>,
    k: int,
    h: HeaderModel,
    recs: Seq<RecordModel>,
    at: Position,
    end: int,
) -> (more: Seq<RecordModel>)
    requires
        0 <= k <= ranges.len(),
        h.admin_signing_pubkey == admin,
        at.seq == start.seq + recs.len(),
        at.tip == tip_after(start, recs),
        continue_chain(admin, start, recs),
        all_carried(image, ranges, recs),
        at.seq <= end <= u64::MAX,
        model::locked(model::patched(image, ranges, k).0, h).chain_from(
            at.tip,
            at.seq as int,
            end,
        ) is Ok,
    ensures
        end == start.seq + more.len(),
        model::locked(model::patched(image, ranges, k).0, h).chain_from(
            at.tip,
            at.seq as int,
            end,
        ) == Ok::<Seq<u8>, Fault>(tip_after(start, more)),
        continue_chain(admin, start, more),
        all_carried(image, ranges, more),
    decreases end,
{
    let l = model::locked(model::patched(image, ranges, k).0, h);
    if end == at.seq {
        recs
    } else {
        let before = lemma_extended(admin, image, start, ranges, k, h, recs, at, end - 1);
        let rec = l.record(end - 1)->Ok_0->Some_0;
        let more = before.push(rec);
        assert(stands(image, ranges, k, h, rec));
        assert forall|i: int| 0 <= i < more.len() implies {
            &&& (#[trigger] more[i]).seq == start.seq + i
            &&& more[i].self_consistent()
            &&& identity::signature_check(admin, more[i].record_hash, more[i].signature) is Ok
            &&& more[i].prev_hash == tip_after(start, more.take(i))
        } by {
            assert(more.take(i) =~= before.take(i));
            if i < before.len() {
                assert(more[i] == before[i]);
            } else {
                assert(before.take(i) =~= before);
            }
        }
        assert(carried(image, ranges, rec));
        assert forall|i: int| 0 <= i < more.len() implies carried(
            image,
            ranges,
            #[trigger] more[i],
        ) by {
            if i < before.len() {
                assert(more[i] == before[i]);
            }
        }
        more
    }
}

// ---------------------------------------------------------------------
// Replaying more than is missing
// ---------------------------------------------------------------------

/// The range holds the byte at `p`.
pub open spec fn holds(r: (u64, Seq<u8>), p: int) -> bool {
    r.0 <= p < r.0 + r.1.len()
}

/// One of the ranges from number `n` on holds the byte at `p`.
pub open spec fn held_from(ranges: Seq<(u64, Seq<u8>)>, n: int, p: int) -> bool {
    exists|m: int| n <= m < ranges.len() && holds(#[trigger] ranges[m], p)
}

/// The byte of the container at `p`; behind its end there are zero bytes.
pub open spec fn byte_at(image: Seq<u8>, p: int) -> u8 {
    if 0 <= p < image.len() {
        image[p]
    } else {
        0
    }
}

/// Patching again what is patched already, step by step: where the two differ,
/// a later range makes them equal.
proof fn lemma_catching_up(base: Seq<u8>, ranges: Seq<(u64, Seq<u8>)>, n: int)
    requires
        0 <= n <= ranges.len(),
        model::patched(base, ranges, ranges.len() as int).1 is Ok,
    ensures
        ({
            let done = model::patched(base, ranges, ranges.len() as int).0;
            let x = model::patched(base, ranges, n);
            let y = model::patched(done, ranges, n);
            &&& x.1 is Ok
            &&& y.1 is Ok
            &&& y.0.len() == done.len()
            &&& x.0.len() <= done.len()
            &&& forall|p: int|
                0 <= p ==> #[trigger] byte_at(x.0, p) == byte_at(y.0, p) || held_from(ranges, n, p)
        }),
    decreases n,
{
    let all = ranges.len() as int;
    let done = model::patched(base, ranges, all).0;
    lemma_prefix_ok(base, ranges, n, all);
    if n == 0 {
        assert forall|p: int| 0 <= p implies #[trigger] byte_at(base, p) == byte_at(done, p)
            || held_from(ranges, 0, p) by {
            lemma_untouched(base, ranges, all, p);
        }
    } else {
        lemma_catching_up(base, ranges, n - 1);
        lemma_prefix_ok(base, ranges, n - 1, all);
        let x = model::patched(base, ranges, n - 1).0;
        let y = model::patched(done, ranges, n - 1).0;
        let r = ranges[n - 1];
        let x2 = model::patched(base, ranges, n).0;
        let y2 = model::patched(done, ranges, n).0;
        assert(x2 == image::overlaid(x, r.0 as int, r.1));
        assert(y2 == image::overlaid(y, r.0 as int, r.1));
        assert forall|p: int| 0 <= p implies #[trigger] byte_at(x2, p) == byte_at(y2, p)
            || held_from(ranges, n, p) by {
            assert(byte_at(x, p) == byte_at(y, p) || held_from(ranges, n - 1, p));
            if !holds(r, p) && held_from(ranges, n - 1, p) {
                let m = choose|m: int|
                    n - 1 <= m < ranges.len() && holds(#[trigger] ranges[m], p);
                assert(m != n - 1);
            }
        }
    }
}

/// Whatever all ranges can be written, the first `n` can, and the container
/// never shrinks.
pub(crate) proof fn lemma_prefix_ok(
    base: Seq<u8>,
    ranges: Seq<(u64, Seq<u8>)>,
    n: int,
    all: int,
)
    requires
        0 <= n <= all <= ranges.len(),
        model::patched(base, ranges, all).1 is Ok,
    ensures
        model::patched(base, ranges, n).1 is Ok,
        base.len() <= model::patched(base, ranges, n).0.len() <= model::patched(
            base,
            ranges,
            all,
        ).0.len(),
        n < all ==> image::writable(ranges[n].0 as int, ranges[n].1),
    decreases all,
{
    if n < all {
        lemma_prefix_ok(base, ranges, n, all - 1);
        if n == all - 1 {
            lemma_not_shorter(base, ranges, n);
        }
    } else {
        lemma_not_shorter(base, ranges, n);
    }
}

proof fn lemma_not_shorter(base: Seq<u8>, ranges: Seq<(u64, Seq<u8>)>, n: int)
    ensures
        base.len() <= model::patched(base, ranges, n).0.len(),
    decreases n,
{
    if n > 0 {
        lemma_not_shorter(base, ranges, n - 1);
    }
}

/// A byte that no range holds stays as it is.
proof fn lemma_untouched(base: Seq<u8>, ranges: Seq<(u64, Seq<u8>)>, n: int, p: int)
    requires
        0 <= n <= ranges.len(),
        0 <= p,
    ensures
        byte_at(model::patched(base, ranges, n).0, p) == byte_at(base, p) || exists|m: int|
            0 <= m < n && holds(#[trigger] ranges[m], p),
    decreases n,
{
    if n > 0 {
        lemma_untouched(base, ranges, n - 1, p);
        assert(holds(ranges[n - 1], p) || !holds(ranges[n - 1], p));
    }
}

/// Patching with one list of ranges and then with another.
pub(crate) proof fn lemma_patched_concat(
    base: Seq<u8>,
    a: Seq<(u64, Seq<u8>)>,
    b: Seq<(u64, Seq<u8>)>,
    n: int,
)
    requires
        0 <= n <= b.len(),
        model::patched(base, a, a.len() as int).1 is Ok,
    ensures
        model::patched(base, a + b, a.len() + n) == model::patched(
            model::patched(base, a, a.len() as int).0,
            b,
            n,
        ),
    decreases n,
{
    if n > 0 {
        lemma_patched_concat(base, a, b, n - 1);
        assert((a + b)[a.len() + n - 1] == b[n - 1]);
    } else {
        lemma_patched_prefix(base, a + b, a, a.len() as int);
    }
}

/// A replica that has some of the changes already comes out the same when all of
/// them are replayed on it.
pub proof fn law_replay_is_idempotent(
    base: Seq<u8>,
    had: Seq<(u64, Seq<u8>)>,
    missed: Seq<(u64, Seq<u8>)>,
)
    requires
        model::patched(base, had, had.len() as int).1 is Ok,
    ensures
        model::patched(
            model::patched(base, had, had.len() as int).0,
            had + missed,
            (had + missed).len() as int,
        ) == model::patched(base, had + missed, (had + missed).len() as int),
{
    let n = had.len() as int;
    let done = model::patched(base, had, n).0;
    lemma_catching_up(base, had, n);
    let again = model::patched(done, had, n).0;
    assert(again =~= done) by {
        assert forall|p: int| 0 <= p < done.len() implies again[p] == done[p] by {
            assert(byte_at(done, p) == byte_at(again, p) || held_from(had, n, p));
        }
    }
    lemma_patched_concat(done, had, missed, missed.len() as int);
    lemma_patched_concat(base, had, missed, missed.len() as int);
    assert((had + missed).len() == had.len() + missed.len());
}

} // verus!
