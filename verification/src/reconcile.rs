//! Device reconciler: bring persisted device and point records into
//! agreement with a freshly discovered set of controller units.
//!
//! Persisted devices are matched to discovered units by bus address,
//! one-to-one. A persisted device whose address no longer answers is
//! deleted (its points cascade with it); a discovered unit with no row is
//! inserted; a match whose endpoint count changed is updated to the new
//! count, never to a new address. Deletes are applied before inserts and
//! updates, so a reused address never passes through a duplicate state.
//! After the device set is settled, every device's point count is brought
//! to its endpoint count: missing points are appended with fresh default
//! attributes at positions past the current maximum — existing positions
//! are never reused or renumbered — and excess points are removed from the
//! highest positions down.

use vstd::prelude::*;

use crate::errors::ApiError;
use crate::mapper::{
    count_at_position, lemma_counts_unique_positions, lemma_filter_prefix_len, lemma_sort_filter_len,
    lemma_sort_len, lemma_sort_sorted, lemma_unique_position_counts, positions_unique, slot_of,
    spec_sort, Slot,
};
use crate::models::{Devices, NewDevices, Points};
use crate::seq_facts::{
    and_pred, keys_distinct, lemma_filter_all, lemma_filter_equiv, lemma_filter_filter,
    lemma_filter_keys_distinct, lemma_filter_none, lemma_filter_push, lemma_filter_subset,
    lemma_map_filter_len,
};

verus! {

/// Some persisted device carries bus address `a`.
pub open spec fn has_adr(devs: Seq<Devices>, a: i32) -> bool {
    exists|k: int| 0 <= k < devs.len() && devs[k].adr == a
}

/// Some discovered unit carries bus address `a`.
pub open spec fn unit_has_adr(units: Seq<NewDevices>, a: i32) -> bool {
    exists|k: int| 0 <= k < units.len() && units[k].adr == a
}

/// Some persisted device carries persistence id `id`.
pub open spec fn has_id(devs: Seq<Devices>, id: i32) -> bool {
    exists|k: int| 0 <= k < devs.len() && devs[k].id == id
}

/// Index of the first discovered unit at address `a`, or -1.
pub open spec fn find_unit(units: Seq<NewDevices>, a: i32) -> int
    decreases units.len(),
{
    if units.len() == 0 {
        -1
    } else if units[0].adr == a {
        0
    } else {
        let r = find_unit(units.drop_first(), a);
        if r == -1 {
            -1
        } else {
            r + 1
        }
    }
}

/// Endpoint count the discovery reported for address `a`.
pub open spec fn unit_count_for(units: Seq<NewDevices>, a: i32) -> i32 {
    units[find_unit(units, a)].endpoint_count
}

/// No two persisted devices share an address.
pub open spec fn adrs_unique(devs: Seq<Devices>) -> bool {
    keys_distinct(devs, |d: Devices| d.adr as int)
}

/// No two discovered units share an address.
pub open spec fn unit_adrs_unique(units: Seq<NewDevices>) -> bool {
    keys_distinct(units, |u: NewDevices| u.adr as int)
}

/// No two persisted devices share an id.
pub open spec fn ids_unique(devs: Seq<Devices>) -> bool {
    keys_distinct(devs, |d: Devices| d.id as int)
}

proof fn lemma_find_unit(units: Seq<NewDevices>, a: i32)
    ensures
        unit_has_adr(units, a) ==> {
            let r = find_unit(units, a);
            &&& 0 <= r < units.len()
            &&& units[r].adr == a
        },
        !unit_has_adr(units, a) ==> find_unit(units, a) == -1,
    decreases units.len(),
{
    if units.len() != 0 && units[0].adr != a {
        lemma_find_unit(units.drop_first(), a);
        if unit_has_adr(units, a) {
            let k = choose|k: int| 0 <= k < units.len() && units[k].adr == a;
            assert(units.drop_first()[k - 1] == units[k]);
            assert(unit_has_adr(units.drop_first(), a));
        }
        if unit_has_adr(units.drop_first(), a) {
            let k = choose|k: int|
                0 <= k < units.drop_first().len() && units.drop_first()[k].adr == a;
            assert(units[k + 1] == units.drop_first()[k]);
            assert(unit_has_adr(units, a));
        }
    }
}

/// With unique addresses, a unit at address `a` is the one `find_unit` names.
proof fn lemma_find_unit_unique(units: Seq<NewDevices>, m: int)
    requires
        unit_adrs_unique(units),
        0 <= m < units.len(),
    ensures
        find_unit(units, units[m].adr) == m,
{
    let a = units[m].adr;
    assert(unit_has_adr(units, a));
    lemma_find_unit(units, a);
    let r = find_unit(units, a);
    assert(units[r].adr == a);
    if r != m {
        assert((|u: NewDevices| u.adr as int)(units[r]) == (|u: NewDevices| u.adr as int)(
            units[m],
        ));
        assert(false);
    }
}

/// Ids of the persisted devices whose address answered nothing: delete.
pub open spec fn spec_deletes(db: Seq<Devices>, units: Seq<NewDevices>) -> Seq<i32> {
    db.filter(|d: Devices| !unit_has_adr(units, d.adr)).map_values(|d: Devices| d.id)
}

/// Id and new count of each matched device whose count changed: update.
pub open spec fn spec_updates(db: Seq<Devices>, units: Seq<NewDevices>) -> Seq<(i32, i32)> {
    db.filter(
        |d: Devices|
            unit_has_adr(units, d.adr) && unit_count_for(units, d.adr) != d.endpoint_count,
    ).map_values(|d: Devices| (d.id, unit_count_for(units, d.adr)))
}

/// Discovered units with no persisted row: insert.
pub open spec fn spec_inserts(db: Seq<Devices>, units: Seq<NewDevices>) -> Seq<NewDevices> {
    units.filter(|u: NewDevices| !has_adr(db, u.adr))
}

/// Whether a persisted device still answers on the bus.
pub open spec fn kept_pred(units: Seq<NewDevices>) -> spec_fn(Devices) -> bool {
    |d: Devices| unit_has_adr(units, d.adr)
}

/// A kept device with its endpoint count refreshed from discovery.
pub open spec fn refresh_fn(units: Seq<NewDevices>) -> spec_fn(Devices) -> Devices {
    |d: Devices|
        Devices { id: d.id, adr: d.adr, endpoint_count: unit_count_for(units, d.adr) }
}

/// The persisted devices that survive reconciliation, counts refreshed.
pub open spec fn spec_kept_devices(db: Seq<Devices>, units: Seq<NewDevices>) -> Seq<Devices> {
    db.filter(kept_pred(units)).map_values(refresh_fn(units))
}

/// The rows inserted for unmatched units, ids handed out from `next_id` up.
pub open spec fn spec_new_devices(db: Seq<Devices>, units: Seq<NewDevices>, next_id: int) -> Seq<
    Devices,
> {
    Seq::new(
        spec_inserts(db, units).len(),
        |k: int|
            Devices {
                id: (next_id + k) as i32,
                adr: spec_inserts(db, units)[k].adr,
                endpoint_count: spec_inserts(db, units)[k].endpoint_count,
            },
    )
}

/// The device table after reconciliation: kept rows, then inserted rows.
pub open spec fn spec_devices_after(
    db: Seq<Devices>,
    units: Seq<NewDevices>,
    next_id: int,
) -> Seq<Devices> {
    spec_kept_devices(db, units) + spec_new_devices(db, units, next_id)
}

/// The device table agrees with discovery: same address set, and every
/// row carries the endpoint count its unit reported.
pub open spec fn devices_match(devs: Seq<Devices>, units: Seq<NewDevices>) -> bool {
    &&& forall|a: i32| has_adr(devs, a) <==> unit_has_adr(units, a)
    &&& forall|k: int|
        0 <= k < devs.len() ==> (#[trigger] devs[k]).endpoint_count == unit_count_for(
            units,
            devs[k].adr,
        )
}

/// What the reconciler asks persistence to do with the device table.
pub struct ReconcilePlan {
    /// Device ids to delete, in persisted order; their points cascade.
    pub deletes: Vec<i32>,
    /// Device id and new endpoint count of each match that changed.
    pub updates: Vec<(i32, i32)>,
    /// Discovered units to insert as new rows.
    pub inserts: Vec<NewDevices>,
}

/// First discovered unit at address `a`, if any.
fn find_unit_index(units: &Vec<NewDevices>, a: i32) -> (r: Option<usize>)
    ensures
        match r {
            Some(k) => k == find_unit(units@, a) && k < units@.len() && units@[k as int].adr == a,
            None => !unit_has_adr(units@, a),
        },
{
    proof {
        lemma_find_unit(units@, a);
    }
    let mut k: usize = 0;
    while k < units.len()
        invariant
            k <= units@.len(),
            forall|t: int| 0 <= t < k ==> units@[t].adr != a,
        decreases units@.len() - k,
    {
        if units[k].adr == a {
            proof {
                assert(unit_has_adr(units@, a));
                lemma_find_first(units@, a, k as int);
            }
            return Some(k);
        }
        k += 1;
    }
    proof {
        if unit_has_adr(units@, a) {
            let m = choose|m: int| 0 <= m < units@.len() && units@[m].adr == a;
            assert(units@[m].adr != a);
        }
    }
    None
}

/// `find_unit` names the earliest match.
proof fn lemma_find_first(units: Seq<NewDevices>, a: i32, k: int)
    requires
        0 <= k < units.len(),
        units[k].adr == a,
        forall|t: int| 0 <= t < k ==> units[t].adr != a,
    ensures
        find_unit(units, a) == k,
    decreases units.len(),
{
    if k > 0 {
        assert forall|t: int| 0 <= t < k - 1 implies units.drop_first()[t].adr != a by {
            assert(units.drop_first()[t] == units[t + 1]);
        }
        assert(units.drop_first()[k - 1] == units[k]);
        lemma_find_first(units.drop_first(), a, k - 1);
    }
}

/// Whether some persisted device carries address `a`.
fn find_db_adr(db: &Vec<Devices>, a: i32) -> (r: bool)
    ensures
        r == has_adr(db@, a),
{
    let mut k: usize = 0;
    while k < db.len()
        invariant
            k <= db@.len(),
            forall|t: int| 0 <= t < k ==> db@[t].adr != a,
        decreases db@.len() - k,
    {
        if db[k].adr == a {
            assert(has_adr(db@, a));
            return true;
        }
        k += 1;
    }
    proof {
        if has_adr(db@, a) {
            let m = choose|m: int| 0 <= m < db@.len() && db@[m].adr == a;
            assert(db@[m].adr != a);
        }
    }
    false
}

/// Classify the persisted devices against the discovered units: which rows
/// to delete, which to update and to what count, and which units to insert.
/// Deletes are intended to be applied first.
pub fn classify(db: &Vec<Devices>, detected: &Vec<NewDevices>) -> (plan: ReconcilePlan)
    ensures
        plan.deletes@ == spec_deletes(db@, detected@),
        plan.updates@ == spec_updates(db@, detected@),
        plan.inserts@ == spec_inserts(db@, detected@),
{
    let del_pred = Ghost(|d: Devices| !unit_has_adr(detected@, d.adr));
    let upd_pred = Ghost(
        |d: Devices|
            unit_has_adr(detected@, d.adr) && unit_count_for(detected@, d.adr)
                != d.endpoint_count,
    );
    let ins_pred = Ghost(|u: NewDevices| !has_adr(db@, u.adr));

    let mut deletes: Vec<i32> = Vec::new();
    let mut updates: Vec<(i32, i32)> = Vec::new();
    let mut i: usize = 0;
    while i < db.len()
        invariant
            i <= db@.len(),
            del_pred@ == (|d: Devices| !unit_has_adr(detected@, d.adr)),
            upd_pred@ == (
            |d: Devices|
                unit_has_adr(detected@, d.adr) && unit_count_for(detected@, d.adr)
                    != d.endpoint_count
            ),
            deletes@ == db@.subrange(0, i as int).filter(del_pred@).map_values(
                |d: Devices| d.id,
            ),
            updates@ == db@.subrange(0, i as int).filter(upd_pred@).map_values(
                |d: Devices| (d.id, unit_count_for(detected@, d.adr)),
            ),
        decreases db@.len() - i,
    {
        let d = db[i];
        proof {
            assert(db@.subrange(0, i + 1 as int).drop_last() =~= db@.subrange(0, i as int));
            assert(db@.subrange(0, i as int).push(db@[i as int]) =~= db@.subrange(0, i + 1 as int));
            lemma_filter_push(db@.subrange(0, i as int), db@[i as int], del_pred@);
            lemma_filter_push(db@.subrange(0, i as int), db@[i as int], upd_pred@);
        }
        match find_unit_index(detected, d.adr) {
            Some(k) => {
                if detected[k].endpoint_count != d.endpoint_count {
                    updates.push((d.id, detected[k].endpoint_count));
                }
                proof {
                    assert(unit_count_for(detected@, d.adr) == detected@[k as int].endpoint_count);
                    assert(updates@ == db@.subrange(0, i + 1 as int).filter(upd_pred@).map_values(
                        |dd: Devices| (dd.id, unit_count_for(detected@, dd.adr)),
                    ));
                    assert(deletes@ == db@.subrange(0, i + 1 as int).filter(del_pred@).map_values(
                        |dd: Devices| dd.id,
                    ));
                }
            },
            None => {
                deletes.push(d.id);
                proof {
                    assert(deletes@ == db@.subrange(0, i + 1 as int).filter(del_pred@).map_values(
                        |dd: Devices| dd.id,
                    ));
                    assert(updates@ == db@.subrange(0, i + 1 as int).filter(upd_pred@).map_values(
                        |dd: Devices| (dd.id, unit_count_for(detected@, dd.adr)),
                    ));
                }
            },
        }
        i += 1;
    }

    let mut inserts: Vec<NewDevices> = Vec::new();
    let mut j: usize = 0;
    while j < detected.len()
        invariant
            j <= detected@.len(),
            ins_pred@ == (|u: NewDevices| !has_adr(db@, u.adr)),
            inserts@ == detected@.subrange(0, j as int).filter(ins_pred@),
        decreases detected@.len() - j,
    {
        proof {
            assert(detected@.subrange(0, j as int).push(detected@[j as int]) =~= detected@.subrange(
                0,
                j + 1 as int,
            ));
            lemma_filter_push(detected@.subrange(0, j as int), detected@[j as int], ins_pred@);
        }
        let u = detected[j];
        if !find_db_adr(db, u.adr) {
            inserts.push(u);
        }
        j += 1;
    }

    proof {
        assert(db@.subrange(0, db@.len() as int) =~= db@);
        assert(detected@.subrange(0, detected@.len() as int) =~= detected@);
    }
    ReconcilePlan { deletes, updates, inserts }
}

/// The device table as it stands after the plan is applied: every matched
/// row kept under its id and address with the discovered endpoint count,
/// every unmatched row gone, and one new row per unmatched unit, ids handed
/// out from `next_device_id` up.
pub fn apply_devices(db: &Vec<Devices>, detected: &Vec<NewDevices>, next_device_id: i32) -> (r:
    Vec<Devices>)
    requires
        0 <= next_device_id,
        next_device_id + detected@.len() <= i32::MAX,
    ensures
        r@ == spec_devices_after(db@, detected@, next_device_id as int),
{
    let mut out: Vec<Devices> = Vec::new();
    let mut i: usize = 0;
    while i < db.len()
        invariant
            i <= db@.len(),
            out@ == spec_kept_devices(db@.subrange(0, i as int), detected@),
        decreases db@.len() - i,
    {
        let d = db[i];
        proof {
            assert(db@.subrange(0, i as int).push(db@[i as int]) =~= db@.subrange(
                0,
                i + 1 as int,
            ));
            lemma_filter_push(db@.subrange(0, i as int), db@[i as int], kept_pred(detected@));
        }
        match find_unit_index(detected, d.adr) {
            Some(k) => {
                out.push(
                    Devices { id: d.id, adr: d.adr, endpoint_count: detected[k].endpoint_count },
                );
                proof {
                    assert(out@ =~= spec_kept_devices(db@.subrange(0, i + 1 as int), detected@));
                }
            },
            None => {
                proof {
                    assert(out@ =~= spec_kept_devices(db@.subrange(0, i + 1 as int), detected@));
                }
            },
        }
        i += 1;
    }
    proof {
        assert(db@.subrange(0, db@.len() as int) =~= db@);
    }

    let ghost ins = |u: NewDevices| !has_adr(db@, u.adr);
    let kept_len = out.len();
    let mut c: usize = 0;
    let mut j: usize = 0;
    while j < detected.len()
        invariant
            j <= detected@.len(),
            ins == (|u: NewDevices| !has_adr(db@, u.adr)),
            c == spec_inserts(db@, detected@.subrange(0, j as int)).len(),
            c <= j,
            kept_len == spec_kept_devices(db@, detected@).len(),
            0 <= next_device_id,
            next_device_id + detected@.len() <= i32::MAX,
            out@.len() == kept_len + c,
            out@.subrange(0, kept_len as int) == spec_kept_devices(db@, detected@),
            forall|t: int|
                0 <= t < c ==> out@[kept_len + t] == (Devices {
                    id: (next_device_id + t) as i32,
                    adr: spec_inserts(db@, detected@.subrange(0, j as int))[t].adr,
                    endpoint_count: spec_inserts(
                        db@,
                        detected@.subrange(0, j as int),
                    )[t].endpoint_count,
                }),
        decreases detected@.len() - j,
    {
        let u = detected[j];
        proof {
            assert(detected@.subrange(0, j as int).push(detected@[j as int]) =~= detected@.subrange(
                0,
                j + 1 as int,
            ));
            lemma_filter_push(detected@.subrange(0, j as int), detected@[j as int], ins);
        }
        if !find_db_adr(db, u.adr) {
            let id = next_device_id + (c as i32);
            out.push(Devices { id, adr: u.adr, endpoint_count: u.endpoint_count });
            c += 1;
        }
        proof {
            assert(out@.subrange(0, kept_len as int) =~= spec_kept_devices(db@, detected@));
        }
        j += 1;
    }
    proof {
        assert(detected@.subrange(0, detected@.len() as int) =~= detected@);
        assert(out@ =~= spec_devices_after(db@, detected@, next_device_id as int));
    }
    out
}

/// After reconciliation the device table matches discovery: its address set
/// equals the discovered address set, and every row carries the endpoint
/// count its unit reported.
pub proof fn lemma_devices_after_match(db: Seq<Devices>, units: Seq<NewDevices>, next_id: int)
    requires
        unit_adrs_unique(units),
    ensures
        devices_match(spec_devices_after(db, units, next_id), units),
{
    let kept = spec_kept_devices(db, units);
    let fresh = spec_new_devices(db, units, next_id);
    let after = spec_devices_after(db, units, next_id);
    let kp = kept_pred(units);
    let ip = |u: NewDevices| !has_adr(db, u.adr);
    lemma_filter_subset(db, kp);
    lemma_filter_subset(units, ip);

    // every discovered address appears in the table
    assert forall|a: i32| unit_has_adr(units, a) implies has_adr(after, a) by {
        if has_adr(db, a) {
            let m = choose|m: int| 0 <= m < db.len() && db[m].adr == a;
            assert(kp(db[m]));
            db.lemma_filter_contains(kp, m);
            let t = choose|t: int|
                0 <= t < db.filter(kp).len() && db.filter(kp)[t] == db[m];
            assert(after[t].adr == a);
            assert(has_adr(after, a));
        } else {
            let m = choose|m: int| 0 <= m < units.len() && units[m].adr == a;
            assert(ip(units[m]));
            units.lemma_filter_contains(ip, m);
            let t = choose|t: int|
                0 <= t < spec_inserts(db, units).len() && spec_inserts(db, units)[t] == units[m];
            assert(after[kept.len() + t] == fresh[t]);
            assert(after[kept.len() + t].adr == a);
            assert(has_adr(after, a));
        }
    }

    // every table address was discovered, with the discovered count
    assert forall|k: int|
        0 <= k < after.len() implies unit_has_adr(units, (#[trigger] after[k]).adr) && after[k].endpoint_count
        == unit_count_for(units, after[k].adr) by {
        if k < kept.len() {
            let e = db.filter(kp)[k];
            assert(after[k] == refresh_fn(units)(e));
            db.lemma_filter_pred(kp, k);
            assert(unit_has_adr(units, e.adr));
        } else {
            let t = k - kept.len();
            let e = spec_inserts(db, units)[t];
            assert(after[k] == fresh[t]);
            assert(units.contains(e));
            let m = choose|m: int| 0 <= m < units.len() && units[m] == e;
            assert(unit_has_adr(units, e.adr));
            lemma_find_unit_unique(units, m);
            assert(unit_count_for(units, e.adr) == e.endpoint_count);
        }
    }

    assert forall|a: i32| has_adr(after, a) implies unit_has_adr(units, a) by {
        let k = choose|k: int| 0 <= k < after.len() && after[k].adr == a;
        assert(unit_has_adr(units, after[k].adr));
    }
}

/// Reconciliation preserves the table invariants: addresses stay unique,
/// ids stay unique, and fresh ids start past every persisted id.
pub proof fn lemma_devices_after_unique(db: Seq<Devices>, units: Seq<NewDevices>, next_id: int)
    requires
        adrs_unique(db),
        unit_adrs_unique(units),
        ids_unique(db),
        forall|k: int| 0 <= k < db.len() ==> (#[trigger] db[k]).id < next_id,
        0 <= next_id,
        next_id + units.len() <= i32::MAX,
    ensures
        adrs_unique(spec_devices_after(db, units, next_id)),
        ids_unique(spec_devices_after(db, units, next_id)),
{
    let kept = spec_kept_devices(db, units);
    let fresh = spec_new_devices(db, units, next_id);
    let after = spec_devices_after(db, units, next_id);
    let kp = kept_pred(units);
    let ip = |u: NewDevices| !has_adr(db, u.adr);
    let fa = |d: Devices| d.adr as int;
    let fi = |d: Devices| d.id as int;
    let fu = |u: NewDevices| u.adr as int;
    lemma_filter_keys_distinct(db, kp, fa);
    lemma_filter_keys_distinct(db, kp, fi);
    lemma_filter_keys_distinct(units, ip, fu);
    lemma_filter_subset(db, kp);
    lemma_filter_subset(units, ip);
    units.lemma_filter_len(ip);

    assert forall|i: int, j: int|
        0 <= i < j < after.len() implies fa(after[i]) != fa(after[j]) && fi(after[i]) != fi(
        after[j],
    ) by {
        if j < kept.len() {
            assert(fa(db.filter(kp)[i]) != fa(db.filter(kp)[j]));
            assert(fi(db.filter(kp)[i]) != fi(db.filter(kp)[j]));
        } else if i >= kept.len() {
            let ti = i - kept.len();
            let tj = j - kept.len();
            assert(fu(spec_inserts(db, units)[ti]) != fu(spec_inserts(db, units)[tj]));
        } else {
            let e = db.filter(kp)[i];
            assert(after[i] == refresh_fn(units)(e));
            assert(db.contains(e));
            let m = choose|m: int| 0 <= m < db.len() && db[m] == e;
            assert(has_adr(db, e.adr));
            let t = j - kept.len();
            let x = spec_inserts(db, units)[t];
            db.lemma_filter_pred(kp, i);
            units.lemma_filter_pred(ip, t);
            assert(!has_adr(db, x.adr));
            assert(db[m].id < next_id);
        }
    }
    assert(adrs_unique(after));
    assert(ids_unique(after));
}

/// Points owned by one device.
pub open spec fn owner_pred(dev_id: i32) -> spec_fn(Points) -> bool {
    |p: Points| p.device_id == dev_id
}

/// The points one device owns, in stored order.
pub open spec fn pts_of(points: Seq<Points>, dev_id: i32) -> Seq<Points> {
    points.filter(owner_pred(dev_id))
}

/// The slots of a point sequence, in order.
pub open spec fn slots_seq(pts: Seq<Points>) -> Seq<Slot> {
    pts.map_values(|p: Points| slot_of(p))
}

/// Points at or below a position cutoff.
pub open spec fn below_pred(t: int) -> spec_fn(Points) -> bool {
    |p: Points| p.device_position <= t
}

/// Every device owns exactly as many points as its endpoint count.
pub open spec fn counts_match(devs: Seq<Devices>, points: Seq<Points>) -> bool {
    forall|k: int|
        0 <= k < devs.len() ==> pts_of(points, (#[trigger] devs[k]).id).len()
            == devs[k].endpoint_count
}

/// Every point is owned by a persisted device.
pub open spec fn points_owned(devs: Seq<Devices>, points: Seq<Points>) -> bool {
    forall|i: int| 0 <= i < points.len() ==> has_id(devs, (#[trigger] points[i]).device_id)
}

/// Within each device, wire positions never collide.
pub open spec fn device_positions_unique(points: Seq<Points>) -> bool {
    forall|a: i32|
        keys_distinct(#[trigger] pts_of(points, a), |p: Points| p.device_position as int)
}

/// Persisted state agrees with discovery: the device table matches the
/// discovered units, and every device's point count equals its endpoint
/// count. Reconciliation establishes this, and on a state that already has
/// it, changes nothing.
pub open spec fn already_reconciled(
    devs: Seq<Devices>,
    points: Seq<Points>,
    units: Seq<NewDevices>,
) -> bool {
    devices_match(devs, units) && counts_match(devs, points)
}

/// Largest `device_position` of a point sequence, or -1 when empty.
pub open spec fn max_position(pts: Seq<Points>) -> int
    decreases pts.len(),
{
    if pts.len() == 0 {
        -1
    } else {
        let m = max_position(pts.drop_last());
        if pts.last().device_position > m {
            pts.last().device_position as int
        } else {
            m
        }
    }
}

fn max_position_of(pts: &Vec<Points>) -> (r: i32)
    ensures
        r as int == max_position(pts@),
{
    let mut m: i32 = -1;
    let mut i: usize = 0;
    while i < pts.len()
        invariant
            i <= pts@.len(),
            m as int == max_position(pts@.subrange(0, i as int)),
        decreases pts@.len() - i,
    {
        proof {
            assert(pts@.subrange(0, i + 1 as int).drop_last() =~= pts@.subrange(0, i as int));
            assert(pts@.subrange(0, i + 1 as int).last() == pts@[i as int]);
        }
        if pts[i].device_position > m {
            m = pts[i].device_position;
        }
        i += 1;
    }
    proof {
        assert(pts@.subrange(0, pts@.len() as int) =~= pts@);
    }
    m
}

/// The point rows that fill a device up to its endpoint count: default
/// attributes, positions continuing upward from past `start`, ids from
/// `pid` up.
pub open spec fn spec_fill(dev_id: i32, start: int, pid: int, n: int) -> Seq<Points> {
    Seq::new(
        n as nat,
        |k: int|
            Points {
                id: (pid + k) as i32,
                device_id: dev_id,
                device_position: (start + 1 + k) as i32,
                val: 0,
                active: false,
                tag: None,
            },
    )
}

/// The `diff` missing points of one device: fresh default attributes
/// (`val` 0, inactive, no tag), `device_position` continuing upward from
/// `fill_start + 1` — positions are never reused or renumbered — and ids
/// handed out from `next_point_id` up.
pub fn fill_diff(devc_id: i32, fill_start: i32, diff: usize, next_point_id: i32) -> (r: Vec<
    Points,
>)
    requires
        fill_start + diff < i32::MAX,
        0 <= next_point_id,
        next_point_id + diff <= i32::MAX,
    ensures
        r@ == spec_fill(devc_id, fill_start as int, next_point_id as int, diff as int),
{
    let mut r: Vec<Points> = Vec::new();
    let mut k: usize = 0;
    while k < diff
        invariant
            k <= diff,
            fill_start + diff < i32::MAX,
            0 <= next_point_id,
            next_point_id + diff <= i32::MAX,
            r@.len() == k,
            forall|t: int|
                0 <= t < k ==> r@[t] == spec_fill(
                    devc_id,
                    fill_start as int,
                    next_point_id as int,
                    diff as int,
                )[t],
        decreases diff - k,
    {
        r.push(
            Points {
                id: next_point_id + (k as i32),
                device_id: devc_id,
                device_position: fill_start + 1 + (k as i32),
                val: 0,
                active: false,
                tag: None,
            },
        );
        k += 1;
    }
    proof {
        assert(r@ =~= spec_fill(devc_id, fill_start as int, next_point_id as int, diff as int));
    }
    r
}

fn collect_slots(pts: &Vec<Points>) -> (r: Vec<Slot>)
    ensures
        r@ == slots_seq(pts@),
{
    let mut r: Vec<Slot> = Vec::new();
    let mut i: usize = 0;
    while i < pts.len()
        invariant
            i <= pts@.len(),
            r@ == slots_seq(pts@.subrange(0, i as int)),
        decreases pts@.len() - i,
    {
        let p = &pts[i];
        r.push(
            Slot {
                id: p.id,
                device_id: p.device_id,
                device_position: p.device_position,
                val: p.val,
                active: p.active,
            },
        );
        proof {
            assert(r@ =~= slots_seq(pts@.subrange(0, i + 1 as int)));
        }
        i += 1;
    }
    proof {
        assert(pts@.subrange(0, pts@.len() as int) =~= pts@);
    }
    r
}

/// Ids of the `diff` points to delete when a device owns too many: the
/// points with the highest `device_position` values, highest first.
/// Rejected as a consistency fault when more deletions are requested than
/// points exist.
pub fn reduce_diff(point_list: &Vec<Points>, diff: usize) -> (r: Result<Vec<i32>, ApiError>)
    ensures
        r is Err <==> point_list@.len() < diff,
        r is Err ==> r == Result::<Vec<i32>, ApiError>::Err(ApiError::InternalErr),
        r matches Ok(ids) ==> {
            &&& ids@.len() == diff
            &&& forall|k: int|
                0 <= k < diff ==> ids@[k] == spec_sort(slots_seq(point_list@))[point_list@.len()
                    - 1 - k].id
        },
{
    if point_list.len() < diff {
        return Err(ApiError::InternalErr);
    }
    let slots = collect_slots(point_list);
    let sorted = crate::mapper::sort_slots(slots);
    proof {
        lemma_sort_len(slots_seq(point_list@));
    }
    let mut ids: Vec<i32> = Vec::new();
    let mut k: usize = 0;
    while k < diff
        invariant
            k <= diff <= point_list@.len(),
            sorted@ == spec_sort(slots_seq(point_list@)),
            sorted@.len() == point_list@.len(),
            ids@.len() == k,
            forall|t: int|
                0 <= t < k ==> ids@[t] == spec_sort(slots_seq(point_list@))[point_list@.len() - 1
                    - t].id,
        decreases diff - k,
    {
        ids.push(sorted[point_list.len() - 1 - k].id);
        k += 1;
    }
    Ok(ids)
}

/// How many points a device is short of its endpoint count.
pub open spec fn fill_need(points: Seq<Points>, d: Devices) -> int {
    let n = pts_of(points, d.id).len() as int;
    if n < d.endpoint_count {
        d.endpoint_count - n
    } else {
        0
    }
}

/// Fresh point ids handed out before device `k`'s turn.
pub open spec fn fill_base(devs: Seq<Devices>, points: Seq<Points>, k: int) -> int
    decreases k,
{
    if k <= 0 {
        0
    } else {
        fill_base(devs, points, k - 1) + fill_need(points, devs[k - 1])
    }
}

/// The rows that fill one device up to its count, or nothing when it has
/// enough.
pub open spec fn spec_fill_chunk(points: Seq<Points>, d: Devices, pid: int) -> Seq<Points> {
    spec_fill(d.id, max_position(pts_of(points, d.id)), pid, fill_need(points, d))
}

/// All fill rows of the first `k` devices, in device order.
pub open spec fn spec_fills(
    devs: Seq<Devices>,
    points: Seq<Points>,
    pid: int,
    k: int,
) -> Seq<Points>
    decreases k,
{
    if k <= 0 {
        Seq::<Points>::empty()
    } else {
        spec_fills(devs, points, pid, k - 1) + spec_fill_chunk(
            points,
            devs[k - 1],
            pid + fill_base(devs, points, k - 1),
        )
    }
}

/// One device's points after reconciliation: unchanged when the count
/// already agrees; extended past the current maximum position when short;
/// cut back to the lowest positions when over.
pub open spec fn spec_adjusted(points: Seq<Points>, d: Devices, pid: int) -> Seq<Points> {
    let pts = pts_of(points, d.id);
    let n = pts.len() as int;
    let c = d.endpoint_count as int;
    if n == c {
        pts
    } else if n < c {
        pts + spec_fill(d.id, max_position(pts), pid, c - n)
    } else if c == 0 {
        Seq::<Points>::empty()
    } else {
        pts.filter(below_pred(spec_sort(slots_seq(pts))[c - 1].device_position as int))
    }
}

/// What the point pass does with one device's existing points: keep them
/// all, drop them all, or keep those at or below a position cutoff.
#[derive(Clone, Copy, Debug, PartialEq, Eq, Structural)]
pub enum KeepRule {
    All,
    Nothing,
    Below(i32),
}

/// Whether a keep rule retains a point.
pub open spec fn rule_keeps(r: KeepRule, p: Points) -> bool {
    match r {
        KeepRule::All => true,
        KeepRule::Nothing => false,
        KeepRule::Below(t) => p.device_position <= t,
    }
}

/// The keep rule of one device: everything while it is at or under count,
/// nothing when its count fell to zero, else only the positions up to the
/// count-th smallest.
pub open spec fn spec_rule(points: Seq<Points>, d: Devices) -> KeepRule {
    let pts = pts_of(points, d.id);
    let n = pts.len() as int;
    let c = d.endpoint_count as int;
    if n <= c {
        KeepRule::All
    } else if c == 0 {
        KeepRule::Nothing
    } else {
        KeepRule::Below(spec_sort(slots_seq(pts))[c - 1].device_position)
    }
}

pub open spec fn rule_pred(points: Seq<Points>, d: Devices) -> spec_fn(Points) -> bool {
    |p: Points| rule_keeps(spec_rule(points, d), p)
}

/// Whether any surviving device's rule keeps the point; a point of no
/// surviving device is cascaded away.
pub open spec fn keep_pred(devs: Seq<Devices>, points: Seq<Points>) -> spec_fn(Points) -> bool {
    |p: Points|
        exists|k: int|
            0 <= k < devs.len() && (#[trigger] devs[k]).id == p.device_id && rule_keeps(
                spec_rule(points, devs[k]),
                p,
            )
}

proof fn lemma_max_position(pts: Seq<Points>)
    ensures
        -1 <= max_position(pts),
        forall|i: int| 0 <= i < pts.len() ==> (#[trigger] pts[i]).device_position <= max_position(
            pts,
        ),
        pts.len() == 0 ==> max_position(pts) == -1,
        max_position(pts) == -1 || exists|i: int|
            0 <= i < pts.len() && (#[trigger] pts[i]).device_position == max_position(pts),
    decreases pts.len(),
{
    if pts.len() != 0 {
        lemma_max_position(pts.drop_last());
        assert forall|i: int|
            0 <= i < pts.len() implies (#[trigger] pts[i]).device_position <= max_position(
            pts,
        ) by {
            if i < pts.len() - 1 {
                assert(pts.drop_last()[i] == pts[i]);
            }
        }
        if pts.last().device_position > max_position(pts.drop_last()) {
            assert(pts[pts.len() - 1].device_position == max_position(pts));
        } else if max_position(pts.drop_last()) != -1 {
            let j = choose|j: int|
                0 <= j < pts.drop_last().len() && (#[trigger] pts.drop_last()[j]).device_position
                    == max_position(pts.drop_last());
            assert(pts[j].device_position == max_position(pts));
        }
    }
}

/// The kept points of one device are its old points under its keep rule.
proof fn lemma_kept_projection(devs: Seq<Devices>, points: Seq<Points>, k: int)
    requires
        ids_unique(devs),
        0 <= k < devs.len(),
    ensures
        points.filter(keep_pred(devs, points)).filter(owner_pred(devs[k].id)) == pts_of(
            points,
            devs[k].id,
        ).filter(rule_pred(points, devs[k])),
{
    let gk = keep_pred(devs, points);
    let own = owner_pred(devs[k].id);
    let rp = rule_pred(points, devs[k]);
    lemma_filter_filter(points, gk, own);
    lemma_filter_filter(points, own, rp);
    assert forall|i: int|
        0 <= i < points.len() implies (and_pred(gk, own)(#[trigger] points[i]) <==> and_pred(
        own,
        rp,
    )(points[i])) by {
        let p = points[i];
        if own(p) {
            if gk(p) {
                let t = choose|t: int|
                    0 <= t < devs.len() && (#[trigger] devs[t]).id == p.device_id && rule_keeps(
                        spec_rule(points, devs[t]),
                        p,
                    );
                if t != k {
                    let fi = |d: Devices| d.id as int;
                    assert(fi(devs[t]) != fi(devs[k]));
                    assert(false);
                }
            }
            if rp(p) {
                assert(devs[k].id == p.device_id && rule_keeps(spec_rule(points, devs[k]), p));
            }
        }
    }
    lemma_filter_equiv(points, and_pred(gk, own), and_pred(own, rp));
}

/// Positions within one device transfer to its slots.
proof fn lemma_slots_positions(pts: Seq<Points>)
    requires
        keys_distinct(pts, |p: Points| p.device_position as int),
    ensures
        positions_unique(slots_seq(pts)),
{
    assert forall|i: int, j: int|
        0 <= i < j < slots_seq(pts).len() implies slots_seq(pts)[i].device_position != slots_seq(
        pts,
    )[j].device_position by {
        let f = |p: Points| p.device_position as int;
        assert(f(pts[i]) != f(pts[j]));
    }
}

/// The keep rule, applied to a device's own points and followed by its fill
/// chunk, yields exactly the adjusted point set; when the device is not
/// over count, the rule keeps everything.
proof fn lemma_rule_filter(points: Seq<Points>, d: Devices, pid: int)
    ensures
        pts_of(points, d.id).filter(rule_pred(points, d)) + spec_fill_chunk(points, d, pid)
            == spec_adjusted(points, d, pid),
        pts_of(points, d.id).len() <= d.endpoint_count ==> pts_of(points, d.id).filter(
            rule_pred(points, d),
        ) == pts_of(points, d.id),
{
    let pts = pts_of(points, d.id);
    let n = pts.len() as int;
    let c = d.endpoint_count as int;
    let rp = rule_pred(points, d);
    if n <= c {
        assert forall|i: int| 0 <= i < pts.len() implies rp(#[trigger] pts[i]) by {}
        lemma_filter_all(pts, rp);
        if n == c {
            assert(pts + spec_fill_chunk(points, d, pid) =~= pts);
        }
    } else if c == 0 {
        assert forall|i: int| 0 <= i < pts.len() implies !rp(#[trigger] pts[i]) by {}
        lemma_filter_none(pts, rp);
        assert(Seq::<Points>::empty() + spec_fill_chunk(points, d, pid) =~= Seq::<
            Points,
        >::empty());
    } else {
        let t = spec_sort(slots_seq(pts))[c - 1].device_position as int;
        assert forall|i: int|
            0 <= i < pts.len() implies (rp(#[trigger] pts[i]) <==> below_pred(t)(pts[i])) by {}
        lemma_filter_equiv(pts, rp, below_pred(t));
        assert(pts.filter(below_pred(t)) + spec_fill_chunk(points, d, pid) =~= pts.filter(
            below_pred(t),
        ));
    }
}

/// After adjustment, a device owns exactly its endpoint count of points.
proof fn lemma_adjusted_count(points: Seq<Points>, d: Devices, pid: int)
    requires
        keys_distinct(pts_of(points, d.id), |p: Points| p.device_position as int),
        0 <= d.endpoint_count,
    ensures
        spec_adjusted(points, d, pid).len() == d.endpoint_count,
{
    let pts = pts_of(points, d.id);
    let slots = slots_seq(pts);
    let n = pts.len() as int;
    let c = d.endpoint_count as int;
    if n < c {
        assert(spec_fill(d.id, max_position(pts), pid, c - n).len() == c - n);
    } else if n > c && c > 0 {
        lemma_slots_positions(pts);
        let sorted = spec_sort(slots);
        lemma_sort_len(slots);
        lemma_sort_sorted(slots);
        let t = sorted[c - 1].device_position as int;
        let sp = |s: Slot| s.device_position <= t;
        lemma_map_filter_len(pts, |p: Points| slot_of(p), below_pred(t), sp);
        lemma_sort_filter_len(slots, sp);
        assert forall|v: int| #[trigger] count_at_position(sorted, v) <= 1 by {
            lemma_sort_filter_len(slots, |q: Slot| q.device_position == v);
            lemma_unique_position_counts(slots, v);
        }
        lemma_counts_unique_positions(sorted);
        assert forall|j: int| 0 <= j < c implies sp(#[trigger] sorted[j]) by {
            assert(sorted[j].device_position <= sorted[c - 1].device_position);
        }
        assert forall|j: int| c <= j < sorted.len() implies !sp(#[trigger] sorted[j]) by {
            assert(sorted[c - 1].device_position <= sorted[j].device_position);
            assert(sorted[c - 1].device_position != sorted[j].device_position);
        }
        lemma_filter_prefix_len(sorted, sp, c);
    }
}

/// Adjustment keeps wire positions unique within the device.
proof fn lemma_adjusted_positions(points: Seq<Points>, d: Devices, pid: int)
    requires
        keys_distinct(pts_of(points, d.id), |p: Points| p.device_position as int),
        forall|i: int|
            0 <= i < points.len() ==> (#[trigger] points[i]).device_position < i32::MAX - 256,
        0 <= d.endpoint_count <= 255,
    ensures
        keys_distinct(spec_adjusted(points, d, pid), |p: Points| p.device_position as int),
{
    let pts = pts_of(points, d.id);
    let n = pts.len() as int;
    let c = d.endpoint_count as int;
    let f = |p: Points| p.device_position as int;
    lemma_filter_subset(points, owner_pred(d.id));
    lemma_max_position(pts);
    assert forall|i: int| 0 <= i < pts.len() implies f(#[trigger] pts[i]) < i32::MAX - 256 by {
        assert(points.contains(pts[i]));
        let m = choose|m: int| 0 <= m < points.len() && points[m] == pts[i];
        assert(points[m].device_position < i32::MAX - 256);
    }
    if n < c {
        let start = max_position(pts);
        let fill = spec_fill(d.id, start, pid, c - n);
        assert(start < i32::MAX - 256);
        let adj = spec_adjusted(points, d, pid);
        assert forall|i: int, j: int| 0 <= i < j < adj.len() implies f(adj[i]) != f(adj[j]) by {
            if j < n {
                assert(f(pts[i]) != f(pts[j]));
            } else if i >= n {
                assert(adj[i] == fill[i - n] && adj[j] == fill[j - n]);
                assert(f(fill[i - n]) == start + 1 + (i - n));
                assert(f(fill[j - n]) == start + 1 + (j - n));
            } else {
                assert(adj[i] == pts[i] && adj[j] == fill[j - n]);
                assert(f(pts[i]) <= start);
                assert(f(fill[j - n]) == start + 1 + (j - n));
            }
        }
    } else if n > c && c > 0 {
        lemma_sort_len(slots_seq(pts));
        let t = spec_sort(slots_seq(pts))[c - 1].device_position as int;
        lemma_filter_keys_distinct(pts, below_pred(t), f);
        assert(spec_adjusted(points, d, pid) == pts.filter(below_pred(t)));
    } else if n == c {
        assert(spec_adjusted(points, d, pid) == pts);
    } else {
        assert(spec_adjusted(points, d, pid) == Seq::<Points>::empty());
    }
}

/// Counts on the reconciled table come from discovery, so they carry the
/// hardware byte's bounds.
proof fn lemma_after_counts(devs: Seq<Devices>, units: Seq<NewDevices>)
    requires
        devices_match(devs, units),
        forall|k: int| 0 <= k < units.len() ==> 0 <= (#[trigger] units[k]).endpoint_count <= 255,
    ensures
        forall|k: int| 0 <= k < devs.len() ==> 0 <= (#[trigger] devs[k]).endpoint_count <= 255,
{
    assert forall|k: int|
        0 <= k < devs.len() implies 0 <= (#[trigger] devs[k]).endpoint_count <= 255 by {
        assert(has_adr(devs, devs[k].adr));
        assert(unit_has_adr(units, devs[k].adr));
        lemma_find_unit(units, devs[k].adr);
    }
}

/// On a table that already matches discovery, reconciliation leaves the
/// device rows exactly as they are.
proof fn lemma_noop_devices(db: Seq<Devices>, units: Seq<NewDevices>, next_id: int)
    requires
        devices_match(db, units),
    ensures
        spec_devices_after(db, units, next_id) == db,
{
    let kp = kept_pred(units);
    assert forall|i: int| 0 <= i < db.len() implies kp(#[trigger] db[i]) by {
        assert(has_adr(db, db[i].adr));
    }
    lemma_filter_all(db, kp);
    let ip = |u: NewDevices| !has_adr(db, u.adr);
    assert forall|i: int| 0 <= i < units.len() implies !ip(#[trigger] units[i]) by {
        assert(unit_has_adr(units, units[i].adr));
    }
    lemma_filter_none(units, ip);
    assert(spec_devices_after(db, units, next_id) =~= db);
}

/// Assembles the point-side guarantees of reconciliation out of the facts
/// the two passes establish.
proof fn lemma_reconcile_finish(
    db_devices: Seq<Devices>,
    db_points: Seq<Points>,
    detected: Seq<NewDevices>,
    devs: Seq<Devices>,
    kept: Seq<Points>,
    fills: Seq<Points>,
    result: Seq<Points>,
    next_device_id: int,
    next_point_id: int,
)
    requires
        devs == spec_devices_after(db_devices, detected, next_device_id),
        devices_match(devs, detected),
        ids_unique(devs),
        forall|t: int| 0 <= t < devs.len() ==> 0 <= (#[trigger] devs[t]).endpoint_count <= 255,
        device_positions_unique(db_points),
        points_owned(db_devices, db_points),
        forall|i: int|
            0 <= i < db_points.len() ==> (#[trigger] db_points[i]).device_position < i32::MAX
                - 256,
        kept == db_points.filter(keep_pred(devs, db_points)),
        forall|t: int|
            0 <= t < devs.len() ==> pts_of(fills, (#[trigger] devs[t]).id) == spec_fill_chunk(
                db_points,
                devs[t],
                next_point_id + fill_base(devs, db_points, t),
            ),
        forall|i: int|
            0 <= i < fills.len() ==> exists|t: int|
                0 <= t < devs.len() && (#[trigger] fills[i]).device_id == devs[t].id,
        result == kept + fills,
    ensures
        forall|k: int|
            0 <= k < devs.len() ==> pts_of(result, (#[trigger] devs[k]).id) == spec_adjusted(
                db_points,
                devs[k],
                next_point_id + fill_base(devs, db_points, k),
            ),
        counts_match(devs, result),
        device_positions_unique(result),
        points_owned(devs, result),
        already_reconciled(db_devices, db_points, detected) ==> devs == db_devices && result
            == db_points,
{
    broadcast use Seq::filter_distributes_over_add;

    let gk = keep_pred(devs, db_points);

    // each device's slice of the result is exactly its adjusted point set
    assert forall|k: int|
        0 <= k < devs.len() implies pts_of(result, (#[trigger] devs[k]).id) == spec_adjusted(
        db_points,
        devs[k],
        next_point_id + fill_base(devs, db_points, k),
    ) by {
        let id = devs[k].id;
        let base = next_point_id + fill_base(devs, db_points, k);
        assert(result.filter(owner_pred(id)) == kept.filter(owner_pred(id)) + fills.filter(
            owner_pred(id),
        ));
        lemma_kept_projection(devs, db_points, k);
        lemma_rule_filter(db_points, devs[k], base);
    }

    // and therefore exactly its endpoint count of points
    assert forall|k: int|
        0 <= k < devs.len() implies pts_of(result, (#[trigger] devs[k]).id).len() == devs[
        k
    ].endpoint_count by {
        assert(keys_distinct(pts_of(db_points, devs[k].id), |p: Points| p.device_position as int));
        lemma_adjusted_count(db_points, devs[k], next_point_id + fill_base(devs, db_points, k));
    }

    // positions stay unique within every device
    assert forall|a: i32|
        keys_distinct(
            #[trigger] pts_of(result, a),
            |p: Points| p.device_position as int,
        ) by {
        if has_id(devs, a) {
            let k = choose|k: int| 0 <= k < devs.len() && devs[k].id == a;
            assert(pts_of(result, a) == spec_adjusted(
                db_points,
                devs[k],
                next_point_id + fill_base(devs, db_points, k),
            ));
            assert(keys_distinct(
                pts_of(db_points, devs[k].id),
                |p: Points| p.device_position as int,
            ));
            lemma_adjusted_positions(
                db_points,
                devs[k],
                next_point_id + fill_base(devs, db_points, k),
            );
        } else {
            assert forall|i: int|
                0 <= i < kept.len() implies !owner_pred(a)(#[trigger] kept[i]) by {
                db_points.lemma_filter_pred(gk, i);
                let t = choose|t: int|
                    0 <= t < devs.len() && (#[trigger] devs[t]).id == kept[i].device_id
                        && rule_keeps(spec_rule(db_points, devs[t]), kept[i]);
                if kept[i].device_id == a {
                    assert(has_id(devs, a));
                }
            }
            lemma_filter_none(kept, owner_pred(a));
            assert forall|i: int|
                0 <= i < fills.len() implies !owner_pred(a)(#[trigger] fills[i]) by {
                let t = choose|t: int|
                    0 <= t < devs.len() && (#[trigger] fills[i]).device_id == devs[t].id;
                if fills[i].device_id == a {
                    assert(has_id(devs, a));
                }
            }
            lemma_filter_none(fills, owner_pred(a));
            assert(pts_of(result, a) =~= Seq::<Points>::empty());
        }
    }

    // every surviving point is owned by a surviving device
    assert forall|i: int|
        0 <= i < result.len() implies has_id(devs, (#[trigger] result[i]).device_id) by {
        if i < kept.len() {
            db_points.lemma_filter_pred(gk, i);
            assert(result[i] == kept[i]);
            let t = choose|t: int|
                0 <= t < devs.len() && (#[trigger] devs[t]).id == kept[i].device_id && rule_keeps(
                    spec_rule(db_points, devs[t]),
                    kept[i],
                );
            assert(has_id(devs, result[i].device_id));
        } else {
            assert(result[i] == fills[i - kept.len()]);
            let t = choose|t: int|
                0 <= t < devs.len() && (#[trigger] fills[i - kept.len()]).device_id == devs[t].id;
            assert(has_id(devs, result[i].device_id));
        }
    }

    // a state that already agrees with discovery is left untouched
    if already_reconciled(db_devices, db_points, detected) {
        lemma_noop_devices(db_devices, detected, next_device_id);
        assert(devs == db_devices);
        if fills.len() > 0 {
            let t = choose|t: int|
                0 <= t < devs.len() && (#[trigger] fills[0]).device_id == devs[t].id;
            fills.lemma_filter_contains(owner_pred(devs[t].id), 0);
            assert(pts_of(fills, devs[t].id).len() > 0);
            assert(pts_of(db_points, devs[t].id).len() == devs[t].endpoint_count);
            assert(fill_need(db_points, devs[t]) == 0);
            assert(spec_fill_chunk(
                db_points,
                devs[t],
                next_point_id + fill_base(devs, db_points, t),
            ).len() == 0);
            assert(false);
        }
        assert forall|i: int| 0 <= i < db_points.len() implies gk(#[trigger] db_points[i]) by {
            assert(has_id(db_devices, db_points[i].device_id));
            let t = choose|t: int|
                0 <= t < devs.len() && (#[trigger] devs[t]).id == db_points[i].device_id;
            assert(pts_of(db_points, devs[t].id).len() == devs[t].endpoint_count);
            assert(spec_rule(db_points, devs[t]) == KeepRule::All);
        }
        lemma_filter_all(db_points, gk);
        assert(result =~= db_points);
    }
}

/// Appending one device's fill chunk keeps every per-device fill slice
/// exact and every fill row owned by a processed device.
proof fn lemma_fills_step(
    devs: Seq<Devices>,
    db_points: Seq<Points>,
    old_fills: Seq<Points>,
    chunk: Seq<Points>,
    k: int,
    next_point_id: int,
)
    requires
        0 <= k < devs.len(),
        ids_unique(devs),
        chunk == spec_fill_chunk(db_points, devs[k], next_point_id + fill_base(devs, db_points, k)),
        forall|t: int|
            0 <= t < k ==> pts_of(old_fills, (#[trigger] devs[t]).id) == spec_fill_chunk(
                db_points,
                devs[t],
                next_point_id + fill_base(devs, db_points, t),
            ),
        forall|i: int|
            0 <= i < old_fills.len() ==> exists|t: int|
                0 <= t < k && (#[trigger] old_fills[i]).device_id == devs[t].id,
    ensures
        forall|t: int|
            0 <= t < k + 1 ==> pts_of(old_fills + chunk, (#[trigger] devs[t]).id)
                == spec_fill_chunk(
                db_points,
                devs[t],
                next_point_id + fill_base(devs, db_points, t),
            ),
        forall|i: int|
            0 <= i < (old_fills + chunk).len() ==> exists|t: int|
                0 <= t < k + 1 && (#[trigger] (old_fills + chunk)[i]).device_id == devs[t].id,
{
    broadcast use Seq::filter_distributes_over_add;

    let fi = |dd: Devices| dd.id as int;
    assert forall|i: int| 0 <= i < chunk.len() implies owner_pred(devs[k].id)(
        #[trigger] chunk[i],
    ) by {}
    assert forall|t: int|
        0 <= t < k + 1 implies pts_of(old_fills + chunk, (#[trigger] devs[t]).id)
        == spec_fill_chunk(
        db_points,
        devs[t],
        next_point_id + fill_base(devs, db_points, t),
    ) by {
        let id = devs[t].id;
        assert((old_fills + chunk).filter(owner_pred(id)) == old_fills.filter(owner_pred(id))
            + chunk.filter(owner_pred(id)));
        if t < k {
            assert(fi(devs[t]) != fi(devs[k]));
            assert forall|i: int|
                0 <= i < chunk.len() implies !owner_pred(id)(#[trigger] chunk[i]) by {}
            lemma_filter_none(chunk, owner_pred(id));
            assert(pts_of(old_fills + chunk, id) =~= pts_of(old_fills, id));
        } else {
            assert forall|i: int|
                0 <= i < old_fills.len() implies !owner_pred(id)(#[trigger] old_fills[i]) by {
                let w = choose|w: int|
                    0 <= w < k && (#[trigger] old_fills[i]).device_id == devs[w].id;
                assert(fi(devs[w]) != fi(devs[k]));
            }
            lemma_filter_none(old_fills, owner_pred(id));
            lemma_filter_all(chunk, owner_pred(id));
            assert(pts_of(old_fills + chunk, id) =~= chunk);
        }
    }
    assert forall|i: int|
        0 <= i < (old_fills + chunk).len() implies exists|t: int|
        0 <= t < k + 1 && (#[trigger] (old_fills + chunk)[i]).device_id == devs[t].id by {
        if i < old_fills.len() {
            let w = choose|w: int|
                0 <= w < k && (#[trigger] old_fills[i]).device_id == devs[w].id;
            assert((old_fills + chunk)[i].device_id == devs[w].id);
        } else {
            assert((old_fills + chunk)[i] == chunk[i - old_fills.len()]);
            assert((old_fills + chunk)[i].device_id == devs[k].id);
        }
    }
}

/// Every per-device slice of the accumulated fills is exactly that
/// device's chunk, and every fill row is owned by one of the devices.
proof fn lemma_fills_projection(
    devs: Seq<Devices>,
    points: Seq<Points>,
    pid: int,
    k: int,
    f: Seq<Points>,
)
    requires
        ids_unique(devs),
        0 <= k <= devs.len(),
        f == spec_fills(devs, points, pid, k),
    ensures
        forall|t: int|
            0 <= t < k ==> pts_of(f, (#[trigger] devs[t]).id) == spec_fill_chunk(
                points,
                devs[t],
                pid + fill_base(devs, points, t),
            ),
        forall|i: int|
            0 <= i < f.len() ==> exists|t: int|
                0 <= t < k && (#[trigger] f[i]).device_id == devs[t].id,
    decreases k,
{
    if k > 0 {
        let prev = spec_fills(devs, points, pid, k - 1);
        let chunk = spec_fill_chunk(points, devs[k - 1], pid + fill_base(devs, points, k - 1));
        lemma_fills_projection(devs, points, pid, k - 1, prev);
        lemma_fills_step(devs, points, prev, chunk, k - 1, pid);
        assert(f == prev + chunk);
        assert forall|i: int|
            0 <= i < f.len() implies exists|t: int|
            0 <= t < k && (#[trigger] f[i]).device_id == devs[t].id by {
            assert(f[i] == (prev + chunk)[i]);
        }
    }
}

/// Nothing persisted and nothing discovered leaves nothing to do: every
/// reconciliation guarantee holds of the empty result.
proof fn lemma_empty_noop(
    db_devices: Seq<Devices>,
    db_points: Seq<Points>,
    detected: Seq<NewDevices>,
    next_device_id: int,
    next_point_id: int,
)
    requires
        db_devices.len() == 0,
        detected.len() == 0,
        points_owned(db_devices, db_points),
    ensures
        db_points.len() == 0,
        Seq::<Devices>::empty() == spec_devices_after(db_devices, detected, next_device_id),
        Seq::<Points>::empty() == db_points.filter(
            keep_pred(Seq::<Devices>::empty(), db_points),
        ) + spec_fills(Seq::<Devices>::empty(), db_points, next_point_id, 0),
        already_reconciled(Seq::<Devices>::empty(), Seq::<Points>::empty(), detected),
        adrs_unique(Seq::<Devices>::empty()),
        ids_unique(Seq::<Devices>::empty()),
        device_positions_unique(Seq::<Points>::empty()),
        points_owned(Seq::<Devices>::empty(), Seq::<Points>::empty()),
        Seq::<Devices>::empty() == db_devices,
        Seq::<Points>::empty() == db_points,
{
    if db_points.len() > 0 {
        assert(has_id(db_devices, (db_points[0]).device_id));
        let m = choose|m: int|
            0 <= m < db_devices.len() && db_devices[m].id == db_points[0].device_id;
        assert(false);
    }
    db_devices.lemma_filter_len(kept_pred(detected));
    detected.lemma_filter_len(|u: NewDevices| !has_adr(db_devices, u.adr));
    assert(Seq::<Devices>::empty() =~= spec_devices_after(db_devices, detected, next_device_id));
    assert(Seq::<Devices>::empty() =~= db_devices);
    assert(Seq::<Points>::empty() =~= db_points);
    assert forall|a: i32|
        keys_distinct(
            #[trigger] pts_of(Seq::<Points>::empty(), a),
            |p: Points| p.device_position as int,
        ) by {
        Seq::<Points>::empty().lemma_filter_len(owner_pred(a));
    }
    db_points.lemma_filter_len(keep_pred(Seq::<Devices>::empty(), db_points));
    assert(Seq::<Points>::empty() =~= db_points.filter(
        keep_pred(Seq::<Devices>::empty(), db_points),
    ) + spec_fills(Seq::<Devices>::empty(), db_points, next_point_id, 0));
}

/// The keep decision the pass computes agrees with the keep predicate.
proof fn lemma_keep_eval(
    devs: Seq<Devices>,
    points: Seq<Points>,
    p: Points,
    t: int,
    keep: bool,
)
    requires
        ids_unique(devs),
        0 <= t < devs.len(),
        devs[t].id == p.device_id,
        keep == rule_keeps(spec_rule(points, devs[t]), p),
    ensures
        keep == keep_pred(devs, points)(p),
{
    if keep {
        assert(keep_pred(devs, points)(p));
    }
    if keep_pred(devs, points)(p) {
        let w = choose|w: int|
            0 <= w < devs.len() && (#[trigger] devs[w]).id == p.device_id && rule_keeps(
                spec_rule(points, devs[w]),
                p,
            );
        if w != t {
            let fi = |dd: Devices| dd.id as int;
            assert(fi(devs[w]) != fi(devs[t]));
            assert(false);
        }
        assert(keep);
    }
}

/// A point of no surviving device is never kept.
proof fn lemma_keep_orphan(devs: Seq<Devices>, points: Seq<Points>, p: Points)
    requires
        !has_id(devs, p.device_id),
    ensures
        !keep_pred(devs, points)(p),
{
    if keep_pred(devs, points)(p) {
        let t = choose|t: int|
            0 <= t < devs.len() && (#[trigger] devs[t]).id == p.device_id && rule_keeps(
                spec_rule(points, devs[t]),
                p,
            );
        assert(has_id(devs, p.device_id));
    }
}

fn collect_points_of(points: &Vec<Points>, dev_id: i32) -> (r: Vec<Points>)
    ensures
        r@ == pts_of(points@, dev_id),
{
    let mut r: Vec<Points> = Vec::new();
    let mut i: usize = 0;
    while i < points.len()
        invariant
            i <= points@.len(),
            r@ == pts_of(points@.subrange(0, i as int), dev_id),
        decreases points@.len() - i,
    {
        proof {
            assert(points@.subrange(0, i as int).push(points@[i as int]) =~= points@.subrange(
                0,
                i + 1 as int,
            ));
            lemma_filter_push(points@.subrange(0, i as int), points@[i as int], owner_pred(dev_id));
        }
        if points[i].device_id == dev_id {
            r.push(points[i].clone());
        }
        i += 1;
    }
    proof {
        assert(points@.subrange(0, points@.len() as int) =~= points@);
    }
    r
}

fn find_device_index(devs: &Vec<Devices>, id: i32) -> (r: Option<usize>)
    ensures
        match r {
            Some(k) => k < devs@.len() && devs@[k as int].id == id,
            None => !has_id(devs@, id),
        },
{
    let mut k: usize = 0;
    while k < devs.len()
        invariant
            k <= devs@.len(),
            forall|t: int| 0 <= t < k ==> devs@[t].id != id,
        decreases devs@.len() - k,
    {
        if devs[k].id == id {
            return Some(k);
        }
        k += 1;
    }
    proof {
        if has_id(devs@, id) {
            let m = choose|m: int| 0 <= m < devs@.len() && devs@[m].id == id;
            assert(devs@[m].id != id);
        }
    }
    None
}

/// One reconciliation pass over in-memory state: returns the device table
/// and the point table as they stand after the persisted state has been
/// brought into agreement with the discovered units.
///
/// The device table afterwards carries exactly the discovered addresses,
/// each with its reported endpoint count; every device then owns exactly
/// that many points, with wire positions still unique; and a state that
/// already agreed with discovery comes back exactly as it went in, so a
/// second run right after a first changes nothing. New device rows take
/// ids from `next_device_id` up, new point rows from `next_point_id` up.
#[verifier::rlimit(100)]
pub fn reconcile(
    db_devices: &Vec<Devices>,
    db_points: &Vec<Points>,
    detected: &Vec<NewDevices>,
    next_device_id: i32,
    next_point_id: i32,
) -> (r: (Vec<Devices>, Vec<Points>))
    requires
        adrs_unique(db_devices@),
        unit_adrs_unique(detected@),
        ids_unique(db_devices@),
        forall|k: int|
            0 <= k < db_devices@.len() ==> (#[trigger] db_devices@[k]).id < next_device_id,
        0 <= next_device_id,
        next_device_id + detected@.len() <= i32::MAX,
        device_positions_unique(db_points@),
        points_owned(db_devices@, db_points@),
        forall|k: int|
            0 <= k < detected@.len() ==> 0 <= (#[trigger] detected@[k]).endpoint_count <= 255,
        forall|i: int|
            0 <= i < db_points@.len() ==> (#[trigger] db_points@[i]).device_position < i32::MAX
                - 256,
        0 <= next_point_id,
        next_point_id + 255 * (db_devices@.len() + detected@.len()) <= i32::MAX,
    ensures
        r.0@ == spec_devices_after(db_devices@, detected@, next_device_id as int),
        r.1@ == db_points@.filter(keep_pred(r.0@, db_points@)) + spec_fills(
            r.0@,
            db_points@,
            next_point_id as int,
            r.0@.len() as int,
        ),
        already_reconciled(r.0@, r.1@, detected@),
        adrs_unique(r.0@),
        ids_unique(r.0@),
        device_positions_unique(r.1@),
        points_owned(r.0@, r.1@),
        forall|k: int|
            0 <= k < r.0@.len() ==> pts_of(r.1@, (#[trigger] r.0@[k]).id) == spec_adjusted(
                db_points@,
                r.0@[k],
                next_point_id + fill_base(r.0@, db_points@, k),
            ),
        already_reconciled(db_devices@, db_points@, detected@) ==> r.0@ == db_devices@ && r.1@
            == db_points@,
{
    // nothing persisted and nothing discovered: a no-op
    if db_devices.len() == 0 && detected.len() == 0 {
        proof {
            lemma_empty_noop(
                db_devices@,
                db_points@,
                detected@,
                next_device_id as int,
                next_point_id as int,
            );
        }
        return (Vec::new(), Vec::new());
    }

    let devs = apply_devices(db_devices, detected, next_device_id);
    proof {
        lemma_devices_after_match(db_devices@, detected@, next_device_id as int);
        lemma_devices_after_unique(db_devices@, detected@, next_device_id as int);
        lemma_after_counts(devs@, detected@);
        db_devices@.lemma_filter_len(kept_pred(detected@));
        detected@.lemma_filter_len(|u: NewDevices| !has_adr(db_devices@, u.adr));
        assert(devs@.len() <= db_devices@.len() + detected@.len());
    }

    // first pass: one keep rule and one fill chunk per device
    let mut rules: Vec<KeepRule> = Vec::new();
    let mut fills: Vec<Points> = Vec::new();
    let mut cur_pid: i32 = next_point_id;
    let mut k: usize = 0;
    while k < devs.len()
        invariant
            k <= devs@.len(),
            devs@ == spec_devices_after(db_devices@, detected@, next_device_id as int),
            devs@.len() <= db_devices@.len() + detected@.len(),
            ids_unique(devs@),
            forall|t: int|
                0 <= t < devs@.len() ==> 0 <= (#[trigger] devs@[t]).endpoint_count <= 255,
            device_positions_unique(db_points@),
            forall|i: int|
                0 <= i < db_points@.len() ==> (#[trigger] db_points@[i]).device_position
                    < i32::MAX - 256,
            0 <= next_point_id,
            next_point_id + 255 * (db_devices@.len() + detected@.len()) <= i32::MAX,
            rules@.len() == k,
            forall|t: int| 0 <= t < k ==> rules@[t] == spec_rule(db_points@, devs@[t]),
            cur_pid as int == next_point_id + fill_base(devs@, db_points@, k as int),
            next_point_id <= cur_pid,
            fill_base(devs@, db_points@, k as int) <= 255 * (k as int),
            fills@ == spec_fills(devs@, db_points@, next_point_id as int, k as int),
        decreases devs@.len() - k,
    {
        let d = devs[k];
        let pts = collect_points_of(db_points, d.id);
        let n = pts.len();
        let c = d.endpoint_count;
        let cu = c as usize;
        proof {
            assert(keys_distinct(pts_of(db_points@, d.id), |p: Points| p.device_position as int));
            assert(fill_base(devs@, db_points@, k + 1 as int) == fill_base(
                devs@,
                db_points@,
                k as int,
            ) + fill_need(db_points@, devs@[k as int]));
        }
        if n < cu {
            let start = max_position_of(&pts);
            let need = cu - n;
            proof {
                lemma_max_position(pts@);
                lemma_filter_subset(db_points@, owner_pred(d.id));
                if max_position(pts@) != -1 {
                    let w = choose|w: int|
                        0 <= w < pts@.len() && (#[trigger] pts@[w]).device_position
                            == max_position(pts@);
                    assert(db_points@.contains(pts@[w]));
                    let m = choose|m: int| 0 <= m < db_points@.len() && db_points@[m] == pts@[w];
                    assert(db_points@[m].device_position < i32::MAX - 256);
                }
                assert(fill_need(db_points@, devs@[k as int]) == need);
            }
            let mut chunk = fill_diff(d.id, start, need, cur_pid);
            let ghost old_fills = fills@;
            let ghost chunk_seq = chunk@;
            fills.append(&mut chunk);
            proof {
                assert(chunk_seq == spec_fill_chunk(
                    db_points@,
                    devs@[k as int],
                    next_point_id + fill_base(devs@, db_points@, k as int),
                ));
                assert(fills@ == spec_fills(devs@, db_points@, next_point_id as int, k + 1 as int));
            }
            cur_pid = cur_pid + (need as i32);
            rules.push(KeepRule::All);
            proof {
                assert(rules@[k as int] == spec_rule(db_points@, devs@[k as int]));
            }
        } else {
            proof {
                assert(fill_need(db_points@, devs@[k as int]) == 0);
                let base = next_point_id + fill_base(devs@, db_points@, k as int);
                let sf = spec_fill_chunk(db_points@, devs@[k as int], base);
                assert(sf.len() == 0);
                assert(spec_fills(devs@, db_points@, next_point_id as int, k + 1 as int)
                    =~= fills@);
            }
            if n == cu {
                rules.push(KeepRule::All);
            } else if cu == 0 {
                rules.push(KeepRule::Nothing);
            } else {
                let slots = collect_slots(&pts);
                let sorted = crate::mapper::sort_slots(slots);
                proof {
                    lemma_sort_len(slots_seq(pts@));
                }
                let cut = sorted[cu - 1].device_position;
                rules.push(KeepRule::Below(cut));
            }
            proof {
                assert(rules@[k as int] == spec_rule(db_points@, devs@[k as int]));
            }
        }
        k += 1;
    }

    // second pass: keep each point its device's rule retains
    let mut kept: Vec<Points> = Vec::new();
    let mut i: usize = 0;
    while i < db_points.len()
        invariant
            i <= db_points@.len(),
            rules@.len() == devs@.len(),
            forall|t: int| 0 <= t < devs@.len() ==> rules@[t] == spec_rule(db_points@, devs@[t]),
            ids_unique(devs@),
            kept@ == db_points@.subrange(0, i as int).filter(keep_pred(devs@, db_points@)),
        decreases db_points@.len() - i,
    {
        proof {
            assert(db_points@.subrange(0, i as int).push(db_points@[i as int])
                =~= db_points@.subrange(0, i + 1 as int));
            lemma_filter_push(
                db_points@.subrange(0, i as int),
                db_points@[i as int],
                keep_pred(devs@, db_points@),
            );
        }
        let ghost p = db_points@[i as int];
        let mut keep = false;
        match find_device_index(&devs, db_points[i].device_id) {
            None => {
                proof {
                    lemma_keep_orphan(devs@, db_points@, p);
                }
            },
            Some(t) => {
                match rules[t] {
                    KeepRule::All => {
                        keep = true;
                    },
                    KeepRule::Nothing => {
                        keep = false;
                    },
                    KeepRule::Below(cut) => {
                        keep = db_points[i].device_position <= cut;
                    },
                }
                proof {
                    lemma_keep_eval(devs@, db_points@, p, t as int, keep);
                }
            },
        }
        if keep {
            kept.push(db_points[i].clone());
        }
        i += 1;
    }
    proof {
        assert(db_points@.subrange(0, db_points@.len() as int) =~= db_points@);
    }

    let ghost kept_seq = kept@;
    let ghost fills_seq = fills@;
    let mut result_points = kept;
    result_points.append(&mut fills);
    proof {
        assert(result_points@ == kept_seq + fills_seq);
        lemma_fills_projection(
            devs@,
            db_points@,
            next_point_id as int,
            devs@.len() as int,
            fills_seq,
        );
        lemma_reconcile_finish(
            db_devices@,
            db_points@,
            detected@,
            devs@,
            kept_seq,
            fills_seq,
            result_points@,
            next_device_id as int,
            next_point_id as int,
        );
    }
    (devs, result_points)
}

} // verus!
