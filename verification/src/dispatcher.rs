//! Dispatcher: one background hardware sync per tick.
//!
//! A tick that finds the dirty signal set loads the point and device
//! records, maps the points to per-device level arrays with suppression in
//! force, and writes each device that has a mapped entry. A device present
//! in storage but absent from the mapped output is skipped — a no-op, not
//! an error — and a write failure on one device never blocks the writes to
//! the remaining devices of the same tick.

use vstd::prelude::*;

use crate::i2c::LightDevices;
use crate::mapper::device_ids;
use crate::models::Points;
use crate::seq_facts::lemma_filter_push;

verus! {

/// Devices whose id has a mapped level array this tick.
pub open spec fn mapped_pred(points: Seq<Points>) -> spec_fn((i32, i32)) -> bool {
    |dv: (i32, i32)| device_ids(points).contains(dv.0)
}

fn clone_vals(v: &Vec<i32>) -> (r: Vec<i32>)
    ensures
        r@ == v@,
{
    let mut r: Vec<i32> = Vec::new();
    let mut i: usize = 0;
    while i < v.len()
        invariant
            i <= v@.len(),
            r@ == v@.subrange(0, i as int),
        decreases v@.len() - i,
    {
        r.push(v[i]);
        proof {
            assert(r@ =~= v@.subrange(0, i + 1 as int));
        }
        i += 1;
    }
    proof {
        assert(v@.subrange(0, v@.len() as int) =~= v@);
    }
    r
}

fn find_mapped(converted: &Vec<(i32, Vec<i32>)>, id: i32) -> (r: Option<usize>)
    ensures
        match r {
            Some(k) => k < converted@.len() && converted@[k as int].0 == id,
            None => forall|t: int|
                0 <= t < converted@.len() ==> (#[trigger] converted@[t]).0 != id,
        },
{
    let mut k: usize = 0;
    while k < converted.len()
        invariant
            k <= converted@.len(),
            forall|t: int| 0 <= t < k ==> (#[trigger] converted@[t]).0 != id,
        decreases converted@.len() - k,
    {
        if converted[k].0 == id {
            return Some(k);
        }
        k += 1;
    }
    None
}

/// One tick's hardware sync: map the points with suppression in force and
/// write every stored device that has a mapped entry, skipping the rest.
/// Returns the ids of the devices a write was attempted for — exactly the
/// stored devices, in stored order, whose id appears among the points'
/// device ids — whether or not the bus accepted each write.
pub fn dispatch(
    controller: &mut LightDevices,
    db_devices: &Vec<(i32, i32)>,
    point_list: Vec<Points>,
) -> (attempted: Vec<i32>)
    requires
        forall|k: int|
            0 <= k < db_devices@.len() ==> 0 <= (#[trigger] db_devices@[k]).1 <= u16::MAX,
    ensures
        attempted@ == db_devices@.filter(mapped_pred(point_list@)).map_values(
            |dv: (i32, i32)| dv.0,
        ),
{
    let ghost pts = point_list@;
    let converted = LightDevices::convert_points(point_list, false);
    let mut attempted: Vec<i32> = Vec::new();
    let mut i: usize = 0;
    while i < db_devices.len()
        invariant
            i <= db_devices@.len(),
            forall|k: int|
                0 <= k < db_devices@.len() ==> 0 <= (#[trigger] db_devices@[k]).1 <= u16::MAX,
            converted@.map_values(|e: (i32, Vec<i32>)| e.0) == device_ids(pts),
            attempted@ == db_devices@.subrange(0, i as int).filter(mapped_pred(pts)).map_values(
                |dv: (i32, i32)| dv.0,
            ),
        decreases db_devices@.len() - i,
    {
        proof {
            assert(db_devices@.subrange(0, i as int).push(db_devices@[i as int])
                =~= db_devices@.subrange(0, i + 1 as int));
            lemma_filter_push(
                db_devices@.subrange(0, i as int),
                db_devices@[i as int],
                mapped_pred(pts),
            );
        }
        let (dev_id, dev_adr) = db_devices[i];
        match find_mapped(&converted, dev_id) {
            Some(idx) => {
                proof {
                    assert(device_ids(pts)[idx as int] == converted@.map_values(
                        |e: (i32, Vec<i32>)| e.0,
                    )[idx as int]);
                    assert(device_ids(pts).contains(dev_id));
                    assert(mapped_pred(pts)(db_devices@[i as int]));
                }
                let vals = clone_vals(&converted[idx].1);
                // a rejected or failed write is logged by the caller and
                // must not block the remaining devices of this tick
                let _ = controller.set_light_levels(dev_adr as u16, vals);
                attempted.push(dev_id);
                proof {
                    assert(attempted@ =~= db_devices@.subrange(0, i + 1 as int).filter(
                        mapped_pred(pts),
                    ).map_values(|dv: (i32, i32)| dv.0));
                }
            },
            None => {
                proof {
                    if device_ids(pts).contains(dev_id) {
                        let t = choose|t: int|
                            0 <= t < device_ids(pts).len() && device_ids(pts)[t] == dev_id;
                        assert(converted@.map_values(|e: (i32, Vec<i32>)| e.0)[t] == dev_id);
                        assert((converted@[t]).0 == dev_id);
                        assert(false);
                    }
                    assert(!mapped_pred(pts)(db_devices@[i as int]));
                }
            },
        }
        i += 1;
    }
    proof {
        assert(db_devices@.subrange(0, db_devices@.len() as int) =~= db_devices@);
    }
    attempted
}

} // verus!
