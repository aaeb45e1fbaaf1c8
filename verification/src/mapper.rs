//! Point-to-device mapper: from a flat collection of point records to one
//! ordered level array per device.
//!
//! Points are grouped by `device_id`; within each group they are ordered by
//! ascending `device_position`, which is exactly the wire order the
//! controller protocol expects. A point whose `active` flag is off
//! contributes level 0 unless the caller overrides the suppression. The
//! mapper is a pure function: no side effects, and the same input always
//! yields the same output.

use vstd::prelude::*;

use crate::models::Points;

verus! {

/// The fields of a point that the mapper and the wire path read. `Copy`,
/// so grouping and sorting move no heap data.
#[derive(Clone, Copy, Debug, PartialEq, Eq, Structural)]
pub struct Slot {
    pub id: i32,
    pub device_id: i32,
    pub device_position: i32,
    pub val: i32,
    pub active: bool,
}

/// The slot a point record projects to.
pub open spec fn slot_of(p: Points) -> Slot {
    Slot {
        id: p.id,
        device_id: p.device_id,
        device_position: p.device_position,
        val: p.val,
        active: p.active,
    }
}

/// The level one slot contributes to the wire array: its raw value when the
/// point is active or the caller overrides suppression, else 0.
pub open spec fn mapped_val(s: Slot, override_active: bool) -> i32 {
    if override_active || s.active {
        s.val
    } else {
        0
    }
}

/// Slots of the points one device owns, in input order.
pub open spec fn group_of(points: Seq<Points>, dev: i32) -> Seq<Slot> {
    points.filter(|p: Points| p.device_id == dev).map_values(|p: Points| slot_of(p))
}

/// Distinct device ids of a point collection, in first-occurrence order.
pub open spec fn device_ids(points: Seq<Points>) -> Seq<i32>
    decreases points.len(),
{
    if points.len() == 0 {
        Seq::empty()
    } else {
        let rest = device_ids(points.drop_last());
        if rest.contains(points.last().device_id) {
            rest
        } else {
            rest.push(points.last().device_id)
        }
    }
}

/// Ascending by `device_position`.
pub open spec fn sorted_by_position(s: Seq<Slot>) -> bool {
    forall|i: int, j: int|
        0 <= i < j < s.len() ==> s[i].device_position <= s[j].device_position
}

/// No two slots share a `device_position`.
pub open spec fn positions_unique(s: Seq<Slot>) -> bool {
    forall|i: int, j: int|
        0 <= i < j < s.len() ==> s[i].device_position != s[j].device_position
}

/// Insertion into a sorted sequence: after every slot whose position is not
/// greater, so insertion is stable.
pub open spec fn spec_insert(s: Seq<Slot>, x: Slot) -> Seq<Slot>
    decreases s.len(),
{
    if s.len() == 0 {
        seq![x]
    } else if x.device_position < s[0].device_position {
        seq![x] + s
    } else {
        seq![s[0]] + spec_insert(s.drop_first(), x)
    }
}

/// Stable insertion sort by `device_position`.
pub open spec fn spec_sort(s: Seq<Slot>) -> Seq<Slot>
    decreases s.len(),
{
    if s.len() == 0 {
        s
    } else {
        spec_insert(spec_sort(s.drop_last()), s.last())
    }
}

/// The wire array of one device: its slots in position order, each mapped
/// through the suppression rule.
pub open spec fn spec_levels(points: Seq<Points>, dev: i32, override_active: bool) -> Seq<i32> {
    spec_sort(group_of(points, dev)).map_values(|s: Slot| mapped_val(s, override_active))
}

/// How many slots of `s` sit strictly below `x` in wire order.
pub open spec fn rank_of(s: Seq<Slot>, x: Slot) -> int {
    s.filter(|q: Slot| q.device_position < x.device_position).len() as int
}

pub(crate) proof fn lemma_insert_len(s: Seq<Slot>, x: Slot)
    ensures
        spec_insert(s, x).len() == s.len() + 1,
    decreases s.len(),
{
    if s.len() != 0 && !(x.device_position < s[0].device_position) {
        lemma_insert_len(s.drop_first(), x);
    }
}

/// Every element of an insertion is the inserted slot or one of the old.
pub(crate) proof fn lemma_insert_membership(s: Seq<Slot>, x: Slot)
    ensures
        forall|k: int|
            0 <= k < spec_insert(s, x).len() ==> spec_insert(s, x)[k] == x || s.contains(
                #[trigger] spec_insert(s, x)[k],
            ),
    decreases s.len(),
{
    if s.len() != 0 && !(x.device_position < s[0].device_position) {
        lemma_insert_membership(s.drop_first(), x);
        assert forall|k: int|
            0 <= k < spec_insert(s, x).len() implies spec_insert(s, x)[k] == x || s.contains(
            #[trigger] spec_insert(s, x)[k],
        ) by {
            if k == 0 {
                assert(s.contains(s[0]));
            } else {
                let rest = spec_insert(s.drop_first(), x);
                assert(spec_insert(s, x)[k] == rest[k - 1]);
                if rest[k - 1] != x {
                    let j = choose|j: int|
                        0 <= j < s.drop_first().len() && s.drop_first()[j] == rest[k - 1];
                    assert(s[j + 1] == rest[k - 1]);
                }
            }
        }
    }
}

/// Filtering a singleton keeps or drops its one element.
pub(crate) proof fn lemma_filter_singleton(x: Slot, pred: spec_fn(Slot) -> bool)
    ensures
        seq![x].filter(pred) == if pred(x) {
            seq![x]
        } else {
            Seq::<Slot>::empty()
        },
{
    reveal(Seq::filter);
    assert(seq![x].drop_last() =~= Seq::<Slot>::empty());
    assert(Seq::<Slot>::empty().filter(pred) =~= Seq::<Slot>::empty());
    if pred(x) {
        assert(seq![x].filter(pred) =~= seq![x]);
    }
}

/// Insertion adds the new slot, and nothing else, to any filtered count.
pub(crate) proof fn lemma_insert_filter_len(s: Seq<Slot>, x: Slot, pred: spec_fn(Slot) -> bool)
    ensures
        spec_insert(s, x).filter(pred).len() == s.filter(pred).len() + if pred(x) {
            1int
        } else {
            0int
        },
    decreases s.len(),
{
    broadcast use Seq::filter_distributes_over_add;

    lemma_filter_singleton(x, pred);
    if s.len() == 0 {
        assert(spec_insert(s, x) =~= seq![x] + s);
        assert(s.filter(pred).len() == 0) by {
            reveal(Seq::filter);
        }
    } else if x.device_position < s[0].device_position {
    } else {
        lemma_insert_filter_len(s.drop_first(), x, pred);
        lemma_filter_singleton(s[0], pred);
        assert(s =~= seq![s[0]] + s.drop_first());
    }
}

/// Sorting never changes a filtered count.
pub(crate) proof fn lemma_sort_filter_len(s: Seq<Slot>, pred: spec_fn(Slot) -> bool)
    ensures
        spec_sort(s).filter(pred).len() == s.filter(pred).len(),
    decreases s.len(),
{
    if s.len() != 0 {
        lemma_sort_filter_len(s.drop_last(), pred);
        lemma_insert_filter_len(spec_sort(s.drop_last()), s.last(), pred);
        assert(s.filter(pred) == if pred(s.last()) {
            s.drop_last().filter(pred).push(s.last())
        } else {
            s.drop_last().filter(pred)
        }) by {
            reveal(Seq::filter);
        }
    }
}

pub(crate) proof fn lemma_sort_len(s: Seq<Slot>)
    ensures
        spec_sort(s).len() == s.len(),
    decreases s.len(),
{
    if s.len() != 0 {
        lemma_sort_len(s.drop_last());
        lemma_insert_len(spec_sort(s.drop_last()), s.last());
    }
}

/// A sequence contains a slot exactly when filtering for it is non-empty.
pub(crate) proof fn lemma_contains_filter(s: Seq<Slot>, x: Slot)
    ensures
        s.contains(x) <==> s.filter(|q: Slot| q == x).len() > 0,
    decreases s.len(),
{
    reveal(Seq::filter);
    if s.len() != 0 {
        lemma_contains_filter(s.drop_last(), x);
        if s.contains(x) && s.last() != x {
            let j = choose|j: int| 0 <= j < s.len() && s[j] == x;
            assert(s.drop_last()[j] == x);
            assert(s.drop_last().contains(x));
        }
        if s.drop_last().contains(x) {
            let j = choose|j: int| 0 <= j < s.drop_last().len() && s.drop_last()[j] == x;
            assert(s[j] == x);
        }
    }
}

/// When a predicate holds on exactly the first `k` elements, the filtered
/// length is `k`.
pub(crate) proof fn lemma_filter_prefix_len(s: Seq<Slot>, pred: spec_fn(Slot) -> bool, k: int)
    requires
        0 <= k <= s.len(),
        forall|j: int| 0 <= j < k ==> pred(#[trigger] s[j]),
        forall|j: int| k <= j < s.len() ==> !pred(#[trigger] s[j]),
    ensures
        s.filter(pred).len() == k,
    decreases s.len(),
{
    reveal(Seq::filter);
    if s.len() != 0 {
        if k == s.len() {
            lemma_filter_prefix_len(s.drop_last(), pred, k - 1);
        } else {
            lemma_filter_prefix_len(s.drop_last(), pred, k);
        }
    }
}

/// Two positions satisfying a predicate force a filtered length of at
/// least two.
pub(crate) proof fn lemma_filter_two(s: Seq<Slot>, pred: spec_fn(Slot) -> bool, i: int, j: int)
    requires
        0 <= i < j < s.len(),
        pred(s[i]),
        pred(s[j]),
    ensures
        s.filter(pred).len() >= 2,
    decreases s.len(),
{
    reveal(Seq::filter);
    if j == s.len() - 1 {
        assert(s.drop_last()[i] == s[i]);
        assert(s.drop_last().filter(pred).contains(s.drop_last()[i])) by {
            s.drop_last().lemma_filter_contains(pred, i);
        }
    } else {
        lemma_filter_two(s.drop_last(), pred, i, j);
    }
}

/// How many slots of `s` sit at position `v`.
pub open spec fn count_at_position(s: Seq<Slot>, v: int) -> nat {
    s.filter(|q: Slot| q.device_position == v).len()
}

/// Unique positions bound every per-position count by one.
pub(crate) proof fn lemma_unique_position_counts(s: Seq<Slot>, v: int)
    requires
        positions_unique(s),
    ensures
        count_at_position(s, v) <= 1,
    decreases s.len(),
{
    reveal(Seq::filter);
    if s.len() != 0 {
        assert(positions_unique(s.drop_last()));
        lemma_unique_position_counts(s.drop_last(), v);
        if s.last().device_position == v {
            lemma_filter_prefix_len(s.drop_last(), |q: Slot| q.device_position == v, 0);
        }
    }
}

/// Per-position counts of at most one force unique positions.
pub(crate) proof fn lemma_counts_unique_positions(s: Seq<Slot>)
    requires
        forall|v: int| #[trigger] count_at_position(s, v) <= 1,
    ensures
        positions_unique(s),
{
    assert forall|i: int, j: int|
        0 <= i < j < s.len() implies s[i].device_position != s[j].device_position by {
        if s[i].device_position == s[j].device_position {
            let v = s[i].device_position as int;
            lemma_filter_two(s, |q: Slot| q.device_position == v, i, j);
            assert(count_at_position(s, v) >= 2);
        }
    }
}

pub(crate) proof fn lemma_insert_sorted(s: Seq<Slot>, x: Slot)
    requires
        sorted_by_position(s),
    ensures
        sorted_by_position(spec_insert(s, x)),
    decreases s.len(),
{
    if s.len() == 0 {
    } else if x.device_position < s[0].device_position {
    } else {
        assert(sorted_by_position(s.drop_first()));
        lemma_insert_sorted(s.drop_first(), x);
        lemma_insert_membership(s.drop_first(), x);
        let r = spec_insert(s, x);
        let rest = spec_insert(s.drop_first(), x);
        assert forall|i: int, j: int|
            0 <= i < j < r.len() implies r[i].device_position <= r[j].device_position by {
            if i == 0 {
                assert(r[j] == rest[j - 1]);
                if rest[j - 1] != x {
                    let m = choose|m: int|
                        0 <= m < s.drop_first().len() && s.drop_first()[m] == rest[j - 1];
                    assert(s[m + 1] == rest[j - 1]);
                }
            } else {
                assert(r[i] == rest[i - 1] && r[j] == rest[j - 1]);
            }
        }
    }
}

/// Suppression law: a slot whose point is inactive contributes 0 unless
/// suppression is overridden, and under override every slot contributes its
/// raw value — whatever that value is.
pub proof fn lemma_mapper_suppression(s: Slot)
    ensures
        !s.active ==> mapped_val(s, false) == 0,
        mapped_val(s, true) == s.val,
        s.active ==> mapped_val(s, false) == s.val,
{
}

/// Ordering law: when the positions within a device's group are unique,
/// index `i` of that device's wire array carries exactly the slot whose
/// `device_position` is the `i`-th smallest of the group.
pub proof fn lemma_mapper_ordering(points: Seq<Points>, dev: i32, override_active: bool, i: int)
    requires
        positions_unique(group_of(points, dev)),
        0 <= i < spec_levels(points, dev, override_active).len(),
    ensures
        exists|x: Slot|
            {
                &&& #[trigger] group_of(points, dev).contains(x)
                &&& rank_of(group_of(points, dev), x) == i
                &&& spec_levels(points, dev, override_active)[i] == mapped_val(x, override_active)
            },
{
    let g = group_of(points, dev);
    let srt = spec_sort(g);
    lemma_sort_len(g);
    lemma_sort_sorted(g);
    let x = srt[i];

    // the witness sits in the unsorted group as well
    assert(srt.contains(x));
    lemma_contains_filter(srt, x);
    lemma_sort_filter_len(g, |q: Slot| q == x);
    lemma_contains_filter(g, x);

    // unique positions carry over to the sorted group
    assert forall|v: int| #[trigger] count_at_position(srt, v) <= 1 by {
        lemma_sort_filter_len(g, |q: Slot| q.device_position == v);
        lemma_unique_position_counts(g, v);
    }
    lemma_counts_unique_positions(srt);

    // in the sorted group, exactly the first i slots sit below x
    let below = |q: Slot| q.device_position < x.device_position;
    assert forall|j: int| 0 <= j < i implies below(#[trigger] srt[j]) by {
        assert(srt[j].device_position <= x.device_position);
    }
    assert forall|j: int| i <= j < srt.len() implies !below(#[trigger] srt[j]) by {
        if j > i {
            assert(srt[i].device_position <= srt[j].device_position);
        }
    }
    lemma_filter_prefix_len(srt, below, i);

    // and the sort did not change that count
    lemma_sort_filter_len(g, below);
    assert(rank_of(g, x) == i);
}

pub(crate) proof fn lemma_sort_sorted(s: Seq<Slot>)
    ensures
        sorted_by_position(spec_sort(s)),
    decreases s.len(),
{
    if s.len() != 0 {
        lemma_sort_sorted(s.drop_last());
        lemma_insert_sorted(spec_sort(s.drop_last()), s.last());
    }
}

/// Where the exec insertion places a slot, the spec insertion agrees.
pub(crate) proof fn lemma_insert_at(s: Seq<Slot>, x: Slot, j: int)
    requires
        0 <= j <= s.len(),
        forall|k: int| 0 <= k < j ==> !(x.device_position < #[trigger] s[k].device_position),
        j < s.len() ==> x.device_position < s[j].device_position,
    ensures
        spec_insert(s, x) == s.insert(j, x),
    decreases s.len(),
{
    if s.len() == 0 {
        assert(spec_insert(s, x) =~= s.insert(0, x));
    } else if j == 0 {
        assert(spec_insert(s, x) =~= s.insert(0, x));
    } else {
        lemma_insert_at(s.drop_first(), x, j - 1);
        assert(spec_insert(s, x) =~= s.insert(j, x)) by {
            assert(seq![s[0]] + s.drop_first().insert(j - 1, x) =~= s.insert(j, x));
        }
    }
}

/// Sort a group of slots ascending by `device_position`, stably.
pub fn sort_slots(v: Vec<Slot>) -> (r: Vec<Slot>)
    ensures
        r@ == spec_sort(v@),
{
    let mut out: Vec<Slot> = Vec::new();
    let mut i: usize = 0;
    while i < v.len()
        invariant
            i <= v.len(),
            out@ == spec_sort(v@.subrange(0, i as int)),
        decreases v.len() - i,
    {
        let x = v[i];
        let mut j: usize = 0;
        while j < out.len() && out[j].device_position <= x.device_position
            invariant
                j <= out.len(),
                forall|k: int|
                    0 <= k < j ==> !(x.device_position < #[trigger] out@[k].device_position),
            decreases out.len() - j,
        {
            j += 1;
        }
        proof {
            lemma_insert_at(out@, x, j as int);
        }
        out.insert(j, x);
        proof {
            assert(v@.subrange(0, i + 1 as int).drop_last() =~= v@.subrange(0, i as int));
            assert(v@.subrange(0, i + 1 as int).last() == v@[i as int]);
        }
        i += 1;
    }
    proof {
        assert(v@.subrange(0, v@.len() as int) =~= v@);
    }
    out
}

fn slot_from(p: &Points) -> (s: Slot)
    ensures
        s == slot_of(*p),
{
    Slot {
        id: p.id,
        device_id: p.device_id,
        device_position: p.device_position,
        val: p.val,
        active: p.active,
    }
}

fn ids_contain(ids: &Vec<i32>, x: i32) -> (b: bool)
    ensures
        b == ids@.contains(x),
{
    let mut k: usize = 0;
    while k < ids.len()
        invariant
            k <= ids.len(),
            forall|t: int| 0 <= t < k ==> ids@[t] != x,
        decreases ids.len() - k,
    {
        if ids[k] == x {
            return true;
        }
        k += 1;
    }
    false
}

/// The distinct device ids of a point collection, in first-occurrence order.
fn collect_device_ids(points: &Vec<Points>) -> (ids: Vec<i32>)
    ensures
        ids@ == device_ids(points@),
{
    let mut ids: Vec<i32> = Vec::new();
    let mut i: usize = 0;
    while i < points.len()
        invariant
            i <= points.len(),
            ids@ == device_ids(points@.subrange(0, i as int)),
        decreases points.len() - i,
    {
        proof {
            assert(points@.subrange(0, i + 1 as int).drop_last() =~= points@.subrange(0, i as int));
            assert(points@.subrange(0, i + 1 as int).last() == points@[i as int]);
        }
        let dev = points[i].device_id;
        if !ids_contain(&ids, dev) {
            ids.push(dev);
        }
        i += 1;
    }
    proof {
        assert(points@.subrange(0, points@.len() as int) =~= points@);
    }
    ids
}

/// The slots one device owns, in input order.
fn collect_group(points: &Vec<Points>, dev: i32) -> (group: Vec<Slot>)
    ensures
        group@ == group_of(points@, dev),
{
    let mut group: Vec<Slot> = Vec::new();
    let mut k: usize = 0;
    while k < points.len()
        invariant
            k <= points.len(),
            group@ == group_of(points@.subrange(0, k as int), dev),
        decreases points.len() - k,
    {
        proof {
            let prev = points@.subrange(0, k as int);
            let cur = points@.subrange(0, k + 1 as int);
            let pred = |p: Points| p.device_id == dev;
            assert(cur.drop_last() =~= prev);
            assert(cur.last() == points@[k as int]);
            assert(cur.filter(pred) == if pred(points@[k as int]) {
                prev.filter(pred).push(points@[k as int])
            } else {
                prev.filter(pred)
            }) by {
                reveal(Seq::filter);
            }
            if pred(points@[k as int]) {
                assert(group_of(cur, dev) =~= group_of(prev, dev).push(slot_of(points@[k as int])));
            } else {
                assert(group_of(cur, dev) =~= group_of(prev, dev));
            }
        }
        if points[k].device_id == dev {
            let s = slot_from(&points[k]);
            group.push(s);
        }
        k += 1;
    }
    proof {
        assert(points@.subrange(0, points@.len() as int) =~= points@);
    }
    group
}

/// Map a flat point collection to one ordered level array per device.
///
/// The result carries each device id of the input exactly once, in
/// first-occurrence order; the array of a device lists its points ascending
/// by `device_position`, each contributing its `val` when active or when
/// `override_active` is set, else 0. Pure and deterministic: the same input
/// always yields the same output.
pub fn convert_points(points: Vec<Points>, override_active: bool) -> (r: Vec<(i32, Vec<i32>)>)
    ensures
        r@.map_values(|e: (i32, Vec<i32>)| e.0) == device_ids(points@),
        forall|j: int|
            0 <= j < r@.len() ==> (#[trigger] r@[j]).1@ == spec_levels(
                points@,
                r@[j].0,
                override_active,
            ),
{
    let ids = collect_device_ids(&points);
    let mut r: Vec<(i32, Vec<i32>)> = Vec::new();
    let mut j: usize = 0;
    while j < ids.len()
        invariant
            j <= ids.len(),
            ids@ == device_ids(points@),
            r@.len() == j,
            forall|t: int| 0 <= t < j ==> (#[trigger] r@[t]).0 == ids@[t],
            forall|t: int|
                0 <= t < j ==> (#[trigger] r@[t]).1@ == spec_levels(
                    points@,
                    ids@[t],
                    override_active,
                ),
        decreases ids.len() - j,
    {
        let dev = ids[j];
        let group = collect_group(&points, dev);
        let sorted = sort_slots(group);
        let mut vals: Vec<i32> = Vec::new();
        let mut m: usize = 0;
        while m < sorted.len()
            invariant
                m <= sorted.len(),
                sorted@ == spec_sort(group_of(points@, dev)),
                vals@.len() == m,
                forall|t: int|
                    0 <= t < m ==> vals@[t] == mapped_val(sorted@[t], override_active),
            decreases sorted.len() - m,
        {
            let s = sorted[m];
            if override_active || s.active {
                vals.push(s.val);
            } else {
                vals.push(0);
            }
            m += 1;
        }
        proof {
            assert(vals@ =~= spec_levels(points@, dev, override_active));
        }
        r.push((dev, vals));
        j += 1;
    }
    proof {
        assert(r@.map_values(|e: (i32, Vec<i32>)| e.0) =~= device_ids(points@));
    }
    r
}

} // verus!
