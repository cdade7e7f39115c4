//! Splicing a following recording into a preceding one.
//!
//! Entities of the later flight are matched to the nearest unused entity of
//! the same kind in the earlier one (by the distance from the earlier
//! entity's last position to the later entity's first); features are
//! matched by identical configuration. Whatever finds no match gets a fresh
//! id past every id of the earlier flight.
use crate::flight::{
    entities_positioned, ids_below, sorted_keys, well_formed, EntityData, EntityEvent,
    EntityPositionData, EntityPositionUpdate, EntityView, FeatureData, FeatureEvent, Flight,
    FlightView, Point, PositionDataView,
};
use crate::float_bits::{eq, equals, is_nan, less_than, lt, INFINITY, MILE, ONE, ZERO};
use crate::flt::{is_function, op_of};
use std::collections::BTreeMap;
use vstd::prelude::*;

verus! {

/// Where an entity was last seen.
pub open spec fn last_point(e: EntityView) -> Point {
    let u = e.position->Some_0.updates.last();
    Point { x: u.x, y: u.y, z: u.z }
}

/// Where an entity was first seen.
pub open spec fn first_point(e: EntityView) -> Point {
    let u = e.position->Some_0.updates[0];
    Point { x: u.x, y: u.y, z: u.z }
}

pub open spec fn kind_of(e: EntityView) -> i32 {
    e.position->Some_0.kind
}

/// The distance can be asked of any two points and gives one answer for
/// each.
pub open spec fn measures<D: Fn(Point, Point) -> u32>(distance: D) -> bool {
    &&& forall|p: Point, q: Point| call_requires(distance, (p, q))
    &&& forall|p: Point, q: Point, d: u32, e: u32|
        #[trigger] call_ensures(distance, (p, q), d) && #[trigger] call_ensures(distance, (p, q), e)
            ==> d == e
}

/// No unused candidate of `kind` among `ids` is strictly nearer than `d`.
pub open spec fn nearest_among<D: Fn(Point, Point) -> u32>(
    a: FlightView,
    ids: Seq<i32>,
    used: Seq<bool>,
    kind: i32,
    first: Point,
    distance: D,
    d: u32,
) -> bool {
    forall|c: int, e: u32|
        0 <= c < ids.len() && !used[c] && kind_of(a.entities[ids[c]]) == kind && #[trigger] call_ensures(
            distance,
            (last_point(a.entities[ids[c]]), first),
            e,
        ) ==> !lt(e, d)
}

/// Some unused candidate of `kind` among `ids` is at distance zero.
pub open spec fn zero_among<D: Fn(Point, Point) -> u32>(
    a: FlightView,
    ids: Seq<i32>,
    used: Seq<bool>,
    kind: i32,
    first: Point,
    distance: D,
) -> bool {
    exists|c: int, e: u32|
        0 <= c < ids.len() && !used[c] && kind_of(a.entities[ids[c]]) == kind && #[trigger] call_ensures(
            distance,
            (last_point(a.entities[ids[c]]), first),
            e,
        ) && eq(e, ZERO)
}

/// Index of the nearest unused entity of `kind` among `ids`, if it is
/// closer than a mile (5280 units). An exact zero distance ends the search.
fn closest_unused<D: Fn(Point, Point) -> u32>(
    a: &Flight,
    ids: &Vec<i32>,
    used: &Vec<bool>,
    kind: i32,
    first: Point,
    distance: &D,
) -> (r: Option<usize>)
    requires
        entities_positioned(a@),
        measures(*distance),
        used@.len() == ids@.len(),
        forall|j: int| 0 <= j < ids@.len() ==> a@.entities.contains_key(#[trigger] ids@[j]),
    ensures
        r is Some ==> {
            let j = r->Some_0 as int;
            &&& 0 <= j < ids@.len()
            &&& !used@[j]
            &&& kind_of(a@.entities[ids@[j]]) == kind
            &&& exists|d: u32|
                call_ensures(*distance, (last_point(a@.entities[ids@[j]]), first), d) && lt(
                    d,
                    MILE,
                ) && (nearest_among(a@, ids@, used@, kind, first, *distance, d) || zero_among(
                    a@,
                    ids@,
                    used@,
                    kind,
                    first,
                    *distance,
                ))
        },
        r is None ==> forall|j: int, d: u32|
            0 <= j < ids@.len() && !used@[j] && kind_of(a@.entities[ids@[j]]) == kind
                && #[trigger] call_ensures(*distance, (last_point(a@.entities[ids@[j]]), first), d)
                ==> !lt(d, MILE),
{
    let mut closest: Option<usize> = None;
    let mut closest_distance: u32 = INFINITY;
    let mut j: usize = 0;
    while j < ids.len()
        invariant
            entities_positioned(a@),
            measures(*distance),
            used@.len() == ids@.len(),
            forall|i: int| 0 <= i < ids@.len() ==> a@.entities.contains_key(#[trigger] ids@[i]),
            j <= ids@.len(),
            closest is None ==> closest_distance == INFINITY,
            closest is Some ==> {
                let c = closest->Some_0 as int;
                &&& 0 <= c < ids@.len()
                &&& !used@[c]
                &&& kind_of(a@.entities[ids@[c]]) == kind
                &&& call_ensures(
                    *distance,
                    (last_point(a@.entities[ids@[c]]), first),
                    closest_distance,
                )
            },
            !is_nan(closest_distance),
            forall|c: int, d: u32|
                0 <= c < j && !used@[c] && kind_of(a@.entities[ids@[c]]) == kind
                    && #[trigger] call_ensures(*distance, (last_point(a@.entities[ids@[c]]), first), d)
                    ==> !lt(d, closest_distance),
        decreases ids@.len() - j,
    {
        let id = ids[j];
        let e = a.entities.get(&id).unwrap();
        assert(e@ == a@.entities[id]);
        let pd = e.position_data.as_ref().unwrap();
        if pd.kind == kind && !used[j] {
            let n = pd.position_updates.len();
            let last = pd.position_updates[n - 1];
            let d = distance(Point { x: last.x, y: last.y, z: last.z }, first);
            proof {
                assert(last_point(a@.entities[ids@[j as int]]) == Point { x: last.x, y: last.y, z: last.z });
            }
            if less_than(d, closest_distance) {
                closest = Some(j);
                closest_distance = d;
            }
            if equals(d, ZERO) {
                // Nothing can be nearer; the found distance is below a mile.
                assert(lt(closest_distance, MILE));
                assert(closest is Some);
                assert(zero_among(a@, ids@, used@, kind, first, *distance));
                return closest;
            }
        }
        j = j + 1;
    }
    if less_than(closest_distance, MILE) {
        closest
    } else {
        None
    }
}

/// `k` is among the first `n` entries of `ids`.
pub open spec fn among(ids: Seq<i32>, n: int, k: i32) -> bool {
    exists|j: int| 0 <= j < n && #[trigger] ids[j] == k
}

/// What binding the entities of `b` into `a` may give an entity `k` of `b`:
/// a same-kind entity of `a` closer than a mile, or a fresh id in
/// `[lo, hi)`.
pub open spec fn entity_binding_ok<D: Fn(Point, Point) -> u32>(
    a: FlightView,
    b: FlightView,
    distance: D,
    k: i32,
    v: i32,
    lo: int,
    hi: int,
) -> bool {
    ||| (a.entities.contains_key(v) && kind_of(a.entities[v]) == kind_of(b.entities[k]) && exists|
        d: u32,
    | call_ensures(distance, (last_point(a.entities[v]), first_point(b.entities[k])), d) && lt(
        d,
        MILE,
    ))
    ||| lo <= v < hi
}

/// The bindings are one to one.
pub open spec fn injective(m: Map<i32, i32>) -> bool {
    forall|k1: i32, k2: i32|
        m.contains_key(k1) && m.contains_key(k2) && k1 != k2 ==> #[trigger] m[k1] != #[trigger] m[k2]
}

/// Every same-kind entity of `a` within a mile of entity `k` of `b` is
/// bound to some other entity of `b`.
pub open spec fn all_near_taken<D: Fn(Point, Point) -> u32>(
    a: FlightView,
    b: FlightView,
    distance: D,
    m: Map<i32, i32>,
    k: i32,
) -> bool {
    forall|p: i32, d: u32|
        a.entities.contains_key(p) && kind_of(a.entities[p]) == kind_of(b.entities[k])
            && #[trigger] call_ensures(distance, (last_point(a.entities[p]), first_point(b.entities[k])), d)
            && lt(d, MILE) ==> exists|k2: i32| m.contains_key(k2) && k2 != k && #[trigger] m[k2] == p
}

/// `p` is bound to an entity of `b` with a lower id than `k`.
pub open spec fn taken_before(m: Map<i32, i32>, k: i32, p: i32) -> bool {
    exists|k2: i32| m.contains_key(k2) && k2 < k && #[trigger] m[k2] == p
}

/// Entity `k` of `b` is bound to an entity of `a` that no same-kind entity
/// of `a`, free when `k` was bound, beats on distance; unless some such
/// free entity was at distance zero, which ends the search.
pub open spec fn nearest_free<D: Fn(Point, Point) -> u32>(
    a: FlightView,
    b: FlightView,
    distance: D,
    m: Map<i32, i32>,
    k: i32,
) -> bool {
    let fk = first_point(b.entities[k]);
    let kind = kind_of(b.entities[k]);
    exists|dk: u32|
        call_ensures(distance, (last_point(a.entities[m[k]]), fk), dk) && ((forall|p: i32, e: u32|
            a.entities.contains_key(p) && kind_of(a.entities[p]) == kind && !taken_before(m, k, p)
                && #[trigger] call_ensures(distance, (last_point(a.entities[p]), fk), e) ==> !lt(
                e,
                dk,
            )) || (exists|p: i32, e: u32|
            a.entities.contains_key(p) && kind_of(a.entities[p]) == kind && !taken_before(m, k, p)
                && #[trigger] call_ensures(distance, (last_point(a.entities[p]), fk), e) && eq(
                e,
                ZERO,
            )))
}

/// Binding a later entity leaves earlier bindings nearest among what was
/// free for them.
proof fn lemma_later_binding_keeps<D: Fn(Point, Point) -> u32>(
    a: FlightView,
    b: FlightView,
    distance: D,
    before: Map<i32, i32>,
    after: Map<i32, i32>,
    bid: i32,
    k: i32,
)
    requires
        after == before.insert(bid, after[bid]),
        !before.contains_key(bid),
        before.contains_key(k),
        k < bid,
        nearest_free(a, b, distance, before, k),
    ensures
        nearest_free(a, b, distance, after, k),
{
    assert forall|p: i32| taken_before(after, k, p) <==> taken_before(before, k, p) by {
        if taken_before(after, k, p) {
            let k2 = choose|k2: i32| after.contains_key(k2) && k2 < k && #[trigger] after[k2] == p;
            assert(before[k2] == p);
        }
        if taken_before(before, k, p) {
            let k2 = choose|k2: i32| before.contains_key(k2) && k2 < k && #[trigger] before[k2] == p;
            assert(after[k2] == p);
        }
    }
    let fk = first_point(b.entities[k]);
    let dk = choose|dk: u32|
        call_ensures(distance, (last_point(a.entities[before[k]]), fk), dk) && ((forall|p: i32, e: u32|
            a.entities.contains_key(p) && kind_of(a.entities[p]) == kind_of(b.entities[k])
                && !taken_before(before, k, p) && #[trigger] call_ensures(
                distance,
                (last_point(a.entities[p]), fk),
                e,
            ) ==> !lt(e, dk)) || (exists|p: i32, e: u32|
            a.entities.contains_key(p) && kind_of(a.entities[p]) == kind_of(b.entities[k])
                && !taken_before(before, k, p) && #[trigger] call_ensures(
                distance,
                (last_point(a.entities[p]), fk),
                e,
            ) && eq(e, ZERO)));
    assert(after[k] == before[k]);
}

proof fn lemma_fresh_keeps_nearest<D: Fn(Point, Point) -> u32>(
    a: FlightView,
    b: FlightView,
    distance: D,
    before: Map<i32, i32>,
    after: Map<i32, i32>,
    bid: i32,
    next_id: int,
)
    requires
        after == before.insert(bid, after[bid]),
        after[bid] >= next_id,
        !before.contains_key(bid),
        forall|k: i32| before.contains_key(k) ==> k < bid,
        forall|k: i32| #[trigger]
            before.contains_key(k) && before[k] < next_id ==> nearest_free(a, b, distance, before, k),
    ensures
        forall|k: i32| #[trigger]
            after.contains_key(k) && after[k] < next_id ==> nearest_free(a, b, distance, after, k),
{
    assert forall|k: i32| #[trigger]
        after.contains_key(k) && after[k] < next_id implies nearest_free(a, b, distance, after, k) by {
        assert(k != bid);
        lemma_later_binding_keeps(a, b, distance, before, after, bid, k);
    }
}

/// Binding `bid` to candidate `j` (the nearest unused one, or a zero-distance
/// one) makes it nearest among what was free, and keeps the earlier bindings
/// so.
proof fn lemma_binding_nearest<D: Fn(Point, Point) -> u32>(
    a: FlightView,
    b: FlightView,
    distance: D,
    before: Map<i32, i32>,
    after: Map<i32, i32>,
    ids: Seq<i32>,
    used: Seq<bool>,
    bid: i32,
    j: int,
    next_id: int,
)
    requires
        0 <= j < ids.len(),
        used.len() == ids.len(),
        after == before.insert(bid, ids[j]),
        !before.contains_key(bid),
        forall|k: i32| before.contains_key(k) ==> k < bid,
        forall|x: int, y: int| 0 <= x < y < ids.len() ==> ids[x] < ids[y],
        forall|k: i32| a.entities.contains_key(k) ==> ids.contains(k),
        forall|x: int| 0 <= x < ids.len() ==> a.entities.contains_key(#[trigger] ids[x]),
        forall|x: int|
            0 <= x < ids.len() && #[trigger] used[x] ==> exists|k2: i32|
                before.contains_key(k2) && before[k2] == ids[x],
        forall|k: i32| #[trigger]
            before.contains_key(k) && before[k] < next_id ==> exists|x: int|
                0 <= x < ids.len() && ids[x] == before[k] && used[x],
        forall|k: i32| #[trigger]
            before.contains_key(k) && before[k] < next_id ==> nearest_free(a, b, distance, before, k),
        forall|x: int| 0 <= x < ids.len() ==> #[trigger] ids[x] < next_id,
        exists|d: u32|
            call_ensures(distance, (last_point(a.entities[ids[j]]), first_point(b.entities[bid])), d)
                && lt(d, MILE) && (nearest_among(
                a,
                ids,
                used,
                kind_of(b.entities[bid]),
                first_point(b.entities[bid]),
                distance,
                d,
            ) || zero_among(
                a,
                ids,
                used,
                kind_of(b.entities[bid]),
                first_point(b.entities[bid]),
                distance,
            )),
    ensures
        forall|k: i32| #[trigger]
            after.contains_key(k) && after[k] < next_id ==> nearest_free(a, b, distance, after, k),
{
    let fk = first_point(b.entities[bid]);
    let kind = kind_of(b.entities[bid]);
    // What was taken before `bid` is exactly what was marked used.
    assert forall|p: i32| a.entities.contains_key(p) && !taken_before(after, bid, p) implies exists|x: int|
        0 <= x < ids.len() && ids[x] == p && !used[x] by {
        assert(ids.contains(p));
        let x = choose|x: int| 0 <= x < ids.len() && ids[x] == p;
        if used[x] {
            let k2 = choose|k2: i32| before.contains_key(k2) && before[k2] == ids[x];
            assert(after[k2] == p);
            assert(k2 < bid);
        }
    }
    let d = choose|d: u32|
        call_ensures(distance, (last_point(a.entities[ids[j]]), fk), d) && lt(d, MILE) && (
        nearest_among(a, ids, used, kind, fk, distance, d) || zero_among(
            a,
            ids,
            used,
            kind,
            fk,
            distance,
        ));
    if nearest_among(a, ids, used, kind, fk, distance, d) {
        assert forall|p: i32, e: u32|
            a.entities.contains_key(p) && kind_of(a.entities[p]) == kind && !taken_before(after, bid, p)
                && #[trigger] call_ensures(distance, (last_point(a.entities[p]), fk), e) implies !lt(
            e,
            d,
        ) by {
            let x = choose|x: int| 0 <= x < ids.len() && ids[x] == p && !used[x];
            assert(call_ensures(distance, (last_point(a.entities[ids[x]]), fk), e));
        }
    } else {
        let (c, e) = choose|c: int, e: u32|
            0 <= c < ids.len() && !used[c] && kind_of(a.entities[ids[c]]) == kind && #[trigger] call_ensures(
                distance,
                (last_point(a.entities[ids[c]]), fk),
                e,
            ) && eq(e, ZERO);
        assert(!taken_before(after, bid, ids[c])) by {
            if taken_before(after, bid, ids[c]) {
                let k2 = choose|k2: i32| after.contains_key(k2) && k2 < bid && #[trigger] after[k2] == ids[c];
                assert(before.contains_key(k2));
                assert(before[k2] == ids[c]);
                assert(ids[c] < next_id);
                let x = choose|x: int| 0 <= x < ids.len() && ids[x] == before[k2] && used[x];
                if x < c {
                    assert(ids[x] < ids[c]);
                } else if x > c {
                    assert(ids[c] < ids[x]);
                }
            }
        }
        assert(call_ensures(distance, (last_point(a.entities[ids[c]]), fk), e));
    }
    assert(after[bid] == ids[j]);
    assert(ids[j] < next_id);
    assert(nearest_free(a, b, distance, after, bid));
    assert forall|k: i32| #[trigger]
        after.contains_key(k) && after[k] < next_id implies nearest_free(a, b, distance, after, k) by {
        if k != bid {
            lemma_later_binding_keeps(a, b, distance, before, after, bid, k);
        }
    }
}

/// Binds every entity of `b`, in id order, to the nearest unused entity of
/// `a` of the same kind within a mile, or else to a fresh id counted up from
/// `next_id`; returns the bindings and the next unused id. No two entities
/// of `b` share an entity of `a`, and one gets a fresh id only when every
/// candidate within a mile is already taken.
pub fn bind_entities<D: Fn(Point, Point) -> u32>(
    a: &Flight,
    b: &Flight,
    distance: &D,
    next_id: i32,
) -> (r: (BTreeMap<i32, i32>, i32))
    requires
        well_formed(a@),
        well_formed(b@),
        measures(*distance),
        ids_below(a@, next_id as int),
        next_id + b@.entities.dom().len() <= i32::MAX,
    ensures
        r.0@.dom() == b@.entities.dom(),
        next_id <= r.1 <= next_id + b@.entities.dom().len(),
        forall|k: i32| #[trigger]
            r.0@.contains_key(k) ==> entity_binding_ok(
                a@,
                b@,
                *distance,
                k,
                r.0@[k],
                next_id as int,
                r.1 as int,
            ),
        injective(r.0@),
        forall|k: i32| #[trigger]
            r.0@.contains_key(k) && r.0@[k] >= next_id ==> all_near_taken(
                a@,
                b@,
                *distance,
                r.0@,
                k,
            ),
        forall|k: i32| #[trigger]
            r.0@.contains_key(k) && r.0@[k] < next_id ==> nearest_free(a@, b@, *distance, r.0@, k),
        forall|v: int| next_id <= v < r.1 ==> #[trigger] fresh_used(r.0@, v),
{
    let a_ids = sorted_keys(&a.entities);
    let b_ids = sorted_keys(&b.entities);
    let mut used: Vec<bool> = Vec::new();
    let mut j: usize = 0;
    while j < a_ids.len()
        invariant
            j <= a_ids@.len(),
            used@.len() == j,
            forall|i: int| 0 <= i < j ==> !used@[i],
        decreases a_ids@.len() - j,
    {
        used.push(false);
        j = j + 1;
    }
    assert(b@.entities.dom() =~= b.entities@.dom());
    assert(a@.entities.dom() =~= a.entities@.dom());
    let mut map: BTreeMap<i32, i32> = BTreeMap::new();
    let mut fresh: i32 = next_id;
    let mut i: usize = 0;
    while i < b_ids.len()
        invariant
            well_formed(a@),
            well_formed(b@),
            measures(*distance),
            ids_below(a@, next_id as int),
            next_id + b@.entities.dom().len() <= i32::MAX,
            b_ids@.len() == b@.entities.dom().len(),
            forall|x: int| 0 <= x < b_ids@.len() ==> b@.entities.contains_key(#[trigger] b_ids@[x]),
            forall|k: i32| b@.entities.contains_key(k) ==> b_ids@.contains(k),
            forall|x: int, y: int| 0 <= x < y < b_ids@.len() ==> b_ids@[x] < b_ids@[y],
            forall|x: int| 0 <= x < a_ids@.len() ==> a@.entities.contains_key(#[trigger] a_ids@[x]),
            forall|x: int, y: int| 0 <= x < y < a_ids@.len() ==> a_ids@[x] < a_ids@[y],
            used@.len() == a_ids@.len(),
            i <= b_ids@.len(),
            next_id <= fresh <= next_id + i,
            forall|k: i32| #[trigger] map@.contains_key(k) <==> among(b_ids@, i as int, k),
            forall|k: i32| #[trigger]
                map@.contains_key(k) ==> entity_binding_ok(
                    a@,
                    b@,
                    *distance,
                    k,
                    map@[k],
                    next_id as int,
                    fresh as int,
                ),
            forall|k: i32| #[trigger]
                map@.contains_key(k) && map@[k] < next_id ==> exists|x: int|
                    0 <= x < a_ids@.len() && a_ids@[x] == map@[k] && used@[x],
            injective(map@),
            forall|k: i32| a@.entities.contains_key(k) ==> a_ids@.contains(k),
            forall|x: int|
                0 <= x < a_ids@.len() && #[trigger] used@[x] ==> exists|k2: i32|
                    map@.contains_key(k2) && map@[k2] == a_ids@[x],
            forall|k: i32| #[trigger]
                map@.contains_key(k) && map@[k] >= next_id ==> all_near_taken(
                    a@,
                    b@,
                    *distance,
                    map@,
                    k,
                ),
            forall|k: i32| #[trigger]
                map@.contains_key(k) && map@[k] < next_id ==> nearest_free(a@, b@, *distance, map@, k),
            forall|v: int| next_id <= v < fresh ==> #[trigger] fresh_used(map@, v),
        decreases b_ids@.len() - i,
    {
        let bid = b_ids[i];
        let e = b.entities.get(&bid).unwrap();
        assert(e@ == b@.entities[bid]);
        let pd = e.position_data.as_ref().unwrap();
        let u0 = pd.position_updates[0];
        let first = Point { x: u0.x, y: u0.y, z: u0.z };
        proof {
            assert(!among(b_ids@, i as int, bid)) by {
                if among(b_ids@, i as int, bid) {
                    let x = choose|x: int| 0 <= x < i && #[trigger] b_ids@[x] == bid;
                    assert(b_ids@[x] < b_ids@[i as int]);
                }
            }
            assert(b_ids@[i as int] == bid);
        }
        match closest_unused(a, &a_ids, &used, pd.kind, first, distance) {
            Some(j) => {
                let target = a_ids[j];
                proof {
                    assert(a@.entities.contains_key(target));
                    assert(target < next_id);
                    assert forall|k: i32| #[trigger] map@.contains_key(k) implies map@[k] != target by {
                        if map@[k] < next_id {
                            let x = choose|x: int|
                                0 <= x < a_ids@.len() && a_ids@[x] == map@[k] && used@[x];
                            if x < j {
                                assert(a_ids@[x] < a_ids@[j as int]);
                            } else if x > j {
                                assert(a_ids@[j as int] < a_ids@[x]);
                            }
                        }
                    }
                }
                let ghost before = map@;
                let ghost used_before = used@;
                used.set(j, true);
                map.insert(bid, target);
                proof {
                    assert forall|x: int|
                        0 <= x < a_ids@.len() && #[trigger] used@[x] implies exists|k2: i32|
                            map@.contains_key(k2) && map@[k2] == a_ids@[x] by {
                        if x == j {
                            assert(map@[bid] == a_ids@[x]);
                        } else {
                            assert(used_before[x]);
                            let k2 = choose|k2: i32| before.contains_key(k2) && before[k2] == a_ids@[x];
                            assert(map@[k2] == a_ids@[x]);
                        }
                    }
                    assert forall|k: i32| #[trigger]
                        map@.contains_key(k) && map@[k] >= next_id implies all_near_taken(
                        a@,
                        b@,
                        *distance,
                        map@,
                        k,
                    ) by {
                        assert(k != bid);
                        assert(all_near_taken(a@, b@, *distance, before, k));
                        assert forall|p: i32, d: u32|
                            a@.entities.contains_key(p) && kind_of(a@.entities[p]) == kind_of(b@.entities[k])
                                && #[trigger] call_ensures(*distance, (last_point(a@.entities[p]), first_point(b@.entities[k])), d)
                                && lt(d, MILE) implies exists|k2: i32|
                            map@.contains_key(k2) && k2 != k && #[trigger] map@[k2] == p by {
                            let k2 = choose|k2: i32| before.contains_key(k2) && k2 != k && #[trigger] before[k2] == p;
                            assert(map@[k2] == p);
                        }
                    }
                    assert forall|v: int| next_id <= v < fresh implies #[trigger] fresh_used(map@, v) by {
                        assert(fresh_used(before, v));
                        let k = choose|k: i32| before.contains_key(k) && #[trigger] before[k] == v;
                        assert(map@[k] == v);
                    }
                    lemma_binding_nearest(
                        a@,
                        b@,
                        *distance,
                        before,
                        map@,
                        a_ids@,
                        used_before,
                        bid,
                        j as int,
                        next_id as int,
                    );
                    assert forall|k1: i32, k2: i32|
                        map@.contains_key(k1) && map@.contains_key(k2) && k1 != k2 implies #[trigger] map@[k1]
                            != #[trigger] map@[k2] by {
                        if k1 != bid && k2 != bid {
                            assert(before[k1] != before[k2]);
                        }
                    }
                }
            },
            None => {
                let ghost before = map@;
                proof {
                    assert(first == first_point(b@.entities[bid]));
                    assert(pd.kind == kind_of(b@.entities[bid]));
                }
                proof {
                    assert forall|k: i32| #[trigger] before.contains_key(k) implies before[k] != fresh by {
                        if a@.entities.contains_key(before[k]) {
                            assert(before[k] < next_id);
                        }
                    }
                }
                map.insert(bid, fresh);
                fresh = fresh + 1;
                proof {
                    assert forall|x: int|
                        0 <= x < a_ids@.len() && #[trigger] used@[x] implies exists|k2: i32|
                            map@.contains_key(k2) && map@[k2] == a_ids@[x] by {
                        let k2 = choose|k2: i32| before.contains_key(k2) && before[k2] == a_ids@[x];
                        assert(map@[k2] == a_ids@[x]);
                    }
                    lemma_fresh_keeps_nearest(a@, b@, *distance, before, map@, bid, next_id as int);
                    assert forall|v: int| next_id <= v < fresh implies #[trigger] fresh_used(map@, v) by {
                        if v == fresh - 1 {
                            assert(map@[bid] == v);
                        } else {
                            assert(fresh_used(before, v));
                            let k = choose|k: i32| before.contains_key(k) && #[trigger] before[k] == v;
                            assert(map@[k] == v);
                        }
                    }
                    assert forall|k: i32| #[trigger]
                        map@.contains_key(k) && map@[k] >= next_id implies all_near_taken(
                        a@,
                        b@,
                        *distance,
                        map@,
                        k,
                    ) by {
                        assert forall|p: i32, d: u32|
                            a@.entities.contains_key(p) && kind_of(a@.entities[p]) == kind_of(b@.entities[k])
                                && #[trigger] call_ensures(*distance, (last_point(a@.entities[p]), first_point(b@.entities[k])), d)
                                && lt(d, MILE) implies exists|k2: i32|
                            map@.contains_key(k2) && k2 != k && #[trigger] map@[k2] == p by {
                            if k == bid {
                                assert(a_ids@.contains(p));
                                let x = choose|x: int| 0 <= x < a_ids@.len() && a_ids@[x] == p;
                                assert(used@[x]);
                                let k2 = choose|k2: i32| before.contains_key(k2) && before[k2] == a_ids@[x];
                                assert(map@[k2] == p);
                            } else {
                                assert(all_near_taken(a@, b@, *distance, before, k));
                                let k2 = choose|k2: i32| before.contains_key(k2) && k2 != k && #[trigger] before[k2] == p;
                                assert(map@[k2] == p);
                            }
                        }
                    }
                    assert forall|k1: i32, k2: i32|
                        map@.contains_key(k1) && map@.contains_key(k2) && k1 != k2 implies #[trigger] map@[k1]
                            != #[trigger] map@[k2] by {
                        if k1 != bid && k2 != bid {
                            assert(before[k1] != before[k2]);
                        }
                    }
                }
            },
        }
        proof {
            assert forall|k: i32| #[trigger]
                among(b_ids@, i + 1, k) <==> (among(b_ids@, i as int, k) || k == bid) by {
                if k == bid {
                    assert(b_ids@[i as int] == k);
                }
            }
        }
        i = i + 1;
    }
    proof {
        assert forall|k: i32| #[trigger] b@.entities.contains_key(k) implies map@.contains_key(k) by {
            assert(b_ids@.contains(k));
            let x = choose|x: int| 0 <= x < b_ids@.len() && b_ids@[x] == k;
            assert(among(b_ids@, b_ids@.len() as int, k));
        }
        assert(map@.dom() =~= b@.entities.dom());
    }
    (map, fresh)
}

/// A radar target (or any id) of the later flight, in the earlier flight's
/// ids; -1 when it was not bound.
pub open spec fn rebind(m: Map<i32, i32>, id: i32) -> i32 {
    if m.contains_key(id) {
        m[id]
    } else {
        -1i32
    }
}

pub open spec fn rebind_update(m: Map<i32, i32>, u: EntityPositionUpdate) -> EntityPositionUpdate {
    EntityPositionUpdate { radar_target: rebind(m, u.radar_target), ..u }
}

/// Some entity of `b` among the first `n` of `ids` is bound to `k`.
pub open spec fn bound_among(m: Map<i32, i32>, ids: Seq<i32>, n: int, k: i32) -> bool {
    exists|j: int| 0 <= j < n && #[trigger] m[ids[j]] == k
}

fn rebind_exec(m: &BTreeMap<i32, i32>, id: i32) -> (r: i32)
    ensures
        r == rebind(m@, id),
{
    match m.get(&id) {
        Some(v) => *v,
        None => -1,
    }
}

/// Appends the trail `from`, with radar targets rebound, to `to`.
fn extend_rebound(
    to: &mut Vec<EntityPositionUpdate>,
    from: &Vec<EntityPositionUpdate>,
    m: &BTreeMap<i32, i32>,
)
    ensures
        final(to)@.len() == old(to)@.len() + from@.len(),
        final(to)@.subrange(0, old(to)@.len() as int) == old(to)@,
        forall|i: int|
            0 <= i < from@.len() ==> #[trigger] final(to)@[old(to)@.len() + i] == rebind_update(
                m@,
                from@[i],
            ),
        final(to)@ == old(to)@ + rebound(m@, from@),
{
    let mut i: usize = 0;
    while i < from.len()
        invariant
            i <= from@.len(),
            to@.len() == old(to)@.len() + i,
            to@.subrange(0, old(to)@.len() as int) == old(to)@,
            forall|j: int|
                0 <= j < i ==> #[trigger] to@[old(to)@.len() + j] == rebind_update(m@, from@[j]),
        decreases from@.len() - i,
    {
        let u = from[i];
        let radar_target = rebind_exec(m, u.radar_target);
        to.push(
            EntityPositionUpdate {
                time: u.time,
                x: u.x,
                y: u.y,
                z: u.z,
                pitch: u.pitch,
                roll: u.roll,
                yaw: u.yaw,
                radar_target,
            },
        );
        proof {
            assert(to@.subrange(0, old(to)@.len() as int) =~= old(to)@);
        }
        i = i + 1;
    }
    proof {
        assert forall|j: int| 0 <= j < to@.len() implies #[trigger] to@[j] == (old(to)@ + rebound(
            m@,
            from@,
        ))[j] by {
            if j < old(to)@.len() {
                assert(to@[j] == to@.subrange(0, old(to)@.len() as int)[j]);
            } else {
                assert(to@[old(to)@.len() + (j - old(to)@.len())] == rebind_update(m@, from@[j - old(to)@.len()]));
            }
        }
        assert(to@ =~= old(to)@ + rebound(m@, from@));
    }
}

/// A trail of the later flight with its radar targets rebound.
pub open spec fn rebound(m: Map<i32, i32>, s: Seq<EntityPositionUpdate>) -> Seq<EntityPositionUpdate> {
    s.map_values(|u: EntityPositionUpdate| rebind_update(m, u))
}

/// Entity `v` of the merged flight, when entity `e` of the later flight is
/// bound to it: an entity of the earlier flight keeps its kind, flags and
/// events and gets `e`'s updates appended; otherwise it is `e` itself. In
/// both cases `e`'s radar targets are rebound.
pub open spec fn spliced_entity(
    a: Map<i32, EntityView>,
    v: i32,
    e: EntityView,
    m: Map<i32, i32>,
) -> EntityView {
    if a.contains_key(v) {
        let p = a[v].position->Some_0;
        EntityView {
            position: Some(
                PositionDataView {
                    kind: p.kind,
                    flags: p.flags,
                    updates: p.updates + rebound(m, e.position->Some_0.updates),
                },
            ),
            events: a[v].events,
        }
    } else {
        let p = e.position->Some_0;
        EntityView {
            position: Some(
                PositionDataView { kind: p.kind, flags: p.flags, updates: rebound(m, p.updates) },
            ),
            events: e.events,
        }
    }
}

/// The entities `f` of the merged flight: those of `a` and the ids that
/// `m` binds entities of `b` to, each spliced; the rest of `a` unchanged.
pub open spec fn entities_spliced(
    a: Map<i32, EntityView>,
    b: Map<i32, EntityView>,
    m: Map<i32, i32>,
    f: Map<i32, EntityView>,
) -> bool {
    &&& forall|k: i32|
        #[trigger] f.contains_key(k) <==> a.contains_key(k) || exists|bk: i32|
            b.contains_key(bk) && #[trigger] m[bk] == k
    &&& forall|bk: i32| #[trigger]
        b.contains_key(bk) ==> f[m[bk]] == spliced_entity(a, m[bk], b[bk], m)
    &&& forall|k: i32| #[trigger]
        a.contains_key(k) && !(exists|bk: i32| b.contains_key(bk) && #[trigger] m[bk] == k) ==> f[k]
            == a[k]
}

/// Some key is bound to `v`.
pub open spec fn fresh_used(m: Map<i32, i32>, v: int) -> bool {
    exists|k: i32| m.contains_key(k) && #[trigger] m[k] == v
}

/// Fresh ids (at or above `lo`) are given to one feature each.
pub open spec fn fresh_distinct(fm: Map<i32, i32>, lo: int) -> bool {
    forall|k1: i32, k2: i32|
        fm.contains_key(k1) && fm.contains_key(k2) && k1 != k2 && #[trigger] fm[k1] >= lo ==> fm[k1]
            != #[trigger] fm[k2]
}

/// A feature of the later flight as it is inserted: its lead rebound.
pub open spec fn inserted_feature(f: FeatureData, fm: Map<i32, i32>) -> FeatureData {
    FeatureData { lead_uid: rebind(fm, f.lead_uid), ..f }
}

/// The features `f` of the merged flight: those of `a` unchanged, and each
/// feature of `b` with a fresh id inserted under it.
pub open spec fn features_inserted(
    a: Map<i32, FeatureData>,
    b: Map<i32, FeatureData>,
    fm: Map<i32, i32>,
    lo: int,
    f: Map<i32, FeatureData>,
) -> bool {
    &&& forall|k: i32|
        #[trigger] f.contains_key(k) <==> a.contains_key(k) || exists|bk: i32|
            b.contains_key(bk) && fm[bk] >= lo && #[trigger] fm[bk] == k
    &&& forall|k: i32| #[trigger] a.contains_key(k) ==> f[k] == a[k]
    &&& forall|bk: i32| #[trigger]
        b.contains_key(bk) && fm[bk] >= lo ==> f[fm[bk]] == inserted_feature(b[bk], fm)
}

/// `k` is a fresh id (at or above `lo`) given to one of `ids`, which had a
/// callsign in `b`.
pub open spec fn callsign_moved(b: FlightView, ids: Seq<i32>, m: Map<i32, i32>, lo: int, k: i32) -> bool {
    exists|x: int|
        0 <= x < ids.len() && #[trigger] m[ids[x]] == k && k >= lo && b.callsigns.contains_key(ids[x])
}

/// What an entity of the earlier flight looks like after the splice: the
/// same entity, with a trail that starts with its old trail.
pub open spec fn extends(old_e: EntityView, new_e: EntityView) -> bool {
    &&& new_e.position is Some
    &&& new_e.position->Some_0.kind == old_e.position->Some_0.kind
    &&& new_e.position->Some_0.flags == old_e.position->Some_0.flags
    &&& new_e.events == old_e.events
    &&& old_e.position->Some_0.updates.len() <= new_e.position->Some_0.updates.len()
    &&& new_e.position->Some_0.updates.subrange(0, old_e.position->Some_0.updates.len() as int)
        == old_e.position->Some_0.updates
}

impl Flight {
    /// Moves the trails of `b`'s entities into the entities they are bound to,
    /// creating those that do not exist yet.
    fn splice_entities(&mut self, b: &Flight, m: &BTreeMap<i32, i32>)
        requires
            entities_positioned(old(self)@),
            well_formed(b@),
            m@.dom() == b@.entities.dom(),
            injective(m@),
        ensures
            entities_positioned(final(self)@),
            entities_spliced(old(self)@.entities, b@.entities, m@, final(self)@.entities),
            final(self)@ == (FlightView { entities: final(self)@.entities, ..old(self)@ }),
    {
        let b_ids = sorted_keys(&b.entities);
        assert(b@.entities.dom() =~= b.entities@.dom());
        let ghost a = old(self)@.entities;
        let mut i: usize = 0;
        while i < b_ids.len()
            invariant
                well_formed(b@),
                m@.dom() == b@.entities.dom(),
                injective(m@),
                a == old(self)@.entities,
                i <= b_ids@.len(),
                forall|x: int| 0 <= x < b_ids@.len() ==> b@.entities.contains_key(#[trigger] b_ids@[x]),
                forall|k: i32| b@.entities.contains_key(k) ==> b_ids@.contains(k),
                forall|x: int, y: int| 0 <= x < y < b_ids@.len() ==> b_ids@[x] < b_ids@[y],
                entities_positioned(old(self)@),
                entities_positioned(self@),
                forall|k: i32| #[trigger]
                    self@.entities.contains_key(k) <==> a.contains_key(k) || bound_among(
                        m@,
                        b_ids@,
                        i as int,
                        k,
                    ),
                forall|x: int|
                    0 <= x < i ==> #[trigger] self@.entities[m@[b_ids@[x]]] == spliced_entity(
                        a,
                        m@[b_ids@[x]],
                        b@.entities[b_ids@[x]],
                        m@,
                    ),
                forall|k: i32| #[trigger]
                    a.contains_key(k) && !bound_among(m@, b_ids@, i as int, k) ==> self@.entities[k]
                        == a[k],
                self@ == (FlightView { entities: self@.entities, ..old(self)@ }),
            decreases b_ids@.len() - i,
        {
            let bid = b_ids[i];
            let be = b.entities.get(&bid).unwrap();
            assert(be@ == b@.entities[bid]);
            let from = be.position_data.as_ref().unwrap();
            let target = *m.get(&bid).unwrap();
            let ghost before = self@;
            proof {
                assert(m@[b_ids@[i as int]] == target);
                assert(!bound_among(m@, b_ids@, i as int, target)) by {
                    if bound_among(m@, b_ids@, i as int, target) {
                        let x = choose|x: int| 0 <= x < i && #[trigger] m@[b_ids@[x]] == target;
                        assert(b_ids@[x] < b_ids@[i as int]);
                        assert(m@.contains_key(b_ids@[x]));
                    }
                }
            }
            let ghost want = spliced_entity(a, target, b@.entities[bid], m@);
            match self.entities.remove(&target) {
                Some(e) => {
                    assert(before.entities.contains_key(target));
                    assert(e@ == before.entities[target]);
                    assert(a.contains_key(target));
                    assert(e@ == a[target]);
                    let EntityData { position_data, events } = e;
                    let mut pd = position_data.unwrap();
                    extend_rebound(&mut pd.position_updates, &from.position_updates, m);
                    let ne = EntityData { position_data: Some(pd), events };
                    assert(ne@ == want);
                    self.entities.insert(target, ne);
                    proof {
                        assert(self@.entities =~= before.entities.insert(target, ne@));
                    }
                },
                None => {
                    assert(!before.entities.contains_key(target));
                    assert(!a.contains_key(target)) by {
                        if a.contains_key(target) {
                            assert(before.entities.contains_key(target));
                        }
                    }
                    let mut updates: Vec<EntityPositionUpdate> = Vec::new();
                    extend_rebound(&mut updates, &from.position_updates, m);
                    let mut events: Vec<EntityEvent> = Vec::new();
                    let mut j: usize = 0;
                    while j < be.events.len()
                        invariant
                            j <= be.events@.len(),
                            events@ == be.events@.subrange(0, j as int),
                        decreases be.events@.len() - j,
                    {
                        events.push(be.events[j]);
                        proof {
                            assert(events@ =~= be.events@.subrange(0, j + 1));
                        }
                        j = j + 1;
                    }
                    assert(events@ =~= be.events@);
                    assert(updates@ =~= rebound(m@, from.position_updates@));
                    let ne = EntityData {
                        position_data: Some(
                            EntityPositionData {
                                kind: from.kind,
                                flags: from.flags,
                                position_updates: updates,
                            },
                        ),
                        events,
                    };
                    assert(ne@ == want);
                    self.entities.insert(target, ne);
                    proof {
                        assert(self@.entities =~= before.entities.insert(target, ne@));
                    }
                },
            }
            proof {
                assert forall|k: i32| #[trigger]
                    bound_among(m@, b_ids@, i + 1, k) <==> (bound_among(m@, b_ids@, i as int, k)
                        || k == target) by {
                    if bound_among(m@, b_ids@, i + 1, k) && k != target {
                        let x = choose|x: int| 0 <= x < i + 1 && #[trigger] m@[b_ids@[x]] == k;
                        assert(x < i);
                    }
                }
                assert forall|x: int|
                    0 <= x < i + 1 implies #[trigger] self@.entities[m@[b_ids@[x]]] == spliced_entity(
                    a,
                    m@[b_ids@[x]],
                    b@.entities[b_ids@[x]],
                    m@,
                ) by {
                    if x < i {
                        assert(b_ids@[x] != bid);
                        assert(m@.contains_key(b_ids@[x]));
                        assert(m@[b_ids@[x]] != target);
                    }
                }
                let tp = self@.entities[target].position->Some_0.updates;
                if a.contains_key(target) {
                    assert(tp.len() >= a[target].position->Some_0.updates.len());
                }
            }
            i = i + 1;
        }
        proof {
            assert forall|k: i32|
                bound_among(m@, b_ids@, b_ids@.len() as int, k) <==> exists|bk: i32|
                    b@.entities.contains_key(bk) && #[trigger] m@[bk] == k by {
                if bound_among(m@, b_ids@, b_ids@.len() as int, k) {
                    let x = choose|x: int| 0 <= x < b_ids@.len() && #[trigger] m@[b_ids@[x]] == k;
                    assert(b@.entities.contains_key(b_ids@[x]));
                }
                if exists|bk: i32| b@.entities.contains_key(bk) && #[trigger] m@[bk] == k {
                    let bk = choose|bk: i32| b@.entities.contains_key(bk) && #[trigger] m@[bk] == k;
                    assert(b_ids@.contains(bk));
                    let x = choose|x: int| 0 <= x < b_ids@.len() && b_ids@[x] == bk;
                    assert(m@[b_ids@[x]] == k);
                }
            }
            assert forall|bk: i32| #[trigger]
                b@.entities.contains_key(bk) implies self@.entities[m@[bk]] == spliced_entity(
                a,
                m@[bk],
                b@.entities[bk],
                m@,
            ) by {
                assert(b_ids@.contains(bk));
                let x = choose|x: int| 0 <= x < b_ids@.len() && b_ids@[x] == bk;
                assert(self@.entities[m@[b_ids@[x]]] == spliced_entity(
                    a,
                    m@[b_ids@[x]],
                    b@.entities[b_ids@[x]],
                    m@,
                ));
            }
        }
    }
}

/// Two features are the same object: everything but time and lead agrees.
pub open spec fn same_configuration(f: FeatureData, g: FeatureData) -> bool {
    &&& f.kind == g.kind
    &&& f.slot == g.slot
    &&& f.special_flags == g.special_flags
    &&& eq(f.x, g.x)
    &&& eq(f.y, g.y)
    &&& eq(f.z, g.z)
    &&& eq(f.pitch, g.pitch)
    &&& eq(f.roll, g.roll)
    &&& eq(f.yaw, g.yaw)
}

fn same_configuration_exec(f: &FeatureData, g: &FeatureData) -> (r: bool)
    ensures
        r == same_configuration(*f, *g),
{
    f.kind == g.kind && f.slot == g.slot && f.special_flags == g.special_flags && equals(f.x, g.x)
        && equals(f.y, g.y) && equals(f.z, g.z) && equals(f.pitch, g.pitch) && equals(
        f.roll,
        g.roll,
    ) && equals(f.yaw, g.yaw)
}

/// Binds every feature of `b` to a feature of `a` with the same
/// configuration, or to a fresh id counted up from `next_id`.
fn bind_features(a: &Flight, b: &Flight, next_id: i32) -> (r: (BTreeMap<i32, i32>, i32))
    requires
        ids_below(a@, next_id as int),
        next_id + b@.features.dom().len() <= i32::MAX,
    ensures
        r.0@.dom() == b@.features.dom(),
        next_id <= r.1 <= next_id + b@.features.dom().len(),
        forall|k: i32| #[trigger]
            r.0@.contains_key(k) ==> (a@.features.contains_key(r.0@[k]) && same_configuration(
                a@.features[r.0@[k]],
                b@.features[k],
            )) || (next_id <= r.0@[k] < r.1),
        forall|k1: i32, k2: i32|
            r.0@.contains_key(k1) && r.0@.contains_key(k2) && k1 != k2 && #[trigger] r.0@[k1]
                >= next_id ==> r.0@[k1] != #[trigger] r.0@[k2],
        forall|v: int| next_id <= v < r.1 ==> #[trigger] fresh_used(r.0@, v),
{
    let a_ids = sorted_keys(&a.features);
    let b_ids = sorted_keys(&b.features);
    let mut map: BTreeMap<i32, i32> = BTreeMap::new();
    let mut fresh: i32 = next_id;
    let mut i: usize = 0;
    while i < b_ids.len()
        invariant
            ids_below(a@, next_id as int),
            next_id + b@.features.dom().len() <= i32::MAX,
            b_ids@.len() == b@.features.dom().len(),
            forall|x: int| 0 <= x < b_ids@.len() ==> b@.features.contains_key(#[trigger] b_ids@[x]),
            forall|k: i32| b@.features.contains_key(k) ==> b_ids@.contains(k),
            forall|x: int, y: int| 0 <= x < y < b_ids@.len() ==> b_ids@[x] < b_ids@[y],
            forall|x: int| 0 <= x < a_ids@.len() ==> a@.features.contains_key(#[trigger] a_ids@[x]),
            i <= b_ids@.len(),
            next_id <= fresh <= next_id + i,
            forall|k: i32| #[trigger] map@.contains_key(k) <==> among(b_ids@, i as int, k),
            forall|k: i32| #[trigger]
                map@.contains_key(k) ==> (a@.features.contains_key(map@[k]) && same_configuration(
                    a@.features[map@[k]],
                    b@.features[k],
                )) || (next_id <= map@[k] < fresh),
            forall|k1: i32, k2: i32|
                map@.contains_key(k1) && map@.contains_key(k2) && k1 != k2 && #[trigger] map@[k1]
                    >= next_id ==> map@[k1] != #[trigger] map@[k2],
            forall|v: int| next_id <= v < fresh ==> #[trigger] fresh_used(map@, v),
        decreases b_ids@.len() - i,
    {
        let bid = b_ids[i];
        let bf = *b.features.get(&bid).unwrap();
        proof {
            assert(!among(b_ids@, i as int, bid)) by {
                if among(b_ids@, i as int, bid) {
                    let x = choose|x: int| 0 <= x < i && #[trigger] b_ids@[x] == bid;
                    assert(b_ids@[x] < b_ids@[i as int]);
                }
            }
            assert(b_ids@[i as int] == bid);
        }
        let mut found: Option<i32> = None;
        let mut j: usize = 0;
        while j < a_ids.len()
            invariant
                j <= a_ids@.len(),
                forall|x: int| 0 <= x < a_ids@.len() ==> a@.features.contains_key(#[trigger] a_ids@[x]),
                found is Some ==> a@.features.contains_key(found->Some_0) && same_configuration(
                    a@.features[found->Some_0],
                    bf,
                ),
            decreases a_ids@.len() - j,
        {
            let aid = a_ids[j];
            let af = a.features.get(&aid).unwrap();
            if same_configuration_exec(af, &bf) {
                found = Some(aid);
                break ;
            }
            j = j + 1;
        }
        let ghost before = map@;
        let ghost fresh_before = fresh;
        match found {
            Some(aid) => {
                proof {
                    assert(aid < next_id);
                }
                map.insert(bid, aid);
            },
            None => {
                map.insert(bid, fresh);
                fresh = fresh + 1;
            },
        }
        proof {
            assert forall|v: int| next_id <= v < fresh implies #[trigger] fresh_used(map@, v) by {
                if v < fresh_before {
                    assert(fresh_used(before, v));
                    let k = choose|k: i32| before.contains_key(k) && #[trigger] before[k] == v;
                    assert(map@[k] == v);
                } else {
                    assert(map@[bid] == v);
                }
            }
            assert forall|k: i32| #[trigger]
                among(b_ids@, i + 1, k) <==> (among(b_ids@, i as int, k) || k == bid) by {
                if k == bid {
                    assert(b_ids@[i as int] == k);
                }
            }
            assert forall|k1: i32, k2: i32|
                map@.contains_key(k1) && map@.contains_key(k2) && k1 != k2 && #[trigger] map@[k1]
                    >= next_id implies map@[k1] != #[trigger] map@[k2] by {
                if k1 != bid && k2 != bid {
                    assert(before[k1] != before[k2]);
                } else if k2 != bid {
                    if a@.features.contains_key(before[k2]) {
                        assert(before[k2] < next_id);
                    }
                } else {
                    if a@.features.contains_key(before[k1]) {
                        assert(before[k1] < next_id);
                    }
                }
            }
        }
        i = i + 1;
    }
    proof {
        assert forall|k: i32| #[trigger] b@.features.contains_key(k) implies map@.contains_key(k) by {
            assert(b_ids@.contains(k));
            let x = choose|x: int| 0 <= x < b_ids@.len() && b_ids@[x] == k;
            assert(among(b_ids@, b_ids@.len() as int, k));
        }
        assert(map@.dom() =~= b@.features.dom());
    }
    (map, fresh)
}

/// One more than the largest entity or feature id; 0 when there is none.
fn first_free_id(f: &Flight) -> (r: i32)
    requires
        ids_below(f@, i32::MAX as int),
    ensures
        ids_below(f@, r as int),
        r >= 0 || f@.entities.dom().len() > 0 || f@.features.dom().len() > 0,
        r == 0 || exists|k: i32|
            (f@.entities.contains_key(k) || f@.features.contains_key(k)) && r == k + 1,
{
    let e = sorted_keys(&f.entities);
    let ft = sorted_keys(&f.features);
    assert(f@.entities.dom() =~= f.entities@.dom());
    let mut best: Option<i32> = None;
    if e.len() > 0 {
        best = Some(e[e.len() - 1]);
    }
    if ft.len() > 0 {
        let m = ft[ft.len() - 1];
        match best {
            Some(b) => {
                if m > b {
                    best = Some(m);
                }
            },
            None => {
                best = Some(m);
            },
        }
    }
    proof {
        assert forall|k: i32| f@.entities.contains_key(k) implies k <= e@[e@.len() - 1] by {
            assert(e@.contains(k));
            let x = choose|x: int| 0 <= x < e@.len() && e@[x] == k;
            if x < e@.len() - 1 {
                assert(e@[x] < e@[e@.len() - 1]);
            }
        }
        assert forall|k: i32| f@.features.contains_key(k) implies k <= ft@[ft@.len() - 1] by {
            assert(ft@.contains(k));
            let x = choose|x: int| 0 <= x < ft@.len() && ft@[x] == k;
            if x < ft@.len() - 1 {
                assert(ft@[x] < ft@[ft@.len() - 1]);
            }
        }
        if e@.len() > 0 {
            assert(f@.entities.contains_key(e@[e@.len() - 1]));
        }
        if ft@.len() > 0 {
            assert(f@.features.contains_key(ft@[ft@.len() - 1]));
        }
        if e@.len() == 0 {
            assert forall|k: i32| !f@.entities.contains_key(k) by {
                if f@.entities.contains_key(k) {
                    assert(e@.contains(k));
                }
            }
        }
        if ft@.len() == 0 {
            assert forall|k: i32| !f@.features.contains_key(k) by {
                if f@.features.contains_key(k) {
                    assert(ft@.contains(k));
                }
            }
        }
    }
    match best {
        Some(b) => b + 1,
        None => 0,
    }
}

impl Flight {
    /// Inserts the features of `b` that were given fresh ids, with their
    /// lead rebound.
    fn insert_features(&mut self, b: &Flight, fm: &BTreeMap<i32, i32>, lo: i32)
        requires
            ids_below(old(self)@, lo as int),
            fm@.dom() == b@.features.dom(),
            fresh_distinct(fm@, lo as int),
        ensures
            features_inserted(old(self)@.features, b@.features, fm@, lo as int, final(self)@.features),
            final(self)@ == (FlightView { features: final(self)@.features, ..old(self)@ }),
    {
        let b_ids = sorted_keys(&b.features);
        let ghost a = old(self)@.features;
        let mut i: usize = 0;
        while i < b_ids.len()
            invariant
                ids_below(old(self)@, lo as int),
                a == old(self)@.features,
                fm@.dom() == b@.features.dom(),
                fresh_distinct(fm@, lo as int),
                i <= b_ids@.len(),
                forall|x: int| 0 <= x < b_ids@.len() ==> b@.features.contains_key(#[trigger] b_ids@[x]),
                forall|k: i32| b@.features.contains_key(k) ==> b_ids@.contains(k),
                forall|x: int, y: int| 0 <= x < y < b_ids@.len() ==> b_ids@[x] < b_ids@[y],
                forall|k: i32| #[trigger]
                    self@.features.contains_key(k) <==> a.contains_key(k) || exists|x: int|
                        0 <= x < i && fm@[b_ids@[x]] >= lo && #[trigger] fm@[b_ids@[x]] == k,
                forall|k: i32| #[trigger] a.contains_key(k) ==> self@.features[k] == a[k],
                forall|x: int|
                    0 <= x < i && #[trigger] fm@[b_ids@[x]] >= lo ==> self@.features[fm@[b_ids@[x]]]
                        == inserted_feature(b@.features[b_ids@[x]], fm@),
                self@ == (FlightView { features: self@.features, ..old(self)@ }),
            decreases b_ids@.len() - i,
        {
            let bid = b_ids[i];
            let target = *fm.get(&bid).unwrap();
            let ghost before = self@.features;
            if target >= lo {
                let bf = *b.features.get(&bid).unwrap();
                let lead_uid = rebind_exec(fm, bf.lead_uid);
                let nf = FeatureData {
                    kind: bf.kind,
                    lead_uid,
                    slot: bf.slot,
                    special_flags: bf.special_flags,
                    time: bf.time,
                    x: bf.x,
                    y: bf.y,
                    z: bf.z,
                    pitch: bf.pitch,
                    roll: bf.roll,
                    yaw: bf.yaw,
                };
                self.features.insert(target, nf);
                proof {
                    assert(!a.contains_key(target)) by {
                        if a.contains_key(target) {
                            assert(old(self)@.features.contains_key(target));
                        }
                    }
                    assert forall|x: int|
                        0 <= x < i && #[trigger] fm@[b_ids@[x]] >= lo implies fm@[b_ids@[x]] != target by {
                        assert(b_ids@[x] < b_ids@[i as int]);
                        assert(fm@.contains_key(b_ids@[x]));
                    }
                }
            }
            proof {
                assert forall|k: i32| #[trigger]
                    self@.features.contains_key(k) <==> a.contains_key(k) || exists|x: int|
                        0 <= x < i + 1 && fm@[b_ids@[x]] >= lo && #[trigger] fm@[b_ids@[x]] == k by {
                    if self@.features.contains_key(k) && !a.contains_key(k) && k != target {
                        assert(before.contains_key(k));
                        let x = choose|x: int|
                            0 <= x < i && fm@[b_ids@[x]] >= lo && #[trigger] fm@[b_ids@[x]] == k;
                        assert(x < i + 1);
                    }
                    if (exists|x: int|
                        0 <= x < i + 1 && fm@[b_ids@[x]] >= lo && #[trigger] fm@[b_ids@[x]] == k) {
                        let x = choose|x: int|
                            0 <= x < i + 1 && fm@[b_ids@[x]] >= lo && #[trigger] fm@[b_ids@[x]] == k;
                        if x < i {
                            assert(before.contains_key(k));
                        }
                    }
                }
            }
            i = i + 1;
        }
        proof {
            assert forall|k: i32| #[trigger]
                self@.features.contains_key(k) <==> a.contains_key(k) || exists|bk: i32|
                    b@.features.contains_key(bk) && fm@[bk] >= lo && #[trigger] fm@[bk] == k by {
                if exists|x: int|
                    0 <= x < b_ids@.len() && fm@[b_ids@[x]] >= lo && #[trigger] fm@[b_ids@[x]] == k {
                    let x = choose|x: int|
                        0 <= x < b_ids@.len() && fm@[b_ids@[x]] >= lo && #[trigger] fm@[b_ids@[x]] == k;
                    assert(b@.features.contains_key(b_ids@[x]));
                }
                if exists|bk: i32| b@.features.contains_key(bk) && fm@[bk] >= lo && #[trigger] fm@[bk] == k {
                    let bk = choose|bk: i32|
                        b@.features.contains_key(bk) && fm@[bk] >= lo && #[trigger] fm@[bk] == k;
                    assert(b_ids@.contains(bk));
                    let x = choose|x: int| 0 <= x < b_ids@.len() && b_ids@[x] == bk;
                    assert(fm@[b_ids@[x]] == k);
                }
            }
            assert forall|bk: i32| #[trigger]
                b@.features.contains_key(bk) && fm@[bk] >= lo implies self@.features[fm@[bk]]
                == inserted_feature(b@.features[bk], fm@) by {
                assert(b_ids@.contains(bk));
                let x = choose|x: int| 0 <= x < b_ids@.len() && b_ids@[x] == bk;
                assert(fm@[b_ids@[x]] >= lo);
            }
        }
    }

    /// Appends the feature events of `b`, their features rebound.
    fn push_feature_events(&mut self, b: &Flight, fm: &BTreeMap<i32, i32>)
        requires
            well_formed(b@),
            fm@.dom() == b@.features.dom(),
        ensures
            final(self)@.feature_events.len() == old(self)@.feature_events.len()
                + b@.feature_events.len(),
            final(self)@.feature_events.subrange(0, old(self)@.feature_events.len() as int)
                == old(self)@.feature_events,
            forall|i: int|
                0 <= i < b@.feature_events.len() ==> #[trigger] final(self)@.feature_events[old(self)@.feature_events.len() + i] == (FeatureEvent {
                    feature_uid: fm@[b@.feature_events[i].feature_uid],
                    ..b@.feature_events[i]
                }),
            final(self)@ == (FlightView { feature_events: final(self)@.feature_events, ..old(self)@ }),
    {
        let n0 = self.feature_events.len();
        let mut i: usize = 0;
        while i < b.feature_events.len()
            invariant
                well_formed(b@),
                fm@.dom() == b@.features.dom(),
                n0 == old(self)@.feature_events.len(),
                i <= b@.feature_events.len(),
                self@.feature_events.len() == n0 + i,
                self@.feature_events.subrange(0, n0 as int) == old(self)@.feature_events,
                forall|j: int|
                    0 <= j < i ==> #[trigger] self@.feature_events[n0 + j] == (FeatureEvent {
                        feature_uid: fm@[b@.feature_events[j].feature_uid],
                        ..b@.feature_events[j]
                    }),
                self@ == (FlightView { feature_events: self@.feature_events, ..old(self)@ }),
            decreases b@.feature_events.len() - i,
        {
            let ev = b.feature_events[i];
            assert(b@.features.contains_key(b@.feature_events[i as int].feature_uid));
            let uid = *fm.get(&ev.feature_uid).unwrap();
            self.feature_events.push(
                FeatureEvent {
                    time: ev.time,
                    feature_uid: uid,
                    new_status: ev.new_status,
                    previous_status: ev.previous_status,
                },
            );
            proof {
                assert(self@.feature_events.subrange(0, n0 as int) =~= old(self)@.feature_events);
            }
            i = i + 1;
        }
    }

    /// Gives the entities or features of `b` that received fresh ids the
    /// callsigns they had in `b`.
    fn copy_callsigns(&mut self, b: &Flight, ids: &Vec<i32>, m: &BTreeMap<i32, i32>, lo: i32)
        requires
            forall|x: int| 0 <= x < ids@.len() ==> m@.contains_key(#[trigger] ids@[x]),
            forall|x: int, y: int|
                0 <= x < ids@.len() && 0 <= y < ids@.len() && ids@[x] != ids@[y] && #[trigger] m@[ids@[x]]
                    >= lo ==> m@[ids@[x]] != #[trigger] m@[ids@[y]],
        ensures
            forall|k: i32| #[trigger]
                final(self)@.callsigns.contains_key(k) <==> old(self)@.callsigns.contains_key(k)
                    || callsign_moved(b@, ids@, m@, lo as int, k),
            forall|x: int|
                0 <= x < ids@.len() && #[trigger] m@[ids@[x]] >= lo && b@.callsigns.contains_key(ids@[x])
                    ==> final(self)@.callsigns[m@[ids@[x]]] == b@.callsigns[ids@[x]],
            forall|k: i32| #[trigger]
                old(self)@.callsigns.contains_key(k) && !callsign_moved(b@, ids@, m@, lo as int, k)
                    ==> final(self)@.callsigns[k] == old(self)@.callsigns[k],
            final(self)@ == (FlightView { callsigns: final(self)@.callsigns, ..old(self)@ }),
    {
        let mut i: usize = 0;
        while i < ids.len()
            invariant
                forall|x: int| 0 <= x < ids@.len() ==> m@.contains_key(#[trigger] ids@[x]),
                forall|x: int, y: int|
                    0 <= x < ids@.len() && 0 <= y < ids@.len() && ids@[x] != ids@[y] && #[trigger] m@[ids@[x]]
                        >= lo ==> m@[ids@[x]] != #[trigger] m@[ids@[y]],
                i <= ids@.len(),
                forall|k: i32| #[trigger]
                    self@.callsigns.contains_key(k) <==> old(self)@.callsigns.contains_key(k)
                        || callsign_moved(b@, ids@.subrange(0, i as int), m@, lo as int, k),
                forall|x: int|
                    0 <= x < i && #[trigger] m@[ids@[x]] >= lo && b@.callsigns.contains_key(ids@[x])
                        ==> self@.callsigns[m@[ids@[x]]] == b@.callsigns[ids@[x]],
                forall|k: i32| #[trigger]
                    old(self)@.callsigns.contains_key(k) && !callsign_moved(
                        b@,
                        ids@.subrange(0, i as int),
                        m@,
                        lo as int,
                        k,
                    ) ==> self@.callsigns[k] == old(self)@.callsigns[k],
                self@ == (FlightView { callsigns: self@.callsigns, ..old(self)@ }),
            decreases ids@.len() - i,
        {
            let bid = ids[i];
            let target = *m.get(&bid).unwrap();
            let ghost before = self@.callsigns;
            let ghost pre = ids@.subrange(0, i as int);
            let ghost post = ids@.subrange(0, i + 1);
            assert(post =~= pre.push(bid));
            if target >= lo {
                match b.callsigns.get(&bid) {
                    Some(c) => {
                        let c = *c;
                        self.callsigns.insert(target, c);
                        proof {
                            assert(self@.callsigns =~= before.insert(target, c@));
                            assert(callsign_moved(b@, post, m@, lo as int, target)) by {
                                assert(post[i as int] == bid);
                            }
                            assert forall|x: int|
                                0 <= x < i && #[trigger] m@[ids@[x]] >= lo implies m@[ids@[x]]
                                != target || ids@[x] == bid by {
                            }
                        }
                    },
                    None => {},
                }
            }
            proof {
                assert forall|k: i32|
                    callsign_moved(b@, post, m@, lo as int, k) <==> callsign_moved(b@, pre, m@, lo as int, k)
                        || (k == target && target >= lo && b@.callsigns.contains_key(bid)) by {
                    if callsign_moved(b@, post, m@, lo as int, k) {
                        let x = choose|x: int|
                            0 <= x < post.len() && #[trigger] m@[post[x]] == k && k >= lo
                                && b@.callsigns.contains_key(post[x]);
                        if x < i {
                            assert(pre[x] == post[x]);
                        }
                    }
                    if callsign_moved(b@, pre, m@, lo as int, k) {
                        let x = choose|x: int|
                            0 <= x < pre.len() && #[trigger] m@[pre[x]] == k && k >= lo
                                && b@.callsigns.contains_key(pre[x]);
                        assert(post[x] == pre[x]);
                    }
                    if k == target && target >= lo && b@.callsigns.contains_key(bid) {
                        assert(post[i as int] == bid);
                    }
                }
                assert forall|x: int|
                    0 <= x < i + 1 && #[trigger] m@[ids@[x]] >= lo && b@.callsigns.contains_key(ids@[x])
                        implies self@.callsigns[m@[ids@[x]]] == b@.callsigns[ids@[x]] by {
                    if x < i && ids@[x] != bid {
                        assert(m@[ids@[x]] != m@[ids@[i as int]]);
                    }
                }
            }
            i = i + 1;
        }
        assert(ids@.subrange(0, ids@.len() as int) =~= ids@);
    }
}

/// Why a merge is refused: the left flight is corrupted, or the right one
/// starts more than a second after the left one ends (`gap` is the right
/// start minus the left end).
pub open spec fn merge_refused(left: FlightView, gap: u32) -> bool {
    left.corrupted || lt(ONE, gap)
}

/// `k` is a fresh id (at or above `lo`) that `m` gives to a key of `dom`
/// which had a callsign in `b`.
pub open spec fn moved_callsign(b: FlightView, dom: Set<i32>, m: Map<i32, i32>, lo: int, k: i32) -> bool {
    exists|bk: i32| dom.contains(bk) && #[trigger] m[bk] == k && k >= lo && b.callsigns.contains_key(bk)
}

/// A feature event of the later flight, its feature renumbered by `fm`.
pub open spec fn renumbered(fm: Map<i32, i32>, e: FeatureEvent) -> FeatureEvent {
    FeatureEvent { feature_uid: fm[e.feature_uid], ..e }
}

/// `f` is `a` with `b` merged in, through the entity bindings `m` and the
/// feature bindings `fm`. Fresh entity ids are `lo..mid`, fresh feature ids
/// `mid..hi`, and every id of `a` is below `lo`.
pub open spec fn merged_as<D: Fn(Point, Point) -> u32>(
    a: FlightView,
    b: FlightView,
    distance: D,
    f: FlightView,
    m: Map<i32, i32>,
    fm: Map<i32, i32>,
    lo: int,
    mid: int,
    hi: int,
) -> bool {
    &&& ids_below(a, lo)
    &&& lo <= mid <= hi
    // entity bindings
    &&& m.dom() == b.entities.dom()
    &&& injective(m)
    &&& forall|k: i32| #[trigger]
        m.contains_key(k) ==> entity_binding_ok(a, b, distance, k, m[k], lo, mid)
    &&& forall|k: i32| #[trigger]
        m.contains_key(k) && m[k] < lo ==> nearest_free(a, b, distance, m, k)
    &&& forall|k: i32| #[trigger]
        m.contains_key(k) && m[k] >= lo ==> all_near_taken(a, b, distance, m, k)
    &&& forall|v: int| lo <= v < mid ==> #[trigger] fresh_used(m, v)
    // feature bindings
    &&& fm.dom() == b.features.dom()
    &&& forall|k: i32| #[trigger]
        fm.contains_key(k) ==> (a.features.contains_key(fm[k]) && same_configuration(
            a.features[fm[k]],
            b.features[k],
        )) || (mid <= fm[k] < hi)
    &&& fresh_distinct(fm, mid)
    &&& forall|v: int| mid <= v < hi ==> #[trigger] fresh_used(fm, v)
    // the merged contents
    &&& entities_spliced(a.entities, b.entities, m, f.entities)
    &&& features_inserted(a.features, b.features, fm, mid, f.features)
    &&& f.feature_events == a.feature_events + b.feature_events.map_values(
        |e: FeatureEvent| renumbered(fm, e),
    )
    &&& forall|k: i32| #[trigger]
        f.callsigns.contains_key(k) <==> a.callsigns.contains_key(k) || moved_callsign(
            b,
            b.entities.dom(),
            m,
            lo,
            k,
        ) || moved_callsign(b, b.features.dom(), fm, mid, k)
    &&& forall|bk: i32| #[trigger]
        b.entities.contains_key(bk) && m[bk] >= lo && b.callsigns.contains_key(bk) ==> f.callsigns[m[bk]]
            == b.callsigns[bk]
    &&& forall|bk: i32| #[trigger]
        b.features.contains_key(bk) && fm[bk] >= mid && b.callsigns.contains_key(bk) ==> f.callsigns[fm[bk]]
            == b.callsigns[bk]
    &&& forall|k: i32| #[trigger]
        a.callsigns.contains_key(k) && !moved_callsign(b, b.entities.dom(), m, lo, k)
            && !moved_callsign(b, b.features.dom(), fm, mid, k) ==> f.callsigns[k] == a.callsigns[k]
}

proof fn lemma_moved_over_keys(
    b: FlightView,
    ids: Seq<i32>,
    dom: Set<i32>,
    m: Map<i32, i32>,
    lo: int,
    k: i32,
)
    requires
        forall|x: int| 0 <= x < ids.len() ==> dom.contains(#[trigger] ids[x]),
        forall|kk: i32| dom.contains(kk) ==> ids.contains(kk),
    ensures
        callsign_moved(b, ids, m, lo, k) <==> moved_callsign(b, dom, m, lo, k),
{
    if callsign_moved(b, ids, m, lo, k) {
        let x = choose|x: int|
            0 <= x < ids.len() && #[trigger] m[ids[x]] == k && k >= lo && b.callsigns.contains_key(ids[x]);
        assert(dom.contains(ids[x]));
    }
    if moved_callsign(b, dom, m, lo, k) {
        let bk = choose|bk: i32| dom.contains(bk) && #[trigger] m[bk] == k && k >= lo && b.callsigns.contains_key(bk);
        assert(ids.contains(bk));
        let x = choose|x: int| 0 <= x < ids.len() && ids[x] == bk;
        assert(m[ids[x]] == k);
    }
}

impl Flight {
    /// Splices `next` into this flight when it continues it; returns whether
    /// it did. A differing time-of-day offset does not prevent the merge.
    ///
    /// The merged flight is described by [`merged_as`]: entities of `next`
    /// are bound as [`bind_entities`] binds them and their trails spliced
    /// in, new features inserted with their leads rebound, feature events
    /// renumbered and appended, callsigns carried to fresh ids.
    ///
    /// `minus` subtracts two floats given as bit patterns; `distance` is the
    /// Euclidean distance between two points, as a float bit pattern.
    pub fn merge<S: Fn(u32, u32) -> u32, D: Fn(Point, Point) -> u32>(
        &mut self,
        next: &Flight,
        minus: &S,
        distance: &D,
    ) -> (merged: bool)
        requires
            well_formed(old(self)@),
            well_formed(next@),
            is_function(*minus),
            measures(*distance),
            next@.entities.dom().len() + next@.features.dom().len() <= i32::MAX,
            ids_below(
                old(self)@,
                i32::MAX - next@.entities.dom().len() - next@.features.dom().len(),
            ),
        ensures
            merged == !merge_refused(
                old(self)@,
                (op_of(*minus))(next@.start_time, old(self)@.end_time),
            ),
            !merged ==> final(self)@ == old(self)@,
            merged ==> {
                let a = old(self)@;
                let f = final(self)@;
                &&& well_formed(f)
                &&& f.corrupted == (a.corrupted || next@.corrupted)
                &&& f.end_time == next@.end_time
                &&& f.start_time == a.start_time
                &&& f.tod_offset == a.tod_offset
                &&& f.general_events == a.general_events + next@.general_events
                &&& exists|m: Map<i32, i32>, fm: Map<i32, i32>, lo: int, mid: int, hi: int|
                    #[trigger] merged_as(a, next@, *distance, f, m, fm, lo, mid, hi)
                &&& forall|k: i32| #[trigger]
                    a.entities.contains_key(k) ==> f.entities.contains_key(k) && extends(
                        a.entities[k],
                        f.entities[k],
                    )
                &&& forall|k: i32| #[trigger]
                    a.features.contains_key(k) ==> f.features.contains_key(k) && f.features[k]
                        == a.features[k]
                &&& next@.entities.dom().len() == 0 && next@.features.dom().len() == 0 ==> {
                    &&& f.entities == a.entities
                    &&& f.features == a.features
                    &&& f.callsigns == a.callsigns
                }
            },
    {
        if self.corrupted {
            return false;
        }
        let gap = minus(next.start_time, self.end_time);
        if less_than(ONE, gap) {
            return false;
        }
        let ghost a = self@;
        let start_id = first_free_id(self);
        proof {
            if start_id != 0 {
                let k = choose|k: i32|
                    (self@.entities.contains_key(k) || self@.features.contains_key(k)) && start_id
                        == k + 1;
                if self@.entities.contains_key(k) {
                    assert(a.entities.contains_key(k));
                } else {
                    assert(a.features.contains_key(k));
                }
            }
        }
        let (em, after_entities) = bind_entities(self, next, distance, start_id);
        let (fm, after_features) = bind_features(self, next, after_entities);
        proof {
            assert(fresh_distinct(fm@, after_entities as int));
        }
        self.splice_entities(next, &em);
        let ghost s1 = self@;
        self.insert_features(next, &fm, after_entities);
        let ghost s2 = self@;
        self.push_feature_events(next, &fm);
        let ghost s3 = self@;
        let entity_ids = sorted_keys(&next.entities);
        proof {
            assert(next@.entities.dom() =~= next.entities@.dom());
            assert forall|x: int, y: int|
                0 <= x < entity_ids@.len() && 0 <= y < entity_ids@.len() && entity_ids@[x] != entity_ids@[y]
                    && #[trigger] em@[entity_ids@[x]] >= start_id implies em@[entity_ids@[x]]
                != #[trigger] em@[entity_ids@[y]] by {
                assert(em@.contains_key(entity_ids@[x]));
                assert(em@.contains_key(entity_ids@[y]));
            }
        }
        self.copy_callsigns(next, &entity_ids, &em, start_id);
        let ghost s4 = self@;
        let feature_ids = sorted_keys(&next.features);
        proof {
            assert forall|x: int, y: int|
                0 <= x < feature_ids@.len() && 0 <= y < feature_ids@.len() && feature_ids@[x]
                    != feature_ids@[y] && #[trigger] fm@[feature_ids@[x]] >= after_entities implies fm@[feature_ids@[x]]
                != #[trigger] fm@[feature_ids@[y]] by {
                assert(fm@.contains_key(feature_ids@[x]));
                assert(fm@.contains_key(feature_ids@[y]));
            }
        }
        self.copy_callsigns(next, &feature_ids, &fm, after_entities);
        let mut extra = next.general_events.clone();
        self.general_events.append(&mut extra);
        self.corrupted = self.corrupted || next.corrupted;
        self.end_time = next.end_time;
        proof {
            let f = self@;
            let b = next@;
            let lo = start_id as int;
            let mid = after_entities as int;
            let hi = after_features as int;
            assert(f.general_events =~= a.general_events + b.general_events);
            assert(f.entities == s1.entities);
            assert(f.features == s2.features);
            assert(f.feature_events == s3.feature_events);
            // feature events
            let evs = b.feature_events.map_values(|e: FeatureEvent| renumbered(fm@, e));
            assert forall|i: int| 0 <= i < f.feature_events.len() implies #[trigger] f.feature_events[i]
                == (a.feature_events + evs)[i] by {
                if i < a.feature_events.len() {
                    assert(f.feature_events[i] == s3.feature_events.subrange(0, a.feature_events.len() as int)[i]);
                } else {
                    let j = i - a.feature_events.len();
                    assert(f.feature_events[a.feature_events.len() + j] == renumbered(fm@, b.feature_events[j]));
                }
            }
            assert(f.feature_events =~= a.feature_events + evs);
            // callsigns
            assert forall|k: i32| #![auto]
                callsign_moved(b, entity_ids@, em@, lo, k) <==> moved_callsign(b, b.entities.dom(), em@, lo, k) by {
                lemma_moved_over_keys(b, entity_ids@, b.entities.dom(), em@, lo, k);
            }
            assert forall|k: i32| #![auto]
                callsign_moved(b, feature_ids@, fm@, mid, k) <==> moved_callsign(b, b.features.dom(), fm@, mid, k) by {
                lemma_moved_over_keys(b, feature_ids@, b.features.dom(), fm@, mid, k);
            }
            assert(s3.callsigns == a.callsigns);
            assert forall|bk: i32| #[trigger]
                b.entities.contains_key(bk) && em@[bk] >= lo && b.callsigns.contains_key(bk) implies f.callsigns[em@[bk]]
                == b.callsigns[bk] by {
                assert(entity_ids@.contains(bk));
                let x = choose|x: int| 0 <= x < entity_ids@.len() && entity_ids@[x] == bk;
                assert(s4.callsigns[em@[entity_ids@[x]]] == b.callsigns[entity_ids@[x]]);
                assert(em@.contains_key(bk));
                assert(em@[bk] < mid);
                assert(!moved_callsign(b, b.features.dom(), fm@, mid, em@[bk])) by {
                    if moved_callsign(b, b.features.dom(), fm@, mid, em@[bk]) {
                        let fk = choose|fk: i32| b.features.dom().contains(fk) && #[trigger] fm@[fk] == em@[bk]
                            && em@[bk] >= mid && b.callsigns.contains_key(fk);
                    }
                }
                assert(s4.callsigns.contains_key(em@[bk])) by {
                    assert(callsign_moved(b, entity_ids@, em@, lo, em@[bk]));
                }
                assert(!callsign_moved(b, feature_ids@, fm@, mid, em@[bk]));
            }
            assert forall|bk: i32| #[trigger]
                b.features.contains_key(bk) && fm@[bk] >= mid && b.callsigns.contains_key(bk) implies f.callsigns[fm@[bk]]
                == b.callsigns[bk] by {
                assert(feature_ids@.contains(bk));
                let x = choose|x: int| 0 <= x < feature_ids@.len() && feature_ids@[x] == bk;
                assert(f.callsigns[fm@[feature_ids@[x]]] == b.callsigns[feature_ids@[x]]);
            }
            assert forall|k: i32| #[trigger]
                a.callsigns.contains_key(k) && !moved_callsign(b, b.entities.dom(), em@, lo, k)
                    && !moved_callsign(b, b.features.dom(), fm@, mid, k) implies f.callsigns[k] == a.callsigns[k] by {
                assert(!callsign_moved(b, entity_ids@, em@, lo, k));
                assert(!callsign_moved(b, feature_ids@, fm@, mid, k));
                assert(s4.callsigns.contains_key(k));
            }
            assert forall|k: i32| #[trigger]
                f.callsigns.contains_key(k) <==> a.callsigns.contains_key(k) || moved_callsign(
                    b,
                    b.entities.dom(),
                    em@,
                    lo,
                    k,
                ) || moved_callsign(b, b.features.dom(), fm@, mid, k) by {
                assert(f.callsigns.contains_key(k) <==> s4.callsigns.contains_key(k)
                    || callsign_moved(b, feature_ids@, fm@, mid, k));
                assert(s4.callsigns.contains_key(k) <==> s3.callsigns.contains_key(k)
                    || callsign_moved(b, entity_ids@, em@, lo, k));
            }
            assert(merged_as(a, b, *distance, f, em@, fm@, lo, mid, hi));
            // well formed
            assert forall|i: int|
                0 <= i < f.feature_events.len() implies f.features.contains_key(
                #[trigger] f.feature_events[i].feature_uid,
            ) by {
                if i < a.feature_events.len() {
                    assert(f.feature_events[i] == a.feature_events[i]);
                    assert(a.features.contains_key(a.feature_events[i].feature_uid));
                } else {
                    let j = i - a.feature_events.len();
                    assert(f.feature_events[i] == evs[j]);
                    let bk = b.feature_events[j].feature_uid;
                    assert(b.features.contains_key(bk));
                    assert(fm@.contains_key(bk));
                }
            }
            assert(well_formed(f));
            // the earlier flight's entities and features stay
            assert forall|k: i32| #[trigger] a.entities.contains_key(k) implies f.entities.contains_key(k)
                && extends(a.entities[k], f.entities[k]) by {
                let u = a.entities[k].position->Some_0.updates;
                if exists|bk: i32| b.entities.contains_key(bk) && #[trigger] em@[bk] == k {
                    let bk = choose|bk: i32| b.entities.contains_key(bk) && #[trigger] em@[bk] == k;
                    let nu = f.entities[k].position->Some_0.updates;
                    assert(nu =~= u + rebound(em@, b.entities[bk].position->Some_0.updates));
                    assert(nu.subrange(0, u.len() as int) =~= u);
                } else {
                    assert(u.subrange(0, u.len() as int) =~= u);
                }
            }
            if b.entities.dom().len() == 0 {
                assert forall|bk: i32| !b.entities.contains_key(bk) by {
                    if b.entities.contains_key(bk) {
                        assert(b.entities.dom().contains(bk));
                    }
                }
                assert(f.entities =~= a.entities);
            }
            if b.features.dom().len() == 0 {
                assert forall|bk: i32| !b.features.contains_key(bk) by {
                    if b.features.contains_key(bk) {
                        assert(b.features.dom().contains(bk));
                    }
                }
                assert(f.features =~= a.features);
            }
            if b.entities.dom().len() == 0 && b.features.dom().len() == 0 {
                assert forall|k: i32| !moved_callsign(b, b.entities.dom(), em@, lo, k)
                    && !moved_callsign(b, b.features.dom(), fm@, mid, k) by {
                    assert forall|bk: i32| !b.entities.dom().contains(bk) by {
                        if b.entities.dom().contains(bk) {
                            assert(b.entities.contains_key(bk));
                        }
                    }
                    assert forall|bk: i32| !b.features.dom().contains(bk) by {
                        if b.features.dom().contains(bk) {
                            assert(b.features.contains_key(bk));
                        }
                    }
                }
                assert(f.callsigns =~= a.callsigns);
            }
        }
        true
    }
}

} // verus!
