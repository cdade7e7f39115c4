//! Output ids: dense, with the ids that have callsigns first.
//!
//! Ids are ordered by (has a callsign first, entities before features,
//! original id); an id's output value is its position in that order. The
//! ids with callsigns then occupy `0..K`, and the callsign table needs no
//! gaps.
use crate::flight::{sorted_keys, CallsignRecord, Flight};
use std::collections::BTreeMap;
use vstd::prelude::*;

verus! {

/// An id of the recording and the id written for it.
#[derive(Debug, Clone, Copy, PartialEq, Eq)]
pub struct IdRemap {
    pub original: i32,
    pub new: i32,
}

/// The output ids of a flight's entities and features, and the ids whose
/// callsigns fill the callsign table, in output order.
#[derive(Debug, Clone, PartialEq, Eq)]
pub struct IdMapping {
    pub entities: Vec<IdRemap>,
    pub features: Vec<IdRemap>,
    pub callsign_ids: Vec<i32>,
}

/// The original ids of the remaps from index `from` on.
pub open spec fn originals(s: Seq<IdRemap>, from: int) -> Seq<i32> {
    s.subrange(from, s.len() as int).map_values(|r: IdRemap| r.original)
}

/// Whether an id's callsign presence is `with_callsign`.
pub open spec fn callsign_is(cs: Map<i32, CallsignRecord>, with_callsign: bool) -> spec_fn(
    i32,
) -> bool {
    |k: i32| cs.contains_key(k) == with_callsign
}

/// Appends, in key order, the keys whose callsign presence is `with_callsign`,
/// numbering them from `*next`.
fn number_pass(
    keys: &Vec<i32>,
    with_callsign: bool,
    callsigns: &BTreeMap<i32, CallsignRecord>,
    out: &mut Vec<IdRemap>,
    callsign_ids: &mut Vec<i32>,
    next: &mut i32,
)
    requires
        *old(next) + keys@.filter(callsign_is(callsigns@, with_callsign)).len() <= i32::MAX,
        *old(next) >= 0,
        with_callsign ==> old(callsign_ids)@.len() == *old(next),
    ensures
        final(out)@.len() == old(out)@.len() + (*final(next) - *old(next)),
        *old(next) <= *final(next),
        final(out)@.subrange(0, old(out)@.len() as int) == old(out)@,
        originals(final(out)@, old(out)@.len() as int) == keys@.filter(
            callsign_is(callsigns@, with_callsign),
        ),
        forall|j: int|
            old(out)@.len() <= j < final(out)@.len() ==> (#[trigger] final(out)@[j]).new == *old(next)
                + (j - old(out)@.len()),
        with_callsign ==> final(callsign_ids)@.len() == *final(next),
        with_callsign ==> final(callsign_ids)@.subrange(0, *old(next) as int) == old(callsign_ids)@,
        with_callsign ==> forall|j: int|
            old(out)@.len() <= j < final(out)@.len() ==> final(callsign_ids)@[final(out)@[j].new as int]
                == (#[trigger] final(out)@[j]).original,
        !with_callsign ==> final(callsign_ids)@ == old(callsign_ids)@,
        with_callsign ==> final(callsign_ids)@.subrange(*old(next) as int, *final(next) as int)
            == originals(final(out)@, old(out)@.len() as int),
{
    let n0 = out.len();
    let start = *next;
    let ghost pred = callsign_is(callsigns@, with_callsign);
    let mut i: usize = 0;
    while i < keys.len()
        invariant
            pred == callsign_is(callsigns@, with_callsign),
            start + keys@.filter(pred).len() <= i32::MAX,
            start >= 0,
            n0 == old(out)@.len(),
            start == *old(next),
            i <= keys@.len(),
            out@.len() == n0 + (*next - start),
            start <= *next,
            originals(out@, n0 as int).len() <= i,
            out@.subrange(0, n0 as int) == old(out)@,
            originals(out@, n0 as int) == keys@.subrange(0, i as int).filter(pred),
            forall|j: int| n0 <= j < out@.len() ==> (#[trigger] out@[j]).new == start + (j - n0),
            with_callsign ==> callsign_ids@.len() == *next,
            with_callsign ==> callsign_ids@.subrange(0, start as int) == old(callsign_ids)@,
            with_callsign ==> forall|j: int|
                n0 <= j < out@.len() ==> callsign_ids@[out@[j].new as int]
                    == (#[trigger] out@[j]).original,
            !with_callsign ==> callsign_ids@ == old(callsign_ids)@,
            with_callsign ==> callsign_ids@.subrange(start as int, *next as int) == originals(
                out@,
                n0 as int,
            ),
        decreases keys@.len() - i,
    {
        let k = keys[i];
        let ghost prev_out = out@;
        let ghost prev_ids = callsign_ids@;
        proof {
            assert(keys@.subrange(0, i + 1) =~= keys@.subrange(0, i as int).push(k));
            keys@.subrange(0, i as int).lemma_filter_push(k, pred);
            assert(keys@.take(i + 1) == keys@.subrange(0, i + 1));
            keys@.lemma_filter_take_len(pred, i + 1);
        }
        if callsigns.contains_key(&k) == with_callsign {
            out.push(IdRemap { original: k, new: *next });
            if with_callsign {
                callsign_ids.push(k);
            }
            *next = *next + 1;
            proof {
                assert(out@.subrange(0, n0 as int) =~= prev_out.subrange(0, n0 as int));
                assert(originals(out@, n0 as int) =~= originals(prev_out, n0 as int).push(k));
                if with_callsign {
                    assert(callsign_ids@.subrange(0, start as int) =~= prev_ids.subrange(
                        0,
                        start as int,
                    ));
                    assert(callsign_ids@.subrange(start as int, *next as int) =~= prev_ids.subrange(
                        start as int,
                        *next - 1,
                    ).push(k));
                }
            }
        }
        i = i + 1;
    }
    proof {
        assert(keys@.subrange(0, keys@.len() as int) =~= keys@);
    }
}

proof fn lemma_filter_split(s: Seq<i32>, cs: Map<i32, CallsignRecord>)
    ensures
        s.filter(callsign_is(cs, true)).len() + s.filter(callsign_is(cs, false)).len() == s.len(),
    decreases s.len(),
{
    if s.len() > 0 {
        let rest = s.drop_last();
        lemma_filter_split(rest, cs);
        rest.lemma_filter_push(s.last(), callsign_is(cs, true));
        rest.lemma_filter_push(s.last(), callsign_is(cs, false));
        assert(rest.push(s.last()) =~= s);
    } else {
        reveal(Seq::filter);
    }
}

/// Facts about one numbered part: where its remaps sit and what they hold.
proof fn lemma_part(
    out: Seq<IdRemap>,
    lo: int,
    hi: int,
    keys: Seq<i32>,
    cs: Map<i32, CallsignRecord>,
    with_callsign: bool,
)
    requires
        0 <= lo <= hi <= out.len(),
        out.subrange(lo, hi).map_values(|r: IdRemap| r.original) == keys.filter(
            callsign_is(cs, with_callsign),
        ),
    ensures
        forall|j: int|
            lo <= j < hi ==> keys.contains((#[trigger] out[j]).original) && cs.contains_key(
                out[j].original,
            ) == with_callsign,
        forall|x: int|
            0 <= x < keys.len() && cs.contains_key(#[trigger] keys[x]) == with_callsign ==> exists|
                j: int,
            | lo <= j < hi && out[j].original == keys[x],
{
    broadcast use Seq::lemma_filter_contains_rev, Seq::lemma_filter_pred;

    let p = callsign_is(cs, with_callsign);
    let part = out.subrange(lo, hi).map_values(|r: IdRemap| r.original);
    assert forall|j: int| lo <= j < hi implies keys.contains((#[trigger] out[j]).original)
        && cs.contains_key(out[j].original) == with_callsign by {
        assert(part[j - lo] == out[j].original);
        assert(keys.filter(p).contains(out[j].original));
        assert(p(keys.filter(p)[j - lo]));
    }
    assert forall|x: int|
        0 <= x < keys.len() && cs.contains_key(#[trigger] keys[x]) == with_callsign implies exists|
            j: int,
        | lo <= j < hi && out[j].original == keys[x] by {
        keys.lemma_filter_contains(p, x);
        let y = choose|y: int| 0 <= y < part.len() && part[y] == keys[x];
        assert(out[lo + y].original == keys[x]);
    }
}

proof fn lemma_filter_increasing(s: Seq<i32>, p: spec_fn(i32) -> bool)
    requires
        forall|i: int, j: int| 0 <= i < j < s.len() ==> s[i] < s[j],
    ensures
        forall|i: int, j: int| 0 <= i < j < s.filter(p).len() ==> s.filter(p)[i] < s.filter(p)[j],
    decreases s.len(),
{
    if s.len() > 0 {
        let r = s.drop_last();
        lemma_filter_increasing(r, p);
        r.lemma_filter_push(s.last(), p);
        assert(r.push(s.last()) =~= s);
        assert forall|i: int| 0 <= i < r.filter(p).len() implies r.filter(p)[i] < s.last() by {
            assert(r.filter(p).contains(r.filter(p)[i]));
            r.lemma_filter_contains_rev(p, r.filter(p)[i]);
            let x = choose|x: int| 0 <= x < r.len() && r[x] == r.filter(p)[i];
            assert(s[x] < s[s.len() - 1]);
        }
    } else {
        reveal(Seq::filter);
    }
}

/// Within one numbered part the original ids ascend.
proof fn lemma_part_increasing(
    out: Seq<IdRemap>,
    lo: int,
    hi: int,
    keys: Seq<i32>,
    cs: Map<i32, CallsignRecord>,
    with_callsign: bool,
)
    requires
        0 <= lo <= hi <= out.len(),
        out.subrange(lo, hi).map_values(|r: IdRemap| r.original) == keys.filter(
            callsign_is(cs, with_callsign),
        ),
        forall|i: int, j: int| 0 <= i < j < keys.len() ==> keys[i] < keys[j],
    ensures
        forall|x: int, y: int| lo <= x < y < hi ==> out[x].original < out[y].original,
{
    let p = callsign_is(cs, with_callsign);
    lemma_filter_increasing(keys, p);
    let part = out.subrange(lo, hi).map_values(|r: IdRemap| r.original);
    assert forall|x: int, y: int| lo <= x < y < hi implies out[x].original < out[y].original by {
        assert(part[x - lo] == out[x].original);
        assert(part[y - lo] == out[y].original);
    }
}

/// Output id `v` is given to some entity or feature.
pub open spec fn id_given(m: IdMapping, v: int) -> bool {
    (exists|j: int| 0 <= j < m.entities@.len() && #[trigger] m.entities@[j].new == v) || (exists|
        j: int,
    | 0 <= j < m.features@.len() && #[trigger] m.features@[j].new == v)
}

/// The remaps of one kind of id: every id of `dom` appears, only those,
/// and whether its output id is below `k` says whether it has a callsign.
pub open spec fn covers(
    remaps: Seq<IdRemap>,
    dom: Set<i32>,
    cs: Map<i32, CallsignRecord>,
    callsign_ids: Seq<i32>,
) -> bool {
    &&& remaps.len() == dom.len()
    &&& forall|j: int| 0 <= j < remaps.len() ==> dom.contains(#[trigger] remaps[j].original)
    &&& forall|k: i32| dom.contains(k) ==> exists|j: int|
        0 <= j < remaps.len() && #[trigger] remaps[j].original == k
    &&& forall|j: int|
        0 <= j < remaps.len() ==> (#[trigger] remaps[j].new < callsign_ids.len()
            <==> cs.contains_key(remaps[j].original))
    &&& forall|j: int|
        0 <= j < remaps.len() && #[trigger] remaps[j].new < callsign_ids.len() ==> callsign_ids[remaps[j].new as int]
            == remaps[j].original
    &&& forall|j: int| 0 <= j < remaps.len() ==> 0 <= #[trigger] remaps[j].new
    &&& forall|a: int, b: int|
        0 <= a < b < remaps.len() ==> #[trigger] remaps[a].new < #[trigger] remaps[b].new
}

impl IdMapping {
    /// Numbers the ids of `flight`: those with a callsign first, entities
    /// before features, each group by original id.
    pub fn new(flight: &Flight) -> (m: IdMapping)
        requires
            flight@.entities.dom().len() + flight@.features.dom().len() <= i32::MAX,
        ensures
            covers(m.entities@, flight@.entities.dom(), flight.callsigns@, m.callsign_ids@),
            covers(m.features@, flight@.features.dom(), flight.callsigns@, m.callsign_ids@),
            forall|a: int, b: int|
                0 <= a < m.entities@.len() && 0 <= b < m.features@.len() ==> #[trigger] m.entities@[a].new
                    != #[trigger] m.features@[b].new,
            forall|j: int|
                0 <= j < m.entities@.len() ==> #[trigger] m.entities@[j].new < m.entities@.len()
                    + m.features@.len(),
            forall|j: int|
                0 <= j < m.features@.len() ==> #[trigger] m.features@[j].new < m.entities@.len()
                    + m.features@.len(),
            forall|j: int|
                0 <= j < m.callsign_ids@.len() ==> flight.callsigns@.contains_key(
                    #[trigger] m.callsign_ids@[j],
                ),
            m.callsign_ids@.len() <= m.entities@.len() + m.features@.len(),
            forall|v: int| 0 <= v < m.entities@.len() + m.features@.len() ==> #[trigger] id_given(m, v),
            forall|a: int, b: int|
                0 <= a < b < m.entities@.len() && flight.callsigns@.contains_key(m.entities@[a].original)
                    == flight.callsigns@.contains_key(m.entities@[b].original) ==> #[trigger] m.entities@[a].original
                    < #[trigger] m.entities@[b].original,
            forall|a: int, b: int|
                0 <= a < b < m.features@.len() && flight.callsigns@.contains_key(m.features@[a].original)
                    == flight.callsigns@.contains_key(m.features@[b].original) ==> #[trigger] m.features@[a].original
                    < #[trigger] m.features@[b].original,
            forall|a: int, b: int|
                0 <= a < m.entities@.len() && 0 <= b < m.features@.len()
                    && flight.callsigns@.contains_key(m.entities@[a].original)
                    == flight.callsigns@.contains_key(m.features@[b].original) ==> #[trigger] m.entities@[a].new
                    < #[trigger] m.features@[b].new,
    {
        let ek = sorted_keys(&flight.entities);
        let fk = sorted_keys(&flight.features);
        assert(flight@.entities.dom() =~= flight.entities@.dom());
        let ghost cs = flight.callsigns@;
        proof {
            lemma_filter_split(ek@, cs);
            lemma_filter_split(fk@, cs);
            ek@.lemma_filter_len(callsign_is(cs, true));
            fk@.lemma_filter_len(callsign_is(cs, true));
        }
        let mut entities: Vec<IdRemap> = Vec::new();
        let mut features: Vec<IdRemap> = Vec::new();
        let mut callsign_ids: Vec<i32> = Vec::new();
        let mut next: i32 = 0;
        number_pass(&ek, true, &flight.callsigns, &mut entities, &mut callsign_ids, &mut next);
        let ghost e1 = entities@;
        let a = next;
        number_pass(&fk, true, &flight.callsigns, &mut features, &mut callsign_ids, &mut next);
        let ghost f1 = features@;
        let ghost c1 = callsign_ids@;
        let k = next;
        number_pass(&ek, false, &flight.callsigns, &mut entities, &mut callsign_ids, &mut next);
        let b = next;
        number_pass(&fk, false, &flight.callsigns, &mut features, &mut callsign_ids, &mut next);
        proof {
            let ne = entities@.len() as int;
            let nf = features@.len() as int;
            let e1n = e1.len() as int;
            let f1n = f1.len() as int;
            assert(callsign_ids@ == c1);
            assert forall|j: int| 0 <= j < c1.len() implies cs.contains_key(#[trigger] c1[j]) by {
                let p = callsign_is(cs, true);
                if j < a {
                    assert(c1.subrange(0, a as int)[j] == c1[j]);
                    assert(originals(e1, 0)[j] == c1[j]);
                    ek@.lemma_filter_pred(p, j);
                } else {
                    assert(c1.subrange(a as int, k as int)[j - a] == c1[j]);
                    assert(originals(f1, 0)[j - a] == c1[j]);
                    fk@.lemma_filter_pred(p, j - a);
                }
            }
            assert(entities@.subrange(0, e1n) == e1);
            assert(features@.subrange(0, f1n) == f1);
            assert(e1.subrange(0, e1n) =~= e1);
            assert(f1.subrange(0, f1n) =~= f1);
            assert(entities@.subrange(0, e1n).map_values(|r: IdRemap| r.original) == originals(
                e1,
                0,
            ));
            assert(features@.subrange(0, f1n).map_values(|r: IdRemap| r.original) == originals(
                f1,
                0,
            ));
            lemma_part(entities@, 0, e1n, ek@, cs, true);
            lemma_part(entities@, e1n, ne, ek@, cs, false);
            lemma_part(features@, 0, f1n, fk@, cs, true);
            lemma_part(features@, f1n, nf, fk@, cs, false);
            lemma_part_increasing(entities@, 0, e1n, ek@, cs, true);
            lemma_part_increasing(entities@, e1n, ne, ek@, cs, false);
            lemma_part_increasing(features@, 0, f1n, fk@, cs, true);
            lemma_part_increasing(features@, f1n, nf, fk@, cs, false);
            assert forall|j: int| 0 <= j < e1n implies (#[trigger] entities@[j]).new == j by {
                assert(entities@[j] == e1[j]);
            }
            assert forall|j: int| 0 <= j < f1n implies (#[trigger] features@[j]).new == a + j by {
                assert(features@[j] == f1[j]);
            }
            assert forall|j: int|
                0 <= j < e1n implies callsign_ids@[(#[trigger] entities@[j]).new as int]
                == entities@[j].original by {
                assert(entities@[j] == e1[j]);
            }
            assert forall|j: int|
                0 <= j < f1n implies callsign_ids@[(#[trigger] features@[j]).new as int]
                == features@[j].original by {
                assert(features@[j] == f1[j]);
            }
            let m = IdMapping { entities, features, callsign_ids };
            assert forall|v: int| 0 <= v < ne + nf implies #[trigger] id_given(m, v) by {
                if v < a {
                    assert(m.entities@[v].new == v);
                } else if v < k {
                    assert(m.features@[v - a].new == v);
                } else if v < b {
                    assert(m.entities@[e1n + (v - k)].new == v);
                } else {
                    assert(m.features@[f1n + (v - b)].new == v);
                }
            }
            assert forall|kk: i32| flight@.entities.dom().contains(kk) implies exists|j: int|
                0 <= j < entities@.len() && #[trigger] entities@[j].original == kk by {
                assert(ek@.contains(kk));
                let x = choose|x: int| 0 <= x < ek@.len() && ek@[x] == kk;
                if cs.contains_key(ek@[x]) {
                } else {
                }
            }
            assert forall|kk: i32| flight@.features.dom().contains(kk) implies exists|j: int|
                0 <= j < features@.len() && #[trigger] features@[j].original == kk by {
                assert(fk@.contains(kk));
                let x = choose|x: int| 0 <= x < fk@.len() && fk@[x] == kk;
                if cs.contains_key(fk@[x]) {
                } else {
                }
            }
            assert forall|j: int| 0 <= j < entities@.len() implies flight@.entities.dom().contains(
                #[trigger] entities@[j].original,
            ) by {
                let kk = entities@[j].original;
                assert(ek@.contains(kk));
            }
            assert forall|j: int| 0 <= j < features@.len() implies flight@.features.dom().contains(
                #[trigger] features@[j].original,
            ) by {
                let kk = features@[j].original;
                assert(fk@.contains(kk));
            }
        }
        IdMapping { entities, features, callsign_ids }
    }
}

} // verus!
