//! Output file naming.
use vstd::prelude::*;

verus! {

/// Index of the first `.` in `name`, or its length when there is none.
pub open spec fn stem_len(name: Seq<u8>) -> int
    decreases name.len(),
{
    if name.len() == 0 {
        0
    } else if name[0] == 0x2E {
        0
    } else {
        1 + stem_len(name.subrange(1, name.len() as int))
    }
}

proof fn lemma_stem_len(name: Seq<u8>, i: int)
    requires
        0 <= i <= name.len(),
        forall|j: int| 0 <= j < i ==> name[j] != 0x2E,
        i == name.len() || name[i] == 0x2E,
    ensures
        stem_len(name) == i,
    decreases i,
{
    if i > 0 {
        let rest = name.subrange(1, name.len() as int);
        lemma_stem_len(rest, i - 1);
    }
}

/// The tape file name for a recording's file name: every extension replaced
/// by `.vhs` (`a.b.flt` gives `a.vhs`).
pub fn output_name(name: &[u8]) -> (r: Vec<u8>)
    ensures
        r@ == name@.subrange(0, stem_len(name@)) + seq![0x2Eu8, 0x76u8, 0x68u8, 0x73u8],
{
    let mut r: Vec<u8> = Vec::new();
    let mut i: usize = 0;
    while i < name.len() && name[i] != 0x2E
        invariant
            i <= name@.len(),
            forall|j: int| 0 <= j < i ==> name@[j] != 0x2E,
            r@ == name@.subrange(0, i as int),
        decreases name@.len() - i,
    {
        r.push(name[i]);
        i = i + 1;
        assert(r@ =~= name@.subrange(0, i as int));
    }
    proof {
        lemma_stem_len(name@, i as int);
    }
    r.push(0x2E);
    r.push(0x76);
    r.push(0x68);
    r.push(0x73);
    assert(r@ =~= name@.subrange(0, stem_len(name@)) + seq![0x2Eu8, 0x76u8, 0x68u8, 0x73u8]);
    r
}

} // verus!
