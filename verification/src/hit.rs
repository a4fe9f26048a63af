use vstd::prelude::*;

verus! {

/// The first of the candidates that was hit: each candidate comes with the
/// outcome of its own hit test, and the sequence of the candidates decides
/// among those that were hit.
pub open spec fn first_hit_of(candidates: Seq<(usize, bool)>) -> Option<usize>
    decreases candidates.len(),
{
    if candidates.len() == 0 {
        None
    } else if candidates[0].1 {
        Some(candidates[0].0)
    } else {
        first_hit_of(candidates.drop_first())
    }
}

/// Where several nodes, or several edges, lie under the pointer, the first
/// in the sequence of the candidates wins.
pub fn first_hit(candidates: &Vec<(usize, bool)>) -> (r: Option<usize>)
    ensures
        r == first_hit_of(candidates@),
{
    let mut i: usize = 0;
    proof {
        assert(candidates@.skip(0) =~= candidates@);
    }
    while i < candidates.len()
        invariant
            i <= candidates.len(),
            first_hit_of(candidates@) == first_hit_of(candidates@.skip(i as int)),
        decreases candidates.len() - i,
    {
        if candidates[i].1 {
            return Some(candidates[i].0);
        }
        proof {
            assert(candidates@.skip(i as int).drop_first() =~= candidates@.skip(i + 1));
        }
        i = i + 1;
    }
    None
}

/// A hit test names a candidate that was hit, and none where none was hit.
pub proof fn lemma_first_hit(candidates: Seq<(usize, bool)>)
    ensures
        match first_hit_of(candidates) {
            Some(idx) => exists|i: int|
                0 <= i < candidates.len() && #[trigger] candidates[i] == (idx, true),
            None => forall|i: int| 0 <= i < candidates.len() ==> !(#[trigger] candidates[i]).1,
        },
    decreases candidates.len(),
{
    if candidates.len() > 0 && !candidates[0].1 {
        let rest = candidates.drop_first();
        lemma_first_hit(rest);
        match first_hit_of(rest) {
            Some(idx) => {
                let i = choose|i: int| 0 <= i < rest.len() && #[trigger] rest[i] == (idx, true);
                assert(candidates[i + 1] == (idx, true));
            },
            None => {
                assert forall|i: int| 0 <= i < candidates.len() implies !(
                #[trigger] candidates[i]).1 by {
                    if i > 0 {
                        assert(!rest[i - 1].1);
                    }
                }
            },
        }
    } else if candidates.len() > 0 {
        assert(candidates[0] == (candidates[0].0, true));
    }
}

} // verus!
