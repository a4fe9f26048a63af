use vstd::prelude::*;

verus! {

/// Appending a value that a duplicate-free sequence lacks keeps it
/// duplicate-free and adds the value to its set.
pub proof fn lemma_push_unique(s: Seq<usize>, x: usize)
    requires
        s.no_duplicates(),
        !s.to_set().contains(x),
    ensures
        s.push(x).no_duplicates(),
        s.push(x).to_set() == s.to_set().insert(x),
{
    let t = s.push(x);
    assert forall|i: int, j: int| 0 <= i < t.len() && 0 <= j < t.len() && i != j implies t[i]
        != t[j] by {
        if i == s.len() {
            assert(s.to_set().contains(s[j]));
        } else if j == s.len() {
            assert(s.to_set().contains(s[i]));
        }
    }
    assert forall|y: usize| t.to_set().contains(y) <==> s.to_set().insert(x).contains(y) by {
        if t.to_set().contains(y) {
            let i = choose|i: int| 0 <= i < t.len() && t[i] == y;
            if i < s.len() {
                assert(s[i] == y);
                assert(s.to_set().contains(y));
            }
        }
        if s.to_set().contains(y) {
            let i = choose|i: int| 0 <= i < s.len() && s[i] == y;
            assert(t[i] == y);
        }
        if y == x {
            assert(t[s.len() as int] == x);
        }
    }
    assert(t.to_set() =~= s.to_set().insert(x));
}

/// The set of a duplicate-free sequence is finite and as large as the
/// sequence is long.
pub proof fn lemma_unique_len(s: Seq<usize>)
    requires
        s.no_duplicates(),
    ensures
        s.to_set().finite(),
        s.to_set().len() == s.len(),
{
    s.unique_seq_to_set();
    vstd::seq_lib::seq_to_set_is_finite(s);
}

} // verus!
