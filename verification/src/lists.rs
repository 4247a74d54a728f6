//! Searching sequences.

use vstd::prelude::*;

verus! {

/// Place of the first element from `at` on that satisfies `p`, or the length.
pub open spec fn first_where<A>(s: Seq<A>, p: spec_fn(A) -> bool, at: int) -> int
    decreases s.len() - at,
{
    if at >= s.len() {
        s.len() as int
    } else if p(s[at]) {
        at
    } else {
        first_where(s, p, at + 1)
    }
}

/// The place found is the first one.
pub proof fn lemma_first_where<A>(s: Seq<A>, p: spec_fn(A) -> bool, at: int)
    requires
        0 <= at <= s.len(),
    ensures
        at <= first_where(s, p, at) <= s.len(),
        first_where(s, p, at) < s.len() ==> p(s[first_where(s, p, at)]),
        forall|i: int| at <= i < first_where(s, p, at) ==> !p(#[trigger] s[i]),
    decreases s.len() - at,
{
    if at < s.len() && !p(s[at]) {
        lemma_first_where(s, p, at + 1);
    }
}

/// Whether some element satisfies `p`.
pub open spec fn any_where<A>(s: Seq<A>, p: spec_fn(A) -> bool) -> bool {
    first_where(s, p, 0) < s.len()
}

/// If any element satisfies `p` the search finds one that is not behind it.
pub proof fn lemma_finds<A>(s: Seq<A>, p: spec_fn(A) -> bool, i: int)
    requires
        0 <= i < s.len(),
        p(s[i]),
    ensures
        first_where(s, p, 0) <= i,
        any_where(s, p),
{
    lemma_first_where(s, p, 0);
}

} // verus!
