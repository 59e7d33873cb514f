//! Reachability along an abstract edge relation over task ids.
//!
//! The scheduler uses this twice: to detect whether declared dependencies
//! would close a cycle through a task about to be registered, and to find
//! every task that a cancellation dooms transitively.
use vstd::prelude::*;

verus! {

/// `a` reaches `b` in at most `n` steps along edges of `e`.
pub open spec fn reach_n(e: spec_fn(usize, usize) -> bool, a: usize, b: usize, n: nat) -> bool
    decreases n,
{
    a == b || (n > 0 && exists|m: usize| #[trigger] e(a, m) && reach_n(e, m, b, (n - 1) as nat))
}

/// `a` reaches `b` in some number of steps along edges of `e`.
pub open spec fn reaches(e: spec_fn(usize, usize) -> bool, a: usize, b: usize) -> bool {
    exists|n: nat| reach_n(e, a, b, n)
}

/// Reaching is reflexive.
pub proof fn lemma_reach_refl(e: spec_fn(usize, usize) -> bool, a: usize)
    ensures
        reaches(e, a, a),
{
    assert(reach_n(e, a, a, 0));
}

proof fn lemma_reach_n_extend(e: spec_fn(usize, usize) -> bool, a: usize, m: usize, b: usize, n: nat)
    requires
        reach_n(e, a, m, n),
        e(m, b),
    ensures
        reach_n(e, a, b, n + 1),
    decreases n,
{
    if a == m {
        assert(reach_n(e, b, b, n));
        assert(e(a, b));
    } else {
        let m1 = choose|m1: usize| #[trigger] e(a, m1) && reach_n(e, m1, m, (n - 1) as nat);
        lemma_reach_n_extend(e, m1, m, b, (n - 1) as nat);
        assert(e(a, m1) && reach_n(e, m1, b, n));
    }
}

/// A path can be extended by one more edge at its end.
pub proof fn lemma_reach_extend(e: spec_fn(usize, usize) -> bool, a: usize, m: usize, b: usize)
    requires
        reaches(e, a, m),
        e(m, b),
    ensures
        reaches(e, a, b),
{
    let n = choose|n: nat| reach_n(e, a, m, n);
    lemma_reach_n_extend(e, a, m, b, n);
}

/// A path can be extended by one more edge at its start.
pub proof fn lemma_reach_cons(e: spec_fn(usize, usize) -> bool, a: usize, m: usize, b: usize)
    requires
        e(a, m),
        reaches(e, m, b),
    ensures
        reaches(e, a, b),
{
    let n = choose|n: nat| reach_n(e, m, b, n);
    assert(reach_n(e, a, b, n + 1));
}

proof fn lemma_reach_n_trans(e: spec_fn(usize, usize) -> bool, a: usize, b: usize, c: usize, n: nat)
    requires
        reach_n(e, a, b, n),
        reaches(e, b, c),
    ensures
        reaches(e, a, c),
    decreases n,
{
    if a != b {
        let m = choose|m: usize| #[trigger] e(a, m) && reach_n(e, m, b, (n - 1) as nat);
        lemma_reach_n_trans(e, m, b, c, (n - 1) as nat);
        lemma_reach_cons(e, a, m, c);
    }
}

/// Paths concatenate.
pub proof fn lemma_reach_trans(e: spec_fn(usize, usize) -> bool, a: usize, b: usize, c: usize)
    requires
        reaches(e, a, b),
        reaches(e, b, c),
    ensures
        reaches(e, a, c),
{
    let n = choose|n: nat| reach_n(e, a, b, n);
    lemma_reach_n_trans(e, a, b, c, n);
}

proof fn lemma_reach_n_congruence(
    e1: spec_fn(usize, usize) -> bool,
    e2: spec_fn(usize, usize) -> bool,
    a: usize,
    b: usize,
    n: nat,
)
    requires
        forall|x: usize, y: usize| #[trigger] e1(x, y) ==> e2(x, y),
        reach_n(e1, a, b, n),
    ensures
        reach_n(e2, a, b, n),
    decreases n,
{
    if a != b {
        let m = choose|m: usize| #[trigger] e1(a, m) && reach_n(e1, m, b, (n - 1) as nat);
        lemma_reach_n_congruence(e1, e2, m, b, (n - 1) as nat);
        assert(e2(a, m) && reach_n(e2, m, b, (n - 1) as nat));
    }
}

/// Reachability only depends on which edges hold.
pub proof fn lemma_reach_congruence(
    e1: spec_fn(usize, usize) -> bool,
    e2: spec_fn(usize, usize) -> bool,
    a: usize,
    b: usize,
)
    requires
        forall|x: usize, y: usize| #[trigger] e1(x, y) ==> e2(x, y),
        reaches(e1, a, b),
    ensures
        reaches(e2, a, b),
{
    let n = choose|n: nat| reach_n(e1, a, b, n);
    lemma_reach_n_congruence(e1, e2, a, b, n);
}

proof fn lemma_reach_n_in_closed(
    e: spec_fn(usize, usize) -> bool,
    p: spec_fn(usize) -> bool,
    a: usize,
    b: usize,
    n: nat,
)
    requires
        p(a),
        forall|x: usize, y: usize| p(x) && #[trigger] e(x, y) ==> p(y),
        reach_n(e, a, b, n),
    ensures
        p(b),
    decreases n,
{
    if a != b {
        let m = choose|m: usize| #[trigger] e(a, m) && reach_n(e, m, b, (n - 1) as nat);
        assert(p(m));
        lemma_reach_n_in_closed(e, p, m, b, (n - 1) as nat);
    }
}

/// A set that contains `a` and is closed under the edges contains everything
/// `a` reaches.
pub proof fn lemma_reach_in_closed(
    e: spec_fn(usize, usize) -> bool,
    p: spec_fn(usize) -> bool,
    a: usize,
    b: usize,
)
    requires
        p(a),
        forall|x: usize, y: usize| p(x) && #[trigger] e(x, y) ==> p(y),
        reaches(e, a, b),
    ensures
        p(b),
{
    let n = choose|n: nat| reach_n(e, a, b, n);
    lemma_reach_n_in_closed(e, p, a, b, n);
}

/// Number of `false` entries: the measure that strictly falls whenever a
/// saturation pass marks a new node.
pub open spec fn count_false(s: Seq<bool>) -> nat
    decreases s.len(),
{
    if s.len() == 0 {
        0
    } else {
        count_false(s.drop_last()) + (if s.last() {
            0nat
        } else {
            1nat
        })
    }
}

/// Marking an unmarked node strictly decreases the measure.
pub proof fn lemma_count_false_update_true(s: Seq<bool>, i: int)
    requires
        0 <= i < s.len(),
        !s[i],
    ensures
        count_false(s.update(i, true)) < count_false(s),
    decreases s.len(),
{
    let t = s.update(i, true);
    if i == s.len() - 1 {
        assert(t.drop_last() =~= s.drop_last());
    } else {
        assert(t.drop_last() =~= s.drop_last().update(i, true));
        assert(t.last() == s.last());
        lemma_count_false_update_true(s.drop_last(), i);
    }
}

} // verus!
