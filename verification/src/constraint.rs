use vstd::prelude::*;
use crate::body::BodyHandle;

verus! {

/// Identifies a constraint by its index in the engine's constraint list.
#[derive(Debug, Clone, Copy, PartialEq, Eq, Hash, Structural)]
pub struct ConstraintHandle(pub usize);

/// The bodies that a constraint joins; `None` is a point fixed in the world.
pub type ConstraintEnds = (Option<BodyHandle>, Option<BodyHandle>);

/// Whether one end of a constraint is fixed: attached to no body, or to a
/// static body.
pub open spec fn end_fixed(end: Option<BodyHandle>, is_static: Seq<bool>) -> bool {
    match end {
        None => true,
        Some(h) => is_static[h.0 as int],
    }
}

/// Whether a constraint has a fixed end.
pub open spec fn spec_is_fixed(ends: ConstraintEnds, is_static: Seq<bool>) -> bool {
    end_fixed(ends.0, is_static) || end_fixed(ends.1, is_static)
}

/// Whether both ends of a constraint name bodies of the list.
pub open spec fn ends_in(ends: ConstraintEnds, n: nat) -> bool {
    &&& (ends.0 matches Some(h) ==> h.0 < n)
    &&& (ends.1 matches Some(h) ==> h.0 < n)
}

/// The positions, among the first `n`, of the constraints that are fixed (or
/// free, for `fixed == false`), in increasing order.
pub open spec fn indices_where(
    ends: Seq<ConstraintEnds>,
    is_static: Seq<bool>,
    fixed: bool,
    n: nat,
) -> Seq<usize>
    decreases n,
{
    if n == 0 {
        seq![]
    } else {
        let rest = indices_where(ends, is_static, fixed, (n - 1) as nat);
        if spec_is_fixed(ends[n - 1], is_static) == fixed {
            rest.push((n - 1) as usize)
        } else {
            rest
        }
    }
}

/// The order in which constraints are solved: those with a fixed end first,
/// then the others, each group in list order.
pub open spec fn spec_solve_order(ends: Seq<ConstraintEnds>, is_static: Seq<bool>) -> Seq<usize> {
    indices_where(ends, is_static, true, ends.len()) + indices_where(
        ends,
        is_static,
        false,
        ends.len(),
    )
}

fn end_is_fixed(end: Option<BodyHandle>, is_static: &Vec<bool>) -> (fixed: bool)
    requires
        end matches Some(h) ==> h.0 < is_static@.len(),
    ensures
        fixed == end_fixed(end, is_static@),
{
    match end {
        None => true,
        Some(h) => is_static[h.0],
    }
}

/// Decides in which order the constraints are solved: first every constraint
/// with an end that is fixed (no body, or a static body), then every other
/// one, each group in list order. `ends[k]` holds the bodies of the `k`-th
/// constraint and `is_static[b]` tells whether the body with handle `b` is
/// static.
pub fn solve_order(ends: &Vec<ConstraintEnds>, is_static: &Vec<bool>) -> (order: Vec<usize>)
    requires
        forall|k: int| 0 <= k < ends@.len() ==> ends_in(#[trigger] ends@[k], is_static@.len()),
    ensures
        order@ == spec_solve_order(ends@, is_static@),
        order@.len() == ends@.len(),
        forall|i: int, j: int|
            0 <= i < j < order@.len() ==> {
                let first = ends@[#[trigger] order@[i] as int];
                let later = ends@[#[trigger] order@[j] as int];
                (!((later.0 matches Some(h) && !is_static@[h.0 as int]) && (later.1 matches Some(g)
                    && !is_static@[g.0 as int]))) ==> (!((first.0 matches Some(h)
                    && !is_static@[h.0 as int]) && (first.1 matches Some(g) && !is_static@[g.0 as int])))
            },
{
    let n = ends.len();
    proof {
        lemma_solve_order_fixed_first(ends@, is_static@);
    }
    let mut fixed: Vec<usize> = Vec::new();
    let mut free: Vec<usize> = Vec::new();
    let mut k: usize = 0;
    while k < n
        invariant
            n == ends@.len(),
            k <= n,
            forall|m: int| 0 <= m < ends@.len() ==> ends_in(#[trigger] ends@[m], is_static@.len()),
            fixed@ == indices_where(ends@, is_static@, true, k as nat),
            free@ == indices_where(ends@, is_static@, false, k as nat),
        decreases n - k,
    {
        let e = ends[k];
        assert(ends_in(ends@[k as int], is_static@.len()));
        let f = end_is_fixed(e.0, is_static) || end_is_fixed(e.1, is_static);
        if f {
            fixed.push(k);
        } else {
            free.push(k);
        }
        k += 1;
    }
    let mut order = fixed;
    let ghost first = order@;
    let mut j: usize = 0;
    while j < free.len()
        invariant
            j <= free@.len(),
            order@ == first + free@.take(j as int),
        decreases free@.len() - j,
    {
        assert(free@.take(j + 1) =~= free@.take(j as int).push(free@[j as int]));
        order.push(free[j]);
        j += 1;
    }
    assert(free@.take(j as int) =~= free@);
    order
}

proof fn lemma_indices_where(ends: Seq<ConstraintEnds>, is_static: Seq<bool>, fixed: bool, n: nat)
    requires
        n <= ends.len(),
        n <= usize::MAX + 1,
    ensures
        ({
            let s = indices_where(ends, is_static, fixed, n);
            &&& forall|i: int, j: int| 0 <= i < j < s.len() ==> #[trigger] s[i] < #[trigger] s[j]
            &&& forall|i: int| 0 <= i < s.len() ==> #[trigger] s[i] < n && spec_is_fixed(
                ends[s[i] as int],
                is_static,
            ) == fixed
            &&& forall|k: int|
                0 <= k < n && spec_is_fixed(ends[k], is_static) == fixed ==> #[trigger] s.contains(
                    k as usize,
                )
        }),
    decreases n,
{
    if n > 0 {
        lemma_indices_where(ends, is_static, fixed, (n - 1) as nat);
        let rest = indices_where(ends, is_static, fixed, (n - 1) as nat);
        let s = indices_where(ends, is_static, fixed, n);
        assert forall|k: int|
            0 <= k < n && spec_is_fixed(ends[k], is_static) == fixed implies #[trigger] s.contains(
            k as usize,
        ) by {
            if k < n - 1 {
                assert(rest.contains(k as usize));
                let i = choose|i: int| 0 <= i < rest.len() && rest[i] == k as usize;
                assert(s[i] == k as usize);
            } else {
                assert(s[s.len() - 1] == k as usize);
            }
        }
    }
}

/// The solving order is a permutation of the constraints: every constraint
/// is solved exactly once, those with a fixed end before the others.
pub proof fn lemma_solve_order_permutation(ends: Seq<ConstraintEnds>, is_static: Seq<bool>)
    requires
        ends.len() <= usize::MAX,
    ensures
        ({
            let order = spec_solve_order(ends, is_static);
            &&& forall|i: int| 0 <= i < order.len() ==> #[trigger] order[i] < ends.len()
            &&& forall|i: int, j: int|
                0 <= i < order.len() && 0 <= j < order.len() && i != j ==> #[trigger] order[i]
                    != #[trigger] order[j]
            &&& forall|k: int| 0 <= k < ends.len() ==> #[trigger] order.contains(k as usize)
            &&& forall|i: int, j: int|
                0 <= i < j < order.len() && !spec_is_fixed(ends[#[trigger] order[i] as int], is_static)
                    ==> !spec_is_fixed(ends[#[trigger] order[j] as int], is_static)
        }),
{
    lemma_indices_where(ends, is_static, true, ends.len());
    lemma_indices_where(ends, is_static, false, ends.len());
    let a = indices_where(ends, is_static, true, ends.len());
    let b = indices_where(ends, is_static, false, ends.len());
    let order = a + b;
    assert forall|i: int| 0 <= i < order.len() implies #[trigger] order[i] < ends.len() by {
        if i < a.len() {
            assert(order[i] == a[i]);
        } else {
            assert(order[i] == b[i - a.len()]);
        }
    }
    assert forall|i: int, j: int|
        0 <= i < order.len() && 0 <= j < order.len() && i != j implies #[trigger] order[i]
        != #[trigger] order[j] by {
        if i < a.len() && j < a.len() {
            if i < j {
                assert(a[i] < a[j]);
            } else {
                assert(a[j] < a[i]);
            }
        } else if i >= a.len() && j >= a.len() {
            if i < j {
                assert(b[i - a.len()] < b[j - a.len()]);
            } else {
                assert(b[j - a.len()] < b[i - a.len()]);
            }
        } else if i < a.len() {
            assert(spec_is_fixed(ends[a[i] as int], is_static));
            assert(!spec_is_fixed(ends[b[j - a.len()] as int], is_static));
        } else {
            assert(spec_is_fixed(ends[a[j] as int], is_static));
            assert(!spec_is_fixed(ends[b[i - a.len()] as int], is_static));
        }
    }
    assert forall|k: int| 0 <= k < ends.len() implies #[trigger] order.contains(k as usize) by {
        if spec_is_fixed(ends[k], is_static) {
            assert(a.contains(k as usize));
            let i = choose|i: int| 0 <= i < a.len() && a[i] == k as usize;
            assert(order[i] == k as usize);
        } else {
            assert(b.contains(k as usize));
            let i = choose|i: int| 0 <= i < b.len() && b[i] == k as usize;
            assert(order[a.len() + i] == k as usize);
        }
    }
    assert forall|i: int, j: int|
        0 <= i < j < order.len() && !spec_is_fixed(
            ends[#[trigger] order[i] as int],
            is_static,
        ) implies !spec_is_fixed(ends[#[trigger] order[j] as int], is_static) by {
        if i < a.len() {
            assert(spec_is_fixed(ends[a[i] as int], is_static));
        } else {
            assert(order[j] == b[j - a.len()]);
        }
    }
}

/// Constraints with an end that is fixed (no body, or a static body, at
/// either end) are all solved before constraints whose two ends are movable
/// bodies; so a constraint hanging from a static body or a world point goes
/// first whichever end that is. Within each group the list order is kept,
/// and every constraint is solved exactly once.
pub proof fn lemma_solve_order_fixed_first(ends: Seq<ConstraintEnds>, is_static: Seq<bool>)
    requires
        ends.len() <= usize::MAX,
    ensures
        ({
            let order = spec_solve_order(ends, is_static);
            &&& order.len() == ends.len()
            &&& forall|k: int| 0 <= k < ends.len() ==> #[trigger] order.contains(k as usize)
            &&& forall|i: int, j: int|
                0 <= i < j < order.len() ==> {
                    let first = ends[#[trigger] order[i] as int];
                    let later = ends[#[trigger] order[j] as int];
                    &&& (!((later.0 matches Some(h) && !is_static[h.0 as int]) && (later.1 matches Some(g) && !is_static[g.0 as int]))) ==> (!((first.0 matches Some(h) && !is_static[h.0 as int]) && (first.1 matches Some(g) && !is_static[g.0 as int])))
                    &&& ((!((first.0 matches Some(h) && !is_static[h.0 as int]) && (first.1 matches Some(g) && !is_static[g.0 as int]))) == (!((later.0 matches Some(h) && !is_static[h.0 as int]) && (later.1 matches Some(g) && !is_static[g.0 as int])))) ==> order[i] < order[j]
                }
        }),
{
    lemma_solve_order_permutation(ends, is_static);
    lemma_indices_where(ends, is_static, true, ends.len());
    lemma_indices_where(ends, is_static, false, ends.len());
    let a = indices_where(ends, is_static, true, ends.len());
    let b = indices_where(ends, is_static, false, ends.len());
    let order = spec_solve_order(ends, is_static);
    assert forall|x: ConstraintEnds| #[trigger] spec_is_fixed(x, is_static) == (!((x.0 matches Some(h) && !is_static[h.0 as int]) && (x.1 matches Some(g) && !is_static[g.0 as int]))) by {
    }
    assert forall|i: int, j: int| 0 <= i < j < order.len() implies {
        let first = ends[#[trigger] order[i] as int];
        let later = ends[#[trigger] order[j] as int];
        &&& spec_is_fixed(later, is_static) ==> spec_is_fixed(first, is_static)
        &&& spec_is_fixed(first, is_static) == spec_is_fixed(later, is_static) ==> order[i] < order[j]
    } by {
        if i < a.len() {
            assert(order[i] == a[i]);
        } else {
            assert(order[i] == b[i - a.len()]);
        }
        if j < a.len() {
            assert(order[j] == a[j]);
        } else {
            assert(order[j] == b[j - a.len()]);
        }
        if i < a.len() && j >= a.len() {
            assert(spec_is_fixed(ends[a[i] as int], is_static));
            assert(!spec_is_fixed(ends[b[j - a.len()] as int], is_static));
        }
    }
    lemma_indices_partition(ends, is_static, ends.len());
}

proof fn lemma_indices_partition(ends: Seq<ConstraintEnds>, is_static: Seq<bool>, n: nat)
    ensures
        indices_where(ends, is_static, true, n).len() + indices_where(ends, is_static, false, n).len()
            == n,
    decreases n,
{
    if n > 0 {
        lemma_indices_partition(ends, is_static, (n - 1) as nat);
    }
}

} // verus!
