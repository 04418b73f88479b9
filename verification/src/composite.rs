use vstd::prelude::*;
use crate::body::BodyHandle;
use crate::constraint::ConstraintHandle;

verus! {

/// Identifies a composite.
#[derive(Debug, Clone, Copy, PartialEq, Eq, Hash, Structural)]
pub struct CompositeHandle(pub usize);

/// A container of bodies, constraints and child composites, named by handle.
#[derive(Debug, Clone)]
pub struct Composite {
    pub handle: CompositeHandle,
    pub bodies: Vec<BodyHandle>,
    pub constraints: Vec<ConstraintHandle>,
    pub composites: Vec<CompositeHandle>,
    pub parent: Option<CompositeHandle>,
}

/// The sequence without every element equal to `x`, order kept.
pub open spec fn without<T>(s: Seq<T>, x: T) -> Seq<T> {
    s.filter(|y: T| y != x)
}

/// The position of the first composite of the list with this handle, or -1.
pub open spec fn find_composite(composites: Seq<Composite>, handle: CompositeHandle) -> int
    decreases composites.len(),
{
    if composites.len() == 0 {
        -1
    } else if composites[0].handle == handle {
        0
    } else {
        let rest = find_composite(composites.subrange(1, composites.len() as int), handle);
        if rest < 0 {
            -1
        } else {
            rest + 1
        }
    }
}

/// Whether following child handles from `c` through the list never goes
/// deeper than `fuel` levels (counting `c` itself).
pub open spec fn depth_ok(c: Composite, composites: Seq<Composite>, fuel: nat) -> bool
    decreases fuel, 0nat,
{
    if fuel == 0 {
        false
    } else {
        children_ok(c.composites@, composites, (fuel - 1) as nat)
    }
}

/// Whether every child handle of the sequence, looked up in the list, leads to
/// a composite whose depth is within `fuel` levels.
pub open spec fn children_ok(
    children: Seq<CompositeHandle>,
    composites: Seq<Composite>,
    fuel: nat,
) -> bool
    decreases fuel, children.len(),
{
    if children.len() == 0 {
        true
    } else {
        let i = find_composite(composites, children.last());
        children_ok(children.drop_last(), composites, fuel) && (i < 0 || (i < composites.len()
            && depth_ok(composites[i], composites, fuel)))
    }
}

/// The traversal from `c` through its child composites ends: the nesting
/// reached through the list is finite (there is no cycle).
pub open spec fn finite_depth(c: Composite, composites: Seq<Composite>) -> bool {
    exists|fuel: nat| depth_ok(c, composites, fuel)
}

/// What a traversal collects from `c` within `fuel` levels: the selected items
/// of `c`, then those of each child found in the list, in child order.
pub open spec fn gather<T>(
    c: Composite,
    composites: Seq<Composite>,
    fuel: nat,
    sel: spec_fn(Composite) -> Seq<T>,
) -> Seq<T>
    decreases fuel, 0nat,
{
    if fuel == 0 {
        seq![]
    } else {
        sel(c) + gather_children(c.composites@, composites, (fuel - 1) as nat, sel)
    }
}

/// What a traversal collects from the children with these handles.
pub open spec fn gather_children<T>(
    children: Seq<CompositeHandle>,
    composites: Seq<Composite>,
    fuel: nat,
    sel: spec_fn(Composite) -> Seq<T>,
) -> Seq<T>
    decreases fuel, children.len(),
{
    if children.len() == 0 {
        seq![]
    } else {
        let i = find_composite(composites, children.last());
        let rest = gather_children(children.drop_last(), composites, fuel, sel);
        if 0 <= i < composites.len() {
            rest + gather(composites[i], composites, fuel, sel)
        } else {
            rest
        }
    }
}

/// Selects the bodies of a composite.
pub open spec fn bodies_of() -> spec_fn(Composite) -> Seq<BodyHandle> {
    |c: Composite| c.bodies@
}

/// Selects the constraints of a composite.
pub open spec fn constraints_of() -> spec_fn(Composite) -> Seq<ConstraintHandle> {
    |c: Composite| c.constraints@
}

/// Everything that the traversal from `c` collects, `c`'s nesting being finite.
pub open spec fn collect_all<T>(
    c: Composite,
    composites: Seq<Composite>,
    sel: spec_fn(Composite) -> Seq<T>,
) -> Seq<T> {
    gather(c, composites, choose|fuel: nat| depth_ok(c, composites, fuel), sel)
}

proof fn lemma_find_composite(composites: Seq<Composite>, handle: CompositeHandle)
    ensures
        -1 <= find_composite(composites, handle) < composites.len(),
        find_composite(composites, handle) >= 0 ==> composites[find_composite(
            composites,
            handle,
        )].handle == handle,
        forall|j: int|
            0 <= j < composites.len() && (find_composite(composites, handle) < 0 || j < find_composite(
                composites,
                handle,
            )) ==> #[trigger] composites[j].handle != handle,
    decreases composites.len(),
{
    if composites.len() > 0 && composites[0].handle != handle {
        let rest = composites.subrange(1, composites.len() as int);
        lemma_find_composite(rest, handle);
        assert forall|j: int|
            0 <= j < composites.len() && (find_composite(composites, handle) < 0 || j
                < find_composite(composites, handle)) implies #[trigger] composites[j].handle
            != handle by {
            if j > 0 {
                assert(composites[j] == rest[j - 1]);
            }
        }
        if find_composite(rest, handle) >= 0 {
            assert(composites[find_composite(rest, handle) + 1] == rest[find_composite(rest, handle)]);
        }
    }
}

proof fn lemma_children_ok_prefix(
    children: Seq<CompositeHandle>,
    composites: Seq<Composite>,
    fuel: nat,
    i: int,
)
    requires
        children_ok(children, composites, fuel),
        0 <= i <= children.len(),
    ensures
        children_ok(children.take(i), composites, fuel),
    decreases children.len(),
{
    if i < children.len() {
        lemma_children_ok_prefix(children.drop_last(), composites, fuel, i);
        assert(children.drop_last().take(i) =~= children.take(i));
    } else {
        assert(children.take(i) =~= children);
    }
}

proof fn lemma_children_step<T>(
    children: Seq<CompositeHandle>,
    composites: Seq<Composite>,
    fuel: nat,
    sel: spec_fn(Composite) -> Seq<T>,
    i: int,
)
    requires
        0 <= i < children.len(),
    ensures
        ({
            let idx = find_composite(composites, children[i]);
            &&& children_ok(children.take(i + 1), composites, fuel) == (children_ok(
                children.take(i),
                composites,
                fuel,
            ) && (idx < 0 || (idx < composites.len() && depth_ok(composites[idx], composites, fuel))))
            &&& gather_children(children.take(i + 1), composites, fuel, sel) == (if 0 <= idx
                < composites.len() {
                gather_children(children.take(i), composites, fuel, sel) + gather(
                    composites[idx],
                    composites,
                    fuel,
                    sel,
                )
            } else {
                gather_children(children.take(i), composites, fuel, sel)
            })
        }),
{
    assert(children.take(i + 1).drop_last() =~= children.take(i));
    assert(children.take(i + 1).last() == children[i]);
}

/// Looks up the first composite of the list with this handle.
fn find_in(composites: &[Composite], handle: CompositeHandle) -> (found: Option<usize>)
    ensures
        match found {
            Some(j) => j < composites@.len() && find_composite(composites@, handle) == j as int,
            None => find_composite(composites@, handle) == -1,
        },
{
    proof {
        lemma_find_composite(composites@, handle);
    }
    let mut j: usize = 0;
    while j < composites.len()
        invariant
            j <= composites@.len(),
            -1 <= find_composite(composites@, handle) < composites@.len(),
            find_composite(composites@, handle) >= 0 ==> composites@[find_composite(
                composites@,
                handle,
            )].handle == handle,
            forall|m: int| 0 <= m < j ==> #[trigger] composites@[m].handle != handle,
        decreases composites@.len() - j,
    {
        if composites[j].handle == handle {
            proof {
                lemma_find_composite(composites@, handle);
            }
            return Some(j);
        }
        j += 1;
    }
    None
}

/// Appends to `out` the bodies that the traversal from `c` collects.
fn collect_bodies(
    c: &Composite,
    composites: &[Composite],
    fuel: Ghost<nat>,
    out: &mut Vec<BodyHandle>,
)
    requires
        depth_ok(*c, composites@, fuel@),
    ensures
        final(out)@ == old(out)@ + gather(*c, composites@, fuel@, bodies_of()),
    decreases fuel@,
{
    let ghost f = fuel@;
    let ghost start = out@;
    let ghost children = c.composites@;
    let mut k: usize = 0;
    while k < c.bodies.len()
        invariant
            k <= c.bodies@.len(),
            out@ == start + c.bodies@.take(k as int),
        decreases c.bodies@.len() - k,
    {
        assert(c.bodies@.take(k + 1) =~= c.bodies@.take(k as int).push(c.bodies@[k as int]));
        out.push(c.bodies[k]);
        k += 1;
    }
    assert(c.bodies@.take(k as int) =~= c.bodies@);
    assert(children.take(0) =~= Seq::<CompositeHandle>::empty());
    let mut i: usize = 0;
    while i < c.composites.len()
        invariant
            f > 0,
            f == fuel@,
            children == c.composites@,
            i <= children.len(),
            children_ok(children, composites@, (f - 1) as nat),
            out@ == start + c.bodies@ + gather_children(
                children.take(i as int),
                composites@,
                (f - 1) as nat,
                bodies_of(),
            ),
        decreases children.len() - i,
    {
        proof {
            lemma_children_ok_prefix(children, composites@, (f - 1) as nat, i + 1);
            lemma_children_step(children, composites@, (f - 1) as nat, bodies_of(), i as int);
        }
        match find_in(composites, c.composites[i]) {
            Some(j) => {
                collect_bodies(&composites[j], composites, Ghost((f - 1) as nat), out);
            },
            None => {},
        }
        i += 1;
    }
    assert(children.take(i as int) =~= children);
}

/// Appends to `out` the constraints that the traversal from `c` collects.
fn collect_constraints(
    c: &Composite,
    composites: &[Composite],
    fuel: Ghost<nat>,
    out: &mut Vec<ConstraintHandle>,
)
    requires
        depth_ok(*c, composites@, fuel@),
    ensures
        final(out)@ == old(out)@ + gather(*c, composites@, fuel@, constraints_of()),
    decreases fuel@,
{
    let ghost f = fuel@;
    let ghost start = out@;
    let ghost children = c.composites@;
    let mut k: usize = 0;
    while k < c.constraints.len()
        invariant
            k <= c.constraints@.len(),
            out@ == start + c.constraints@.take(k as int),
        decreases c.constraints@.len() - k,
    {
        assert(c.constraints@.take(k + 1) =~= c.constraints@.take(k as int).push(
            c.constraints@[k as int],
        ));
        out.push(c.constraints[k]);
        k += 1;
    }
    assert(c.constraints@.take(k as int) =~= c.constraints@);
    assert(children.take(0) =~= Seq::<CompositeHandle>::empty());
    let mut i: usize = 0;
    while i < c.composites.len()
        invariant
            f > 0,
            f == fuel@,
            children == c.composites@,
            i <= children.len(),
            children_ok(children, composites@, (f - 1) as nat),
            out@ == start + c.constraints@ + gather_children(
                children.take(i as int),
                composites@,
                (f - 1) as nat,
                constraints_of(),
            ),
        decreases children.len() - i,
    {
        proof {
            lemma_children_ok_prefix(children, composites@, (f - 1) as nat, i + 1);
            lemma_children_step(children, composites@, (f - 1) as nat, constraints_of(), i as int);
        }
        match find_in(composites, c.composites[i]) {
            Some(j) => {
                collect_constraints(&composites[j], composites, Ghost((f - 1) as nat), out);
            },
            None => {},
        }
        i += 1;
    }
    assert(children.take(i as int) =~= children);
}

proof fn lemma_without_step<T>(s: Seq<T>, x: T, i: int)
    requires
        0 <= i < s.len(),
    ensures
        without(s.take(i + 1), x) == (if s[i] != x {
            without(s.take(i), x).push(s[i])
        } else {
            without(s.take(i), x)
        }),
{
    reveal(Seq::filter);
    assert(s.take(i + 1).drop_last() =~= s.take(i));
    assert(s.take(i + 1).last() == s[i]);
}

proof fn lemma_without_empty<T>(s: Seq<T>, x: T)
    requires
        s.len() == 0,
    ensures
        without(s, x) == s,
{
    reveal(Seq::filter);
}

/// What the traversal collects from the children with these handles, each
/// found child contributing everything collected from it.
pub open spec fn collect_children<T>(
    children: Seq<CompositeHandle>,
    composites: Seq<Composite>,
    sel: spec_fn(Composite) -> Seq<T>,
) -> Seq<T>
    decreases children.len(),
{
    if children.len() == 0 {
        seq![]
    } else {
        let i = find_composite(composites, children.last());
        let rest = collect_children(children.drop_last(), composites, sel);
        if 0 <= i < composites.len() {
            rest + collect_all(composites[i], composites, sel)
        } else {
            rest
        }
    }
}

proof fn lemma_depth_mono<T>(
    c: Composite,
    composites: Seq<Composite>,
    f: nat,
    g: nat,
    sel: spec_fn(Composite) -> Seq<T>,
)
    requires
        depth_ok(c, composites, f),
        f <= g,
    ensures
        depth_ok(c, composites, g),
        gather(c, composites, f, sel) == gather(c, composites, g, sel),
    decreases f, 0nat,
{
    lemma_children_mono(c.composites@, composites, (f - 1) as nat, (g - 1) as nat, sel);
}

proof fn lemma_children_mono<T>(
    children: Seq<CompositeHandle>,
    composites: Seq<Composite>,
    f: nat,
    g: nat,
    sel: spec_fn(Composite) -> Seq<T>,
)
    requires
        children_ok(children, composites, f),
        f <= g,
    ensures
        children_ok(children, composites, g),
        gather_children(children, composites, f, sel) == gather_children(children, composites, g, sel),
    decreases f, children.len(),
{
    if children.len() > 0 {
        lemma_children_mono(children.drop_last(), composites, f, g, sel);
        let i = find_composite(composites, children.last());
        if 0 <= i < composites.len() {
            lemma_depth_mono(composites[i], composites, f, g, sel);
        }
    }
}

/// The traversal collects the same items whatever depth bound it is given,
/// as long as the bound is deep enough.
pub proof fn lemma_collect_any_bound<T>(
    c: Composite,
    composites: Seq<Composite>,
    fuel: nat,
    sel: spec_fn(Composite) -> Seq<T>,
)
    requires
        depth_ok(c, composites, fuel),
    ensures
        finite_depth(c, composites),
        collect_all(c, composites, sel) == gather(c, composites, fuel, sel),
{
    let g = choose|g: nat| depth_ok(c, composites, g);
    if fuel <= g {
        lemma_depth_mono(c, composites, fuel, g, sel);
    } else {
        lemma_depth_mono(c, composites, g, fuel, sel);
    }
}

proof fn lemma_children_collect<T>(
    children: Seq<CompositeHandle>,
    composites: Seq<Composite>,
    fuel: nat,
    sel: spec_fn(Composite) -> Seq<T>,
)
    requires
        children_ok(children, composites, fuel),
    ensures
        gather_children(children, composites, fuel, sel) == collect_children(children, composites, sel),
    decreases children.len(),
{
    if children.len() > 0 {
        lemma_children_collect(children.drop_last(), composites, fuel, sel);
        let i = find_composite(composites, children.last());
        if 0 <= i < composites.len() {
            lemma_collect_any_bound(composites[i], composites, fuel, sel);
        }
    }
}

/// Everything collected from a composite is its own items followed by, for
/// each child handle in order, everything collected from the first composite
/// of the list with that handle (a handle that no composite has adds nothing).
pub proof fn lemma_collect_all_unfold<T>(
    c: Composite,
    composites: Seq<Composite>,
    sel: spec_fn(Composite) -> Seq<T>,
)
    requires
        finite_depth(c, composites),
    ensures
        collect_all(c, composites, sel) == sel(c) + collect_children(c.composites@, composites, sel),
{
    let f = choose|f: nat| depth_ok(c, composites, f);
    lemma_children_collect(c.composites@, composites, (f - 1) as nat, sel);
}

/// A composite without children reaches no other composite, and collects
/// exactly its own items.
pub proof fn lemma_leaf_collects_own<T>(
    c: Composite,
    composites: Seq<Composite>,
    sel: spec_fn(Composite) -> Seq<T>,
)
    requires
        c.composites@.len() == 0,
    ensures
        finite_depth(c, composites),
        collect_all(c, composites, sel) == sel(c),
{
    assert(depth_ok(c, composites, 1));
    lemma_collect_any_bound(c, composites, 1, sel);
    assert(sel(c) + Seq::<T>::empty() =~= sel(c));
}

proof fn lemma_without_absent<T>(s: Seq<T>, x: T)
    requires
        !s.contains(x),
    ensures
        without(s, x) == s,
    decreases s.len(),
{
    reveal(Seq::filter);
    if s.len() > 0 {
        assert(!s.drop_last().contains(x)) by {
            if s.drop_last().contains(x) {
                let k = choose|k: int| 0 <= k < s.drop_last().len() && s.drop_last()[k] == x;
                assert(s[k] == x);
            }
        }
        lemma_without_absent(s.drop_last(), x);
        assert(s.last() != x) by {
            assert(s[s.len() - 1] == s.last());
        }
        assert(s.drop_last().push(s.last()) =~= s);
    }
}

/// Removing an item that was just added to a sequence without it gives back
/// the sequence.
pub proof fn lemma_remove_undoes_add<T>(s: Seq<T>, x: T)
    requires
        !s.contains(x),
    ensures
        without(s.push(x), x) == s,
{
    reveal(Seq::filter);
    assert(s.push(x).drop_last() =~= s);
    lemma_without_absent(s, x);
}

/// After a removal the item no longer occurs, and every other item occurs
/// exactly when it did before.
pub proof fn lemma_remove_keeps_others<T>(s: Seq<T>, x: T, y: T)
    ensures
        !without(s, x).contains(x),
        y != x ==> (without(s, x).contains(y) <==> s.contains(y)),
{
    broadcast use vstd::seq_lib::group_filter_ensures;
    if without(s, x).contains(x) {
        let k = choose|k: int| 0 <= k < without(s, x).len() && without(s, x)[k] == x;
        s.lemma_filter_pred(|z: T| z != x, k);
    }
    if y != x {
        if s.contains(y) {
            let k = choose|k: int| 0 <= k < s.len() && s[k] == y;
            s.lemma_filter_contains(|z: T| z != x, k);
        }
        if without(s, x).contains(y) {
            s.lemma_filter_contains_rev(|z: T| z != x, y);
        }
    }
}

impl Composite {
    /// An empty composite with this handle and no parent.
    pub fn new(handle: CompositeHandle) -> (composite: Composite)
        ensures
            composite.handle == handle,
            composite.bodies@ == Seq::<BodyHandle>::empty(),
            composite.constraints@ == Seq::<ConstraintHandle>::empty(),
            composite.composites@ == Seq::<CompositeHandle>::empty(),
            composite.parent == None::<CompositeHandle>,
    {
        Composite {
            handle,
            bodies: Vec::new(),
            constraints: Vec::new(),
            composites: Vec::new(),
            parent: None,
        }
    }

    /// Appends a body.
    pub fn add_body(&mut self, body: BodyHandle)
        ensures
            final(self).bodies@ == old(self).bodies@.push(body),
            final(self).handle == old(self).handle,
            final(self).constraints@ == old(self).constraints@,
            final(self).composites@ == old(self).composites@,
            final(self).parent == old(self).parent,
    {
        self.bodies.push(body);
    }

    /// Removes every occurrence of a body, keeping the order of the others.
    pub fn remove_body(&mut self, body: BodyHandle)
        ensures
            final(self).bodies@ == without(old(self).bodies@, body),
            final(self).handle == old(self).handle,
            final(self).constraints@ == old(self).constraints@,
            final(self).composites@ == old(self).composites@,
            final(self).parent == old(self).parent,
    {
        let mut kept: Vec<BodyHandle> = Vec::new();
        proof {
            lemma_without_empty(self.bodies@.take(0), body);
        }
        let mut i: usize = 0;
        while i < self.bodies.len()
            invariant
                i <= self.bodies@.len(),
                kept@ == without(self.bodies@.take(i as int), body),
            decreases self.bodies@.len() - i,
        {
            proof {
                lemma_without_step(self.bodies@, body, i as int);
            }
            if self.bodies[i] != body {
                kept.push(self.bodies[i]);
            }
            i += 1;
        }
        assert(self.bodies@.take(i as int) =~= self.bodies@);
        self.bodies = kept;
    }

    /// Appends a constraint.
    pub fn add_constraint(&mut self, constraint: ConstraintHandle)
        ensures
            final(self).constraints@ == old(self).constraints@.push(constraint),
            final(self).handle == old(self).handle,
            final(self).bodies@ == old(self).bodies@,
            final(self).composites@ == old(self).composites@,
            final(self).parent == old(self).parent,
    {
        self.constraints.push(constraint);
    }

    /// Removes every occurrence of a constraint, keeping the order of the others.
    pub fn remove_constraint(&mut self, constraint: ConstraintHandle)
        ensures
            final(self).constraints@ == without(old(self).constraints@, constraint),
            final(self).handle == old(self).handle,
            final(self).bodies@ == old(self).bodies@,
            final(self).composites@ == old(self).composites@,
            final(self).parent == old(self).parent,
    {
        let mut kept: Vec<ConstraintHandle> = Vec::new();
        proof {
            lemma_without_empty(self.constraints@.take(0), constraint);
        }
        let mut i: usize = 0;
        while i < self.constraints.len()
            invariant
                i <= self.constraints@.len(),
                kept@ == without(self.constraints@.take(i as int), constraint),
            decreases self.constraints@.len() - i,
        {
            proof {
                lemma_without_step(self.constraints@, constraint, i as int);
            }
            if self.constraints[i] != constraint {
                kept.push(self.constraints[i]);
            }
            i += 1;
        }
        assert(self.constraints@.take(i as int) =~= self.constraints@);
        self.constraints = kept;
    }

    /// Appends a child composite.
    pub fn add_composite(&mut self, composite: CompositeHandle)
        ensures
            final(self).composites@ == old(self).composites@.push(composite),
            final(self).handle == old(self).handle,
            final(self).bodies@ == old(self).bodies@,
            final(self).constraints@ == old(self).constraints@,
            final(self).parent == old(self).parent,
    {
        self.composites.push(composite);
    }

    /// Removes every occurrence of a child composite, keeping the order of the
    /// others.
    pub fn remove_composite(&mut self, composite: CompositeHandle)
        ensures
            final(self).composites@ == without(old(self).composites@, composite),
            final(self).handle == old(self).handle,
            final(self).bodies@ == old(self).bodies@,
            final(self).constraints@ == old(self).constraints@,
            final(self).parent == old(self).parent,
    {
        let mut kept: Vec<CompositeHandle> = Vec::new();
        proof {
            lemma_without_empty(self.composites@.take(0), composite);
        }
        let mut i: usize = 0;
        while i < self.composites.len()
            invariant
                i <= self.composites@.len(),
                kept@ == without(self.composites@.take(i as int), composite),
            decreases self.composites@.len() - i,
        {
            proof {
                lemma_without_step(self.composites@, composite, i as int);
            }
            if self.composites[i] != composite {
                kept.push(self.composites[i]);
            }
            i += 1;
        }
        assert(self.composites@.take(i as int) =~= self.composites@);
        self.composites = kept;
    }

    /// All bodies of this composite and, recursively, of its child composites
    /// found in `composites` (the first with each handle; unknown handles are
    /// skipped): own bodies first, then each child's in child order.
    pub fn all_bodies(&self, composites: &[Composite]) -> (bodies: Vec<BodyHandle>)
        requires
            finite_depth(*self, composites@),
        ensures
            bodies@ == collect_all(*self, composites@, bodies_of()),
    {
        let ghost fuel = choose|fuel: nat| depth_ok(*self, composites@, fuel);
        let mut bodies: Vec<BodyHandle> = Vec::new();
        collect_bodies(self, composites, Ghost(fuel), &mut bodies);
        assert(bodies@ =~= gather(*self, composites@, fuel, bodies_of()));
        bodies
    }

    /// All constraints of this composite and, recursively, of its child
    /// composites found in `composites`, in the same order as `all_bodies`.
    pub fn all_constraints(&self, composites: &[Composite]) -> (constraints: Vec<ConstraintHandle>)
        requires
            finite_depth(*self, composites@),
        ensures
            constraints@ == collect_all(*self, composites@, constraints_of()),
    {
        let ghost fuel = choose|fuel: nat| depth_ok(*self, composites@, fuel);
        let mut constraints: Vec<ConstraintHandle> = Vec::new();
        collect_constraints(self, composites, Ghost(fuel), &mut constraints);
        assert(constraints@ =~= gather(*self, composites@, fuel, constraints_of()));
        constraints
    }

    /// Removes all bodies, constraints and child composites; the handle and the
    /// parent stay.
    pub fn clear(&mut self)
        ensures
            final(self).bodies@ == Seq::<BodyHandle>::empty(),
            final(self).constraints@ == Seq::<ConstraintHandle>::empty(),
            final(self).composites@ == Seq::<CompositeHandle>::empty(),
            final(self).handle == old(self).handle,
            final(self).parent == old(self).parent,
    {
        self.bodies.clear();
        self.constraints.clear();
        self.composites.clear();
    }
}

} // verus!
