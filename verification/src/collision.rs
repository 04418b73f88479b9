use vstd::prelude::*;
use crate::body::{BodyHandle, CollisionFilter};

verus! {

/// The identifier of the pair of two bodies: their indices, smaller first.
pub open spec fn spec_pair_id(body_a: BodyHandle, body_b: BodyHandle) -> (usize, usize) {
    if body_a.0 < body_b.0 {
        (body_a.0, body_b.0)
    } else {
        (body_b.0, body_a.0)
    }
}

/// Returns the identifier of the pair formed by two bodies, ordered so that it
/// does not depend on which body comes first.
pub fn pair_id(body_a: BodyHandle, body_b: BodyHandle) -> (id: (usize, usize))
    ensures
        id == spec_pair_id(body_a, body_b),
{
    if body_a.0 < body_b.0 {
        (body_a.0, body_b.0)
    } else {
        (body_b.0, body_a.0)
    }
}

/// Whether two collision filters allow their bodies to collide.
pub open spec fn spec_can_collide(filter_a: CollisionFilter, filter_b: CollisionFilter) -> bool {
    if filter_a.group == filter_b.group && filter_a.group != 0 {
        filter_a.group > 0
    } else {
        (filter_a.mask & filter_b.category) != 0 && (filter_b.mask & filter_a.category) != 0
    }
}

/// Decides whether two bodies with these filters may collide: bodies of the
/// same non-zero group collide exactly when the group is positive; otherwise
/// each body's mask must share a bit with the other's category.
pub fn can_collide(filter_a: &CollisionFilter, filter_b: &CollisionFilter) -> (res: bool)
    ensures
        res == spec_can_collide(*filter_a, *filter_b),
{
    if filter_a.group == filter_b.group && filter_a.group != 0 {
        return filter_a.group > 0;
    }
    (filter_a.mask & filter_b.category) != 0 && (filter_b.mask & filter_a.category) != 0
}

/// The pair identifier does not depend on the order of the bodies, and its
/// first index is the smaller.
pub proof fn lemma_pair_id_symmetric(body_a: BodyHandle, body_b: BodyHandle)
    ensures
        spec_pair_id(body_a, body_b) == spec_pair_id(body_b, body_a),
        spec_pair_id(body_a, body_b).0 <= spec_pair_id(body_a, body_b).1,
{
}

/// Whether two bodies may collide does not depend on their order.
pub proof fn lemma_can_collide_symmetric(filter_a: CollisionFilter, filter_b: CollisionFilter)
    ensures
        spec_can_collide(filter_a, filter_b) == spec_can_collide(filter_b, filter_a),
{
}

/// One of the candidate support points of a collision: the two vertices of
/// body B deepest along the normal, or the two of body A.
#[derive(Debug, Clone, Copy, PartialEq, Eq, Structural)]
pub enum SupportPoint {
    FirstOfB,
    SecondOfB,
    FirstOfA,
    SecondOfA,
}

/// The candidates that lie inside the other body, B's before A's.
pub open spec fn inside_candidates(
    b_first_in_a: bool,
    b_second_in_a: bool,
    a_first_in_b: bool,
    a_second_in_b: bool,
) -> Seq<SupportPoint> {
    (if b_first_in_a { seq![SupportPoint::FirstOfB] } else { seq![] })
        + (if b_second_in_a { seq![SupportPoint::SecondOfB] } else { seq![] })
        + (if a_first_in_b { seq![SupportPoint::FirstOfA] } else { seq![] })
        + (if a_second_in_b { seq![SupportPoint::SecondOfA] } else { seq![] })
}

/// The support points kept: the first two candidates that lie inside the other
/// body (B's before A's), or B's first candidate when none does.
pub open spec fn spec_choose_supports(
    b_first_in_a: bool,
    b_second_in_a: bool,
    a_first_in_b: bool,
    a_second_in_b: bool,
) -> Seq<SupportPoint> {
    let inside = inside_candidates(b_first_in_a, b_second_in_a, a_first_in_b, a_second_in_b);
    if inside.len() == 0 {
        seq![SupportPoint::FirstOfB]
    } else if inside.len() <= 2 {
        inside
    } else {
        inside.take(2)
    }
}

/// A collision has one or two support points, never the same one twice; so
/// its contacts fit the two contact slots of a pair.
pub proof fn lemma_support_count(
    b_first_in_a: bool,
    b_second_in_a: bool,
    a_first_in_b: bool,
    a_second_in_b: bool,
)
    ensures
        ({
            let s = spec_choose_supports(b_first_in_a, b_second_in_a, a_first_in_b, a_second_in_b);
            &&& 1 <= s.len() <= 2
            &&& forall|i: int, j: int| 0 <= i < j < s.len() ==> s[i] != s[j]
        }),
{
}

/// The place of a candidate in the order B's first, B's second, A's first,
/// A's second.
pub open spec fn support_rank(point: SupportPoint) -> int {
    match point {
        SupportPoint::FirstOfB => 0,
        SupportPoint::SecondOfB => 1,
        SupportPoint::FirstOfA => 2,
        SupportPoint::SecondOfA => 3,
    }
}

/// Which support points are chosen: B's candidates that lie inside A always
/// are; A's first, when inside B, whenever fewer than two of B's are; A's
/// second, when inside B, whenever fewer than two points were taken before
/// it; B's first also when no candidate is inside. The points come in the
/// order B's first, B's second, A's first, A's second, and there are as many
/// as the candidates inside, but at least one and at most two.
pub proof fn lemma_support_choice(
    b_first_in_a: bool,
    b_second_in_a: bool,
    a_first_in_b: bool,
    a_second_in_b: bool,
)
    ensures
        ({
            let s = spec_choose_supports(b_first_in_a, b_second_in_a, a_first_in_b, a_second_in_b);
            let from_b = (if b_first_in_a { 1int } else { 0int }) + (if b_second_in_a {
                1int
            } else {
                0int
            });
            let before_second_a = from_b + (if a_first_in_b { 1int } else { 0int });
            let inside = before_second_a + (if a_second_in_b { 1int } else { 0int });
            &&& s.contains(SupportPoint::FirstOfB) <==> (b_first_in_a || inside == 0)
            &&& s.contains(SupportPoint::SecondOfB) <==> b_second_in_a
            &&& s.contains(SupportPoint::FirstOfA) <==> (a_first_in_b && from_b < 2)
            &&& s.contains(SupportPoint::SecondOfA) <==> (a_second_in_b && before_second_a < 2)
            &&& s.len() == (if inside == 0 {
                1
            } else if inside > 2 {
                2
            } else {
                inside
            })
            &&& forall|i: int, j: int|
                0 <= i < j < s.len() ==> support_rank(#[trigger] s[i]) < support_rank(#[trigger] s[j])
        }),
{
    let s = spec_choose_supports(b_first_in_a, b_second_in_a, a_first_in_b, a_second_in_b);
    let b0 = SupportPoint::FirstOfB;
    let b1 = SupportPoint::SecondOfB;
    let a0 = SupportPoint::FirstOfA;
    let a1 = SupportPoint::SecondOfA;
    let expected = if b_first_in_a {
        if b_second_in_a {
            seq![b0, b1]
        } else if a_first_in_b {
            seq![b0, a0]
        } else if a_second_in_b {
            seq![b0, a1]
        } else {
            seq![b0]
        }
    } else if b_second_in_a {
        if a_first_in_b {
            seq![b1, a0]
        } else if a_second_in_b {
            seq![b1, a1]
        } else {
            seq![b1]
        }
    } else if a_first_in_b {
        if a_second_in_b {
            seq![a0, a1]
        } else {
            seq![a0]
        }
    } else if a_second_in_b {
        seq![a1]
    } else {
        seq![b0]
    };
    assert(s =~= expected);
    assert forall|x: SupportPoint| #[trigger] s.contains(x) <==> (exists|i: int| 0 <= i < expected.len() && expected[i] == x) by {
    }
    if expected.len() == 2 {
        assert(expected.contains(expected[0]) && expected.contains(expected[1]));
    } else {
        assert(expected.contains(expected[0]));
    }
}

/// Narrow-phase collision between two bodies.
pub struct Collision;

impl Collision {
    /// Chooses the support points of a collision from whether each candidate
    /// vertex lies inside the other body. The answers for A's candidates are
    /// only read when B's candidates give fewer than two points.
    pub fn choose_supports(
        b_first_in_a: bool,
        b_second_in_a: bool,
        a_first_in_b: bool,
        a_second_in_b: bool,
    ) -> (chosen: Vec<SupportPoint>)
        ensures
            chosen@ == spec_choose_supports(b_first_in_a, b_second_in_a, a_first_in_b, a_second_in_b),
            1 <= chosen@.len() <= 2,
            chosen@.contains(SupportPoint::FirstOfB) <==> (b_first_in_a || (!b_second_in_a
                && !a_first_in_b && !a_second_in_b)),
            chosen@.contains(SupportPoint::SecondOfB) <==> b_second_in_a,
            chosen@.contains(SupportPoint::FirstOfA) <==> (a_first_in_b && !(b_first_in_a
                && b_second_in_a)),
            chosen@.contains(SupportPoint::SecondOfA) <==> (a_second_in_b && (if b_first_in_a {
                1int
            } else {
                0int
            }) + (if b_second_in_a {
                1int
            } else {
                0int
            }) + (if a_first_in_b {
                1int
            } else {
                0int
            }) < 2),
            forall|i: int, j: int|
                0 <= i < j < chosen@.len() ==> support_rank(#[trigger] chosen@[i]) < support_rank(
                    #[trigger] chosen@[j],
                ),
    {
        proof {
            lemma_support_choice(b_first_in_a, b_second_in_a, a_first_in_b, a_second_in_b);
        }
        let mut chosen: Vec<SupportPoint> = Vec::new();
        if b_first_in_a {
            chosen.push(SupportPoint::FirstOfB);
        }
        if b_second_in_a {
            chosen.push(SupportPoint::SecondOfB);
        }
        if chosen.len() < 2 {
            if a_first_in_b {
                chosen.push(SupportPoint::FirstOfA);
            }
            if chosen.len() < 2 && a_second_in_b {
                chosen.push(SupportPoint::SecondOfA);
            }
        }
        if chosen.len() == 0 {
            chosen.push(SupportPoint::FirstOfB);
        }
        assert(chosen@ =~= spec_choose_supports(b_first_in_a, b_second_in_a, a_first_in_b, a_second_in_b));
        chosen
    }
}

/// Finds the pairs of bodies that collide.
pub struct Detector;

/// Whether the detector tests two bodies whose bounds overlap: not when both
/// are static or asleep, and only when their filters allow it.
pub open spec fn spec_may_collide(
    a_static: bool,
    a_sleeping: bool,
    filter_a: CollisionFilter,
    b_static: bool,
    b_sleeping: bool,
    filter_b: CollisionFilter,
) -> bool {
    !((a_static || a_sleeping) && (b_static || b_sleeping)) && spec_can_collide(filter_a, filter_b)
}

/// Whether two bodies are tested does not depend on their order; a pair is
/// tested exactly when its filters allow a collision and at least one of the
/// two bodies is neither static nor asleep.
pub proof fn lemma_may_collide(
    a_static: bool,
    a_sleeping: bool,
    filter_a: CollisionFilter,
    b_static: bool,
    b_sleeping: bool,
    filter_b: CollisionFilter,
)
    ensures
        spec_may_collide(a_static, a_sleeping, filter_a, b_static, b_sleeping, filter_b)
            == spec_may_collide(b_static, b_sleeping, filter_b, a_static, a_sleeping, filter_a),
        spec_may_collide(a_static, a_sleeping, filter_a, b_static, b_sleeping, filter_b) <==> ((
        (!a_static && !a_sleeping) || (!b_static && !b_sleeping)) && spec_can_collide(
            filter_a,
            filter_b,
        )),
{
    lemma_can_collide_symmetric(filter_a, filter_b);
}

/// Filters of the same non-zero group decide alone: positive groups always
/// collide, negative groups never; otherwise two filters that accept every
/// category collide when both categories are non-zero, and a filter whose
/// mask is empty collides with nothing.
pub proof fn lemma_can_collide_groups_and_masks(filter_a: CollisionFilter, filter_b: CollisionFilter)
    ensures
        filter_a.group == filter_b.group && filter_a.group > 0 ==> spec_can_collide(
            filter_a,
            filter_b,
        ),
        filter_a.group == filter_b.group && filter_a.group < 0 ==> !spec_can_collide(
            filter_a,
            filter_b,
        ),
        (filter_a.group != filter_b.group || filter_a.group == 0) && filter_a.mask == 0xFFFF_FFFFu32
            && filter_b.mask == 0xFFFF_FFFFu32 && filter_a.category != 0 && filter_b.category != 0
            ==> spec_can_collide(filter_a, filter_b),
        (filter_a.group != filter_b.group || filter_a.group == 0) && filter_a.mask == 0 ==> !spec_can_collide(
            filter_a,
            filter_b,
        ),
{
    let ma = filter_a.mask;
    let mb = filter_b.mask;
    let ca = filter_a.category;
    let cb = filter_b.category;
    assert(ma == 0xFFFF_FFFFu32 && cb != 0 ==> (ma & cb) != 0) by (bit_vector);
    assert(mb == 0xFFFF_FFFFu32 && ca != 0 ==> (mb & ca) != 0) by (bit_vector);
    assert(ma == 0 ==> (ma & cb) == 0) by (bit_vector);
}

impl Detector {
    /// Decides whether two bodies whose bounds overlap are tested for a
    /// collision: two bodies that are each static or asleep are skipped, and
    /// so are bodies whose collision filters exclude each other.
    pub fn may_collide(
        a_static: bool,
        a_sleeping: bool,
        filter_a: &CollisionFilter,
        b_static: bool,
        b_sleeping: bool,
        filter_b: &CollisionFilter,
    ) -> (res: bool)
        ensures
            res == spec_may_collide(a_static, a_sleeping, *filter_a, b_static, b_sleeping, *filter_b),
            res == spec_may_collide(b_static, b_sleeping, *filter_b, a_static, a_sleeping, *filter_a),
            res ==> spec_can_collide(*filter_a, *filter_b),
            ((!a_static && !a_sleeping) || (!b_static && !b_sleeping)) && spec_can_collide(
                *filter_a,
                *filter_b,
            ) ==> res,
            (a_static || a_sleeping) && (b_static || b_sleeping) ==> !res,
    {
        proof {
            lemma_may_collide(a_static, a_sleeping, *filter_a, b_static, b_sleeping, *filter_b);
        }
        let a_fixed = a_static || a_sleeping;
        if a_fixed && (b_static || b_sleeping) {
            return false;
        }
        can_collide(filter_a, filter_b)
    }
}

/// What the pair bookkeeping needs of one detected collision: the two bodies,
/// their parents, how many support points were found, and whether either
/// body is a sensor.
#[derive(Debug, Clone, Copy, PartialEq, Eq, Structural)]
pub struct CollisionKey {
    pub body_a: BodyHandle,
    pub body_b: BodyHandle,
    pub parent_a: BodyHandle,
    pub parent_b: BodyHandle,
    pub support_count: usize,
    pub is_sensor: bool,
}

/// The bookkeeping state of a pair of bodies in contact.
#[derive(Debug, Clone, Copy)]
pub struct Pair {
    pub id: (usize, usize),
    pub body_a: BodyHandle,
    pub body_b: BodyHandle,
    pub parent_a: BodyHandle,
    pub parent_b: BodyHandle,
    pub contact_count: usize,
    pub is_active: bool,
    pub is_sensor: bool,
}

/// The pair that a first collision of two bodies creates.
pub open spec fn spec_created(collision: CollisionKey) -> Pair {
    Pair {
        id: spec_pair_id(collision.body_a, collision.body_b),
        body_a: collision.body_a,
        body_b: collision.body_b,
        parent_a: collision.parent_a,
        parent_b: collision.parent_b,
        contact_count: collision.support_count,
        is_active: true,
        is_sensor: collision.is_sensor,
    }
}

/// The pair after a further collision of its two bodies.
pub open spec fn spec_refreshed(pair: Pair, collision: CollisionKey) -> Pair {
    Pair {
        parent_a: collision.parent_a,
        parent_b: collision.parent_b,
        contact_count: collision.support_count,
        is_active: true,
        ..pair
    }
}

/// The pair once its bodies stopped touching.
pub open spec fn spec_deactivated(pair: Pair) -> Pair {
    Pair { is_active: false, contact_count: 0, ..pair }
}

impl Pair {
    /// Creates the pair of the two bodies of a collision: active, with one
    /// contact per support point.
    pub fn create(collision: &CollisionKey) -> (pair: Pair)
        ensures
            pair == spec_created(*collision),
            pair.id == spec_pair_id(collision.body_a, collision.body_b),
            pair.body_a == collision.body_a,
            pair.body_b == collision.body_b,
            pair.parent_a == collision.parent_a,
            pair.parent_b == collision.parent_b,
            pair.contact_count == collision.support_count,
            pair.is_active,
            pair.is_sensor == collision.is_sensor,
    {
        Pair {
            id: pair_id(collision.body_a, collision.body_b),
            body_a: collision.body_a,
            body_b: collision.body_b,
            parent_a: collision.parent_a,
            parent_b: collision.parent_b,
            contact_count: collision.support_count,
            is_active: true,
            is_sensor: collision.is_sensor,
        }
    }

    /// Records a further collision of the pair's bodies: the pair becomes
    /// active and takes the collision's parents and support count.
    pub fn update(&mut self, collision: &CollisionKey)
        ensures
            *final(self) == spec_refreshed(*old(self), *collision),
    {
        self.is_active = true;
        self.parent_a = collision.parent_a;
        self.parent_b = collision.parent_b;
        self.contact_count = collision.support_count;
    }

    /// Activates the pair, or deactivates it and drops its contacts.
    pub fn set_active(&mut self, is_active: bool)
        ensures
            *final(self) == (if is_active {
                Pair { is_active: true, ..*old(self) }
            } else {
                spec_deactivated(*old(self))
            }),
    {
        if is_active {
            self.is_active = true;
        } else {
            self.is_active = false;
            self.contact_count = 0;
        }
    }
}

/// No two pairs of the table share an identifier.
pub open spec fn unique_ids(table: Seq<Pair>) -> bool {
    forall|i: int, j: int|
        0 <= i < table.len() && 0 <= j < table.len() && i != j ==> #[trigger] table[i].id
            != #[trigger] table[j].id
}

/// Whether some pair of the table has this identifier.
pub open spec fn has_id(table: Seq<Pair>, id: (usize, usize)) -> bool {
    exists|k: int| 0 <= k < table.len() && #[trigger] table[k].id == id
}

/// The position of the last pair of the table with this identifier, or -1.
pub open spec fn index_of_id(table: Seq<Pair>, id: (usize, usize)) -> int
    decreases table.len(),
{
    if table.len() == 0 {
        -1
    } else if table.last().id == id {
        table.len() - 1
    } else {
        index_of_id(table.drop_last(), id)
    }
}

/// The table and the started and continued pairs while collisions are
/// absorbed one by one.
pub struct Sweep {
    pub table: Seq<Pair>,
    pub start: Seq<(usize, usize)>,
    pub active: Seq<(usize, usize)>,
}

/// Absorbs one collision: an unknown pair is created and starts; a known pair
/// is refreshed, and counts as continuing when it was active.
pub open spec fn absorb_one(s: Sweep, collision: CollisionKey) -> Sweep {
    let id = spec_pair_id(collision.body_a, collision.body_b);
    let i = index_of_id(s.table, id);
    if i >= 0 {
        Sweep {
            table: s.table.update(i, spec_refreshed(s.table[i], collision)),
            start: s.start,
            active: if s.table[i].is_active {
                s.active.push(id)
            } else {
                s.active
            },
        }
    } else {
        Sweep { table: s.table.push(spec_created(collision)), start: s.start.push(id), active: s.active }
    }
}

/// Absorbs the collisions in order, starting from the given table.
pub open spec fn absorb(table: Seq<Pair>, collisions: Seq<CollisionKey>) -> Sweep
    decreases collisions.len(),
{
    if collisions.len() == 0 {
        Sweep { table, start: seq![], active: seq![] }
    } else {
        absorb_one(absorb(table, collisions.drop_last()), collisions.last())
    }
}

/// Whether one of the collisions concerns the pair with this identifier.
pub open spec fn mentions(collisions: Seq<CollisionKey>, id: (usize, usize)) -> bool {
    exists|j: int|
        0 <= j < collisions.len() && spec_pair_id(
            #[trigger] collisions[j].body_a,
            collisions[j].body_b,
        ) == id
}

/// For each pair of the absorbed table, whether it ends: it was in the table
/// before, it had not been updated at the current time, and no collision
/// concerns it.
pub open spec fn end_flags(
    old_table: Seq<Pair>,
    stale: Seq<bool>,
    collisions: Seq<CollisionKey>,
    len: nat,
) -> Seq<bool> {
    Seq::new(
        len,
        |k: int| k < old_table.len() && stale[k] && !mentions(collisions, old_table[k].id),
    )
}

/// The pairs of the table whose flag equals `want`, in table order.
pub open spec fn select(table: Seq<Pair>, flags: Seq<bool>, want: bool) -> Seq<Pair>
    decreases table.len(),
{
    if table.len() == 0 {
        seq![]
    } else {
        let rest = select(table.drop_last(), flags, want);
        if flags[table.len() - 1] == want {
            rest.push(table.last())
        } else {
            rest
        }
    }
}

/// The identifiers of a sequence of pairs.
pub open spec fn ids_of(pairs: Seq<Pair>) -> Seq<(usize, usize)> {
    pairs.map_values(|p: Pair| p.id)
}

/// The pairs currently in contact, and the pairs that started, continued and
/// ended at the last update.
#[derive(Debug)]
pub struct Pairs {
    pub table: Vec<Pair>,
    pub collision_start: Vec<(usize, usize)>,
    pub collision_active: Vec<(usize, usize)>,
    pub collision_end: Vec<(usize, usize)>,
    pub collision_end_pairs: Vec<Pair>,
}

/// The table after an update: the absorbed table without the pairs that ended.
pub open spec fn spec_updated_table(
    old_table: Seq<Pair>,
    collisions: Seq<CollisionKey>,
    stale: Seq<bool>,
) -> Seq<Pair> {
    let mid = absorb(old_table, collisions);
    select(mid.table, end_flags(old_table, stale, collisions, mid.table.len()), false)
}

/// The pairs that an update ends, deactivated, in table order.
pub open spec fn spec_ended_pairs(
    old_table: Seq<Pair>,
    collisions: Seq<CollisionKey>,
    stale: Seq<bool>,
) -> Seq<Pair> {
    let mid = absorb(old_table, collisions);
    select(mid.table, end_flags(old_table, stale, collisions, mid.table.len()), true).map_values(
        |p: Pair| spec_deactivated(p),
    )
}

proof fn lemma_index_of_id(table: Seq<Pair>, id: (usize, usize))
    ensures
        -1 <= index_of_id(table, id) < table.len(),
        index_of_id(table, id) == -1 <==> !has_id(table, id),
        index_of_id(table, id) >= 0 ==> table[index_of_id(table, id)].id == id,
    decreases table.len(),
{
    if table.len() > 0 {
        let rest = table.drop_last();
        lemma_index_of_id(rest, id);
        if table.last().id == id {
            assert(table[table.len() - 1].id == id);
        } else {
            if has_id(table, id) {
                let k = choose|k: int| 0 <= k < table.len() && #[trigger] table[k].id == id;
                assert(rest[k].id == id);
            }
            if has_id(rest, id) {
                let k = choose|k: int| 0 <= k < rest.len() && #[trigger] rest[k].id == id;
                assert(table[k].id == id);
            }
        }
    }
}

proof fn lemma_absorb_take(old_table: Seq<Pair>, collisions: Seq<CollisionKey>, i: int)
    requires
        0 <= i < collisions.len(),
    ensures
        absorb(old_table, collisions.take(i + 1)) == absorb_one(
            absorb(old_table, collisions.take(i)),
            collisions[i],
        ),
{
    assert(collisions.take(i + 1).drop_last() =~= collisions.take(i));
    assert(collisions.take(i + 1).last() == collisions[i]);
}

proof fn lemma_mentions_take(collisions: Seq<CollisionKey>, i: int, id: (usize, usize))
    requires
        0 <= i < collisions.len(),
    ensures
        mentions(collisions.take(i + 1), id) <==> (mentions(collisions.take(i), id) || spec_pair_id(
            collisions[i].body_a,
            collisions[i].body_b,
        ) == id),
{
    let next = collisions.take(i + 1);
    let prev = collisions.take(i);
    if mentions(next, id) {
        let j = choose|j: int|
            0 <= j < next.len() && spec_pair_id(#[trigger] next[j].body_a, next[j].body_b) == id;
        if j < i {
            assert(prev[j] == next[j]);
        }
    }
    if mentions(prev, id) {
        let j = choose|j: int|
            0 <= j < prev.len() && spec_pair_id(#[trigger] prev[j].body_a, prev[j].body_b) == id;
        assert(next[j] == prev[j]);
    }
    if spec_pair_id(collisions[i].body_a, collisions[i].body_b) == id {
        assert(next[i] == collisions[i]);
    }
}

proof fn lemma_select_take(table: Seq<Pair>, flags: Seq<bool>, want: bool, k: int)
    requires
        0 <= k < table.len(),
    ensures
        select(table.take(k + 1), flags, want) == (if flags[k] == want {
            select(table.take(k), flags, want).push(table[k])
        } else {
            select(table.take(k), flags, want)
        }),
{
    assert(table.take(k + 1).drop_last() =~= table.take(k));
    assert(table.take(k + 1).last() == table[k]);
}

/// Looks up the position of the pair with this identifier.
fn find_pair(table: &Vec<Pair>, id: (usize, usize)) -> (found: Option<usize>)
    requires
        unique_ids(table@),
    ensures
        match found {
            Some(k) => k < table@.len() && index_of_id(table@, id) == k as int,
            None => index_of_id(table@, id) == -1,
        },
{
    proof {
        lemma_index_of_id(table@, id);
    }
    let mut k: usize = 0;
    while k < table.len()
        invariant
            k <= table@.len(),
            unique_ids(table@),
            forall|m: int| 0 <= m < k ==> #[trigger] table@[m].id != id,
        decreases table@.len() - k,
    {
        if table[k].id.0 == id.0 && table[k].id.1 == id.1 {
            proof {
                lemma_index_of_id(table@, id);
                assert(table@[k as int].id == id);
                assert(has_id(table@, id));
                let idx = index_of_id(table@, id);
                assert(table@[idx].id == table@[k as int].id);
            }
            return Some(k);
        }
        k += 1;
    }
    None
}

impl Pairs {
    /// The table holds each pair at most once.
    pub open spec fn wf(&self) -> bool {
        unique_ids(self.table@)
    }

    /// An empty set of pairs.
    pub fn new() -> (pairs: Pairs)
        ensures
            pairs.wf(),
            pairs.table@ == Seq::<Pair>::empty(),
            pairs.collision_start@ == Seq::<(usize, usize)>::empty(),
            pairs.collision_active@ == Seq::<(usize, usize)>::empty(),
            pairs.collision_end@ == Seq::<(usize, usize)>::empty(),
            pairs.collision_end_pairs@ == Seq::<Pair>::empty(),
    {
        Pairs {
            table: Vec::new(),
            collision_start: Vec::new(),
            collision_active: Vec::new(),
            collision_end: Vec::new(),
            collision_end_pairs: Vec::new(),
        }
    }

    /// Forgets every pair and every recorded start, continuation and end.
    pub fn clear(&mut self)
        ensures
            final(self).wf(),
            final(self).table@ == Seq::<Pair>::empty(),
            final(self).collision_start@ == Seq::<(usize, usize)>::empty(),
            final(self).collision_active@ == Seq::<(usize, usize)>::empty(),
            final(self).collision_end@ == Seq::<(usize, usize)>::empty(),
            final(self).collision_end_pairs@ == Seq::<Pair>::empty(),
    {
        self.table.clear();
        self.collision_start.clear();
        self.collision_active.clear();
        self.collision_end.clear();
        self.collision_end_pairs.clear();
    }

    /// Records the collisions of this step. A collision of bodies without a
    /// pair creates an active pair and starts it; a collision of bodies with a
    /// pair refreshes it and, if the pair was active, continues it. Every pair
    /// that no collision concerns and whose `stale` flag is set (it was last
    /// updated before the current time) ends: it is deactivated and leaves the
    /// table. `stale[k]` belongs to the `k`-th pair of the table before the call.
    pub fn update(&mut self, collisions: &Vec<CollisionKey>, stale: &Vec<bool>)
        requires
            old(self).wf(),
            stale@.len() == old(self).table@.len(),
        ensures
            final(self).wf(),
            final(self).table@ == spec_updated_table(old(self).table@, collisions@, stale@),
            final(self).collision_start@ == absorb(old(self).table@, collisions@).start,
            final(self).collision_active@ == absorb(old(self).table@, collisions@).active,
            final(self).collision_end_pairs@ == spec_ended_pairs(
                old(self).table@,
                collisions@,
                stale@,
            ),
            final(self).collision_end@ == ids_of(
                spec_ended_pairs(old(self).table@, collisions@, stale@),
            ),
    {
        let ghost old_table = self.table@;
        let mut table: Vec<Pair> = Vec::new();
        core::mem::swap(&mut table, &mut self.table);
        let mut start: Vec<(usize, usize)> = Vec::new();
        let mut active: Vec<(usize, usize)> = Vec::new();
        let mut touched: Vec<bool> = Vec::new();
        let mut k: usize = 0;
        while k < table.len()
            invariant
                table@ == old_table,
                k <= table@.len(),
                touched@.len() == k,
                forall|m: int| 0 <= m < k ==> !#[trigger] touched@[m],
            decreases table@.len() - k,
        {
            touched.push(false);
            k += 1;
        }
        assert(collisions@.take(0) =~= Seq::<CollisionKey>::empty());
        let n = collisions.len();
        let mut i: usize = 0;
        while i < n
            invariant
                n == collisions@.len(),
                i <= n,
                stale@.len() == old_table.len(),
                absorb(old_table, collisions@.take(i as int)).table == table@,
                absorb(old_table, collisions@.take(i as int)).start == start@,
                absorb(old_table, collisions@.take(i as int)).active == active@,
                unique_ids(table@),
                touched@.len() == table@.len(),
                table@.len() >= old_table.len(),
                forall|m: int| 0 <= m < old_table.len() ==> #[trigger] table@[m].id == old_table[m].id,
                forall|m: int|
                    0 <= m < table@.len() ==> #[trigger] touched@[m] == mentions(
                        collisions@.take(i as int),
                        table@[m].id,
                    ),
            decreases n - i,
        {
            let c = collisions[i];
            let id = pair_id(c.body_a, c.body_b);
            proof {
                lemma_absorb_take(old_table, collisions@, i as int);
                lemma_index_of_id(table@, id);
                assert forall|x: (usize, usize)|
                    mentions(collisions@.take(i + 1), x) <==> (mentions(collisions@.take(i as int), x)
                        || id == x) by {
                    lemma_mentions_take(collisions@, i as int, x);
                }
            }
            let ghost prev_table = table@;
            let ghost prev_touched = touched@;
            match find_pair(&table, id) {
                Some(j) => {
                    if table[j].is_active {
                        active.push(id);
                    }
                    let mut p = table[j];
                    p.update(&c);
                    table.set(j, p);
                    touched.set(j, true);
                    assert forall|m: int| 0 <= m < table@.len() implies #[trigger] touched@[m]
                        == mentions(collisions@.take(i + 1), table@[m].id) by {
                        if m != j {
                            assert(prev_table[m].id != prev_table[j as int].id);
                        }
                    }
                }
                None => {
                    table.push(Pair::create(&c));
                    start.push(id);
                    touched.push(true);
                    assert forall|m: int| 0 <= m < table@.len() implies #[trigger] touched@[m]
                        == mentions(collisions@.take(i + 1), table@[m].id) by {
                        if m < prev_table.len() {
                            assert(prev_table[m].id != id);
                        }
                    }
                }
            }
            i += 1;
        }
        assert(collisions@.take(n as int) =~= collisions@);
        let ghost mid = absorb(old_table, collisions@);
        let ghost flags = end_flags(old_table, stale@, collisions@, mid.table.len());
        let mut kept: Vec<Pair> = Vec::new();
        let mut ended: Vec<Pair> = Vec::new();
        let mut end_ids: Vec<(usize, usize)> = Vec::new();
        let old_len = stale.len();
        let len = table.len();
        assert(table@.take(0) =~= Seq::<Pair>::empty());
        let ghost mut origin: Seq<int> = Seq::empty();
        let mut k: usize = 0;
        while k < len
            invariant
                len == table@.len(),
                k <= len,
                old_len == old_table.len(),
                stale@.len() == old_len,
                table@ == mid.table,
                flags == end_flags(old_table, stale@, collisions@, mid.table.len()),
                unique_ids(table@),
                touched@.len() == table@.len(),
                table@.len() >= old_table.len(),
                forall|m: int| 0 <= m < old_table.len() ==> #[trigger] table@[m].id == old_table[m].id,
                forall|m: int|
                    0 <= m < table@.len() ==> #[trigger] touched@[m] == mentions(
                        collisions@,
                        table@[m].id,
                    ),
                kept@ == select(table@.take(k as int), flags, false),
                ended@ == select(table@.take(k as int), flags, true).map_values(
                    |p: Pair| spec_deactivated(p),
                ),
                end_ids@ == ids_of(ended@),
                unique_ids(kept@),
                origin.len() == kept@.len(),
                forall|m: int|
                    0 <= m < kept@.len() ==> 0 <= #[trigger] origin[m] < k && table@[origin[m]].id
                        == kept@[m].id,
            decreases len - k,
        {
            let p = table[k];
            let ends = k < old_len && stale[k] && !touched[k];
            proof {
                lemma_select_take(table@, flags, false, k as int);
                lemma_select_take(table@, flags, true, k as int);
                assert(flags[k as int] == ends);
            }
            let ghost prev_kept = kept@;
            let ghost prev_ended = ended@;
            if ends {
                let mut q = p;
                q.set_active(false);
                end_ids.push(q.id);
                ended.push(q);
                assert(ended@ =~= prev_ended.push(spec_deactivated(p)));
                assert(select(table@.take(k + 1), flags, true).map_values(
                    |p: Pair| spec_deactivated(p),
                ) =~= prev_ended.push(spec_deactivated(p)));
                assert(ids_of(ended@) =~= ids_of(prev_ended).push(q.id));

            } else {
                kept.push(p);
                let ghost prev_origin = origin;
                proof {
                    origin = origin.push(k as int);
                }
                assert forall|a: int, b: int|
                    0 <= a < kept@.len() && 0 <= b < kept@.len() && a != b implies #[trigger] kept@[a].id
                    != #[trigger] kept@[b].id by {
                    if b == prev_kept.len() && a < prev_kept.len() {
                        assert(prev_origin[a] < k);
                        assert(table@[prev_origin[a]].id != table@[k as int].id);
                    }
                    if a == prev_kept.len() && b < prev_kept.len() {
                        assert(prev_origin[b] < k);
                        assert(table@[prev_origin[b]].id != table@[k as int].id);
                    }
                }
            }
            k += 1;
        }
        assert(table@.take(len as int) =~= table@);
        self.table = kept;
        self.collision_start = start;
        self.collision_active = active;
        self.collision_end = end_ids;
        self.collision_end_pairs = ended;
    }
}

proof fn lemma_mentions_last(collisions: Seq<CollisionKey>, id: (usize, usize))
    requires
        collisions.len() > 0,
    ensures
        mentions(collisions, id) <==> (mentions(collisions.drop_last(), id) || spec_pair_id(
            collisions.last().body_a,
            collisions.last().body_b,
        ) == id),
{
    let prev = collisions.drop_last();
    if mentions(collisions, id) {
        let j = choose|j: int|
            0 <= j < collisions.len() && spec_pair_id(
                #[trigger] collisions[j].body_a,
                collisions[j].body_b,
            ) == id;
        if j < prev.len() {
            assert(prev[j] == collisions[j]);
        }
    }
    if mentions(prev, id) {
        let j = choose|j: int|
            0 <= j < prev.len() && spec_pair_id(#[trigger] prev[j].body_a, prev[j].body_b) == id;
        assert(collisions[j] == prev[j]);
    }
    if spec_pair_id(collisions.last().body_a, collisions.last().body_b) == id {
        assert(collisions[collisions.len() - 1] == collisions.last());
    }
}

/// Facts that hold of the table and lists built by absorbing collisions.
proof fn lemma_absorb_facts(old_table: Seq<Pair>, collisions: Seq<CollisionKey>)
    requires
        unique_ids(old_table),
    ensures
        ({
            let s = absorb(old_table, collisions);
            &&& s.table.len() >= old_table.len()
            &&& forall|k: int| 0 <= k < old_table.len() ==> #[trigger] s.table[k].id == old_table[k].id
            &&& unique_ids(s.table)
            &&& forall|k: int|
                old_table.len() <= k < s.table.len() ==> mentions(collisions, #[trigger] s.table[k].id)
            &&& forall|x: (usize, usize)|
                mentions(collisions, x) ==> exists|k: int|
                    0 <= k < s.table.len() && #[trigger] s.table[k].id == x && s.table[k].is_active
            &&& forall|m: int| 0 <= m < s.start.len() ==> !has_id(old_table, #[trigger] s.start[m])
            &&& forall|m: int| 0 <= m < s.start.len() ==> mentions(collisions, #[trigger] s.start[m])
            &&& forall|m: int| 0 <= m < s.active.len() ==> mentions(collisions, #[trigger] s.active[m])
        }),
    decreases collisions.len(),
{
    if collisions.len() > 0 {
        let prev = collisions.drop_last();
        let c = collisions.last();
        let id = spec_pair_id(c.body_a, c.body_b);
        lemma_absorb_facts(old_table, prev);
        let p = absorb(old_table, prev);
        let s = absorb(old_table, collisions);
        assert(s == absorb_one(p, c));
        lemma_index_of_id(p.table, id);
        assert forall|x: (usize, usize)| #[trigger]
            mentions(collisions, x) <==> (mentions(prev, x) || id == x) by {
            lemma_mentions_last(collisions, x);
        }
        let i = index_of_id(p.table, id);
        if i >= 0 {
            assert forall|a: int, b: int|
                0 <= a < s.table.len() && 0 <= b < s.table.len() && a != b implies #[trigger] s.table[a].id
                != #[trigger] s.table[b].id by {
                assert(p.table[a].id != p.table[b].id);
            }
            assert forall|x: (usize, usize)| mentions(collisions, x) implies exists|k: int|
                0 <= k < s.table.len() && #[trigger] s.table[k].id == x && s.table[k].is_active by {
                if x == id {
                    assert(s.table[i].id == x && s.table[i].is_active);
                } else {
                    assert(mentions(prev, x));
                    let k = choose|k: int|
                        0 <= k < p.table.len() && #[trigger] p.table[k].id == x && p.table[k].is_active;
                    assert(s.table[k].id == x && s.table[k].is_active);
                }
            }
            assert forall|m: int| 0 <= m < s.active.len() implies mentions(
                collisions,
                #[trigger] s.active[m],
            ) by {
                if m < p.active.len() {
                    assert(s.active[m] == p.active[m]);
                    assert(mentions(prev, p.active[m]));
                } else {
                    assert(s.active[m] == id);
                }
            }
            assert forall|m: int| 0 <= m < s.start.len() implies mentions(
                collisions,
                #[trigger] s.start[m],
            ) by {
                assert(mentions(prev, p.start[m]));
            }
            assert forall|k: int| old_table.len() <= k < s.table.len() implies mentions(
                collisions,
                #[trigger] s.table[k].id,
            ) by {
                assert(s.table[k].id == p.table[k].id);
                assert(mentions(prev, p.table[k].id));
            }
            assert forall|k: int| 0 <= k < old_table.len() implies #[trigger] s.table[k].id
                == old_table[k].id by {
                assert(s.table[k].id == p.table[k].id);
            }
        } else {
            assert(!has_id(p.table, id));
            assert forall|a: int, b: int|
                0 <= a < s.table.len() && 0 <= b < s.table.len() && a != b implies #[trigger] s.table[a].id
                != #[trigger] s.table[b].id by {
                if a < p.table.len() && b < p.table.len() {
                    assert(p.table[a].id != p.table[b].id);
                } else if a < p.table.len() {
                    assert(p.table[a].id != id);
                } else if b < p.table.len() {
                    assert(p.table[b].id != id);
                }
            }
            assert forall|x: (usize, usize)| mentions(collisions, x) implies exists|k: int|
                0 <= k < s.table.len() && #[trigger] s.table[k].id == x && s.table[k].is_active by {
                if x == id {
                    let k = p.table.len() as int;
                    assert(s.table[k].id == x && s.table[k].is_active);
                } else {
                    assert(mentions(prev, x));
                    let k = choose|k: int|
                        0 <= k < p.table.len() && #[trigger] p.table[k].id == x && p.table[k].is_active;
                    assert(s.table[k].id == x && s.table[k].is_active);
                }
            }
            assert forall|m: int| 0 <= m < s.start.len() implies !has_id(
                old_table,
                #[trigger] s.start[m],
            ) by {
                if m < p.start.len() {
                    assert(s.start[m] == p.start[m]);
                } else {
                    assert(s.start[m] == id);
                    if has_id(old_table, id) {
                        let k = choose|k: int| 0 <= k < old_table.len() && #[trigger] old_table[k].id == id;
                        assert(p.table[k].id == id);
                    }
                }
            }
            assert forall|m: int| 0 <= m < s.start.len() implies mentions(
                collisions,
                #[trigger] s.start[m],
            ) by {
                if m < p.start.len() {
                    assert(s.start[m] == p.start[m]);
                    assert(mentions(prev, p.start[m]));
                } else {
                    assert(s.start[m] == id);
                }
            }
            assert forall|m: int| 0 <= m < s.active.len() implies mentions(
                collisions,
                #[trigger] s.active[m],
            ) by {
                assert(mentions(prev, p.active[m]));
            }
            assert forall|k: int| old_table.len() <= k < s.table.len() implies mentions(
                collisions,
                #[trigger] s.table[k].id,
            ) by {
                if k < p.table.len() {
                    assert(s.table[k].id == p.table[k].id);
                    assert(mentions(prev, p.table[k].id));
                }
            }
        }
    }
}

/// Which pairs a selection keeps: exactly the pairs whose flag equals `want`.
proof fn lemma_select_members(table: Seq<Pair>, flags: Seq<bool>, want: bool, x: (usize, usize))
    ensures
        has_id(select(table, flags, want), x) <==> exists|k: int|
            0 <= k < table.len() && #[trigger] table[k].id == x && flags[k] == want,
    decreases table.len(),
{
    if table.len() > 0 {
        let rest = table.drop_last();
        let r = select(rest, flags, want);
        let last = table.len() - 1;
        lemma_select_members(rest, flags, want, x);
        let sel = select(table, flags, want);
        if has_id(sel, x) {
            let m = choose|m: int| 0 <= m < sel.len() && #[trigger] sel[m].id == x;
            if m < r.len() {
                assert(sel[m] == r[m]);
                assert(has_id(r, x));
                let k = choose|k: int| 0 <= k < rest.len() && #[trigger] rest[k].id == x && flags[k] == want;
                assert(table[k].id == x);
            } else {
                assert(table[last].id == x);
            }
        }
        if exists|k: int| 0 <= k < table.len() && #[trigger] table[k].id == x && flags[k] == want {
            let k = choose|k: int| 0 <= k < table.len() && #[trigger] table[k].id == x && flags[k] == want;
            if k < last {
                assert(rest[k].id == x);
                assert(has_id(r, x));
                let m = choose|m: int| 0 <= m < r.len() && #[trigger] r[m].id == x;
                assert(sel[m].id == x);
            } else {
                assert(sel[r.len() as int].id == x);
            }
        }
    }
}

/// A pair is in the table after an update exactly when some collision of the
/// step concerns it, or it was in the table before and had been updated at the
/// current time.
pub proof fn lemma_update_membership(
    old_table: Seq<Pair>,
    collisions: Seq<CollisionKey>,
    stale: Seq<bool>,
    x: (usize, usize),
)
    requires
        unique_ids(old_table),
        stale.len() == old_table.len(),
    ensures
        has_id(spec_updated_table(old_table, collisions, stale), x) <==> (mentions(collisions, x)
            || exists|k: int| 0 <= k < old_table.len() && #[trigger] old_table[k].id == x && !stale[k]),
{
    lemma_absorb_facts(old_table, collisions);
    let mid = absorb(old_table, collisions);
    let flags = end_flags(old_table, stale, collisions, mid.table.len());
    lemma_select_members(mid.table, flags, false, x);
    if mentions(collisions, x) {
        let k = choose|k: int|
            0 <= k < mid.table.len() && #[trigger] mid.table[k].id == x && mid.table[k].is_active;
        if k < old_table.len() {
            assert(old_table[k].id == x);
        }
        assert(flags[k] == false);
    }
    if exists|k: int| 0 <= k < old_table.len() && #[trigger] old_table[k].id == x && !stale[k] {
        let k = choose|k: int| 0 <= k < old_table.len() && #[trigger] old_table[k].id == x && !stale[k];
        assert(mid.table[k].id == x);
        assert(flags[k] == false);
    }
    if has_id(spec_updated_table(old_table, collisions, stale), x) {
        let k = choose|k: int| 0 <= k < mid.table.len() && #[trigger] mid.table[k].id == x && flags[k] == false;
        if k < old_table.len() {
            assert(old_table[k].id == x);
            if stale[k] {
                assert(mentions(collisions, x));
            }
        } else {
            assert(mentions(collisions, mid.table[k].id));
        }
    }
}

/// Every pair that some collision of the step concerns is in the table after
/// the update, and active.
pub proof fn lemma_collided_pairs_active(
    old_table: Seq<Pair>,
    collisions: Seq<CollisionKey>,
    stale: Seq<bool>,
    x: (usize, usize),
)
    requires
        unique_ids(old_table),
        stale.len() == old_table.len(),
        mentions(collisions, x),
    ensures
        exists|m: int|
            0 <= m < spec_updated_table(old_table, collisions, stale).len() && #[trigger] spec_updated_table(
                old_table,
                collisions,
                stale,
            )[m].id == x && spec_updated_table(old_table, collisions, stale)[m].is_active,
{
    lemma_absorb_facts(old_table, collisions);
    let mid = absorb(old_table, collisions);
    let flags = end_flags(old_table, stale, collisions, mid.table.len());
    let k = choose|k: int|
        0 <= k < mid.table.len() && #[trigger] mid.table[k].id == x && mid.table[k].is_active;
    if k < old_table.len() {
        assert(old_table[k].id == x);
    }
    assert(flags[k] == false);
    lemma_select_has(mid.table, flags, false, k);
    let sel = select(mid.table, flags, false);
    assert(sel == spec_updated_table(old_table, collisions, stale));
    let m = choose|m: int| 0 <= m < sel.len() && #[trigger] sel[m] == mid.table[k];
    assert(sel[m].id == x && sel[m].is_active);
}

proof fn lemma_select_has(table: Seq<Pair>, flags: Seq<bool>, want: bool, k: int)
    requires
        0 <= k < table.len(),
        flags[k] == want,
    ensures
        exists|m: int|
            0 <= m < select(table, flags, want).len() && #[trigger] select(table, flags, want)[m]
                == table[k],
    decreases table.len(),
{
    let rest = table.drop_last();
    let r = select(rest, flags, want);
    if k < table.len() - 1 {
        lemma_select_has(rest, flags, want, k);
        let m = choose|m: int| 0 <= m < r.len() && #[trigger] r[m] == rest[k];
        assert(select(table, flags, want)[m] == table[k]);
    } else {
        assert(select(table, flags, want)[r.len() as int] == table[k]);
    }
}

/// A pair that starts at an update was not in the table before, and some
/// collision of the step concerns it.
pub proof fn lemma_started_pairs_are_new(
    old_table: Seq<Pair>,
    collisions: Seq<CollisionKey>,
    m: int,
)
    requires
        unique_ids(old_table),
        0 <= m < absorb(old_table, collisions).start.len(),
    ensures
        !has_id(old_table, absorb(old_table, collisions).start[m]),
        mentions(collisions, absorb(old_table, collisions).start[m]),
{
    lemma_absorb_facts(old_table, collisions);
}

/// A pair that continues at an update is one that some collision concerns.
pub proof fn lemma_continued_pairs_collided(
    old_table: Seq<Pair>,
    collisions: Seq<CollisionKey>,
    m: int,
)
    requires
        unique_ids(old_table),
        0 <= m < absorb(old_table, collisions).active.len(),
    ensures
        mentions(collisions, absorb(old_table, collisions).active[m]),
{
    lemma_absorb_facts(old_table, collisions);
}

/// A pair that ends at an update was in the table before, had not been
/// updated at the current time, and no collision of the step concerns it;
/// so it neither starts nor continues at the same update.
pub proof fn lemma_ended_pairs_untouched(
    old_table: Seq<Pair>,
    collisions: Seq<CollisionKey>,
    stale: Seq<bool>,
    m: int,
)
    requires
        unique_ids(old_table),
        stale.len() == old_table.len(),
        0 <= m < spec_ended_pairs(old_table, collisions, stale).len(),
    ensures
        ({
            let x = spec_ended_pairs(old_table, collisions, stale)[m].id;
            &&& exists|k: int| 0 <= k < old_table.len() && #[trigger] old_table[k].id == x && stale[k]
            &&& !mentions(collisions, x)
            &&& !absorb(old_table, collisions).start.contains(x)
            &&& !absorb(old_table, collisions).active.contains(x)
        }),
{
    lemma_absorb_facts(old_table, collisions);
    let mid = absorb(old_table, collisions);
    let flags = end_flags(old_table, stale, collisions, mid.table.len());
    let sel = select(mid.table, flags, true);
    let x = spec_ended_pairs(old_table, collisions, stale)[m].id;
    assert(sel[m].id == x);
    assert(has_id(sel, x));
    lemma_select_members(mid.table, flags, true, x);
    let k = choose|k: int| 0 <= k < mid.table.len() && #[trigger] mid.table[k].id == x && flags[k] == true;
    assert(old_table[k].id == x);
    if mid.start.contains(x) {
        let q = choose|q: int| 0 <= q < mid.start.len() && mid.start[q] == x;
        assert(!has_id(old_table, mid.start[q]));
    }
    if mid.active.contains(x) {
        let q = choose|q: int| 0 <= q < mid.active.len() && mid.active[q] == x;
        assert(mentions(collisions, mid.active[q]));
    }
}

proof fn lemma_absorb_active(old_table: Seq<Pair>, collisions: Seq<CollisionKey>)
    requires
        forall|k: int| 0 <= k < old_table.len() ==> (#[trigger] old_table[k]).is_active,
    ensures
        forall|k: int|
            0 <= k < absorb(old_table, collisions).table.len() ==> (#[trigger] absorb(
                old_table,
                collisions,
            ).table[k]).is_active,
    decreases collisions.len(),
{
    if collisions.len() > 0 {
        lemma_absorb_active(old_table, collisions.drop_last());
        let p = absorb(old_table, collisions.drop_last());
        let c = collisions.last();
        lemma_index_of_id(p.table, spec_pair_id(c.body_a, c.body_b));
        let s = absorb(old_table, collisions);
        assert forall|k: int| 0 <= k < s.table.len() implies (#[trigger] s.table[k]).is_active by {
            if k < p.table.len() {
                assert(p.table[k].is_active);
            }
        }
    }
}

proof fn lemma_select_from(table: Seq<Pair>, flags: Seq<bool>, want: bool)
    ensures
        forall|m: int|
            0 <= m < select(table, flags, want).len() ==> table.contains(
                #[trigger] select(table, flags, want)[m],
            ),
    decreases table.len(),
{
    if table.len() > 0 {
        let rest = table.drop_last();
        lemma_select_from(rest, flags, want);
        let r = select(rest, flags, want);
        let sel = select(table, flags, want);
        assert forall|m: int| 0 <= m < sel.len() implies table.contains(#[trigger] sel[m]) by {
            if m < r.len() {
                assert(sel[m] == r[m]);
                assert(rest.contains(r[m]));
                let k = choose|k: int| 0 <= k < rest.len() && rest[k] == r[m];
                assert(table[k] == sel[m]);
            } else {
                assert(table[table.len() - 1] == sel[m]);
            }
        }
    }
}

/// If every pair of the table is active, every pair of the table after an
/// update is active too; the ended pairs are all inactive and without
/// contacts.
pub proof fn lemma_update_keeps_active(
    old_table: Seq<Pair>,
    collisions: Seq<CollisionKey>,
    stale: Seq<bool>,
)
    requires
        forall|k: int| 0 <= k < old_table.len() ==> (#[trigger] old_table[k]).is_active,
    ensures
        forall|m: int|
            0 <= m < spec_updated_table(old_table, collisions, stale).len() ==> (
            #[trigger] spec_updated_table(old_table, collisions, stale)[m]).is_active,
        forall|m: int|
            0 <= m < spec_ended_pairs(old_table, collisions, stale).len() ==> !(
            #[trigger] spec_ended_pairs(old_table, collisions, stale)[m]).is_active
                && spec_ended_pairs(old_table, collisions, stale)[m].contact_count == 0,
{
    lemma_absorb_active(old_table, collisions);
    let mid = absorb(old_table, collisions);
    let flags = end_flags(old_table, stale, collisions, mid.table.len());
    lemma_select_from(mid.table, flags, false);
    let t = spec_updated_table(old_table, collisions, stale);
    assert forall|m: int| 0 <= m < t.len() implies (#[trigger] t[m]).is_active by {
        assert(mid.table.contains(select(mid.table, flags, false)[m]));
        let k = choose|k: int| 0 <= k < mid.table.len() && mid.table[k] == select(
            mid.table,
            flags,
            false,
        )[m];
        assert(mid.table[k].is_active);
    }
}

/// `collisions[j]` is the first of the collisions that concerns the pair `id`.
pub open spec fn first_concerning(collisions: Seq<CollisionKey>, id: (usize, usize), j: int) -> bool {
    &&& 0 <= j < collisions.len()
    &&& spec_pair_id(collisions[j].body_a, collisions[j].body_b) == id
    &&& forall|i: int|
        0 <= i < j ==> spec_pair_id(#[trigger] collisions[i].body_a, collisions[i].body_b) != id
}

/// The position of the first collision concerning the pair `id`, or -1.
pub open spec fn first_index(collisions: Seq<CollisionKey>, id: (usize, usize)) -> int
    decreases collisions.len(),
{
    if collisions.len() == 0 {
        -1
    } else {
        let r = first_index(collisions.drop_last(), id);
        if r >= 0 {
            r
        } else if spec_pair_id(collisions.last().body_a, collisions.last().body_b) == id {
            collisions.len() - 1
        } else {
            -1
        }
    }
}

proof fn lemma_first_index(collisions: Seq<CollisionKey>, id: (usize, usize))
    ensures
        first_index(collisions, id) >= 0 ==> first_concerning(collisions, id, first_index(collisions, id)),
        first_index(collisions, id) < 0 ==> !mentions(collisions, id),
        first_index(collisions, id) >= -1,
    decreases collisions.len(),
{
    if collisions.len() > 0 {
        let prev = collisions.drop_last();
        lemma_first_index(prev, id);
        lemma_mentions_last(collisions, id);
        let r = first_index(prev, id);
        let n = collisions.len() - 1;
        if r >= 0 {
            assert(collisions[r] == prev[r]);
            assert forall|i: int| 0 <= i < r implies spec_pair_id(
                #[trigger] collisions[i].body_a,
                collisions[i].body_b,
            ) != id by {
                assert(collisions[i] == prev[i]);
            }
        } else if spec_pair_id(collisions.last().body_a, collisions.last().body_b) == id {
            assert(collisions[n] == collisions.last());
            assert forall|i: int| 0 <= i < n implies spec_pair_id(
                #[trigger] collisions[i].body_a,
                collisions[i].body_b,
            ) != id by {
                assert(collisions[i] == prev[i]);
                if spec_pair_id(prev[i].body_a, prev[i].body_b) == id {
                    assert(mentions(prev, id));
                }
            }
        }
    }
}

proof fn lemma_absorb_sensor(old_table: Seq<Pair>, collisions: Seq<CollisionKey>)
    requires
        unique_ids(old_table),
    ensures
        ({
            let s = absorb(old_table, collisions);
            &&& forall|k: int|
                0 <= k < old_table.len() ==> (#[trigger] s.table[k]).is_sensor
                    == old_table[k].is_sensor
            &&& forall|k: int|
                old_table.len() <= k < s.table.len() ==> first_index(
                    collisions,
                    (#[trigger] s.table[k]).id,
                ) >= 0 && s.table[k].is_sensor == collisions[first_index(
                    collisions,
                    s.table[k].id,
                )].is_sensor
        }),
    decreases collisions.len(),
{
    lemma_absorb_facts(old_table, collisions);
    if collisions.len() > 0 {
        let prev = collisions.drop_last();
        let c = collisions.last();
        let n = collisions.len() - 1;
        let id = spec_pair_id(c.body_a, c.body_b);
        lemma_absorb_sensor(old_table, prev);
        lemma_absorb_facts(old_table, prev);
        let p = absorb(old_table, prev);
        let s = absorb(old_table, collisions);
        lemma_index_of_id(p.table, id);
        let idx = index_of_id(p.table, id);
        assert forall|k: int| 0 <= k < old_table.len() implies (#[trigger] s.table[k]).is_sensor
            == old_table[k].is_sensor by {
            assert(p.table[k].is_sensor == old_table[k].is_sensor);
        }
        assert forall|k: int| old_table.len() <= k < s.table.len() implies first_index(
            collisions,
            (#[trigger] s.table[k]).id,
        ) >= 0 && s.table[k].is_sensor == collisions[first_index(
            collisions,
            s.table[k].id,
        )].is_sensor by {
            if k < p.table.len() {
                assert(s.table[k].id == p.table[k].id && s.table[k].is_sensor == p.table[k].is_sensor);
                let r = first_index(prev, p.table[k].id);
                assert(r >= 0);
                lemma_first_index(prev, p.table[k].id);
                assert(collisions[r] == prev[r]);
            } else {
                assert(idx < 0);
                assert(s.table[k] == spec_created(c));
                lemma_first_index(prev, id);
                if first_index(prev, id) >= 0 {
                    assert(mentions(prev, id)) by {
                        let r = first_index(prev, id);
                        assert(spec_pair_id(prev[r].body_a, prev[r].body_b) == id);
                    }
                    let q = choose|q: int|
                        0 <= q < p.table.len() && #[trigger] p.table[q].id == id && p.table[q].is_active;
                    assert(has_id(p.table, id));
                }
                assert(first_index(collisions, id) == n);
                assert(collisions[n] == c);
            }
        }
    }
}

/// A pair that a step creates is a sensor pair exactly when the first
/// collision of the step that concerns it involves a sensor, and it stays so
/// in the table after the update.
pub proof fn lemma_new_pairs_carry_sensor(
    old_table: Seq<Pair>,
    collisions: Seq<CollisionKey>,
    stale: Seq<bool>,
    x: (usize, usize),
)
    requires
        unique_ids(old_table),
        stale.len() == old_table.len(),
        !has_id(old_table, x),
        mentions(collisions, x),
    ensures
        exists|m: int, j: int|
            0 <= m < spec_updated_table(old_table, collisions, stale).len() && #[trigger] spec_updated_table(
                old_table,
                collisions,
                stale,
            )[m].id == x && first_concerning(collisions, x, j) && spec_updated_table(
                old_table,
                collisions,
                stale,
            )[m].is_sensor == #[trigger] collisions[j].is_sensor,
{
    lemma_absorb_facts(old_table, collisions);
    lemma_absorb_sensor(old_table, collisions);
    let mid = absorb(old_table, collisions);
    let flags = end_flags(old_table, stale, collisions, mid.table.len());
    let k = choose|k: int| 0 <= k < mid.table.len() && #[trigger] mid.table[k].id == x && mid.table[k].is_active;
    if k < old_table.len() {
        assert(old_table[k].id == x);
        assert(has_id(old_table, x));
    }
    assert(flags[k] == false);
    let j = first_index(collisions, x);
    lemma_first_index(collisions, x);
    lemma_select_has(mid.table, flags, false, k);
    let sel = select(mid.table, flags, false);
    let m = choose|m: int| 0 <= m < sel.len() && #[trigger] sel[m] == mid.table[k];
    assert(sel == spec_updated_table(old_table, collisions, stale));
    assert(sel[m].id == x && sel[m].is_sensor == collisions[j].is_sensor);
    assert(first_concerning(collisions, x, j));
}

/// A pair that was in the table keeps its sensor flag through an update.
pub proof fn lemma_old_pairs_keep_sensor(
    old_table: Seq<Pair>,
    collisions: Seq<CollisionKey>,
    stale: Seq<bool>,
    m: int,
    k: int,
)
    requires
        unique_ids(old_table),
        stale.len() == old_table.len(),
        0 <= k < old_table.len(),
        0 <= m < spec_updated_table(old_table, collisions, stale).len(),
        spec_updated_table(old_table, collisions, stale)[m].id == old_table[k].id,
    ensures
        spec_updated_table(old_table, collisions, stale)[m].is_sensor == old_table[k].is_sensor,
{
    lemma_absorb_facts(old_table, collisions);
    lemma_absorb_sensor(old_table, collisions);
    let mid = absorb(old_table, collisions);
    let flags = end_flags(old_table, stale, collisions, mid.table.len());
    lemma_select_from(mid.table, flags, false);
    let sel = select(mid.table, flags, false);
    assert(mid.table.contains(sel[m]));
    let q = choose|q: int| 0 <= q < mid.table.len() && mid.table[q] == sel[m];
    assert(mid.table[q].id == mid.table[k].id);
    assert(q == k);
}

} // verus!
