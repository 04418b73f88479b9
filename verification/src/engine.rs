use vstd::prelude::*;
use crate::collision::{Pair, Pairs};

verus! {

/// A collision event of one step: the identifiers of the pairs that started,
/// continued or ended touching.
#[derive(Debug, Clone)]
pub enum PhysicsEvent {
    CollisionStart { pairs: Vec<(usize, usize)> },
    CollisionActive { pairs: Vec<(usize, usize)> },
    CollisionEnd { pairs: Vec<(usize, usize)> },
}

/// The kind of an event (0 start, 1 continuation, 2 end) and its pairs.
pub open spec fn event_view(event: PhysicsEvent) -> (int, Seq<(usize, usize)>) {
    match event {
        PhysicsEvent::CollisionStart { pairs } => (0, pairs@),
        PhysicsEvent::CollisionActive { pairs } => (1, pairs@),
        PhysicsEvent::CollisionEnd { pairs } => (2, pairs@),
    }
}

/// The events of each kind whose list of pairs is not empty, in the order
/// start, continuation, end.
pub open spec fn spec_events(
    start: Seq<(usize, usize)>,
    active: Seq<(usize, usize)>,
    end: Seq<(usize, usize)>,
) -> Seq<(int, Seq<(usize, usize)>)> {
    (if start.len() > 0 {
        seq![(0int, start)]
    } else {
        seq![]
    }) + (if active.len() > 0 {
        seq![(1int, active)]
    } else {
        seq![]
    }) + (if end.len() > 0 {
        seq![(2int, end)]
    } else {
        seq![]
    })
}

/// The views of a sequence of events.
pub open spec fn events_view(events: Seq<PhysicsEvent>) -> Seq<(int, Seq<(usize, usize)>)> {
    events.map_values(|e: PhysicsEvent| event_view(e))
}

/// Each kind of event is present exactly when its list of pairs is not empty,
/// and then carries that list; the events come in the order start,
/// continuation, end, one of each kind at most, and none is empty.
pub proof fn lemma_events(
    start: Seq<(usize, usize)>,
    active: Seq<(usize, usize)>,
    end: Seq<(usize, usize)>,
)
    ensures
        ({
            let ev = spec_events(start, active, end);
            &&& ev.len() == (if start.len() > 0 { 1int } else { 0int }) + (if active.len() > 0 {
                1int
            } else {
                0int
            }) + (if end.len() > 0 { 1int } else { 0int })
            &&& (exists|i: int| 0 <= i < ev.len() && #[trigger] ev[i].0 == 0) <==> start.len() > 0
            &&& (exists|i: int| 0 <= i < ev.len() && #[trigger] ev[i].0 == 1) <==> active.len() > 0
            &&& (exists|i: int| 0 <= i < ev.len() && #[trigger] ev[i].0 == 2) <==> end.len() > 0
            &&& forall|i: int|
                0 <= i < ev.len() ==> {
                    &&& (#[trigger] ev[i]).0 == 0 ==> ev[i].1 == start
                    &&& ev[i].0 == 1 ==> ev[i].1 == active
                    &&& ev[i].0 == 2 ==> ev[i].1 == end
                    &&& 0 <= ev[i].0 <= 2
                    &&& ev[i].1.len() > 0
                }
            &&& forall|i: int, j: int| 0 <= i < j < ev.len() ==> (#[trigger] ev[i]).0 < (#[trigger] ev[j]).0
        }),
{
    let a = if start.len() > 0 { seq![(0int, start)] } else { Seq::<(int, Seq<(usize, usize)>)>::empty() };
    let b = if active.len() > 0 { seq![(1int, active)] } else { Seq::<(int, Seq<(usize, usize)>)>::empty() };
    let c = if end.len() > 0 { seq![(2int, end)] } else { Seq::<(int, Seq<(usize, usize)>)>::empty() };
    let ev = spec_events(start, active, end);
    assert(ev == a + b + c);
    assert forall|i: int| 0 <= i < ev.len() implies {
        &&& (#[trigger] ev[i]).0 == 0 ==> ev[i].1 == start
        &&& ev[i].0 == 1 ==> ev[i].1 == active
        &&& ev[i].0 == 2 ==> ev[i].1 == end
        &&& 0 <= ev[i].0 <= 2
        &&& ev[i].1.len() > 0
    } by {
        if i < a.len() {
            assert(ev[i] == a[i]);
        } else if i < a.len() + b.len() {
            assert(ev[i] == b[i - a.len()]);
        } else {
            assert(ev[i] == c[i - a.len() - b.len()]);
        }
    }
    assert forall|i: int, j: int| 0 <= i < j < ev.len() implies (#[trigger] ev[i]).0 < (
    #[trigger] ev[j]).0 by {
        if i < a.len() {
            assert(ev[i] == a[i]);
        } else if i < a.len() + b.len() {
            assert(ev[i] == b[i - a.len()]);
        } else {
            assert(ev[i] == c[i - a.len() - b.len()]);
        }
        if j < a.len() {
            assert(ev[j] == a[j]);
        } else if j < a.len() + b.len() {
            assert(ev[j] == b[j - a.len()]);
        } else {
            assert(ev[j] == c[j - a.len() - b.len()]);
        }
    }
    if start.len() > 0 {
        assert(ev[0].0 == 0);
    }
    if active.len() > 0 {
        assert(ev[a.len() as int] == (1int, active));
    }
    if end.len() > 0 {
        assert(ev[(a.len() + b.len()) as int] == (2int, end));
    }
}

fn copy_ids(ids: &Vec<(usize, usize)>) -> (copy: Vec<(usize, usize)>)
    ensures
        copy@ == ids@,
{
    let mut copy: Vec<(usize, usize)> = Vec::new();
    let mut i: usize = 0;
    while i < ids.len()
        invariant
            i <= ids@.len(),
            copy@ == ids@.take(i as int),
        decreases ids@.len() - i,
    {
        assert(ids@.take(i + 1) =~= ids@.take(i as int).push(ids@[i as int]));
        copy.push((ids[i].0, ids[i].1));
        i += 1;
    }
    assert(ids@.take(i as int) =~= ids@);
    copy
}

/// The events of the last pairs update: one for the started pairs, one for
/// the continued pairs and one for the ended pairs, each only when its list is
/// not empty.
pub fn collision_events(pairs: &Pairs) -> (events: Vec<PhysicsEvent>)
    ensures
        events_view(events@) == spec_events(
            pairs.collision_start@,
            pairs.collision_active@,
            pairs.collision_end@,
        ),
        pairs.collision_start@.len() > 0 <==> exists|i: int|
            0 <= i < events@.len() && #[trigger] events@[i] is CollisionStart,
        pairs.collision_active@.len() > 0 <==> exists|i: int|
            0 <= i < events@.len() && #[trigger] events@[i] is CollisionActive,
        pairs.collision_end@.len() > 0 <==> exists|i: int|
            0 <= i < events@.len() && #[trigger] events@[i] is CollisionEnd,
        forall|i: int|
            0 <= i < events@.len() ==> match #[trigger] events@[i] {
                PhysicsEvent::CollisionStart { pairs: p } => p@ == pairs.collision_start@,
                PhysicsEvent::CollisionActive { pairs: p } => p@ == pairs.collision_active@,
                PhysicsEvent::CollisionEnd { pairs: p } => p@ == pairs.collision_end@,
            },
{
    let mut events: Vec<PhysicsEvent> = Vec::new();
    if pairs.collision_start.len() > 0 {
        events.push(PhysicsEvent::CollisionStart { pairs: copy_ids(&pairs.collision_start) });
    }
    let ghost after_start = events@;
    if pairs.collision_active.len() > 0 {
        events.push(PhysicsEvent::CollisionActive { pairs: copy_ids(&pairs.collision_active) });
    }
    let ghost after_active = events@;
    if pairs.collision_end.len() > 0 {
        events.push(PhysicsEvent::CollisionEnd { pairs: copy_ids(&pairs.collision_end) });
    }
    assert(events_view(events@) =~= spec_events(
        pairs.collision_start@,
        pairs.collision_active@,
        pairs.collision_end@,
    ));
    proof {
        let ev = events_view(events@);
        lemma_events(pairs.collision_start@, pairs.collision_active@, pairs.collision_end@);
        assert forall|i: int| 0 <= i < events@.len() implies (#[trigger] events@[i] is CollisionStart
            <==> ev[i].0 == 0) && (events@[i] is CollisionActive <==> ev[i].0 == 1) && (
        events@[i] is CollisionEnd <==> ev[i].0 == 2) by {
            assert(ev[i] == event_view(events@[i]));
        }
        if pairs.collision_start@.len() > 0 {
            let i = choose|i: int| 0 <= i < ev.len() && #[trigger] ev[i].0 == 0;
            assert(events@[i] is CollisionStart);
        }
        if pairs.collision_active@.len() > 0 {
            let i = choose|i: int| 0 <= i < ev.len() && #[trigger] ev[i].0 == 1;
            assert(events@[i] is CollisionActive);
        }
        if pairs.collision_end@.len() > 0 {
            let i = choose|i: int| 0 <= i < ev.len() && #[trigger] ev[i].0 == 2;
            assert(events@[i] is CollisionEnd);
        }
        if exists|i: int| 0 <= i < events@.len() && #[trigger] events@[i] is CollisionStart {
            let i = choose|i: int| 0 <= i < events@.len() && #[trigger] events@[i] is CollisionStart;
            assert(ev[i].0 == 0);
        }
        if exists|i: int| 0 <= i < events@.len() && #[trigger] events@[i] is CollisionActive {
            let i = choose|i: int| 0 <= i < events@.len() && #[trigger] events@[i] is CollisionActive;
            assert(ev[i].0 == 1);
        }
        if exists|i: int| 0 <= i < events@.len() && #[trigger] events@[i] is CollisionEnd {
            let i = choose|i: int| 0 <= i < events@.len() && #[trigger] events@[i] is CollisionEnd;
            assert(ev[i].0 == 2);
        }
        assert forall|i: int| 0 <= i < events@.len() implies match #[trigger] events@[i] {
            PhysicsEvent::CollisionStart { pairs: p } => p@ == pairs.collision_start@,
            PhysicsEvent::CollisionActive { pairs: p } => p@ == pairs.collision_active@,
            PhysicsEvent::CollisionEnd { pairs: p } => p@ == pairs.collision_end@,
        } by {
            assert(ev[i] == event_view(events@[i]));
        }
    }
    events
}

/// How many contacts the active pairs of the table add to the body at
/// `body`: each active pair adds its contact count once for each of its two
/// parents that is that body.
pub open spec fn contacts_added(table: Seq<Pair>, body: int) -> int
    decreases table.len(),
{
    if table.len() == 0 {
        0
    } else {
        let p = table.last();
        contacts_added(table.drop_last(), body) + if p.is_active {
            (if p.parent_a.0 == body {
                p.contact_count as int
            } else {
                0
            }) + (if p.parent_b.0 == body {
                p.contact_count as int
            } else {
                0
            })
        } else {
            0
        }
    }
}

proof fn lemma_contacts_added_prefix(table: Seq<Pair>, body: int, i: int)
    requires
        0 <= i <= table.len(),
    ensures
        0 <= contacts_added(table.take(i), body) <= contacts_added(table, body),
    decreases table.len(),
{
    if i < table.len() {
        lemma_contacts_added_prefix(table.drop_last(), body, i);
        assert(table.drop_last().take(i) =~= table.take(i));
    } else {
        assert(table.take(i) =~= table);
        lemma_contacts_added_nonneg(table, body);
    }
}

proof fn lemma_contacts_added_nonneg(table: Seq<Pair>, body: int)
    ensures
        contacts_added(table, body) >= 0,
    decreases table.len(),
{
    if table.len() > 0 {
        lemma_contacts_added_nonneg(table.drop_last(), body);
    }
}

/// Resolves contacts between pairs of bodies.
pub struct Resolver;

impl Resolver {
    /// Before position solving, adds to each body's contact total the contact
    /// counts of the active pairs that have it as a parent.
    /// `total_contacts[b]` is the total of the body with handle `b`.
    pub fn pre_solve_position(pairs: &Pairs, total_contacts: &mut Vec<usize>)
        requires
            forall|k: int|
                0 <= k < pairs.table@.len() && (#[trigger] pairs.table@[k]).is_active ==> pairs.table@[k].parent_a.0
                    < old(total_contacts)@.len() && pairs.table@[k].parent_b.0 < old(
                    total_contacts,
                )@.len(),
            forall|b: int|
                0 <= b < old(total_contacts)@.len() ==> #[trigger] old(total_contacts)@[b]
                    + contacts_added(pairs.table@, b) <= usize::MAX,
        ensures
            final(total_contacts)@.len() == old(total_contacts)@.len(),
            forall|b: int|
                0 <= b < final(total_contacts)@.len() ==> #[trigger] final(total_contacts)@[b]
                    == old(total_contacts)@[b] + contacts_added(pairs.table@, b),
    {
        let ghost start = total_contacts@;
        let ghost table = pairs.table@;
        assert(table.take(0) =~= Seq::<Pair>::empty());
        let n = pairs.table.len();
        let mut i: usize = 0;
        while i < n
            invariant
                n == table.len(),
                table == pairs.table@,
                i <= n,
                total_contacts@.len() == start.len(),
                forall|k: int|
                    0 <= k < table.len() && (#[trigger] table[k]).is_active ==> table[k].parent_a.0
                        < start.len() && table[k].parent_b.0 < start.len(),
                forall|b: int|
                    0 <= b < start.len() ==> #[trigger] start[b] + contacts_added(table, b)
                        <= usize::MAX,
                forall|b: int|
                    0 <= b < start.len() ==> #[trigger] total_contacts@[b] == start[b]
                        + contacts_added(table.take(i as int), b),
            decreases n - i,
        {
            let p = pairs.table[i];
            proof {
                assert(table.take(i + 1).drop_last() =~= table.take(i as int));
                assert(table.take(i + 1).last() == p);
                lemma_contacts_added_prefix(table, p.parent_a.0 as int, i + 1);
                lemma_contacts_added_prefix(table, p.parent_b.0 as int, i + 1);
                if p.is_active {
                    assert(table[i as int] == p);
                    assert(start[p.parent_a.0 as int] + contacts_added(table, p.parent_a.0 as int)
                        <= usize::MAX);
                    assert(start[p.parent_b.0 as int] + contacts_added(table, p.parent_b.0 as int)
                        <= usize::MAX);
                }
            }
            if p.is_active {
                let a = p.parent_a.0;
                let total_a = total_contacts[a] + p.contact_count;
                total_contacts.set(a, total_a);
                let b = p.parent_b.0;
                let total_b = total_contacts[b] + p.contact_count;
                total_contacts.set(b, total_b);
            }
            i += 1;
        }
        assert(table.take(n as int) =~= table);
    }
}

} // verus!
