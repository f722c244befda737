//! The system scheduler: update routines tagged with a phase and an
//! intra-phase priority, sorted stably and run once per tick, with the
//! housekeeping flush after all phases.

use vstd::prelude::*;

use crate::drag::{group_held, DragSystem};
use crate::resources::{spec_frame_delta, GameState, InputState, Resources, TimeInfo};
use crate::solitaire::{
    check_game_clear, draw_error, draw_from_stock, spec_foundation_complete, stack_has_card,
    stacks_wf,
};
use crate::component::{CardInfo, ClickHandlerType, StackType};
use crate::world::World;
use crate::{EcsError, EntityId, POINTER_LIMIT};

verus! {

/// The coarse ordering buckets a system can run in.
#[derive(Clone, Copy, Debug, PartialEq, Eq, Structural)]
pub enum SystemPhase {
    Input,
    PreUpdate,
    Update,
    PostUpdate,
    Render,
}

/// Where a phase stands in the tick order.
pub open spec fn phase_rank(p: SystemPhase) -> int {
    match p {
        SystemPhase::Input => 0,
        SystemPhase::PreUpdate => 1,
        SystemPhase::Update => 2,
        SystemPhase::PostUpdate => 3,
        SystemPhase::Render => 4,
    }
}

/// Intra-phase priority: a lower value runs first.
#[derive(Clone, Copy, Debug, PartialEq, Eq, Structural)]
pub struct SystemPriority(pub i32);

/// The update routines of this game. The render routine belongs to the
/// render collaborator; its slot keeps the phase order honest.
#[derive(Clone, Copy, Debug, PartialEq, Eq, Structural)]
pub enum SystemKind {
    /// Click handling: flips and stock draws.
    Input,
    /// The drag state machine, driven from the input snapshot.
    Drag,
    /// Win detection: moves the game phase to cleared.
    GameStateCheck,
    /// Drawing; performed outside the core.
    Render,
}

/// One scheduled routine: what runs, in which phase, at which priority, and
/// its insertion number (the stable-sort tiebreak).
#[derive(Clone, Copy, Debug, PartialEq, Eq, Structural)]
pub struct SystemEntry {
    pub kind: SystemKind,
    pub phase: SystemPhase,
    pub priority: i32,
    pub seq: usize,
}

/// Scheduling order: by phase, then priority, then insertion number — so
/// entries with equal phase and priority keep their insertion order, which
/// makes the sort stable.
pub open spec fn entry_le(a: SystemEntry, b: SystemEntry) -> bool {
    ||| phase_rank(a.phase) < phase_rank(b.phase)
    ||| (phase_rank(a.phase) == phase_rank(b.phase) && (a.priority < b.priority || (a.priority
        == b.priority && a.seq <= b.seq)))
}

/// Whether `a` must run no later than `b`, decided executably.
pub fn entry_le_exec(a: &SystemEntry, b: &SystemEntry) -> (r: bool)
    ensures
        r == entry_le(*a, *b),
{
    let ra: u8 = match a.phase {
        SystemPhase::Input => 0,
        SystemPhase::PreUpdate => 1,
        SystemPhase::Update => 2,
        SystemPhase::PostUpdate => 3,
        SystemPhase::Render => 4,
    };
    let rb: u8 = match b.phase {
        SystemPhase::Input => 0,
        SystemPhase::PreUpdate => 1,
        SystemPhase::Update => 2,
        SystemPhase::PostUpdate => 3,
        SystemPhase::Render => 4,
    };
    ra < rb || (ra == rb && (a.priority < b.priority || (a.priority == b.priority && a.seq
        <= b.seq)))
}

/// Holds the scheduled routines and runs them in sorted order.
pub struct SystemManager {
    systems: Vec<SystemEntry>,
    next_seq: usize,
}

impl SystemManager {
    pub closed spec fn entries(&self) -> Seq<SystemEntry> {
        self.systems@
    }

    pub closed spec fn next_seq_spec(&self) -> usize {
        self.next_seq
    }

    /// Insertion numbers are unique and below the next one to hand out.
    pub open spec fn wf(&self) -> bool {
        &&& forall|i: int| 0 <= i < self.entries().len() ==> #[trigger] self.entries()[i].seq
            < self.next_seq_spec()
        &&& forall|i: int, j: int|
            0 <= i < j < self.entries().len() ==> self.entries()[i].seq != self.entries()[j].seq
    }

    pub fn new() -> (r: Self)
        ensures
            r.wf(),
            r.entries() === Seq::<SystemEntry>::empty(),
    {
        SystemManager { systems: Vec::new(), next_seq: 0 }
    }

    /// Registers a routine under the given phase and priority; it receives
    /// the next insertion number.
    pub fn add_system(&mut self, kind: SystemKind, phase: SystemPhase, priority: i32)
        requires
            old(self).wf(),
            old(self).next_seq_spec() < usize::MAX,
        ensures
            final(self).wf(),
            final(self).entries() === old(self).entries().push(
                SystemEntry { kind, phase, priority, seq: old(self).next_seq_spec() },
            ),
            final(self).next_seq_spec() == old(self).next_seq_spec() + 1,
    {
        let entry = SystemEntry { kind, phase, priority, seq: self.next_seq };
        self.systems.push(entry);
        self.next_seq = self.next_seq + 1;
    }

    /// A copy of the scheduled routines, in their current order.
    pub fn get_entries(&self) -> (r: Vec<SystemEntry>)
        ensures
            r@ === self.entries(),
    {
        self.systems.clone()
    }

    /// Removes every routine.
    pub fn clear(&mut self)
        ensures
            final(self).wf(),
            final(self).entries() === Seq::<SystemEntry>::empty(),
    {
        self.systems = Vec::new();
        self.next_seq = 0;
    }

    /// Sorts the routines by phase, then priority, then insertion number.
    /// The result holds the same entries and is totally ordered; since the
    /// insertion number breaks ties, entries of equal phase and priority
    /// keep their insertion order — the sort is stable.
    pub fn sort_systems(&mut self)
        requires
            old(self).wf(),
        ensures
            final(self).wf(),
            final(self).entries().to_multiset() == old(self).entries().to_multiset(),
            final(self).entries().len() == old(self).entries().len(),
            forall|i: int, j: int|
                0 <= i < j < final(self).entries().len() ==> entry_le(
                    final(self).entries()[i],
                    final(self).entries()[j],
                ),
            final(self).next_seq_spec() == old(self).next_seq_spec(),
    {
        let ghost orig = self.systems@;
        proof {
            broadcast use vstd::multiset::group_multiset_axioms;

            orig.to_multiset_ensures();
        }
        let mut rest = self.systems.clone();
        let mut out: Vec<SystemEntry> = Vec::new();
        proof {
            out@.to_multiset_ensures();
            assert(out@.to_multiset().add(rest@.to_multiset()) =~= orig.to_multiset()) by {
                assert(rest@ == orig);
                assert forall|v: SystemEntry|
                    out@.to_multiset().add(rest@.to_multiset()).count(v) == orig.to_multiset().count(
                    v,
                ) by {
                    assert(!out@.contains(v));
                }
            }
        }
        while rest.len() > 0
            invariant
                out@.to_multiset().add(rest@.to_multiset()) =~= orig.to_multiset(),
                out@.len() + rest@.len() == orig.len(),
                forall|i: int, j: int|
                    0 <= i < j < out@.len() ==> entry_le(#[trigger] out@[i], #[trigger] out@[j]),
                forall|i: int, j: int|
                    0 <= i < out@.len() && 0 <= j < rest@.len() ==> entry_le(
                        #[trigger] out@[i],
                        #[trigger] rest@[j],
                    ),
                forall|i: int| 0 <= i < out@.len() ==> orig.to_multiset().contains(
                    #[trigger] out@[i],
                ),
                forall|i: int| 0 <= i < rest@.len() ==> orig.to_multiset().contains(
                    #[trigger] rest@[i],
                ),
            decreases rest@.len(),
        {
            // Find the entry that must run first among the rest.
            let mut min_idx: usize = 0;
            let mut i: usize = 1;
            while i < rest.len()
                invariant
                    rest@.len() > 0,
                    min_idx < i <= rest@.len(),
                    forall|j: int| 0 <= j < i ==> entry_le(
                        rest@[min_idx as int],
                        #[trigger] rest@[j],
                    ),
                decreases rest@.len() - i,
            {
                if !entry_le_exec(&rest[min_idx], &rest[i]) {
                    proof {
                        assert forall|j: int| 0 <= j < i + 1 implies entry_le(
                            rest@[i as int],
                            #[trigger] rest@[j],
                        ) by {
                            if j < i {
                                assert(entry_le(rest@[min_idx as int], rest@[j]));
                            }
                        }
                    }
                    min_idx = i;
                }
                i = i + 1;
            }
            let ghost pre_rest = rest@;
            let ghost pre_out = out@;
            let picked = rest.remove(min_idx);
            out.push(picked);
            proof {
                broadcast use vstd::multiset::group_multiset_axioms;

                pre_rest.to_multiset_ensures();
                vstd::seq_lib::to_multiset_remove(pre_rest, min_idx as int);
                vstd::seq_lib::to_multiset_build(pre_out, picked);
                assert(out@.to_multiset() =~= pre_out.to_multiset().insert(picked));
                assert(rest@.to_multiset() =~= pre_rest.to_multiset().remove(picked));
                assert(out@.to_multiset().add(rest@.to_multiset()) =~= orig.to_multiset());
                pre_rest.remove_ensures(min_idx as int);
                assert forall|a: int, b: int|
                    0 <= a < b < out@.len() implies entry_le(
                    #[trigger] out@[a],
                    #[trigger] out@[b],
                ) by {
                    if b == out@.len() - 1 {
                        assert(out@[a] == pre_out[a]);
                        assert(entry_le(pre_out[a], pre_rest[min_idx as int]));
                    }
                }
                assert forall|a: int, b: int|
                    0 <= a < out@.len() && 0 <= b < rest@.len() implies entry_le(
                    #[trigger] out@[a],
                    #[trigger] rest@[b],
                ) by {
                    let src: int = if b < min_idx as int {
                        b
                    } else {
                        b + 1
                    };
                    assert(rest@[b] == pre_rest[src]);
                    if a < out@.len() - 1 {
                        assert(entry_le(pre_out[a], pre_rest[src]));
                    } else {
                        assert(entry_le(pre_rest[min_idx as int], pre_rest[src]));
                    }
                }
                assert forall|k: int| 0 <= k < rest@.len() implies orig.to_multiset().contains(
                    #[trigger] rest@[k],
                ) by {
                    let src: int = if k < min_idx as int {
                        k
                    } else {
                        k + 1
                    };
                    assert(rest@[k] == pre_rest[src]);
                }
            }
        }
        self.systems = out;
        proof {
            broadcast use vstd::multiset::group_multiset_axioms;

            // The sorted entries are the same multiset, so the insertion
            // numbers stay unique and bounded.
            self.systems@.to_multiset_ensures();
            rest@.to_multiset_ensures();
            assert(self.systems@.to_multiset() == orig.to_multiset()) by {
                assert forall|v: SystemEntry|
                    self.systems@.to_multiset().count(v) == orig.to_multiset().count(v) by {
                    assert(!rest@.contains(v));
                    assert(out@.to_multiset().add(rest@.to_multiset()).count(v)
                        == orig.to_multiset().count(v));
                }
                assert(self.systems@.to_multiset() =~= orig.to_multiset());
            }
            assert forall|i: int| 0 <= i < self.entries().len() implies #[trigger] self.entries()[i].seq
                < self.next_seq_spec() by {
                assert(orig.to_multiset().contains(self.entries()[i])) by {
                    assert(self.entries()=~=out@);
                    assert(out@.to_multiset().contains(out@[i]));
                    assert(rest@.to_multiset().len() == 0);
                    assert(out@.to_multiset().add(rest@.to_multiset()) =~= orig.to_multiset());
                }
                assert(orig.contains(self.entries()[i]));
                let j = choose|j: int| 0 <= j < orig.len() && orig[j] == self.entries()[i];
                assert(orig[j].seq < self.next_seq_spec());
            }
            assert forall|i: int, j: int|
                0 <= i < j < self.entries().len() implies self.entries()[i].seq
                != self.entries()[j].seq by {
                // Two distinct slots of the unsorted list cannot share an
                // insertion number; the sorted list only rearranges them.
                if self.entries()[i].seq == self.entries()[j].seq {
                    let s = self.entries();
                    assert(orig.to_multiset().contains(s[i])) by {
                        assert(out@.to_multiset().contains(out@[i]));
                        assert(out@.to_multiset().add(rest@.to_multiset()) =~= orig.to_multiset());
                    }
                    assert(orig.to_multiset().contains(s[j])) by {
                        assert(out@.to_multiset().contains(out@[j]));
                        assert(out@.to_multiset().add(rest@.to_multiset()) =~= orig.to_multiset());
                    }
                    assert(orig.contains(s[i]));
                    assert(orig.contains(s[j]));
                    let a = choose|a: int| 0 <= a < orig.len() && orig[a] == s[i];
                    let b = choose|b: int| 0 <= b < orig.len() && orig[b] == s[j];
                    if s[i] == s[j] {
                        // The same entry value twice: its multiset count is
                        // at least two, yet equal insertion numbers occur at
                        // most once in the unsorted list.
                        lemma_dup_has_two_slots(out@, orig, i, j);
                        let (a2, b2): (int, int) = choose|a2: int, b2: int|
                            0 <= a2 < orig.len() && 0 <= b2 < orig.len() && a2 != b2 && orig[a2]
                                == s[i] && orig[b2] == s[i];
                        assert(orig[a2].seq != orig[b2].seq || orig[b2].seq != orig[a2].seq);
                    } else {
                        assert(a != b);
                        assert(orig[a].seq != orig[b].seq);
                    }
                }
            }
        }
    }
}

/// A value standing at two slots of a sequence occurs at least twice in its
/// multiset, so any multiset-equal sequence holds it at two distinct slots
/// as well.
pub proof fn lemma_dup_has_two_slots<T>(s: Seq<T>, orig: Seq<T>, i: int, j: int)
    requires
        0 <= i < j < s.len(),
        s[i] == s[j],
        s.to_multiset() == orig.to_multiset(),
    ensures
        exists|a: int, b: int|
            0 <= a < orig.len() && 0 <= b < orig.len() && a != b && orig[a] == s[i] && orig[b]
                == s[i],
{
    broadcast use vstd::multiset::group_multiset_axioms;

    s.to_multiset_ensures();
    orig.to_multiset_ensures();
    let v = s[i];
    assert(s.remove(j).to_multiset() == s.to_multiset().remove(v)) by {
        vstd::seq_lib::to_multiset_remove(s, j);
    }
    s.remove_ensures(j);
    assert(s.remove(j)[i] == v);
    assert(s.remove(j).contains(v)) by {
        assert(s.remove(j)[i] == v);
    }
    s.remove(j).to_multiset_ensures();
    assert(s.remove(j).to_multiset().count(v) > 0);
    assert(s.to_multiset().remove(v).count(v) == s.to_multiset().count(v) - 1);
    assert(s.to_multiset().count(v) >= 2);
    assert(orig.to_multiset().count(v) >= 2);
    assert(orig.contains(v));
    let a = choose|a: int| 0 <= a < orig.len() && orig[a] == v;
    assert(orig.remove(a).to_multiset() == orig.to_multiset().remove(v)) by {
        vstd::seq_lib::to_multiset_remove(orig, a);
    }
    orig.remove(a).to_multiset_ensures();
    assert(orig.remove(a).to_multiset().count(v) >= 1);
    assert(orig.remove(a).contains(v));
    let b0 = choose|b0: int| 0 <= b0 < orig.remove(a).len() && orig.remove(a)[b0] == v;
    orig.remove_ensures(a);
    let b: int = if b0 < a {
        b0
    } else {
        b0 + 1
    };
    assert(orig[b] == v && b != a);
}

} // verus!

verus! {

/// The invariant the tick pipeline keeps on the drag machine between events:
/// a held group is well-formed and headed by the lead.
pub open spec fn drag_inv(d: DragSystem, w: World) -> bool {
    !d.is_idle() ==> (group_held(w, d.spec_group()) && d.spec_group().no_duplicates()
        && d.spec_group().len() >= 1 && d.spec_lead() == Some(d.spec_group()[0]))
}

/// The entity is the stock pile.
pub open spec fn spec_is_stock(w: World, sid: EntityId) -> bool {
    w.spec_stack(sid) matches Some(st) && st.stack_type == StackType::Stock
}

/// The entity is the waste pile.
pub open spec fn spec_is_waste(w: World, sid: EntityId) -> bool {
    w.spec_stack(sid) matches Some(st) && st.stack_type == StackType::Waste
}

/// Finds the stock and waste piles. Fails exactly when either kind of pile
/// is missing.
pub fn find_stock_and_waste(world: &World) -> (r: Result<(EntityId, EntityId), EcsError>)
    requires
        world.wf(),
    ensures
        r is Ok <==> ((exists|sid: EntityId| #[trigger] spec_is_stock(*world, sid)) && (exists|
            sid: EntityId,
        | #[trigger] spec_is_waste(*world, sid))),
        r matches Ok((stock_id, waste_id)) ==> ((world.spec_stack(stock_id) matches Some(st)
            && st.stack_type == StackType::Stock) && (world.spec_stack(waste_id) matches Some(wt)
            && wt.stack_type == StackType::Waste) && (forall|o: EntityId|
            o < stock_id ==> !spec_is_stock(*world, o)) && (forall|o: EntityId|
            o < waste_id ==> !spec_is_waste(*world, o))),
        r is Err ==> r == Err::<(EntityId, EntityId), EcsError>(EcsError::MissingStack),
{
    let stack_ids = world.get_entities_with_stack();
    let mut stock: Option<EntityId> = None;
    let mut waste: Option<EntityId> = None;
    let mut i: usize = 0;
    while i < stack_ids.len()
        invariant
            world.wf(),
            i <= stack_ids@.len(),
            forall|id: EntityId| stack_ids@.contains(id) <==> world.spec_stack(id) is Some,
            forall|a: int, b: int|
                0 <= a < b < stack_ids@.len() ==> stack_ids@[a] < stack_ids@[b],
            stock matches Some(sid) ==> (world.spec_stack(sid) matches Some(st) && st.stack_type
                == StackType::Stock) && (forall|o: EntityId|
                o < stock->Some_0 ==> !spec_is_stock(*world, o)),
            waste matches Some(sid) ==> (world.spec_stack(sid) matches Some(st) && st.stack_type
                == StackType::Waste) && (forall|o: EntityId|
                o < waste->Some_0 ==> !spec_is_waste(*world, o)),
            stock is None ==> forall|j: int|
                0 <= j < i ==> !(world.spec_stack(#[trigger] stack_ids@[j]) matches Some(st)
                    && st.stack_type == StackType::Stock),
            waste is None ==> forall|j: int|
                0 <= j < i ==> !(world.spec_stack(#[trigger] stack_ids@[j]) matches Some(st)
                    && st.stack_type == StackType::Waste),
        decreases stack_ids@.len() - i,
    {
        let sid = stack_ids[i];
        match world.get_stack(sid) {
            Some(st) => {
                match st.stack_type {
                    StackType::Stock => {
                        if stock.is_none() {
                            proof {
                                // Earlier ids were scanned first, so none of
                                // them is a stock.
                                assert forall|o: EntityId|
                                    o < sid implies !spec_is_stock(*world, o) by {
                                    if spec_is_stock(*world, o) {
                                        assert(stack_ids@.contains(o));
                                        let j = choose|j: int|
                                            0 <= j < stack_ids@.len() && stack_ids@[j] == o;
                                        assert(j < i) by {
                                            if j >= i {
                                                assert(stack_ids@[i as int]
                                                    <= stack_ids@[j] || j == i);
                                            }
                                        }
                                        assert(!(world.spec_stack(stack_ids@[j]) matches Some(s2)
                                            && s2.stack_type == StackType::Stock));
                                    }
                                }
                            }
                            stock = Some(sid);
                        }
                    },
                    StackType::Waste => {
                        if waste.is_none() {
                            proof {
                                assert forall|o: EntityId|
                                    o < sid implies !spec_is_waste(*world, o) by {
                                    if spec_is_waste(*world, o) {
                                        assert(stack_ids@.contains(o));
                                        let j = choose|j: int|
                                            0 <= j < stack_ids@.len() && stack_ids@[j] == o;
                                        assert(j < i) by {
                                            if j >= i {
                                                assert(stack_ids@[i as int]
                                                    <= stack_ids@[j] || j == i);
                                            }
                                        }
                                        assert(!(world.spec_stack(stack_ids@[j]) matches Some(s2)
                                            && s2.stack_type == StackType::Waste));
                                    }
                                }
                            }
                            waste = Some(sid);
                        }
                    },
                    _ => {},
                }
            },
            None => {},
        }
        i = i + 1;
    }
    match (stock, waste) {
        (Some(s), Some(w)) => {
            proof {
                assert(spec_is_stock(*world, s));
                assert(spec_is_waste(*world, w));
            }
            Ok((s, w))
        },
        _ => {
            proof {
                if stock is None {
                    assert forall|sid: EntityId| !#[trigger] spec_is_stock(*world, sid) by {
                        if spec_is_stock(*world, sid) {
                            assert(stack_ids@.contains(sid));
                            let j = choose|j: int|
                                0 <= j < stack_ids@.len() && stack_ids@[j] == sid;
                            assert(!(world.spec_stack(stack_ids@[j]) matches Some(st2)
                                && st2.stack_type == StackType::Stock));
                        }
                    }
                } else {
                    assert forall|sid: EntityId| !#[trigger] spec_is_waste(*world, sid) by {
                        if spec_is_waste(*world, sid) {
                            assert(stack_ids@.contains(sid));
                            let j = choose|j: int|
                                0 <= j < stack_ids@.len() && stack_ids@[j] == sid;
                            assert(!(world.spec_stack(stack_ids@[j]) matches Some(st2)
                                && st2.stack_type == StackType::Waste));
                        }
                    }
                }
            }
            Err(EcsError::MissingStack)
        },
    }
}

/// Finds every foundation pile, in increasing id order.
pub fn find_foundation_ids(world: &World) -> (r: Vec<EntityId>)
    requires
        world.wf(),
    ensures
        forall|id: EntityId|
            r@.contains(id) <==> (world.spec_stack(id) matches Some(st) && st.stack_type matches
                StackType::Foundation { .. }),
{
    let stack_ids = world.get_entities_with_stack();
    let mut r: Vec<EntityId> = Vec::new();
    let mut i: usize = 0;
    while i < stack_ids.len()
        invariant
            world.wf(),
            i <= stack_ids@.len(),
            forall|id: EntityId| stack_ids@.contains(id) <==> world.spec_stack(id) is Some,
            forall|id: EntityId|
                r@.contains(id) ==> (world.spec_stack(id) matches Some(st) && st.stack_type
                    matches StackType::Foundation { .. }),
            forall|j: int|
                0 <= j < i && (world.spec_stack(#[trigger] stack_ids@[j]) matches Some(st)
                    && st.stack_type matches StackType::Foundation { .. }) ==> r@.contains(
                    stack_ids@[j],
                ),
        decreases stack_ids@.len() - i,
    {
        let sid = stack_ids[i];
        let is_foundation = match world.get_stack(sid) {
            Some(st) => matches!(st.stack_type, StackType::Foundation { .. }),
            None => false,
        };
        if is_foundation {
            let ghost before = r@;
            r.push(sid);
            proof {
                assert forall|id: EntityId|
                    r@.contains(id) implies (world.spec_stack(id) matches Some(st)
                        && st.stack_type matches StackType::Foundation { .. }) by {
                    let a = choose|a: int| 0 <= a < r@.len() && r@[a] == id;
                    if a < before.len() {
                        assert(before[a] == id);
                        assert(before.contains(id));
                    } else {
                        assert(id == sid);
                    }
                }
                assert forall|j: int|
                    0 <= j < i + 1 && (world.spec_stack(#[trigger] stack_ids@[j]) matches Some(st)
                        && st.stack_type matches StackType::Foundation { .. }) implies r@.contains(
                    stack_ids@[j],
                ) by {
                    if j == i {
                        assert(r@[r@.len() - 1] == stack_ids@[j]);
                    } else {
                        assert(before.contains(stack_ids@[j]));
                        let a = choose|a: int|
                            0 <= a < before.len() && before[a] == stack_ids@[j];
                        assert(r@[a] == stack_ids@[j]);
                    }
                }
            }
        }
        i = i + 1;
    }
    proof {
        assert forall|id: EntityId|
            r@.contains(id) <==> (world.spec_stack(id) matches Some(st) && st.stack_type matches
                StackType::Foundation { .. }) by {
            if world.spec_stack(id) matches Some(st) && st.stack_type matches StackType::Foundation {
                ..
            } {
                assert(stack_ids@.contains(id));
                let j = choose|j: int| 0 <= j < stack_ids@.len() && stack_ids@[j] == id;
                assert(r@.contains(stack_ids@[j]));
            }
        }
    }
    r
}

/// The entity is a foundation pile.
pub open spec fn spec_is_foundation(w: World, fid: EntityId) -> bool {
    w.spec_stack(fid) matches Some(st) && st.stack_type matches StackType::Foundation { .. }
}

/// Every foundation on the board is complete, and there is at least one.
pub open spec fn spec_board_cleared(w: World) -> bool {
    &&& exists|fid: EntityId| #[trigger] spec_is_foundation(w, fid)
    &&& forall|fid: EntityId| #[trigger] spec_foundation_complete_if_foundation(w, fid)
}

/// Either the entity is no foundation, or it is a complete one.
pub open spec fn spec_foundation_complete_if_foundation(w: World, fid: EntityId) -> bool {
    (w.spec_stack(fid) matches Some(st) && st.stack_type matches StackType::Foundation { .. })
        ==> spec_foundation_complete(w, fid)
}

/// The win-detection routine: while the game is being played and the whole
/// board is cleared, the game phase moves to cleared; nothing else changes.
pub fn game_state_system_run(world: &World, resources: &mut Resources)
    requires
        world.wf(),
    ensures
        final(resources).game_state == (if old(resources).game_state == GameState::Playing
            && spec_board_cleared(*world) {
            GameState::Clear
        } else {
            old(resources).game_state
        }),
        final(resources).input == old(resources).input,
        final(resources).time == old(resources).time,
{
    let foundation_ids = find_foundation_ids(world);
    if foundation_ids.len() == 0 {
        proof {
            if spec_board_cleared(*world) {
                let fid = choose|fid: EntityId| #[trigger] spec_is_foundation(*world, fid);
                assert(foundation_ids@.contains(fid));
            }
        }
        return ;
    }
    let is_playing = match resources.game_state {
        GameState::Playing => true,
        _ => false,
    };
    if is_playing && check_game_clear(world, &foundation_ids) {
        proof {
            assert(spec_board_cleared(*world)) by {
                assert(foundation_ids@.contains(foundation_ids@[0]));
                assert(spec_is_foundation(*world, foundation_ids@[0]));
                assert forall|fid: EntityId| #[trigger] spec_foundation_complete_if_foundation(
                    *world,
                    fid,
                ) by {
                    if world.spec_stack(fid) matches Some(st) && st.stack_type matches
                        StackType::Foundation { .. } {
                        assert(foundation_ids@.contains(fid));
                        let j = choose|j: int|
                            0 <= j < foundation_ids@.len() && foundation_ids@[j] == fid;
                        assert(spec_foundation_complete(*world, foundation_ids@[j]));
                    }
                }
            }
        }
        resources.game_state = GameState::Clear;
    } else {
        proof {
            if is_playing && spec_board_cleared(*world) {
                assert forall|j: int|
                    0 <= j < foundation_ids@.len() implies spec_foundation_complete(
                    *world,
                    #[trigger] foundation_ids@[j],
                ) by {
                    assert(foundation_ids@.contains(foundation_ids@[j]));
                    assert(spec_foundation_complete_if_foundation(*world, foundation_ids@[j]));
                }
            }
        }
    }
}

/// The hit test found an entity with a click handler under the pointer.
pub open spec fn clickable_hit(w: World, x: i64, y: i64) -> bool {
    exists|e: EntityId| #[trigger] crate::drag::best_hit(w, x, y, e) && w.spec_clickable(e) is Some
}

/// The clicked entity (meaningful when `clickable_hit` holds; the hit test's
/// selection is unique).
pub open spec fn the_clicked(w: World, x: i64, y: i64) -> EntityId {
    choose|e: EntityId| crate::drag::best_hit(w, x, y, e) && w.spec_clickable(e) is Some
}

/// The stock pile with the lowest id (meaningful when one exists).
pub open spec fn first_stock(w: World) -> EntityId {
    choose|sid: EntityId|
        spec_is_stock(w, sid) && forall|o: EntityId| o < sid ==> !spec_is_stock(w, o)
}

/// The waste pile with the lowest id (meaningful when one exists).
pub open spec fn first_waste(w: World) -> EntityId {
    choose|sid: EntityId|
        spec_is_waste(w, sid) && forall|o: EntityId| o < sid ==> !spec_is_waste(w, o)
}

/// What marking an entity clicked leaves behind: its one-frame clicked pulse
/// raised, everything else untouched.
pub open spec fn mark_post(w0: World, w1: World, e: EntityId) -> bool {
    &&& w0.spec_clickable(e) is Some
    &&& w1.spec_clickable(e) == Some(
        crate::component::Clickable { was_clicked: true, ..w0.spec_clickable(e)->Some_0 },
    )
    &&& forall|o: EntityId| o != e ==> #[trigger] w1.spec_clickable(o) == w0.spec_clickable(o)
    &&& crate::world::entities_eq(w1, w0)
    &&& crate::world::transforms_eq(w1, w0)
    &&& crate::world::cards_eq(w1, w0)
    &&& crate::world::renderables_eq(w1, w0)
    &&& crate::world::draggables_eq(w1, w0)
    &&& crate::world::stacks_eq(w1, w0)
    &&& crate::world::droppables_eq(w1, w0)
}

/// What the click routine leaves behind, relative to the entry state.
/// Without a pulse, with an out-of-domain pointer or with nothing clickable
/// under the pointer, nothing changes; otherwise the unique hit is marked
/// clicked and its handler's effect follows.
pub open spec fn input_click_post(
    w0: World,
    w1: World,
    is_mouse_clicked: bool,
    x: i64,
    y: i64,
    r: Result<(), EcsError>,
) -> bool {
    &&& w1.alive_seq() === w0.alive_seq()
    &&& w1.pending_removal() === w0.pending_removal()
    &&& (!is_mouse_clicked ==> w1 == w0 && r is Ok)
    &&& ((is_mouse_clicked && (x < -POINTER_LIMIT || x > POINTER_LIMIT || y < -POINTER_LIMIT || y
        > POINTER_LIMIT)) ==> w1 == w0 && r is Ok)
    &&& ((is_mouse_clicked && -POINTER_LIMIT <= x <= POINTER_LIMIT && -POINTER_LIMIT <= y
        <= POINTER_LIMIT && !clickable_hit(w0, x, y)) ==> w1 == w0 && r is Ok)
    &&& ((is_mouse_clicked && -POINTER_LIMIT <= x <= POINTER_LIMIT && -POINTER_LIMIT <= y
        <= POINTER_LIMIT && clickable_hit(w0, x, y)) ==> {
        let e = the_clicked(w0, x, y);
        let handler = w0.spec_clickable(e)->Some_0.click_handler;
        match handler {
            ClickHandlerType::FlipCard => {
                if w0.spec_card(e) is Some {
                    r is Ok && (exists|w_mid: World|
                        #[trigger] mark_post(w0, w_mid, e) && {
                            let c = w_mid.spec_card(e)->Some_0;
                            &&& w1.spec_card(e) == Some(CardInfo { face_up: !c.face_up, ..c })
                            &&& (forall|o: EntityId|
                                o != e ==> #[trigger] w1.spec_card(o) == w_mid.spec_card(o))
                            &&& crate::world::transforms_eq(w1, w_mid)
                            &&& crate::world::stacks_eq(w1, w_mid)
                            &&& crate::world::renderables_eq(w1, w_mid)
                            &&& crate::world::clickables_eq(w1, w_mid)
                            &&& crate::world::droppables_eq(w1, w_mid)
                        })
                } else {
                    r is Ok && mark_post(w0, w1, e)
                }
            },
            ClickHandlerType::DrawFromStock => {
                if (exists|sid: EntityId| #[trigger] spec_is_stock(w0, sid)) && (exists|
                    sid: EntityId,
                | #[trigger] spec_is_waste(w0, sid)) {
                    let stock_id = first_stock(w0);
                    let waste_id = first_waste(w0);
                    &&& (r is Err <==> draw_error(w0, stock_id, waste_id))
                    &&& (r is Ok ==> exists|w_mid: World|
                        #[trigger] mark_post(w0, w_mid, e) && (if w_mid.spec_stack(
                            stock_id,
                        )->Some_0.cards@.len() == 0 {
                            (w_mid.spec_stack(waste_id)->Some_0.cards@.len() == 0 && w1 == w_mid)
                                || crate::solitaire::recycle_post(w_mid, w1, stock_id, waste_id)
                        } else {
                            crate::solitaire::draw_post(w_mid, w1, stock_id, waste_id)
                        }))
                } else {
                    r == Err::<(), EcsError>(EcsError::MissingStack)
                }
            },
            _ => r is Ok && mark_post(w0, w1, e),
        }
    })
}

/// The click routine: on the one-frame click pulse, the entity under the
/// pointer is marked clicked and receives its click — a flip handler turns
/// the card over, a stock handler draws into the waste (or recycles), the
/// rest do nothing further. Without a pulse, or with nothing clickable under
/// the pointer, nothing changes. The board invariants survive every case.
#[verifier::rlimit(100)]
#[verifier::spinoff_prover]
pub fn input_system_run(world: &mut World, is_mouse_clicked: bool, x: i64, y: i64) -> (r: Result<
    (),
    EcsError,
>)
    requires
        old(world).wf(),
        old(world).boxes_wf(),
        stacks_wf(*old(world)),
    ensures
        final(world).wf(),
        final(world).boxes_wf(),
        stacks_wf(*final(world)),
        input_click_post(*old(world), *final(world), is_mouse_clicked, x, y, r),
{
    if !is_mouse_clicked {
        return Ok(());
    }
    if x < -POINTER_LIMIT || x > POINTER_LIMIT || y < -POINTER_LIMIT || y > POINTER_LIMIT {
        return Ok(());
    }
    let clicked = match world.get_entity_at_position(x, y) {
        Some(e) => e,
        None => {
            proof {
                if clickable_hit(*world, x, y) {
                    let e = choose|e: EntityId|
                        #[trigger] crate::drag::best_hit(*world, x, y, e) && world.spec_clickable(
                            e,
                        ) is Some;
                    assert(world.hit_at(e, x, y));
                }
            }
            return Ok(());
        },
    };
    let handler = match world.get_clickable(clicked) {
        Some(c) => c.click_handler,
        None => {
            proof {
                assert(crate::drag::best_hit(*world, x, y, clicked));
                if clickable_hit(*world, x, y) {
                    let e = choose|e: EntityId|
                        #[trigger] crate::drag::best_hit(*world, x, y, e) && world.spec_clickable(
                            e,
                        ) is Some;
                    crate::drag::lemma_best_hit_unique(*world, x, y, e, clicked);
                }
            }
            return Ok(());
        },
    };
    let marked = match world.get_clickable(clicked) {
        Some(c) => crate::component::Clickable { was_clicked: true, ..*c },
        None => {
            proof {
                assert(false);
            }
            return Ok(());
        },
    };
    proof {
        assert(crate::drag::best_hit(*world, x, y, clicked));
        assert(clickable_hit(*world, x, y)) by {
            assert(crate::drag::best_hit(*world, x, y, clicked) && world.spec_clickable(clicked)
                is Some);
        }
        assert(the_clicked(*world, x, y) == clicked) by {
            let e = the_clicked(*world, x, y);
            assert(crate::drag::best_hit(*world, x, y, e) && world.spec_clickable(e) is Some);
            crate::drag::lemma_best_hit_unique(*world, x, y, e, clicked);
        }
    }
    let ghost w0 = *world;
    let _ = world.add_clickable(clicked, marked);
    proof {
        lemma_clickable_change_keeps_board(w0, *world);
        assert(mark_post(w0, *world, clicked));
    }
    match handler {
        ClickHandlerType::FlipCard => {
            if world.has_card_info(clicked) {
                let ghost w1 = *world;
                match crate::card::flip_card(world, clicked) {
                    Ok(()) => {
                        proof {
                            assert forall|o: EntityId|
                                w1.spec_card(o) is Some implies #[trigger] world.spec_card(
                                o,
                            ) is Some by {
                                if o != clicked {
                                    assert(world.spec_card(o) == w1.spec_card(o));
                                }
                            }
                            lemma_flip_keeps_board(w1, *world);
                            // The marked state witnesses the stated flip.
                            let c = w1.spec_card(clicked)->Some_0;
                            assert(mark_post(w0, w1, clicked) && world.spec_card(clicked) == Some(
                                CardInfo { face_up: !c.face_up, ..c },
                            ) && (forall|o: EntityId|
                                o != clicked ==> #[trigger] world.spec_card(o) == w1.spec_card(o))
                                && crate::world::transforms_eq(*world, w1)
                                && crate::world::stacks_eq(*world, w1)
                                && crate::world::renderables_eq(*world, w1)
                                && crate::world::clickables_eq(*world, w1)
                                && crate::world::droppables_eq(*world, w1));
                        }
                        Ok(())
                    },
                    Err(e) => Err(e),
                }
            } else {
                Ok(())
            }
        },
        ClickHandlerType::DrawFromStock => {
            proof {
                // The mark changed no stack, so the piles of the marked and
                // the entry worlds agree.
                assert forall|sid: EntityId| #[trigger] spec_is_stock(*world, sid)
                    == spec_is_stock(w0, sid) && #[trigger] spec_is_waste(*world, sid)
                    == spec_is_waste(w0, sid) by {
                    assert(world.spec_stack(sid) == w0.spec_stack(sid));
                }
            }
            let (stock_id, waste_id) = match find_stock_and_waste(world) {
                Ok(ids) => ids,
                Err(e) => {
                    proof {
                        if exists|sid: EntityId| #[trigger] spec_is_stock(w0, sid) {
                            let sid = choose|sid: EntityId| #[trigger] spec_is_stock(w0, sid);
                            assert(spec_is_stock(*world, sid));
                        }
                        if exists|sid: EntityId| #[trigger] spec_is_waste(w0, sid) {
                            let sid = choose|sid: EntityId| #[trigger] spec_is_waste(w0, sid);
                            assert(spec_is_waste(*world, sid));
                        }
                    }
                    return Err(e);
                },
            };
            proof {
                assert(spec_is_stock(w0, stock_id) && spec_is_waste(w0, waste_id));
                assert(first_stock(w0) == stock_id) by {
                    assert(spec_is_stock(w0, stock_id) && (forall|o: EntityId|
                        o < stock_id ==> !spec_is_stock(w0, o))) by {
                        assert forall|o: EntityId| o < stock_id implies !spec_is_stock(w0, o) by {
                            assert(spec_is_stock(*world, o) == spec_is_stock(w0, o));
                        }
                    }
                    let f = first_stock(w0);
                    assert(spec_is_stock(w0, f) && (forall|o: EntityId|
                        o < f ==> !spec_is_stock(w0, o)));
                }
                assert(first_waste(w0) == waste_id) by {
                    assert(spec_is_waste(w0, waste_id) && (forall|o: EntityId|
                        o < waste_id ==> !spec_is_waste(w0, o))) by {
                        assert forall|o: EntityId| o < waste_id implies !spec_is_waste(w0, o) by {
                            assert(spec_is_waste(*world, o) == spec_is_waste(w0, o));
                        }
                    }
                    let f = first_waste(w0);
                    assert(spec_is_waste(w0, f) && (forall|o: EntityId|
                        o < f ==> !spec_is_waste(w0, o)));
                }
            }
            let ghost w2 = *world;
            proof {
                // The error condition of the draw reads stacks, cards and
                // transforms only, all untouched by the mark.
                assert(draw_error(w2, stock_id, waste_id) == draw_error(w0, stock_id, waste_id))
                    by {
                    assert(w2.spec_stack(stock_id) == w0.spec_stack(stock_id));
                    assert(w2.spec_stack(waste_id) == w0.spec_stack(waste_id));
                    assert(w2.spec_transform(stock_id) == w0.spec_transform(stock_id));
                    assert(w2.spec_transform(waste_id) == w0.spec_transform(waste_id));
                    if w0.spec_stack(stock_id) is Some {
                        let st = w0.spec_stack(stock_id)->Some_0;
                        if st.cards@.len() > 0 {
                            assert(w2.spec_transform(st.cards@.last()) == w0.spec_transform(
                                st.cards@.last(),
                            ));
                            assert(w2.spec_card(st.cards@.last()) == w0.spec_card(
                                st.cards@.last(),
                            ));
                        }
                    }
                    assert(crate::solitaire::stack_cards_have_transforms(w2, waste_id)
                        == crate::solitaire::stack_cards_have_transforms(w0, waste_id)) by {
                        if crate::solitaire::stack_cards_have_transforms(w2, waste_id) {
                            assert forall|i: int|
                                0 <= i < w0.spec_stack(waste_id)->Some_0.cards@.len() implies w0.spec_transform(
                                #[trigger] w0.spec_stack(waste_id)->Some_0.cards@[i],
                            ) is Some by {
                                assert(w2.spec_transform(
                                    w2.spec_stack(waste_id)->Some_0.cards@[i],
                                ) is Some);
                                assert(w2.spec_transform(w0.spec_stack(waste_id)->Some_0.cards@[i])
                                    == w0.spec_transform(
                                    w0.spec_stack(waste_id)->Some_0.cards@[i],
                                ));
                            }
                        } else if crate::solitaire::stack_cards_have_transforms(w0, waste_id) {
                            assert forall|i: int|
                                0 <= i < w2.spec_stack(waste_id)->Some_0.cards@.len() implies w2.spec_transform(
                                #[trigger] w2.spec_stack(waste_id)->Some_0.cards@[i],
                            ) is Some by {
                                assert(w0.spec_transform(
                                    w0.spec_stack(waste_id)->Some_0.cards@[i],
                                ) is Some);
                                assert(w2.spec_transform(w0.spec_stack(waste_id)->Some_0.cards@[i])
                                    == w0.spec_transform(
                                    w0.spec_stack(waste_id)->Some_0.cards@[i],
                                ));
                            }
                        }
                    }
                }
            }
            match draw_from_stock(world, stock_id, waste_id) {
                Ok(did) => {
                    proof {
                        if !did {
                            assert(stacks_wf(*world));
                        }
                        assert(mark_post(w0, w2, clicked));
                    }
                    Ok(())
                },
                Err(e) => Err(e),
            }
        },
        _ => Ok(()),
    }
}

/// Changing click bookkeeping alone leaves the board invariants intact.
proof fn lemma_clickable_change_keeps_board(w0: World, w1: World)
    requires
        w0.boxes_wf(),
        stacks_wf(w0),
        crate::world::entities_eq(w1, w0),
        crate::world::transforms_eq(w1, w0),
        crate::world::cards_eq(w1, w0),
        crate::world::renderables_eq(w1, w0),
        crate::world::draggables_eq(w1, w0),
        crate::world::stacks_eq(w1, w0),
        crate::world::droppables_eq(w1, w0),
    ensures
        w1.boxes_wf(),
        stacks_wf(w1),
{
    crate::world::lemma_boxes_wf_preserved(w0, w1);
    assert forall|sid: EntityId| #[trigger] crate::solitaire::stack_cards_ok(w1, sid) by {
        assert(crate::solitaire::stack_cards_ok(w0, sid));
        if w1.spec_stack(sid) is Some {
            let cs = w1.spec_stack(sid)->Some_0.cards@;
            assert(w1.spec_stack(sid) == w0.spec_stack(sid));
            assert forall|i: int|
                0 <= i < cs.len() implies w1.spec_card(#[trigger] cs[i]) is Some by {
                assert(w0.spec_card(cs[i]) is Some);
                assert(w1.spec_card(cs[i]) == w0.spec_card(cs[i]));
            }
        }
    }
    assert forall|s1: EntityId, s2: EntityId, id: EntityId|
        #[trigger] stack_has_card(w1, s1, id) && #[trigger] stack_has_card(w1, s2, id) implies s1
        == s2 by {
        assert(w1.spec_stack(s1) == w0.spec_stack(s1));
        assert(w1.spec_stack(s2) == w0.spec_stack(s2));
        assert(stack_has_card(w0, s1, id) && stack_has_card(w0, s2, id));
    }
    assert forall|sid: EntityId, id: EntityId| #[trigger]
        stack_has_card(w1, sid, id) implies w1.spec_stack(id) is None by {
        assert(w1.spec_stack(sid) == w0.spec_stack(sid));
        assert(stack_has_card(w0, sid, id));
        assert(w1.spec_stack(id) == w0.spec_stack(id));
    }
    assert forall|sid: EntityId| #[trigger] crate::solitaire::stack_anchor_ok(w1, sid) by {
        assert(crate::solitaire::stack_anchor_ok(w0, sid));
        if w1.spec_stack(sid) is Some && w1.spec_transform(sid) is Some {
            assert(w1.spec_stack(sid) == w0.spec_stack(sid));
            assert(w1.spec_transform(sid) == w0.spec_transform(sid));
        }
    }
}

/// Flipping one card's face leaves the board invariants intact: the flip
/// touches the card's identity (keeping it present) and its drag
/// bookkeeping, nothing a box or a stack depends on.
proof fn lemma_flip_keeps_board(w0: World, w1: World)
    requires
        w0.boxes_wf(),
        stacks_wf(w0),
        crate::world::entities_eq(w1, w0),
        crate::world::transforms_eq(w1, w0),
        crate::world::renderables_eq(w1, w0),
        crate::world::stacks_eq(w1, w0),
        crate::world::droppables_eq(w1, w0),
        forall|o: EntityId| w0.spec_card(o) is Some ==> #[trigger] w1.spec_card(o) is Some,
    ensures
        w1.boxes_wf(),
        stacks_wf(w1),
{
    crate::world::lemma_boxes_wf_preserved(w0, w1);
    assert forall|sid: EntityId| #[trigger] crate::solitaire::stack_cards_ok(w1, sid) by {
        assert(crate::solitaire::stack_cards_ok(w0, sid));
        if w1.spec_stack(sid) is Some {
            let cs = w1.spec_stack(sid)->Some_0.cards@;
            assert(w1.spec_stack(sid) == w0.spec_stack(sid));
            assert forall|i: int|
                0 <= i < cs.len() implies w1.spec_card(#[trigger] cs[i]) is Some by {
                assert(w0.spec_card(cs[i]) is Some);
            }
        }
    }
    assert forall|s1: EntityId, s2: EntityId, id: EntityId|
        #[trigger] stack_has_card(w1, s1, id) && #[trigger] stack_has_card(w1, s2, id) implies s1
        == s2 by {
        assert(w1.spec_stack(s1) == w0.spec_stack(s1));
        assert(w1.spec_stack(s2) == w0.spec_stack(s2));
        assert(stack_has_card(w0, s1, id) && stack_has_card(w0, s2, id));
    }
    assert forall|sid: EntityId, id: EntityId| #[trigger]
        stack_has_card(w1, sid, id) implies w1.spec_stack(id) is None by {
        assert(w1.spec_stack(sid) == w0.spec_stack(sid));
        assert(stack_has_card(w0, sid, id));
        assert(w1.spec_stack(id) == w0.spec_stack(id));
    }
    assert forall|sid: EntityId| #[trigger] crate::solitaire::stack_anchor_ok(w1, sid) by {
        assert(crate::solitaire::stack_anchor_ok(w0, sid));
        if w1.spec_stack(sid) is Some && w1.spec_transform(sid) is Some {
            assert(w1.spec_stack(sid) == w0.spec_stack(sid));
            assert(w1.spec_transform(sid) == w0.spec_transform(sid));
        }
    }
}

impl SystemManager {
    /// Sorts the routines and runs them once, in order, stopping at the
    /// first failure. The board invariants and the drag invariant survive
    /// whatever the routines did.
    pub fn run_systems(
        &mut self,
        world: &mut World,
        resources: &mut Resources,
        drag: &mut DragSystem,
    ) -> (r: Result<(), EcsError>)
        requires
            old(self).wf(),
            old(world).wf(),
            old(world).boxes_wf(),
            stacks_wf(*old(world)),
            drag_inv(*old(drag), *old(world)),
        ensures
            final(self).wf(),
            final(world).wf(),
            final(world).boxes_wf(),
            stacks_wf(*final(world)),
            drag_inv(*final(drag), *final(world)),
            final(world).alive_seq() === old(world).alive_seq(),
            final(world).pending_removal() === old(world).pending_removal(),
            final(resources).time == old(resources).time,
            final(resources).input == old(resources).input,
            final(self).entries().to_multiset() == old(self).entries().to_multiset(),
            forall|i: int, j: int|
                0 <= i < j < final(self).entries().len() ==> entry_le(
                    final(self).entries()[i],
                    final(self).entries()[j],
                ),
            systems_ran(
                final(self).entries(),
                0,
                None,
                *old(world),
                *final(world),
                *old(resources),
                *final(resources),
                *old(drag),
                *final(drag),
                r,
            ),
    {
        self.sort_systems();
        let ghost w_start = *world;
        let ghost res_start = *resources;
        let ghost d_start = *drag;
        let mut i: usize = 0;
        let n = self.systems.len();
        while i < n
            invariant
                self.wf(),
                n == self.entries().len(),
                i <= n,
                world.wf(),
                world.boxes_wf(),
                stacks_wf(*world),
                drag_inv(*drag, *world),
                w_start == *old(world),
                res_start == *old(resources),
                d_start == *old(drag),
                world.alive_seq() === old(world).alive_seq(),
                world.pending_removal() === old(world).pending_removal(),
                resources.time == old(resources).time,
                resources.input == old(resources).input,
                self.entries().to_multiset() == old(self).entries().to_multiset(),
                forall|a: int, b: int|
                    0 <= a < b < self.entries().len() ==> entry_le(
                        self.entries()[a],
                        self.entries()[b],
                    ),
                forall|wz: World, resz: Resources, dz: DragSystem, rz: Result<(), EcsError>|
                    #[trigger] systems_ran(
                        self.entries(),
                        i as int,
                        None,
                        *world,
                        wz,
                        *resources,
                        resz,
                        *drag,
                        dz,
                        rz,
                    ) ==> systems_ran(
                        self.entries(),
                        0,
                        None,
                        w_start,
                        wz,
                        res_start,
                        resz,
                        d_start,
                        dz,
                        rz,
                    ),
            decreases n - i,
        {
            let ghost w_pre = *world;
            let ghost res_pre = *resources;
            let ghost d_pre = *drag;
            let kind = self.systems[i].kind;
            match run_one_system(kind, world, resources, drag) {
                Ok(()) => {
                    proof {
                        lemma_chain_extend(
                            self.entries(),
                            i as int,
                            None,
                            w_start,
                            res_start,
                            d_start,
                            w_pre,
                            res_pre,
                            d_pre,
                            *world,
                            *resources,
                            *drag,
                            Ok(()),
                        );
                    }
                },
                Err(e) => {
                    proof {
                        assert(systems_ran(
                            self.entries(),
                            i as int,
                            None,
                            w_pre,
                            *world,
                            res_pre,
                            *resources,
                            d_pre,
                            *drag,
                            Err(e),
                        )) by {
                            assert(system_step(
                                self.entries()[i as int].kind,
                                w_pre,
                                *world,
                                res_pre,
                                *resources,
                                d_pre,
                                *drag,
                                Err::<(), EcsError>(e),
                            ));
                        }
                    }
                    return Err(e);
                },
            }
            i = i + 1;
        }
        proof {
            assert(systems_ran(
                self.entries(),
                n as int,
                None,
                *world,
                *world,
                *resources,
                *resources,
                *drag,
                *drag,
                Ok::<(), EcsError>(()),
            ));
        }
        Ok(())
    }
}

/// One more routine ran in front of an already-explained tail: whoever can
/// explain a run from the next index can explain it from this one, through
/// the step just taken.
#[verifier::rlimit(50)]
proof fn lemma_chain_extend(
    entries: Seq<SystemEntry>,
    i: int,
    phase: Option<SystemPhase>,
    w_start: World,
    res_start: Resources,
    d_start: DragSystem,
    w_pre: World,
    res_pre: Resources,
    d_pre: DragSystem,
    w_now: World,
    res_now: Resources,
    d_now: DragSystem,
    rr: Result<(), EcsError>,
)
    requires
        0 <= i < entries.len(),
        match phase {
            Some(p) => entries[i].phase == p,
            None => true,
        },
        system_step(entries[i].kind, w_pre, w_now, res_pre, res_now, d_pre, d_now, rr),
        rr is Ok,
        forall|wz: World, resz: Resources, dz: DragSystem, rz: Result<(), EcsError>|
            #[trigger] systems_ran(entries, i, phase, w_pre, wz, res_pre, resz, d_pre, dz, rz)
                ==> systems_ran(entries, 0, phase, w_start, wz, res_start, resz, d_start, dz, rz),
    ensures
        forall|wz: World, resz: Resources, dz: DragSystem, rz: Result<(), EcsError>|
            #[trigger] systems_ran(entries, i + 1, phase, w_now, wz, res_now, resz, d_now, dz, rz)
                ==> systems_ran(entries, 0, phase, w_start, wz, res_start, resz, d_start, dz, rz),
{
    assert forall|wz: World, resz: Resources, dz: DragSystem, rz: Result<(), EcsError>|
        #[trigger] systems_ran(entries, i + 1, phase, w_now, wz, res_now, resz, d_now, dz, rz)
            implies systems_ran(
        entries,
        0,
        phase,
        w_start,
        wz,
        res_start,
        resz,
        d_start,
        dz,
        rz,
    ) by {
        assert(systems_ran(entries, i, phase, w_pre, wz, res_pre, resz, d_pre, dz, rz)) by {
            assert(system_step(entries[i].kind, w_pre, w_now, res_pre, res_now, d_pre, d_now, rr));
        }
    }
}

impl SystemManager {
    /// Sorts the routines and runs only those of the given phase, in order,
    /// stopping at the first failure; an external driver uses this to run a
    /// single phase in isolation. The board and drag invariants survive as
    /// in a full run.
    pub fn run_systems_for_phase(
        &mut self,
        phase: SystemPhase,
        world: &mut World,
        resources: &mut Resources,
        drag: &mut DragSystem,
    ) -> (r: Result<(), EcsError>)
        requires
            old(self).wf(),
            old(world).wf(),
            old(world).boxes_wf(),
            stacks_wf(*old(world)),
            drag_inv(*old(drag), *old(world)),
        ensures
            final(self).wf(),
            final(world).wf(),
            final(world).boxes_wf(),
            stacks_wf(*final(world)),
            drag_inv(*final(drag), *final(world)),
            final(world).alive_seq() === old(world).alive_seq(),
            final(world).pending_removal() === old(world).pending_removal(),
            final(resources).time == old(resources).time,
            final(resources).input == old(resources).input,
            final(self).entries().to_multiset() == old(self).entries().to_multiset(),
            forall|i: int, j: int|
                0 <= i < j < final(self).entries().len() ==> entry_le(
                    final(self).entries()[i],
                    final(self).entries()[j],
                ),
            systems_ran(
                final(self).entries(),
                0,
                Some(phase),
                *old(world),
                *final(world),
                *old(resources),
                *final(resources),
                *old(drag),
                *final(drag),
                r,
            ),
    {
        self.sort_systems();
        let ghost w_start = *world;
        let ghost res_start = *resources;
        let ghost d_start = *drag;
        let mut i: usize = 0;
        let n = self.systems.len();
        while i < n
            invariant
                self.wf(),
                n == self.entries().len(),
                i <= n,
                world.wf(),
                world.boxes_wf(),
                stacks_wf(*world),
                drag_inv(*drag, *world),
                w_start == *old(world),
                res_start == *old(resources),
                d_start == *old(drag),
                world.alive_seq() === old(world).alive_seq(),
                world.pending_removal() === old(world).pending_removal(),
                resources.time == old(resources).time,
                resources.input == old(resources).input,
                self.entries().to_multiset() == old(self).entries().to_multiset(),
                forall|a: int, b: int|
                    0 <= a < b < self.entries().len() ==> entry_le(
                        self.entries()[a],
                        self.entries()[b],
                    ),
                forall|wz: World, resz: Resources, dz: DragSystem, rz: Result<(), EcsError>|
                    #[trigger] systems_ran(
                        self.entries(),
                        i as int,
                        Some(phase),
                        *world,
                        wz,
                        *resources,
                        resz,
                        *drag,
                        dz,
                        rz,
                    ) ==> systems_ran(
                        self.entries(),
                        0,
                        Some(phase),
                        w_start,
                        wz,
                        res_start,
                        resz,
                        d_start,
                        dz,
                        rz,
                    ),
            decreases n - i,
        {
            let ghost w_pre = *world;
            let ghost res_pre = *resources;
            let ghost d_pre = *drag;
            let entry = self.systems[i];
            if entry.phase == phase {
                match run_one_system(entry.kind, world, resources, drag) {
                    Ok(()) => {
                        proof {
                            lemma_chain_extend(
                                self.entries(),
                                i as int,
                                Some(phase),
                                w_start,
                                res_start,
                                d_start,
                                w_pre,
                                res_pre,
                                d_pre,
                                *world,
                                *resources,
                                *drag,
                                Ok(()),
                            );
                        }
                    },
                    Err(e) => {
                        proof {
                            assert(systems_ran(
                                self.entries(),
                                i as int,
                                Some(phase),
                                w_pre,
                                *world,
                                res_pre,
                                *resources,
                                d_pre,
                                *drag,
                                Err(e),
                            )) by {
                                assert(system_step(
                                    self.entries()[i as int].kind,
                                    w_pre,
                                    *world,
                                    res_pre,
                                    *resources,
                                    d_pre,
                                    *drag,
                                    Err::<(), EcsError>(e),
                                ));
                            }
                        }
                        return Err(e);
                    },
                }
            } else {
                proof {
                    // An entry of another phase is passed over: the chain
                    // from the next index explains this one unchanged.
                    assert forall|wz: World, resz: Resources, dz: DragSystem, rz: Result<
                        (),
                        EcsError,
                    >|
                        #[trigger] systems_ran(
                            self.entries(),
                            i + 1,
                            Some(phase),
                            *world,
                            wz,
                            *resources,
                            resz,
                            *drag,
                            dz,
                            rz,
                        ) implies systems_ran(
                        self.entries(),
                        0,
                        Some(phase),
                        w_start,
                        wz,
                        res_start,
                        resz,
                        d_start,
                        dz,
                        rz,
                    ) by {
                        assert(systems_ran(
                            self.entries(),
                            i as int,
                            Some(phase),
                            *world,
                            wz,
                            *resources,
                            resz,
                            *drag,
                            dz,
                            rz,
                        ));
                    }
                }
            }
            i = i + 1;
        }
        proof {
            assert(systems_ran(
                self.entries(),
                n as int,
                Some(phase),
                *world,
                *world,
                *resources,
                *resources,
                *drag,
                *drag,
                Ok::<(), EcsError>(()),
            ));
        }
        Ok(())
    }
}

/// What one routine leaves behind, by kind: the board and drag invariants
/// survive, the clock and input snapshot are read-only to routines, the
/// render slot and the win check leave the world alone (the check moves the
/// game phase to cleared exactly on a cleared playing board), the click
/// routine follows `input_click_post` while no drag is held, and the drag
/// routine fires the pointer events per the pointer functions' contracts.
pub open spec fn system_step(
    kind: SystemKind,
    w0: World,
    w1: World,
    res0: Resources,
    res1: Resources,
    d0: DragSystem,
    d1: DragSystem,
    rr: Result<(), EcsError>,
) -> bool {
    &&& w1.wf()
    &&& w1.boxes_wf()
    &&& stacks_wf(w1)
    &&& drag_inv(d1, w1)
    &&& w1.alive_seq() === w0.alive_seq()
    &&& w1.pending_removal() === w0.pending_removal()
    &&& res1.time == res0.time
    &&& res1.input == res0.input
    &&& (kind == SystemKind::Render ==> (w1 == w0 && d1 == d0 && res1 == res0 && rr is Ok))
    &&& (kind == SystemKind::GameStateCheck ==> (w1 == w0 && d1 == d0 && rr is Ok
        && res1.game_state == (if res0.game_state == GameState::Playing && spec_board_cleared(w0) {
        GameState::Clear
    } else {
        res0.game_state
    })))
    &&& (kind == SystemKind::Input ==> (d1 == d0 && res1 == res0 && (d0.is_idle()
        ==> input_click_post(
        w0,
        w1,
        res0.input.is_mouse_clicked,
        res0.input.mouse_position.x,
        res0.input.mouse_position.y,
        rr,
    )) && (!d0.is_idle() ==> w1 == w0 && rr is Ok)))
    &&& (kind == SystemKind::Drag ==> {
        let px = res0.input.mouse_position.x;
        let py = res0.input.mouse_position.y;
        &&& res1 == res0
        &&& rr is Ok
        &&& ((px < -POINTER_LIMIT || px > POINTER_LIMIT || py < -POINTER_LIMIT || py
            > POINTER_LIMIT) ==> (w1 == w0 && d1 == d0))
        &&& ((-POINTER_LIMIT <= px <= POINTER_LIMIT && -POINTER_LIMIT <= py <= POINTER_LIMIT
            && res0.input.is_mouse_clicked && d0.is_idle()) ==> ((!d1.is_idle())
            == crate::drag::pick_possible(w0, px, py)))
        &&& ((-POINTER_LIMIT <= px <= POINTER_LIMIT && -POINTER_LIMIT <= py <= POINTER_LIMIT
            && res0.input.is_mouse_down && !d0.is_idle() && !(res0.input.is_mouse_clicked
            && d0.is_idle())) ==> (d1 == d0 && exists|wm: World|
            #[trigger] crate::drag::move_post(w0, wm, d0.spec_group(), px, py)
                && crate::drag::highlight_shift(wm, w1, d0, px, py)))
        &&& ((-POINTER_LIMIT <= px <= POINTER_LIMIT && -POINTER_LIMIT <= py <= POINTER_LIMIT
            && !res0.input.is_mouse_down && !d0.is_idle()) ==> (d1.is_idle() && (if
        crate::drag::release_commits(w0, d0, px, py) {
            crate::drag::commit_post(w0, w1, d0, px, py)
        } else {
            crate::drag::revert_post(w0, w1, d0.spec_group())
        })))
    })
}

/// The routines of `entries` from index `i` on ran in order, each step
/// related to the next by `system_step` (entries of another phase than the
/// filter are passed over); the first failing routine's error is the run's
/// result and nothing after it ran, otherwise the run ends `Ok` with the
/// final state the last step's.
pub open spec fn systems_ran(
    entries: Seq<SystemEntry>,
    i: int,
    phase: Option<SystemPhase>,
    w0: World,
    w1: World,
    res0: Resources,
    res1: Resources,
    d0: DragSystem,
    d1: DragSystem,
    r: Result<(), EcsError>,
) -> bool
    decreases entries.len() - i when i <= entries.len()
{
    if i < 0 || i >= entries.len() {
        w1 == w0 && res1 == res0 && d1 == d0 && r is Ok
    } else if (match phase {
        Some(p) => entries[i].phase != p,
        None => false,
    }) {
        systems_ran(entries, i + 1, phase, w0, w1, res0, res1, d0, d1, r)
    } else {
        exists|wm: World, resm: Resources, dm: DragSystem, rr: Result<(), EcsError>|
            #[trigger] system_step(entries[i].kind, w0, wm, res0, resm, d0, dm, rr) && (match rr {
                Ok(()) => systems_ran(entries, i + 1, phase, wm, w1, resm, res1, dm, d1, r),
                Err(e) => w1 == wm && res1 == resm && d1 == dm && r == Err::<(), EcsError>(e),
            })
    }
}

/// Runs one routine by kind. Rendering belongs to the render collaborator
/// and does nothing here.
pub fn run_one_system(
    kind: SystemKind,
    world: &mut World,
    resources: &mut Resources,
    drag: &mut DragSystem,
) -> (r: Result<(), EcsError>)
    requires
        old(world).wf(),
        old(world).boxes_wf(),
        stacks_wf(*old(world)),
        drag_inv(*old(drag), *old(world)),
    ensures
        system_step(
            kind,
            *old(world),
            *final(world),
            *old(resources),
            *final(resources),
            *old(drag),
            *final(drag),
            r,
        ),
{
    match kind {
        SystemKind::Input => {
            // Clicks are handled only while no drag is in flight; a held
            // group stays untouched.
            if drag.is_idle_exec() {
                let clicked = resources.input.is_mouse_clicked;
                let x = resources.input.mouse_position.x;
                let y = resources.input.mouse_position.y;
                match input_system_run(world, clicked, x, y) {
                    Ok(()) => Ok(()),
                    Err(e) => Err(e),
                }
            } else {
                Ok(())
            }
        },
        SystemKind::Drag => {
            let x = resources.input.mouse_position.x;
            let y = resources.input.mouse_position.y;
            if x < -POINTER_LIMIT || x > POINTER_LIMIT || y < -POINTER_LIMIT || y
                > POINTER_LIMIT {
                return Ok(());
            }
            if resources.input.is_mouse_clicked && drag.is_idle_exec() {
                drag.pointer_down(world, x, y);
                Ok(())
            } else if resources.input.is_mouse_down && !drag.is_idle_exec() {
                drag.pointer_move(world, x, y);
                drag.highlight_drop_target(world, x, y);
                proof {
                    // The carry and the highlighting keep every held member's
                    // components, so the group stays held.
                    if !drag.is_idle() {
                        let grp = drag.spec_group();
                        assert(group_held(*world, grp)) by {
                            assert forall|k: int|
                                0 <= k < grp.len() implies ((world.spec_draggable(
                                #[trigger] grp[k],
                            ) matches Some(d) && -crate::COORD_LIMIT <= d.original_position.x
                                <= crate::COORD_LIMIT && -crate::COORD_LIMIT
                                <= d.original_position.y <= crate::COORD_LIMIT && -crate::Z_LIMIT
                                <= d.original_z_index <= crate::Z_LIMIT && -(POINTER_LIMIT
                                + crate::COORD_LIMIT) <= d.drag_offset.x <= POINTER_LIMIT
                                + crate::COORD_LIMIT && -(POINTER_LIMIT + crate::COORD_LIMIT)
                                <= d.drag_offset.y <= POINTER_LIMIT + crate::COORD_LIMIT)
                                && world.spec_transform(grp[k]) is Some && world.spec_renderable(
                                grp[k],
                            ) is Some && world.spec_stack(grp[k]) is None) by {
                            }
                        }
                    }
                }
                Ok(())
            } else if !resources.input.is_mouse_down && !drag.is_idle_exec() {
                match drag.pointer_up(world, x, y) {
                    Ok(true) => {
                        proof {
                            assert(crate::drag::release_commits(*old(world), *old(drag), x, y));
                            assert(crate::drag::commit_post(*old(world), *world, *old(drag), x, y));
                        }
                        Ok(())
                    },
                    Ok(false) => {
                        proof {
                            assert(!crate::drag::release_commits(*old(world), *old(drag), x, y));
                            assert(crate::drag::revert_post(
                                *old(world),
                                *world,
                                old(drag).spec_group(),
                            ));
                        }
                        Ok(())
                    },
                    Err(_) => Ok(()),
                }
            } else {
                Ok(())
            }
        },
        SystemKind::GameStateCheck => {
            game_state_system_run(world, resources);
            Ok(())
        },
        SystemKind::Render => Ok(()),
    }
}

} // verus!

verus! {

/// The resources with the clock advanced to the given timestamp: the clamped
/// frame delta recorded and added to the total (saturating), the frame
/// counter grown by one (saturating), the timestamp remembered.
pub open spec fn clock_advanced(res: Resources, current_time_ms: u64) -> Resources {
    Resources {
        time: TimeInfo {
            delta_time_ms: spec_frame_delta(res.time, current_time_ms),
            total_time_ms: if res.time.total_time_ms + spec_frame_delta(res.time, current_time_ms)
                <= u64::MAX {
                (res.time.total_time_ms + spec_frame_delta(res.time, current_time_ms)) as u64
            } else {
                u64::MAX
            },
            frame_count: if res.time.frame_count < u64::MAX {
                (res.time.frame_count + 1) as u64
            } else {
                u64::MAX
            },
            target_fps: res.time.target_fps,
            last_frame_time_ms: current_time_ms,
        },
        ..res
    }
}

/// The resources with the one-frame click pulse cleared.
pub open spec fn pulse_cleared(res: Resources) -> Resources {
    Resources { input: InputState { is_mouse_clicked: false, ..res.input }, ..res }
}

/// What the housekeeping pass leaves when nothing was pending: the same
/// entities with the same components, and still nothing pending.
pub open spec fn flushed_unchanged(a: World, b: World) -> bool {
    &&& forall|id: EntityId| b.spec_alive(id) <==> a.spec_alive(id)
    &&& b.pending_removal() === Seq::<EntityId>::empty()
    &&& b.next_id() == a.next_id()
    &&& crate::world::transforms_eq(b, a)
    &&& crate::world::cards_eq(b, a)
    &&& crate::world::renderables_eq(b, a)
    &&& crate::world::draggables_eq(b, a)
    &&& crate::world::clickables_eq(b, a)
    &&& crate::world::stacks_eq(b, a)
    &&& crate::world::droppables_eq(b, a)
}

/// One tick: the clock advances to the given timestamp, the sorted routines
/// run once (a failure aborts the remainder of the tick), the one-frame
/// click pulse clears, and the housekeeping pass applies deferred deletions.
/// A tick starts with no deletions pending — housekeeping runs only here —
/// and ends the same way.
pub fn run_tick(
    world: &mut World,
    system_manager: &mut SystemManager,
    resources: &mut Resources,
    drag: &mut DragSystem,
    current_time_ms: u64,
) -> (r: Result<(), EcsError>)
    requires
        old(system_manager).wf(),
        old(world).wf(),
        old(world).boxes_wf(),
        stacks_wf(*old(world)),
        old(world).pending_removal() === Seq::<EntityId>::empty(),
        drag_inv(*old(drag), *old(world)),
    ensures
        final(system_manager).wf(),
        final(world).wf(),
        final(world).boxes_wf(),
        stacks_wf(*final(world)),
        final(world).pending_removal() === Seq::<EntityId>::empty(),
        drag_inv(*final(drag), *final(world)),
        final(resources).time.last_frame_time_ms == current_time_ms,
        !final(resources).input.is_mouse_clicked,
        exists|w_sys: World, res_sys: Resources|
            #[trigger] systems_ran(
                final(system_manager).entries(),
                0,
                None,
                *old(world),
                w_sys,
                clock_advanced(*old(resources), current_time_ms),
                res_sys,
                *old(drag),
                *final(drag),
                r,
            ) && *final(resources) == pulse_cleared(res_sys) && flushed_unchanged(
                w_sys,
                *final(world),
            ),
{
    resources.time.update(current_time_ms);
    proof {
        assert(*resources == clock_advanced(*old(resources), current_time_ms));
    }
    let r = system_manager.run_systems(world, resources, drag);
    let ghost w_sys = *world;
    let ghost res_sys = *resources;
    resources.input.reset_click_state();
    proof {
        assert(*resources == pulse_cleared(res_sys));
    }
    world.update();
    proof {
        // Nothing was pending, so the housekeeping pass changes nothing
        // observable: every entity stays alive with its components.
        assert forall|id: EntityId|
            world.spec_alive(id) <==> w_sys.spec_alive(id) by {
            assert(!w_sys.pending_removal().contains(id));
        }
        assert forall|id: EntityId| #[trigger] world.spec_transform(id) == w_sys.spec_transform(
            id,
        ) && world.spec_card(id) == w_sys.spec_card(id) && world.spec_renderable(id)
            == w_sys.spec_renderable(id) && world.spec_draggable(id) == w_sys.spec_draggable(id)
            && world.spec_clickable(id) == w_sys.spec_clickable(id) && world.spec_stack(id)
            == w_sys.spec_stack(id) && world.spec_droppable(id) == w_sys.spec_droppable(id) by {
            if world.spec_alive(id) {
            } else {
                assert(!w_sys.spec_alive(id));
            }
        }
        lemma_same_components_keep_board(w_sys, *world);
        assert(flushed_unchanged(w_sys, *world));
        assert(drag_inv(*drag, *world)) by {
            if !drag.is_idle() {
                let grp = drag.spec_group();
                assert(group_held(*world, grp)) by {
                    assert forall|k: int|
                        0 <= k < grp.len() implies ((world.spec_draggable(#[trigger] grp[k])
                        matches Some(d) && -crate::COORD_LIMIT <= d.original_position.x
                        <= crate::COORD_LIMIT && -crate::COORD_LIMIT <= d.original_position.y
                        <= crate::COORD_LIMIT && -crate::Z_LIMIT <= d.original_z_index
                        <= crate::Z_LIMIT && -(POINTER_LIMIT + crate::COORD_LIMIT)
                        <= d.drag_offset.x <= POINTER_LIMIT + crate::COORD_LIMIT && -(POINTER_LIMIT
                        + crate::COORD_LIMIT) <= d.drag_offset.y <= POINTER_LIMIT
                        + crate::COORD_LIMIT) && world.spec_transform(grp[k]) is Some
                        && world.spec_renderable(grp[k]) is Some && world.spec_stack(grp[k])
                        is None) by {
                        assert(world.spec_draggable(grp[k]) == w_sys.spec_draggable(grp[k]));
                        assert(world.spec_transform(grp[k]) == w_sys.spec_transform(grp[k]));
                        assert(world.spec_renderable(grp[k]) == w_sys.spec_renderable(grp[k]));
                        assert(world.spec_stack(grp[k]) == w_sys.spec_stack(grp[k]));
                    }
                }
            }
        }
    }
    r
}

/// Two worlds with the same components satisfy the same board invariants.
proof fn lemma_same_components_keep_board(w0: World, w1: World)
    requires
        w0.boxes_wf(),
        stacks_wf(w0),
        forall|id: EntityId| #[trigger] w1.spec_transform(id) == w0.spec_transform(id),
        forall|id: EntityId| #[trigger] w1.spec_card(id) == w0.spec_card(id),
        forall|id: EntityId| #[trigger] w1.spec_renderable(id) == w0.spec_renderable(id),
        forall|id: EntityId| #[trigger] w1.spec_stack(id) == w0.spec_stack(id),
        forall|id: EntityId| #[trigger] w1.spec_droppable(id) == w0.spec_droppable(id),
    ensures
        w1.boxes_wf(),
        stacks_wf(w1),
{
    assert forall|o: EntityId| crate::world::transform_bounded(
        #[trigger] w1.spec_transform(o),
    ) by {
        assert(crate::world::transform_bounded(w0.spec_transform(o)));
    }
    assert forall|o: EntityId| crate::world::renderable_bounded(
        #[trigger] w1.spec_renderable(o),
    ) by {
        assert(crate::world::renderable_bounded(w0.spec_renderable(o)));
    }
    assert forall|o: EntityId| crate::world::droppable_bounded(
        #[trigger] w1.spec_droppable(o),
    ) by {
        assert(crate::world::droppable_bounded(w0.spec_droppable(o)));
    }
    assert forall|sid: EntityId| #[trigger] crate::solitaire::stack_cards_ok(w1, sid) by {
        assert(crate::solitaire::stack_cards_ok(w0, sid));
        if w1.spec_stack(sid) is Some {
            let cs = w1.spec_stack(sid)->Some_0.cards@;
            assert(w1.spec_stack(sid) == w0.spec_stack(sid));
            assert forall|i: int|
                0 <= i < cs.len() implies w1.spec_card(#[trigger] cs[i]) is Some by {
                assert(w0.spec_card(cs[i]) is Some);
            }
        }
    }
    assert forall|s1: EntityId, s2: EntityId, id: EntityId|
        #[trigger] stack_has_card(w1, s1, id) && #[trigger] stack_has_card(w1, s2, id) implies s1
        == s2 by {
        assert(w1.spec_stack(s1) == w0.spec_stack(s1));
        assert(w1.spec_stack(s2) == w0.spec_stack(s2));
        assert(stack_has_card(w0, s1, id) && stack_has_card(w0, s2, id));
    }
    assert forall|sid: EntityId, id: EntityId| #[trigger]
        stack_has_card(w1, sid, id) implies w1.spec_stack(id) is None by {
        assert(w1.spec_stack(sid) == w0.spec_stack(sid));
        assert(stack_has_card(w0, sid, id));
        assert(w1.spec_stack(id) == w0.spec_stack(id));
    }
    assert forall|sid: EntityId| #[trigger] crate::solitaire::stack_anchor_ok(w1, sid) by {
        assert(crate::solitaire::stack_anchor_ok(w0, sid));
        if w1.spec_stack(sid) is Some && w1.spec_transform(sid) is Some {
            assert(w1.spec_stack(sid) == w0.spec_stack(sid));
            assert(w1.spec_transform(sid) == w0.spec_transform(sid));
        }
    }
}

/// Registers the game's routines in their phases: click handling and the
/// drag machine in the input phase (clicks first), win detection in the
/// update phase at a late priority, and the render slot last.
pub fn setup_systems(system_manager: &mut SystemManager)
    requires
        old(system_manager).wf(),
        old(system_manager).next_seq_spec() + 4 <= usize::MAX,
    ensures
        final(system_manager).wf(),
        final(system_manager).entries().len() == old(system_manager).entries().len() + 4,
{
    system_manager.add_system(SystemKind::Input, SystemPhase::Input, 0);
    system_manager.add_system(SystemKind::Drag, SystemPhase::Input, 1);
    system_manager.add_system(SystemKind::GameStateCheck, SystemPhase::Update, 100);
    system_manager.add_system(SystemKind::Render, SystemPhase::Render, 0);
}

} // verus!
