use std::collections::VecDeque;
use vstd::prelude::*;

verus! {

/// Number of pooled slots that must be waiting before a freed slot is reused.
pub const INDEX_REUSE_THRESHOLD: usize = 2048;

/// Mask of the 24 index bits of a handle.
pub const INDEX_MASK: u32 = 0xff_ffff;

/// Mask of the 8 generation bits of a handle, once shifted down.
pub const GENERATION_MASK: u32 = 0xff;

/// Number of slots that the 24 index bits can address.
pub const ENTITY_SLOTS: usize = 0x100_0000;

/// A handle: the generation in the top 8 bits, the slot index in the low 24.
pub type Entity = u32;

/// Per-slot reuse counter.
pub type Generation = u8;

/// The slot index encoded in a handle.
pub open spec fn entity_index(e: Entity) -> nat {
    (e % 0x100_0000) as nat
}

/// The generation encoded in a handle.
pub open spec fn entity_generation(e: Entity) -> Generation {
    (e / 0x100_0000) as u8
}

/// The handle made of a generation and a slot index.
pub open spec fn entity_handle(generation: Generation, index: nat) -> int {
    generation * 0x100_0000 + index
}

/// A slot's generation after one more destruction; it wraps after 255.
pub open spec fn next_generation(g: Generation) -> Generation {
    if g == 255 {
        0
    } else {
        (g + 1) as u8
    }
}

/// Packing a generation and an index into a handle keeps both readable.
proof fn lemma_pack(e: u32, g: u32, index: u32)
    requires
        e == (g << 24u32) | index,
        g < 256,
        index < 0x100_0000,
    ensures
        e as int == entity_handle(g as u8, index as nat),
        entity_index(e) == index,
        entity_generation(e) == g as u8,
{
    assert(e >> 24u32 == g && e & 0xff_ffffu32 == index) by (bit_vector)
        requires
            e == (g << 24u32) | index,
            g < 256u32,
            index < 0x100_0000u32,
    ;
    lemma_unpack(e);
    vstd::arithmetic::div_mod::lemma_fundamental_div_mod(e as int, 0x100_0000);
}

/// Shifting and masking a handle read the same fields as dividing it.
proof fn lemma_unpack(e: u32)
    ensures
        (e >> 24u32) & 0xffu32 == e / 0x100_0000u32,
        e >> 24u32 == e / 0x100_0000u32,
        e & 0xff_ffffu32 == e % 0x100_0000u32,
{
    assert((e >> 24u32) & 0xffu32 == e / 0x100_0000u32 && e >> 24u32 == e / 0x100_0000u32
        && e & 0xff_ffffu32 == e % 0x100_0000u32) by (bit_vector);
}

/// What one call of `create` does: with more than `INDEX_REUSE_THRESHOLD`
/// slots pooled, the oldest is taken and returned with its generation;
/// otherwise a new slot with generation 0 is appended and returned.
pub open spec fn create_step(before: EntityManager, after: EntityManager, e: Entity) -> bool {
    if before.pool().len() > INDEX_REUSE_THRESHOLD {
        let i = before.pool()[0];
        &&& e as int == entity_handle(before.generations()[i as int], i as nat)
        &&& entity_index(e) == i
        &&& entity_generation(e) == before.generations()[i as int]
        &&& after.generations() == before.generations()
        &&& after.pool() == before.pool().drop_first()
    } else {
        &&& e as int == entity_handle(0, before.generations().len())
        &&& entity_index(e) == before.generations().len()
        &&& entity_generation(e) == 0
        &&& after.generations() == before.generations().push(0)
        &&& after.pool() == before.pool()
    }
}

/// Allocates generation-tagged entity handles and recycles their slots.
///
/// The generation has 8 bits: after 256 destructions of one slot a stale
/// handle to it reads as alive again. Slots are reused only once more than
/// `INDEX_REUSE_THRESHOLD` of them wait, which spreads reuse out.
pub struct EntityManager {
    generations: Vec<Generation>,
    pool: VecDeque<u32>,
}

impl EntityManager {
    /// The current generation of every slot ever allocated.
    pub closed spec fn generations(&self) -> Seq<Generation> {
        self.generations@
    }

    /// Freed slot indices, oldest first.
    pub closed spec fn pool(&self) -> Seq<u32> {
        self.pool@
    }

    /// Every pooled index names an allocated slot, and the slots fit in 24 bits.
    pub closed spec fn wf(&self) -> bool {
        &&& self.generations@.len() <= ENTITY_SLOTS
        &&& forall|j: int| 0 <= j < self.pool@.len() ==> (#[trigger] self.pool@[j] as int) < self.generations@.len()
    }

    /// A handle is alive when its slot's generation matches the one it carries.
    pub open spec fn is_alive(&self, e: Entity) -> bool {
        self.generations()[entity_index(e) as int] == entity_generation(e)
    }

    /// What a well-formed allocator holds: at most 2^24 slots, and every
    /// pooled index names one of them.
    pub proof fn lemma_wf_views(&self)
        requires
            self.wf(),
        ensures
            self.generations().len() <= ENTITY_SLOTS,
            forall|j: int| 0 <= j < self.pool().len() ==> (#[trigger] self.pool()[j] as int) < self.generations().len(),
    {
    }

    pub fn new() -> (m: EntityManager)
        ensures
            m.wf(),
            m.generations() == Seq::<Generation>::empty(),
            m.pool() == Seq::<u32>::empty(),
    {
        EntityManager { generations: Vec::new(), pool: VecDeque::new() }
    }

    /// Number of slots ever allocated.
    pub fn slots(&self) -> (n: usize)
        ensures
            n == self.generations().len(),
    {
        self.generations.len()
    }

    /// Number of freed slots waiting for reuse.
    pub fn pooled(&self) -> (n: usize)
        ensures
            n == self.pool().len(),
    {
        self.pool.len()
    }

    /// Issues a handle. Once more than `INDEX_REUSE_THRESHOLD` slots wait in
    /// the pool, the oldest of them is reused with its current generation;
    /// otherwise a new slot with generation 0 is appended.
    pub fn create(&mut self) -> (e: Entity)
        requires
            old(self).wf(),
            old(self).pool().len() > INDEX_REUSE_THRESHOLD || old(self).generations().len()
                < ENTITY_SLOTS,
        ensures
            final(self).wf(),
            create_step(*old(self), *final(self), e),
            entity_index(e) < final(self).generations().len(),
            final(self).is_alive(e),
    {
        if self.pool.len() > INDEX_REUSE_THRESHOLD {
            let popped = self.pool.pop_front();
            if let Some(index) = popped {
                assert(old(self).pool@[0] == index);
                let g = self.generations[index as usize];
                let gg: u32 = g as u32;
                let e = (gg << 24u32) | index;
                proof {
                    lemma_pack(e, gg, index);
                }
                assert forall|j: int| 0 <= j < self.pool@.len() implies (#[trigger] self.pool@[j]
                    as int) < self.generations@.len() by {
                    assert(self.pool@[j] == old(self).pool@[j + 1]);
                }
                return e;
            }
        }
        self.generations.push(0);
        let index = (self.generations.len() - 1) as u32;
        assert(index < 0x100_0000);
        assert forall|j: int| 0 <= j < self.pool@.len() implies (#[trigger] self.pool@[j]
            as int) < self.generations@.len() by {
            assert(self.pool@[j] == old(self).pool@[j]);
        }
        index
    }

    /// Whether the slot that `e` names still carries `e`'s generation.
    pub fn alive(&self, e: Entity) -> (r: bool)
        requires
            self.wf(),
            entity_index(e) < self.generations().len(),
        ensures
            r == self.is_alive(e),
    {
        let generation = ((e >> 24u32) & GENERATION_MASK) as u8;
        let index = (e & INDEX_MASK) as usize;
        proof {
            lemma_unpack(e);
        }
        self.generations[index] == generation
    }

    /// Bumps the generation of `e`'s slot and queues the slot for reuse.
    pub fn destroy(&mut self, e: Entity)
        requires
            old(self).wf(),
            entity_index(e) < old(self).generations().len(),
        ensures
            final(self).wf(),
            final(self).generations() == old(self).generations().update(
                entity_index(e) as int,
                next_generation(old(self).generations()[entity_index(e) as int]),
            ),
            final(self).pool() == old(self).pool().push(entity_index(e) as u32),
    {
        let index = (e & INDEX_MASK) as usize;
        proof {
            lemma_unpack(e);
        }
        let g = self.generations[index];
        self.generations.set(index, g.wrapping_add(1));
        self.pool.push_back(index as u32);
        assert forall|j: int| 0 <= j < self.pool@.len() implies (#[trigger] self.pool@[j]
            as int) < self.generations@.len() by {
            if j < old(self).pool@.len() {
                assert(self.pool@[j] == old(self).pool@[j]);
            }
        }
    }
}

/// Successive calls of `create` on a fresh allocator return the slot
/// indices 0, 1, 2, ... in order, each with generation 0: `states[i + 1]` and
/// `handles[i]` are what the `i`-th call left and returned.
pub proof fn lemma_fresh_creates_are_sequential(states: Seq<EntityManager>, handles: Seq<Entity>)
    requires
        states.len() == handles.len() + 1,
        handles.len() <= ENTITY_SLOTS,
        states[0].generations().len() == 0,
        states[0].pool().len() == 0,
        forall|i: int|
            0 <= i < handles.len() ==> #[trigger] create_step(states[i], states[i + 1], handles[i]),
    ensures
        forall|i: int|
            0 <= i < handles.len() ==> entity_index(#[trigger] handles[i]) == i && entity_generation(
                handles[i],
            ) == 0,
{
    assert forall|i: int| 0 <= i < handles.len() implies entity_index(#[trigger] handles[i]) == i
        && entity_generation(handles[i]) == 0 by {
        lemma_fresh_prefix(states, handles, i as nat);
        assert(create_step(states[i], states[i + 1], handles[i]));
    }
}

/// After `k` creates on a fresh allocator, `k` slots exist and none is pooled.
proof fn lemma_fresh_prefix(states: Seq<EntityManager>, handles: Seq<Entity>, k: nat)
    requires
        states.len() == handles.len() + 1,
        k <= handles.len(),
        states[0].generations().len() == 0,
        states[0].pool().len() == 0,
        forall|i: int|
            0 <= i < handles.len() ==> #[trigger] create_step(states[i], states[i + 1], handles[i]),
    ensures
        states[k as int].generations().len() == k,
        states[k as int].pool().len() == 0,
    decreases k,
{
    if k > 0 {
        lemma_fresh_prefix(states, handles, (k - 1) as nat);
        let i = k - 1;
        assert(create_step(states[i], states[i + 1], handles[i]));
    }
}

/// After `destroy(e)`, `alive(e)` is false, unless `e` carries exactly the
/// generation its slot wraps round to (a handle 255 destructions stale).
pub proof fn lemma_destroy_kills(before: EntityManager, after: EntityManager, e: Entity)
    requires
        before.wf(),
        entity_index(e) < before.generations().len(),
        after.generations() == before.generations().update(
            entity_index(e) as int,
            next_generation(before.generations()[entity_index(e) as int]),
        ),
        entity_generation(e) != next_generation(before.generations()[entity_index(e) as int]),
    ensures
        !after.is_alive(e),
{
}

} // verus!
