use vstd::prelude::*;

verus! {

/// Number of distinct slot indices: the index lives in the lower 32 bits of
/// a handle and the generation in the upper 32 bits.
pub open spec fn slot_span() -> int {
    0x1_0000_0000
}

/// The 64-bit encoding of an (index, generation) pair.
pub open spec fn encode(index: u32, generation: u32) -> int {
    generation * slot_span() + index
}

/// A unique identifier for an entity in the world.
/// Uses a generational index: lower 32 bits are the index, upper 32 bits are
/// the generation.
#[derive(Clone, Copy, Debug, PartialEq, Eq, Hash, Structural)]
pub struct Entity {
    id: u64,
}

impl Entity {
    /// The raw 64-bit value of the handle.
    pub closed spec fn bits(self) -> u64 {
        self.id
    }

    /// The slot index carried by the handle.
    pub open spec fn index_of(self) -> u32 {
        (self.bits() as int % slot_span()) as u32
    }

    /// The generation carried by the handle.
    pub open spec fn generation_of(self) -> u32 {
        (self.bits() as int / slot_span()) as u32
    }

    pub fn new(index: u32, generation: u32) -> (e: Self)
        ensures
            e.bits() == encode(index, generation),
            e.index_of() == index,
            e.generation_of() == generation,
    {
        let id: u64 = (generation as u64) << 32 | index as u64;
        assert(((generation as u64) << 32 | index as u64) == (generation as u64) * 0x1_0000_0000u64
            + index as u64) by (bit_vector);
        Self { id }
    }

    /// The handle with the given raw 64-bit value (as a deserialised handle
    /// is rebuilt).
    pub fn from_id(id: u64) -> (e: Self)
        ensures
            e.bits() == id,
    {
        Self { id }
    }

    pub fn index(self) -> (r: u32)
        ensures
            r == self.index_of(),
    {
        let id = self.id;
        assert(id as u32 == id % 0x1_0000_0000) by (bit_vector);
        self.id as u32
    }

    pub fn generation(self) -> (r: u32)
        ensures
            r == self.generation_of(),
    {
        let id = self.id;
        assert((id >> 32u64) as u32 == id / 0x1_0000_0000) by (bit_vector);
        (self.id >> 32) as u32
    }

    pub fn id(self) -> (r: u64)
        ensures
            r == self.bits(),
    {
        self.id
    }

    /// Every handle is the encoding of its own index and generation.
    pub proof fn lemma_bits_from_parts(self)
        ensures
            self.bits() == encode(self.index_of(), self.generation_of()),
    {
        let b = self.bits();
        assert(b / 0x1_0000_0000u64 < 0x1_0000_0000u64) by (bit_vector);
    }
}

/// A handle is determined by its index and generation: two handles that agree
/// on both are the same handle.
pub proof fn law_entity_determined_by_parts(a: Entity, b: Entity)
    requires
        a.index_of() == b.index_of(),
        a.generation_of() == b.generation_of(),
    ensures
        a == b,
{
    a.lemma_bits_from_parts();
    b.lemma_bits_from_parts();
    assert(a.bits() == b.bits());
    assert(a.id == b.id);
}

/// For every index and generation there is a handle carrying them.
pub proof fn lemma_handle_with_parts(index: u32, generation: u32) -> (e: Entity)
    ensures
        e.index_of() == index,
        e.generation_of() == generation,
{
    assert(0 <= encode(index, generation) <= u64::MAX) by (nonlinear_arith);
    let e = Entity { id: encode(index, generation) as u64 };
    law_entity_parts_round_trip(index, generation, e);
    e
}

/// Building a handle from an index and a generation and reading them back
/// gives the same index and generation.
pub proof fn law_entity_parts_round_trip(index: u32, generation: u32, e: Entity)
    requires
        e.bits() == encode(index, generation),
    ensures
        e.index_of() == index,
        e.generation_of() == generation,
{
    assert(encode(index, generation) % slot_span() == index as int) by (nonlinear_arith);
    assert(encode(index, generation) / slot_span() == generation as int) by (nonlinear_arith);
}

} // verus!
