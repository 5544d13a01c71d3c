//! The block reference classifier: every block starts `Unused`; each
//! reference moves it through a small state machine that admits one inline
//! use, or any number of addressed uses, but never both.
use vstd::prelude::*;
use vstd::pervasive::VecAdditionalExecFns;

verus! {

/// The addressing role a block has been assigned so far.
#[derive(Debug, Clone, Copy, PartialEq, Eq, Structural)]
pub enum BlockType {
    /// Not referenced yet.
    Unused,
    /// Inlined at its single reference site.
    Star,
    /// Laid out once and referenced by address.
    Esp,
}

/// How a reference addresses a block: inline (`*name`) or addressed (`&name`).
#[derive(Debug, Clone, Copy, PartialEq, Eq, Structural)]
pub enum RefMode {
    Star,
    Esp,
}

/// The classifier's transition on one reference: `None` is the addressing
/// conflict. An inline reference claims an unused block exclusively; an
/// addressed reference claims an unused block and tolerates repetition.
pub open spec fn step_type(t: BlockType, m: RefMode) -> Option<BlockType> {
    match m {
        RefMode::Star => match t {
            BlockType::Unused => Some(BlockType::Star),
            BlockType::Star => None,
            BlockType::Esp => None,
        },
        RefMode::Esp => match t {
            BlockType::Unused => Some(BlockType::Esp),
            BlockType::Star => None,
            BlockType::Esp => Some(BlockType::Esp),
        },
    }
}

/// The classification a block reaches after a sequence of references, or
/// `None` once any reference conflicts.
pub open spec fn run_refs(t: BlockType, ms: Seq<RefMode>) -> Option<BlockType>
    decreases ms.len(),
{
    if ms.len() == 0 {
        Some(t)
    } else {
        match run_refs(t, ms.drop_last()) {
            Some(u) => step_type(u, ms.last()),
            None => None,
        }
    }
}

/// Applies one reference to the classification table. Returns whether the
/// reference was accepted; a rejected reference leaves the table unchanged.
pub fn apply_block_ref(types: &mut Vec<BlockType>, index: usize, mode: RefMode) -> (r: bool)
    requires
        index < old(types)@.len(),
    ensures
        match step_type(old(types)@[index as int], mode) {
            Some(u) => r && final(types)@ == old(types)@.update(index as int, u),
            None => !r && final(types)@ == old(types)@,
        },
{
    let t = types[index];
    let next = match mode {
        RefMode::Star => match t {
            BlockType::Unused => Some(BlockType::Star),
            BlockType::Star => None,
            BlockType::Esp => None,
        },
        RefMode::Esp => match t {
            BlockType::Unused => Some(BlockType::Esp),
            BlockType::Star => None,
            BlockType::Esp => Some(BlockType::Esp),
        },
    };
    match next {
        Some(u) => {
            types.set(index, u);
            true
        },
        None => false,
    }
}

/// A sequence of references that ends accepted leaves `Unused` only when it
/// was empty: any accepted reference commits the block to a role.
pub proof fn lemma_nonempty_not_unused(t: BlockType, ms: Seq<RefMode>, u: BlockType)
    requires
        ms.len() > 0,
        run_refs(t, ms) == Some(u),
    ensures
        u != BlockType::Unused,
{
}

/// An accepted inline reference is the last reference the block can take, and
/// commits it to the inline role: no sequence with a later reference, of
/// either mode, is accepted.
pub proof fn lemma_star_is_final(t: BlockType, ms: Seq<RefMode>, u: BlockType, i: int)
    requires
        run_refs(t, ms) == Some(u),
        0 <= i < ms.len(),
        ms[i] == RefMode::Star,
    ensures
        u == BlockType::Star,
        i == ms.len() - 1,
    decreases ms.len(),
{
    if i == ms.len() - 1 {
        let prev = run_refs(t, ms.drop_last());
        assert(prev is Some);
    } else {
        let prev = run_refs(t, ms.drop_last());
        assert(prev is Some);
        let v = prev->Some_0;
        assert(ms.drop_last()[i] == ms[i]);
        lemma_star_is_final(t, ms.drop_last(), v, i);
        assert(step_type(v, ms.last()) is None);
    }
}

/// Two inline references to one block, anywhere in the program, always
/// conflict: the classification fails whatever else surrounds them.
pub proof fn lemma_two_stars_fail(t: BlockType, ms: Seq<RefMode>, i: int, j: int)
    requires
        0 <= i < j < ms.len(),
        ms[i] == RefMode::Star,
        ms[j] == RefMode::Star,
    ensures
        run_refs(t, ms) is None,
{
    if run_refs(t, ms) is Some {
        lemma_star_is_final(t, ms, run_refs(t, ms)->Some_0, i);
    }
}

/// An inline and an addressed reference to one block always conflict,
/// whichever comes first.
pub proof fn lemma_star_esp_fail(t: BlockType, ms: Seq<RefMode>, i: int, j: int)
    requires
        0 <= i < ms.len(),
        0 <= j < ms.len(),
        i != j,
        ms[i] == RefMode::Star,
        ms[j] == RefMode::Esp,
    ensures
        run_refs(t, ms) is None,
{
    let r = run_refs(t, ms);
    if r is Some {
        lemma_star_is_final(t, ms, r->Some_0, i);
        // The inline reference is last, so the addressed one sits in the
        // prefix and has already committed the block when the inline one runs.
        let prev = run_refs(t, ms.drop_last());
        assert(prev is Some);
        assert(ms.drop_last()[j] == RefMode::Esp);
        lemma_nonempty_not_unused(t, ms.drop_last(), prev->Some_0);
        assert(ms.last() == ms[i]);
        assert(step_type(prev->Some_0, RefMode::Star) is None);
    }
}

/// Addressed references are idempotent: any number of them is accepted, and
/// one already suffices to settle the block in the addressed role.
pub proof fn lemma_esp_idempotent(ms: Seq<RefMode>)
    requires
        forall|i: int| 0 <= i < ms.len() ==> ms[i] == RefMode::Esp,
    ensures
        run_refs(BlockType::Unused, ms) == Some(
            if ms.len() == 0 {
                BlockType::Unused
            } else {
                BlockType::Esp
            },
        ),
    decreases ms.len(),
{
    if ms.len() > 0 {
        lemma_esp_idempotent(ms.drop_last());
    }
}

} // verus!
