//! The space that an index takes, by field and by component.

use vstd::prelude::*;

verus! {

/// The components of a segment that take space.
#[derive(Clone, Copy, Debug, PartialEq, Eq, Structural)]
pub enum Concept {
    Termdict,
    Postings,
    Positions,
    FastFields,
    Fieldnorms,
    Deletes,
    Store,
}

/// The space that one component of one segment takes: for each field that
/// has a share in it, the field's id and its bytes, and the bytes of the
/// whole component.
#[derive(Debug)]
pub struct ComponentUsage {
    pub concept: Concept,
    pub fields: Vec<(u32, usize)>,
    pub total: usize,
}

/// The space that an index takes: the bytes of each field, by field id, the
/// bytes of each component, and the bytes of the whole index.
#[derive(Debug)]
pub struct SpaceUsage {
    pub fields: Vec<usize>,
    pub concepts: Vec<usize>,
    pub total: usize,
}

/// The place of a component in the list of components.
pub open spec fn concept_index(concept: Concept) -> int {
    match concept {
        Concept::Termdict => 0,
        Concept::Postings => 1,
        Concept::Positions => 2,
        Concept::FastFields => 3,
        Concept::Fieldnorms => 4,
        Concept::Deletes => 5,
        Concept::Store => 6,
    }
}

/// A sum of bytes as the library reports it: the sum itself, or the largest
/// `usize` where the sum is larger still.
pub open spec fn clamp_bytes(total: int) -> int {
    if total > usize::MAX {
        usize::MAX as int
    } else {
        total
    }
}

/// The bytes that a list of field shares gives to field `field`.
pub open spec fn share_of(fields: Seq<(u32, usize)>, field: int) -> int
    decreases fields.len(),
{
    if fields.len() == 0 {
        0
    } else {
        share_of(fields.drop_last(), field) + if fields.last().0 == field {
            fields.last().1 as int
        } else {
            0
        }
    }
}

/// The bytes that the first `n` components give to field `field`.
pub open spec fn field_bytes(usage: Seq<ComponentUsage>, field: int) -> int
    decreases usage.len(),
{
    if usage.len() == 0 {
        0
    } else {
        field_bytes(usage.drop_last(), field) + share_of(usage.last().fields@, field)
    }
}

/// The bytes that the components of kind `concept` take together.
pub open spec fn concept_bytes(usage: Seq<ComponentUsage>, concept: int) -> int
    decreases usage.len(),
{
    if usage.len() == 0 {
        0
    } else {
        concept_bytes(usage.drop_last(), concept) + if concept_index(usage.last().concept)
            == concept {
            usage.last().total as int
        } else {
            0
        }
    }
}

/// The place of a component in the list of components.
pub fn concept_slot(concept: Concept) -> (r: usize)
    ensures
        r == concept_index(concept),
{
    match concept {
        Concept::Termdict => 0,
        Concept::Postings => 1,
        Concept::Positions => 2,
        Concept::FastFields => 3,
        Concept::Fieldnorms => 4,
        Concept::Deletes => 5,
        Concept::Store => 6,
    }
}

/// Adds `amount` to `sum` and stops at the largest `usize`.
pub fn add_bytes(sum: usize, amount: usize) -> (r: usize)
    ensures
        r == clamp_bytes(sum + amount),
{
    if amount > usize::MAX - sum {
        usize::MAX
    } else {
        sum + amount
    }
}

proof fn lemma_share_nonnegative(fields: Seq<(u32, usize)>, field: int)
    ensures
        share_of(fields, field) >= 0,
    decreases fields.len(),
{
    if fields.len() > 0 {
        lemma_share_nonnegative(fields.drop_last(), field);
    }
}

proof fn lemma_field_bytes_nonnegative(usage: Seq<ComponentUsage>, field: int)
    ensures
        field_bytes(usage, field) >= 0,
    decreases usage.len(),
{
    if usage.len() > 0 {
        lemma_field_bytes_nonnegative(usage.drop_last(), field);
        lemma_share_nonnegative(usage.last().fields@, field);
    }
}

proof fn lemma_concept_bytes_nonnegative(usage: Seq<ComponentUsage>, concept: int)
    ensures
        concept_bytes(usage, concept) >= 0,
    decreases usage.len(),
{
    if usage.len() > 0 {
        lemma_concept_bytes_nonnegative(usage.drop_last(), concept);
    }
}

/// Adds the shares of one component to the bytes of the fields. A share of a
/// field that the schema lacks is left out.
fn add_fields(accum: &mut Vec<usize>, shares: &Vec<(u32, usize)>, Ghost(base): Ghost<Seq<int>>)
    requires
        base.len() == old(accum)@.len(),
        forall|f: int| 0 <= f < base.len() ==> #[trigger] base[f] >= 0,
        forall|f: int|
            0 <= f < base.len() ==> (#[trigger] old(accum)@[f]) == clamp_bytes(base[f]),
    ensures
        final(accum)@.len() == old(accum)@.len(),
        forall|f: int|
            0 <= f < base.len() ==> (#[trigger] final(accum)@[f]) == clamp_bytes(
                base[f] + share_of(shares@, f),
            ),
{
    let mut i: usize = 0;
    proof {
        assert(shares@.take(0) =~= Seq::<(u32, usize)>::empty());
    }
    while i < shares.len()
        invariant
            i <= shares@.len(),
            base.len() == accum@.len(),
            forall|f: int| 0 <= f < base.len() ==> #[trigger] base[f] >= 0,
            forall|f: int|
                0 <= f < base.len() ==> (#[trigger] accum@[f]) == clamp_bytes(
                    base[f] + share_of(shares@.take(i as int), f),
                ),
        decreases shares@.len() - i,
    {
        let (field, bytes) = shares[i];
        let slot = field as usize;
        let ghost before = accum@;
        proof {
            assert(shares@.take(i as int + 1).drop_last() =~= shares@.take(i as int));
            assert forall|f: int| 0 <= f < base.len() implies share_of(shares@.take(i as int), f)
                >= 0 by {
                lemma_share_nonnegative(shares@.take(i as int), f);
            }
        }
        if slot < accum.len() {
            let sum = add_bytes(accum[slot], bytes);
            accum[slot] = sum;
        }
        i = i + 1;
    }
    proof {
        assert(shares@.take(shares@.len() as int) =~= shares@);
    }
}

/// The space that an index takes, summed over the components of its
/// segments: for each of the `field_count` fields of the schema the bytes of
/// the field, and for each kind of component the bytes of that kind. A sum
/// that does not fit a `usize` is reported as the largest `usize`.
pub fn space_usage(usage: &Vec<ComponentUsage>, field_count: usize, total: usize) -> (r: SpaceUsage)
    ensures
        r.total == total,
        r.fields@.len() == field_count,
        forall|f: int|
            0 <= f < field_count ==> (#[trigger] r.fields@[f]) == clamp_bytes(
                field_bytes(usage@, f),
            ),
        r.concepts@.len() == 7,
        forall|c: int|
            0 <= c < 7 ==> (#[trigger] r.concepts@[c]) == clamp_bytes(concept_bytes(usage@, c)),
{
    let mut fields: Vec<usize> = Vec::new();
    while fields.len() < field_count
        invariant
            fields@.len() <= field_count,
            forall|f: int| 0 <= f < fields@.len() ==> (#[trigger] fields@[f]) == 0,
        decreases field_count - fields@.len(),
    {
        fields.push(0);
    }
    let mut concepts: Vec<usize> = Vec::new();
    while concepts.len() < 7
        invariant
            concepts@.len() <= 7,
            forall|c: int| 0 <= c < concepts@.len() ==> (#[trigger] concepts@[c]) == 0,
        decreases 7 - concepts@.len(),
    {
        concepts.push(0);
    }
    let mut i: usize = 0;
    proof {
        assert(usage@.take(0) =~= Seq::<ComponentUsage>::empty());
    }
    while i < usage.len()
        invariant
            i <= usage@.len(),
            fields@.len() == field_count,
            concepts@.len() == 7,
            forall|f: int|
                0 <= f < field_count ==> (#[trigger] fields@[f]) == clamp_bytes(
                    field_bytes(usage@.take(i as int), f),
                ),
            forall|c: int|
                0 <= c < 7 ==> (#[trigger] concepts@[c]) == clamp_bytes(
                    concept_bytes(usage@.take(i as int), c),
                ),
        decreases usage@.len() - i,
    {
        let ghost seen = usage@.take(i as int);
        let ghost base = Seq::new(field_count as nat, |f: int| field_bytes(seen, f));
        proof {
            assert(usage@.take(i as int + 1).drop_last() =~= seen);
            assert forall|f: int| 0 <= f < base.len() implies #[trigger] base[f] >= 0 by {
                lemma_field_bytes_nonnegative(seen, f);
            }
            assert forall|c: int| 0 <= c < 7 implies concept_bytes(seen, c) >= 0 by {
                lemma_concept_bytes_nonnegative(seen, c);
            }
        }
        add_fields(&mut fields, &usage[i].fields, Ghost(base));
        let slot = concept_slot(usage[i].concept);
        let sum = add_bytes(concepts[slot], usage[i].total);
        concepts[slot] = sum;
        i = i + 1;
    }
    proof {
        assert(usage@.take(usage@.len() as int) =~= usage@);
    }
    SpaceUsage { fields, concepts, total }
}

} // verus!
