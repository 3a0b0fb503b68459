//! The bulk entity-position snapshot that the server broadcasts every tick.
//!
//! A snapshot is a pair of index-aligned sequences: the entity at index `i`
//! stands at the translation at index `i`. No entity occurs twice. Every
//! value of `NetworkedEntities` is aligned in this sense: the constructors
//! and the decoder refuse anything else.

use crate::wire::{lemma_u64_le, read_u64, write_u64, Translation};
use std::collections::HashSet;
use vstd::bytes::*;
use vstd::prelude::*;

verus! {

broadcast use vstd::std_specs::hash::group_hash_axioms;

/// Encoded length of the two length prefixes of a snapshot.
pub const SNAPSHOT_HEADER_LEN: usize = 16;

/// Encoded length of one entity with its translation.
pub const SNAPSHOT_ENTRY_LEN: usize = 20;

/// What a snapshot holds.
pub struct NetworkedEntitiesView {
    pub entities: Seq<u64>,
    pub translation: Seq<Translation>,
}

impl NetworkedEntitiesView {
    /// Both sequences are equally long, fit a length prefix, and no entity
    /// occurs twice.
    pub open spec fn wf(self) -> bool {
        &&& self.entities.len() == self.translation.len()
        &&& self.entities.len() <= u64::MAX
        &&& self.entities.no_duplicates()
    }

    /// The encoding: the number of entities and the entities in turn, then
    /// the number of translations and the translations in turn.
    pub open spec fn spec_encode(self) -> Seq<u8> {
        spec_u64_to_le_bytes(self.entities.len() as u64) + entity_bytes(self.entities)
            + spec_u64_to_le_bytes(self.translation.len() as u64) + translation_bytes(
            self.translation,
        )
    }
}

/// The encodings of `entities`, one after the other.
pub open spec fn entity_bytes(entities: Seq<u64>) -> Seq<u8> {
    Seq::new(8 * entities.len(), |k: int| spec_u64_to_le_bytes(entities[k / 8])[k % 8])
}

/// The encodings of `translations`, one after the other.
pub open spec fn translation_bytes(translations: Seq<Translation>) -> Seq<u8> {
    Seq::new(12 * translations.len(), |k: int| translations[k / 12].spec_encode()[k % 12])
}

/// The bytes of `bytes` at which entity `i` of a snapshot stands.
pub open spec fn entity_at(bytes: Seq<u8>, i: int) -> Seq<u8> {
    bytes.subrange(8 + 8 * i, 16 + 8 * i)
}

/// The bytes of `bytes` at which translation `i` of a snapshot of `n`
/// entities stands.
pub open spec fn translation_at(bytes: Seq<u8>, n: int, i: int) -> Seq<u8> {
    bytes.subrange(16 + 8 * n + 12 * i, 28 + 8 * n + 12 * i)
}

/// `bytes` holds the parts of `v`, each at its place.
pub open spec fn laid_out(v: NetworkedEntitiesView, bytes: Seq<u8>) -> bool {
    let n = v.entities.len() as int;
    &&& v.translation.len() == n
    &&& n <= u64::MAX
    &&& bytes.len() == 16 + 20 * n
    &&& bytes.subrange(0, 8) == spec_u64_to_le_bytes(n as u64)
    &&& bytes.subrange(8 + 8 * n, 16 + 8 * n) == spec_u64_to_le_bytes(n as u64)
    &&& forall|i: int|
        0 <= i < n ==> #[trigger] entity_at(bytes, i) == spec_u64_to_le_bytes(v.entities[i])
    &&& forall|i: int|
        0 <= i < n ==> #[trigger] translation_at(bytes, n, i) == v.translation[i].spec_encode()
}

/// Appending an entity appends its encoding.
pub proof fn lemma_entity_bytes_push(entities: Seq<u64>, entity: u64)
    ensures
        entity_bytes(entities.push(entity)) == entity_bytes(entities) + spec_u64_to_le_bytes(
            entity,
        ),
{
    lemma_u64_le(entity, entity);
    let left = entity_bytes(entities.push(entity));
    let right = entity_bytes(entities) + spec_u64_to_le_bytes(entity);
    assert(left.len() == right.len());
    assert forall|k: int| 0 <= k < left.len() implies left[k] == right[k] by {
        if k < 8 * entities.len() {
            assert(k / 8 < entities.len());
        } else {
            assert(k / 8 == entities.len());
            assert(k % 8 == k - 8 * entities.len());
        }
    }
    assert(left =~= right);
}

/// Appending a translation appends its encoding.
pub proof fn lemma_translation_bytes_push(translations: Seq<Translation>, translation: Translation)
    ensures
        translation_bytes(translations.push(translation)) == translation_bytes(translations)
            + translation.spec_encode(),
{
    Translation::lemma_encode(translation, translation);
    let left = translation_bytes(translations.push(translation));
    let right = translation_bytes(translations) + translation.spec_encode();
    assert(left.len() == right.len());
    assert forall|k: int| 0 <= k < left.len() implies left[k] == right[k] by {
        if k < 12 * translations.len() {
            assert(k / 12 < translations.len());
        } else {
            assert(k / 12 == translations.len());
            assert(k % 12 == k - 12 * translations.len());
        }
    }
    assert(left =~= right);
}

/// An encoding holds the parts of its snapshot, each at its place, and
/// bytes that do so are the encoding.
pub proof fn lemma_layout(v: NetworkedEntitiesView, bytes: Seq<u8>)
    requires
        v.entities.len() == v.translation.len(),
        v.entities.len() <= u64::MAX,
    ensures
        v.spec_encode() == bytes <==> laid_out(v, bytes),
{
    let n = v.entities.len() as int;
    let e = v.spec_encode();
    let prefix = spec_u64_to_le_bytes(n as u64);
    let eb = entity_bytes(v.entities);
    let tb = translation_bytes(v.translation);
    lemma_u64_le(n as u64, n as u64);
    assert(e.len() == 16 + 20 * n);
    assert(e.subrange(0, 8) =~= prefix);
    assert(e.subrange(8 + 8 * n, 16 + 8 * n) =~= prefix);
    assert forall|i: int| 0 <= i < n implies #[trigger] entity_at(e, i) == spec_u64_to_le_bytes(
        v.entities[i],
    ) by {
        let le = spec_u64_to_le_bytes(v.entities[i]);
        lemma_u64_le(v.entities[i], v.entities[i]);
        assert forall|r: int| 0 <= r < 8 implies entity_at(e, i)[r] == le[r] by {
            let k = 8 * i + r;
            assert(k / 8 == i && k % 8 == r);
            assert(e[8 + k] == eb[k]);
        }
        assert(entity_at(e, i) =~= le);
    }
    assert forall|i: int| 0 <= i < n implies #[trigger] translation_at(e, n, i)
        == v.translation[i].spec_encode() by {
        let te = v.translation[i].spec_encode();
        Translation::lemma_encode(v.translation[i], v.translation[i]);
        assert forall|r: int| 0 <= r < 12 implies translation_at(e, n, i)[r] == te[r] by {
            let k = 12 * i + r;
            assert(k / 12 == i && k % 12 == r);
            assert(e[16 + 8 * n + k] == tb[k]);
        }
        assert(translation_at(e, n, i) =~= te);
    }
    assert(laid_out(v, e));
    if laid_out(v, bytes) {
        assert forall|k: int| 0 <= k < bytes.len() implies bytes[k] == e[k] by {
            if k < 8 {
                assert(bytes.subrange(0, 8)[k] == e.subrange(0, 8)[k]);
            } else if k < 8 + 8 * n {
                let i = (k - 8) / 8;
                let r = (k - 8) % 8;
                assert(entity_at(bytes, i)[r] == entity_at(e, i)[r]);
            } else if k < 16 + 8 * n {
                let r = k - 8 - 8 * n;
                assert(bytes.subrange(8 + 8 * n, 16 + 8 * n)[r] == e.subrange(
                    8 + 8 * n,
                    16 + 8 * n,
                )[r]);
            } else {
                let i = (k - 16 - 8 * n) / 12;
                let r = (k - 16 - 8 * n) % 12;
                assert(translation_at(bytes, n, i)[r] == translation_at(e, n, i)[r]);
            }
        }
        assert(bytes =~= e);
    }
}

/// An encoding belongs to one aligned snapshot only.
pub proof fn lemma_encode_injective(a: NetworkedEntitiesView, b: NetworkedEntitiesView)
    requires
        a.wf(),
        b.wf(),
        a.spec_encode() == b.spec_encode(),
    ensures
        a == b,
{
    let bytes = a.spec_encode();
    lemma_layout(a, bytes);
    lemma_layout(b, bytes);
    let n = a.entities.len() as int;
    assert(b.entities.len() == n);
    assert forall|i: int| 0 <= i < n implies a.entities[i] == b.entities[i] by {
        assert(entity_at(bytes, i) == spec_u64_to_le_bytes(a.entities[i]));
        assert(entity_at(bytes, i) == spec_u64_to_le_bytes(b.entities[i]));
        lemma_u64_le(a.entities[i], b.entities[i]);
    }
    assert forall|i: int| 0 <= i < n implies a.translation[i] == b.translation[i] by {
        assert(translation_at(bytes, n, i) == a.translation[i].spec_encode());
        assert(translation_at(bytes, n, i) == b.translation[i].spec_encode());
        Translation::lemma_encode(a.translation[i], b.translation[i]);
    }
    assert(a.entities =~= b.entities);
    assert(a.translation =~= b.translation);
}

/// The aligned snapshot that `bytes` encodes, if there is one.
pub open spec fn spec_decode(bytes: Seq<u8>) -> Option<NetworkedEntitiesView> {
    if exists|v: NetworkedEntitiesView| v.wf() && #[trigger] v.spec_encode() == bytes {
        Some(choose|v: NetworkedEntitiesView| v.wf() && #[trigger] v.spec_encode() == bytes)
    } else {
        None
    }
}

/// Decoding inverts encoding, and accepts nothing but encodings of aligned
/// snapshots.
pub proof fn lemma_round_trip(v: NetworkedEntitiesView, bytes: Seq<u8>)
    requires
        v.wf(),
    ensures
        spec_decode(v.spec_encode()) == Some(v),
        spec_decode(bytes) == Some(v) ==> v.spec_encode() == bytes,
{
    let c = choose|c: NetworkedEntitiesView| c.wf() && #[trigger] c.spec_encode() == v.spec_encode();
    lemma_encode_injective(c, v);
}

/// Entity identifiers with their translations, index by index.
pub struct NetworkedEntities {
    entities: Vec<u64>,
    translation: Vec<Translation>,
}

impl View for NetworkedEntities {
    type V = NetworkedEntitiesView;

    closed spec fn view(&self) -> NetworkedEntitiesView {
        NetworkedEntitiesView { entities: self.entities@, translation: self.translation@ }
    }
}

/// Whether no value occurs twice in `entities`.
pub fn all_distinct(entities: &Vec<u64>) -> (distinct: bool)
    ensures
        distinct == entities@.no_duplicates(),
{
    let mut seen: HashSet<u64> = HashSet::new();
    let mut i: usize = 0;
    while i < entities.len()
        invariant
            i <= entities.len(),
            forall|x: u64| seen@.contains(x) <==> exists|j: int| 0 <= j < i && entities@[j] == x,
            forall|j: int, k: int| 0 <= j < k < i ==> entities@[j] != entities@[k],
        decreases entities.len() - i,
    {
        let fresh = seen.insert(entities[i]);
        if !fresh {
            let ghost j = choose|j: int| 0 <= j < i && entities@[j] == entities@[i as int];
            assert(entities@[j] == entities@[i as int] && j != i);
            return false;
        }
        assert forall|x: u64| seen@.contains(x) <==> exists|j: int|
            0 <= j < i + 1 && entities@[j] == x by {
            if seen@.contains(x) {
                if x == entities@[i as int] {
                    assert(entities@[i as int] == x);
                } else {
                    let j = choose|j: int| 0 <= j < i && entities@[j] == x;
                    assert(0 <= j < i + 1 && entities@[j] == x);
                }
            }
        }
        i = i + 1;
    }
    true
}

impl NetworkedEntities {
    /// Every snapshot is aligned.
    #[verifier::type_invariant]
    pub closed spec fn aligned(self) -> bool {
        self@.wf()
    }

    /// The snapshot of no entity.
    pub fn new() -> (s: NetworkedEntities)
        ensures
            s@.wf(),
            s@.entities.len() == 0,
    {
        NetworkedEntities { entities: Vec::new(), translation: Vec::new() }
    }

    /// The snapshot of `entities` at `translation`, index by index; none
    /// where the two differ in length or an entity occurs twice.
    pub fn from_parts(entities: Vec<u64>, translation: Vec<Translation>) -> (s: Option<
        NetworkedEntities,
    >)
        ensures
            match s {
                Some(s) => s@.wf() && s@.entities == entities@ && s@.translation == translation@,
                None => !(NetworkedEntitiesView {
                    entities: entities@,
                    translation: translation@,
                }).wf(),
            },
    {
        if entities.len() != translation.len() {
            return None;
        }
        if !all_distinct(&entities) {
            return None;
        }
        Some(NetworkedEntities { entities, translation })
    }

    /// The snapshot of `entities` at `translation`, which the caller has
    /// shown to be aligned.
    pub(crate) fn assemble(entities: Vec<u64>, translation: Vec<Translation>) -> (s:
        NetworkedEntities)
        requires
            (NetworkedEntitiesView { entities: entities@, translation: translation@ }).wf(),
        ensures
            s@.wf(),
            s@.entities == entities@,
            s@.translation == translation@,
    {
        NetworkedEntities { entities, translation }
    }

    /// The number of entities.
    pub fn len(&self) -> (n: usize)
        ensures
            self@.wf(),
            n == self@.entities.len(),
            n == self@.translation.len(),
    {
        proof {
            use_type_invariant(self);
        }
        self.entities.len()
    }

    /// The entities, in snapshot order.
    pub fn entities(&self) -> (entities: &Vec<u64>)
        ensures
            self@.wf(),
            entities@ == self@.entities,
    {
        proof {
            use_type_invariant(self);
        }
        &self.entities
    }

    /// The translations, in snapshot order.
    pub fn translation(&self) -> (translation: &Vec<Translation>)
        ensures
            self@.wf(),
            translation@ == self@.translation,
    {
        proof {
            use_type_invariant(self);
        }
        &self.translation
    }

    /// The encoding of the snapshot.
    pub fn encode(&self) -> (bytes: Vec<u8>)
        ensures
            self@.wf(),
            bytes@ == self@.spec_encode(),
    {
        proof {
            use_type_invariant(self);
        }
        let n = self.entities.len();
        let mut bytes: Vec<u8> = Vec::new();
        write_u64(&mut bytes, n as u64);
        let mut i: usize = 0;
        assert(self.entities@.take(0) =~= Seq::<u64>::empty());
        assert(entity_bytes(Seq::<u64>::empty()) =~= Seq::<u8>::empty());
        assert(bytes@ =~= spec_u64_to_le_bytes(n as u64) + entity_bytes(self.entities@.take(0)));
        while i < n
            invariant
                i <= n,
                n == self.entities.len(),
                bytes@ == spec_u64_to_le_bytes(n as u64) + entity_bytes(
                    self.entities@.take(i as int),
                ),
            decreases n - i,
        {
            write_u64(&mut bytes, self.entities[i]);
            proof {
                lemma_entity_bytes_push(self.entities@.take(i as int), self.entities@[i as int]);
                assert(self.entities@.take(i as int).push(self.entities@[i as int])
                    =~= self.entities@.take(i + 1));
                assert(bytes@ =~= spec_u64_to_le_bytes(n as u64) + entity_bytes(
                    self.entities@.take(i + 1),
                ));
            }
            i = i + 1;
        }
        assert(self.entities@.take(n as int) =~= self.entities@);
        write_u64(&mut bytes, n as u64);
        let ghost head = spec_u64_to_le_bytes(n as u64) + entity_bytes(self.entities@)
            + spec_u64_to_le_bytes(n as u64);
        let mut k: usize = 0;
        assert(self.translation@.take(0) =~= Seq::<Translation>::empty());
        assert(translation_bytes(Seq::<Translation>::empty()) =~= Seq::<u8>::empty());
        assert(bytes@ =~= head + translation_bytes(self.translation@.take(0)));
        while k < n
            invariant
                k <= n,
                n == self.translation.len(),
                bytes@ == head + translation_bytes(self.translation@.take(k as int)),
            decreases n - k,
        {
            self.translation[k].encode_into(&mut bytes);
            proof {
                lemma_translation_bytes_push(
                    self.translation@.take(k as int),
                    self.translation@[k as int],
                );
                assert(self.translation@.take(k as int).push(self.translation@[k as int])
                    =~= self.translation@.take(k + 1));
                assert(bytes@ =~= head + translation_bytes(self.translation@.take(k + 1)));
            }
            k = k + 1;
        }
        assert(self.translation@.take(n as int) =~= self.translation@);
        bytes
    }

    /// Decodes a snapshot. A payload is malformed where its length does not
    /// fit the entity count it starts with, where the two counts differ, and
    /// where an entity occurs twice.
    pub fn decode(bytes: &[u8]) -> (s: Option<NetworkedEntities>)
        ensures
            match s {
                Some(s) => s@.wf() && spec_decode(bytes@) == Some(s@),
                None => spec_decode(bytes@) is None,
            },
            forall|v: NetworkedEntitiesView|
                v.wf() && #[trigger] v.spec_encode() == bytes@ ==> s is Some && s->0@ == v,
    {
        let len = bytes.len();
        if len < SNAPSHOT_HEADER_LEN {
            assert forall|v: NetworkedEntitiesView| v.wf() implies #[trigger] v.spec_encode()
                != bytes@ by {
                lemma_layout(v, bytes@);
            }
            return None;
        }
        let count = read_u64(bytes, 0);
        let room = (len - SNAPSHOT_HEADER_LEN) / SNAPSHOT_ENTRY_LEN;
        if count > room as u64 || (len - SNAPSHOT_HEADER_LEN) % SNAPSHOT_ENTRY_LEN != 0 || count
            != room as u64 {
            assert forall|v: NetworkedEntitiesView| v.wf() implies #[trigger] v.spec_encode()
                != bytes@ by {
                lemma_layout(v, bytes@);
                if v.spec_encode() == bytes@ {
                    lemma_u64_le(count, v.entities.len() as u64);
                }
            }
            return None;
        }
        let n = room;
        assert(len == 16 + 20 * n);
        let second = read_u64(bytes, 8 + 8 * n);
        if second != count {
            assert forall|v: NetworkedEntitiesView| v.wf() implies #[trigger] v.spec_encode()
                != bytes@ by {
                lemma_layout(v, bytes@);
                if v.spec_encode() == bytes@ {
                    lemma_u64_le(count, v.entities.len() as u64);
                    lemma_u64_le(second, v.entities.len() as u64);
                }
            }
            return None;
        }
        let mut entities: Vec<u64> = Vec::new();
        let mut i: usize = 0;
        while i < n
            invariant
                i <= n,
                len == bytes.len(),
                len == 16 + 20 * n,
                entities@.len() == i,
                forall|j: int|
                    0 <= j < i ==> #[trigger] entity_at(bytes@, j) == spec_u64_to_le_bytes(
                        entities@[j],
                    ),
            decreases n - i,
        {
            let entity = read_u64(bytes, 8 + 8 * i);
            entities.push(entity);
            i = i + 1;
        }
        let mut translation: Vec<Translation> = Vec::new();
        let mut k: usize = 0;
        while k < n
            invariant
                k <= n,
                len == bytes.len(),
                len == 16 + 20 * n,
                translation@.len() == k,
                forall|j: int|
                    0 <= j < k ==> #[trigger] translation_at(bytes@, n as int, j)
                        == translation@[j].spec_encode(),
            decreases n - k,
        {
            let t = Translation::read(bytes, 16 + 8 * n + 12 * k);
            translation.push(t);
            k = k + 1;
        }
        let ghost view = NetworkedEntitiesView {
            entities: entities@,
            translation: translation@,
        };
        proof {
            lemma_layout(view, bytes@);
            assert(laid_out(view, bytes@));
        }
        if !all_distinct(&entities) {
            assert forall|v: NetworkedEntitiesView| v.wf() implies #[trigger] v.spec_encode()
                != bytes@ by {
                lemma_layout(v, bytes@);
                if v.spec_encode() == bytes@ {
                    lemma_u64_le(count, v.entities.len() as u64);
                    assert forall|j: int| 0 <= j < n implies v.entities[j] == entities@[j] by {
                        assert(entity_at(bytes@, j) == spec_u64_to_le_bytes(v.entities[j]));
                        assert(entity_at(bytes@, j) == spec_u64_to_le_bytes(entities@[j]));
                        lemma_u64_le(v.entities[j], entities@[j]);
                    }
                    assert(v.entities =~= entities@);
                }
            }
            return None;
        }
        proof {
            assert(view.wf());
            let c = choose|c: NetworkedEntitiesView| c.wf() && #[trigger] c.spec_encode() == bytes@;
            lemma_encode_injective(c, view);
            assert forall|v: NetworkedEntitiesView|
                v.wf() && #[trigger] v.spec_encode() == bytes@ implies v == view by {
                lemma_encode_injective(v, view);
            }
        }
        Some(NetworkedEntities { entities, translation })
    }
}

impl Default for NetworkedEntities {
    fn default() -> (s: NetworkedEntities)
        ensures
            s@.wf(),
            s@.entities.len() == 0,
    {
        NetworkedEntities::new()
    }
}

} // verus!
