//! Fixed-size wire messages and their binary encoding.
//!
//! Integers travel little-endian at their full width, a flag travels as one
//! byte that is 0 or 1, and a tagged union travels as a 32-bit variant index
//! followed by the variant's fields. Decoding is strict: a payload decodes to
//! a message exactly when it is that message's encoding, byte for byte.

use vstd::bytes::*;
use vstd::prelude::*;
use vstd::slice::slice_subrange;

verus! {

/// Encoded length of a `Translation`.
pub const TRANSLATION_LEN: usize = 12;

/// Encoded length of a `PlayerInput`.
pub const PLAYER_INPUT_LEN: usize = 4;

/// Encoded length of a `ServerMessages::PlayerCreate`.
pub const PLAYER_CREATE_LEN: usize = 32;

/// Encoded length of a `ServerMessages::PlayerRemove`.
pub const PLAYER_REMOVE_LEN: usize = 12;

/// Two equal concatenations whose first parts are equally long have equal
/// parts.
pub proof fn lemma_concat_parts<T>(a1: Seq<T>, b1: Seq<T>, a2: Seq<T>, b2: Seq<T>)
    requires
        a1.len() == a2.len(),
        a1 + b1 == a2 + b2,
    ensures
        a1 == a2,
        b1 == b2,
{
    let n = a1.len() as int;
    assert(a1 =~= (a1 + b1).subrange(0, n));
    assert(a2 =~= (a2 + b2).subrange(0, n));
    assert(b1 =~= (a1 + b1).subrange(n, (a1 + b1).len() as int));
    assert(b2 =~= (a2 + b2).subrange(n, (a2 + b2).len() as int));
}

/// Distinct 32-bit integers have distinct encodings, four bytes long.
pub proof fn lemma_u32_le(a: u32, b: u32)
    ensures
        spec_u32_to_le_bytes(a).len() == 4,
        spec_u32_to_le_bytes(b).len() == 4,
        spec_u32_to_le_bytes(a) == spec_u32_to_le_bytes(b) ==> a == b,
{
    lemma_auto_spec_u32_to_from_le_bytes();
    assert(spec_u32_to_le_bytes(a).len() == 4 && spec_u32_to_le_bytes(b).len() == 4);
}

/// Distinct 64-bit integers have distinct encodings, eight bytes long.
pub proof fn lemma_u64_le(a: u64, b: u64)
    ensures
        spec_u64_to_le_bytes(a).len() == 8,
        spec_u64_to_le_bytes(b).len() == 8,
        spec_u64_to_le_bytes(a) == spec_u64_to_le_bytes(b) ==> a == b,
{
    lemma_auto_spec_u64_to_from_le_bytes();
    assert(spec_u64_to_le_bytes(a).len() == 8 && spec_u64_to_le_bytes(b).len() == 8);
}

/// The 32-bit integer that starts at `at`.
pub(crate) fn read_u32(bytes: &[u8], at: usize) -> (x: u32)
    requires
        at + 4 <= bytes.len(),
    ensures
        spec_u32_to_le_bytes(x) == bytes@.subrange(at as int, at + 4),
{
    proof {
        lemma_auto_spec_u32_to_from_le_bytes();
    }
    u32_from_le_bytes(slice_subrange(bytes, at, at + 4))
}

/// The 64-bit integer that starts at `at`.
pub(crate) fn read_u64(bytes: &[u8], at: usize) -> (x: u64)
    requires
        at + 8 <= bytes.len(),
    ensures
        spec_u64_to_le_bytes(x) == bytes@.subrange(at as int, at + 8),
{
    proof {
        lemma_auto_spec_u64_to_from_le_bytes();
    }
    u64_from_le_bytes(slice_subrange(bytes, at, at + 8))
}

/// Appends the encoding of `x`.
pub(crate) fn write_u32(out: &mut Vec<u8>, x: u32)
    ensures
        final(out)@ == old(out)@ + spec_u32_to_le_bytes(x),
{
    let mut bytes = u32_to_le_bytes(x);
    out.append(&mut bytes);
}

/// Appends the encoding of `x`.
pub(crate) fn write_u64(out: &mut Vec<u8>, x: u64)
    ensures
        final(out)@ == old(out)@ + spec_u64_to_le_bytes(x),
{
    let mut bytes = u64_to_le_bytes(x);
    out.append(&mut bytes);
}

/// The byte that stands for a flag.
pub open spec fn flag_byte(flag: bool) -> u8 {
    if flag {
        1
    } else {
        0
    }
}

/// A position in the world. Each coordinate is held as the bit pattern of an
/// IEEE 754 single-precision number: the replication core stores and forwards
/// positions, and never computes with them.
#[derive(Clone, Copy, Debug, PartialEq, Eq, Structural)]
pub struct Translation {
    pub x: u32,
    pub y: u32,
    pub z: u32,
}

impl Translation {
    /// The encoding: the three coordinates in turn.
    pub open spec fn spec_encode(self) -> Seq<u8> {
        spec_u32_to_le_bytes(self.x) + spec_u32_to_le_bytes(self.y) + spec_u32_to_le_bytes(self.z)
    }

    /// The origin: every coordinate is positive zero.
    pub open spec fn spec_origin() -> Translation {
        Translation { x: 0, y: 0, z: 0 }
    }

    /// The origin.
    pub fn origin() -> (t: Translation)
        ensures
            t == Self::spec_origin(),
    {
        Translation { x: 0, y: 0, z: 0 }
    }

    /// Appends the encoding to `out`.
    pub fn encode_into(&self, out: &mut Vec<u8>)
        ensures
            final(out)@ == old(out)@ + self.spec_encode(),
    {
        write_u32(out, self.x);
        write_u32(out, self.y);
        write_u32(out, self.z);
        assert(out@ =~= old(out)@ + self.spec_encode());
    }

    /// The translation whose encoding starts at `at`.
    pub(crate) fn read(bytes: &[u8], at: usize) -> (t: Translation)
        requires
            at + 12 <= bytes.len(),
        ensures
            t.spec_encode() == bytes@.subrange(at as int, at + 12),
    {
        let x = read_u32(bytes, at);
        let y = read_u32(bytes, at + 4);
        let z = read_u32(bytes, at + 8);
        let t = Translation { x, y, z };
        proof {
            lemma_u32_le(x, x);
            lemma_u32_le(y, y);
            lemma_u32_le(z, z);
            assert(t.spec_encode() =~= bytes@.subrange(at as int, at + 12));
        }
        t
    }

    /// An encoding is twelve bytes long and belongs to one translation only.
    pub proof fn lemma_encode(a: Translation, b: Translation)
        ensures
            a.spec_encode().len() == TRANSLATION_LEN,
            a.spec_encode() == b.spec_encode() ==> a == b,
    {
        lemma_u32_le(a.x, b.x);
        lemma_u32_le(a.y, b.y);
        lemma_u32_le(a.z, b.z);
        if a.spec_encode() == b.spec_encode() {
            lemma_concat_parts(
                spec_u32_to_le_bytes(a.x) + spec_u32_to_le_bytes(a.y),
                spec_u32_to_le_bytes(a.z),
                spec_u32_to_le_bytes(b.x) + spec_u32_to_le_bytes(b.y),
                spec_u32_to_le_bytes(b.z),
            );
            lemma_concat_parts(
                spec_u32_to_le_bytes(a.x),
                spec_u32_to_le_bytes(a.y),
                spec_u32_to_le_bytes(b.x),
                spec_u32_to_le_bytes(b.y),
            );
        }
    }
}

impl Default for Translation {
    fn default() -> (t: Translation)
        ensures
            t == Translation::spec_origin(),
    {
        Translation::origin()
    }
}

/// Directional intent of a player at one instant. A snapshot replaces the
/// previous one as a whole.
#[derive(Clone, Copy, Debug, PartialEq, Eq, Structural)]
pub struct PlayerInput {
    pub up: bool,
    pub down: bool,
    pub left: bool,
    pub right: bool,
}

impl PlayerInput {
    /// The snapshot with no direction held.
    pub open spec fn spec_idle() -> PlayerInput {
        PlayerInput { up: false, down: false, left: false, right: false }
    }

    /// The encoding: one byte per flag, in the order up, down, left, right.
    pub open spec fn spec_encode(self) -> Seq<u8> {
        seq![
            flag_byte(self.up),
            flag_byte(self.down),
            flag_byte(self.left),
            flag_byte(self.right),
        ]
    }

    /// The snapshot that `bytes` encodes, if there is one.
    pub open spec fn spec_decode(bytes: Seq<u8>) -> Option<PlayerInput> {
        if exists|m: PlayerInput| #[trigger] m.spec_encode() == bytes {
            Some(choose|m: PlayerInput| #[trigger] m.spec_encode() == bytes)
        } else {
            None
        }
    }

    /// Horizontal intent: 1 towards the right, -1 towards the left, 0 when
    /// both or neither are held.
    pub open spec fn spec_horizontal(self) -> int {
        flag_byte(self.right) - flag_byte(self.left)
    }

    /// Vertical intent: 1 upwards, -1 downwards, 0 when both or neither are
    /// held.
    pub open spec fn spec_vertical(self) -> int {
        flag_byte(self.up) - flag_byte(self.down)
    }

    /// The direction of travel, before it is scaled to the movement speed:
    /// opposed flags cancel on each axis.
    pub fn direction(&self) -> (d: (i8, i8))
        ensures
            d.0 == self.spec_horizontal(),
            d.1 == self.spec_vertical(),
    {
        let right: i8 = if self.right { 1 } else { 0 };
        let left: i8 = if self.left { 1 } else { 0 };
        let up: i8 = if self.up { 1 } else { 0 };
        let down: i8 = if self.down { 1 } else { 0 };
        (right - left, up - down)
    }

    /// The encoding of the snapshot.
    pub fn encode(&self) -> (bytes: Vec<u8>)
        ensures
            bytes@ == self.spec_encode(),
    {
        let mut bytes: Vec<u8> = Vec::new();
        bytes.push(if self.up { 1 } else { 0 });
        bytes.push(if self.down { 1 } else { 0 });
        bytes.push(if self.left { 1 } else { 0 });
        bytes.push(if self.right { 1 } else { 0 });
        assert(bytes@ =~= self.spec_encode());
        bytes
    }

    /// Decodes a snapshot. A payload of another length, or one with a flag
    /// byte above 1, is malformed.
    pub fn decode(bytes: &[u8]) -> (m: Option<PlayerInput>)
        ensures
            m == Self::spec_decode(bytes@),
            forall|x: PlayerInput| #[trigger] x.spec_encode() == bytes@ ==> m == Some(x),
            m is Some <==> bytes@.len() == 4 && bytes@[0] <= 1 && bytes@[1] <= 1 && bytes@[2] <= 1
                && bytes@[3] <= 1,
            m matches Some(x) ==> x == (PlayerInput {
                up: bytes@[0] == 1,
                down: bytes@[1] == 1,
                left: bytes@[2] == 1,
                right: bytes@[3] == 1,
            }),
    {
        if bytes.len() != PLAYER_INPUT_LEN {
            assert forall|m: PlayerInput| #[trigger] m.spec_encode() != bytes@ by {
                assert(m.spec_encode().len() == 4);
            }
            return None;
        }
        let b0 = bytes[0];
        let b1 = bytes[1];
        let b2 = bytes[2];
        let b3 = bytes[3];
        if b0 > 1 || b1 > 1 || b2 > 1 || b3 > 1 {
            assert forall|m: PlayerInput| #[trigger] m.spec_encode() != bytes@ by {
                let e = m.spec_encode();
                assert(e[0] <= 1 && e[1] <= 1 && e[2] <= 1 && e[3] <= 1);
            }
            return None;
        }
        let m = PlayerInput { up: b0 == 1, down: b1 == 1, left: b2 == 1, right: b3 == 1 };
        proof {
            assert(m.spec_encode() =~= bytes@);
            let c = choose|c: PlayerInput| #[trigger] c.spec_encode() == bytes@;
            Self::lemma_encode(c, m);
            assert forall|x: PlayerInput| #[trigger] x.spec_encode() == bytes@ implies x == m by {
                Self::lemma_encode(x, m);
            }
        }
        Some(m)
    }

    /// An encoding is four bytes long and belongs to one snapshot only.
    pub proof fn lemma_encode(a: PlayerInput, b: PlayerInput)
        ensures
            a.spec_encode().len() == PLAYER_INPUT_LEN,
            a.spec_encode() == b.spec_encode() ==> a == b,
    {
        if a.spec_encode() == b.spec_encode() {
            assert(a.spec_encode()[0] == b.spec_encode()[0]);
            assert(a.spec_encode()[1] == b.spec_encode()[1]);
            assert(a.spec_encode()[2] == b.spec_encode()[2]);
            assert(a.spec_encode()[3] == b.spec_encode()[3]);
        }
    }

    /// Decoding inverts encoding, and accepts nothing but encodings.
    pub proof fn lemma_round_trip(m: PlayerInput, bytes: Seq<u8>)
        ensures
            Self::spec_decode(m.spec_encode()) == Some(m),
            Self::spec_decode(bytes) == Some(m) ==> m.spec_encode() == bytes,
    {
        let c = choose|c: PlayerInput| #[trigger] c.spec_encode() == m.spec_encode();
        Self::lemma_encode(c, m);
    }
}

impl Default for PlayerInput {
    fn default() -> (m: PlayerInput)
        ensures
            m == PlayerInput::spec_idle(),
    {
        PlayerInput { up: false, down: false, left: false, right: false }
    }
}

/// The position that a client reports for its own avatar.
#[derive(Clone, Copy, Debug, PartialEq, Eq, Structural)]
pub struct PlayerPosition {
    pub transform: Translation,
}

impl PlayerPosition {
    /// The encoding: that of the translation.
    pub open spec fn spec_encode(self) -> Seq<u8> {
        self.transform.spec_encode()
    }

    /// The position that `bytes` encodes, if there is one.
    pub open spec fn spec_decode(bytes: Seq<u8>) -> Option<PlayerPosition> {
        if exists|m: PlayerPosition| #[trigger] m.spec_encode() == bytes {
            Some(choose|m: PlayerPosition| #[trigger] m.spec_encode() == bytes)
        } else {
            None
        }
    }

    /// The encoding of the position.
    pub fn encode(&self) -> (bytes: Vec<u8>)
        ensures
            bytes@ == self.spec_encode(),
    {
        let mut bytes: Vec<u8> = Vec::new();
        self.transform.encode_into(&mut bytes);
        assert(bytes@ =~= self.spec_encode());
        bytes
    }

    /// Decodes a position. A payload that is not twelve bytes long is
    /// malformed.
    pub fn decode(bytes: &[u8]) -> (m: Option<PlayerPosition>)
        ensures
            m == Self::spec_decode(bytes@),
            forall|x: PlayerPosition| #[trigger] x.spec_encode() == bytes@ ==> m == Some(x),
    {
        if bytes.len() != TRANSLATION_LEN {
            assert forall|m: PlayerPosition| #[trigger] m.spec_encode() != bytes@ by {
                Translation::lemma_encode(m.transform, m.transform);
            }
            return None;
        }
        let m = PlayerPosition { transform: Translation::read(bytes, 0) };
        proof {
            assert(bytes@.subrange(0, 12) =~= bytes@);
            let c = choose|c: PlayerPosition| #[trigger] c.spec_encode() == bytes@;
            Self::lemma_encode(c, m);
            assert forall|x: PlayerPosition| #[trigger] x.spec_encode() == bytes@ implies x == m by {
                Self::lemma_encode(x, m);
            }
        }
        Some(m)
    }

    /// An encoding is twelve bytes long and belongs to one position only.
    pub proof fn lemma_encode(a: PlayerPosition, b: PlayerPosition)
        ensures
            a.spec_encode().len() == TRANSLATION_LEN,
            a.spec_encode() == b.spec_encode() ==> a == b,
    {
        Translation::lemma_encode(a.transform, b.transform);
    }

    /// Decoding inverts encoding, and accepts nothing but encodings.
    pub proof fn lemma_round_trip(m: PlayerPosition, bytes: Seq<u8>)
        ensures
            Self::spec_decode(m.spec_encode()) == Some(m),
            Self::spec_decode(bytes) == Some(m) ==> m.spec_encode() == bytes,
    {
        let c = choose|c: PlayerPosition| #[trigger] c.spec_encode() == m.spec_encode();
        Self::lemma_encode(c, m);
    }
}

impl Default for PlayerPosition {
    fn default() -> (m: PlayerPosition)
        ensures
            m.transform == Translation::spec_origin(),
    {
        PlayerPosition { transform: Translation::origin() }
    }
}

/// Lifecycle events that the server announces to its clients.
#[derive(Clone, Copy, Debug, PartialEq, Eq, Structural)]
pub enum ServerMessages {
    /// An entity exists, newly spawned or met on joining late, and `id` owns
    /// it.
    PlayerCreate { entity: u64, id: u64, translation: Translation },
    /// The entity of client `id` is gone.
    PlayerRemove { id: u64 },
}

impl ServerMessages {
    /// The encoding: the variant's index, then its fields in turn.
    pub open spec fn spec_encode(self) -> Seq<u8> {
        match self {
            ServerMessages::PlayerCreate { entity, id, translation } => spec_u32_to_le_bytes(0)
                + spec_u64_to_le_bytes(entity) + spec_u64_to_le_bytes(id)
                + translation.spec_encode(),
            ServerMessages::PlayerRemove { id } => spec_u32_to_le_bytes(1) + spec_u64_to_le_bytes(
                id,
            ),
        }
    }

    /// The message that `bytes` encodes, if there is one.
    pub open spec fn spec_decode(bytes: Seq<u8>) -> Option<ServerMessages> {
        if exists|m: ServerMessages| #[trigger] m.spec_encode() == bytes {
            Some(choose|m: ServerMessages| #[trigger] m.spec_encode() == bytes)
        } else {
            None
        }
    }

    /// The encoding of the message.
    pub fn encode(&self) -> (bytes: Vec<u8>)
        ensures
            bytes@ == self.spec_encode(),
    {
        let mut bytes: Vec<u8> = Vec::new();
        match self {
            ServerMessages::PlayerCreate { entity, id, translation } => {
                write_u32(&mut bytes, 0);
                write_u64(&mut bytes, *entity);
                write_u64(&mut bytes, *id);
                translation.encode_into(&mut bytes);
            },
            ServerMessages::PlayerRemove { id } => {
                write_u32(&mut bytes, 1);
                write_u64(&mut bytes, *id);
            },
        }
        assert(bytes@ =~= self.spec_encode());
        bytes
    }

    /// Decodes a message. A payload with an unknown variant index, or of
    /// another length than its variant's, is malformed.
    pub fn decode(bytes: &[u8]) -> (m: Option<ServerMessages>)
        ensures
            m == Self::spec_decode(bytes@),
            forall|x: ServerMessages| #[trigger] x.spec_encode() == bytes@ ==> m == Some(x),
    {
        if bytes.len() < 4 {
            assert forall|m: ServerMessages| #[trigger] m.spec_encode() != bytes@ by {
                Self::lemma_encode(m, m);
            }
            return None;
        }
        let tag = read_u32(bytes, 0);
        if tag == 0 && bytes.len() == PLAYER_CREATE_LEN {
            let entity = read_u64(bytes, 4);
            let id = read_u64(bytes, 12);
            let translation = Translation::read(bytes, 20);
            let m = ServerMessages::PlayerCreate { entity, id, translation };
            proof {
                lemma_u64_le(entity, entity);
                lemma_u64_le(id, id);
                Translation::lemma_encode(translation, translation);
                assert(m.spec_encode() =~= bytes@);
                let c = choose|c: ServerMessages| #[trigger] c.spec_encode() == bytes@;
                Self::lemma_encode(c, m);
                assert forall|x: ServerMessages| #[trigger] x.spec_encode() == bytes@ implies x == m by {
                    Self::lemma_encode(x, m);
                }
            }
            Some(m)
        } else if tag == 1 && bytes.len() == PLAYER_REMOVE_LEN {
            let id = read_u64(bytes, 4);
            let m = ServerMessages::PlayerRemove { id };
            proof {
                lemma_u64_le(id, id);
                assert(m.spec_encode() =~= bytes@);
                let c = choose|c: ServerMessages| #[trigger] c.spec_encode() == bytes@;
                Self::lemma_encode(c, m);
                assert forall|x: ServerMessages| #[trigger] x.spec_encode() == bytes@ implies x == m by {
                    Self::lemma_encode(x, m);
                }
            }
            Some(m)
        } else {
            assert forall|m: ServerMessages| #[trigger] m.spec_encode() != bytes@ by {
                Self::lemma_encode(m, m);
                if m.spec_encode() == bytes@ {
                    Self::lemma_tag(m);
                    lemma_u32_le(tag, 0);
                    lemma_u32_le(tag, 1);
                }
            }
            None
        }
    }

    /// The length that the encoding of `self` has.
    pub open spec fn spec_len(self) -> nat {
        match self {
            ServerMessages::PlayerCreate { .. } => PLAYER_CREATE_LEN as nat,
            ServerMessages::PlayerRemove { .. } => PLAYER_REMOVE_LEN as nat,
        }
    }

    /// The variant index that the encoding of `self` starts with.
    pub open spec fn spec_tag(self) -> u32 {
        match self {
            ServerMessages::PlayerCreate { .. } => 0,
            ServerMessages::PlayerRemove { .. } => 1,
        }
    }

    /// The first four bytes of an encoding are the variant's index.
    pub proof fn lemma_tag(m: ServerMessages)
        ensures
            m.spec_encode().len() >= 4,
            m.spec_encode().subrange(0, 4) == spec_u32_to_le_bytes(m.spec_tag()),
    {
        lemma_u32_le(0, 1);
        match m {
            ServerMessages::PlayerCreate { entity, id, translation } => {
                lemma_u64_le(entity, id);
            },
            ServerMessages::PlayerRemove { id } => {
                lemma_u64_le(id, id);
            },
        }
        assert(m.spec_encode().subrange(0, 4) =~= spec_u32_to_le_bytes(m.spec_tag()));
    }

    /// An encoding has its variant's length and belongs to one message only.
    pub proof fn lemma_encode(a: ServerMessages, b: ServerMessages)
        ensures
            a.spec_encode().len() == a.spec_len(),
            a.spec_encode() == b.spec_encode() ==> a == b,
    {
        lemma_u32_le(0, 1);
        match a {
            ServerMessages::PlayerCreate { entity, id, translation } => {
                lemma_u64_le(entity, id);
                Translation::lemma_encode(translation, translation);
            },
            ServerMessages::PlayerRemove { id } => {
                lemma_u64_le(id, id);
            },
        }
        if a.spec_encode() == b.spec_encode() {
            Self::lemma_tag(a);
            Self::lemma_tag(b);
            match (a, b) {
                (
                    ServerMessages::PlayerCreate { entity: e1, id: i1, translation: t1 },
                    ServerMessages::PlayerCreate { entity: e2, id: i2, translation: t2 },
                ) => {
                    lemma_u64_le(e1, e2);
                    lemma_u64_le(i1, i2);
                    Translation::lemma_encode(t1, t2);
                    let h1 = spec_u32_to_le_bytes(0) + spec_u64_to_le_bytes(e1);
                    let h2 = spec_u32_to_le_bytes(0) + spec_u64_to_le_bytes(e2);
                    lemma_concat_parts(
                        h1 + spec_u64_to_le_bytes(i1),
                        t1.spec_encode(),
                        h2 + spec_u64_to_le_bytes(i2),
                        t2.spec_encode(),
                    );
                    lemma_concat_parts(h1, spec_u64_to_le_bytes(i1), h2, spec_u64_to_le_bytes(i2));
                    lemma_concat_parts(
                        spec_u32_to_le_bytes(0),
                        spec_u64_to_le_bytes(e1),
                        spec_u32_to_le_bytes(0),
                        spec_u64_to_le_bytes(e2),
                    );
                },
                (
                    ServerMessages::PlayerRemove { id: i1 },
                    ServerMessages::PlayerRemove { id: i2 },
                ) => {
                    lemma_u64_le(i1, i2);
                    lemma_concat_parts(
                        spec_u32_to_le_bytes(1),
                        spec_u64_to_le_bytes(i1),
                        spec_u32_to_le_bytes(1),
                        spec_u64_to_le_bytes(i2),
                    );
                },
                _ => {},
            }
        }
    }

    /// Decoding inverts encoding, and accepts nothing but encodings.
    pub proof fn lemma_round_trip(m: ServerMessages, bytes: Seq<u8>)
        ensures
            Self::spec_decode(m.spec_encode()) == Some(m),
            Self::spec_decode(bytes) == Some(m) ==> m.spec_encode() == bytes,
    {
        let c = choose|c: ServerMessages| #[trigger] c.spec_encode() == m.spec_encode();
        Self::lemma_encode(c, m);
    }
}

} // verus!
