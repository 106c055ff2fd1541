//! The slot codec: one inventory-slot record, encoded to and decoded from
//! a byte stream.
//!
//! On the wire a slot is a signed 16-bit block id; the sentinel `-1` means
//! the slot is empty and nothing follows. Otherwise an unsigned 8-bit
//! count, an unsigned 16-bit damage value, and the metadata marker follow:
//! a single zero byte when there is no payload, or the payload's compound
//! bytes, whose leading type byte is never zero. Decoding tells the two
//! apart with a one-byte lookahead that is pushed back before the payload
//! is read.

use vstd::prelude::*;

use crate::nbt_codec::{
    nbt_enc_wf, nbt_encoding, nbt_scan, nbt_scan_ok, packed_model, unpacked_model,
    valid_packed_opt, ItemNbt, ItemNbtModel,
};
use crate::stream::{be16, i16_of_u16, u16_be, u16_of_i16, ByteReader, ByteWriter, DecodeError};

verus! {

/// The inventory item a slot is built from: a kind identifier, a stack
/// count, a damage value, and the optional metadata payload.
#[derive(Debug, PartialEq)]
pub struct ItemStack {
    pub kind: u32,
    pub count: u8,
    pub damage: u16,
    pub nbt: Option<ItemNbt>,
}

/// One inventory slot as it crosses the wire. `block_id == -1` is the
/// sentinel for an empty slot; the other fields are only meaningful when
/// the id is not the sentinel.
#[derive(Debug, PartialEq)]
pub struct Slot {
    pub block_id: i16,
    pub item_count: Option<u8>,
    pub item_damage: Option<u16>,
    pub nbt: Option<ItemNbt>,
}

/// A slot seen abstractly, with the payload as its model.
#[verifier::ext_equal]
pub struct SlotModel {
    pub block_id: i16,
    pub item_count: Option<u8>,
    pub item_damage: Option<u16>,
    pub nbt: Option<ItemNbtModel>,
}

impl View for Slot {
    type V = SlotModel;

    open spec fn view(&self) -> SlotModel {
        SlotModel {
            block_id: self.block_id,
            item_count: self.item_count,
            item_damage: self.item_damage,
            nbt: match self.nbt {
                None => None,
                Some(n) => Some(n@),
            },
        }
    }
}

/// The empty slot: the sentinel id and nothing else.
pub open spec fn spec_empty() -> Slot {
    Slot { block_id: -1i16, item_count: None, item_damage: None, nbt: None }
}

/// The block id carried by a 16-bit wire kind identifier: its low 16 bits
/// reinterpreted as a signed value, as the unchecked widening does.
pub open spec fn block_id_of_kind(k: u32) -> i16 {
    (if (k as int) % 0x10000 >= 0x8000 {
        (k as int) % 0x10000 - 0x10000
    } else {
        (k as int) % 0x10000
    }) as i16
}

/// The metadata marker and payload bytes of a slot: a single zero byte for
/// no payload, the payload's compound encoding otherwise.
pub open spec fn nbt_bytes(n: Option<ItemNbt>) -> Seq<u8> {
    match n {
        None => seq![0u8],
        Some(x) => nbt_encoding(packed_model(x@)),
    }
}

/// The byte string a well-formed slot encodes to.
pub open spec fn spec_encode_slot(s: Slot) -> Seq<u8>
    recommends
        s.wf(),
{
    let head = be16(u16_of_i16(s.block_id));
    if s.block_id == -1 {
        head
    } else {
        head + seq![s.item_count.unwrap()] + be16(s.item_damage.unwrap()) + nbt_bytes(s.nbt)
    }
}

/// The block id carried by the first two bytes of a stream.
pub open spec fn wire_block_id(rem: Seq<u8>) -> i16
    recommends
        rem.len() >= 2,
{
    i16_of_u16(u16_be(rem[0], rem[1]))
}

/// What a decoded present slot with metadata looks like, short of the
/// payload itself: the fields read before the marker, in order.
pub open spec fn decoded_with_nbt(rem: Seq<u8>, nbt: ItemNbtModel) -> SlotModel {
    SlotModel {
        block_id: wire_block_id(rem),
        item_count: Some(rem[2]),
        item_damage: Some(u16_be(rem[3], rem[4])),
        nbt: Some(nbt),
    }
}

/// Everything decoding promises, as a relation between the unconsumed
/// input `rem`, the result `r`, and the number of bytes consumed.
///
/// Success is pinned down exactly except behind a nonzero metadata marker,
/// where the compound codec decides: there, an input that begins with the
/// encoding of some packable entries still decodes exactly, a payload the
/// scanner rejects fails as invalid, and any other success at least
/// carries the fields that were read and a payload.
pub open spec fn slot_decode_post(rem: Seq<u8>, r: Result<Slot, DecodeError>, used: int) -> bool {
    if rem.len() < 2 {
        r == Err::<Slot, DecodeError>(DecodeError::UnexpectedEof)
    } else if wire_block_id(rem) == -1 {
        r == Ok::<Slot, DecodeError>(spec_empty()) && used == 2
    } else if rem.len() < 6 {
        r == Err::<Slot, DecodeError>(DecodeError::UnexpectedEof)
    } else if rem[5] == 0 {
        r == Ok::<Slot, DecodeError>(
            (Slot {
                block_id: wire_block_id(rem),
                item_count: Some(rem[2]),
                item_damage: Some(u16_be(rem[3], rem[4])),
                nbt: None,
            }),
        ) && used == 6
    } else {
        &&& nbt_scan(rem.skip(5)) is None ==> r == Err::<Slot, DecodeError>(
            DecodeError::InvalidNbt,
        )
        &&& forall|m: Option<Seq<i32>>|
            valid_packed_opt(m) && nbt_scan_ok(m) && (#[trigger] nbt_encoding(m)).is_prefix_of(
                rem.skip(5),
            ) ==> r is Ok && (r->Ok_0)@ == decoded_with_nbt(rem, unpacked_model(m)) && used == 5
                + nbt_encoding(m).len()
        &&& r is Ok ==> (r->Ok_0)@.block_id == wire_block_id(rem) && (r->Ok_0)@.item_count
            == Some(rem[2]) && (r->Ok_0)@.item_damage == Some(u16_be(rem[3], rem[4])) && (
        r->Ok_0)@.nbt is Some && 5 <= used <= rem.len()
    }
}

impl Slot {
    /// The correlated-optional invariant the encoder needs: a non-sentinel
    /// id comes with a count and a damage value.
    pub open spec fn wf(&self) -> bool {
        self.block_id != -1 ==> self.item_count is Some && self.item_damage is Some
    }

    /// A canonical slot also keeps the sentinel free of leftover fields,
    /// as every decoded slot is.
    pub open spec fn canonical(&self) -> bool {
        &&& self.wf()
        &&& self.block_id == -1 ==> self.item_count is None && self.item_damage is None
            && self.nbt is None
    }

    /// The bound the payload wire format's 32-bit entry count forces on
    /// the enchantment list.
    pub open spec fn ench_fits(&self) -> bool {
        match self.nbt {
            None => true,
            Some(n) => match n.ench {
                None => true,
                Some(v) => v@.len() <= 0x3fff_ffff,
            },
        }
    }

    /// The empty slot.
    pub fn empty() -> (s: Slot)
        ensures
            s == spec_empty(),
    {
        Slot { block_id: -1, item_count: None, item_damage: None, nbt: None }
    }

    /// A slot is present exactly when its id is not the sentinel.
    pub fn present(&self) -> (r: bool)
        ensures
            r == (self.block_id != -1),
    {
        self.block_id != -1
    }

    /// Encodes the slot onto the writer: the id, then, for a present slot,
    /// the count, the damage value, and the metadata marker or payload.
    ///
    /// A present slot without payload gains exactly one trailing zero
    /// byte; one with a payload continues with a nonzero byte instead.
    pub fn write_to_bytes(self, writer: &mut ByteWriter)
        requires
            self.wf(),
            self.block_id != -1 ==> self.ench_fits(),
        ensures
            final(writer)@ == old(writer)@ + spec_encode_slot(self),
            self.block_id != -1 && self.nbt is None ==> final(writer)@.len() == old(writer)@.len()
                + 6 && final(writer)@.last() == 0,
            self.block_id != -1 && self.nbt is Some ==> final(writer)@.len() > old(writer)@.len()
                + 5 && final(writer)@[old(writer)@.len() as int + 5] != 0,
            self.block_id != -1 && self.nbt is Some ==> nbt_enc_wf(
                packed_model(self.nbt->Some_0@),
            ),
            self.block_id != -1 && self.nbt is Some ==> nbt_scan_ok(
                packed_model(self.nbt->Some_0@),
            ),
    {
        let ghost s = self;
        let ghost w0 = writer@;
        writer.write_i16(self.block_id);
        if self.block_id != -1 {
            writer.write_u8(self.item_count.unwrap());
            writer.write_u16(self.item_damage.unwrap());
            match self.nbt {
                None => {
                    writer.write_u8(0);
                    proof {
                        assert(writer@ =~= w0 + spec_encode_slot(s));
                        assert(spec_encode_slot(s).len() == 6);
                        assert(writer@.last() == 0);
                    }
                },
                Some(n) => {
                    n.write_to_bytes(writer);
                    proof {
                        assert(writer@ =~= w0 + spec_encode_slot(s));
                        assert(nbt_bytes(s.nbt).len() >= 1 && nbt_bytes(s.nbt)[0] != 0);
                        assert(writer@[w0.len() as int + 5] == nbt_bytes(s.nbt)[0]);
                    }
                },
            }
        } else {
            proof {
                assert(writer@ =~= w0 + spec_encode_slot(s));
            }
        }
    }

    /// Decodes one slot off the stream, consuming exactly the bytes the
    /// record spans and failing with a `DecodeError` on a truncated or
    /// malformed stream, never returning a partially populated slot.
    pub fn read_from_bytes(reader: &mut ByteReader) -> (r: Result<Slot, DecodeError>)
        requires
            old(reader).wf(),
        ensures
            final(reader).wf(),
            final(reader).sdata() == old(reader).sdata(),
            slot_decode_post(
                old(reader).remaining(),
                r,
                final(reader).spos() - old(reader).spos(),
            ),
            r is Ok ==> (r->Ok_0).canonical(),
    {
        let ghost rem = reader.remaining();
        let block_id = match reader.read_i16() {
            Ok(v) => v,
            Err(e) => {
                return Err(e);
            },
        };
        proof {
            assert(block_id == wire_block_id(rem));
        }
        if block_id == -1 {
            return Ok(Slot { block_id: -1, item_count: None, item_damage: None, nbt: None });
        }
        proof {
            assert(reader.remaining() =~= rem.skip(2));
        }
        let item_count = match reader.read_u8() {
            Ok(v) => v,
            Err(e) => {
                return Err(e);
            },
        };
        proof {
            assert(item_count == rem[2]);
            assert(reader.remaining() =~= rem.skip(3));
        }
        let item_damage = match reader.read_u16() {
            Ok(v) => v,
            Err(e) => {
                return Err(e);
            },
        };
        proof {
            assert(item_damage == u16_be(rem[3], rem[4]));
            assert(reader.remaining() =~= rem.skip(5));
        }
        let first = match reader.read_u8() {
            Ok(v) => v,
            Err(e) => {
                return Err(e);
            },
        };
        proof {
            assert(first == rem[5]);
        }
        if first == 0 {
            Ok(
                Slot {
                    block_id,
                    item_count: Some(item_count),
                    item_damage: Some(item_damage),
                    nbt: None,
                },
            )
        } else {
            reader.back(1);
            proof {
                assert(reader.remaining() =~= rem.skip(5));
            }
            match ItemNbt::read_from_bytes(reader) {
                Err(e) => Err(e),
                Ok(n) => Ok(
                    Slot {
                        block_id,
                        item_count: Some(item_count),
                        item_damage: Some(item_damage),
                        nbt: Some(n),
                    },
                ),
            }
        }
    }
}

impl From<ItemStack> for Slot {
    /// Widens the kind identifier into the signed 16-bit block id, keeping
    /// only its low 16 bits, unchecked, and always populates the count and
    /// damage fields; the payload is carried through unchanged.
    fn from(stack: ItemStack) -> (r: Slot) {
        let low: u32 = stack.kind % 0x10000;
        let block_id: i16 = if low >= 0x8000 {
            ((low as i32) - 0x10000) as i16
        } else {
            low as i16
        };
        proof {
            assert(block_id == block_id_of_kind(stack.kind));
        }
        Slot {
            block_id,
            item_count: Some(stack.count),
            item_damage: Some(stack.damage),
            nbt: stack.nbt,
        }
    }
}

impl vstd::std_specs::convert::FromSpecImpl<ItemStack> for Slot {
    open spec fn obeys_from_spec() -> bool {
        true
    }

    open spec fn from_spec(stack: ItemStack) -> Slot {
        Slot {
            block_id: block_id_of_kind(stack.kind),
            item_count: Some(stack.count),
            item_damage: Some(stack.damage),
            nbt: stack.nbt,
        }
    }
}

/// Law: the converted slot always satisfies the encoder's invariant.
pub proof fn lemma_from_stack_wf(stack: ItemStack)
    ensures
        <Slot as vstd::std_specs::convert::FromSpec<ItemStack>>::from_spec(stack).wf(),
{
}

/// Law: the empty slot encodes to exactly the two sentinel bytes.
pub proof fn lemma_empty_encoding()
    ensures
        spec_encode_slot(spec_empty()) == seq![0xffu8, 0xffu8],
{
    assert(u16_of_i16(-1i16) == 0xffff);
    assert(spec_encode_slot(spec_empty()) =~= seq![0xffu8, 0xffu8]);
}

/// Law: decoding the exact encoding of a canonical slot, whatever follows
/// it on the stream, returns that slot and consumes exactly its bytes.
/// The payload facts in the hypotheses are what encoding itself ensures.
pub proof fn lemma_round_trip(s: Slot, rest: Seq<u8>, r: Result<Slot, DecodeError>, used: int)
    requires
        s.canonical(),
        s.ench_fits(),
        s.nbt matches Some(n) ==> nbt_enc_wf(packed_model(n@)),
        s.nbt matches Some(n) ==> nbt_scan_ok(packed_model(n@)),
        slot_decode_post(spec_encode_slot(s) + rest, r, used),
    ensures
        r is Ok,
        (r->Ok_0)@ == s@,
        used == spec_encode_slot(s).len(),
{
    let enc = spec_encode_slot(s);
    let rem = enc + rest;
    let u = u16_of_i16(s.block_id);
    assert(rem[0] == be16(u)[0] && rem[1] == be16(u)[1]);
    crate::stream::lemma_be16_round_trip(u);
    crate::stream::lemma_i16_u16_round_trip(s.block_id);
    assert(wire_block_id(rem) == s.block_id);
    if s.block_id == -1 {
        assert(s == spec_empty());
    } else {
        assert(rem[2] == s.item_count.unwrap());
        assert(rem[3] == be16(s.item_damage.unwrap())[0]);
        assert(rem[4] == be16(s.item_damage.unwrap())[1]);
        crate::stream::lemma_be16_round_trip(s.item_damage.unwrap());
        assert(rem.len() >= 6);
        match s.nbt {
            None => {
                assert(rem[5] == 0);
            },
            Some(n) => {
                let pm = packed_model(n@);
                assert(rem.skip(5) =~= nbt_encoding(pm) + rest);
                assert(rem[5] == nbt_encoding(pm)[0]);
                assert(rem[5] != 0);
                match n.ench {
                    None => {
                        assert(valid_packed_opt(pm));
                    },
                    Some(v) => {
                        crate::nbt_codec::lemma_pack_unpack(v@);
                    },
                }
                assert(nbt_encoding(pm).is_prefix_of(rem.skip(5))) by {
                    assert(nbt_encoding(pm) =~= rem.skip(5).subrange(
                        0,
                        nbt_encoding(pm).len() as int,
                    ));
                }
                assert(r is Ok && (r->Ok_0)@ == decoded_with_nbt(rem, unpacked_model(pm)) && used
                    == 5 + nbt_encoding(pm).len());
                assert(unpacked_model(pm) =~= n@);
                assert((r->Ok_0)@ == s@);
            },
        }
    }
}

/// Law: a present slot without payload encodes to exactly six bytes, the
/// last of them the zero marker.
pub proof fn lemma_absence_marker_encode(s: Slot)
    requires
        s.wf(),
        s.block_id != -1,
        s.nbt is None,
    ensures
        spec_encode_slot(s).len() == 6,
        spec_encode_slot(s)[5] == 0,
{
}

/// Law: behind a present id, a zero metadata marker always decodes to a
/// slot without payload.
pub proof fn lemma_absence_marker_decode(rem: Seq<u8>, r: Result<Slot, DecodeError>, used: int)
    requires
        rem.len() >= 6,
        wire_block_id(rem) != -1,
        rem[5] == 0,
        slot_decode_post(rem, r, used),
    ensures
        r is Ok,
        (r->Ok_0).nbt is None,
        used == 6,
{
}

/// Law: a stream that ends inside a present record fails with
/// `UnexpectedEof`; no partially populated slot comes back.
pub proof fn lemma_truncated(rem: Seq<u8>, r: Result<Slot, DecodeError>, used: int)
    requires
        2 <= rem.len() < 6,
        wire_block_id(rem) != -1,
        slot_decode_post(rem, r, used),
    ensures
        r == Err::<Slot, DecodeError>(DecodeError::UnexpectedEof),
{
}

} // verus!

