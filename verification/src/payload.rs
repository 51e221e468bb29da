use vstd::prelude::*;

use crate::bytes::{InputByteQueue, OutputByteQueue};
use crate::containers::LengthProvidedArray;
use crate::protocol::{ReadError, Readable, Writable, WriteError};
use crate::text::{read_string_with_limit, spec_string_read, string_wire, CHAT_LIMIT};
use crate::varnum::VarInt;

verus! {

#[verifier::external_type_specification]
#[verifier::external_body]
pub struct ExJsonValue(serde_json::Value);

#[verifier::external_type_specification]
#[verifier::external_body]
pub struct ExComponentType(cubic_chat::component::ComponentType);

#[verifier::external_type_specification]
#[verifier::external_body]
pub struct ExNbtValue(fastnbt::Value);

/// Whether these bytes parse as a JSON document: parsing depends on the
/// bytes alone.
pub uninterp spec fn json_parses(b: Seq<u8>) -> bool;

/// Whether this text parses as a chat component: parsing depends on the
/// text alone.
pub uninterp spec fn component_parses(s: Seq<char>) -> bool;

/// Whether these bytes parse as a binary-tree (NBT) value: parsing depends
/// on the bytes alone.
pub uninterp spec fn nbt_parses(b: Seq<u8>) -> bool;

/// Relies on serde_json::to_string: serializes a JSON value to its text
/// form. It cannot fail for a `Value`: serialization fails only when a
/// Serialize impl reports an error or a map key is not a string, and a
/// `Value`'s maps are string-keyed.
#[verifier::external_body]
fn json_value_to_string(v: &serde_json::Value) -> (r: Result<String, WriteError>)
    ensures
        r is Ok,
{
    serde_json::to_string(v).map_err(|_e| WriteError::Json)
}

/// Relies on serde_json::from_slice: parses bytes as a JSON document,
/// succeeding exactly when the bytes parse.
#[verifier::external_body]
fn json_value_from_slice(b: &[u8]) -> (r: Result<serde_json::Value, ReadError>)
    ensures
        r is Ok <==> json_parses(b@),
        r matches Err(e) ==> e == ReadError::BadJson,
{
    serde_json::from_slice::<serde_json::Value>(b).map_err(|_e| ReadError::BadJson)
}

/// Relies on serde_json::to_string: serializes a chat component to JSON
/// text. It cannot fail: the component's derived Serialize never errors, and
/// every map it emits is string-keyed.
#[verifier::external_body]
fn component_to_string(c: &cubic_chat::component::ComponentType) -> (r: Result<
    String,
    WriteError,
>)
    ensures
        r is Ok,
{
    serde_json::to_string(c).map_err(|_e| WriteError::Json)
}

/// Relies on serde_json::from_str: parses JSON text as a chat component,
/// succeeding exactly when the text parses.
#[verifier::external_body]
fn component_from_str(s: &str) -> (r: Result<cubic_chat::component::ComponentType, ReadError>)
    ensures
        r is Ok <==> component_parses(s@),
        r matches Err(e) ==> e == ReadError::BadJson,
{
    serde_json::from_str::<cubic_chat::component::ComponentType>(s).map_err(
        |_e| ReadError::BadJson,
    )
}

/// Relies on fastnbt::to_bytes: serializes an NBT value to its binary form.
#[verifier::external_body]
fn nbt_value_to_bytes(v: &fastnbt::Value) -> (r: Result<Vec<u8>, WriteError>)
    ensures
        r matches Err(e) ==> e == WriteError::Nbt,
{
    fastnbt::to_bytes(v).map_err(|_e| WriteError::Nbt)
}

/// Relies on fastnbt::from_bytes: parses binary NBT into a value,
/// succeeding exactly when the bytes parse.
#[verifier::external_body]
fn nbt_value_from_bytes(b: &[u8]) -> (r: Result<fastnbt::Value, ReadError>)
    ensures
        r is Ok <==> nbt_parses(b@),
        r matches Err(e) ==> e == ReadError::BadNbt,
{
    fastnbt::from_bytes::<fastnbt::Value>(b).map_err(|_e| ReadError::BadNbt)
}

/// A value whose wire form is a length-prefixed UTF-8 JSON document. The
/// framing is exact; what the document says is the JSON value's affair.
#[derive(Debug)]
pub struct ProtocolJson {
    pub value: serde_json::Value,
}

impl ProtocolJson {
    /// The wrapper holding the given JSON value.
    pub fn new(value: serde_json::Value) -> (r: ProtocolJson)
        ensures
            r.value == value,
    {
        ProtocolJson { value }
    }

    /// Serialize the value to JSON text and write it as a length-prefixed
    /// string; serializing a JSON value cannot fail, so neither can this.
    pub fn write(&self, output: &mut OutputByteQueue) -> (r: Result<(), WriteError>)
        ensures
            r is Ok,
            exists|cs: Seq<char>| final(output)@ == old(output)@ + string_wire(cs),
    {
        let s = match json_value_to_string(&self.value) {
            Ok(s) => s,
            Err(e) => {
                proof {
                    assert(false);
                }
                return Err(e);
            },
        };
        let _ = s.write(output);
        proof {
            assert(output@ == old(output)@ + string_wire(s@));
        }
        Ok(())
    }

    /// Read a VarInt-counted byte run and parse it as a JSON document. The
    /// framing follows the length-provided byte array exactly; the read
    /// succeeds exactly when the framed bytes parse as JSON, and bytes the
    /// parser rejects are `BadJson`.
    pub fn read(input: &mut InputByteQueue) -> (r: Result<ProtocolJson, ReadError>)
        ensures
            match <LengthProvidedArray<u8, VarInt> as Readable>::spec_read(old(input)@) {
                Ok((bytes, n)) => (r is Ok <==> json_parses(bytes)) && (r matches Err(e) ==> e
                    == ReadError::BadJson) && final(input)@ == old(input)@.skip(n),
                Err(e) => r matches Err(e2) && e2 == e,
            },
    {
        let arr = match LengthProvidedArray::<u8, VarInt>::read(input) {
            Ok(a) => a,
            Err(e) => {
                return Err(e);
            },
        };
        proof {
            assert(arr.result.deep_view() =~= arr.result@);
        }
        match json_value_from_slice(arr.result.as_slice()) {
            Ok(v) => Ok(ProtocolJson { value: v }),
            Err(e) => Err(e),
        }
    }
}

/// Read a chat component: JSON text under the larger structured-text limit.
/// The string framing and the limit are exact; the read succeeds exactly
/// when the framed text parses as a component, and text the parser rejects
/// is `BadJson`.
pub fn read_component(input: &mut InputByteQueue) -> (r: Result<
    cubic_chat::component::ComponentType,
    ReadError,
>)
    ensures
        match spec_string_read(old(input)@, CHAT_LIMIT as int) {
            Ok((cs, n)) => (r is Ok <==> component_parses(cs)) && (r matches Err(e) ==> e
                == ReadError::BadJson) && final(input)@ == old(input)@.skip(n),
            Err(e) => r matches Err(e2) && e2 == e,
        },
{
    let s = match read_string_with_limit(input, CHAT_LIMIT) {
        Ok(s) => s,
        Err(e) => {
            return Err(e);
        },
    };
    component_from_str(s.as_str())
}

/// Write a chat component as JSON text in a length-prefixed string;
/// serializing a component cannot fail, so neither can this.
pub fn write_component(c: &cubic_chat::component::ComponentType, output: &mut OutputByteQueue) -> (r:
    Result<(), WriteError>)
    ensures
        r is Ok,
        exists|cs: Seq<char>| final(output)@ == old(output)@ + string_wire(cs),
{
    let s = match component_to_string(c) {
        Ok(s) => s,
        Err(e) => {
            proof {
                assert(false);
            }
            return Err(e);
        },
    };
    let _ = s.write(output);
    proof {
        assert(output@ == old(output)@ + string_wire(s@));
    }
    Ok(())
}

/// Write an NBT value in remaining-bytes framing: its serialized binary
/// form appended with no count or terminator. On serialization failure
/// nothing is written. The bytes themselves depend on hash-map iteration
/// order and so cannot be pinned further.
pub fn write_nbt_value(v: &fastnbt::Value, output: &mut OutputByteQueue) -> (r: Result<
    (),
    WriteError,
>)
    ensures
        r matches Ok(p) ==> exists|nb: Seq<u8>| final(output)@ == old(output)@ + nb,
        r matches Err(e) ==> e == WriteError::Nbt && final(output)@ == old(output)@,
{
    match nbt_value_to_bytes(v) {
        Err(e) => Err(e),
        Ok(b) => {
            output.put_bytes(b.as_slice());
            Ok(())
        },
    }
}

/// The frame of a slot value: an item-identifier VarInt, a one-byte item
/// count, and all remaining bytes as the embedded binary-tree payload.
pub open spec fn spec_slot_frame_read(s: Seq<u8>) -> Result<((VarInt, u8, Seq<u8>), int), ReadError> {
    match <VarInt as Readable>::spec_read(s) {
        Err(e) => Err(e),
        Ok((id, n1)) => match <u8 as Readable>::spec_read(s.skip(n1)) {
            Err(e) => Err(e),
            Ok((c, n2)) => Ok(((id, c, s.skip(n1 + 1)), s.len() as int)),
        },
    }
}

/// A slot-like item value: an item-identifier size-number, a byte count, and
/// an embedded structured-binary-tree payload framed by the remaining bytes.
#[derive(Debug)]
pub struct Slot {
    pub item_id: VarInt,
    pub item_count: u8,
    pub nbt: fastnbt::Value,
}

impl Slot {
    /// Write item id, item count, then the binary-tree payload. If the
    /// payload cannot be serialized, the id and count stand and `Nbt` is
    /// reported, as the field-by-field encode does.
    pub fn write(&self, output: &mut OutputByteQueue) -> (r: Result<(), WriteError>)
        ensures
            r matches Ok(p) ==> exists|nb: Seq<u8>|
                final(output)@ == old(output)@ + <VarInt as Writable>::spec_wire(self.item_id) + seq![
                    self.item_count,
                ] + nb,
            r matches Err(e) ==> e == WriteError::Nbt && final(output)@ == old(output)@ + <VarInt as Writable>::spec_wire(
                self.item_id,
            ) + seq![self.item_count],
    {
        let _ = self.item_id.write(output);
        let _ = self.item_count.write(output);
        write_nbt_value(&self.nbt, output)
    }

    /// Symmetric decode, following the same field order: item id, item
    /// count, then every remaining byte parsed as the binary-tree payload.
    /// It succeeds exactly when those bytes parse as NBT.
    pub fn read(input: &mut InputByteQueue) -> (r: Result<Slot, ReadError>)
        ensures
            match spec_slot_frame_read(old(input)@) {
                Ok(((id, c, nb), n)) => final(input)@.len() == 0 && (match r {
                    Ok(slot) => slot.item_id == id && slot.item_count == c && nbt_parses(nb),
                    Err(e) => e == ReadError::BadNbt && !nbt_parses(nb),
                }),
                Err(e) => r matches Err(e2) && e2 == e,
            },
    {
        let id = match VarInt::read(input) {
            Ok(v) => v,
            Err(e) => {
                return Err(e);
            },
        };
        let count = match u8::read(input) {
            Ok(v) => v,
            Err(e) => {
                return Err(e);
            },
        };
        let n = input.available();
        let bytes = match input.take_bytes(n) {
            Ok(b) => b,
            Err(_) => {
                proof {
                    assert(false);
                }
                return Err(ReadError::InputQueue(crate::bytes::InputByteQueueError::NoBytes));
            },
        };
        proof {
            match spec_slot_frame_read(old(input)@) {
                Ok(((sid, sc, nb), sn)) => {
                    <VarInt as Readable>::lemma_read_bounds(old(input)@);
                    let n1 = <VarInt as Readable>::spec_read(old(input)@)->Ok_0.1;
                    assert(old(input)@.skip(n1).skip(1) =~= old(input)@.skip(n1 + 1));
                    assert(old(input)@.skip(n1 + 1).take(old(input)@.skip(n1 + 1).len() as int)
                        =~= old(input)@.skip(n1 + 1));
                    assert(bytes@ =~= nb);
                },
                Err(e) => {},
            }
        }
        match nbt_value_from_bytes(bytes.as_slice()) {
            Ok(v) => Ok(Slot { item_id: id, item_count: count, nbt: v }),
            Err(e) => Err(e),
        }
    }
}

} // verus!
