//! A binary-safe, recursive codec for a text-delimited wire protocol.
//!
//! The wire format tags each value with a single byte and terminates each
//! header line with a two-byte delimiter.  Values are scalars (simple text,
//! error text, signed integers, booleans), length-prefixed binary strings,
//! and three aggregate kinds: an ordered list, a key-unique mapping and a
//! deduplicating set.  The decoder distinguishes data that is merely not
//! yet complete from data that violates the grammar.
//!
//! This crate holds the codec and the decision logic of a minimal
//! request/response client; the connection itself (sockets, reads and
//! writes) lives outside it and hands plain byte chunks in and out.

use vstd::prelude::*;

pub mod laws;
pub mod model;
pub mod resp;

use crate::model::kind_of;
use crate::model::models;
use crate::model::Type;
use crate::model::Value;
use crate::model::ValueModel;
use crate::resp::parse;
use crate::resp::spec_parse;
use crate::resp::ParseError;

verus! {

broadcast use vstd::seq::group_seq_axioms, vstd::std_specs::vec::group_vec_axioms;

/// What a client call can fail with: transport trouble, bytes that violate
/// the wire grammar, or a handshake reply of the wrong kind.  A server
/// error reply (`ErrorText`) is an ordinary decoded value, not an `Error`.
#[derive(Debug, PartialEq, Eq)]
pub enum Error {
    /// The connection failed, was reset, or was closed by the peer.
    Io(String),
    /// The peer's bytes violate the wire grammar.
    RespErr(ParseError),
    /// The handshake reply's top-level value was not a mapping; the field
    /// holds the kind that arrived instead.
    ServerProto(Type),
}

/// The outcome of one transport-reader step.
pub enum ReadStep {
    /// The chunk was empty: the peer closed the connection.
    Closed,
    /// The buffer holds a valid prefix of a message: read more bytes.
    NeedMore,
    /// The buffer violates the grammar; the cursor is no longer
    /// trustworthy, so the connection must be dropped.
    Failed(ParseError),
    /// One whole message was decoded, ending at the given buffer offset.
    Done(Value, usize),
}

/// One step of the transport reader: append the chunk just read to the
/// accumulation buffer, then try to decode one message from the buffer
/// start.  An empty chunk signals peer closure and leaves the buffer
/// untouched; it is never treated as `NeedMore`.
#[verifier::loop_isolation(false)]
pub fn reader_step(acc: &mut Vec<u8>, chunk: &Vec<u8>) -> (r: ReadStep)
    ensures
        chunk@.len() == 0 ==> r is Closed && final(acc)@ == old(acc)@,
        chunk@.len() > 0 ==> final(acc)@ == old(acc)@ + chunk@ && match r {
            ReadStep::Closed => false,
            ReadStep::NeedMore => spec_parse(final(acc)@, 0) == Err::<
                (ValueModel, int),
                ParseError,
            >(ParseError::Incomplete),
            ReadStep::Failed(e) => e != ParseError::Incomplete && spec_parse(final(acc)@, 0)
                == Err::<(ValueModel, int), ParseError>(e),
            ReadStep::Done(v, end) => spec_parse(final(acc)@, 0) matches Ok(p) && p.0 == v@ && p.1
                == end as int,
        },
{
    if chunk.len() == 0 {
        return ReadStep::Closed;
    }
    proof {
        assert(acc@ + chunk@.subrange(0, 0) =~= acc@);
    }
    let ghost start = acc@;
    let mut i: usize = 0;
    while i < chunk.len()
        invariant
            i <= chunk.len(),
            acc@ == start + chunk@.subrange(0, i as int),
        decreases chunk@.len() - i,
    {
        acc.push(chunk[i]);
        proof {
            assert(start + chunk@.subrange(0, i + 1 as int) =~= (start + chunk@.subrange(
                0,
                i as int,
            )).push(chunk@[i as int]));
        }
        i = i + 1;
    }
    proof {
        assert(chunk@.subrange(0, chunk@.len() as int) =~= chunk@);
    }
    match parse(acc, 0) {
        Ok((v, end)) => ReadStep::Done(v, end),
        Err(ParseError::Incomplete) => ReadStep::NeedMore,
        Err(e) => ReadStep::Failed(e),
    }
}

/// The model of a request: the command, then each argument, every one a
/// binary string, in an ordered list.
pub open spec fn request_model(command: Seq<u8>, args: Seq<Vec<u8>>) -> Seq<ValueModel> {
    Seq::new(
        args.len() + 1,
        |i: int|
            if i == 0 {
                ValueModel::BinaryString(command)
            } else if 1 <= i < args.len() + 1 {
                ValueModel::BinaryString(args[i - 1]@)
            } else {
                ValueModel::Boolean(false)
            },
    )
}

/// Copy a byte vector.
fn clone_bytes(b: &Vec<u8>) -> (r: Vec<u8>)
    ensures
        r@ == b@,
{
    let mut out: Vec<u8> = Vec::new();
    let mut i: usize = 0;
    while i < b.len()
        invariant
            i <= b.len(),
            out@ == b@.subrange(0, i as int),
        decreases b@.len() - i,
    {
        out.push(b[i]);
        proof {
            assert(b@.subrange(0, i + 1 as int) =~= b@.subrange(0, i as int).push(b@[i as int]));
        }
        i = i + 1;
    }
    proof {
        assert(b@.subrange(0, b@.len() as int) =~= b@);
    }
    out
}

/// Build the request value for a command and its arguments: an ordered
/// list of binary strings, the command first.
#[verifier::loop_isolation(false)]
pub fn request_message(command: Vec<u8>, args: &Vec<Vec<u8>>) -> (v: Value)
    ensures
        v@ == ValueModel::List(request_model(command@, args@)),
{
    let ghost m = request_model(command@, args@);
    let mut items: Vec<Value> = Vec::new();
    items.push(Value::BinaryString(command));
    proof {
        assert(models(items@) =~= m.subrange(0, 1));
    }
    let mut i: usize = 0;
    while i < args.len()
        invariant
            i <= args.len(),
            models(items@) == m.subrange(0, 1 + i),
        decreases args@.len() - i,
    {
        let b = clone_bytes(&args[i]);
        items.push(Value::BinaryString(b));
        proof {
            assert(models(items@) =~= m.subrange(0, 1 + i + 1 as int));
        }
        i = i + 1;
    }
    proof {
        assert(m.subrange(0, 1 + args@.len() as int) =~= m);
    }
    Value::List(items)
}

/// The fixed handshake request: the one-element list holding the greeting
/// word as a binary string.
pub fn handshake_request() -> (v: Value)
    ensures
        v@ == ValueModel::List(
            seq![ValueModel::BinaryString(seq![104u8, 101u8, 108u8, 108u8, 111u8])],
        ),
{
    let mut word: Vec<u8> = Vec::new();
    word.push(104);
    word.push(101);
    word.push(108);
    word.push(108);
    word.push(111);
    let mut items: Vec<Value> = Vec::new();
    items.push(Value::BinaryString(word));
    proof {
        assert(word@ =~= seq![104u8, 101u8, 108u8, 108u8, 111u8]);
        assert(models(items@) =~= seq![
            ValueModel::BinaryString(seq![104u8, 101u8, 108u8, 108u8, 111u8]),
        ]);
    }
    Value::List(items)
}

/// Check a handshake reply: the server must identify itself with a
/// mapping; any other top-level kind is a protocol mismatch.
pub fn check_handshake(v: &Value) -> (r: Result<(), Error>)
    ensures
        r is Ok <==> v@ matches ValueModel::Mapping(_),
        r matches Err(e) ==> e == Error::ServerProto(kind_of(v@)),
{
    match v {
        Value::Mapping(_) => Ok(()),
        _ => Err(Error::ServerProto(v.kind())),
    }
}

} // verus!
