//! A verified model of a CAN database (DBC) network: validation of the
//! signals and messages of a network, the multiplexing rules, the
//! multiplexing decision trees and the selection of the signals that a
//! received frame carries.
use vstd::prelude::*;
use std::collections::HashMap;
use crate::dbc::{Dbc, Message, RawMessage, raw_message_ok, message_from_raw, raw_message_error, first_bad_message};
use crate::error::DbcError;
use crate::message_processor::{MessageProcessor, decoded_signals, lemma_decoded_names_distinct, lemma_decoded_signals_in_schema};

pub mod dbc;
pub mod decision_tree;
pub mod error;
pub mod message_processor;
pub mod tree_walk;
pub mod utils;

verus! {

/// The decoded form of one signal of a frame.
#[derive(Debug, Clone)]
pub struct SignalValue<'a> {
    /// The raw value of the signal.
    pub raw: u64,
    /// The description of the raw value, where the signal describes it.
    pub enum_repr: Option<&'a str>,
    pub unit: &'a str,
}

/// The decoded form of a frame: its message, and the name and value of each
/// signal that it carries, in the order of the message's signals. A name is
/// listed once: where several carried signals share it, with the value of the
/// last of them.
#[derive(Debug, Clone)]
pub struct CanResult<'a> {
    pub message_name: &'a str,
    pub signals: Vec<(&'a str, SignalValue<'a>)>,
}

broadcast use vstd::std_specs::hash::group_hash_axioms;

/// The index of the last of the first `k` messages with identifier `id`, or -1.
pub open spec fn last_with_id(msgs: Seq<Message>, id: u64, k: int) -> int
    decreases k,
{
    if k <= 0 {
        -1
    } else if msgs[k - 1].id == id {
        k - 1
    } else {
        last_with_id(msgs, id, k - 1)
    }
}

/// `last_with_id` is -1 or the index of a message with the identifier.
pub proof fn lemma_last_with_id_bounds(msgs: Seq<Message>, id: u64, k: int)
    requires
        0 <= k <= msgs.len(),
    ensures
        -1 <= last_with_id(msgs, id, k) < k,
        last_with_id(msgs, id, k) >= 0 ==> msgs[last_with_id(msgs, id, k)].id == id,
        last_with_id(msgs, id, k) == -1 ==> forall|i: int| 0 <= i < k ==> msgs[i].id != id,
    decreases k,
{
    if k > 0 {
        lemma_last_with_id_bounds(msgs, id, k - 1);
    }
}

/// No message after `last_with_id` has the identifier.
proof fn lemma_last_with_id_is_last(msgs: Seq<Message>, id: u64, k: int)
    requires
        0 <= k <= msgs.len(),
    ensures
        forall|i: int| last_with_id(msgs, id, k) < i < k ==> msgs[i].id != id,
    decreases k,
{
    if k > 0 {
        lemma_last_with_id_is_last(msgs, id, k - 1);
    }
}

/// Decodes frames of the messages of a validated network.
pub struct CanProcessor {
    dbc: Dbc,
    /// For each identifier, the index of the message that decodes its frames.
    message_processors: HashMap<u64, usize>,
}

impl CanProcessor {
    #[verifier::type_invariant]
    spec fn inv(self) -> bool {
        &&& forall|i: int| 0 <= i < self.dbc@.len() ==> (#[trigger] self.dbc@[i]).wf()
        &&& forall|id: u64|
            #![trigger self.message_processors@.contains_key(id)]
            {
                let last = last_with_id(self.dbc@, id, self.dbc@.len() as int);
                &&& self.message_processors@.contains_key(id) <==> last >= 0
                &&& self.message_processors@.contains_key(id) ==> self.message_processors@[id] == last
            }
    }

    /// The messages of the network.
    pub closed spec fn messages(self) -> Seq<Message> {
        self.dbc@
    }

    /// The index of the message that decodes frames with identifier `id`: the
    /// last message of the network with that identifier, or -1.
    pub open spec fn message_of(self, id: u64) -> int {
        last_with_id(self.messages(), id, self.messages().len() as int)
    }

    /// Validates the messages of a network and prepares to decode their frames.
    pub fn from_network(network: Vec<RawMessage>) -> (res: Result<CanProcessor, DbcError>)
        ensures
            res is Ok <==> forall|i: int|
                0 <= i < network@.len() ==> raw_message_ok(#[trigger] network@[i]),
            res matches Ok(p) ==> {
                &&& p.messages().len() == network@.len()
                &&& forall|i: int|
                    0 <= i < network@.len() ==> message_from_raw(
                        #[trigger] network@[i],
                        p.messages()[i],
                    )
            },
            res matches Err(e) ==> {
                let b = first_bad_message(network@);
                &&& 0 <= b < network@.len()
                &&& e matches DbcError::InvalidMessageAt { index, source }
                &&& index == b
                &&& raw_message_error(network@[b], *source)
            },
    {
        let dbc = match Dbc::new(network) {
            Ok(dbc) => dbc,
            Err(e) => {
                return Err(e);
            },
        };
        let msgs = dbc.messages();
        let ghost ms = dbc@;
        let n = msgs.len();
        let mut message_processors: HashMap<u64, usize> = HashMap::new();
        for i in 0..n
            invariant
                n == ms.len(),
                msgs@ == ms,
                forall|id: u64|
                    #![trigger message_processors@.contains_key(id)]
                    {
                        let last = last_with_id(ms, id, i as int);
                        &&& message_processors@.contains_key(id) <==> last >= 0
                        &&& message_processors@.contains_key(id) ==> message_processors@[id] == last
                    },
        {
            message_processors.insert(msgs[i].id, i);
        }
        proof {
            assert forall|i: int| 0 <= i < ms.len() implies (#[trigger] ms[i]).wf() by {
                assert(message_from_raw(network@[i], ms[i]));
            }
        }
        Ok(CanProcessor { dbc, message_processors })
    }

    /// The index of the message that decodes frames with identifier `id`, if any.
    pub fn message_index(&self, id: u64) -> (res: Option<usize>)
        ensures
            match res {
                Some(i) => i == self.message_of(id),
                None => self.message_of(id) == -1,
            },
    {
        proof {
            use_type_invariant(self);
            lemma_last_with_id_bounds(self.dbc@, id, self.dbc@.len() as int);
        }
        match self.message_processors.get(&id) {
            Some(i) => {
                assert(self.message_processors@.contains_key(id));
                Some(*i)
            },
            None => {
                assert(!self.message_processors@.contains_key(id));
                None
            },
        }
    }

    /// Decodes a frame: `payload` is the frame and `raws` the raw values of
    /// the signals of its message in it, in the order of the signals.
    pub fn decode_frame(&self, id: u64, payload: &[u8], raws: &[u64]) -> (res: Result<
        CanResult<'_>,
        DbcError,
    >)
        requires
            self.message_of(id) >= 0 ==> raws@.len() == self.messages()[self.message_of(
                id,
            )].signals@.len(),
        ensures
            self.message_of(id) == -1 ==> (res matches Err(e) && e is InvalidCanId),
            self.message_of(id) >= 0 ==> {
                let msg = self.messages()[self.message_of(id)];
                &&& res is Err <==> msg.payload_size > payload@.len()
                &&& res matches Err(e) ==> e == (DbcError::PayloadTooShort {
                    payload_len: payload@.len() as usize,
                    message_size: msg.payload_size,
                })
                &&& res matches Ok(r) ==> {
                    &&& r.message_name@ == msg.name@
                    &&& decoded_signals(msg, raws@, r.signals@)
                }
            },
    {
        proof {
            use_type_invariant(self);
            lemma_last_with_id_bounds(self.dbc@, id, self.dbc@.len() as int);
        }
        let idx = match self.message_processors.get(&id) {
            Some(i) => *i,
            None => {
                return Err(DbcError::InvalidCanId);
            },
        };
        let msgs = self.dbc.messages();
        let processor = match MessageProcessor::new(&msgs[idx]) {
            Ok(p) => p,
            Err(e) => {
                return Err(e);
            },
        };
        processor.parse_frame(payload, raws)
    }

    /// Law: the schema describes the decoded data. Frames with identifier `id`
    /// are decoded by the last message of the schema with that identifier, if
    /// any; a decoded frame names that message and lists only names of its
    /// signals, each once.
    pub proof fn lemma_schema_describes_frames(
        self,
        id: u64,
        raws: Seq<u64>,
        name: &str,
        out: Seq<(&str, SignalValue)>,
    )
        requires
            self.message_of(id) >= 0,
            name@ == self.messages()[self.message_of(id)].name@,
            decoded_signals(self.messages()[self.message_of(id)], raws, out),
        ensures
            ({
                let k = self.message_of(id);
                let msg = self.messages()[k];
                &&& 0 <= k < self.messages().len()
                &&& msg.id == id
                &&& forall|i: int| k < i < self.messages().len() ==> self.messages()[i].id != id
                &&& name@ == msg.name@
                &&& forall|j: int|
                    0 <= j < out.len() ==> exists|i: int|
                        0 <= i < msg.signals@.len() && (#[trigger] out[j]).0@ == msg.signals@[i].name@
                &&& forall|a: int, b: int| 0 <= a < b < out.len() ==> out[a].0@ != out[b].0@
            }),
    {
        let n = self.messages().len() as int;
        lemma_last_with_id_bounds(self.messages(), id, n);
        lemma_last_with_id_is_last(self.messages(), id, n);
        let msg = self.messages()[self.message_of(id)];
        lemma_decoded_names_distinct(msg, raws, out);
        assert forall|j: int| 0 <= j < out.len() implies exists|i: int|
            0 <= i < msg.signals@.len() && (#[trigger] out[j]).0@ == msg.signals@[i].name@ by {
            lemma_decoded_signals_in_schema(msg, raws, out, j);
        }
    }

    /// The messages that frames are decoded by; the schema of the decoded data.
    pub fn schema(&self) -> (res: &Dbc)
        ensures
            res@ == self.messages(),
    {
        &self.dbc
    }
}

} // verus!
