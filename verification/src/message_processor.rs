//! Which signals a frame carries, given the raw values of the signals of its message.
use vstd::prelude::*;
use crate::dbc::{Message, Signal, SignalMuxFlag, mux_acyclic, mux_ranks, lemma_acyclic_resolves};
use crate::dbc::cycles::{links, link_of, first_named, find_signal, has_parent};
use crate::decision_tree::uses_extended_mux;
use crate::error::DbcError;
use crate::{CanResult, SignalValue};

verus! {

broadcast use vstd::std_specs::hash::group_hash_axioms;

/// The extended multiplexers above signal `i` are all active: the value of the
/// switch of each lies in the first range that the signal below it names.
pub open spec fn mux_chain_active(sigs: Seq<Signal>, raws: Seq<u64>, i: int) -> bool
    decreases mux_ranks(links(sigs))[i],
    when mux_acyclic(links(sigs)) && 0 <= i < sigs.len()
{
    match sigs[i].ex_mux_parent {
        None => false,
        Some(info) => {
            let p = first_named(links(sigs), info.switch@);
            if p < 0 || info.ranges@.len() == 0 {
                false
            } else if info.ranges@[0].contains(raws[p]) {
                if sigs[p].ex_mux_parent is Some {
                    proof {
                        lemma_acyclic_resolves(links(sigs));
                        assert(links(sigs)[i] == link_of(sigs[i]));
                        assert(has_parent(links(sigs)[i]));
                    }
                    mux_chain_active(sigs, raws, p)
                } else {
                    true
                }
            } else {
                false
            }
        },
    }
}

/// A frame of message `msg`, whose signals have the raw values `raws`, carries signal `i`:
/// it is not multiplexed or a switch, or the message's switch has its value,
/// or its extended multiplexers are active.
pub open spec fn signal_enabled(msg: Message, raws: Seq<u64>, i: int) -> bool {
    let s = msg.signals@[i];
    ||| s.mux_flag != SignalMuxFlag::Value
    ||| (msg.mux_signal matches Some(m) && s.ex_mux_parent is None && raws[m as int] == s.mux_value)
    ||| mux_chain_active(msg.signals@, raws, i)
}

/// Signal `i` is carried by the frame and no later carried signal has its name,
/// so that a lookup by its name gives its value.
pub open spec fn signal_decoded(msg: Message, raws: Seq<u64>, i: int) -> bool {
    &&& signal_enabled(msg, raws, i)
    &&& forall|j: int|
        i < j < msg.signals@.len() && #[trigger] signal_enabled(msg, raws, j)
            ==> msg.signals@[j].name@ != msg.signals@[i].name@
}

/// The indices below `k` of the signals whose values a decoded frame lists, in order.
pub open spec fn decoded_indices(msg: Message, raws: Seq<u64>, k: int) -> Seq<int>
    decreases k,
{
    if k <= 0 {
        seq![]
    } else if signal_decoded(msg, raws, k - 1) {
        decoded_indices(msg, raws, k - 1).push(k - 1)
    } else {
        decoded_indices(msg, raws, k - 1)
    }
}

/// `v` is the decoded form of signal `sig` with raw value `raw`.
pub open spec fn decoded_value(sig: Signal, raw: u64, v: SignalValue) -> bool {
    &&& v.raw == raw
    &&& v.unit@ == sig.unit@
    &&& if sig.enum_map@.contains_key(raw) {
        v.enum_repr matches Some(t) && t@ == sig.enum_map@[raw]@
    } else {
        v.enum_repr is None
    }
}

/// `out` lists, in order, the name and decoded value of each signal that the
/// frame carries, where a name that several carried signals share is listed
/// once, with the value of the last of them.
pub open spec fn decoded_signals(
    msg: Message,
    raws: Seq<u64>,
    out: Seq<(&str, SignalValue)>,
) -> bool {
    let e = decoded_indices(msg, raws, msg.signals@.len() as int);
    &&& out.len() == e.len()
    &&& forall|j: int|
        0 <= j < e.len() ==> {
            let s = msg.signals@[e[j]];
            &&& (#[trigger] out[j]).0@ == s.name@
            &&& decoded_value(s, raws[e[j]], out[j].1)
        }
}

/// The signals whose values a decoded frame lists are listed once each, in order.
pub proof fn lemma_decoded_indices_exact(msg: Message, raws: Seq<u64>, k: int)
    requires
        0 <= k,
    ensures
        forall|i: int| 0 <= i < k ==> (decoded_indices(msg, raws, k).contains(i) <==> signal_decoded(msg, raws, i)),
        forall|j: int| 0 <= j < decoded_indices(msg, raws, k).len() ==> 0 <= #[trigger] decoded_indices(msg, raws, k)[j] < k,
        forall|j: int| 0 <= j < decoded_indices(msg, raws, k).len() ==> signal_decoded(msg, raws, #[trigger] decoded_indices(msg, raws, k)[j]),
        forall|a: int, b: int|
            0 <= a < b < decoded_indices(msg, raws, k).len() ==> decoded_indices(msg, raws, k)[a] < decoded_indices(msg, raws, k)[b],
    decreases k,
{
    if k > 0 {
        lemma_decoded_indices_exact(msg, raws, k - 1);
        let prev = decoded_indices(msg, raws, k - 1);
        if signal_decoded(msg, raws, k - 1) {
            assert(decoded_indices(msg, raws, k) == prev.push(k - 1));
            assert(decoded_indices(msg, raws, k)[prev.len() as int] == k - 1);
            assert forall|i: int| 0 <= i < k implies (decoded_indices(msg, raws, k).contains(i) <==> signal_decoded(msg, raws, i)) by {
                if decoded_indices(msg, raws, k).contains(i) && i < k - 1 {
                    let j = choose|j: int| 0 <= j < decoded_indices(msg, raws, k).len() && decoded_indices(msg, raws, k)[j] == i;
                    assert(j < prev.len());
                    assert(prev[j] == i);
                }
                if i < k - 1 && prev.contains(i) {
                    let j = choose|j: int| 0 <= j < prev.len() && prev[j] == i;
                    assert(decoded_indices(msg, raws, k)[j] == i);
                }
            }
        } else {
            assert(decoded_indices(msg, raws, k) == prev);
            assert forall|i: int| 0 <= i < k implies (decoded_indices(msg, raws, k).contains(i) <==> signal_decoded(msg, raws, i)) by {
                if i == k - 1 && prev.contains(i) {
                    let j = choose|j: int| 0 <= j < prev.len() && prev[j] == i;
                }
            }
        }
    }
}

/// Among the carried signals at `i` and above, but below `hi`, the last with
/// the name of signal `i`.
proof fn lemma_last_carried_with_name(msg: Message, raws: Seq<u64>, i: int, hi: int) -> (k: int)
    requires
        0 <= i < hi <= msg.signals@.len(),
        signal_enabled(msg, raws, i),
        forall|j: int|
            hi <= j < msg.signals@.len() && #[trigger] signal_enabled(msg, raws, j)
                ==> msg.signals@[j].name@ != msg.signals@[i].name@,
    ensures
        i <= k < hi,
        signal_decoded(msg, raws, k),
        msg.signals@[k].name@ == msg.signals@[i].name@,
    decreases hi - i,
{
    let c = hi - 1;
    if c == i {
        i
    } else if signal_enabled(msg, raws, c) && msg.signals@[c].name@ == msg.signals@[i].name@ {
        c
    } else {
        lemma_last_carried_with_name(msg, raws, i, c)
    }
}

/// Law: each entry of a decoded frame is a signal that the frame carries,
/// listed under the signal's name, with the signal's raw value, the signal's
/// unit, and the description of that raw value where the signal has one and
/// none where it has none, whatever the signal's multiplexing.
pub proof fn lemma_decoded_entry(msg: Message, raws: Seq<u64>, out: Seq<(&str, SignalValue)>, j: int)
    requires
        decoded_signals(msg, raws, out),
        0 <= j < out.len(),
    ensures
        exists|i: int|
            0 <= i < msg.signals@.len() && #[trigger] signal_enabled(msg, raws, i) && {
                let sig = msg.signals@[i];
                let v = out[j].1;
                &&& out[j].0@ == sig.name@
                &&& v.raw == raws[i]
                &&& v.unit@ == sig.unit@
                &&& sig.enum_map@.contains_key(raws[i]) ==> (v.enum_repr matches Some(t) && t@
                    == sig.enum_map@[raws[i]]@)
                &&& !sig.enum_map@.contains_key(raws[i]) ==> v.enum_repr is None
            },
{
    let n = msg.signals@.len() as int;
    lemma_decoded_indices_exact(msg, raws, n);
    let e = decoded_indices(msg, raws, n);
    let i = e[j];
    assert(signal_decoded(msg, raws, i));
    assert(out[j].0@ == msg.signals@[i].name@);
    assert(decoded_value(msg.signals@[i], raws[i], out[j].1));
}

/// Law: a decoded frame lists each name once, as a map by name does.
pub proof fn lemma_decoded_names_distinct(msg: Message, raws: Seq<u64>, out: Seq<(&str, SignalValue)>)
    requires
        decoded_signals(msg, raws, out),
    ensures
        forall|a: int, b: int| 0 <= a < b < out.len() ==> out[a].0@ != out[b].0@,
{
    let n = msg.signals@.len() as int;
    lemma_decoded_indices_exact(msg, raws, n);
    let e = decoded_indices(msg, raws, n);
    assert forall|a: int, b: int| 0 <= a < b < out.len() implies out[a].0@ != out[b].0@ by {
        assert(signal_decoded(msg, raws, e[a]));
        assert(signal_decoded(msg, raws, e[b]));
        assert(e[a] < e[b]);
        assert(signal_enabled(msg, raws, e[b]));
    }
}

/// Law: every signal that the frame carries has its name listed, with the
/// value of the last carried signal of that name.
pub proof fn lemma_carried_signal_listed(
    msg: Message,
    raws: Seq<u64>,
    out: Seq<(&str, SignalValue)>,
    i: int,
)
    requires
        decoded_signals(msg, raws, out),
        0 <= i < msg.signals@.len(),
        signal_enabled(msg, raws, i),
    ensures
        exists|j: int, k: int|
            0 <= j < out.len() && i <= k < msg.signals@.len() && #[trigger] signal_decoded(msg, raws, k)
                && (#[trigger] out[j]).0@ == msg.signals@[i].name@ && msg.signals@[k].name@ == msg.signals@[i].name@
                && decoded_value(msg.signals@[k], raws[k], out[j].1),
{
    let n = msg.signals@.len() as int;
    let k = lemma_last_carried_with_name(msg, raws, i, n);
    lemma_decoded_indices_exact(msg, raws, n);
    let e = decoded_indices(msg, raws, n);
    assert(e.contains(k));
    let j = choose|j: int| 0 <= j < e.len() && e[j] == k;
    assert(out[j].0@ == msg.signals@[i].name@);
}

/// Law: a frame always carries every signal that is not multiplexed, and every
/// switch: its name is always listed.
pub proof fn lemma_unmultiplexed_always_decoded(
    msg: Message,
    raws: Seq<u64>,
    out: Seq<(&str, SignalValue)>,
    i: int,
)
    requires
        decoded_signals(msg, raws, out),
        0 <= i < msg.signals@.len(),
        msg.signals@[i].mux_flag != SignalMuxFlag::Value,
    ensures
        exists|j: int| 0 <= j < out.len() && (#[trigger] out[j]).0@ == msg.signals@[i].name@,
{
    assert(signal_enabled(msg, raws, i));
    lemma_carried_signal_listed(msg, raws, out, i);
}

/// Law: where the signals of a message have distinct names, a decoded frame
/// lists a signal's name exactly when the frame carries the signal, and then
/// with the signal's own value.
pub proof fn lemma_listed_exactly_when_carried(
    msg: Message,
    raws: Seq<u64>,
    out: Seq<(&str, SignalValue)>,
    i: int,
)
    requires
        decoded_signals(msg, raws, out),
        forall|a: int, b: int|
            0 <= a < b < msg.signals@.len() ==> msg.signals@[a].name@ != msg.signals@[b].name@,
        0 <= i < msg.signals@.len(),
    ensures
        (exists|j: int| 0 <= j < out.len() && (#[trigger] out[j]).0@ == msg.signals@[i].name@)
            <==> signal_enabled(msg, raws, i),
        forall|j: int|
            0 <= j < out.len() && (#[trigger] out[j]).0@ == msg.signals@[i].name@
                ==> decoded_value(msg.signals@[i], raws[i], out[j].1),
{
    let n = msg.signals@.len() as int;
    let sigs = msg.signals@;
    lemma_decoded_indices_exact(msg, raws, n);
    let e = decoded_indices(msg, raws, n);
    assert forall|j: int| 0 <= j < out.len() && (#[trigger] out[j]).0@ == sigs[i].name@ implies
        e[j] == i && signal_enabled(msg, raws, i) && decoded_value(sigs[i], raws[i], out[j].1) by {
        assert(signal_decoded(msg, raws, e[j]));
        if e[j] < i {
            assert(sigs[e[j]].name@ != sigs[i].name@);
        } else if e[j] > i {
            assert(sigs[i].name@ != sigs[e[j]].name@);
        }
    }
    if signal_enabled(msg, raws, i) {
        lemma_carried_signal_listed(msg, raws, out, i);
    }
}

/// Law: in a message without extended multiplexing, a frame carries a
/// multiplexed signal exactly when the switch has the signal's value.
pub proof fn lemma_simple_multiplexing(msg: Message, raws: Seq<u64>, i: int)
    requires
        msg.wf(),
        !uses_extended_mux(links(msg.signals@)),
        0 <= i < msg.signals@.len(),
    ensures
        signal_enabled(msg, raws, i) <==> {
            ||| msg.signals@[i].mux_flag != SignalMuxFlag::Value
            ||| (msg.mux_signal matches Some(m) && raws[m as int] == msg.signals@[i].mux_value)
        },
{
    assert(links(msg.signals@)[i] == link_of(msg.signals@[i]));
    assert(!has_parent(links(msg.signals@)[i]));
    assert(msg.signals@[i].ex_mux_parent is None);
}

/// Law: where a frame carries a multiplexed signal through its extended
/// multiplexer, the value of the switch lies in the signal's (first) range,
/// and a switch that is itself multiplexed is carried too.
pub proof fn lemma_extended_multiplexing(msg: Message, raws: Seq<u64>, i: int)
    requires
        msg.wf(),
        0 <= i < msg.signals@.len(),
        msg.signals@[i].mux_flag == SignalMuxFlag::Value,
        msg.signals@[i].ex_mux_parent is Some,
        signal_enabled(msg, raws, i),
    ensures
        ({
            let info = msg.signals@[i].ex_mux_parent.unwrap();
            let p = first_named(links(msg.signals@), info.switch@);
            &&& 0 <= p < msg.signals@.len()
            &&& info.ranges@.len() > 0
            &&& info.ranges@[0].contains(raws[p])
            &&& msg.signals@[p].ex_mux_parent is Some ==> signal_enabled(msg, raws, p)
        }),
{
    let sigs = msg.signals@;
    assert(mux_chain_active(sigs, raws, i));
    let info = sigs[i].ex_mux_parent.unwrap();
    let p = first_named(links(sigs), info.switch@);
    lemma_acyclic_resolves(links(sigs));
    assert(links(sigs)[i] == link_of(sigs[i]));
    if sigs[p].ex_mux_parent is Some {
        assert(mux_chain_active(sigs, raws, p));
    }
}

/// Law: the chain of extended multiplexers above a signal is active exactly
/// when the switch that the signal names exists, its value lies in the first
/// range that the signal names, and the switch's own chain is active where it
/// has one. With no range it is never active; with one range, the value must
/// lie in it.
pub proof fn lemma_mux_chain_active_unfold(sigs: Seq<Signal>, raws: Seq<u64>, i: int)
    requires
        mux_acyclic(links(sigs)),
        0 <= i < sigs.len(),
        sigs[i].ex_mux_parent is Some,
    ensures
        ({
            let info = sigs[i].ex_mux_parent.unwrap();
            let p = first_named(links(sigs), info.switch@);
            &&& mux_chain_active(sigs, raws, i) <==> {
                &&& 0 <= p
                &&& info.ranges@.len() > 0
                &&& info.ranges@[0].contains(raws[p])
                &&& sigs[p].ex_mux_parent is Some ==> mux_chain_active(sigs, raws, p)
            }
            &&& info.ranges@.len() == 0 ==> !mux_chain_active(sigs, raws, i)
            &&& info.ranges@.len() == 1 ==> (mux_chain_active(sigs, raws, i) <==> {
                &&& 0 <= p
                &&& info.ranges@[0].from <= raws[p] <= info.ranges@[0].to
                &&& sigs[p].ex_mux_parent is Some ==> mux_chain_active(sigs, raws, p)
            })
        }),
{
}

/// Law: a multiplexed signal below an extended multiplexer is carried exactly
/// when the chain of extended multiplexers above it is active.
pub proof fn lemma_extended_signal_carried(msg: Message, raws: Seq<u64>, i: int)
    requires
        0 <= i < msg.signals@.len(),
        msg.signals@[i].mux_flag == SignalMuxFlag::Value,
        msg.signals@[i].ex_mux_parent is Some,
    ensures
        signal_enabled(msg, raws, i) <==> mux_chain_active(msg.signals@, raws, i),
{
}

/// Law: the schema describes the decoded data: each decoded signal is a signal
/// of the frame's message, with its name, unit and raw value, and the decoded
/// signals come in the order of the message's signals.
pub proof fn lemma_decoded_signals_in_schema(
    msg: Message,
    raws: Seq<u64>,
    out: Seq<(&str, SignalValue)>,
    j: int,
)
    requires
        decoded_signals(msg, raws, out),
        0 <= j < out.len(),
    ensures
        exists|i: int|
            0 <= i < msg.signals@.len() && signal_enabled(msg, raws, i) && out[j].0@
                == msg.signals@[i].name@ && decoded_value(msg.signals@[i], raws[i], out[j].1),
        forall|a: int, b: int|
            0 <= a < b < out.len() ==> decoded_indices(msg, raws, msg.signals@.len() as int)[a]
                < decoded_indices(msg, raws, msg.signals@.len() as int)[b],
{
    let n = msg.signals@.len() as int;
    lemma_decoded_indices_exact(msg, raws, n);
    let e = decoded_indices(msg, raws, n);
    let i = e[j];
    assert(signal_decoded(msg, raws, i));
    assert(out[j].0@ == msg.signals@[i].name@);
}

/// Decodes frames of one message.
pub struct MessageProcessor<'a> {
    inner: &'a Message,
}

impl<'a> MessageProcessor<'a> {
    #[verifier::type_invariant]
    spec fn inv(self) -> bool {
        self.inner.wf()
    }

    /// The message that this processor decodes.
    pub closed spec fn message(self) -> Message {
        *self.inner
    }

    /// A processor for a valid message.
    pub fn new(inner: &'a Message) -> (res: Result<MessageProcessor<'a>, DbcError>)
        requires
            inner.wf(),
        ensures
            res matches Ok(p) && p.message() == *inner,
    {
        Ok(MessageProcessor { inner })
    }

    /// The message that this processor decodes.
    pub fn inner(&self) -> (res: &'a Message)
        ensures
            *res == self.message(),
            res.wf(),
    {
        proof {
            use_type_invariant(self);
        }
        self.inner
    }

    /// Decodes a frame of the message: `payload` is the frame and `raws` the raw
    /// values of the message's signals in it, in the order of the signals.
    pub fn parse_frame(&self, payload: &[u8], raws: &[u64]) -> (res: Result<CanResult<'a>, DbcError>)
        requires
            raws@.len() == self.message().signals@.len(),
        ensures
            res is Err <==> self.message().payload_size > payload@.len(),
            res matches Err(e) ==> e == (DbcError::PayloadTooShort {
                payload_len: payload@.len() as usize,
                message_size: self.message().payload_size,
            }),
            res matches Ok(r) ==> {
                &&& r.message_name@ == self.message().name@
                &&& decoded_signals(self.message(), raws@, r.signals@)
            },
    {
        proof {
            use_type_invariant(self);
        }
        let msg = self.inner;
        if msg.payload_size > payload.len() as u64 {
            return Err(DbcError::PayloadTooShort {
                payload_len: payload.len(),
                message_size: msg.payload_size,
            });
        }
        let ghost m = *msg;
        let n = msg.signals.len();
        let mut carried: Vec<bool> = Vec::new();
        for idx in 0..n
            invariant
                m == *msg,
                m == self.message(),
                m.wf(),
                n == m.signals@.len(),
                raws@.len() == n,
                carried@.len() == idx,
                forall|j: int| 0 <= j < idx ==> carried@[j] == signal_enabled(m, raws@, j),
        {
            let sig: &'a Signal = &msg.signals[idx];
            let mut to_insert = false;
            if sig.mux_flag != SignalMuxFlag::Value {
                to_insert = true;
            } else {
                let simple = match msg.mux_signal {
                    Some(m_idx) => sig.ex_mux_parent.is_none() && raws[m_idx] == sig.mux_value,
                    None => false,
                };
                if simple {
                    to_insert = true;
                } else if self.all_multiplexers_valid(idx, raws) {
                    to_insert = true;
                }
            }
            assert(to_insert == signal_enabled(m, raws@, idx as int));
            carried.push(to_insert);
        }
        let mut result: Vec<(&'a str, SignalValue<'a>)> = Vec::new();
        for idx in 0..n
            invariant
                m == *msg,
                n == m.signals@.len(),
                raws@.len() == n,
                carried@.len() == n,
                forall|j: int| 0 <= j < n ==> carried@[j] == signal_enabled(m, raws@, j),
                result@.len() == decoded_indices(m, raws@, idx as int).len(),
                forall|j: int|
                    0 <= j < result@.len() ==> {
                        let e = decoded_indices(m, raws@, idx as int);
                        let s = m.signals@[e[j]];
                        &&& (#[trigger] result@[j]).0@ == s.name@
                        &&& decoded_value(s, raws@[e[j]], result@[j].1)
                    },
        {
            let sig: &'a Signal = &msg.signals[idx];
            let mut shadowed = false;
            let mut later = idx + 1;
            while later < n
                invariant
                    idx < later <= n,
                    n == m.signals@.len(),
                    *sig == m.signals@[idx as int],
                    m == *msg,
                    carried@.len() == n,
                    forall|j: int| 0 <= j < n ==> carried@[j] == signal_enabled(m, raws@, j),
                    shadowed <==> exists|j: int|
                        idx < j < later && #[trigger] signal_enabled(m, raws@, j)
                            && m.signals@[j].name@ == m.signals@[idx as int].name@,
                decreases n - later,
            {
                let same_name = msg.signals[later].name == sig.name;
                assert(same_name == (msg.signals@[later as int].name@ == sig.name@));
                let same = carried[later] && same_name;
                proof {
                    assert(carried@[later as int] == signal_enabled(m, raws@, later as int));
                    assert(same == (signal_enabled(m, raws@, later as int)
                        && m.signals@[later as int].name@ == m.signals@[idx as int].name@));
                }
                if same {
                    shadowed = true;
                }
                later += 1;
            }
            assert(signal_decoded(m, raws@, idx as int) == (carried@[idx as int] && !shadowed));
            if carried[idx] && !shadowed {
                let raw = raws[idx];
                let enum_repr: Option<&'a str> = match sig.enum_map.get(&raw) {
                    Some(s) => Some(s.as_str()),
                    None => None,
                };
                result.push((sig.name.as_str(), SignalValue { raw, enum_repr, unit: sig.unit.as_str() }));
            }
        }
        Ok(CanResult { message_name: msg.name.as_str(), signals: result })
    }

    /// The extended multiplexers above signal `idx` are all active.
    fn all_multiplexers_valid(&self, idx: usize, raws: &[u64]) -> (res: bool)
        requires
            idx < self.message().signals@.len(),
            raws@.len() == self.message().signals@.len(),
        ensures
            res == mux_chain_active(self.message().signals@, raws@, idx as int),
        decreases mux_ranks(links(self.message().signals@))[idx as int],
    {
        proof {
            use_type_invariant(self);
            lemma_acyclic_resolves(links(self.inner.signals@));
        }
        let signals = &self.inner.signals;
        match &signals[idx].ex_mux_parent {
            None => false,
            Some(par_info) => {
                match find_signal(signals.as_slice(), &par_info.switch) {
                    None => false,
                    Some(p) => {
                        let par_value = raws[p];
                        if par_info.ranges.len() == 0 {
                            return false;
                        }
                        let range = par_info.ranges[0];
                        if par_value >= range.from && par_value <= range.to {
                            if signals[p].ex_mux_parent.is_some() {
                                proof {
                                    assert(links(signals@)[idx as int] == link_of(signals@[idx as int]));
                                    assert(has_parent(links(signals@)[idx as int]));
                                }
                                self.all_multiplexers_valid(p, raws)
                            } else {
                                true
                            }
                        } else {
                            false
                        }
                    },
                }
            },
        }
    }
}

} // verus!
