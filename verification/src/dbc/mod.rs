use vstd::prelude::*;
use std::collections::HashMap;
use crate::error::DbcError;
use crate::decision_tree::{
    MuxSignal, DecisionTree, create_decision_tree, uses_extended_mux, is_extended_tree,
    is_simple_tree, simple_tree_error, mux_flags, flag_indices,
};
use cycles::{
    Link, links, named_at, first_named, find_signal, has_parent, switch_of, all_resolve,
    chain_terminates, terminates_at, parent_of, cycles_at, cycle_names, resolves, find_cycle,
};

pub mod cycles;

verus! {

broadcast use vstd::std_specs::hash::group_hash_axioms;

/// An inclusive range of values of a multiplexer switch.
#[derive(Debug, Clone, Copy)]
pub struct ValueRange {
    pub from: u64,
    pub to: u64,
}

impl ValueRange {
    /// `v` lies in the range.
    pub open spec fn contains(self, v: u64) -> bool {
        self.from <= v && v <= self.to
    }
}

/// How a signal takes part in multiplexing.
#[derive(Debug, Clone, Copy, PartialEq, Eq, Structural)]
pub enum SignalMuxFlag {
    NoMux,
    Switch,
    Value,
}

/// The extended multiplexer of a signal: the name of the switch signal and
/// the ranges of its value that enable the signal.
#[derive(Debug)]
pub struct ExMuxInfo {
    pub switch: String,
    pub ranges: Vec<ValueRange>,
}

/// A signal as the network description gives it, before validation.
#[derive(Debug)]
pub struct RawSignal {
    pub name: String,
    pub unit: String,
    pub comment: String,
    /// Value descriptions, in the order of the description; a later one
    /// overrides an earlier one with the same value.
    pub value_descriptions: Vec<(u64, String)>,
    /// 0: not multiplexed, 1: multiplexer switch, 2: multiplexed signal.
    pub multiplexer_indicator: u32,
    pub multiplexer_switch_value: u64,
    pub multiplexer_values: Vec<ExMuxInfo>,
}

/// A validated signal.
#[derive(Debug)]
pub struct Signal {
    pub name: String,
    pub unit: String,
    pub comment: String,
    /// The description of each described raw value.
    pub enum_map: HashMap<u64, String>,
    pub mux_flag: SignalMuxFlag,
    pub mux_value: u64,
    pub ex_mux_parent: Option<ExMuxInfo>,
}

/// The map that a sequence of value descriptions defines: later entries win.
pub open spec fn descriptions_map(d: Seq<(u64, String)>) -> Map<u64, String>
    decreases d.len(),
{
    if d.len() == 0 {
        Map::empty()
    } else {
        descriptions_map(d.drop_last()).insert(d.last().0, d.last().1)
    }
}

/// The flag that a multiplexer indicator stands for, if any.
pub open spec fn mux_flag_of(indicator: u32) -> Option<SignalMuxFlag> {
    if indicator == 0 {
        Some(SignalMuxFlag::NoMux)
    } else if indicator == 1 {
        Some(SignalMuxFlag::Switch)
    } else if indicator == 2 {
        Some(SignalMuxFlag::Value)
    } else {
        None
    }
}

/// The error, if any, that validating a raw signal gives.
pub open spec fn raw_signal_error(raw: RawSignal) -> Option<DbcError> {
    if mux_flag_of(raw.multiplexer_indicator) is None {
        Some(DbcError::InvalidSignal { name: raw.name })
    } else if raw.multiplexer_values@.len() > 1 {
        Some(DbcError::MultipleExMuxParents { name: raw.name })
    } else {
        None
    }
}

/// `sig` is the validated form of `raw`.
pub open spec fn signal_from_raw(raw: RawSignal, sig: Signal) -> bool {
    &&& sig.name == raw.name
    &&& sig.unit == raw.unit
    &&& sig.comment == raw.comment
    &&& sig.enum_map@ == descriptions_map(raw.value_descriptions@)
    &&& Some(sig.mux_flag) == mux_flag_of(raw.multiplexer_indicator)
    &&& sig.mux_value == raw.multiplexer_switch_value
    &&& if raw.multiplexer_values@.len() == 0 {
        sig.ex_mux_parent is None
    } else {
        sig.ex_mux_parent == Some(raw.multiplexer_values@[0])
    }
}

/// No description after the `i`-th gives its value.
pub open spec fn is_last_description(d: Seq<(u64, String)>, i: int) -> bool {
    forall|j: int| i < j < d.len() ==> d[j].0 != d[i].0
}

/// Law: the map of a sequence of value descriptions describes exactly the
/// values that some description gives.
pub proof fn lemma_descriptions_map_keys(d: Seq<(u64, String)>, v: u64)
    ensures
        descriptions_map(d).contains_key(v) <==> exists|i: int| 0 <= i < d.len() && (#[trigger] d[i]).0 == v,
    decreases d.len(),
{
    if d.len() > 0 {
        let p = d.drop_last();
        lemma_descriptions_map_keys(p, v);
        if exists|i: int| 0 <= i < p.len() && (#[trigger] p[i]).0 == v {
            let i = choose|i: int| 0 <= i < p.len() && (#[trigger] p[i]).0 == v;
            assert(d[i] == p[i]);
        }
        if exists|i: int| 0 <= i < d.len() && (#[trigger] d[i]).0 == v {
            let i = choose|i: int| 0 <= i < d.len() && (#[trigger] d[i]).0 == v;
            if i < d.len() - 1 {
                assert(p[i] == d[i]);
            }
        }
    }
}

/// Law: the map of a sequence of value descriptions describes the value of
/// each description that no later one overrides by the text of that description.
pub proof fn lemma_descriptions_map_values(d: Seq<(u64, String)>, i: int)
    requires
        0 <= i < d.len(),
        is_last_description(d, i),
    ensures
        descriptions_map(d).contains_key(d[i].0),
        descriptions_map(d)[d[i].0] == d[i].1,
    decreases d.len(),
{
    let p = d.drop_last();
    if i < d.len() - 1 {
        assert(d[d.len() - 1].0 != d[i].0);
        assert(p[i] == d[i]);
        assert forall|j: int| i < j < p.len() implies p[j].0 != p[i].0 by {
            assert(p[j] == d[j]);
        }
        lemma_descriptions_map_values(p, i);
    }
}

/// Law: validating a raw signal keeps its name, unit, comment and switch
/// value, maps the multiplexer indicators 0, 1 and 2 to a signal that is not
/// multiplexed, a switch and a multiplexed signal, keeps its one extended
/// multiplexer, and keeps its value descriptions: a value is described exactly
/// when some description gives it, by the text of its last description.
pub proof fn lemma_signal_from_raw_keeps_the_description(raw: RawSignal, sig: Signal)
    requires
        signal_from_raw(raw, sig),
    ensures
        sig.name@ == raw.name@,
        sig.unit@ == raw.unit@,
        sig.comment@ == raw.comment@,
        sig.mux_value == raw.multiplexer_switch_value,
        raw.multiplexer_indicator == 0 ==> sig.mux_flag == SignalMuxFlag::NoMux,
        raw.multiplexer_indicator == 1 ==> sig.mux_flag == SignalMuxFlag::Switch,
        raw.multiplexer_indicator == 2 ==> sig.mux_flag == SignalMuxFlag::Value,
        raw.multiplexer_values@.len() == 1 ==> sig.ex_mux_parent == Some(raw.multiplexer_values@[0]),
        raw.multiplexer_values@.len() == 0 ==> sig.ex_mux_parent is None,
        forall|v: u64|
            sig.enum_map@.contains_key(v) <==> exists|i: int|
                0 <= i < raw.value_descriptions@.len() && (#[trigger] raw.value_descriptions@[i]).0 == v,
        forall|i: int|
            0 <= i < raw.value_descriptions@.len() && #[trigger] is_last_description(raw.value_descriptions@, i) ==> {
                let (v, text) = raw.value_descriptions@[i];
                &&& sig.enum_map@.contains_key(v)
                &&& sig.enum_map@[v]@ == text@
            },
{
    let d = raw.value_descriptions@;
    assert forall|v: u64|
        sig.enum_map@.contains_key(v) <==> exists|i: int| 0 <= i < d.len() && (#[trigger] d[i]).0 == v by {
        lemma_descriptions_map_keys(d, v);
    }
    assert forall|i: int| 0 <= i < d.len() && #[trigger] is_last_description(d, i) implies {
        let (v, text) = d[i];
        &&& sig.enum_map@.contains_key(v)
        &&& sig.enum_map@[v]@ == text@
    } by {
        lemma_descriptions_map_values(d, i);
    }
}

impl Signal {
    /// Validates a raw signal.
    pub fn new(raw: RawSignal) -> (res: Result<Signal, DbcError>)
        ensures
            match res {
                Ok(sig) => raw_signal_error(raw) is None && signal_from_raw(raw, sig),
                Err(e) => raw_signal_error(raw) == Some(e),
            },
    {
        let ghost raw0 = raw;
        let RawSignal {
            name,
            unit,
            comment,
            value_descriptions,
            multiplexer_indicator,
            multiplexer_switch_value,
            mut multiplexer_values,
        } = raw;
        let mut enum_map: HashMap<u64, String> = HashMap::new();
        let n = value_descriptions.len();
        for i in 0..n
            invariant
                n == value_descriptions@.len(),
                value_descriptions@ == raw0.value_descriptions@,
                enum_map@ == descriptions_map(value_descriptions@.take(i as int)),
        {
            let value = value_descriptions[i].0;
            let text = value_descriptions[i].1.clone();
            enum_map.insert(value, text);
            assert(value_descriptions@.take(i + 1).drop_last() == value_descriptions@.take(i as int));
        }
        assert(value_descriptions@.take(n as int) == value_descriptions@);
        let mux_flag = if multiplexer_indicator == 0 {
            SignalMuxFlag::NoMux
        } else if multiplexer_indicator == 1 {
            SignalMuxFlag::Switch
        } else if multiplexer_indicator == 2 {
            SignalMuxFlag::Value
        } else {
            return Err(DbcError::InvalidSignal { name });
        };
        if multiplexer_values.len() > 1 {
            return Err(DbcError::MultipleExMuxParents { name });
        }
        let ex_mux_parent = multiplexer_values.pop();
        Ok(Signal {
            name,
            unit,
            comment,
            enum_map,
            mux_flag,
            mux_value: multiplexer_switch_value,
            ex_mux_parent,
        })
    }
}

/// A message as the network description gives it, before validation.
#[derive(Debug)]
pub struct RawMessage {
    pub id: u64,
    pub name: String,
    /// The size of the message in bytes.
    pub size: u64,
    pub signals: Vec<RawSignal>,
}

/// A validated message.
#[derive(Debug)]
pub struct Message {
    pub id: u64,
    pub name: String,
    /// The size of the message in bytes.
    pub payload_size: u64,
    pub signals: Vec<Signal>,
    /// Indices of the signals that are not multiplexed.
    pub no_mux_signals: Vec<usize>,
    /// The multiplexers of the message, with the signals that their values enable.
    pub decision_tree: Vec<MuxSignal>,
    /// The index of the first multiplexer switch of the message, if any.
    pub mux_signal: Option<usize>,
}

/// `r` ranks the signals so that a signal's extended multiplexer switch has a
/// lower rank than the signal.
pub open spec fn valid_ranks(signals: Seq<Link>, r: Seq<nat>) -> bool {
    &&& r.len() == signals.len()
    &&& forall|i: int| 0 <= i < signals.len() ==> #[trigger] r[i] <= signals.len()
    &&& forall|i: int|
        0 <= i < signals.len() && has_parent(#[trigger] signals[i]) ==> {
            let p = first_named(signals, switch_of(signals[i]));
            0 <= p < signals.len() && r[p] < r[i]
        }
}

/// The extended multiplexer switches of `signals` all exist and never loop.
pub open spec fn mux_acyclic(signals: Seq<Link>) -> bool {
    exists|r: Seq<nat>| valid_ranks(signals, r)
}

/// A ranking that witnesses `mux_acyclic`.
pub open spec fn mux_ranks(signals: Seq<Link>) -> Seq<nat> {
    choose|r: Seq<nat>| valid_ranks(signals, r)
}

/// Acyclic switches all name a signal, and the chosen ranking is valid.
pub proof fn lemma_acyclic_resolves(signals: Seq<Link>)
    requires
        mux_acyclic(signals),
    ensures
        all_resolve(signals),
        valid_ranks(signals, mux_ranks(signals)),
{
    let r = mux_ranks(signals);
    assert forall|i: int| 0 <= i < signals.len() implies cycles::resolves(signals, #[trigger] signals[i]) by {
        if has_parent(signals[i]) {
            assert(0 <= first_named(signals, switch_of(signals[i])));
        }
    }
}

/// Where every chain of switches ends, the switches never loop.
pub proof fn lemma_terminating_chains_acyclic(signals: Seq<Link>)
    requires
        all_resolve(signals),
        forall|i: int| 0 <= i < signals.len() ==> chain_terminates(signals, #[trigger] signals[i]),
    ensures
        mux_acyclic(signals),
{
    let n = signals.len();
    let r = Seq::new(n, |i: int| choose|m: nat| terminates_at(signals, signals[i], m));
    assert forall|i: int| 0 <= i < n implies #[trigger] r[i] <= n && terminates_at(signals, signals[i], r[i]) by {
        assert(chain_terminates(signals, signals[i]));
        assert(cycles::resolves(signals, signals[i]));
        cycles::lemma_chain_nodes_named(signals, signals[i], r[i]);
        cycles::lemma_chain_bound(signals, signals[i], r[i]);
    }
    assert forall|i: int| 0 <= i < n && has_parent(#[trigger] signals[i]) implies {
        let p = first_named(signals, switch_of(signals[i]));
        0 <= p < n && r[p] < r[i]
    } by {
        assert(cycles::resolves(signals, signals[i]));
        let p = first_named(signals, switch_of(signals[i]));
        assert(named_at(signals, switch_of(signals[i]), p));
        assert(terminates_at(signals, signals[i], r[i]));
        cycles::lemma_parent_terminates(signals, signals[i], r[i]);
        assert(parent_of(signals, signals[i]) == signals[p]);
        assert(terminates_at(signals, signals[p], r[p]));
        cycles::lemma_chain_outcome_unique(signals, signals[p], r[p], (r[i] - 1) as nat);
    }
    assert(valid_ranks(signals, r));
}

/// `i` is the index of the first `Switch` flag.
pub open spec fn switch_at(flags: Seq<SignalMuxFlag>, i: int) -> bool {
    &&& 0 <= i < flags.len()
    &&& flags[i] == SignalMuxFlag::Switch
    &&& forall|j: int| 0 <= j < i ==> flags[j] != SignalMuxFlag::Switch
}

/// The index of the first `Switch` flag, if any.
pub open spec fn first_switch(flags: Seq<SignalMuxFlag>) -> Option<usize> {
    if exists|i: int| switch_at(flags, i) {
        Some((choose|i: int| switch_at(flags, i)) as usize)
    } else {
        None
    }
}

/// The index of the first raw signal that fails validation, or -1.
pub open spec fn first_bad_raw(raws: Seq<RawSignal>) -> int {
    if exists|i: int| 0 <= i < raws.len() && raw_signal_error(#[trigger] raws[i]) is Some {
        choose|i: int|
            0 <= i < raws.len() && raw_signal_error(#[trigger] raws[i]) is Some && forall|j: int|
                0 <= j < i ==> raw_signal_error(#[trigger] raws[j]) is None
    } else {
        -1
    }
}

/// `sigs` are the validated forms of `raws`, one by one.
pub open spec fn signals_from_raws(raws: Seq<RawSignal>, sigs: Seq<Signal>) -> bool {
    &&& sigs.len() == raws.len()
    &&& forall|i: int| 0 <= i < raws.len() ==> signal_from_raw(#[trigger] raws[i], sigs[i])
}

/// The link of a raw signal: its name and the switch of its first extended multiplexer.
pub open spec fn raw_link(raw: RawSignal) -> Link {
    (
        raw.name@,
        if raw.multiplexer_values@.len() == 0 {
            None
        } else {
            Some(raw.multiplexer_values@[0].switch@)
        },
    )
}

/// The links of raw signals.
pub open spec fn raw_links(raws: Seq<RawSignal>) -> Seq<Link> {
    raws.map_values(|r: RawSignal| raw_link(r))
}

/// The flags of raw signals (those of valid indicators).
pub open spec fn raw_flags(raws: Seq<RawSignal>) -> Seq<SignalMuxFlag> {
    raws.map_values(|r: RawSignal| mux_flag_of(r.multiplexer_indicator).unwrap())
}

/// The index of the first link whose switch names no link of `ls`, or -1.
pub open spec fn first_unresolved(ls: Seq<Link>) -> int {
    if exists|i: int| 0 <= i < ls.len() && !resolves(ls, #[trigger] ls[i]) {
        choose|i: int|
            0 <= i < ls.len() && !resolves(ls, #[trigger] ls[i]) && forall|j: int|
                0 <= j < i ==> resolves(ls, #[trigger] ls[j])
    } else {
        -1
    }
}

/// The index of the first link whose chain of switches loops, or -1.
pub open spec fn first_looping(ls: Seq<Link>) -> int {
    if exists|i: int| 0 <= i < ls.len() && !chain_terminates(ls, #[trigger] ls[i]) {
        choose|i: int|
            0 <= i < ls.len() && !chain_terminates(ls, #[trigger] ls[i]) && forall|j: int|
                0 <= j < i ==> chain_terminates(ls, #[trigger] ls[j])
    } else {
        -1
    }
}

/// The views of a sequence of strings.
pub open spec fn string_views(v: Seq<String>) -> Seq<Seq<char>> {
    v.map_values(|x: String| x@)
}

/// The signals of a message, with links `ls` and flags `flags`, pass the
/// checks of the message as a whole.
pub open spec fn message_checks_pass(ls: Seq<Link>, flags: Seq<SignalMuxFlag>) -> bool {
    &&& first_unresolved(ls) == -1
    &&& first_looping(ls) == -1
    &&& !uses_extended_mux(ls) ==> simple_tree_error(flags) is None
}

/// `e` is the error of the checks of a message whose signals have links `ls`
/// and flags `flags`: an unknown switch first, then a loop of switches, then
/// the decision tree.
pub open spec fn message_checks_error(ls: Seq<Link>, flags: Seq<SignalMuxFlag>, e: DbcError) -> bool {
    if first_unresolved(ls) >= 0 {
        let l = ls[first_unresolved(ls)];
        &&& e is InvalidMuxSwitch
        &&& e->signal@ == l.0
        &&& e->switch@ == l.1.unwrap()
    } else if first_looping(ls) >= 0 {
        &&& e is MuxCycle
        &&& exists|m: nat|
            cycles_at(ls, ls[first_looping(ls)], m) && string_views(e->path@) == cycle_names(
                ls,
                ls[first_looping(ls)],
                m,
            )
    } else {
        !uses_extended_mux(ls) && simple_tree_error(flags) == Some(e)
    }
}

/// The checks of a message either pass or give an error, never both.
pub proof fn lemma_checks_exclusive(ls: Seq<Link>, flags: Seq<SignalMuxFlag>, e: DbcError)
    ensures
        !(message_checks_pass(ls, flags) && message_checks_error(ls, flags, e)),
{
}

/// The validated signals have the links and flags of the raw ones.
pub proof fn lemma_signals_from_raws_shape(raws: Seq<RawSignal>, sigs: Seq<Signal>)
    requires
        signals_from_raws(raws, sigs),
    ensures
        links(sigs) == raw_links(raws),
        mux_flags(sigs) == raw_flags(raws),
{
    assert forall|i: int| 0 <= i < raws.len() implies links(sigs)[i] == raw_links(raws)[i]
        && mux_flags(sigs)[i] == raw_flags(raws)[i] by {
        assert(signal_from_raw(raws[i], sigs[i]));
    }
    assert(links(sigs) =~= raw_links(raws));
    assert(mux_flags(sigs) =~= raw_flags(raws));
}

proof fn lemma_first_bad_raw(raws: Seq<RawSignal>, i: int)
    requires
        0 <= i < raws.len(),
        raw_signal_error(raws[i]) is Some,
        forall|j: int| 0 <= j < i ==> raw_signal_error(#[trigger] raws[j]) is None,
    ensures
        first_bad_raw(raws) == i,
{
    let c = first_bad_raw(raws);
    assert(0 <= c < raws.len() && raw_signal_error(raws[c]) is Some);
    if c < i {
        assert(raw_signal_error(raws[c]) is None);
    } else if i < c {
        assert(raw_signal_error(raws[i]) is None);
    }
}

proof fn lemma_first_unresolved(sigs: Seq<Link>, i: int)
    requires
        0 <= i < sigs.len(),
        !resolves(sigs, sigs[i]),
        forall|j: int| 0 <= j < i ==> resolves(sigs, #[trigger] sigs[j]),
    ensures
        first_unresolved(sigs) == i,
{
    let c = first_unresolved(sigs);
    assert(0 <= c < sigs.len() && !resolves(sigs, sigs[c]));
    if c < i {
        assert(resolves(sigs, sigs[c]));
    } else if i < c {
        assert(resolves(sigs, sigs[i]));
    }
}

proof fn lemma_first_looping(sigs: Seq<Link>, i: int)
    requires
        0 <= i < sigs.len(),
        !chain_terminates(sigs, sigs[i]),
        forall|j: int| 0 <= j < i ==> chain_terminates(sigs, #[trigger] sigs[j]),
    ensures
        first_looping(sigs) == i,
{
    let c = first_looping(sigs);
    assert(0 <= c < sigs.len() && !chain_terminates(sigs, sigs[c]));
    if c < i {
        assert(chain_terminates(sigs, sigs[c]));
    } else if i < c {
        assert(chain_terminates(sigs, sigs[i]));
    }
}

proof fn lemma_cycle_not_terminating(sigs: Seq<Link>, s: Link, m: nat)
    requires
        cycles_at(sigs, s, m),
    ensures
        !chain_terminates(sigs, s),
{
    if chain_terminates(sigs, s) {
        let a = choose|a: nat| terminates_at(sigs, s, a);
        cycles::lemma_chain_outcome_unique(sigs, s, a, m);
    }
}

fn strs_to_strings(v: &Vec<&str>) -> (res: Vec<String>)
    ensures
        string_views(res@) == cycles::str_views(v@),
{
    let mut res: Vec<String> = Vec::new();
    let n = v.len();
    for i in 0..n
        invariant
            n == v@.len(),
            res@.len() == i,
            forall|j: int| 0 <= j < i ==> (#[trigger] res@[j])@ == v@[j]@,
    {
        res.push(v[i].to_owned());
    }
    assert(string_views(res@) == cycles::str_views(v@));
    res
}

/// The index of the first multiplexer switch, if any.
pub(crate) fn find_first_switch(signals: &[Signal]) -> (res: Option<usize>)
    ensures
        res == first_switch(mux_flags(signals@)),
{
    let n = signals.len();
    for i in 0..n
        invariant
            n == signals@.len(),
            forall|j: int| 0 <= j < i ==> signals@[j].mux_flag != SignalMuxFlag::Switch,
    {
        if signals[i].mux_flag == SignalMuxFlag::Switch {
            proof {
                assert(switch_at(mux_flags(signals@), i as int));
                let c = choose|c: int| switch_at(mux_flags(signals@), c);
                if c < i {
                } else if i < c {
                    assert(signals@[i as int].mux_flag != SignalMuxFlag::Switch);
                }
            }
            return Some(i);
        }
    }
    None
}

impl Message {
    /// What decoding relies on: the switches exist and never loop, and
    /// `mux_signal` is the first multiplexer switch.
    pub open spec fn wf(&self) -> bool {
        &&& mux_acyclic(links(self.signals@))
        &&& self.mux_signal == first_switch(mux_flags(self.signals@))
    }

    /// Validates a raw message: its signals one by one, then the switches of
    /// extended multiplexing (that they exist and never loop), then builds its
    /// decision tree.
    pub fn new(raw: RawMessage) -> (res: Result<Message, DbcError>)
        ensures
            res is Ok <==> raw_message_ok(raw),
            res matches Ok(msg) ==> message_from_raw(raw, msg),
            res matches Err(e) ==> raw_message_error(raw, e),
    {
        let ghost raws = raw.signals@;
        let RawMessage { id, name, size, signals: raw_signals } = raw;
        let mut raw_signals = raw_signals;
        let n = raw_signals.len();
        let mut signals: Vec<Signal> = Vec::with_capacity(n);
        let mut idx: usize = 0;
        while idx < n
            invariant
                raws == raw.signals@,
                n == raws.len(),
                idx <= n,
                raw_signals@ == raws.skip(idx as int),
                signals@.len() == idx,
                forall|i: int| 0 <= i < idx ==> signal_from_raw(#[trigger] raws[i], signals@[i]),
                forall|i: int| 0 <= i < idx ==> raw_signal_error(#[trigger] raws[i]) is None,
            decreases n - idx,
        {
            let rs = raw_signals.remove(0);
            assert(rs == raws[idx as int]);
            assert(raws.skip(idx as int).remove(0) == raws.skip(idx + 1));
            match Signal::new(rs) {
                Ok(sig) => {
                    signals.push(sig);
                },
                Err(e) => {
                    proof {
                        assert(raw_signal_error(raws[idx as int]) is Some);
                        lemma_first_bad_raw(raws, idx as int);
                    }
                    return Err(DbcError::InvalidSignalAt { index: idx, source: Box::new(e) });
                },
            }
            idx = idx + 1;
        }
        proof {
            if first_bad_raw(raws) >= 0 {
                let b = first_bad_raw(raws);
                assert(raw_signal_error(raws[b]) is Some);
            }
            assert(signals_from_raws(raws, signals@));
            lemma_signals_from_raws_shape(raws, signals@);
        }
        let ghost sigs = signals@;
        let ghost ls = links(sigs);
        let ghost flags = mux_flags(sigs);
        // every switch names a signal of the message
        for i in 0..n
            invariant
                raws == raw.signals@,
                n == sigs.len(),
                sigs == signals@,
                ls == links(sigs),
                ls == raw_links(raws),
                flags == raw_flags(raws),
                flags == mux_flags(sigs),
                signals_from_raws(raws, sigs),
                first_bad_raw(raws) == -1,
                forall|j: int| 0 <= j < i ==> resolves(ls, #[trigger] ls[j]),
        {
            match &signals[i].ex_mux_parent {
                None => {
                    assert(resolves(ls, ls[i as int]));
                },
                Some(info) => {
                    if find_signal(signals.as_slice(), &info.switch).is_none() {
                        proof {
                            assert(!resolves(ls, ls[i as int]));
                            lemma_first_unresolved(ls, i as int);
                        }
                        let e = DbcError::InvalidMuxSwitch {
                            signal: signals[i].name.clone(),
                            switch: info.switch.clone(),
                        };
                        assert(message_checks_error(ls, flags, e));
                        return Err(e);
                    }
                },
            }
        }
        proof {
            assert(first_unresolved(ls) == -1);
        }
        // the switches never loop
        proof {
            assert forall|i: int| 0 <= i < sigs.len() implies cycles::walk_resolves(ls, #[trigger] ls[i]) by {
                cycles::lemma_resolving_walks(ls, ls[i]);
            }
        }
        match find_cycle(signals.as_slice()) {
            Some(stack) => {
                let path = strs_to_strings(&stack);
                proof {
                    let (i, m) = choose|i: int, m: nat|
                        0 <= i < sigs.len() && (forall|j: int|
                            0 <= j < i ==> chain_terminates(ls, #[trigger] ls[j]))
                            && cycles_at(ls, ls[i], m) && cycles::str_views(stack@)
                            == cycle_names(ls, ls[i], m);
                    lemma_cycle_not_terminating(ls, ls[i], m);
                    lemma_first_looping(ls, i);
                    assert(string_views(path@) == cycle_names(ls, ls[i], m));
                }
                let e = DbcError::MuxCycle { path };
                assert(message_checks_error(ls, flags, e));
                return Err(e);
            },
            None => {},
        }
        proof {
            lemma_terminating_chains_acyclic(ls);
            assert(first_looping(ls) == -1);
        }
        let mux_signal = find_first_switch(signals.as_slice());
        let mut msg = Message {
            id,
            name,
            payload_size: size,
            signals,
            no_mux_signals: Vec::new(),
            decision_tree: Vec::new(),
            mux_signal,
        };
        match create_decision_tree(&msg) {
            Ok(tree) => {
                msg.no_mux_signals = tree.no_mux_signals;
                msg.decision_tree = tree.top_mux_signals;
                Ok(msg)
            },
            Err(e) => {
                assert(message_checks_error(ls, flags, e));
                Err(e)
            },
        }
    }

    /// The decision tree that the message holds.
    pub open spec fn tree(&self) -> DecisionTree {
        DecisionTree { no_mux_signals: self.no_mux_signals, top_mux_signals: self.decision_tree }
    }
}

/// Law: validating a raw message keeps its identifier, name and size, keeps
/// its signals in order, each validated as `Signal::new` validates it, and
/// lists as always decoded exactly the signals that are not multiplexed, in
/// increasing order.
pub proof fn lemma_message_from_raw_keeps_the_description(raw: RawMessage, msg: Message)
    requires
        message_from_raw(raw, msg),
    ensures
        msg.id == raw.id,
        msg.name@ == raw.name@,
        msg.payload_size == raw.size,
        msg.signals@.len() == raw.signals@.len(),
        forall|i: int| 0 <= i < raw.signals@.len() ==> signal_from_raw(#[trigger] raw.signals@[i], msg.signals@[i]),
        forall|i: int|
            0 <= i < msg.signals@.len() ==> (msg.no_mux_signals@.contains(i as usize) <==> (#[trigger] msg.signals@[i]).mux_flag
                == SignalMuxFlag::NoMux),
        forall|a: int, b: int|
            0 <= a < b < msg.no_mux_signals@.len() ==> msg.no_mux_signals@[a] < msg.no_mux_signals@[b],
{
    let n = msg.signals@.len() as int;
    let flags = mux_flags(msg.signals@);
    assert(msg.signals@.len() == msg.signals.len());
    crate::decision_tree::lemma_flag_indices_contains(flags, SignalMuxFlag::NoMux, n);
    assert forall|i: int| 0 <= i < n implies (msg.no_mux_signals@.contains(i as usize) <==> (#[trigger] msg.signals@[i]).mux_flag
        == SignalMuxFlag::NoMux) by {
        assert(flags[i] == msg.signals@[i].mux_flag);
    }
}

/// A raw message passes validation.
pub open spec fn raw_message_ok(raw: RawMessage) -> bool {
    &&& first_bad_raw(raw.signals@) == -1
    &&& message_checks_pass(raw_links(raw.signals@), raw_flags(raw.signals@))
}

/// `msg` is the validated form of `raw`.
pub open spec fn message_from_raw(raw: RawMessage, msg: Message) -> bool {
    &&& msg.id == raw.id
    &&& msg.name == raw.name
    &&& msg.payload_size == raw.size
    &&& signals_from_raws(raw.signals@, msg.signals@)
    &&& msg.wf()
    &&& msg.no_mux_signals@ == flag_indices(mux_flags(msg.signals@), SignalMuxFlag::NoMux, msg.signals@.len() as int)
    &&& if uses_extended_mux(links(msg.signals@)) {
        is_extended_tree(msg.signals@, msg.tree())
    } else {
        is_simple_tree(msg.signals@, msg.tree())
    }
}

/// `e` is the error of validating `raw`: that of its first invalid signal,
/// else that of the checks of the message as a whole.
pub open spec fn raw_message_error(raw: RawMessage, e: DbcError) -> bool {
    let b = first_bad_raw(raw.signals@);
    if b >= 0 {
        e == (DbcError::InvalidSignalAt {
            index: b as usize,
            source: Box::new(raw_signal_error(raw.signals@[b]).unwrap()),
        })
    } else {
        message_checks_error(raw_links(raw.signals@), raw_flags(raw.signals@), e)
    }
}

/// The index of the first raw message that fails validation, or -1.
pub open spec fn first_bad_message(raws: Seq<RawMessage>) -> int {
    if exists|i: int| 0 <= i < raws.len() && !raw_message_ok(#[trigger] raws[i]) {
        choose|i: int|
            0 <= i < raws.len() && !raw_message_ok(#[trigger] raws[i]) && forall|j: int|
                0 <= j < i ==> raw_message_ok(#[trigger] raws[j])
    } else {
        -1
    }
}

/// The messages of a network.
#[derive(Debug)]
pub struct Dbc {
    messages: Vec<Message>,
}

impl View for Dbc {
    type V = Seq<Message>;

    closed spec fn view(&self) -> Seq<Message> {
        self.messages@
    }
}

impl Dbc {
    /// Validates the messages of a network, in order; the first invalid one
    /// gives the error.
    pub fn new(raw: Vec<RawMessage>) -> (res: Result<Dbc, DbcError>)
        ensures
            res is Ok <==> forall|i: int| 0 <= i < raw@.len() ==> raw_message_ok(#[trigger] raw@[i]),
            res matches Ok(dbc) ==> {
                &&& dbc@.len() == raw@.len()
                &&& forall|i: int| 0 <= i < raw@.len() ==> message_from_raw(#[trigger] raw@[i], dbc@[i])
            },
            res matches Err(e) ==> {
                let b = first_bad_message(raw@);
                &&& 0 <= b < raw@.len()
                &&& e matches DbcError::InvalidMessageAt { index, source }
                &&& index == b
                &&& raw_message_error(raw@[b], *source)
            },
    {
        let ghost raws = raw@;
        let mut rest = raw;
        let n = rest.len();
        let mut messages: Vec<Message> = Vec::with_capacity(n);
        let mut idx: usize = 0;
        while idx < n
            invariant
                raws == raw@,
                n == raws.len(),
                idx <= n,
                rest@ == raws.skip(idx as int),
                messages@.len() == idx,
                forall|i: int| 0 <= i < idx ==> message_from_raw(#[trigger] raws[i], messages@[i]),
                forall|i: int| 0 <= i < idx ==> raw_message_ok(#[trigger] raws[i]),
            decreases n - idx,
        {
            let rm = rest.remove(0);
            assert(rm == raws[idx as int]);
            assert(raws.skip(idx as int).remove(0) == raws.skip(idx + 1));
            match Message::new(rm) {
                Ok(msg) => {
                    messages.push(msg);
                },
                Err(e) => {
                    proof {
                        let c = first_bad_message(raws);
                        assert(!raw_message_ok(raws[idx as int]));
                        assert(0 <= c < raws.len() && !raw_message_ok(raws[c]));
                        if c < idx {
                            assert(raw_message_ok(raws[c]));
                        } else if idx < c {
                            assert(raw_message_ok(raws[idx as int]));
                        }
                    }
                    return Err(DbcError::InvalidMessageAt { index: idx, source: Box::new(e) });
                },
            }
            idx = idx + 1;
        }
        Ok(Dbc { messages })
    }

    /// The messages, in the order of the network description.
    pub fn messages(&self) -> (res: &Vec<Message>)
        ensures
            res@ == self@,
    {
        &self.messages
    }
}

} // verus!
