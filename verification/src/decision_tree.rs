//! Decision trees of multiplexing: which signals a message always carries,
//! and which the values of its multiplexer switches enable.
use vstd::prelude::*;
use crate::dbc::{
    Message, Signal, SignalMuxFlag, ValueRange, mux_acyclic, mux_ranks, valid_ranks,
    lemma_acyclic_resolves, first_switch, switch_at, find_first_switch,
};
use crate::dbc::cycles::{Link, link_of, links, first_named, find_signal, has_parent, switch_of};
use crate::error::DbcError;

verus! {

/// All the indexes in these structs point to the signals array of the owning message.
#[derive(Debug)]
pub struct DecisionTree {
    /// decode these unconditionally
    pub no_mux_signals: Vec<usize>,
    /// walk this tree and decode all enabled signals
    pub top_mux_signals: Vec<MuxSignal>,
}

/// A multiplexer and the decisions on its value.
#[derive(Debug)]
pub struct MuxSignal {
    /// index into the signals array of the Message owning this tree
    pub multiplexer_signal: usize,
    pub decisions: Vec<Decision>,
}

/// A range of a multiplexer's value and the subtree that it enables.
#[derive(Debug)]
pub struct Decision {
    /// inclusive range
    pub min_val: u64,
    pub max_val: u64,
    /// The signal that this decision will enable
    pub target_signal: MuxSignal,
}

/// The multiplexing flags of a sequence of signals.
pub open spec fn mux_flags(signals: Seq<Signal>) -> Seq<SignalMuxFlag> {
    signals.map_values(|s: Signal| s.mux_flag)
}

/// The indices below `k` of the flags equal to `f`, in order.
pub open spec fn flag_indices(flags: Seq<SignalMuxFlag>, f: SignalMuxFlag, k: int) -> Seq<usize>
    decreases k,
{
    if k <= 0 {
        seq![]
    } else if flags[k - 1] == f {
        flag_indices(flags, f, k - 1).push((k - 1) as usize)
    } else {
        flag_indices(flags, f, k - 1)
    }
}

/// The error, if any, of the decision tree of a message without extended
/// multiplexing, whose signals have the flags `flags`.
pub open spec fn simple_tree_error(flags: Seq<SignalMuxFlag>) -> Option<DbcError> {
    let switches = flag_indices(flags, SignalMuxFlag::Switch, flags.len() as int);
    let values = flag_indices(flags, SignalMuxFlag::Value, flags.len() as int);
    if switches.len() >= 2 {
        Some(DbcError::MultipleMultiplexers)
    } else if switches.len() == 0 && values.len() > 0 {
        Some(DbcError::MissingMultiplexer)
    } else {
        None
    }
}

/// `tree` is the decision tree of `signals` without extended multiplexing: the
/// switch, if any, decides on each multiplexed signal by its single value.
pub open spec fn is_simple_tree(signals: Seq<Signal>, tree: DecisionTree) -> bool {
    let n = signals.len() as int;
    let flags = mux_flags(signals);
    let switches = flag_indices(flags, SignalMuxFlag::Switch, n);
    let values = flag_indices(flags, SignalMuxFlag::Value, n);
    &&& tree.no_mux_signals@ == flag_indices(flags, SignalMuxFlag::NoMux, n)
    &&& if switches.len() == 0 {
        tree.top_mux_signals@.len() == 0
    } else {
        &&& tree.top_mux_signals@.len() == 1
        &&& tree.top_mux_signals@[0].multiplexer_signal == switches[0]
        &&& tree.top_mux_signals@[0].decisions@.len() == values.len()
        &&& forall|j: int|
            0 <= j < values.len() ==> {
                let d = #[trigger] tree.top_mux_signals@[0].decisions@[j];
                &&& d.min_val == signals[values[j] as int].mux_value
                &&& d.max_val == signals[values[j] as int].mux_value
                &&& d.target_signal.multiplexer_signal == values[j]
                &&& d.target_signal.decisions@.len() == 0
            }
    }
}

/// The entries of `flag_indices` are indices below `k` with flag `f`.
pub proof fn lemma_flag_indices_bounded(flags: Seq<SignalMuxFlag>, f: SignalMuxFlag, k: int)
    requires
        k <= flags.len(),
        k <= usize::MAX,
    ensures
        forall|j: int|
            0 <= j < flag_indices(flags, f, k).len() ==> {
                let i = #[trigger] flag_indices(flags, f, k)[j];
                &&& i < k
                &&& flags[i as int] == f
            },
    decreases k,
{
    if k > 0 {
        lemma_flag_indices_bounded(flags, f, k - 1);
        let prev = flag_indices(flags, f, k - 1);
        if flags[k - 1] == f {
            assert(flag_indices(flags, f, k) == prev.push((k - 1) as usize));
        } else {
            assert(flag_indices(flags, f, k) == prev);
        }
    }
}

/// Where the flags of the first `k` signals are in `flag_indices`, in increasing order.
pub proof fn lemma_flag_indices_contains(flags: Seq<SignalMuxFlag>, f: SignalMuxFlag, k: int)
    requires
        0 <= k <= flags.len(),
        k <= usize::MAX,
    ensures
        forall|i: int|
            0 <= i < k ==> (flag_indices(flags, f, k).contains(i as usize) <==> flags[i] == f),
        forall|a: int, b: int|
            0 <= a < b < flag_indices(flags, f, k).len() ==> flag_indices(flags, f, k)[a]
                < flag_indices(flags, f, k)[b],
    decreases k,
{
    lemma_flag_indices_bounded(flags, f, k);
    if k > 0 {
        lemma_flag_indices_contains(flags, f, k - 1);
        lemma_flag_indices_bounded(flags, f, k - 1);
        let prev = flag_indices(flags, f, k - 1);
        let cur = flag_indices(flags, f, k);
        assert forall|i: int| 0 <= i < k implies (cur.contains(i as usize) <==> flags[i] == f) by {
            if flags[k - 1] == f {
                assert(cur == prev.push((k - 1) as usize));
                if i < k - 1 {
                    if cur.contains(i as usize) {
                        let j = choose|j: int| 0 <= j < cur.len() && cur[j] == i as usize;
                        if j < prev.len() {
                            assert(prev[j] == i as usize);
                        }
                    }
                    if prev.contains(i as usize) {
                        let j = choose|j: int| 0 <= j < prev.len() && prev[j] == i as usize;
                        assert(cur[j] == i as usize);
                    }
                } else {
                    assert(cur[prev.len() as int] == (k - 1) as usize);
                }
            } else {
                assert(cur == prev);
                if i == k - 1 && cur.contains(i as usize) {
                    let j = choose|j: int| 0 <= j < prev.len() && prev[j] == i as usize;
                }
            }
        }
        if flags[k - 1] == f {
            assert(cur == prev.push((k - 1) as usize));
        } else {
            assert(cur == prev);
        }
    }
}

/// Builds the decision tree of a message without extended multiplexing.
pub fn create_simple_decision_tree(msg: &Message) -> (res: Result<DecisionTree, DbcError>)
    ensures
        match res {
            Ok(tree) => simple_tree_error(mux_flags(msg.signals@)) is None && is_simple_tree(
                msg.signals@,
                tree,
            ),
            Err(e) => simple_tree_error(mux_flags(msg.signals@)) == Some(e),
        },
{
    let ghost sigs = msg.signals@;
    let ghost flags = mux_flags(sigs);
    let n = msg.signals.len();
    let mut no_mux_signals: Vec<usize> = Vec::with_capacity(n);
    let mut switch_idx: Option<usize> = None;
    let mut decisions: Vec<Decision> = Vec::new();
    for idx in 0..n
        invariant
            n == sigs.len(),
            sigs == msg.signals@,
            flags == mux_flags(sigs),
            no_mux_signals@ == flag_indices(flags, SignalMuxFlag::NoMux, idx as int),
            flag_indices(flags, SignalMuxFlag::Switch, idx as int).len() <= 1,
            match switch_idx {
                None => flag_indices(flags, SignalMuxFlag::Switch, idx as int).len() == 0,
                Some(s) => flag_indices(flags, SignalMuxFlag::Switch, idx as int) == seq![s],
            },
            decisions@.len() == flag_indices(flags, SignalMuxFlag::Value, idx as int).len(),
            forall|j: int|
                0 <= j < decisions@.len() ==> {
                    let v = flag_indices(flags, SignalMuxFlag::Value, idx as int)[j];
                    let d = #[trigger] decisions@[j];
                    &&& d.min_val == sigs[v as int].mux_value
                    &&& d.max_val == sigs[v as int].mux_value
                    &&& d.target_signal.multiplexer_signal == v
                    &&& d.target_signal.decisions@.len() == 0
                },
    {
        let sig = &msg.signals[idx];
        match sig.mux_flag {
            SignalMuxFlag::Switch => {
                if switch_idx.is_some() {
                    proof {
                        let k = (idx + 1) as int;
                        assert(flag_indices(flags, SignalMuxFlag::Switch, k).len() == 2);
                        lemma_switch_count_monotone(flags, k, n as int);
                    }
                    return Err(DbcError::MultipleMultiplexers);
                } else {
                    switch_idx = Some(idx);
                }
            },
            SignalMuxFlag::Value => {
                decisions.push(
                    Decision {
                        min_val: sig.mux_value,
                        max_val: sig.mux_value,
                        target_signal: MuxSignal { multiplexer_signal: idx, decisions: Vec::new() },
                    },
                );
            },
            SignalMuxFlag::NoMux => {
                no_mux_signals.push(idx);
            },
        }
    }
    match switch_idx {
        None => {
            if decisions.len() == 0 {
                Ok(DecisionTree { no_mux_signals, top_mux_signals: Vec::new() })
            } else {
                Err(DbcError::MissingMultiplexer)
            }
        },
        Some(multiplexer_signal) => {
            let mut top_mux_signals: Vec<MuxSignal> = Vec::new();
            top_mux_signals.push(MuxSignal { multiplexer_signal, decisions });
            Ok(DecisionTree { no_mux_signals, top_mux_signals })
        },
    }
}

/// Signal `c` has an extended multiplexer whose switch is signal `m`, and names
/// at least one range of it.
pub open spec fn switched_by(signals: Seq<Signal>, m: int, c: int) -> bool {
    &&& has_parent(link_of(signals[c]))
    &&& first_named(links(signals), switch_of(link_of(signals[c]))) == m
    &&& signals[c].ex_mux_parent.unwrap().ranges@.len() > 0
}

/// The signals among the first `k` that signal `m` switches, in order, each
/// with its first range: a frame carries such a signal only where the value of
/// `m` lies in that range.
pub open spec fn mux_children(signals: Seq<Signal>, m: int, k: int) -> Seq<(usize, ValueRange)>
    decreases k,
{
    if k <= 0 {
        seq![]
    } else if switched_by(signals, m, k - 1) {
        mux_children(signals, m, k - 1).push(
            ((k - 1) as usize, signals[k - 1].ex_mux_parent.unwrap().ranges@[0]),
        )
    } else {
        mux_children(signals, m, k - 1)
    }
}

/// `node` is the subtree of multiplexer `m`: one decision for each signal that
/// `m` switches, on its first range, leading to that signal's own subtree.
pub open spec fn is_mux_node(signals: Seq<Signal>, node: MuxSignal, m: int) -> bool
    decreases node,
{
    let cs = mux_children(signals, m, signals.len() as int);
    &&& node.multiplexer_signal == m
    &&& node.decisions@.len() == cs.len()
    &&& forall|j: int|
        0 <= j < cs.len() ==> {
            let d = #[trigger] node.decisions@[j];
            &&& d.min_val == cs[j].1.from
            &&& d.max_val == cs[j].1.to
            &&& is_mux_node(signals, d.target_signal, cs[j].0 as int)
        }
}

/// The indices below `k` at which `p` holds, in increasing order.
pub open spec fn indices_where(p: spec_fn(int) -> bool, k: int) -> Seq<usize>
    decreases k,
{
    if k <= 0 {
        seq![]
    } else if p(k - 1) {
        indices_where(p, k - 1).push((k - 1) as usize)
    } else {
        indices_where(p, k - 1)
    }
}

/// Signal `t` heads extended multiplexing: it has no extended multiplexer
/// itself and switches some signal.
pub open spec fn is_root_mux(signals: Seq<Signal>, t: int) -> bool {
    &&& !has_parent(link_of(signals[t]))
    &&& mux_children(signals, t, signals.len() as int).len() > 0
}

/// The indices below `k` of the top multiplexers of an extended tree: the
/// signals that head extended multiplexing, and the other switches.
pub open spec fn root_switches(signals: Seq<Signal>, k: int) -> Seq<usize> {
    indices_where(
        |t: int| is_root_mux(signals, t) || signals[t].mux_flag == SignalMuxFlag::Switch,
        k,
    )
}

/// `node` is the top node of multiplexer `t` in an extended tree: its subtree
/// where `t` heads extended multiplexing, else `t` alone, so that a walk
/// reaches a switch whatever the values.
pub open spec fn is_top_node(signals: Seq<Signal>, node: MuxSignal, t: int) -> bool {
    if is_root_mux(signals, t) {
        is_mux_node(signals, node, t)
    } else {
        &&& node.multiplexer_signal == t
        &&& node.decisions@.len() == 0
    }
}

/// The indices below `k` of the multiplexed signals without an extended multiplexer.
pub open spec fn plain_values(signals: Seq<Signal>, k: int) -> Seq<usize> {
    indices_where(
        |i: int| signals[i].mux_flag == SignalMuxFlag::Value && !has_parent(link_of(signals[i])),
        k,
    )
}

/// `node` is the subtree of the message's switch `m` in a message with
/// extended multiplexing: it decides on each multiplexed signal without an
/// extended multiplexer by its single value.
pub open spec fn is_plain_node(signals: Seq<Signal>, node: MuxSignal, m: int) -> bool {
    let vs = plain_values(signals, signals.len() as int);
    &&& node.multiplexer_signal == m
    &&& node.decisions@.len() == vs.len()
    &&& forall|j: int|
        0 <= j < vs.len() ==> {
            let d = #[trigger] node.decisions@[j];
            &&& d.min_val == signals[vs[j] as int].mux_value
            &&& d.max_val == signals[vs[j] as int].mux_value
            &&& d.target_signal.multiplexer_signal == vs[j]
            &&& d.target_signal.decisions@.len() == 0
        }
}

/// `tree` is the decision tree of `signals` with extended multiplexing: the
/// signals that are not multiplexed, the top node of each top multiplexer,
/// and last, where the message has a switch and multiplexed signals without
/// an extended multiplexer, the switch's subtree.
pub open spec fn is_extended_tree(signals: Seq<Signal>, tree: DecisionTree) -> bool {
    let n = signals.len() as int;
    let roots = root_switches(signals, n);
    let sw = first_switch(mux_flags(signals));
    &&& tree.no_mux_signals@ == flag_indices(mux_flags(signals), SignalMuxFlag::NoMux, n)
    &&& forall|j: int|
        0 <= j < roots.len() ==> is_top_node(signals, #[trigger] tree.top_mux_signals@[j], roots[j] as int)
    &&& if sw is Some && plain_values(signals, n).len() > 0 {
        &&& tree.top_mux_signals@.len() == roots.len() + 1
        &&& is_plain_node(signals, tree.top_mux_signals@[roots.len() as int], sw.unwrap() as int)
    } else {
        tree.top_mux_signals@.len() == roots.len()
    }
}

/// `a` and `b` are the same subtree: the same multiplexer, and the same
/// decisions leading to the same subtrees.
pub open spec fn same_node(a: MuxSignal, b: MuxSignal) -> bool
    decreases a,
{
    &&& a.multiplexer_signal == b.multiplexer_signal
    &&& a.decisions@.len() == b.decisions@.len()
    &&& forall|j: int|
        0 <= j < a.decisions@.len() ==> {
            let (x, y) = (#[trigger] a.decisions@[j], b.decisions@[j]);
            &&& x.min_val == y.min_val
            &&& x.max_val == y.max_val
            &&& same_node(x.target_signal, y.target_signal)
        }
}

/// `a` and `b` are the same decision tree.
pub open spec fn same_tree(a: DecisionTree, b: DecisionTree) -> bool {
    &&& a.no_mux_signals@ == b.no_mux_signals@
    &&& a.top_mux_signals@.len() == b.top_mux_signals@.len()
    &&& forall|j: int|
        0 <= j < a.top_mux_signals@.len() ==> same_node(
            #[trigger] a.top_mux_signals@[j],
            b.top_mux_signals@[j],
        )
}

/// The subtree of a multiplexer is unique.
pub proof fn lemma_mux_node_unique(signals: Seq<Signal>, a: MuxSignal, b: MuxSignal, m: int)
    requires
        is_mux_node(signals, a, m),
        is_mux_node(signals, b, m),
    ensures
        same_node(a, b),
    decreases a,
{
    let cs = mux_children(signals, m, signals.len() as int);
    assert forall|j: int| 0 <= j < a.decisions@.len() implies {
        let (x, y) = (#[trigger] a.decisions@[j], b.decisions@[j]);
        &&& x.min_val == y.min_val
        &&& x.max_val == y.max_val
        &&& same_node(x.target_signal, y.target_signal)
    } by {
        let x = a.decisions@[j];
        let y = b.decisions@[j];
        assert(is_mux_node(signals, x.target_signal, cs[j].0 as int));
        assert(is_mux_node(signals, y.target_signal, cs[j].0 as int));
        lemma_mux_node_unique(signals, x.target_signal, y.target_signal, cs[j].0 as int);
    }
}

/// Law: the decision tree of a message with extended multiplexing is unique,
/// so that every builder that meets `is_extended_tree` builds the same tree.
pub proof fn lemma_extended_tree_unique(signals: Seq<Signal>, a: DecisionTree, b: DecisionTree)
    requires
        is_extended_tree(signals, a),
        is_extended_tree(signals, b),
    ensures
        same_tree(a, b),
{
    let roots = root_switches(signals, signals.len() as int);
    assert forall|j: int| 0 <= j < a.top_mux_signals@.len() implies same_node(
        #[trigger] a.top_mux_signals@[j],
        b.top_mux_signals@[j],
    ) by {
        if j < roots.len() && is_root_mux(signals, roots[j] as int) {
            lemma_mux_node_unique(signals, a.top_mux_signals@[j], b.top_mux_signals@[j], roots[j] as int);
        } else if j < roots.len() {
        } else {
            let x = a.top_mux_signals@[j];
            let y = b.top_mux_signals@[j];
            assert forall|q: int| 0 <= q < x.decisions@.len() implies {
                let (dx, dy) = (#[trigger] x.decisions@[q], y.decisions@[q]);
                &&& dx.min_val == dy.min_val
                &&& dx.max_val == dy.max_val
                &&& same_node(dx.target_signal, dy.target_signal)
            } by {
                let dx = x.decisions@[q];
                let dy = y.decisions@[q];
                assert(dx.target_signal.decisions@.len() == 0);
                assert(dy.target_signal.decisions@.len() == 0);
            }
        }
    }
}

/// Some signal has an extended multiplexer.
pub open spec fn uses_extended_mux(links: Seq<Link>) -> bool {
    exists|i: int| 0 <= i < links.len() && has_parent(#[trigger] links[i])
}

/// Builds the subtree of multiplexer `m`.
fn create_mux_signal(signals: &[Signal], m: usize) -> (node: MuxSignal)
    requires
        mux_acyclic(links(signals@)),
        m < signals@.len(),
    ensures
        is_mux_node(signals@, node, m as int),
    decreases signals@.len() - mux_ranks(links(signals@))[m as int],
{
    proof {
        lemma_acyclic_resolves(links(signals@));
    }
    let ghost sigs = signals@;
    let ghost r = mux_ranks(links(sigs));
    let n = signals.len();
    let mut decisions: Vec<Decision> = Vec::new();
    for i in 0..n
        invariant
            n == sigs.len(),
            sigs == signals@,
            r == mux_ranks(links(sigs)),
            valid_ranks(links(sigs), r),
            mux_acyclic(links(sigs)),
            m < n,
            decisions@.len() == mux_children(sigs, m as int, i as int).len(),
            forall|j: int|
                0 <= j < decisions@.len() ==> {
                    let c = mux_children(sigs, m as int, i as int)[j];
                    let d = #[trigger] decisions@[j];
                    &&& d.min_val == c.1.from
                    &&& d.max_val == c.1.to
                    &&& is_mux_node(sigs, d.target_signal, c.0 as int)
                },
    {
        let ghost before = mux_children(sigs, m as int, i as int);
        match &signals[i].ex_mux_parent {
            None => {
                assert(mux_children(sigs, m as int, i + 1) == before);
            },
            Some(info) => {
                let p = find_signal(signals, &info.switch);
                let is_child = match p {
                    Some(p) => p == m,
                    None => false,
                };
                if is_child && info.ranges.len() > 0 {
                    assert(switched_by(sigs, m as int, i as int));
                    let ghost added = ((i, info.ranges@[0]));
                    assert(mux_children(sigs, m as int, i + 1) == before.push(added));
                    assert(has_parent(links(sigs)[i as int]));
                    assert(r[m as int] < r[i as int]);
                    let range = info.ranges[0];
                    let target_signal = create_mux_signal(signals, i);
                    decisions.push(Decision { min_val: range.from, max_val: range.to, target_signal });
                } else {
                    assert(mux_children(sigs, m as int, i + 1) == before);
                }
            },
        }
    }
    MuxSignal { multiplexer_signal: m, decisions }
}

/// Builds the decision tree of a message with extended multiplexing.
pub fn create_extended_decision_tree(msg: &Message) -> (res: Result<DecisionTree, DbcError>)
    requires
        mux_acyclic(links(msg.signals@)),
    ensures
        res matches Ok(tree) && is_extended_tree(msg.signals@, tree),
{
    let ghost sigs = msg.signals@;
    let n = msg.signals.len();
    let mut no_mux_signals: Vec<usize> = Vec::new();
    let mut top_mux_signals: Vec<MuxSignal> = Vec::new();
    let mut plain_decisions: Vec<Decision> = Vec::new();
    for idx in 0..n
        invariant
            n == sigs.len(),
            sigs == msg.signals@,
            mux_acyclic(links(sigs)),
            no_mux_signals@ == flag_indices(mux_flags(sigs), SignalMuxFlag::NoMux, idx as int),
            top_mux_signals@.len() == root_switches(sigs, idx as int).len(),
            forall|j: int|
                0 <= j < top_mux_signals@.len() ==> is_top_node(
                    sigs,
                    #[trigger] top_mux_signals@[j],
                    root_switches(sigs, idx as int)[j] as int,
                ),
            plain_decisions@.len() == plain_values(sigs, idx as int).len(),
            forall|j: int|
                0 <= j < plain_decisions@.len() ==> {
                    let v = plain_values(sigs, idx as int)[j];
                    let d = #[trigger] plain_decisions@[j];
                    &&& d.min_val == sigs[v as int].mux_value
                    &&& d.max_val == sigs[v as int].mux_value
                    &&& d.target_signal.multiplexer_signal == v
                    &&& d.target_signal.decisions@.len() == 0
                },
    {
        let sig = &msg.signals[idx];
        if sig.mux_flag == SignalMuxFlag::NoMux {
            no_mux_signals.push(idx);
        } else if sig.mux_flag == SignalMuxFlag::Value && sig.ex_mux_parent.is_none() {
            plain_decisions.push(
                Decision {
                    min_val: sig.mux_value,
                    max_val: sig.mux_value,
                    target_signal: MuxSignal { multiplexer_signal: idx, decisions: Vec::new() },
                },
            );
        }
        let mut pushed = false;
        if sig.ex_mux_parent.is_none() {
            let node = create_mux_signal(msg.signals.as_slice(), idx);
            if node.decisions.len() > 0 {
                top_mux_signals.push(node);
                pushed = true;
            }
        }
        if !pushed && sig.mux_flag == SignalMuxFlag::Switch {
            top_mux_signals.push(MuxSignal { multiplexer_signal: idx, decisions: Vec::new() });
        }
    }
    if plain_decisions.len() > 0 {
        match find_first_switch(msg.signals.as_slice()) {
            Some(m) => {
                top_mux_signals.push(MuxSignal { multiplexer_signal: m, decisions: plain_decisions });
            },
            None => {},
        }
    }
    Ok(DecisionTree { no_mux_signals, top_mux_signals })
}

/// Builds the decision tree of a message: with extended multiplexing where
/// some signal has an extended multiplexer, else the simple one.
pub fn create_decision_tree(msg: &Message) -> (res: Result<DecisionTree, DbcError>)
    requires
        mux_acyclic(links(msg.signals@)),
    ensures
        uses_extended_mux(links(msg.signals@)) ==> (res matches Ok(tree) && is_extended_tree(
            msg.signals@,
            tree,
        )),
        !uses_extended_mux(links(msg.signals@)) ==> match res {
            Ok(tree) => simple_tree_error(mux_flags(msg.signals@)) is None && is_simple_tree(
                msg.signals@,
                tree,
            ),
            Err(e) => simple_tree_error(mux_flags(msg.signals@)) == Some(e),
        },
{
    let n = msg.signals.len();
    let mut extended_mux = false;
    for i in 0..n
        invariant
            n == msg.signals@.len(),
            extended_mux == exists|j: int| 0 <= j < i && has_parent(#[trigger] links(msg.signals@)[j]),
    {
        assert(links(msg.signals@)[i as int] == link_of(msg.signals@[i as int]));
        if msg.signals[i].ex_mux_parent.is_some() {
            extended_mux = true;
        }
    }
    if extended_mux {
        create_extended_decision_tree(msg)
    } else {
        create_simple_decision_tree(msg)
    }
}

/// Every index in the subtree `node` is below `n`.
pub open spec fn node_indices_below(node: MuxSignal, n: int) -> bool
    decreases node,
{
    &&& node.multiplexer_signal < n
    &&& forall|j: int|
        0 <= j < node.decisions@.len() ==> node_indices_below(
            (#[trigger] node.decisions@[j]).target_signal,
            n,
        )
}

/// Every index in `tree` is below `n`.
pub open spec fn tree_indices_below(tree: DecisionTree, n: int) -> bool {
    &&& forall|j: int| 0 <= j < tree.no_mux_signals@.len() ==> #[trigger] tree.no_mux_signals@[j] < n
    &&& forall|j: int|
        0 <= j < tree.top_mux_signals@.len() ==> node_indices_below(#[trigger] tree.top_mux_signals@[j], n)
}

proof fn lemma_mux_node_below(signals: Seq<Signal>, node: MuxSignal, m: int)
    requires
        is_mux_node(signals, node, m),
        0 <= m < signals.len(),
        signals.len() <= usize::MAX,
    ensures
        node_indices_below(node, signals.len() as int),
    decreases node,
{
    let n = signals.len() as int;
    let cs = mux_children(signals, m, n);
    lemma_mux_children_sound(signals, m, n);
    assert forall|j: int| 0 <= j < node.decisions@.len() implies node_indices_below(
        (#[trigger] node.decisions@[j]).target_signal,
        n,
    ) by {
        assert(cs[j].0 < n);
        lemma_mux_node_below(signals, node.decisions@[j].target_signal, cs[j].0 as int);
    }
}

/// Law: all the indexes in a decision tree point into the signals of its message.
pub proof fn lemma_tree_indices_valid(signals: Seq<Signal>, tree: DecisionTree)
    requires
        is_simple_tree(signals, tree) || is_extended_tree(signals, tree),
        signals.len() <= usize::MAX,
    ensures
        tree_indices_below(tree, signals.len() as int),
{
    let n = signals.len() as int;
    let flags = mux_flags(signals);
    lemma_flag_indices_bounded(flags, SignalMuxFlag::NoMux, n);
    lemma_flag_indices_bounded(flags, SignalMuxFlag::Switch, n);
    lemma_flag_indices_bounded(flags, SignalMuxFlag::Value, n);
    if is_simple_tree(signals, tree) {
        let values = flag_indices(flags, SignalMuxFlag::Value, n);
        assert forall|j: int| 0 <= j < tree.top_mux_signals@.len() implies node_indices_below(
            #[trigger] tree.top_mux_signals@[j],
            n,
        ) by {
            let top = tree.top_mux_signals@[0];
            assert forall|q: int| 0 <= q < top.decisions@.len() implies node_indices_below(
                (#[trigger] top.decisions@[q]).target_signal,
                n,
            ) by {
                assert(values[q] < n);
                assert(top.decisions@[q].target_signal.decisions@.len() == 0);
            }
        }
    } else {
        let roots = root_switches(signals, n);
        let vs = plain_values(signals, n);
        lemma_indices_where(
            |t: int| is_root_mux(signals, t) || signals[t].mux_flag == SignalMuxFlag::Switch,
            n,
        );
        lemma_indices_where(
            |i: int| signals[i].mux_flag == SignalMuxFlag::Value && !has_parent(link_of(signals[i])),
            n,
        );
        assert forall|j: int| 0 <= j < tree.top_mux_signals@.len() implies node_indices_below(
            #[trigger] tree.top_mux_signals@[j],
            n,
        ) by {
            if j < roots.len() && is_root_mux(signals, roots[j] as int) {
                lemma_mux_node_below(signals, tree.top_mux_signals@[j], roots[j] as int);
            } else if j < roots.len() {
            } else {
                let top = tree.top_mux_signals@[j];
                let c = choose|c: int| switch_at(flags, c);
                assert(switch_at(flags, c));
                assert forall|q: int| 0 <= q < top.decisions@.len() implies node_indices_below(
                    (#[trigger] top.decisions@[q]).target_signal,
                    n,
                ) by {
                    assert(vs[q] < n);
                    assert(top.decisions@[q].target_signal.decisions@.len() == 0);
                }
            }
        }
    }
}

/// The entries of `indices_where` are the indices below `k` at which `p`
/// holds, each once, in increasing order.
pub proof fn lemma_indices_where(p: spec_fn(int) -> bool, k: int)
    requires
        0 <= k <= usize::MAX,
    ensures
        forall|i: int|
            #![trigger p(i)]
            #![trigger indices_where(p, k).contains(i as usize)]
            0 <= i < k ==> (indices_where(p, k).contains(i as usize) <==> p(i)),
        forall|j: int|
            0 <= j < indices_where(p, k).len() ==> {
                let r = #[trigger] indices_where(p, k)[j] as int;
                &&& 0 <= r < k
                &&& p(r)
            },
        forall|a: int, b: int|
            0 <= a < b < indices_where(p, k).len() ==> indices_where(p, k)[a] < indices_where(p, k)[b],
    decreases k,
{
    if k > 0 {
        lemma_indices_where(p, k - 1);
        let prev = indices_where(p, k - 1);
        let cur = indices_where(p, k);
        if p(k - 1) {
            assert(cur == prev.push((k - 1) as usize));
            assert(cur[prev.len() as int] == (k - 1) as usize);
        } else {
            assert(cur == prev);
        }
        assert forall|i: int| #![trigger p(i)] 0 <= i < k implies (cur.contains(i as usize) <==> p(i)) by {
            if p(k - 1) {
                if i < k - 1 {
                    if cur.contains(i as usize) {
                        let j = choose|j: int| 0 <= j < cur.len() && cur[j] == i as usize;
                        if j < prev.len() {
                            assert(prev[j] == i as usize);
                        }
                    }
                    if prev.contains(i as usize) {
                        let j = choose|j: int| 0 <= j < prev.len() && prev[j] == i as usize;
                        assert(cur[j] == i as usize);
                    }
                }
            } else {
                if i == k - 1 && cur.contains(i as usize) {
                    let j = choose|j: int| 0 <= j < prev.len() && prev[j] == i as usize;
                }
            }
        }
    }
}

/// Each entry of `mux_children` is a signal below `k` switched by `m`, with its
/// first range, and the entries come in increasing order.
pub proof fn lemma_mux_children_sound(signals: Seq<Signal>, m: int, k: int)
    requires
        0 <= k <= signals.len(),
        k <= usize::MAX,
    ensures
        forall|j: int|
            0 <= j < mux_children(signals, m, k).len() ==> {
                let e = #[trigger] mux_children(signals, m, k)[j];
                let c = e.0 as int;
                &&& 0 <= c < k
                &&& switched_by(signals, m, c)
                &&& e.1 == signals[c].ex_mux_parent.unwrap().ranges@[0]
            },
        forall|a: int, b: int|
            0 <= a < b < mux_children(signals, m, k).len() ==> mux_children(signals, m, k)[a].0
                < mux_children(signals, m, k)[b].0,
    decreases k,
{
    if k > 0 {
        lemma_mux_children_sound(signals, m, k - 1);
        let prev = mux_children(signals, m, k - 1);
        let cur = mux_children(signals, m, k);
        if switched_by(signals, m, k - 1) {
            assert(cur[prev.len() as int].0 == (k - 1) as usize);
        } else {
            assert(cur == prev);
        }
    }
}

/// Every signal below `k` switched by `m` is an entry of `mux_children`, with its first range.
pub proof fn lemma_mux_children_complete(signals: Seq<Signal>, m: int, k: int, c: int)
    requires
        0 <= c < k <= signals.len(),
        k <= usize::MAX,
        switched_by(signals, m, c),
    ensures
        exists|j: int|
            0 <= j < mux_children(signals, m, k).len() && #[trigger] mux_children(signals, m, k)[j]
                == (c as usize, signals[c].ex_mux_parent.unwrap().ranges@[0]),
    decreases k,
{
    let prev = mux_children(signals, m, k - 1);
    let cur = mux_children(signals, m, k);
    if switched_by(signals, m, k - 1) {
        if c == k - 1 {
            assert(cur[prev.len() as int] == (c as usize, signals[c].ex_mux_parent.unwrap().ranges@[0]));
        } else {
            lemma_mux_children_complete(signals, m, k - 1, c);
            let j = choose|j: int|
                0 <= j < prev.len() && #[trigger] prev[j] == (c as usize, signals[c].ex_mux_parent.unwrap().ranges@[0]);
            assert(cur[j] == prev[j]);
        }
    } else {
        assert(cur == prev);
        lemma_mux_children_complete(signals, m, k - 1, c);
    }
}

proof fn lemma_switch_count_monotone(flags: Seq<SignalMuxFlag>, k: int, n: int)
    requires
        0 <= k <= n <= flags.len(),
    ensures
        flag_indices(flags, SignalMuxFlag::Switch, k).len() <= flag_indices(
            flags,
            SignalMuxFlag::Switch,
            n,
        ).len(),
    decreases n - k,
{
    if k < n {
        lemma_switch_count_monotone(flags, k, n - 1);
    }
}

} // verus!
