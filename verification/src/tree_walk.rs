//! Walking a decision tree: the top multiplexers are decoded, and so is every
//! signal that a decision whose range holds its multiplexer's value leads to.
//! The walk reaches the very signals that a frame carries, but for one kind
//! of signal of a malformed network, named in the law on extended trees.
use vstd::prelude::*;
use crate::dbc::{Message, Signal, SignalMuxFlag, switch_at, first_switch, mux_acyclic, mux_ranks, lemma_acyclic_resolves};
use crate::dbc::cycles::{links, link_of, first_named, has_parent};
use crate::dbc::ValueRange;
use crate::dbc::cycles::switch_of;
use crate::decision_tree::{
    DecisionTree, MuxSignal, uses_extended_mux, is_simple_tree, is_extended_tree, is_mux_node,
    simple_tree_error, mux_flags, flag_indices, mux_children, root_switches, plain_values,
    is_root_mux, is_top_node, switched_by, lemma_indices_where, lemma_flag_indices_contains,
    lemma_flag_indices_bounded, lemma_mux_children_sound, lemma_mux_children_complete,
};
use crate::message_processor::{signal_enabled, mux_chain_active};

verus! {

/// Walking `node` reaches signal `i`: it is the multiplexer of the node, or a
/// decision whose range holds the multiplexer's raw value leads to it.
pub open spec fn node_walk_reaches(node: MuxSignal, raws: Seq<u64>, i: int) -> bool
    decreases node,
{
    ||| node.multiplexer_signal == i
    ||| exists|j: int|
        0 <= j < node.decisions@.len() && {
            let d = #[trigger] node.decisions@[j];
            &&& d.min_val <= raws[node.multiplexer_signal as int] <= d.max_val
            &&& node_walk_reaches(d.target_signal, raws, i)
        }
}

/// Walking `tree` reaches signal `i`: it is decoded unconditionally, or a
/// walk of one of the top multiplexers reaches it.
pub open spec fn tree_walk_reaches(tree: DecisionTree, raws: Seq<u64>, i: int) -> bool {
    ||| tree.no_mux_signals@.contains(i as usize)
    ||| exists|j: int|
        0 <= j < tree.top_mux_signals@.len() && node_walk_reaches(
            #[trigger] tree.top_mux_signals@[j],
            raws,
            i,
        )
}

/// Law: for a message without extended multiplexing, a frame carries exactly
/// the signals that a walk of the message's decision tree reaches.
pub proof fn lemma_simple_tree_describes_decoding(msg: Message, raws: Seq<u64>, i: int)
    requires
        msg.wf(),
        !uses_extended_mux(links(msg.signals@)),
        simple_tree_error(mux_flags(msg.signals@)) is None,
        is_simple_tree(msg.signals@, msg.tree()),
        0 <= i < msg.signals@.len(),
        raws.len() == msg.signals@.len(),
        msg.signals@.len() <= usize::MAX,
    ensures
        tree_walk_reaches(msg.tree(), raws, i) <==> signal_enabled(msg, raws, i),
{
    let sigs = msg.signals@;
    let n = sigs.len() as int;
    let flags = mux_flags(sigs);
    let tree = msg.tree();
    let sw = flag_indices(flags, SignalMuxFlag::Switch, n);
    let vals = flag_indices(flags, SignalMuxFlag::Value, n);
    lemma_flag_indices_contains(flags, SignalMuxFlag::NoMux, n);
    lemma_flag_indices_contains(flags, SignalMuxFlag::Switch, n);
    lemma_flag_indices_contains(flags, SignalMuxFlag::Value, n);
    lemma_flag_indices_bounded(flags, SignalMuxFlag::Switch, n);
    lemma_flag_indices_bounded(flags, SignalMuxFlag::Value, n);
    assert(flags[i] == sigs[i].mux_flag);
    assert(links(sigs)[i] == link_of(sigs[i]));
    assert(!has_parent(links(sigs)[i]));
    assert(sigs[i].ex_mux_parent is None);
    if sw.len() == 1 {
        // the single switch is the first one
        let m = sw[0] as int;
        assert(flags[m] == SignalMuxFlag::Switch);
        assert forall|j: int| 0 <= j < m implies flags[j] != SignalMuxFlag::Switch by {
            if flags[j] == SignalMuxFlag::Switch {
                assert(sw.contains(j as usize));
                let q = choose|q: int| 0 <= q < sw.len() && sw[q] == j as usize;
                assert(q == 0);
            }
        }
        assert(switch_at(flags, m));
        let c = choose|c: int| switch_at(flags, c);
        if c < m {
            assert(flags[c] != SignalMuxFlag::Switch);
        } else if m < c {
            assert(flags[m] != SignalMuxFlag::Switch);
        }
        assert(msg.mux_signal == Some(m as usize));
    }
    let e = sigs[i].mux_flag;
    if e == SignalMuxFlag::NoMux {
        assert(tree.no_mux_signals@.contains(i as usize));
    } else if e == SignalMuxFlag::Switch {
        assert(sw.contains(i as usize));
        assert(sw.len() == 1);
        let q = choose|q: int| 0 <= q < sw.len() && sw[q] == i as usize;
        assert(node_walk_reaches(tree.top_mux_signals@[0], raws, i));
    } else {
        assert(vals.contains(i as usize));
        assert(vals.len() > 0);
        assert(sw.len() == 1);
        let m = sw[0] as int;
        let top = tree.top_mux_signals@[0];
        assert(!tree.no_mux_signals@.contains(i as usize));
        assert(top.multiplexer_signal == m);
        if signal_enabled(msg, raws, i) {
            assert(!mux_chain_active(sigs, raws, i));
            assert(raws[m] == sigs[i].mux_value);
            let q = choose|q: int| 0 <= q < vals.len() && vals[q] == i as usize;
            assert(node_walk_reaches(top.decisions@[q].target_signal, raws, i));
            assert(node_walk_reaches(top, raws, i));
        }
        if tree_walk_reaches(tree, raws, i) {
            let j = choose|j: int| 0 <= j < tree.top_mux_signals@.len() && node_walk_reaches(
                #[trigger] tree.top_mux_signals@[j],
                raws,
                i,
            );
            assert(j == 0);
            assert(m != i);
            let q = choose|q: int|
                0 <= q < top.decisions@.len() && {
                    let d = #[trigger] top.decisions@[q];
                    &&& d.min_val <= raws[top.multiplexer_signal as int] <= d.max_val
                    &&& node_walk_reaches(d.target_signal, raws, i)
                };
            let d = top.decisions@[q];
            assert(d.target_signal.decisions@.len() == 0);
            assert(d.target_signal.multiplexer_signal == i);
            assert(vals[q] == i as usize);
            assert(raws[m] == sigs[i].mux_value);
        }
    }
}

/// The signal at which the chain of extended multiplexer switches from `i` ends.
pub open spec fn chain_top(sigs: Seq<Signal>, i: int) -> int
    decreases mux_ranks(links(sigs))[i],
    when mux_acyclic(links(sigs)) && 0 <= i < sigs.len()
{
    match sigs[i].ex_mux_parent {
        None => i,
        Some(info) => {
            proof {
                lemma_acyclic_resolves(links(sigs));
                assert(links(sigs)[i] == link_of(sigs[i]));
                assert(has_parent(links(sigs)[i]));
            }
            chain_top(sigs, first_named(links(sigs), info.switch@))
        },
    }
}

/// Following the switches up from `i` reaches `m`, and at each step the
/// switch's value lies in the first range of the signal below it.
pub open spec fn active_below(sigs: Seq<Signal>, raws: Seq<u64>, m: int, i: int) -> bool
    decreases mux_ranks(links(sigs))[i],
    when mux_acyclic(links(sigs)) && 0 <= i < sigs.len()
{
    if i == m {
        true
    } else {
        match sigs[i].ex_mux_parent {
            None => false,
            Some(info) => {
                let p = first_named(links(sigs), info.switch@);
                if info.ranges@.len() > 0 && info.ranges@[0].contains(raws[p]) {
                    proof {
                        lemma_acyclic_resolves(links(sigs));
                        assert(links(sigs)[i] == link_of(sigs[i]));
                        assert(has_parent(links(sigs)[i]));
                    }
                    active_below(sigs, raws, m, p)
                } else {
                    false
                }
            },
        }
    }
}

/// The index of the switch of signal `i`.
pub open spec fn parent_index(sigs: Seq<Signal>, i: int) -> int {
    first_named(links(sigs), sigs[i].ex_mux_parent.unwrap().switch@)
}

/// The switch of a multiplexed signal is a signal of lower rank.
pub proof fn lemma_parent_index(sigs: Seq<Signal>, i: int)
    requires
        mux_acyclic(links(sigs)),
        0 <= i < sigs.len(),
        sigs[i].ex_mux_parent is Some,
    ensures
        0 <= parent_index(sigs, i) < sigs.len(),
        mux_ranks(links(sigs))[parent_index(sigs, i)] < mux_ranks(links(sigs))[i],
{
    lemma_acyclic_resolves(links(sigs));
    assert(links(sigs)[i] == link_of(sigs[i]));
    assert(has_parent(links(sigs)[i]));
}

/// The extended multiplexers above a multiplexed signal are active exactly when
/// the chain from the signal up to its top is active.
pub proof fn lemma_chain_active_to_top(sigs: Seq<Signal>, raws: Seq<u64>, i: int)
    requires
        mux_acyclic(links(sigs)),
        0 <= i < sigs.len(),
        sigs[i].ex_mux_parent is Some,
    ensures
        0 <= chain_top(sigs, i) < sigs.len(),
        sigs[chain_top(sigs, i)].ex_mux_parent is None,
        chain_top(sigs, i) != i,
        mux_chain_active(sigs, raws, i) <==> active_below(sigs, raws, chain_top(sigs, i), i),
    decreases mux_ranks(links(sigs))[i],
{
    lemma_parent_index(sigs, i);
    let p = parent_index(sigs, i);
    let t = chain_top(sigs, i);
    let info = sigs[i].ex_mux_parent.unwrap();
    assert(t == chain_top(sigs, p));
    if sigs[p].ex_mux_parent is Some {
        lemma_chain_active_to_top(sigs, raws, p);
        assert(t != i);
        assert(mux_chain_active(sigs, raws, i) == (info.ranges@.len() > 0 && info.ranges@[0].contains(raws[p])
            && mux_chain_active(sigs, raws, p)));
        assert(active_below(sigs, raws, t, i) == (info.ranges@.len() > 0 && info.ranges@[0].contains(raws[p])
            && active_below(sigs, raws, t, p)));
    } else {
        assert(chain_top(sigs, p) == p);
        assert(t == p);
        assert(active_below(sigs, raws, t, p));
        assert(mux_chain_active(sigs, raws, i) == (info.ranges@.len() > 0 && info.ranges@[0].contains(raws[p])));
        assert(active_below(sigs, raws, t, i) == (info.ranges@.len() > 0 && info.ranges@[0].contains(raws[p])
            && active_below(sigs, raws, t, p)));
    }
}

/// An active link from a switch `m` to the signal `c` that it switches extends
/// a chain of active links from `c` down to `i`.
pub proof fn lemma_active_below_extend(sigs: Seq<Signal>, raws: Seq<u64>, m: int, c: int, i: int)
    requires
        mux_acyclic(links(sigs)),
        0 <= c < sigs.len(),
        0 <= i < sigs.len(),
        sigs[c].ex_mux_parent is Some,
        parent_index(sigs, c) == m,
        sigs[c].ex_mux_parent.unwrap().ranges@.len() > 0,
        sigs[c].ex_mux_parent.unwrap().ranges@[0].contains(raws[m]),
        active_below(sigs, raws, c, i),
    ensures
        active_below(sigs, raws, m, i),
    decreases mux_ranks(links(sigs))[i],
{
    lemma_parent_index(sigs, c);
    if i == c {
        assert(c != m);
        assert(active_below(sigs, raws, m, m));
    } else if i != m {
        lemma_parent_index(sigs, i);
        let p = parent_index(sigs, i);
        lemma_active_below_extend(sigs, raws, m, c, p);
    }
}

/// A chain of active links from `m` down to `i != m` starts with an active
/// link from `m` to a signal `c` that it switches.
pub proof fn lemma_active_below_split(sigs: Seq<Signal>, raws: Seq<u64>, m: int, i: int) -> (c: int)
    requires
        mux_acyclic(links(sigs)),
        0 <= i < sigs.len(),
        i != m,
        active_below(sigs, raws, m, i),
    ensures
        0 <= c < sigs.len(),
        sigs[c].ex_mux_parent is Some,
        parent_index(sigs, c) == m,
        sigs[c].ex_mux_parent.unwrap().ranges@.len() > 0,
        sigs[c].ex_mux_parent.unwrap().ranges@[0].contains(raws[m]),
        active_below(sigs, raws, c, i),
    decreases mux_ranks(links(sigs))[i],
{
    lemma_parent_index(sigs, i);
    let p = parent_index(sigs, i);
    if p == m {
        i
    } else {
        let c = lemma_active_below_split(sigs, raws, m, p);
        if i != c {
            assert(active_below(sigs, raws, c, i));
        }
        c
    }
}

/// A chain of active links that starts at a signal without a switch starts at
/// the top of the chain.
pub proof fn lemma_active_below_top(sigs: Seq<Signal>, raws: Seq<u64>, m: int, i: int)
    requires
        mux_acyclic(links(sigs)),
        0 <= i < sigs.len(),
        0 <= m < sigs.len(),
        sigs[m].ex_mux_parent is None,
        active_below(sigs, raws, m, i),
    ensures
        chain_top(sigs, i) == m,
    decreases mux_ranks(links(sigs))[i],
{
    if i != m {
        lemma_parent_index(sigs, i);
        let p = parent_index(sigs, i);
        lemma_active_below_top(sigs, raws, m, p);
        assert(chain_top(sigs, i) == chain_top(sigs, p));
    }
}

/// Walking the subtree of multiplexer `m` reaches exactly the signals that
/// hang below `m` through active links.
pub proof fn lemma_node_walk(sigs: Seq<Signal>, raws: Seq<u64>, node: MuxSignal, m: int, i: int)
    requires
        mux_acyclic(links(sigs)),
        sigs.len() <= usize::MAX,
        is_mux_node(sigs, node, m),
        0 <= m < sigs.len(),
        0 <= i < sigs.len(),
    ensures
        node_walk_reaches(node, raws, i) <==> active_below(sigs, raws, m, i),
    decreases node,
{
    let n = sigs.len() as int;
    let cs = mux_children(sigs, m, n);
    lemma_mux_children_sound(sigs, m, n);
    if i == m {
        assert(node_walk_reaches(node, raws, i));
    } else {
        if node_walk_reaches(node, raws, i) {
            let j = choose|j: int|
                0 <= j < node.decisions@.len() && {
                    let d = #[trigger] node.decisions@[j];
                    &&& d.min_val <= raws[node.multiplexer_signal as int] <= d.max_val
                    &&& node_walk_reaches(d.target_signal, raws, i)
                };
            let d = node.decisions@[j];
            let c = cs[j].0 as int;
            assert(0 <= c < n);
            assert(switched_by(sigs, m, c));
            assert(links(sigs)[c] == link_of(sigs[c]));
            assert(parent_index(sigs, c) == m);
            lemma_node_walk(sigs, raws, d.target_signal, c, i);
            lemma_active_below_extend(sigs, raws, m, c, i);
        }
        if active_below(sigs, raws, m, i) {
            let c = lemma_active_below_split(sigs, raws, m, i);
            assert(links(sigs)[c] == link_of(sigs[c]));
            assert(switched_by(sigs, m, c));
            lemma_mux_children_complete(sigs, m, n, c);
            let r = sigs[c].ex_mux_parent.unwrap().ranges@[0];
            let j = choose|j: int| 0 <= j < cs.len() && #[trigger] cs[j] == (c as usize, r);
            let d = node.decisions@[j];
            lemma_node_walk(sigs, raws, d.target_signal, c, i);
            assert(node_walk_reaches(d.target_signal, raws, i));
            assert(d.min_val <= raws[node.multiplexer_signal as int] <= d.max_val);
            assert(node_walk_reaches(node, raws, i));
        }
    }
}

/// A signal with a chain of active links below it heads extended multiplexing
/// where it has no extended multiplexer itself.
proof fn lemma_active_top_is_root(sigs: Seq<Signal>, raws: Seq<u64>, t: int, i: int)
    requires
        mux_acyclic(links(sigs)),
        sigs.len() <= usize::MAX,
        0 <= t < sigs.len(),
        0 <= i < sigs.len(),
        i != t,
        sigs[t].ex_mux_parent is None,
        active_below(sigs, raws, t, i),
    ensures
        is_root_mux(sigs, t),
{
    let c = lemma_active_below_split(sigs, raws, t, i);
    assert(links(sigs)[c] == link_of(sigs[c]));
    assert(switched_by(sigs, t, c));
    lemma_mux_children_complete(sigs, t, sigs.len() as int, c);
}

/// Law: for a message with extended multiplexing, a frame carries exactly the
/// signals that a walk of the message's decision tree reaches. The one
/// exception is a multiplexed signal without an extended multiplexer that
/// itself heads extended multiplexing: the walk reaches it as a top
/// multiplexer whatever the values, while a frame carries it only where the
/// message's switch has its value. It cannot hang below that switch instead:
/// the signals that it switches are carried whatever the switch holds.
pub proof fn lemma_extended_tree_describes_decoding(msg: Message, raws: Seq<u64>, i: int)
    requires
        msg.wf(),
        is_extended_tree(msg.signals@, msg.tree()),
        0 <= i < msg.signals@.len(),
        raws.len() == msg.signals@.len(),
        msg.signals@.len() <= usize::MAX,
        !(msg.signals@[i].mux_flag == SignalMuxFlag::Value && is_root_mux(msg.signals@, i)),
    ensures
        tree_walk_reaches(msg.tree(), raws, i) <==> signal_enabled(msg, raws, i),
{
    let sigs = msg.signals@;
    let n = sigs.len() as int;
    let flags = mux_flags(sigs);
    let tree = msg.tree();
    let roots = root_switches(sigs, n);
    let vs = plain_values(sigs, n);
    lemma_indices_where(
        |t: int| is_root_mux(sigs, t) || sigs[t].mux_flag == SignalMuxFlag::Switch,
        n,
    );
    lemma_flag_indices_contains(flags, SignalMuxFlag::NoMux, n);
    lemma_indices_where(
        |k: int| sigs[k].mux_flag == SignalMuxFlag::Value && !has_parent(link_of(sigs[k])),
        n,
    );
    assert(links(sigs)[i] == link_of(sigs[i]));
    assert(flags[i] == sigs[i].mux_flag);
    if sigs[i].mux_flag == SignalMuxFlag::NoMux {
        assert(tree.no_mux_signals@.contains(i as usize));
    } else if sigs[i].mux_flag == SignalMuxFlag::Switch {
        assert(roots.contains(i as usize));
        let j = choose|j: int| 0 <= j < roots.len() && roots[j] == i as usize;
        assert(is_top_node(sigs, tree.top_mux_signals@[j], i));
        assert(node_walk_reaches(tree.top_mux_signals@[j], raws, i));
    } else {
        assert(!tree.no_mux_signals@.contains(i as usize));
        if tree_walk_reaches(tree, raws, i) {
            let j = choose|j: int| 0 <= j < tree.top_mux_signals@.len() && node_walk_reaches(
                #[trigger] tree.top_mux_signals@[j],
                raws,
                i,
            );
            if j < roots.len() && !is_root_mux(sigs, roots[j] as int) {
                let r = roots[j] as int;
                assert(sigs[r].mux_flag == SignalMuxFlag::Switch);
                let top = tree.top_mux_signals@[j];
                assert(top.multiplexer_signal != i);
                assert(top.decisions@.len() == 0);
                assert(false);
            } else if j < roots.len() {
                let r = roots[j] as int;
                lemma_node_walk(sigs, raws, tree.top_mux_signals@[j], r, i);
                if i == r {
                    assert(false);
                }
                lemma_parent_index(sigs, i);
                lemma_active_below_top(sigs, raws, r, i);
                lemma_chain_active_to_top(sigs, raws, i);
            } else {
                let top = tree.top_mux_signals@[j];
                let m = first_switch(flags).unwrap() as int;
                let c = choose|c: int| switch_at(flags, c);
                assert(switch_at(flags, c));
                assert(flags[m] == SignalMuxFlag::Switch);
                assert(flags[i] == sigs[i].mux_flag);
                assert(top.multiplexer_signal != i);
                let q = choose|q: int|
                    0 <= q < top.decisions@.len() && {
                        let d = #[trigger] top.decisions@[q];
                        &&& d.min_val <= raws[top.multiplexer_signal as int] <= d.max_val
                        &&& node_walk_reaches(d.target_signal, raws, i)
                    };
                let d = top.decisions@[q];
                assert(d.target_signal.decisions@.len() == 0);
                assert(d.target_signal.multiplexer_signal == i);
                assert(vs[q] == i as usize);
                assert(msg.mux_signal == Some(m as usize));
                assert(raws[m] == sigs[i].mux_value);
            }
        }
        if signal_enabled(msg, raws, i) {
            if sigs[i].ex_mux_parent is Some {
                let t = chain_top(sigs, i);
                lemma_chain_active_to_top(sigs, raws, i);
                assert(mux_chain_active(sigs, raws, i));
                lemma_active_top_is_root(sigs, raws, t, i);
                assert(roots.contains(t as usize));
                let j = choose|j: int| 0 <= j < roots.len() && roots[j] == t as usize;
                assert(is_top_node(sigs, tree.top_mux_signals@[j], t));
                lemma_node_walk(sigs, raws, tree.top_mux_signals@[j], t, i);
                assert(node_walk_reaches(tree.top_mux_signals@[j], raws, i));
            } else {
                let m = msg.mux_signal.unwrap() as int;
                assert(raws[m] == sigs[i].mux_value);
                let k = roots.len() as int;
                let top = tree.top_mux_signals@[k];
                assert(vs.contains(i as usize));
                let q = choose|q: int| 0 <= q < vs.len() && vs[q] == i as usize;
                let d = top.decisions@[q];
                assert(node_walk_reaches(d.target_signal, raws, i));
                assert(node_walk_reaches(top, raws, i));
            }
        }
    }
}

} // verus!
