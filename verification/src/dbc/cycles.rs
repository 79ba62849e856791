//! Cycles in the extended multiplexing of a message: each signal with an
//! extended multiplexer points at its switch signal by name, and following
//! those links from a signal must end at a signal without a switch.
use vstd::prelude::*;
use vstd::seq_lib::*;
use vstd::set_lib::*;
use super::Signal;

verus! {

/// What extended multiplexing sees of a signal: its name, and the name of
/// its extended multiplexer switch if it has one.
pub type Link = (Seq<char>, Option<Seq<char>>);

/// The link of a signal.
pub open spec fn link_of(s: Signal) -> Link {
    (
        s.name@,
        match s.ex_mux_parent {
            Some(info) => Some(info.switch@),
            None => None,
        },
    )
}

/// The links of a sequence of signals.
pub open spec fn links(sigs: Seq<Signal>) -> Seq<Link> {
    sigs.map_values(|s: Signal| link_of(s))
}

/// `i` is the index of the first link of `all` named `name`.
pub open spec fn named_at(all: Seq<Link>, name: Seq<char>, i: int) -> bool {
    &&& 0 <= i < all.len()
    &&& all[i].0 == name
    &&& forall|j: int| 0 <= j < i ==> all[j].0 != name
}

/// The index of the first link named `name`, or -1 where there is none.
pub open spec fn first_named(all: Seq<Link>, name: Seq<char>) -> int {
    if exists|i: int| named_at(all, name, i) {
        choose|i: int| named_at(all, name, i)
    } else {
        -1
    }
}

/// The first link with a name is unique.
pub proof fn lemma_named_at_unique(all: Seq<Link>, name: Seq<char>, i: int)
    requires
        named_at(all, name, i),
    ensures
        first_named(all, name) == i,
{
    let c = choose|c: int| named_at(all, name, c);
    assert(named_at(all, name, c));
    if c < i {
        assert(all[c].0 != name);
    } else if i < c {
        assert(all[i].0 != name);
    }
}

/// Looks a signal up by name; the first of several with that name wins.
pub fn find_signal(signals: &[Signal], name: &String) -> (res: Option<usize>)
    ensures
        match res {
            Some(i) => i == first_named(links(signals@), name@) && named_at(links(signals@), name@, i as int),
            None => first_named(links(signals@), name@) == -1 && forall|j: int|
                0 <= j < signals@.len() ==> #[trigger] signals@[j].name@ != name@,
        },
{
    let n = signals.len();
    for i in 0..n
        invariant
            n == signals@.len(),
            forall|j: int| 0 <= j < i ==> #[trigger] signals@[j].name@ != name@,
    {
        if signals[i].name == *name {
            proof {
                assert(named_at(links(signals@), name@, i as int));
                lemma_named_at_unique(links(signals@), name@, i as int);
            }
            return Some(i);
        }
    }
    assert(!exists|i: int| named_at(links(signals@), name@, i)) by {
        if exists|i: int| named_at(links(signals@), name@, i) {
            let i = choose|i: int| named_at(links(signals@), name@, i);
            assert(signals@[i].name@ != name@);
        }
    }
    None
}

/// `s` has an extended multiplexer switch.
pub open spec fn has_parent(s: Link) -> bool {
    s.1 is Some
}

/// The name of the extended multiplexer switch of `s`.
pub open spec fn switch_of(s: Link) -> Seq<char> {
    s.1.unwrap()
}

/// The link of `all` that the switch of `s` names (the first one with that name).
pub open spec fn parent_of(all: Seq<Link>, s: Link) -> Link {
    all[first_named(all, switch_of(s))]
}

/// The switch of `s`, if it has one, names a signal of `all`.
pub open spec fn resolves(all: Seq<Link>, s: Link) -> bool {
    has_parent(s) ==> first_named(all, switch_of(s)) >= 0
}

/// Every switch named in `all` names a signal of `all`.
pub open spec fn all_resolve(all: Seq<Link>) -> bool {
    forall|i: int| 0 <= i < all.len() ==> resolves(all, #[trigger] all[i])
}

/// The signal reached from `s` after `k` steps from a signal to its switch.
pub open spec fn chain_node(all: Seq<Link>, s: Link, k: nat) -> Link
    decreases k,
{
    if k == 0 {
        s
    } else {
        chain_node(all, parent_of(all, s), (k - 1) as nat)
    }
}

/// The names of the first `m + 1` signals of the chain from `s`.
pub open spec fn chain_names(all: Seq<Link>, s: Link, m: nat) -> Seq<Seq<char>> {
    Seq::new(m + 1, |k: int| chain_node(all, s, k as nat).0)
}

/// The first `m` signals of the chain from `s` all have a switch.
pub open spec fn links_up_to(all: Seq<Link>, s: Link, m: nat) -> bool {
    forall|k: nat| k < m ==> has_parent(#[trigger] chain_node(all, s, k))
}

/// The first `m` steps of the chain from `s` each reach a signal named by the
/// switch of the signal before.
pub open spec fn links_named(all: Seq<Link>, s: Link, m: nat) -> bool {
    forall|k: nat| k < m ==> (#[trigger] chain_node(all, s, k + 1)).0 == switch_of(chain_node(all, s, k))
}

/// The chain from `s` ends, after `m` steps, at a signal without a switch,
/// and no name repeats on the way.
pub open spec fn terminates_at(all: Seq<Link>, s: Link, m: nat) -> bool {
    &&& links_up_to(all, s, m)
    &&& links_named(all, s, m)
    &&& !has_parent(chain_node(all, s, m))
    &&& chain_names(all, s, m).no_duplicates()
}

/// At step `m - 1` the chain from `s` meets a switch whose name it met before.
pub open spec fn cycles_at(all: Seq<Link>, s: Link, m: nat) -> bool {
    &&& m > 0
    &&& links_up_to(all, s, m)
    &&& links_named(all, s, (m - 1) as nat)
    &&& chain_names(all, s, (m - 1) as nat).no_duplicates()
    &&& chain_names(all, s, (m - 1) as nat).contains(switch_of(chain_node(all, s, (m - 1) as nat)))
}

/// The names of a chain that loops at step `m`: those met, then the repeated one.
pub open spec fn cycle_names(all: Seq<Link>, s: Link, m: nat) -> Seq<Seq<char>> {
    chain_names(all, s, (m - 1) as nat).push(switch_of(chain_node(all, s, (m - 1) as nat)))
}

/// The chain from `s` ends at a signal without a switch.
pub open spec fn chain_terminates(all: Seq<Link>, s: Link) -> bool {
    exists|m: nat| terminates_at(all, s, m)
}

/// What a walk from `s` finds: the names up to the first repeated one, or
/// nothing where the chain does not loop.
pub open spec fn cycle_path(all: Seq<Link>, s: Link) -> Option<Seq<Seq<char>>> {
    if exists|m: nat| cycles_at(all, s, m) {
        Some(cycle_names(all, s, choose|m: nat| cycles_at(all, s, m)))
    } else {
        None
    }
}

/// The first path that a walk from one of the links from index `i` on finds.
pub open spec fn first_cycle_path(all: Seq<Link>, i: int) -> Option<Seq<Seq<char>>>
    decreases all.len() - i,
{
    if i < 0 || i >= all.len() {
        None
    } else {
        match cycle_path(all, all[i]) {
            Some(p) => Some(p),
            None => first_cycle_path(all, i + 1),
        }
    }
}

/// Law: the search over all signals finds what the first walk that finds a
/// path finds: while the walks from the links before `i` find nothing, the
/// search from `0` finds what the search from `i` finds, and it finds nothing
/// exactly when no walk finds anything.
pub proof fn lemma_first_cycle_path(all: Seq<Link>, i: int)
    requires
        0 <= i <= all.len(),
        forall|j: int| 0 <= j < i ==> (#[trigger] cycle_path(all, all[j])) is None,
    ensures
        first_cycle_path(all, 0) == first_cycle_path(all, i),
        first_cycle_path(all, 0) is None <==> forall|j: int|
            i <= j < all.len() ==> (#[trigger] cycle_path(all, all[j])) is None,
        i < all.len() && cycle_path(all, all[i]) is Some ==> first_cycle_path(all, 0) == cycle_path(all, all[i]),
{
    if i > 0 {
        lemma_first_cycle_path_step(all, 0, i);
    }
    lemma_first_cycle_path_none(all, i);
}

/// Skipping walks that find nothing does not change what the search finds.
proof fn lemma_first_cycle_path_step(all: Seq<Link>, lo: int, i: int)
    requires
        0 <= lo <= i <= all.len(),
        forall|j: int| lo <= j < i ==> (#[trigger] cycle_path(all, all[j])) is None,
    ensures
        first_cycle_path(all, lo) == first_cycle_path(all, i),
    decreases i - lo,
{
    if lo < i {
        assert(cycle_path(all, all[lo]) is None);
        lemma_first_cycle_path_step(all, lo + 1, i);
    }
}

/// The search from `i` finds nothing exactly when no walk from `i` on finds anything.
proof fn lemma_first_cycle_path_none(all: Seq<Link>, i: int)
    requires
        0 <= i <= all.len(),
    ensures
        first_cycle_path(all, i) is None <==> forall|j: int|
            i <= j < all.len() ==> (#[trigger] cycle_path(all, all[j])) is None,
    decreases all.len() - i,
{
    if i < all.len() {
        lemma_first_cycle_path_none(all, i + 1);
    }
}

/// At step `k` the walk from `s` looks a switch up: every earlier signal had
/// a switch, no name has repeated, and the switch of step `k` has a new name.
pub open spec fn walk_looks_up(all: Seq<Link>, s: Link, k: nat) -> bool {
    &&& links_up_to(all, s, k)
    &&& chain_names(all, s, k).no_duplicates()
    &&& has_parent(chain_node(all, s, k))
    &&& !chain_names(all, s, k).contains(switch_of(chain_node(all, s, k)))
}

/// Every switch that the walk from `s` looks up names a signal of `all`.
pub open spec fn walk_resolves(all: Seq<Link>, s: Link) -> bool {
    forall|k: nat|
        #[trigger] walk_looks_up(all, s, k) ==> first_named(all, switch_of(chain_node(all, s, k))) >= 0
}

/// The views of a sequence of names.
pub open spec fn str_views(v: Seq<&str>) -> Seq<Seq<char>> {
    v.map_values(|x: &str| x@)
}

/// The views of a path, if any.
pub open spec fn opt_str_views(v: Option<Vec<&str>>) -> Option<Seq<Seq<char>>> {
    match v {
        Some(p) => Some(str_views(p@)),
        None => None,
    }
}

/// Step `k + 1` of a chain is the switch of step `k`.
pub proof fn lemma_chain_node_succ(all: Seq<Link>, s: Link, k: nat)
    ensures
        chain_node(all, s, k + 1) == parent_of(all, chain_node(all, s, k)),
    decreases k,
{
    if k > 0 {
        lemma_chain_node_succ(all, parent_of(all, s), (k - 1) as nat);
        assert(chain_node(all, s, k + 1) == chain_node(all, parent_of(all, s), k));
        assert(chain_node(all, s, k) == chain_node(all, parent_of(all, s), (k - 1) as nat));
    } else {
        assert(chain_node(all, s, 1) == chain_node(all, parent_of(all, s), 0));
    }
}

/// Every signal after the first on a chain of linked, resolving signals lies in `all`.
pub proof fn lemma_chain_in_all(all: Seq<Link>, s: Link, k: nat)
    requires
        all_resolve(all),
        resolves(all, s),
        links_up_to(all, s, k),
        k >= 1,
    ensures
        named_at(all, chain_node(all, s, k).0, first_named(all, chain_node(all, s, k).0)),
        resolves(all, chain_node(all, s, k)),
        chain_node(all, s, k) == all[first_named(all, chain_node(all, s, k).0)],
        chain_node(all, s, k).0 == switch_of(chain_node(all, s, (k - 1) as nat)),
    decreases k,
{
    let prev = chain_node(all, s, (k - 1) as nat);
    lemma_chain_node_succ(all, s, (k - 1) as nat);
    if k > 1 {
        lemma_chain_in_all(all, s, (k - 1) as nat);
    }
    assert(has_parent(prev));
    assert(resolves(all, prev));
    let i = first_named(all, switch_of(prev));
    assert(named_at(all, switch_of(prev), i));
    let node = chain_node(all, s, k);
    assert(node == all[i]);
    assert(node.0 == switch_of(prev));
    lemma_named_at_unique(all, switch_of(prev), i);
    assert(resolves(all, all[i]));
}

/// Where every switch resolves, each step of a chain is named by the switch
/// before it and lies in `all`.
pub proof fn lemma_chain_nodes_named(all: Seq<Link>, s: Link, m: nat)
    requires
        all_resolve(all),
        resolves(all, s),
        links_up_to(all, s, m),
    ensures
        forall|j: nat| 1 <= j <= m ==> first_named(all, (#[trigger] chain_node(all, s, j)).0) >= 0,
        links_named(all, s, m),
{
    assert forall|j: nat| 1 <= j <= m implies first_named(all, (#[trigger] chain_node(all, s, j)).0) >= 0 by {
        lemma_chain_in_all(all, s, j);
    }
    assert forall|k: nat| k < m implies (#[trigger] chain_node(all, s, k + 1)).0 == switch_of(chain_node(all, s, k)) by {
        lemma_chain_in_all(all, s, k + 1);
    }
}

/// Where every switch resolves, so does every switch that a walk looks up.
pub proof fn lemma_resolving_walks(all: Seq<Link>, s: Link)
    requires
        all_resolve(all),
        resolves(all, s),
    ensures
        walk_resolves(all, s),
{
    assert forall|k: nat| #[trigger] walk_looks_up(all, s, k) implies first_named(all, switch_of(chain_node(all, s, k))) >= 0 by {
        if k > 0 {
            lemma_chain_in_all(all, s, k);
        }
    }
}

/// A chain without repeated names, whose steps after the first are signals of
/// `all`, has no more steps than `all` has signals.
pub proof fn lemma_chain_bound(all: Seq<Link>, s: Link, m: nat)
    requires
        chain_names(all, s, m).no_duplicates(),
        forall|j: nat| 1 <= j <= m ==> first_named(all, (#[trigger] chain_node(all, s, j)).0) >= 0,
    ensures
        m <= all.len(),
{
    let names = all.map_values(|x: Link| x.0);
    let t = chain_names(all, s, m).drop_first();
    assert forall|j: int| 0 <= j < t.len() implies names.to_set().contains(#[trigger] t[j]) by {
        let node = chain_node(all, s, (j + 1) as nat);
        assert(first_named(all, node.0) >= 0);
        let i = first_named(all, node.0);
        assert(named_at(all, node.0, i));
        assert(names[i] == t[j]);
    }
    assert(t.no_duplicates());
    t.unique_seq_to_set();
    names.lemma_cardinality_of_set();
    assert(t.to_set().subset_of(names.to_set()));
    lemma_len_subset(t.to_set(), names.to_set());
}

/// The chain from a signal has one outcome: it ends at a signal without a
/// switch, or it comes back to a name it met before, and the step at which
/// that happens is unique.
pub proof fn lemma_chain_outcome_unique(all: Seq<Link>, s: Link, a: nat, b: nat)
    ensures
        terminates_at(all, s, a) && terminates_at(all, s, b) ==> a == b,
        cycles_at(all, s, a) && cycles_at(all, s, b) ==> a == b,
        !(terminates_at(all, s, a) && cycles_at(all, s, b)),
{
    if terminates_at(all, s, a) && terminates_at(all, s, b) && a != b {
        if a < b {
            assert(has_parent(chain_node(all, s, a)));
        } else {
            assert(has_parent(chain_node(all, s, b)));
        }
    }
    if cycles_at(all, s, a) && cycles_at(all, s, b) && a != b {
        let (x, y) = if a < b { (a, b) } else { (b, a) };
        // the switch met at step x - 1 repeats the name at some j < x; the
        // chain up to y - 1 >= x names step x after it, so holds it twice
        let names_x = chain_names(all, s, (x - 1) as nat);
        let sw = switch_of(chain_node(all, s, (x - 1) as nat));
        let j = choose|j: int| 0 <= j < names_x.len() && names_x[j] == sw;
        let names_y = chain_names(all, s, (y - 1) as nat);
        assert(chain_node(all, s, ((x - 1) + 1) as nat).0 == sw);
        assert(names_y[j] == names_y[x as int]);
    }
    if terminates_at(all, s, a) && cycles_at(all, s, b) {
        if a < b {
            assert(has_parent(chain_node(all, s, a)));
        } else {
            let names_b = chain_names(all, s, (b - 1) as nat);
            let sw = switch_of(chain_node(all, s, (b - 1) as nat));
            let j = choose|j: int| 0 <= j < names_b.len() && names_b[j] == sw;
            let names_a = chain_names(all, s, a);
            assert(chain_node(all, s, ((b - 1) + 1) as nat).0 == sw);
            assert(names_a[j] == names_a[b as int]);
        }
    }
}

/// Following a signal's switch moves one step along its chain: where the
/// chain from `s` ends after `m` steps, the chain from its switch ends after
/// `m - 1`.
pub proof fn lemma_parent_terminates(all: Seq<Link>, s: Link, m: nat)
    requires
        terminates_at(all, s, m),
        has_parent(s),
    ensures
        m >= 1,
        terminates_at(all, parent_of(all, s), (m - 1) as nat),
{
    assert(chain_node(all, s, 0) == s);
    let p = parent_of(all, s);
    assert forall|k: nat| #[trigger] chain_node(all, p, k) == chain_node(all, s, k + 1) by {}
    assert forall|k: nat| k < (m - 1) as nat implies has_parent(#[trigger] chain_node(all, p, k)) by {
        assert(chain_node(all, p, k) == chain_node(all, s, k + 1));
        assert(has_parent(chain_node(all, s, k + 1)));
    }
    assert forall|k: nat| k < (m - 1) as nat implies (#[trigger] chain_node(all, p, k + 1)).0 == switch_of(
        chain_node(all, p, k),
    ) by {
        assert(chain_node(all, p, k + 1) == chain_node(all, s, k + 2));
        assert(chain_node(all, p, k) == chain_node(all, s, k + 1));
        assert(chain_node(all, s, (k + 1) + 1).0 == switch_of(chain_node(all, s, k + 1)));
    }
    assert(chain_node(all, p, (m - 1) as nat) == chain_node(all, s, m));
    assert(chain_names(all, p, (m - 1) as nat) == chain_names(all, s, m).drop_first());
}

/// The path that a walk finds is unique.
pub proof fn lemma_cycle_path(all: Seq<Link>, s: Link, m: nat)
    requires
        cycles_at(all, s, m),
    ensures
        cycle_path(all, s) == Some(cycle_names(all, s, m)),
        !chain_terminates(all, s),
{
    let c = choose|c: nat| cycles_at(all, s, c);
    lemma_chain_outcome_unique(all, s, c, m);
    if chain_terminates(all, s) {
        let a = choose|a: nat| terminates_at(all, s, a);
        lemma_chain_outcome_unique(all, s, a, m);
    }
}

/// A walk that ends finds no path.
pub proof fn lemma_no_cycle_path(all: Seq<Link>, s: Link, m: nat)
    requires
        terminates_at(all, s, m),
    ensures
        cycle_path(all, s) is None,
{
    if exists|c: nat| cycles_at(all, s, c) {
        let c = choose|c: nat| cycles_at(all, s, c);
        lemma_chain_outcome_unique(all, s, m, c);
    }
}

/// Membership of a name in a path of names.
fn path_contains(path: &Vec<&String>, name: &String) -> (res: bool)
    ensures
        res == exists|j: int| 0 <= j < path@.len() && (#[trigger] path@[j])@ == name@,
{
    let n = path.len();
    for i in 0..n
        invariant
            n == path@.len(),
            forall|j: int| 0 <= j < i ==> (#[trigger] path@[j])@ != name@,
    {
        if *path[i] == *name {
            return true;
        }
    }
    false
}

fn path_to_strs<'a>(path: &Vec<&'a String>) -> (res: Vec<&'a str>)
    ensures
        res@.len() == path@.len(),
        forall|j: int| 0 <= j < path@.len() ==> (#[trigger] res@[j])@ == path@[j]@,
{
    let mut res: Vec<&'a str> = Vec::new();
    let n = path.len();
    for i in 0..n
        invariant
            n == path@.len(),
            res@.len() == i,
            forall|j: int| 0 <= j < i ==> (#[trigger] res@[j])@ == path@[j]@,
    {
        res.push(path[i].as_str());
    }
    res
}

/// Follows the extended multiplexer switches from `sig`. Returns the names met
/// on the way, ending with the first name met twice, where the switches loop;
/// returns `None` where they end at a signal without a switch.
pub fn find_cycle_containing_signal<'a>(sig: &'a Signal, all: &'a [Signal]) -> (res: Option<
    Vec<&'a str>,
>)
    requires
        walk_resolves(links(all@), link_of(*sig)),
    ensures
        opt_str_views(res) == cycle_path(links(all@), link_of(*sig)),
        res is None <==> chain_terminates(links(all@), link_of(*sig)),
        res matches Some(stack) ==> stack@.len() <= all@.len() + 2,
{
    let ghost ls = links(all@);
    let ghost s0 = link_of(*sig);
    let mut curr: &'a Signal = sig;
    let mut path: Vec<&'a String> = Vec::new();
    path.push(&sig.name);
    let ghost mut k: nat = 0;
    loop
        invariant
            ls == links(all@),
            s0 == link_of(*sig),
            walk_resolves(ls, s0),
            link_of(*curr) == chain_node(ls, s0, k),
            path@.len() == k + 1,
            forall|j: int| 0 <= j <= k ==> (#[trigger] path@[j])@ == chain_node(ls, s0, j as nat).0,
            chain_names(ls, s0, k).no_duplicates(),
            links_up_to(ls, s0, k),
            links_named(ls, s0, k),
            forall|j: nat| 1 <= j <= k ==> first_named(ls, (#[trigger] chain_node(ls, s0, j)).0) >= 0,
            k <= ls.len(),
        decreases ls.len() - k,
    {
        match &curr.ex_mux_parent {
            None => {
                assert(terminates_at(ls, s0, k));
                proof {
                    lemma_no_cycle_path(ls, s0, k);
                }
                return None;
            },
            Some(info) => {
                let switch: &'a String = &info.switch;
                let seen = path_contains(&path, switch);
                proof {
                    assert(switch@ == switch_of(chain_node(ls, s0, k)));
                    assert(links_up_to(ls, s0, k + 1)) by {
                        assert forall|j: nat| j < k + 1 implies has_parent(#[trigger] chain_node(ls, s0, j)) by {
                            if j < k {
                            }
                        }
                    }
                }
                if seen {
                    let ghost old_path = path@;
                    path.push(switch);
                    let stack = path_to_strs(&path);
                    proof {
                        let j = choose|j: int| 0 <= j < old_path.len() && (#[trigger] old_path[j])@ == switch@;
                        assert(chain_names(ls, s0, k)[j] == switch@);
                        assert(cycles_at(ls, s0, k + 1));
                        assert(str_views(stack@) == cycle_names(ls, s0, k + 1));
                        lemma_cycle_path(ls, s0, k + 1);
                    }
                    return Some(stack);
                }
                proof {
                    assert(!chain_names(ls, s0, k).contains(switch@)) by {
                        if chain_names(ls, s0, k).contains(switch@) {
                            let j = choose|j: int| 0 <= j < chain_names(ls, s0, k).len() && chain_names(ls, s0, k)[j] == switch@;
                            assert(path@[j]@ == switch@);
                        }
                    }
                    assert(walk_looks_up(ls, s0, k));
                }
                let idx = find_signal(all, switch);
                let idx = idx.unwrap();
                path.push(switch);
                let ghost old_k = k;
                proof {
                    lemma_chain_node_succ(ls, s0, k);
                    k = k + 1;
                    assert(chain_node(ls, s0, k) == ls[idx as int]);
                    assert(chain_node(ls, s0, k).0 == switch@);
                    assert(chain_names(ls, s0, old_k) == chain_names(ls, s0, k).drop_last());
                    assert(chain_names(ls, s0, k) == chain_names(ls, s0, old_k).push(switch@));
                    assert(links_named(ls, s0, k)) by {
                        assert forall|j: nat| j < k implies (#[trigger] chain_node(ls, s0, j + 1)).0 == switch_of(chain_node(ls, s0, j)) by {
                            if j < old_k {
                            }
                        }
                    }
                    assert(forall|j: nat| 1 <= j <= k ==> first_named(ls, (#[trigger] chain_node(ls, s0, j)).0) >= 0) by {
                        assert(first_named(ls, switch@) == idx);
                    }
                    lemma_chain_bound(ls, s0, k);
                }
                curr = &all[idx];
            },
        }
    }
}

/// Looks for a loop in the extended multiplexer switches of `signals`; returns
/// the path that the first signal whose switches loop finds.
pub fn find_cycle<'a>(signals: &'a [Signal]) -> (res: Option<Vec<&'a str>>)
    requires
        forall|i: int|
            0 <= i < signals@.len() && (forall|j: int|
                0 <= j < i ==> chain_terminates(links(signals@), #[trigger] links(signals@)[j]))
                ==> walk_resolves(links(signals@), #[trigger] links(signals@)[i]),
    ensures
        opt_str_views(res) == first_cycle_path(links(signals@), 0),
        match res {
            None => forall|i: int|
                0 <= i < signals@.len() ==> chain_terminates(links(signals@), #[trigger] links(signals@)[i]),
            Some(stack) => exists|i: int, m: nat|
                0 <= i < signals@.len() && (forall|j: int|
                    0 <= j < i ==> chain_terminates(links(signals@), #[trigger] links(signals@)[j]))
                    && cycles_at(links(signals@), links(signals@)[i], m) && str_views(stack@)
                    == cycle_names(links(signals@), links(signals@)[i], m),
        },
{
    let ghost ls = links(signals@);
    let n = signals.len();
    for i in 0..n
        invariant
            n == signals@.len(),
            ls == links(signals@),
            forall|i: int|
                0 <= i < signals@.len() && (forall|j: int|
                    0 <= j < i ==> chain_terminates(ls, #[trigger] ls[j])) ==> walk_resolves(
                    ls,
                    #[trigger] ls[i],
                ),
            forall|j: int| 0 <= j < i ==> chain_terminates(ls, #[trigger] ls[j]),
            first_cycle_path(ls, 0) == first_cycle_path(ls, i as int),
    {
        assert(ls[i as int] == link_of(signals@[i as int]));
        assert(walk_resolves(ls, ls[i as int]));
        if let Some(stack) = find_cycle_containing_signal(&signals[i], signals) {
            proof {
                let m = choose|m: nat| cycles_at(ls, ls[i as int], m);
                assert(first_cycle_path(ls, i as int) == cycle_path(ls, ls[i as int]));
            }
            return Some(stack);
        }
        proof {
            assert(first_cycle_path(ls, i as int) == first_cycle_path(ls, i + 1));
        }
    }
    None
}

} // verus!
