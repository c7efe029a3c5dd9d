//! A vdev tree, walked node by node.
//!
//! What the grade, the badge and the retry policy say of a pool, stated over the
//! states of the nodes that a walk meets.

use crate::model::{
    at_least, faulted_node, grade_rank, recoverable_node, severity, some_node, tree_grade,
    wants_retry, worse, PoolHealth, PoolView, VdevNode, VdevState,
};
use crate::style::Color;
use crate::ui::badge;
use vstd::prelude::*;

verus! {

/// A node of a tree, and how many levels it stands below the root.
pub struct Met {
    pub node: VdevNode,
    pub depth: nat,
}

/// The nodes of a tree whose root stands at `depth`, each before those below it.
pub open spec fn walk(n: VdevNode, depth: nat) -> Seq<Met>
    decreases n,
{
    seq![Met { node: n, depth }] + walk_all(n.children, depth + 1)
}

/// The nodes of some trees, in order.
pub open spec fn walk_all(f: Seq<VdevNode>, depth: nat) -> Seq<Met>
    decreases f,
{
    if f.len() == 0 {
        Seq::empty()
    } else {
        walk(f[0], depth) + walk_all(f.subrange(1, f.len() as int), depth)
    }
}

/// Whether a node has none below it.
pub open spec fn is_device(n: VdevNode) -> bool {
    n.children.len() == 0
}

pub proof fn lemma_walk_all_split(f: Seq<VdevNode>, depth: nat)
    requires
        f.len() > 0,
    ensures
        walk_all(f, depth) == walk_all(f.subrange(0, f.len() - 1), depth) + walk(
            f[f.len() - 1],
            depth,
        ),
    decreases f,
{
    let front = f.subrange(0, f.len() - 1);
    let rest = f.subrange(1, f.len() as int);
    let last = f[f.len() - 1];
    let none = Seq::<Met>::empty();
    if f.len() == 1 {
        assert(walk_all(front, depth) =~= none);
        assert(walk_all(rest, depth) =~= none);
        assert(walk(f[0], depth) + none == walk(f[0], depth));
        assert(none + walk(f[0], depth) == walk(f[0], depth));
    } else {
        lemma_walk_all_split(rest, depth);
        assert(rest.subrange(0, rest.len() - 1) == front.subrange(1, front.len() as int));
        assert(rest[rest.len() - 1] == last);
        let middle = walk_all(front.subrange(1, front.len() as int), depth);
        assert(front[0] == f[0]);
        assert(walk(f[0], depth) + (middle + walk(last, depth)) == (walk(f[0], depth) + middle)
            + walk(last, depth));
    }
}

/// A walk meets every node: some node of a tree is such exactly where some node on
/// the walk is.
pub proof fn law_walk_meets_every_node(n: VdevNode, depth: nat, p: spec_fn(VdevNode) -> bool)
    ensures
        some_node(n, p) <==> exists|i: int|
            0 <= i < walk(n, depth).len() && p((#[trigger] walk(n, depth)[i]).node),
    decreases n,
{
    let w = walk(n, depth);
    let below = walk_all(n.children, depth + 1);
    lemma_walk_all_meets(n.children, depth + 1, p);
    assert(w[0].node == n);
    if exists|k: int| 0 <= k < below.len() && p((#[trigger] below[k]).node) {
        let k = choose|k: int| 0 <= k < below.len() && p((#[trigger] below[k]).node);
        assert(w[k + 1] == below[k]);
    }
    if exists|i: int| 0 <= i < w.len() && p((#[trigger] w[i]).node) {
        let i = choose|i: int| 0 <= i < w.len() && p((#[trigger] w[i]).node);
        if i > 0 {
            assert(w[i] == below[i - 1]);
        }
    }
}

proof fn lemma_walk_all_meets(f: Seq<VdevNode>, depth: nat, p: spec_fn(VdevNode) -> bool)
    ensures
        (exists|j: int| 0 <= j < f.len() && some_node(#[trigger] f[j], p)) <==> (exists|i: int|
            0 <= i < walk_all(f, depth).len() && p((#[trigger] walk_all(f, depth)[i]).node)),
    decreases f,
{
    if f.len() > 0 {
        let rest = f.subrange(1, f.len() as int);
        let a = walk(f[0], depth);
        let b = walk_all(rest, depth);
        let w = walk_all(f, depth);
        law_walk_meets_every_node(f[0], depth, p);
        lemma_walk_all_meets(rest, depth, p);
        if exists|j: int| 0 <= j < f.len() && some_node(#[trigger] f[j], p) {
            let j = choose|j: int| 0 <= j < f.len() && some_node(#[trigger] f[j], p);
            if j == 0 {
                let i = choose|i: int| 0 <= i < a.len() && p((#[trigger] a[i]).node);
                assert(w[i] == a[i]);
            } else {
                assert(rest[j - 1] == f[j]);
                let i = choose|i: int| 0 <= i < b.len() && p((#[trigger] b[i]).node);
                assert(w[a.len() + i] == b[i]);
            }
        }
        if exists|i: int| 0 <= i < w.len() && p((#[trigger] w[i]).node) {
            let i = choose|i: int| 0 <= i < w.len() && p((#[trigger] w[i]).node);
            if i < a.len() {
                assert(w[i] == a[i]);
                assert(some_node(f[0], p));
            } else {
                assert(w[i] == b[i - a.len()]);
                let j = choose|j: int| 0 <= j < rest.len() && some_node(#[trigger] rest[j], p);
                assert(f[j + 1] == rest[j]);
            }
        }
    }
}

/// A retry is wanted exactly where a scan that is not finished has errors, where any
/// node is unavailable, or where a device is degraded. Devices that are online,
/// faulted, offline or removed ask for none, nor do groups that are degraded.
pub proof fn law_retry_goes_by_the_states(s: PoolView)
    ensures
        wants_retry(s) <==> {
            ||| (s.scan matches Some(scan) && scan.errors > 0 && !(scan.state is Finished))
            ||| exists|i: int|
                0 <= i < walk(s.root, 0).len() && {
                    let n = (#[trigger] walk(s.root, 0)[i]).node;
                    n.row.state is Unavail || (is_device(n) && n.row.state is Degraded)
                }
        },
{
    law_walk_meets_every_node(s.root, 0, recoverable_node());
    let w = walk(s.root, 0);
    assert forall|i: int| 0 <= i < w.len() implies recoverable_node()((#[trigger] w[i]).node) == (
    w[i].node.row.state is Unavail || (is_device(w[i].node)
        && w[i].node.row.state is Degraded)) by {}
}

/// A topology in which nothing is unavailable and no device is degraded asks for no
/// retry, as long as no unfinished scan has errors.
pub proof fn law_no_retry_without_a_cause(s: PoolView)
    requires
        s.scan matches Some(scan) ==> scan.errors == 0 || scan.state is Finished,
        forall|i: int|
            0 <= i < walk(s.root, 0).len() ==> {
                let n = (#[trigger] walk(s.root, 0)[i]).node;
                ||| n.row.state is Online
                ||| n.row.state is Faulted
                ||| n.row.state is Offline
                ||| n.row.state is Removed
                ||| (n.row.state is Degraded && n.children.len() > 0)
            },
    ensures
        !wants_retry(s),
{
    law_retry_goes_by_the_states(s);
}

/// The grade of a tree goes by the states of its nodes: a fault where one is
/// faulted, removed or unavailable, otherwise degraded where one is degraded,
/// otherwise healthy.
pub proof fn law_grade_goes_by_the_states(n: VdevNode)
    ensures
        tree_grade(n) == PoolHealth::Fault <==> exists|i: int|
            0 <= i < walk(n, 0).len() && {
                let v = (#[trigger] walk(n, 0)[i]).node.row.state;
                v is Faulted || v is Removed || v is Unavail
            },
        tree_grade(n) == PoolHealth::Healthy <==> forall|i: int|
            0 <= i < walk(n, 0).len() ==> {
                let v = (#[trigger] walk(n, 0)[i]).node.row.state;
                v is Online || v is Offline
            },
{
    law_walk_meets_every_node(n, 0, at_least(2));
    law_walk_meets_every_node(n, 0, at_least(1));
    let w = walk(n, 0);
    assert forall|i: int| 0 <= i < w.len() implies at_least(2)((#[trigger] w[i]).node) == (
    severity(w[i].node.row.state) >= 2) by {}
    assert forall|i: int| 0 <= i < w.len() implies at_least(1)((#[trigger] w[i]).node) == (
    severity(w[i].node.row.state) >= 1) by {}
}

/// How bad each state is.
pub proof fn law_severity_by_state(s: VdevState)
    ensures
        severity(s) == 0 <==> s is Online || s is Offline,
        severity(s) == 1 <==> s is Degraded,
        severity(s) == 2 <==> s is Faulted || s is Removed || s is Unavail,
{
}

/// The worse of two grades is a fault where either is, and healthy where both are.
pub proof fn law_worse_grade_wins(a: PoolHealth, b: PoolHealth)
    ensures
        worse(a, b) is Fault <==> a is Fault || b is Fault,
        worse(a, b) is Healthy <==> a is Healthy && b is Healthy,
        grade_rank(PoolHealth::Healthy) < grade_rank(PoolHealth::Degraded) < grade_rank(
            PoolHealth::Fault,
        ),
{
}

/// The badge goes by the states of the nodes: it asks for a retry where one is
/// wanted, otherwise for a replacement where a node is faulted, otherwise for
/// nothing.
pub proof fn law_badge_goes_by_the_states(s: PoolView)
    ensures
        ({
            let faulted = exists|i: int|
                0 <= i < walk(s.root, 0).len() && (#[trigger] walk(
                    s.root,
                    0,
                )[i]).node.row.state is Faulted;
            &&& wants_retry(s) ==> badge(s) == Some(("⟳ RETRY"@, Color::Yellow))
            &&& !wants_retry(s) && faulted ==> badge(s) == Some(("✚ REPLACE"@, Color::Red))
            &&& !wants_retry(s) && !faulted ==> badge(s) is None
        }),
{
    law_walk_meets_every_node(s.root, 0, faulted_node());
    let w = walk(s.root, 0);
    assert forall|i: int| 0 <= i < w.len() implies faulted_node()((#[trigger] w[i]).node) == (
    w[i].node.row.state is Faulted) by {}
}

} // verus!
