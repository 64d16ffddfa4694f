//! Rotation chains: in a directory, links named by runs of `P` hold the most
//! recent registrations. Slot `k` (0 is the newest) is named by `k + 1`
//! letters; a registration shifts each slot one letter longer, from the
//! oldest down, and drops what stood in the last one.

use vstd::prelude::*;
use crate::fsmodel::{Action, Fs, Node, Op, moved, node_at, ops_of, run};
use crate::paths::joined;
use crate::text::{chars_of, string_of};

verus! {

/// How many slots a chain keeps.
pub const CHAIN_DEPTH: usize = 10;

/// A run of `n` marker letters.
pub open spec fn marker(n: nat) -> Seq<char> {
    Seq::new(n, |i: int| 'P')
}

/// The link of slot `k` in `dir`.
pub open spec fn slot_link(dir: Seq<char>, k: nat) -> Seq<char> {
    joined(dir, marker(k + 1))
}

/// What the chain in `dir` holds, slot 0 first.
pub open spec fn chain(fs: Fs, dir: Seq<char>) -> Seq<Option<Node>> {
    Seq::new(CHAIN_DEPTH as nat, |k: int| node_at(fs, slot_link(dir, k as nat)))
}

/// No slot is empty while an older one is filled.
pub open spec fn gapless(fs: Fs, dir: Seq<char>) -> bool {
    forall|k: nat|
        k + 1 < CHAIN_DEPTH ==> #[trigger] node_at(fs, slot_link(dir, k)) is None ==> node_at(
            fs,
            slot_link(dir, k + 1),
        ) is None
}

/// The steps that register `target` in the chain of `dir`.
pub open spec fn register_plan(dir: Seq<char>, target: Seq<char>) -> Seq<Op> {
    Seq::new(
        CHAIN_DEPTH as nat,
        |i: int|
            if i + 1 < CHAIN_DEPTH {
                Op::ShiftIfPresent(
                    slot_link(dir, (CHAIN_DEPTH - 2 - i) as nat),
                    slot_link(dir, (CHAIN_DEPTH - 1 - i) as nat),
                )
            } else {
                Op::Symlink(target, slot_link(dir, 0))
            },
    )
}

pub proof fn lemma_slot_link_injective(dir: Seq<char>, a: nat, b: nat)
    ensures
        slot_link(dir, a) == slot_link(dir, b) <==> a == b,
{
    if slot_link(dir, a) == slot_link(dir, b) {
        assert(slot_link(dir, a).len() == dir.len() + 1 + a + 1);
        assert(slot_link(dir, b).len() == dir.len() + 1 + b + 1);
    }
}

/// The name of the link `dir/PP...P` with `n` letters.
fn slot_name(dir: &str, n: usize) -> (r: String)
    ensures
        r@ == joined(dir@, marker(n as nat)),
{
    let mut v = chars_of(dir);
    v.push('/');
    let ghost pre = v@;
    let mut i: usize = 0;
    while i < n
        invariant
            i <= n,
            v@ == pre + marker(i as nat),
        decreases n - i,
    {
        v.push('P');
        i = i + 1;
        assert(v@ =~= pre + marker(i as nat));
    }
    assert(dir@ + seq!['/'] == pre);
    string_of(&v)
}

/// The actions that register `target` in the chain of `dir`: shift each
/// filled slot one generation older, then link slot 0 to `target`.
pub fn register_actions(target: &str, dir: &str) -> (r: Vec<Action>)
    ensures
        ops_of(r@) == register_plan(dir@, target@),
{
    let mut r: Vec<Action> = Vec::new();
    let mut n: usize = CHAIN_DEPTH - 1;
    while n > 0
        invariant
            n < CHAIN_DEPTH,
            r@.len() == CHAIN_DEPTH - 1 - n,
            forall|i: int|
                0 <= i < r@.len() ==> #[trigger] r@[i]@ == register_plan(dir@, target@)[i],
        decreases n,
    {
        let from = slot_name(dir, n);
        let to = slot_name(dir, n + 1);
        r.push(Action::ShiftIfPresent { from, to });
        n = n - 1;
    }
    let link = slot_name(dir, 1);
    r.push(Action::Symlink { target: String::from_str(target), link });
    assert(ops_of(r@) =~= register_plan(dir@, target@));
    r
}

/// Slot `m` after the first `j` shifts of a registration, for a gapless chain.
pub open spec fn after_shifts(old: Seq<Option<Node>>, j: nat, m: nat) -> Option<Node> {
    if j == 0 {
        old[m as int]
    } else if m + j >= CHAIN_DEPTH {
        old[m - 1]
    } else if m + j + 1 == CHAIN_DEPTH {
        None
    } else {
        old[m as int]
    }
}

proof fn lemma_shifts(fs: Fs, dir: Seq<char>, target: Seq<char>, j: nat)
    requires
        j < CHAIN_DEPTH,
        gapless(fs, dir),
    ensures
        forall|m: nat|
            m < CHAIN_DEPTH ==> #[trigger] node_at(
                run(fs, register_plan(dir, target).take(j as int)),
                slot_link(dir, m),
            ) == after_shifts(chain(fs, dir), j, m),
        forall|p: Seq<char>|
            (forall|m: nat| m < CHAIN_DEPTH ==> p != #[trigger] slot_link(dir, m)) ==> node_at(
                run(fs, register_plan(dir, target).take(j as int)),
                p,
            ) == node_at(fs, p),
    decreases j,
{
    let plan = register_plan(dir, target);
    if j == 0 {
        assert(plan.take(0) =~= Seq::<Op>::empty());
    } else {
        lemma_shifts(fs, dir, target, (j - 1) as nat);
        assert(plan.take(j as int).drop_last() =~= plan.take(j - 1));
        let prev = run(fs, plan.take(j - 1));
        let src = (CHAIN_DEPTH - 1 - j) as nat;
        let dst = (CHAIN_DEPTH - j) as nat;
        assert(plan.take(j as int).last() == Op::ShiftIfPresent(
            slot_link(dir, src),
            slot_link(dir, dst),
        ));
        let cur = run(fs, plan.take(j as int));
        assert(cur == moved(prev, slot_link(dir, src), slot_link(dir, dst)));
        assert forall|m: nat| m < CHAIN_DEPTH implies #[trigger] node_at(cur, slot_link(dir, m))
            == after_shifts(chain(fs, dir), j, m) by {
            lemma_slot_link_injective(dir, m, src);
            lemma_slot_link_injective(dir, m, dst);
            assert(node_at(prev, slot_link(dir, m)) == after_shifts(chain(fs, dir), (j - 1) as nat, m));
            assert(node_at(prev, slot_link(dir, src)) == after_shifts(chain(fs, dir), (j - 1) as nat, src));
            if j == 1 && m == dst {
                assert(node_at(fs, slot_link(dir, src)) is None ==> node_at(fs, slot_link(dir, dst)) is None);
            }
        }
    }
}

/// Registering `target` puts it in slot 0 and moves every other entry one
/// slot older; the oldest entry leaves the chain. Nothing else changes.
pub proof fn lemma_register(fs: Fs, dir: Seq<char>, target: Seq<char>)
    requires
        gapless(fs, dir),
    ensures
        chain(run(fs, register_plan(dir, target)), dir) == seq![Some(Node::Link(target))] + chain(
            fs,
            dir,
        ).take(CHAIN_DEPTH - 1),
        gapless(run(fs, register_plan(dir, target)), dir),
        forall|p: Seq<char>|
            (forall|m: nat| m < CHAIN_DEPTH ==> p != #[trigger] slot_link(dir, m)) ==> node_at(
                run(fs, register_plan(dir, target)),
                p,
            ) == node_at(fs, p),
{
    let plan = register_plan(dir, target);
    let j = (CHAIN_DEPTH - 1) as nat;
    lemma_shifts(fs, dir, target, j);
    assert(plan.drop_last() =~= plan.take(j as int));
    let mid = run(fs, plan.take(j as int));
    let fin = run(fs, plan);
    assert(plan.last() == Op::Symlink(target, slot_link(dir, 0)));
    assert(node_at(mid, slot_link(dir, 0)) is None);
    let expect = seq![Some(Node::Link(target))] + chain(fs, dir).take(CHAIN_DEPTH - 1);
    assert forall|m: nat| m < CHAIN_DEPTH implies #[trigger] node_at(fin, slot_link(dir, m))
        == expect[m as int] by {
        lemma_slot_link_injective(dir, m, 0);
        assert(node_at(mid, slot_link(dir, m)) == after_shifts(chain(fs, dir), j, m));
    }
    assert(chain(fin, dir) =~= expect);
    assert forall|k: nat| k + 1 < CHAIN_DEPTH && #[trigger] node_at(fin, slot_link(dir, k)) is None
        implies node_at(fin, slot_link(dir, k + 1)) is None by {
        assert(node_at(fin, slot_link(dir, k)) == expect[k as int]);
        assert(node_at(fin, slot_link(dir, k + 1)) == expect[k + 1 as int]);
        if k > 0 {
            assert(node_at(fs, slot_link(dir, (k - 1) as nat)) is None);
        }
    }
    assert forall|p: Seq<char>|
        (forall|m: nat| m < CHAIN_DEPTH ==> p != #[trigger] slot_link(dir, m)) implies node_at(
            fin,
            p,
        ) == node_at(fs, p) by {
        assert(p != slot_link(dir, 0));
    }
}

/// Whatever the chain held, a registration leaves slot 0 linked to its target.
pub proof fn lemma_register_newest(fs: Fs, dir: Seq<char>, target: Seq<char>)
    ensures
        node_at(run(fs, register_plan(dir, target)), slot_link(dir, 0)) == Some(
            Node::Link(target),
        ),
{
    let plan = register_plan(dir, target);
    let last_shift = (CHAIN_DEPTH - 2) as int;
    assert(plan.drop_last() =~= plan.take(last_shift + 1));
    assert(plan.take(last_shift + 1).drop_last() =~= plan.take(last_shift));
    assert(plan.take(last_shift + 1).last() == Op::ShiftIfPresent(slot_link(dir, 0), slot_link(dir, 1)));
    lemma_slot_link_injective(dir, 0, 1);
    let mid = run(fs, plan.take(last_shift + 1));
    assert(!mid.contains_key(slot_link(dir, 0)));
}

/// The filesystem after registering each of `ts` in the chain of `dir`, in order.
pub open spec fn register_all(fs: Fs, dir: Seq<char>, ts: Seq<Seq<char>>) -> Fs
    decreases ts.len(),
{
    if ts.len() == 0 {
        fs
    } else {
        run(register_all(fs, dir, ts.drop_last()), register_plan(dir, ts.last()))
    }
}

/// After registering `ts`, slot `k` holds the `k`-th most recent of them, and
/// the slots beyond hold what the oldest slots held before.
pub proof fn lemma_register_all(fs: Fs, dir: Seq<char>, ts: Seq<Seq<char>>)
    requires
        gapless(fs, dir),
    ensures
        gapless(register_all(fs, dir, ts), dir),
        forall|k: int|
            0 <= k < CHAIN_DEPTH ==> #[trigger] chain(register_all(fs, dir, ts), dir)[k] == if k
                < ts.len() {
                Some(Node::Link(ts[ts.len() - 1 - k]))
            } else {
                chain(fs, dir)[k - ts.len()]
            },
    decreases ts.len(),
{
    if ts.len() > 0 {
        let before = register_all(fs, dir, ts.drop_last());
        lemma_register_all(fs, dir, ts.drop_last());
        lemma_register(before, dir, ts.last());
        let after = register_all(fs, dir, ts);
        assert forall|k: int| 0 <= k < CHAIN_DEPTH implies #[trigger] chain(after, dir)[k] == if k
            < ts.len() {
            Some(Node::Link(ts[ts.len() - 1 - k]))
        } else {
            chain(fs, dir)[k - ts.len()]
        } by {
            if k > 0 {
                assert(chain(after, dir)[k] == chain(before, dir)[k - 1]);
            }
        }
    }
}

/// After at least ten distinct registrations into a gapless chain, all ten
/// slots are filled, slot 0 links to the latest target, and no slot links to
/// the target registered eleventh from last.
pub proof fn lemma_chain_bound(fs: Fs, dir: Seq<char>, ts: Seq<Seq<char>>)
    requires
        gapless(fs, dir),
        ts.len() >= CHAIN_DEPTH,
        ts.no_duplicates(),
    ensures
        forall|k: int| 0 <= k < CHAIN_DEPTH ==> #[trigger] chain(register_all(fs, dir, ts), dir)[k] is Some,
        chain(register_all(fs, dir, ts), dir)[0] == Some(Node::Link(ts.last())),
        ts.len() > CHAIN_DEPTH ==> forall|k: int|
            0 <= k < CHAIN_DEPTH ==> #[trigger] chain(register_all(fs, dir, ts), dir)[k] != Some(
                Node::Link(ts[ts.len() - 1 - CHAIN_DEPTH]),
            ),
{
    lemma_register_all(fs, dir, ts);
    let after = register_all(fs, dir, ts);
    assert(chain(after, dir)[0] == Some(Node::Link(ts[ts.len() - 1])));
    if ts.len() > CHAIN_DEPTH {
        assert forall|k: int| 0 <= k < CHAIN_DEPTH implies #[trigger] chain(after, dir)[k] != Some(
            Node::Link(ts[ts.len() - 1 - CHAIN_DEPTH]),
        ) by {
            assert(chain(after, dir)[k] == Some(Node::Link(ts[ts.len() - 1 - k])));
        }
    }
}

/// Registering three targets in order leaves them in slots 2, 1 and 0.
pub proof fn lemma_chain_order(fs: Fs, dir: Seq<char>, t1: Seq<char>, t2: Seq<char>, t3: Seq<char>)
    requires
        gapless(fs, dir),
    ensures
        chain(register_all(fs, dir, seq![t1, t2, t3]), dir)[0] == Some(Node::Link(t3)),
        chain(register_all(fs, dir, seq![t1, t2, t3]), dir)[1] == Some(Node::Link(t2)),
        chain(register_all(fs, dir, seq![t1, t2, t3]), dir)[2] == Some(Node::Link(t1)),
{
    lemma_register_all(fs, dir, seq![t1, t2, t3]);
    let after = register_all(fs, dir, seq![t1, t2, t3]);
    assert(chain(after, dir)[0] == Some(Node::Link(seq![t1, t2, t3][2])));
    assert(chain(after, dir)[1] == Some(Node::Link(seq![t1, t2, t3][1])));
    assert(chain(after, dir)[2] == Some(Node::Link(seq![t1, t2, t3][0])));
}

/// The links a reader of the chain of `dir` visits, oldest slot first.
pub open spec fn recent_walk(dir: Seq<char>) -> Seq<Seq<char>> {
    Seq::new(CHAIN_DEPTH as nat, |i: int| slot_link(dir, (CHAIN_DEPTH - 1 - i) as nat))
}

/// The links to read, in order, to show the chain of `dir`: from the longest
/// name down to the shortest, that is, from the oldest slot to the newest.
/// Missing ones are to be skipped.
pub fn recent_links(dir: &str) -> (r: Vec<String>)
    ensures
        r@.len() == CHAIN_DEPTH,
        forall|i: int| 0 <= i < CHAIN_DEPTH ==> #[trigger] r@[i]@ == recent_walk(dir@)[i],
{
    let mut r: Vec<String> = Vec::new();
    let mut n: usize = CHAIN_DEPTH;
    while n > 0
        invariant
            n <= CHAIN_DEPTH,
            r@.len() == CHAIN_DEPTH - n,
            forall|i: int| 0 <= i < r@.len() ==> #[trigger] r@[i]@ == recent_walk(dir@)[i],
        decreases n,
    {
        r.push(slot_name(dir, n));
        n = n - 1;
    }
    r
}

} // verus!
