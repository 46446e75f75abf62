//! Replay: the meaning of a command log as a fold into an index map.
//! The on-disk log is the single source of truth; the index is exactly
//! the result of replaying it, and the laws here say that this
//! derivation is idempotent and survives appends.

use vstd::prelude::*;

use vstd::set::{axiom_set_insert_len, axiom_set_remove_len};

use crate::command::CmdView;

verus! {

/// One command's effect on an index.
pub open spec fn apply_cmd(m: Map<Seq<char>, Seq<char>>, c: CmdView) -> Map<Seq<char>, Seq<char>> {
    match c {
        CmdView::Put(k, v) => m.insert(k, v),
        CmdView::Remove(k) => m.remove(k),
        CmdView::Get(_) => m,
    }
}

/// Fold a command sequence over a starting index.
pub open spec fn replay_from(m: Map<Seq<char>, Seq<char>>, cmds: Seq<CmdView>) -> Map<
    Seq<char>,
    Seq<char>,
>
    decreases cmds.len(),
{
    if cmds.len() == 0 {
        m
    } else {
        replay_from(apply_cmd(m, cmds[0]), cmds.drop_first())
    }
}

/// The index derived from a log: the replay of its commands from the
/// empty index.
pub open spec fn replay(cmds: Seq<CmdView>) -> Map<Seq<char>, Seq<char>> {
    replay_from(Map::empty(), cmds)
}

/// Whether one command mutates key `k`.
pub open spec fn cmd_touches(c: CmdView, k: Seq<char>) -> bool {
    match c {
        CmdView::Put(k2, _) => k2 == k,
        CmdView::Remove(k2) => k2 == k,
        CmdView::Get(_) => false,
    }
}

/// Whether any command in `cmds` mutates key `k`.
pub open spec fn touches(cmds: Seq<CmdView>, k: Seq<char>) -> bool {
    exists|i: int| 0 <= i < cmds.len() && cmd_touches(#[trigger] cmds[i], k)
}

/// At a key the log never mutates, replay leaves the starting index
/// alone.
pub proof fn lemma_replay_untouched(m: Map<Seq<char>, Seq<char>>, cmds: Seq<CmdView>, k: Seq<char>)
    requires
        !touches(cmds, k),
    ensures
        replay_from(m, cmds).contains_key(k) == m.contains_key(k),
        m.contains_key(k) ==> replay_from(m, cmds)[k] == m[k],
    decreases cmds.len(),
{
    if cmds.len() > 0 {
        assert(!cmd_touches(cmds[0], k));
        assert(forall|i: int|
            0 <= i < cmds.drop_first().len() ==> #[trigger] cmds.drop_first()[i] == cmds[i + 1]);
        lemma_replay_untouched(apply_cmd(m, cmds[0]), cmds.drop_first(), k);
    }
}

/// At a key the log does mutate, replay ends the same wherever it
/// started.
pub proof fn lemma_replay_touched(
    m1: Map<Seq<char>, Seq<char>>,
    m2: Map<Seq<char>, Seq<char>>,
    cmds: Seq<CmdView>,
    k: Seq<char>,
)
    requires
        touches(cmds, k),
    ensures
        replay_from(m1, cmds).contains_key(k) == replay_from(m2, cmds).contains_key(k),
        replay_from(m1, cmds).contains_key(k) ==> replay_from(m1, cmds)[k] == replay_from(
            m2,
            cmds,
        )[k],
    decreases cmds.len(),
{
    assert(cmds.len() > 0);
    let rest = cmds.drop_first();
    assert(forall|i: int| 0 <= i < rest.len() ==> #[trigger] rest[i] == cmds[i + 1]);
    let n1 = apply_cmd(m1, cmds[0]);
    let n2 = apply_cmd(m2, cmds[0]);
    if touches(rest, k) {
        lemma_replay_touched(n1, n2, rest, k);
    } else {
        let i = choose|i: int| 0 <= i < cmds.len() && cmd_touches(#[trigger] cmds[i], k);
        if i > 0 {
            assert(rest[i - 1] == cmds[i]);
            assert(cmd_touches(rest[i - 1], k));
            assert(false);
        }
        assert(cmd_touches(cmds[0], k));
        lemma_replay_untouched(n1, rest, k);
        lemma_replay_untouched(n2, rest, k);
    }
}

/// Law (replay idempotence): replaying a log a second time, starting
/// from the index it already produced, yields that same index.
pub proof fn lemma_replay_idempotent(cmds: Seq<CmdView>)
    ensures
        replay_from(replay(cmds), cmds) == replay(cmds),
{
    let m = replay(cmds);
    let twice = replay_from(m, cmds);
    assert forall|k: Seq<char>| #[trigger] twice.contains_key(k) implies m.contains_key(k)
        && twice[k] == m[k] by {
        if touches(cmds, k) {
            lemma_replay_touched(m, Map::empty(), cmds, k);
        } else {
            lemma_replay_untouched(m, cmds, k);
        }
    }
    assert forall|k: Seq<char>| #[trigger] m.contains_key(k) implies twice.contains_key(k) by {
        if touches(cmds, k) {
            lemma_replay_touched(m, Map::empty(), cmds, k);
        } else {
            lemma_replay_untouched(m, cmds, k);
        }
    }
    assert(twice =~= m);
}

/// Replaying a log with one more command applies that command last.
pub proof fn lemma_replay_from_snoc(m: Map<Seq<char>, Seq<char>>, cmds: Seq<CmdView>, c: CmdView)
    ensures
        replay_from(m, cmds.push(c)) == apply_cmd(replay_from(m, cmds), c),
    decreases cmds.len(),
{
    if cmds.len() == 0 {
        assert(cmds.push(c)[0] == c);
        assert(cmds.push(c).drop_first() =~= Seq::<CmdView>::empty());
        assert(replay_from(m, cmds.push(c)) == replay_from(
            apply_cmd(m, c),
            cmds.push(c).drop_first(),
        ));
        assert(replay_from(apply_cmd(m, c), cmds.push(c).drop_first()) == apply_cmd(m, c));
    } else {
        assert(cmds.push(c)[0] == cmds[0]);
        assert(cmds.push(c).drop_first() =~= cmds.drop_first().push(c));
        lemma_replay_from_snoc(apply_cmd(m, cmds[0]), cmds.drop_first(), c);
    }
}

/// Law (get after set): after appending `Put(k, v)` to any log, the
/// derived index maps `k` to `v`; after appending `Remove(k)` instead,
/// `k` is absent.
pub proof fn lemma_get_after_set(cmds: Seq<CmdView>, k: Seq<char>, v: Seq<char>)
    ensures
        replay(cmds.push(CmdView::Put(k, v))).contains_key(k),
        replay(cmds.push(CmdView::Put(k, v)))[k] == v,
        !replay(cmds.push(CmdView::Remove(k))).contains_key(k),
{
    lemma_replay_from_snoc(Map::empty(), cmds, CmdView::Put(k, v));
    lemma_replay_from_snoc(Map::empty(), cmds, CmdView::Remove(k));
}

/// Replay never yields more live keys than the commands applied on top
/// of what the starting index held.
pub proof fn lemma_replay_dom_bound(m: Map<Seq<char>, Seq<char>>, cmds: Seq<CmdView>)
    requires
        m.dom().finite(),
    ensures
        replay_from(m, cmds).dom().finite(),
        replay_from(m, cmds).dom().len() <= m.dom().len() + cmds.len(),
    decreases cmds.len(),
{
    if cmds.len() > 0 {
        let n = apply_cmd(m, cmds[0]);
        match cmds[0] {
            CmdView::Put(k, v) => {
                axiom_set_insert_len(m.dom(), k);
                assert(n.dom() =~= m.dom().insert(k));
            },
            CmdView::Remove(k) => {
                axiom_set_remove_len(m.dom(), k);
                assert(n.dom() =~= m.dom().remove(k));
            },
            CmdView::Get(_) => {},
        }
        lemma_replay_dom_bound(n, cmds.drop_first());
    }
}

} // verus!
