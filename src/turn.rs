use std::collections::VecDeque;
use vstd::prelude::*;

use crate::actions::Action;
use crate::components::Actor;
use crate::world::{Entity, EntityRecord, GameEvent, World};

verus! {

/// Follow-up actions waiting to be executed, in the order they were produced.
pub struct PendingActions(pub Vec<Action>);

/// The entities still to act in the current turn, front first.
pub struct ActorQueue(pub VecDeque<Entity>);

/// `a` ran on `pre` and succeeded: its effect holds, its follow-ups are
/// queued after `pend_pre`, and its execution is announced.
pub open spec fn executed(
    a: Action,
    pre: World,
    post: World,
    pend_pre: Seq<Action>,
    pend_post: Seq<Action>,
) -> bool {
    exists|mid: World, out: Seq<Action>|
        #![trigger a.effect(pre, mid, out)]
        a.effect(pre, mid, out) && post.entities@ == mid.entities@ && post.board == mid.board
            && post.events@ == mid.events@.push(GameEvent::ActionExecuted(a)) && pend_post == pend_pre + out
}

/// One attempt to execute `a`; `ok` tells whether it succeeded. A failed
/// attempt changes nothing.
pub open spec fn attempt(
    a: Action,
    pre: World,
    post: World,
    pend_pre: Seq<Action>,
    pend_post: Seq<Action>,
    ok: bool,
) -> bool {
    &&& ok == a.succeeds(pre)
    &&& if ok {
        executed(a, pre, post, pend_pre, pend_post)
    } else {
        post == pre && pend_post == pend_pre
    }
}

/// A record of attempting every action of `acts` in order: `ws[i]` and
/// `ps[i]` are the world and the pending list before the `i`-th attempt and
/// `oks[i]` its outcome.
pub open spec fn trace(
    acts: Seq<Action>,
    ws: Seq<World>,
    ps: Seq<Seq<Action>>,
    oks: Seq<bool>,
) -> bool {
    &&& ws.len() == acts.len() + 1
    &&& ps.len() == acts.len() + 1
    &&& oks.len() == acts.len()
    &&& forall|i: int|
        0 <= i < acts.len() ==> #[trigger] attempt(acts[i], ws[i], ws[i + 1], ps[i], ps[i + 1], oks[i])
}

/// Every action of `acts` is attempted in order, each on the world the one
/// before left; `any` tells whether at least one succeeded.
pub open spec fn run_all(
    acts: Seq<Action>,
    pre: World,
    post: World,
    pend_pre: Seq<Action>,
    pend_post: Seq<Action>,
    any: bool,
) -> bool {
    exists|ws: Seq<World>, ps: Seq<Seq<Action>>, oks: Seq<bool>|
        #[trigger] trace(acts, ws, ps, oks) && ws[0] == pre && ws.last() == post && ps[0] == pend_pre
            && ps.last() == pend_post && any == oks.contains(true)
}

/// The candidates are attempted in order until the first success.
pub open spec fn try_first(
    cands: Seq<Action>,
    pre: World,
    post: World,
    pend_pre: Seq<Action>,
    pend_post: Seq<Action>,
    ok: bool,
) -> bool
    decreases cands.len(),
{
    if cands.len() == 0 {
        post == pre && pend_post == pend_pre && !ok
    } else if cands[0].succeeds(pre) {
        ok && executed(cands[0], pre, post, pend_pre, pend_post)
    } else {
        try_first(cands.drop_first(), pre, post, pend_pre, pend_post, ok)
    }
}

/// Inserts a candidate into a list ranked by descending score, after every
/// candidate of equal or higher score.
pub open spec fn insert_ranked(s: Seq<(Action, i32)>, c: (Action, i32)) -> Seq<(Action, i32)>
    decreases s.len(),
{
    if s.len() == 0 || s.last().1 >= c.1 {
        s.push(c)
    } else {
        insert_ranked(s.drop_last(), c).push(s.last())
    }
}

/// The candidates sorted by descending score; equal scores keep their order.
pub open spec fn rank(cands: Seq<(Action, i32)>) -> Seq<(Action, i32)>
    decreases cands.len(),
{
    if cands.len() == 0 {
        seq![]
    } else {
        insert_ranked(rank(cands.drop_last()), cands.last())
    }
}

/// Scores never rise along the list.
pub open spec fn sorted_desc(s: Seq<(Action, i32)>) -> bool {
    forall|i: int, j: int| 0 <= i < j < s.len() ==> (#[trigger] s[i]).1 >= (#[trigger] s[j]).1
}

/// The candidates that have score `v`, in list order.
pub open spec fn with_score(s: Seq<(Action, i32)>, v: i32) -> Seq<(Action, i32)> {
    s.filter(|c: (Action, i32)| c.1 == v)
}

proof fn lemma_filter_push(s: Seq<(Action, i32)>, x: (Action, i32), v: i32)
    ensures
        with_score(s.push(x), v) == if x.1 == v {
            with_score(s, v).push(x)
        } else {
            with_score(s, v)
        },
{
    reveal(Seq::filter);
    assert(s.push(x).drop_last() =~= s);
}

proof fn lemma_insert_ranked(s: Seq<(Action, i32)>, x: (Action, i32), v: i32)
    requires
        sorted_desc(s),
    ensures
        sorted_desc(insert_ranked(s, x)),
        insert_ranked(s, x).to_multiset() == s.to_multiset().insert(x),
        with_score(insert_ranked(s, x), v) == if x.1 == v {
            with_score(s, v).push(x)
        } else {
            with_score(s, v)
        },
    decreases s.len(),
{
    broadcast use vstd::seq_lib::group_to_multiset_ensures;

    if s.len() == 0 || s.last().1 >= x.1 {
        lemma_filter_push(s, x, v);
        let r = s.push(x);
        assert forall|i: int, j: int| 0 <= i < j < r.len() implies (#[trigger] r[i]).1 >= (#[trigger] r[j]).1 by {
            if j == r.len() - 1 {
                if i < s.len() - 1 {
                    assert(s[i].1 >= s[s.len() - 1].1);
                }
            } else {
                assert(r[i] == s[i] && r[j] == s[j]);
            }
        };
    } else {
        let d = s.drop_last();
        let l = s.last();
        assert(sorted_desc(d)) by {
            assert forall|i: int, j: int| 0 <= i < j < d.len() implies (#[trigger] d[i]).1 >= (#[trigger] d[j]).1 by {
                assert(d[i] == s[i] && d[j] == s[j]);
            };
        };
        lemma_insert_ranked(d, x, v);
        let m = insert_ranked(d, x);
        let r = m.push(l);
        assert(s =~= d.push(l));
        lemma_filter_push(m, l, v);
        lemma_filter_push(d, l, v);
        if x.1 == v {
            assert(l.1 != v);
        }
        assert(with_score(r, v) =~= if x.1 == v { with_score(s, v).push(x) } else { with_score(s, v) });
        assert(m.to_multiset() == d.to_multiset().insert(x));
        assert(r.to_multiset() =~= s.to_multiset().insert(x));
        assert forall|i: int, j: int| 0 <= i < j < r.len() implies (#[trigger] r[i]).1 >= (#[trigger] r[j]).1 by {
            if j == r.len() - 1 {
                assert(r[j] == l);
                assert(m.to_multiset().contains(r[i]));
                assert(r[i] == m[i]);
                assert(m.contains(m[i]));
                assert(d.to_multiset().insert(x).contains(m[i]));
                if m[i] != x {
                    assert(d.to_multiset().contains(m[i]));
                    assert(d.contains(m[i]));
                    let k = choose|k: int| 0 <= k < d.len() && d[k] == m[i];
                    assert(s[k] == d[k]);
                    assert(s[k].1 >= s[s.len() - 1].1);
                }
            } else {
                assert(r[i] == m[i] && r[j] == m[j]);
            }
        };
    }
}

/// Ranking sorts the candidates by descending score, keeps every candidate,
/// and keeps the order of candidates with equal scores.
pub proof fn lemma_rank_is_stable_sort(cands: Seq<(Action, i32)>, v: i32)
    ensures
        sorted_desc(rank(cands)),
        rank(cands).to_multiset() == cands.to_multiset(),
        with_score(rank(cands), v) == with_score(cands, v),
    decreases cands.len(),
{
    broadcast use vstd::seq_lib::group_to_multiset_ensures;

    if cands.len() > 0 {
        let d = cands.drop_last();
        lemma_rank_is_stable_sort(d, v);
        lemma_insert_ranked(rank(d), cands.last(), v);
        assert(cands =~= d.push(cands.last()));
        lemma_filter_push(d, cands.last(), v);
    } else {
        reveal(Seq::filter);
        assert(rank(cands) =~= cands);
    }
}

pub open spec fn actions_of(cands: Seq<(Action, i32)>) -> Seq<Action> {
    cands.map_values(|c: (Action, i32)| c.0)
}

/// `s` is `r` in every component but the actor's.
pub open spec fn same_but_actor(r: EntityRecord, s: EntityRecord) -> bool {
    s == EntityRecord { actor: s.actor, ..r }
}

/// `post` is `pre` with the candidate list of `e` emptied.
pub open spec fn drained(pre: World, post: World, e: Entity) -> bool {
    &&& post.board == pre.board
    &&& post.events@ == pre.events@
    &&& post.alive(e)
    &&& post.entities@ == pre.entities@.update(e.0 as int, Some(post.rec(e)))
    &&& same_but_actor(pre.rec(e), post.rec(e))
    &&& post.rec(e).actor.is_some()
    &&& post.rec(e).actor.unwrap().0@.len() == 0
}

/// The turn of the queue's front entity, with no pending work left.
pub open spec fn queue_turn(
    q0: Seq<Entity>,
    w0: World,
    q1: Seq<Entity>,
    pend_post: Seq<Action>,
    w1: World,
) -> bool {
    if q0.len() == 0 {
        &&& q1 == q0
        &&& pend_post == Seq::<Action>::empty()
        &&& w1.entities@ == w0.entities@
        &&& w1.board == w0.board
        &&& w1.events@ == w0.events@.push(GameEvent::ActionsComplete)
    } else {
        let e = q0[0];
        &&& q1 == q0.drop_first()
        &&& if !w0.alive(e) || w0.rec(e).actor.is_none() {
            &&& pend_post == Seq::<Action>::empty()
            &&& w1.entities@ == w0.entities@
            &&& w1.board == w0.board
            &&& w1.events@ == w0.events@.push(GameEvent::NextActor)
        } else {
            let ranked = actions_of(rank(w0.rec(e).actor.unwrap().0@));
            exists|wd: World, wt: World, ok: bool|
                #![trigger drained(w0, wd, e), try_first(ranked, wd, wt, Seq::<Action>::empty(), pend_post, ok)]
                drained(w0, wd, e) && try_first(ranked, wd, wt, Seq::<Action>::empty(), pend_post, ok)
                    && w1.entities@ == wt.entities@ && w1.board == wt.board && w1.events@
                    == wt.events@.push(
                    if !ok && wt.alive(e) && wt.rec(e).player {
                        GameEvent::InvalidPlayerAction
                    } else {
                        GameEvent::NextActor
                    },
                )
        }
    }
}

/// One tick of the turn engine: pending work first; if none of it succeeds,
/// the turn of the queue's front entity.
pub open spec fn tick(
    q0: Seq<Entity>,
    pend_pre: Seq<Action>,
    w0: World,
    q1: Seq<Entity>,
    pend_post: Seq<Action>,
    w1: World,
) -> bool {
    ||| run_all(pend_pre, w0, w1, Seq::<Action>::empty(), pend_post, true) && q1 == q0
    ||| run_all(pend_pre, w0, w0, Seq::<Action>::empty(), Seq::<Action>::empty(), false) && queue_turn(
        q0,
        w0,
        q1,
        pend_post,
        w1,
    )
}

proof fn lemma_run_all_none(
    acts: Seq<Action>,
    pre: World,
    post: World,
    pend_pre: Seq<Action>,
    pend_post: Seq<Action>,
)
    requires
        run_all(acts, pre, post, pend_pre, pend_post, false),
    ensures
        post == pre,
        pend_post == pend_pre,
{
    let (ws, ps, oks) = choose|ws: Seq<World>, ps: Seq<Seq<Action>>, oks: Seq<bool>|
        #[trigger] trace(acts, ws, ps, oks) && ws[0] == pre && ws.last() == post && ps[0] == pend_pre
            && ps.last() == pend_post && false == oks.contains(true);
    lemma_trace_unchanged(acts, ws, ps, oks, acts.len() as int);
}

proof fn lemma_trace_unchanged(
    acts: Seq<Action>,
    ws: Seq<World>,
    ps: Seq<Seq<Action>>,
    oks: Seq<bool>,
    k: int,
)
    requires
        trace(acts, ws, ps, oks),
        !oks.contains(true),
        0 <= k <= acts.len(),
    ensures
        ws[k] == ws[0],
        ps[k] == ps[0],
    decreases k,
{
    if k > 0 {
        lemma_trace_unchanged(acts, ws, ps, oks, k - 1);
        let i = k - 1;
        assert(attempt(acts[i], ws[i], ws[i + 1], ps[i], ps[i + 1], oks[i]));
        if oks[k - 1] {
            assert(oks.contains(true));
        }
    }
}

/// Turn order: a tick leaves the queue as it was, when pending follow-ups
/// succeed, or takes exactly its front entity off; with nothing pending and
/// an entity queued, that entity's turn is taken.
pub proof fn lemma_queue_fifo(
    q0: Seq<Entity>,
    pend_pre: Seq<Action>,
    w0: World,
    q1: Seq<Entity>,
    pend_post: Seq<Action>,
    w1: World,
)
    requires
        tick(q0, pend_pre, w0, q1, pend_post, w1),
    ensures
        q1 == q0 || (q0.len() > 0 && q1 == q0.drop_first()),
        pend_pre.len() == 0 && q0.len() > 0 ==> q1 == q0.drop_first(),
        pend_pre.len() == 0 && q0.len() == 0 ==> w1.events@.last() == GameEvent::ActionsComplete,
{
    if pend_pre.len() == 0 && run_all(pend_pre, w0, w1, Seq::<Action>::empty(), pend_post, true) {
        let (ws, ps, oks) = choose|ws: Seq<World>, ps: Seq<Seq<Action>>, oks: Seq<bool>|
            #[trigger] trace(pend_pre, ws, ps, oks) && ws[0] == w0 && ws.last() == w1 && ps[0]
                == Seq::<Action>::empty() && ps.last() == pend_post && true == oks.contains(true);
        assert(oks.len() == 0);
        assert(!oks.contains(true));
    }
}

/// With nothing pending, a tick gives the front entity of the queue its
/// turn: the queue moves on by one, and when its best-ranked candidate can
/// be done on the world with its candidates cleared, exactly that candidate
/// is executed, its follow-ups become the pending work and the next actor is
/// called.
pub proof fn lemma_turn_takes_best(
    q0: Seq<Entity>,
    w0: World,
    q1: Seq<Entity>,
    pend_post: Seq<Action>,
    w1: World,
)
    requires
        tick(q0, Seq::<Action>::empty(), w0, q1, pend_post, w1),
        q0.len() > 0,
        w0.alive(q0[0]),
        w0.rec(q0[0]).actor.is_some(),
    ensures
        q1 == q0.drop_first(),
        exists|wd: World, wt: World|
            #![trigger drained(w0, wd, q0[0]), wt.entities]
            drained(w0, wd, q0[0]) && w1.entities@ == wt.entities@ && w1.board == wt.board && ({
                let ranked = actions_of(rank(w0.rec(q0[0]).actor.unwrap().0@));
                ranked.len() > 0 && ranked[0].succeeds(wd) ==> executed(
                    ranked[0],
                    wd,
                    wt,
                    Seq::<Action>::empty(),
                    pend_post,
                ) && w1.events@ == wt.events@.push(GameEvent::NextActor)
            }),
{
    lemma_queue_fifo(q0, Seq::<Action>::empty(), w0, q1, pend_post, w1);
    if run_all(Seq::<Action>::empty(), w0, w1, Seq::<Action>::empty(), pend_post, true) {
        let (ws, ps, oks) = choose|ws: Seq<World>, ps: Seq<Seq<Action>>, oks: Seq<bool>|
            #[trigger] trace(Seq::<Action>::empty(), ws, ps, oks) && ws[0] == w0 && ws.last() == w1 && ps[0]
                == Seq::<Action>::empty() && ps.last() == pend_post && true == oks.contains(true);
        assert(oks.len() == 0);
        assert(!oks.contains(true));
    }
    let e = q0[0];
    let ranked = actions_of(rank(w0.rec(e).actor.unwrap().0@));
    let (wd, wt, ok) = choose|wd: World, wt: World, ok: bool|
        #![trigger drained(w0, wd, e), try_first(ranked, wd, wt, Seq::<Action>::empty(), pend_post, ok)]
        drained(w0, wd, e) && try_first(ranked, wd, wt, Seq::<Action>::empty(), pend_post, ok)
            && w1.entities@ == wt.entities@ && w1.board == wt.board && w1.events@ == wt.events@.push(
            if !ok && wt.alive(e) && wt.rec(e).player {
                GameEvent::InvalidPlayerAction
            } else {
                GameEvent::NextActor
            },
        );
    assert(drained(w0, wd, e) && w1.entities@ == wt.entities@);
}

proof fn lemma_insert_at(s: Seq<(Action, i32)>, c: (Action, i32), k: int)
    requires
        0 <= k <= s.len(),
        forall|j: int| k <= j < s.len() ==> (#[trigger] s[j]).1 < c.1,
        k == 0 || s[k - 1].1 >= c.1,
    ensures
        insert_ranked(s, c) == s.insert(k, c),
    decreases s.len(),
{
    if s.len() == 0 {
        assert(s.insert(k, c) =~= seq![c]);
    } else if s.last().1 >= c.1 {
        assert(k == s.len());
        assert(s.insert(k, c) =~= s.push(c));
    } else {
        let d = s.drop_last();
        lemma_insert_at(d, c, k);
        assert(s.insert(k, c) =~= d.insert(k, c).push(s.last()));
    }
}

proof fn lemma_try_first(
    all: Seq<Action>,
    k: int,
    pre: World,
    post: World,
    pend_post: Seq<Action>,
    ok: bool,
)
    requires
        0 <= k <= all.len(),
        forall|j: int| 0 <= j < k ==> !(#[trigger] all[j]).succeeds(pre),
        k == all.len() ==> post == pre && pend_post == Seq::<Action>::empty() && !ok,
        k < all.len() ==> all[k].succeeds(pre) && ok && executed(
            all[k],
            pre,
            post,
            Seq::<Action>::empty(),
            pend_post,
        ),
    ensures
        try_first(all, pre, post, Seq::<Action>::empty(), pend_post, ok),
    decreases k,
{
    if k > 0 {
        let rest = all.drop_first();
        assert forall|j: int| 0 <= j < k - 1 implies !(#[trigger] rest[j]).succeeds(pre) by {
            assert(rest[j] == all[j + 1]);
        };
        if k < all.len() {
            assert(rest[k - 1] == all[k]);
        }
        lemma_try_first(rest, k - 1, pre, post, pend_post, ok);
        assert(!all[0].succeeds(pre));
    }
}

/// Executes one action; on success its follow-ups are appended to the
/// pending list and its execution is announced.
fn execute_action(action: Action, pending: &mut PendingActions, world: &mut World) -> (ok: bool)
    ensures
        attempt(action, *old(world), *final(world), old(pending).0@, final(pending).0@, ok),
{
    let ghost pre = *world;
    let ghost pend_pre = pending.0@;
    match action.execute(world) {
        Ok(mut out) => {
            let ghost mid = *world;
            let ghost out_seq = out@;
            pending.0.append(&mut out);
            world.events.push(GameEvent::ActionExecuted(action));
            assert(action.effect(pre, mid, out_seq));
            assert(pending.0@ == pend_pre + out_seq);
            true
        },
        Err(_) => false,
    }
}

/// Drains the pending actions and executes each of them in order; their
/// follow-ups become the new pending list. Reports whether any succeeded.
fn process_pending_actions(pending: &mut PendingActions, world: &mut World) -> (any: bool)
    ensures
        run_all(old(pending).0@, *old(world), *final(world), Seq::<Action>::empty(), final(pending).0@, any),
{
    let mut acts: Vec<Action> = Vec::new();
    std::mem::swap(&mut acts, &mut pending.0);
    let ghost all = acts@;
    let ghost mut ws: Seq<World> = seq![*world];
    let ghost mut ps: Seq<Seq<Action>> = seq![pending.0@];
    let ghost mut oks: Seq<bool> = seq![];
    let mut any = false;
    while acts.len() > 0
        invariant
            acts@.len() <= all.len(),
            acts@ == all.subrange(all.len() - acts@.len(), all.len() as int),
            trace(all.subrange(0, all.len() - acts@.len()), ws, ps, oks),
            ws.last() == *world,
            ps.last() == pending.0@,
            ps[0] == Seq::<Action>::empty(),
            ws[0] == *old(world),
            any == oks.contains(true),
        decreases acts@.len(),
    {
        let ghost done = all.len() - acts@.len();
        let ghost mid = *world;
        let ghost pm = pending.0@;
        let a = acts.remove(0);
        assert(a == all[done]);
        let ok = execute_action(a, pending, world);
        proof {
            let old_ws = ws;
            let old_ps = ps;
            let old_oks = oks;
            ws = ws.push(*world);
            ps = ps.push(pending.0@);
            oks = oks.push(ok);
            let pre_seq = all.subrange(0, done + 1);
            assert forall|i: int| 0 <= i < pre_seq.len() implies #[trigger] attempt(
                pre_seq[i],
                ws[i],
                ws[i + 1],
                ps[i],
                ps[i + 1],
                oks[i],
            ) by {
                if i < done {
                    assert(pre_seq[i] == all.subrange(0, done)[i]);
                    assert(attempt(all.subrange(0, done)[i], old_ws[i], old_ws[i + 1], old_ps[i], old_ps[i + 1], old_oks[i]));
                }
            };
            assert(oks.contains(true) == (old_oks.contains(true) || ok)) by {
                if old_oks.contains(true) {
                    let j = choose|j: int| 0 <= j < old_oks.len() && old_oks[j] == true;
                    assert(oks[j] == true);
                }
                if ok {
                    assert(oks[old_oks.len() as int] == true);
                }
                if oks.contains(true) {
                    let j = choose|j: int| 0 <= j < oks.len() && oks[j] == true;
                    if j < old_oks.len() {
                        assert(old_oks[j] == true);
                    }
                }
            };
            assert(acts@ =~= all.subrange(all.len() - acts@.len(), all.len() as int));
        }
        any = any || ok;
    }
    assert(all.subrange(0, all.len() as int) =~= all);
    assert(trace(all, ws, ps, oks));
    any
}

/// Sorts the candidates by descending score, keeping the order of equal scores.
fn rank_candidates(cands: Vec<(Action, i32)>) -> (r: Vec<(Action, i32)>)
    ensures
        r@ == rank(cands@),
{
    let ghost all = cands@;
    let mut rest = cands;
    let mut ranked: Vec<(Action, i32)> = Vec::new();
    assert(all.subrange(0, 0) =~= Seq::<(Action, i32)>::empty());
    while rest.len() > 0
        invariant
            rest@.len() <= all.len(),
            rest@ == all.subrange(all.len() - rest@.len(), all.len() as int),
            ranked@ == rank(all.subrange(0, all.len() - rest@.len())),
        decreases rest@.len(),
    {
        let ghost done = all.len() - rest@.len();
        let c = rest.remove(0);
        assert(c == all[done]);
        let mut k: usize = ranked.len();
        while k > 0 && ranked[k - 1].1 < c.1
            invariant
                k <= ranked@.len(),
                forall|j: int| k <= j < ranked@.len() ==> (#[trigger] ranked@[j]).1 < c.1,
            decreases k,
        {
            k = k - 1;
        }
        proof {
            lemma_insert_at(ranked@, c, k as int);
            let pre_seq = all.subrange(0, done + 1);
            assert(pre_seq.drop_last() =~= all.subrange(0, done));
            assert(pre_seq.last() == c);
        }
        ranked.insert(k, c);
        assert(rest@ =~= all.subrange(all.len() - rest@.len(), all.len() as int));
    }
    assert(all.subrange(0, all.len() as int) =~= all);
    ranked
}

/// One tick of the turn engine. Pending follow-ups are executed first; if
/// one of them succeeds the tick ends there. Otherwise the front entity of
/// the queue takes its turn: its candidates, best score first, are tried
/// until one succeeds. A player whose candidates all fail is asked again.
pub fn process_action_queue(queue: &mut ActorQueue, pending: &mut PendingActions, world: &mut World)
    ensures
        tick(
            old(queue).0@,
            old(pending).0@,
            *old(world),
            final(queue).0@,
            final(pending).0@,
            *final(world),
        ),
{
    let ghost w0 = *world;
    let ghost pend_pre = pending.0@;
    if process_pending_actions(pending, world) {
        return;
    }
    proof {
        lemma_run_all_none(pend_pre, w0, *world, Seq::<Action>::empty(), pending.0@);
    }
    let e = match queue.0.pop_front() {
        Some(e) => e,
        None => {
            world.events.push(GameEvent::ActionsComplete);
            return;
        },
    };
    let has_actor = e.0 < world.entities.len() && match &world.entities[e.0] {
        Some(rec) => rec.actor.is_some(),
        None => false,
    };
    if !has_actor {
        world.events.push(GameEvent::NextActor);
        return;
    }
    let mut rec = world.take_record(e);
    let actor = rec.actor.take().unwrap();
    rec.actor = Some(Actor(Vec::new()));
    world.entities.set(e.0, Some(rec));
    let ghost wd = *world;
    assert(world.entities@ =~= w0.entities@.update(e.0 as int, Some(rec)));
    assert(drained(w0, wd, e));
    let ranked = rank_candidates(actor.0);
    let ghost all = actions_of(ranked@);
    let mut rest = ranked;
    let mut ok = false;
    while rest.len() > 0 && !ok
        invariant
            all == actions_of(ranked@),
            rest@.len() <= ranked@.len(),
            rest@ == ranked@.subrange(ranked@.len() - rest@.len(), ranked@.len() as int),
            !ok ==> *world == wd && pending.0@ == Seq::<Action>::empty(),
            forall|j: int|
                0 <= j < ranked@.len() - rest@.len() - (if ok { 1int } else { 0 }) ==> !(
                #[trigger] all[j]).succeeds(wd),
            ok ==> ranked@.len() - rest@.len() >= 1 && all[ranked@.len() - rest@.len() - 1].succeeds(wd)
                && executed(
                all[ranked@.len() - rest@.len() - 1],
                wd,
                *world,
                Seq::<Action>::empty(),
                pending.0@,
            ),
        decreases rest@.len(),
    {
        let ghost done = ranked@.len() - rest@.len();
        let (a, _score) = rest.remove(0);
        assert(a == all[done]);
        ok = execute_action(a, pending, world);
        assert(rest@ =~= ranked@.subrange(ranked@.len() - rest@.len(), ranked@.len() as int));
    }
    proof {
        let k = if ok { ranked@.len() - rest@.len() - 1 } else { ranked@.len() as int };
        lemma_try_first(all, k, wd, *world, pending.0@, ok);
    }
    let is_player = e.0 < world.entities.len() && match &world.entities[e.0] {
        Some(rec) => rec.player,
        None => false,
    };
    let ghost wt = *world;
    if !ok && is_player {
        world.events.push(GameEvent::InvalidPlayerAction);
    } else {
        world.events.push(GameEvent::NextActor);
    }
    assert(queue.0@ =~= old(queue).0@.drop_first());
}

} // verus!
