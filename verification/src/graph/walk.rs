//! The depth-first traversal as a machine: its configurations, the steps it
//! takes by itself, the calls it makes to the two callbacks, and what a
//! sequence of such calls has to look like to be a traversal.

use super::Graph;
use vstd::prelude::*;

verus! {

/// A frame of the traversal's stack: a node that is still to be expanded, or
/// one that is waiting for its post-order call.
#[derive(Debug)]
pub enum Dfs<Idx> {
    Pre(Idx),
    Post(Idx),
}

impl<Idx> Dfs<Idx> {
    /// The node of the frame.
    pub open spec fn node(self) -> Idx {
        match self {
            Dfs::Pre(i) => i,
            Dfs::Post(i) => i,
        }
    }
}

/// One call of a callback, with what it was given and what it answered.
pub enum Call<Idx, Cost, D> {
    /// `pre_order(from, to, cost, data)` answered `next`.
    PreOrder { from: Idx, to: Idx, cost: Cost, data: D, next: Option<D> },
    /// `post_order(idx, data)` returned.
    PostOrder { idx: Idx, data: D },
}

/// A configuration of the traversal.
pub struct Walk<Idx, D> {
    /// The stack of frames, each with its payload; the last one is the top.
    pub stack: Seq<(Dfs<Idx>, D)>,
    /// For each ordinal, whether its node has been expanded.
    pub done: Seq<bool>,
    /// The node that is being expanded, its payload, and the position of the
    /// next of its edges.
    pub cursor: Option<(Idx, D, int)>,
}

impl<Idx, D> Walk<Idx, D> {
    /// Nothing is left to do.
    pub open spec fn finished(self) -> bool {
        self.stack.len() == 0 && self.cursor is None
    }
}

/// The configuration in which a traversal from `init` begins: no node is
/// marked, and the stack holds the post-order frame of the first node below
/// its pre-order frame.
pub open spec fn start<G: Graph, D>(g: &G, init: (G::Idx, D)) -> Walk<G::Idx, D> {
    Walk {
        stack: seq![(Dfs::Post(init.0), init.1), (Dfs::Pre(init.0), init.1)],
        done: Seq::new(g.size(), |k: int| false),
        cursor: None,
    }
}

/// The next step of `w` is a call of a callback.
///
/// That is so where the edge under the cursor leads to a node that is not
/// marked, and where no node is being expanded and a post-order frame is on
/// top of the stack.
pub open spec fn waiting<G: Graph, D>(g: &G, w: Walk<G::Idx, D>) -> bool {
    match w.cursor {
        Some((i, d, k)) => 0 <= k < g.edges_spec(i).len() && !w.done[g.ordinal(
            g.edges_spec(i)[k].0,
        )],
        None => w.stack.len() > 0 && w.stack.last().0 is Post,
    }
}

/// `c` is the call that `w` is waiting to make, with some answer.
pub open spec fn admits<G: Graph, D>(
    g: &G,
    w: Walk<G::Idx, D>,
    c: Call<G::Idx, G::Cost, D>,
) -> bool {
    waiting(g, w) && match w.cursor {
        Some((i, d, k)) => c matches Call::PreOrder { from, to, cost, data, next } && from == i
            && to == g.edges_spec(i)[k].0 && cost == g.edges_spec(i)[k].1 && data == d,
        None => c == Call::<G::Idx, G::Cost, D>::PostOrder {
            idx: w.stack.last().0.node(),
            data: w.stack.last().1,
        },
    }
}

/// The configuration after the step that `w` takes without a call, where it
/// is neither waiting nor finished.
///
/// With a node under expansion, the cursor moves past an edge to a marked
/// node, or is dropped behind the last edge. Otherwise a pre-order frame is
/// on top: it is popped, its node is marked, and the cursor is set before the
/// first edge of that node.
pub open spec fn stepped<G: Graph, D>(g: &G, w: Walk<G::Idx, D>) -> Walk<G::Idx, D> {
    match w.cursor {
        Some((i, d, k)) => if 0 <= k < g.edges_spec(i).len() {
            Walk { cursor: Some((i, d, k + 1)), ..w }
        } else {
            Walk { cursor: None, ..w }
        },
        None => Walk {
            stack: w.stack.drop_last(),
            done: w.done.update(g.ordinal(w.stack.last().0.node()), true),
            cursor: Some((w.stack.last().0.node(), w.stack.last().1, 0)),
        },
    }
}

/// The number of steps that the cursor of `w` still allows, and one more.
pub open spec fn cursor_budget<G: Graph, D>(g: &G, w: Walk<G::Idx, D>) -> nat {
    match w.cursor {
        Some((i, d, k)) => if 0 <= k < g.edges_spec(i).len() {
            (g.edges_spec(i).len() - k + 1) as nat
        } else {
            1
        },
        None => 0,
    }
}

/// The configuration that `w` reaches by itself: the first one that is
/// waiting or finished.
pub open spec fn settle<G: Graph, D>(g: &G, w: Walk<G::Idx, D>) -> Walk<G::Idx, D>
    decreases w.stack.len(), cursor_budget(g, w),
{
    if waiting(g, w) || w.finished() {
        w
    } else {
        settle(g, stepped(g, w))
    }
}

/// The configuration after the call `c`, which `w` was waiting to make.
///
/// A post-order call pops its frame. A pre-order call moves the cursor past
/// its edge; where it answers with a payload, the post-order frame and above
/// it the pre-order frame of the edge's target are pushed, both with that
/// payload.
pub open spec fn fire<G: Graph, D>(
    g: &G,
    w: Walk<G::Idx, D>,
    c: Call<G::Idx, G::Cost, D>,
) -> Walk<G::Idx, D> {
    match c {
        Call::PostOrder { .. } => Walk { stack: w.stack.drop_last(), ..w },
        Call::PreOrder { to, next, .. } => Walk {
            stack: match next {
                Some(nd) => w.stack.push((Dfs::Post(to), nd)).push((Dfs::Pre(to), nd)),
                None => w.stack,
            },
            done: w.done,
            cursor: match w.cursor {
                Some((i, d, k)) => Some((i, d, k + 1)),
                None => None,
            },
        },
    }
}

/// The configuration that a traversal from `init` is in after the calls
/// `trace`, settled.
pub open spec fn replay<G: Graph, D>(
    g: &G,
    init: (G::Idx, D),
    trace: Seq<Call<G::Idx, G::Cost, D>>,
) -> Walk<G::Idx, D>
    decreases trace.len(),
{
    if trace.len() == 0 {
        settle(g, start(g, init))
    } else {
        settle(g, fire(g, replay(g, init, trace.drop_last()), trace.last()))
    }
}

/// Each call of `trace` is the one that the traversal from `init` was
/// waiting to make after the calls before it.
pub open spec fn is_walk_prefix<G: Graph, D>(
    g: &G,
    init: (G::Idx, D),
    trace: Seq<Call<G::Idx, G::Cost, D>>,
) -> bool
    decreases trace.len(),
{
    trace.len() == 0 || (is_walk_prefix(g, init, trace.drop_last()) && admits(
        g,
        replay(g, init, trace.drop_last()),
        trace.last(),
    ))
}

/// `trace` is a whole traversal from `init`: the calls it made, in order, up
/// to the point where nothing was left to do.
pub open spec fn is_walk<G: Graph, D>(
    g: &G,
    init: (G::Idx, D),
    trace: Seq<Call<G::Idx, G::Cost, D>>,
) -> bool {
    is_walk_prefix(g, init, trace) && replay(g, init, trace).finished()
}

/// `c` is a call that the callbacks can have made: its answer is one that
/// the callback may give to what it was handed.
pub open spec fn answered<Idx, Cost, D, F, H>(
    pre_order: F,
    post_order: H,
    c: Call<Idx, Cost, D>,
) -> bool where
    F: FnMut(&Idx, &Idx, &Cost, &D) -> Option<D>,
    H: FnMut(&Idx, &D),
 {
    match c {
        Call::PreOrder { from, to, cost, data, next } => call_ensures(
            pre_order,
            (&from, &to, &cost, &data),
            next,
        ),
        Call::PostOrder { idx, data } => call_ensures(post_order, (&idx, &data), ()),
    }
}

/// The callbacks accept every call that a traversal of `g` can make:
/// `pre_order` every edge of the graph, `post_order` every node, each with
/// any payload.
pub open spec fn callable<G: Graph, D, F, H>(g: &G, pre_order: F, post_order: H) -> bool where
    F: FnMut(&G::Idx, &G::Idx, &G::Cost, &D) -> Option<D>,
    H: FnMut(&G::Idx, &D),
 {
    &&& forall|from: G::Idx, k: int, d: D|
        g.contains(from) && 0 <= k < g.edges_spec(from).len() ==> call_requires(
            pre_order,
            (&from, &g.edges_spec(from)[k].0, &g.edges_spec(from)[k].1, &d),
        )
    &&& forall|i: G::Idx, d: D| g.contains(i) ==> call_requires(post_order, (&i, &d))
}

/// The number of ordinals that are not marked.
pub open spec fn unmarked(done: Seq<bool>) -> nat
    decreases done.len(),
{
    if done.len() == 0 {
        0
    } else {
        unmarked(done.drop_last()) + if done.last() {
            0nat
        } else {
            1nat
        }
    }
}

/// The number of pre-order frames on `stack` whose node is marked.
pub open spec fn stale<G: Graph, D>(g: &G, stack: Seq<(Dfs<G::Idx>, D)>, done: Seq<bool>) -> nat
    decreases stack.len(),
{
    if stack.len() == 0 {
        0
    } else {
        stale(g, stack.drop_last(), done) + if stack.last().0 is Pre && done[g.ordinal(
            stack.last().0.node(),
        )] {
            1nat
        } else {
            0nat
        }
    }
}

/// Marking an ordinal that was not marked leaves one less unmarked.
pub proof fn lemma_unmarked_mark(done: Seq<bool>, o: int)
    requires
        0 <= o < done.len(),
        !done[o],
    ensures
        unmarked(done.update(o, true)) + 1 == unmarked(done),
    decreases done.len(),
{
    let after = done.update(o, true);
    if o < done.len() - 1 {
        lemma_unmarked_mark(done.drop_last(), o);
        assert(after.drop_last() =~= done.drop_last().update(o, true));
    } else {
        assert(after.drop_last() =~= done.drop_last());
    }
}

impl<Idx, Cost, D> Call<Idx, Cost, D> {
    /// The node that the call is made for: the one whose edge is offered, or
    /// the one that is finished.
    pub open spec fn source(self) -> Idx {
        match self {
            Call::PreOrder { from, .. } => from,
            Call::PostOrder { idx, .. } => idx,
        }
    }
}

/// What holds of every configuration that a traversal reaches: there is a
/// mark for each ordinal, the frames and the cursor name nodes of the graph,
/// the node under the cursor is marked, and a post-order frame whose node is
/// not marked lies directly below the pre-order frame of that node.
pub open spec fn consistent<G: Graph, D>(g: &G, w: Walk<G::Idx, D>) -> bool {
    &&& w.done.len() == g.size()
    &&& forall|p: int| 0 <= p < w.stack.len() ==> g.contains((#[trigger] w.stack[p]).0.node())
    &&& forall|p: int|
        0 <= p < w.stack.len() && (#[trigger] w.stack[p]).0 is Post ==> w.done[g.ordinal(
            w.stack[p].0.node(),
        )] || (p + 1 < w.stack.len() && w.stack[p + 1].0 == Dfs::Pre(w.stack[p].0.node()))
    &&& w.cursor matches Some((i, d, k)) ==> g.contains(i) && w.done[g.ordinal(i)]
}

/// Every ordinal that is marked in `a` is marked in `b`.
pub open spec fn marks_kept(a: Seq<bool>, b: Seq<bool>) -> bool {
    a.len() == b.len() && forall|o: int| 0 <= o < a.len() && a[o] ==> b[o]
}

proof fn lemma_stepped_consistent<G: Graph, D>(g: &G, w: Walk<G::Idx, D>)
    requires
        g.wf(),
        consistent(g, w),
        !waiting(g, w),
        !w.finished(),
    ensures
        consistent(g, stepped(g, w)),
        marks_kept(w.done, stepped(g, w).done),
{
    let v = stepped(g, w);
    if w.cursor is None {
        let i = w.stack.last().0.node();
        assert(g.contains(w.stack[w.stack.len() - 1].0.node()));
        g.lemma_ordinal(i, i);
        assert forall|p: int| 0 <= p < v.stack.len() && (#[trigger] v.stack[p]).0 is Post implies v.done[g.ordinal(
            v.stack[p].0.node(),
        )] || (p + 1 < v.stack.len() && v.stack[p + 1].0 == Dfs::Pre(v.stack[p].0.node())) by {
            assert(v.stack[p] == w.stack[p]);
            g.lemma_ordinal(w.stack[p].0.node(), i);
        }
        assert forall|p: int| 0 <= p < v.stack.len() implies g.contains(
            (#[trigger] v.stack[p]).0.node(),
        ) by {
            assert(v.stack[p] == w.stack[p]);
        }
    }
}

proof fn lemma_fire_consistent<G: Graph, D>(
    g: &G,
    w: Walk<G::Idx, D>,
    c: Call<G::Idx, G::Cost, D>,
)
    requires
        g.wf(),
        consistent(g, w),
        admits(g, w, c),
    ensures
        consistent(g, fire(g, w, c)),
        fire(g, w, c).done == w.done,
{
    let v = fire(g, w, c);
    match c {
        Call::PostOrder { .. } => {
            assert forall|p: int| 0 <= p < v.stack.len() implies v.stack[p] == w.stack[p] by {}
            assert forall|p: int|
                0 <= p < v.stack.len() && (#[trigger] v.stack[p]).0 is Post implies v.done[g.ordinal(
                v.stack[p].0.node(),
            )] || (p + 1 < v.stack.len() && v.stack[p + 1].0 == Dfs::Pre(v.stack[p].0.node())) by {
                assert(v.stack[p] == w.stack[p]);
            }
            assert forall|p: int| 0 <= p < v.stack.len() implies g.contains(
                (#[trigger] v.stack[p]).0.node(),
            ) by {
                assert(v.stack[p] == w.stack[p]);
            }
        },
        Call::PreOrder { to, next, .. } => {
            let (i, d, k) = w.cursor->0;
            g.lemma_edges(i, k);
            assert forall|p: int|
                0 <= p < v.stack.len() && (#[trigger] v.stack[p]).0 is Post implies v.done[g.ordinal(
                v.stack[p].0.node(),
            )] || (p + 1 < v.stack.len() && v.stack[p + 1].0 == Dfs::Pre(v.stack[p].0.node())) by {
                if p < w.stack.len() {
                    assert(v.stack[p] == w.stack[p]);
                    if p + 1 < w.stack.len() {
                        assert(v.stack[p + 1] == w.stack[p + 1]);
                    }
                }
            }
            assert forall|p: int| 0 <= p < v.stack.len() implies g.contains(
                (#[trigger] v.stack[p]).0.node(),
            ) by {
                if p < w.stack.len() {
                    assert(v.stack[p] == w.stack[p]);
                }
            }
        },
    }
}

proof fn lemma_settle_consistent<G: Graph, D>(g: &G, w: Walk<G::Idx, D>)
    requires
        g.wf(),
        consistent(g, w),
    ensures
        consistent(g, settle(g, w)),
        marks_kept(w.done, settle(g, w).done),
        waiting(g, settle(g, w)) || settle(g, w).finished(),
    decreases w.stack.len(), cursor_budget(g, w),
{
    if !(waiting(g, w) || w.finished()) {
        lemma_stepped_consistent(g, w);
        lemma_settle_consistent(g, stepped(g, w));
    }
}

/// The calls before any call of a traversal are a traversal so far, and the
/// call is the one that it was waiting to make after them.
pub proof fn lemma_walk_prefix<G: Graph, D>(
    g: &G,
    init: (G::Idx, D),
    trace: Seq<Call<G::Idx, G::Cost, D>>,
    k: int,
)
    requires
        is_walk_prefix(g, init, trace),
        0 <= k <= trace.len(),
    ensures
        is_walk_prefix(g, init, trace.take(k)),
        k < trace.len() ==> admits(g, replay(g, init, trace.take(k)), trace[k]),
    decreases trace.len(),
{
    if k == trace.len() {
        assert(trace.take(k) =~= trace);
    } else if k == trace.len() - 1 {
        assert(trace.take(k) =~= trace.drop_last());
    } else {
        lemma_walk_prefix(g, init, trace.drop_last(), k);
        assert(trace.take(k) =~= trace.drop_last().take(k));
    }
}

/// The configuration after the calls of a traversal so far is consistent,
/// and waiting or finished; every mark that was set after the first `j` of
/// the calls is still set.
pub proof fn lemma_replay_consistent<G: Graph, D>(
    g: &G,
    init: (G::Idx, D),
    trace: Seq<Call<G::Idx, G::Cost, D>>,
    j: int,
)
    requires
        g.wf(),
        g.contains(init.0),
        is_walk_prefix(g, init, trace),
        0 <= j <= trace.len(),
    ensures
        consistent(g, replay(g, init, trace)),
        waiting(g, replay(g, init, trace)) || replay(g, init, trace).finished(),
        marks_kept(replay(g, init, trace.take(j)).done, replay(g, init, trace).done),
    decreases trace.len(),
{
    if trace.len() == 0 {
        let w = start(g, init);
        assert(w.stack[0].0.node() == init.0 && w.stack[1].0.node() == init.0);
        lemma_settle_consistent(g, w);
        assert(trace.take(j) =~= trace);
    } else {
        let before = trace.drop_last();
        let w = replay(g, init, before);
        lemma_replay_consistent(g, init, before, if j < trace.len() {
            j
        } else {
            0
        });
        lemma_fire_consistent(g, w, trace.last());
        lemma_settle_consistent(g, fire(g, w, trace.last()));
        if j < trace.len() {
            assert(trace.take(j) =~= before.take(j));
        } else {
            assert(trace.take(j) =~= trace);
        }
    }
}

/// No edge is offered that leads to a marked node: once a call was made for
/// a node, be it `pre_order` for one of its edges or `post_order`, no later
/// call of `pre_order` offers an edge that leads to that node.
///
/// A node can still be expanded more than once: where edges to it are
/// offered from several nodes before it is expanded itself, a frame is
/// pushed for each of them.
pub proof fn lemma_no_reentry<G: Graph, D>(
    g: &G,
    init: (G::Idx, D),
    trace: Seq<Call<G::Idx, G::Cost, D>>,
    j: int,
    k: int,
)
    requires
        g.wf(),
        g.contains(init.0),
        is_walk_prefix(g, init, trace),
        0 <= j < k < trace.len(),
        trace[k] is PreOrder,
    ensures
        trace[k]->to != trace[j].source(),
{
    let upto_k = trace.take(k);
    let wj = replay(g, init, trace.take(j));
    let wk = replay(g, init, upto_k);
    lemma_walk_prefix(g, init, trace, k);
    lemma_walk_prefix(g, init, trace, j);
    assert(upto_k.take(j) =~= trace.take(j));
    lemma_replay_consistent(g, init, upto_k, j);
    lemma_replay_consistent(g, init, trace.take(j), 0);
    // the node of the earlier call was marked when that call was made
    let s = trace[j].source();
    assert(g.contains(s) && wj.done[g.ordinal(s)]) by {
        if wj.cursor is None {
            assert(wj.stack[wj.stack.len() - 1].0 is Post);
        }
    }
    g.lemma_ordinal(s, s);
    // and the target of the later call was not marked when that was made
    assert(!wk.done[g.ordinal(trace[k]->to)]);
}

/// The number of calls of `post_order` in `trace` that were made for `v`.
pub open spec fn posts_of<Idx, Cost, D>(trace: Seq<Call<Idx, Cost, D>>, v: Idx) -> nat
    decreases trace.len(),
{
    if trace.len() == 0 {
        0
    } else {
        posts_of(trace.drop_last(), v) + if trace.last() is PostOrder && trace.last().source()
            == v {
            1nat
        } else {
            0nat
        }
    }
}

/// The number of calls of `pre_order` in `trace` that offered an edge to `v`
/// and were answered with a payload.
pub open spec fn entries_of<Idx, Cost, D>(trace: Seq<Call<Idx, Cost, D>>, v: Idx) -> nat
    decreases trace.len(),
{
    if trace.len() == 0 {
        0
    } else {
        entries_of(trace.drop_last(), v) + if trace.last() matches Call::PreOrder {
            to,
            next: Some(_),
            ..
        } && to == v {
            1nat
        } else {
            0nat
        }
    }
}

/// The number of post-order frames on `stack` that are for `v`.
pub open spec fn post_frames<Idx, D>(stack: Seq<(Dfs<Idx>, D)>, v: Idx) -> nat
    decreases stack.len(),
{
    if stack.len() == 0 {
        0
    } else {
        post_frames(stack.drop_last(), v) + if stack.last().0 == Dfs::Post(v) {
            1nat
        } else {
            0nat
        }
    }
}

proof fn lemma_post_frames_push<Idx, D>(stack: Seq<(Dfs<Idx>, D)>, frame: (Dfs<Idx>, D), v: Idx)
    ensures
        post_frames(stack.push(frame), v) == post_frames(stack, v) + if frame.0 == Dfs::Post(v) {
            1nat
        } else {
            0nat
        },
{
    assert(stack.push(frame).drop_last() =~= stack);
}

proof fn lemma_settle_post_frames<G: Graph, D>(g: &G, w: Walk<G::Idx, D>, v: G::Idx)
    ensures
        post_frames(settle(g, w).stack, v) == post_frames(w.stack, v),
    decreases w.stack.len(), cursor_budget(g, w),
{
    if !(waiting(g, w) || w.finished()) {
        lemma_settle_post_frames(g, stepped(g, w), v);
    }
}

/// After the calls of a traversal so far, each node has had a call of
/// `post_order`, or has a post-order frame on the stack, for each time that
/// it was entered.
proof fn lemma_posts_so_far<G: Graph, D>(
    g: &G,
    init: (G::Idx, D),
    trace: Seq<Call<G::Idx, G::Cost, D>>,
    v: G::Idx,
)
    requires
        is_walk_prefix(g, init, trace),
    ensures
        posts_of(trace, v) + post_frames(replay(g, init, trace).stack, v) == entries_of(trace, v)
            + if v == init.0 {
            1nat
        } else {
            0nat
        },
    decreases trace.len(),
{
    if trace.len() == 0 {
        let w = start(g, init);
        let none = Seq::<(Dfs<G::Idx>, D)>::empty();
        let post = (Dfs::Post(init.0), init.1);
        let pre = (Dfs::Pre(init.0), init.1);
        assert(w.stack =~= none.push(post).push(pre));
        lemma_post_frames_push(none, post, v);
        lemma_post_frames_push(none.push(post), pre, v);
        lemma_settle_post_frames(g, w, v);
    } else {
        let before = replay(g, init, trace.drop_last());
        let after = fire(g, before, trace.last());
        lemma_posts_so_far(g, init, trace.drop_last(), v);
        match trace.last() {
            Call::PostOrder { .. } => {},
            Call::PreOrder { to, next, .. } => {
                if let Some(nd) = next {
                    lemma_post_frames_push(before.stack, (Dfs::Post(to), nd), v);
                    lemma_post_frames_push(
                        before.stack.push((Dfs::Post(to), nd)),
                        (Dfs::Pre(to), nd),
                        v,
                    );
                }
            },
        }
        lemma_settle_post_frames(g, after, v);
    }
}

/// In a whole traversal, `post_order` is called for a node as often as the
/// node was entered: once for each call of `pre_order` that offered an edge
/// to it and was answered with a payload, and once more for the node at
/// which the traversal began.
pub proof fn lemma_posts_match_entries<G: Graph, D>(
    g: &G,
    init: (G::Idx, D),
    trace: Seq<Call<G::Idx, G::Cost, D>>,
    v: G::Idx,
)
    requires
        is_walk(g, init, trace),
    ensures
        posts_of(trace, v) == entries_of(trace, v) + if v == init.0 {
            1nat
        } else {
            0nat
        },
{
    lemma_posts_so_far(g, init, trace, v);
}

} // verus!
