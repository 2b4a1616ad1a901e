//! The elimination game: eliminating a vertex joins its remaining
//! neighbours pairwise; the width of an ordering is the largest number of
//! remaining neighbours a vertex has when it is eliminated.

use vstd::prelude::*;

use crate::algorithm::minfill::{elim_step, min_fill_run, run_width};
use crate::graph::GraphModel;
use crate::seqs::{idx_filter, lemma_idx_filter, lemma_idx_filter_contains, lemma_idx_filter_ext, lemma_idx_filter_len_mono};

verus! {

/// `u` is a remaining neighbour of `v` under `adj`.
pub open spec fn game_nbr(adj: spec_fn(usize, usize) -> bool, alive: Seq<bool>, v: usize, u: usize) -> bool {
    u != v && (u as int) < alive.len() && alive[u as int] && adj(v, u)
}

/// The remaining neighbours of `v` under `adj`.
pub open spec fn game_nbr_pred(adj: spec_fn(usize, usize) -> bool, alive: Seq<bool>, v: usize) -> spec_fn(usize) -> bool {
    |u: usize| game_nbr(adj, alive, v, u)
}

/// Number of remaining neighbours of `v`.
pub open spec fn game_deg(adj: spec_fn(usize, usize) -> bool, alive: Seq<bool>, v: usize) -> nat {
    idx_filter(game_nbr_pred(adj, alive, v), alive.len()).len()
}

/// The adjacency once `v` is eliminated: its remaining neighbours become
/// pairwise adjacent.
pub open spec fn elim_adj(adj: spec_fn(usize, usize) -> bool, alive: Seq<bool>, v: usize) -> spec_fn(usize, usize) -> bool {
    |x: usize, y: usize| adj(x, y) || (x != y && game_nbr(adj, alive, v, x) && game_nbr(adj, alive, v, y))
}

/// The vertices of `m` that remain once `path` is eliminated.
pub open spec fn game_alive(m: GraphModel, path: Seq<usize>) -> Seq<bool> {
    Seq::new(m.alive.len(), |u: int| m.alive[u] && !path.contains(u as usize))
}

/// The adjacency of `m` once `path` is eliminated in order.
pub open spec fn game_adj(m: GraphModel, path: Seq<usize>) -> spec_fn(usize, usize) -> bool
    decreases path.len(),
{
    if path.len() == 0 {
        |x: usize, y: usize| m.adj(x, y)
    } else {
        elim_adj(game_adj(m, path.drop_last()), game_alive(m, path.drop_last()), path.last())
    }
}

/// The width of eliminating `path` in order from `m`: the largest number of
/// remaining neighbours at elimination.
pub open spec fn game_width(m: GraphModel, path: Seq<usize>) -> nat
    decreases path.len(),
{
    if path.len() == 0 {
        0
    } else {
        let prev = game_width(m, path.drop_last());
        let d = game_deg(game_adj(m, path.drop_last()), game_alive(m, path.drop_last()), path.last());
        if d > prev {
            d
        } else {
            prev
        }
    }
}

/// The graph `g` covers the game on `orig` after `path`: the same vertices
/// remain, and every pair joined in the game is joined in `g`.
pub open spec fn covers(orig: GraphModel, g: GraphModel, path: Seq<usize>) -> bool {
    &&& g.alive == game_alive(orig, path)
    &&& forall|x: usize, y: usize| #[trigger] game_adj(orig, path)(x, y) ==> g.adj(x, y)
}

/// A graph covers its own game before any elimination.
pub proof fn lemma_covers_start(orig: GraphModel)
    ensures
        covers(orig, orig, Seq::empty()),
        game_width(orig, Seq::empty()) == 0,
{
    assert(game_alive(orig, Seq::empty()) =~= orig.alive);
}

/// Adding edges keeps a cover.
pub proof fn lemma_covers_grow(orig: GraphModel, g: GraphModel, g2: GraphModel, path: Seq<usize>)
    requires
        covers(orig, g, path),
        g2.alive == g.alive,
        forall|x: usize, y: usize| #[trigger] g.adj(x, y) ==> g2.adj(x, y),
    ensures
        covers(orig, g2, path),
{
}

/// Eliminating `v` in a covering graph covers the game's elimination of
/// `v`, and `v` has no more remaining neighbours in the game than in the
/// graph.
pub proof fn lemma_covers_elim(orig: GraphModel, g: GraphModel, g2: GraphModel, path: Seq<usize>, v: usize)
    requires
        orig.wf(),
        g.wf(),
        covers(orig, g, path),
        g2.alive == g.alive.update(v as int, false),
        forall|x: usize, y: usize| #[trigger] g2.adj(x, y) <==> g.adj(x, y) || (x != y && g.nbrs(v).contains(x) && g.nbrs(v).contains(y)),
        v < g.nodes.len(),
    ensures
        covers(orig, g2, path.push(v)),
        game_width(orig, path.push(v)) <= if game_width(orig, path) > g.nbrs(v).len() {
            game_width(orig, path)
        } else {
            g.nbrs(v).len()
        },
{
    let p2 = path.push(v);
    assert(p2.drop_last() =~= path);
    assert(p2.last() == v);
    let al = game_alive(orig, path);
    let s = game_adj(orig, path);
    assert(al.len() == g.nodes.len());
    assert forall|u: usize| u < al.len() && #[trigger] game_nbr_pred(s, al, v)(u) implies g.nbr_pred(v)(u) by {}
    lemma_idx_filter_len_mono(game_nbr_pred(s, al, v), g.nbr_pred(v), al.len());
    assert(game_alive(orig, p2) =~= al.update(v as int, false)) by {
        assert forall|u: int| 0 <= u < al.len() implies #[trigger] game_alive(orig, p2)[u] == al.update(v as int, false)[u] by {
            assert(p2.contains(u as usize) == (path.contains(u as usize) || u == v));
        }
    }
    assert forall|x: usize, y: usize| #[trigger] game_adj(orig, p2)(x, y) implies g2.adj(x, y) by {
        if !s(x, y) {
            lemma_idx_filter_contains(g.nbr_pred(v), g.nodes.len(), x);
            lemma_idx_filter_contains(g.nbr_pred(v), g.nodes.len(), y);
        }
    }
}

/// A run of elimination steps from `orig` along `order` is the game: its
/// states are the game's states and its width the game's width.
proof fn lemma_run_is_game(orig: GraphModel, states: Seq<GraphModel>, order: Seq<usize>, k: int)
    requires
        orig.wf(),
        states.len() == order.len() + 1,
        states[0] == orig,
        forall|i: int| 0 <= i < order.len() ==> #[trigger] elim_step(states[i], states[i + 1], order[i]),
        forall|i: int| 0 <= i < order.len() ==> states[i].is_alive(#[trigger] order[i]),
        0 <= k <= order.len(),
    ensures
        states[k].nodes == orig.nodes,
        states[k].alive == game_alive(orig, order.take(k)),
        forall|x: usize, y: usize| #[trigger] states[k].adj(x, y) == game_adj(orig, order.take(k))(x, y),
        run_width(states, order, k) == game_width(orig, order.take(k)),
    decreases k,
{
    if k == 0 {
        assert(order.take(0) =~= Seq::<usize>::empty());
        assert(game_alive(orig, order.take(0)) =~= orig.alive);
    } else {
        let i = k - 1;
        lemma_run_is_game(orig, states, order, i);
        assert(elim_step(states[i], states[i + 1], order[i]));
        let v = order[i];
        assert(states[i].is_alive(order[i]));
        let t = order.take(k);
        assert(t.drop_last() =~= order.take(i));
        assert(t.last() == v);
        let m = states[i];
        let al = game_alive(orig, order.take(i));
        let sadj = game_adj(orig, order.take(i));
        assert(al.len() == m.nodes.len());
        assert(game_alive(orig, t) =~= al.update(v as int, false)) by {
            assert forall|u: int| 0 <= u < al.len() implies #[trigger] game_alive(orig, t)[u] == al.update(v as int, false)[u] by {
                assert(t.contains(u as usize) == (order.take(i).contains(u as usize) || u == v));
            }
        }
        assert forall|u: usize| u < m.nodes.len() implies #[trigger] m.nbr_pred(v)(u) == game_nbr_pred(sadj, al, v)(u) by {}
        lemma_idx_filter_ext(m.nbr_pred(v), game_nbr_pred(sadj, al, v), m.nodes.len());
        assert forall|x: usize, y: usize| #[trigger] states[k].adj(x, y) == game_adj(orig, t)(x, y) by {
            lemma_idx_filter_contains(m.nbr_pred(v), m.nodes.len(), x);
            lemma_idx_filter_contains(m.nbr_pred(v), m.nodes.len(), y);
        }
    }
}

/// The width of a min-fill run is the game width of its ordering.
pub proof fn lemma_min_fill_game(orig: GraphModel, states: Seq<GraphModel>, order: Seq<usize>, ub: nat)
    requires
        orig.wf(),
        states[0] == orig,
        min_fill_run(states, order, ub),
    ensures
        game_width(orig, order) == ub,
{
    assert forall|i: int| 0 <= i < order.len() implies states[i].is_alive(#[trigger] order[i]) by {
        assert(crate::algorithm::minfill::is_min_fill_pick(states[i], order[i]));
    }
    lemma_run_is_game(orig, states, order, order.len() as int);
    assert(order.take(order.len() as int) =~= order);
}

} // verus!
