//! Colored-edge queries shared by the rewrites, and the removal of every
//! edge of a pair.

use vstd::prelude::*;

use crate::graph::{
    alive_colored, joins, lemma_alive_count, lemma_cmult_swap_remove, lemma_mult_split, EColor, Graph,
    GraphModel,
};
use crate::petgraph_ext::{connects, linking, multiplicity};
use crate::seqs::{after, and_not_pred, and_pred, count_if, idx_filter, lemma_count_if_none, lemma_count_if_pos, lemma_count_if_swap_remove, lemma_idx_filter};

verus! {

/// `{x, y}` and `{a, b}` are the same unordered pair.
pub open spec fn same_pair(x: usize, y: usize, a: usize, b: usize) -> bool {
    (x == a && y == b) || (x == b && y == a)
}

/// Number of alive edges of color `c` joining `a` and `b`: those edges when
/// both ends are alive, none otherwise.
pub open spec fn acmult(m: GraphModel, a: usize, b: usize, c: EColor) -> nat {
    if m.is_alive(a) && m.is_alive(b) {
        m.cmult(a, b, c)
    } else {
        0
    }
}

/// The vertices `u != v` joined to `v` by an alive edge of color `c`,
/// ascending.
pub open spec fn colored_nbrs(m: GraphModel, v: usize, c: EColor) -> Seq<usize> {
    idx_filter(colored_pred(m, v, c), m.nodes.len())
}

/// `u` is a vertex other than `v` joined to `v` by an alive edge of color
/// `c`.
pub open spec fn colored_pred(m: GraphModel, v: usize, c: EColor) -> spec_fn(usize) -> bool {
    |u: usize| u != v && acmult(m, v, u, c) > 0
}

pub proof fn lemma_acmult_alive_count(m: GraphModel, a: usize, b: usize, c: EColor)
    requires
        m.wf(),
    ensures
        count_if(alive_colored(m), joins(a, b, c)) == acmult(m, a, b, c),
{
    let ac = alive_colored(m);
    let ids = m.alive_edge_ids();
    lemma_idx_filter(
        |i: usize| (i as int) < m.edges.len() && m.is_alive(m.edges[i as int].0) && m.is_alive(m.edges[i as int].1),
        m.edges.len(),
    );
    if m.is_alive(a) && m.is_alive(b) {
        lemma_alive_count(m, joins(a, b, c));
    } else {
        assert forall|k: int| 0 <= k < ac.len() implies !joins(a, b, c)(#[trigger] ac[k]) by {
            assert(ac[k] == m.edges[ids[k] as int]);
            assert(m.is_alive(m.edges[ids[k] as int].0) && m.is_alive(m.edges[ids[k] as int].1));
        }
        lemma_count_if_none(ac, joins(a, b, c));
    }
}

/// Number of alive edges of color `c` joining `a` and `b`.
pub(crate) fn count_joining(g: &Graph, a: usize, b: usize, c: EColor) -> (r: usize)
    requires
        g.wf(),
    ensures
        r == acmult(g@, a, b, c),
{
    let es = g.edges();
    let ghost m = g@;
    let ghost ac = alive_colored(m);
    let ghost q = joins(a, b, c);
    proof {
        g.lemma_wf();
        lemma_idx_filter(
            |i: usize| (i as int) < m.edges.len() && m.is_alive(m.edges[i as int].0) && m.is_alive(m.edges[i as int].1),
            m.edges.len(),
        );
    }
    let mut cnt: usize = 0;
    let mut k: usize = 0;
    while k < es.len()
        invariant
            g.wf(),
            m == g@,
            m.wf(),
            ac == alive_colored(m),
            q == joins(a, b, c),
            es.len() == ac.len(),
            forall|j: int| 0 <= j < es.len() ==> (#[trigger] es[j]).2 < m.edges.len() && ac[j] == (es[j].0, es[j].1, m.edges[es[j].2 as int].2),
            k <= es.len(),
            cnt <= k,
            cnt == count_if(ac.take(k as int), q),
        decreases es.len() - k,
    {
        let (s, t, e) = es[k];
        let col = g.edge_color(e);
        proof {
            assert(ac.take(k + 1).drop_last() =~= ac.take(k as int));
            assert(ac.take(k + 1).last() == ac[k as int]);
        }
        if ((s == a && t == b) || (s == b && t == a)) && col == c {
            cnt += 1;
        }
        k += 1;
    }
    proof {
        assert(ac.take(es.len() as int) =~= ac);
        lemma_acmult_alive_count(m, a, b, c);
    }
    cnt
}

/// Is there an alive normal-colored edge between `a` and `b`? A self-loop
/// (`a == b`) counts; a dead endpoint sees nothing.
pub fn nc_connected(g: &Graph, a: usize, b: usize) -> (r: bool)
    requires
        g.wf(),
    ensures
        r == (acmult(g@, a, b, EColor::NC) > 0),
{
    count_joining(g, a, b, EColor::NC) > 0
}

/// Is there an alive H-colored edge between `a` and `b`? A self-loop
/// (`a == b`) counts; a dead endpoint sees nothing.
pub fn h_connected(g: &Graph, a: usize, b: usize) -> (r: bool)
    requires
        g.wf(),
    ensures
        r == (acmult(g@, a, b, EColor::H) > 0),
{
    count_joining(g, a, b, EColor::H) > 0
}

/// The vertices other than `v` joined to `v` by an alive edge of color `c`,
/// ascending and without repetition.
fn colored_neighbours(g: &Graph, v: usize, c: EColor) -> (r: Vec<usize>)
    requires
        g.wf(),
    ensures
        r@ == colored_nbrs(g@, v, c),
{
    let n = g.node_count();
    let es = g.edges();
    let ghost m = g@;
    let ghost ac = alive_colored(m);
    let ghost p = colored_pred(m, v, c);
    proof {
        g.lemma_wf();
        lemma_idx_filter(
            |i: usize| (i as int) < m.edges.len() && m.is_alive(m.edges[i as int].0) && m.is_alive(m.edges[i as int].1),
            m.edges.len(),
        );
    }
    let mut mark: Vec<bool> = Vec::new();
    let mut i: usize = 0;
    while i < n
        invariant
            i <= n,
            mark.len() == i,
            forall|u: int| 0 <= u < i ==> !mark[u],
        decreases n - i,
    {
        mark.push(false);
        i += 1;
    }
    proof {
        assert forall|j: int| 0 <= j < es.len() implies (#[trigger] es[j]).0 < n && es[j].1 < n by {
            assert(ac[j] == m.edges[m.alive_edge_ids()[j] as int]);
        }
    }
    let mut k: usize = 0;
    while k < es.len()
        invariant
            g.wf(),
            m == g@,
            m.wf(),
            n == m.nodes.len(),
            ac == alive_colored(m),
            es.len() == ac.len(),
            forall|j: int| 0 <= j < es.len() ==> (#[trigger] es[j]).2 < m.edges.len() && ac[j] == (es[j].0, es[j].1, m.edges[es[j].2 as int].2),
            forall|j: int| 0 <= j < es.len() ==> (#[trigger] es[j]).0 < n && es[j].1 < n,
            mark.len() == n,
            k <= es.len(),
            forall|u: usize| u < n ==> (mark@[u as int] <==> u != v && exists|j: int| 0 <= j < k && #[trigger] joins(v, u, c)(ac[j])),
        decreases es.len() - k,
    {
        let (s, t, e) = es[k];
        let col = g.edge_color(e);
        if col == c {
            if s == v && t != v {
                mark.set(t, true);
            } else if t == v && s != v {
                mark.set(s, true);
            }
        }
        k += 1;
        proof {
            assert forall|u: usize| u < n implies (mark@[u as int] <==> u != v && exists|j: int| 0 <= j < k && #[trigger] joins(v, u, c)(ac[j])) by {
                if u != v && joins(v, u, c)(ac[k - 1]) {
                    assert(mark@[u as int]);
                }
                if exists|j: int| 0 <= j < k && #[trigger] joins(v, u, c)(ac[j]) {
                    let j = choose|j: int| 0 <= j < k && #[trigger] joins(v, u, c)(ac[j]);
                    if j < k - 1 {
                        assert(exists|j2: int| 0 <= j2 < k - 1 && #[trigger] joins(v, u, c)(ac[j2]));
                    }
                }
            }
        }
    }
    proof {
        assert forall|u: usize| u < n implies (mark@[u as int] <==> #[trigger] p(u)) by {
            lemma_count_if_pos(ac, joins(v, u, c));
            lemma_acmult_alive_count(m, v, u, c);
            if p(u) {
                let j = choose|j: int| 0 <= j < ac.len() && #[trigger] joins(v, u, c)(ac[j]);
                assert(0 <= j < k && joins(v, u, c)(ac[j]));
            }
        }
    }
    let mut res: Vec<usize> = Vec::new();
    let mut u: usize = 0;
    while u < n
        invariant
            n == m.nodes.len(),
            mark.len() == n,
            u <= n,
            p == colored_pred(m, v, c),
            forall|w: usize| w < n ==> (mark[w as int] <==> #[trigger] p(w)),
            res@ == idx_filter(p, u as nat),
        decreases n - u,
    {
        if mark[u] {
            res.push(u);
        }
        u += 1;
    }
    res
}

/// The vertices other than `v` joined to `v` by an alive H edge,
/// ascending and without repetition.
pub fn get_h_neighbour(g: &Graph, v: usize) -> (r: Vec<usize>)
    requires
        g.wf(),
    ensures
        r@ == colored_nbrs(g@, v, EColor::H),
{
    colored_neighbours(g, v, EColor::H)
}

/// The vertices other than `v` joined to `v` by an alive normal edge,
/// ascending and without repetition.
pub fn get_normal_neighbour(g: &Graph, v: usize) -> (r: Vec<usize>)
    requires
        g.wf(),
    ensures
        r@ == colored_nbrs(g@, v, EColor::NC),
{
    colored_neighbours(g, v, EColor::NC)
}

/// The count invariant of [`remove_all_between`] survives removing one
/// edge that joins `a` and `b`.
proof fn lemma_remove_step(
    m0: Seq<(usize, usize, EColor)>,
    before: Seq<(usize, usize, EColor)>,
    after: Seq<(usize, usize, EColor)>,
    k: int,
    a: usize,
    b: usize,
)
    requires
        0 <= k < before.len(),
        connects(before[k], a, b),
        after == before.update(k, before.last()).drop_last(),
        forall|q: spec_fn((usize, usize, EColor)) -> bool|
            #[trigger] count_if(before, q) + count_if(m0, both(q, a, b)) == count_if(m0, q) + count_if(before, both(q, a, b)),
    ensures
        forall|q: spec_fn((usize, usize, EColor)) -> bool|
            #[trigger] count_if(after, q) + count_if(m0, both(q, a, b)) == count_if(m0, q) + count_if(after, both(q, a, b)),
{
    assert forall|q: spec_fn((usize, usize, EColor)) -> bool|
        #[trigger] count_if(after, q) + count_if(m0, both(q, a, b)) == count_if(m0, q) + count_if(after, both(q, a, b)) by {
        lemma_count_if_swap_remove(before, k, q);
        lemma_count_if_swap_remove(before, k, both(q, a, b));
        assert(count_if(before, q) + count_if(m0, both(q, a, b)) == count_if(m0, q) + count_if(before, both(q, a, b)));
    }
}

/// Removing one edge that joins `a` and `b` leaves the color counts of
/// every other pair alone.
proof fn lemma_remove_cmult(m0: GraphModel, before: GraphModel, after: GraphModel, k: int, a: usize, b: usize)
    requires
        0 <= k < before.edges.len(),
        connects(before.edges[k], a, b),
        after.edges == before.edges.update(k, before.edges.last()).drop_last(),
        forall|x: usize, y: usize, c: EColor|
            !same_pair(x, y, a, b) ==> #[trigger] before.cmult(x, y, c) == m0.cmult(x, y, c),
    ensures
        forall|x: usize, y: usize, c: EColor|
            !same_pair(x, y, a, b) ==> #[trigger] after.cmult(x, y, c) == m0.cmult(x, y, c),
{
    lemma_cmult_swap_remove(before, after, k);
}

/// With no edge joining `a` and `b` left, the count invariant of
/// [`remove_all_between`] gives the final counts.
proof fn lemma_remove_done(m0: Seq<(usize, usize, EColor)>, cur: Seq<(usize, usize, EColor)>, a: usize, b: usize)
    requires
        multiplicity(cur, a, b) == 0,
        forall|q: spec_fn((usize, usize, EColor)) -> bool|
            #[trigger] count_if(cur, q) + count_if(m0, both(q, a, b)) == count_if(m0, q) + count_if(cur, both(q, a, b)),
    ensures
        forall|q: spec_fn((usize, usize, EColor)) -> bool|
            #[trigger] count_if(cur, q) + count_if(m0, both(q, a, b)) == count_if(m0, q),
{
    assert forall|q: spec_fn((usize, usize, EColor)) -> bool|
        #[trigger] count_if(cur, q) + count_if(m0, both(q, a, b)) == count_if(m0, q) by {
        assert forall|i: int| 0 <= i < cur.len() implies !both(q, a, b)(#[trigger] cur[i]) by {
            if both(q, a, b)(cur[i]) {
                lemma_count_if_pos(cur, linking(a, b));
                assert((linking(a, b))(cur[i]));
            }
        }
        lemma_count_if_none(cur, both(q, a, b));
        assert(count_if(cur, q) + count_if(m0, both(q, a, b)) == count_if(m0, q) + count_if(cur, both(q, a, b)));
    }
}

/// Remove every edge between `a` and `b`, one at a time.
#[verifier::rlimit(40)]
pub(crate) fn remove_all_between(g: &mut Graph, a: usize, b: usize)
    requires
        old(g).wf(),
    ensures
        final(g).wf(),
        final(g)@.nodes == old(g)@.nodes,
        final(g)@.alive == old(g)@.alive,
        forall|c: EColor| #[trigger] final(g)@.cmult(a, b, c) == 0,
        forall|x: usize, y: usize, c: EColor|
            !same_pair(x, y, a, b) ==> #[trigger] final(g)@.cmult(x, y, c) == old(g)@.cmult(x, y, c),
        forall|q: spec_fn((usize, usize, EColor)) -> bool|
            #[trigger] count_if(final(g)@.edges, q) + count_if(old(g)@.edges, both(q, a, b)) == count_if(old(g)@.edges, q),
        final(g)@.edges.len() + old(g)@.mult(a, b) == old(g)@.edges.len(),
{
    let ghost m0 = g@;
    proof {
        crate::seqs::lemma_count_if_le(m0.edges, linking(a, b));
    }
    while g.edge_multiplicity(a, b) > 0
        invariant
            g.wf(),
            g@.nodes == m0.nodes,
            g@.alive == m0.alive,
            forall|x: usize, y: usize, c: EColor|
                !same_pair(x, y, a, b) ==> #[trigger] g@.cmult(x, y, c) == m0.cmult(x, y, c),
            forall|q: spec_fn((usize, usize, EColor)) -> bool|
                #[trigger] count_if(g@.edges, q) + count_if(m0.edges, both(q, a, b)) == count_if(m0.edges, q)
                    + count_if(g@.edges, both(q, a, b)),
            g@.edges.len() + m0.mult(a, b) == m0.edges.len() + g@.mult(a, b),
        decreases g@.mult(a, b),
    {
        let ghost before = g@;
        proof {
            lemma_count_if_pos(before.edges, linking(a, b));
            let i = choose|i: int| 0 <= i < before.edges.len() && (linking(a, b))(#[trigger] before.edges[i]);
            assert(connects(before.edges[i], a, b));
            assert(before.adj(a, b));
        }
        g.remove_edge(a, b);
        proof {
            let k = choose|k: int|
                0 <= k < before.edges.len() && connects(#[trigger] before.edges[k], a, b) && g@.edges
                    == before.edges.update(k, before.edges.last()).drop_last();
            lemma_remove_cmult(m0, before, g@, k, a, b);
            lemma_count_if_swap_remove(before.edges, k, linking(a, b));
            lemma_remove_step(m0.edges, before.edges, g@.edges, k, a, b);
        }
    }
    proof {
        lemma_mult_split(g@.edges, a, b);
        lemma_remove_done(m0.edges, g@.edges, a, b);
        assert forall|c: EColor| #[trigger] g@.cmult(a, b, c) == 0 by {
            match c {
                EColor::NC => {},
                EColor::H => {},
            }
        }
    }
}

/// The edge has property `q` and joins `a` and `b`.
pub open spec fn both(q: spec_fn((usize, usize, EColor)) -> bool, a: usize, b: usize) -> spec_fn(
    (usize, usize, EColor),
) -> bool {
    |e: (usize, usize, EColor)| q(e) && connects(e, a, b)
}

/// No edge touches a vertex outside the graph.
pub proof fn lemma_cmult_outside(m: GraphModel, x: usize, y: usize, c: EColor)
    requires
        m.wf(),
        x >= m.nodes.len() || y >= m.nodes.len(),
    ensures
        m.cmult(x, y, c) == 0,
{
    assert forall|i: int| 0 <= i < m.edges.len() implies !joins(x, y, c)(#[trigger] m.edges[i]) by {}
    lemma_count_if_none(m.edges, joins(x, y, c));
}

/// `k` is a normal-edge neighbour of `v`: another vertex joined to `v` by
/// an alive normal edge.
pub open spec fn is_n1(m: GraphModel, v: usize, k: usize) -> bool {
    colored_pred(m, v, EColor::NC)(k)
}

/// Both ends of the edge are alive.
pub open spec fn alive_pred(m: GraphModel) -> spec_fn((usize, usize, EColor)) -> bool {
    |e: (usize, usize, EColor)| m.is_alive(e.0) && m.is_alive(e.1)
}

/// The edge touches `v`.
pub open spec fn touches(v: usize) -> spec_fn((usize, usize, EColor)) -> bool {
    |e: (usize, usize, EColor)| e.0 == v || e.1 == v
}

/// Number of alive edges (both ends alive).
pub open spec fn alive_total(m: GraphModel) -> nat {
    count_if(m.edges, alive_pred(m))
}

/// Killing `v` drops from the alive edges exactly those touching `v`.
pub proof fn lemma_alive_total_kill(m: GraphModel, m2: GraphModel, v: usize)
    requires
        m2.edges == m.edges,
        m2.alive == m.alive.update(v as int, false),
        v < m.alive.len(),
    ensures
        alive_total(m2) + count_if(m.edges, and_pred(alive_pred(m), touches(v))) == alive_total(m),
{
    crate::seqs::lemma_count_if_split(m.edges, alive_pred(m), touches(v));
    crate::seqs::lemma_count_if_agree(m.edges, alive_pred(m2), and_not_pred(alive_pred(m), touches(v)));
}

/// The edge has color `c`.
pub open spec fn colored(c: EColor) -> spec_fn((usize, usize, EColor)) -> bool {
    |e: (usize, usize, EColor)| e.2 == c
}

/// Number of edges of color `c`, alive or not.
pub open spec fn color_count(m: GraphModel, c: EColor) -> nat {
    count_if(m.edges, colored(c))
}

/// Removing every edge of a pair that has none of color `c` keeps the
/// number of edges of color `c`.
pub proof fn lemma_remove_keeps_color(before: GraphModel, after: GraphModel, a: usize, b: usize, c: EColor)
    requires
        before.cmult(a, b, c) == 0,
        count_if(after.edges, colored(c)) + count_if(before.edges, both(colored(c), a, b)) == count_if(before.edges, colored(c)),
    ensures
        color_count(after, c) == color_count(before, c),
{
    crate::seqs::lemma_count_if_agree(before.edges, both(colored(c), a, b), joins(a, b, c));
}

/// The identity on edges.
pub open spec fn ident_edge() -> spec_fn((usize, usize, EColor)) -> (usize, usize, EColor) {
    |e: (usize, usize, EColor)| e
}

/// The edge with endpoint `a` renamed to `b` (color kept).
pub open spec fn rename(a: usize, b: usize) -> spec_fn((usize, usize, EColor)) -> (usize, usize, EColor) {
    |e: (usize, usize, EColor)| (if e.0 == a { b } else { e.0 }, if e.1 == a { b } else { e.1 }, e.2)
}

/// The edge is an H edge with both ends alive.
pub open spec fn alive_h_pred(m: GraphModel) -> spec_fn((usize, usize, EColor)) -> bool {
    and_pred(alive_pred(m), colored(EColor::H))
}

/// Number of alive H edges.
pub open spec fn alive_h(m: GraphModel) -> nat {
    count_if(m.edges, alive_h_pred(m))
}

/// The alive H edges of one pair and color: the alive H multiplicity of
/// the pair for `H`, none for the other color.
pub proof fn lemma_alive_h_key(m: GraphModel, x: usize, y: usize, c: EColor)
    ensures
        count_if(m.edges, and_pred(alive_h_pred(m), after(ident_edge(), joins(x, y, c)))) == if c == EColor::H {
            acmult(m, x, y, EColor::H)
        } else {
            0
        },
{
    let q = and_pred(alive_h_pred(m), after(ident_edge(), joins(x, y, c)));
    if c == EColor::H && m.is_alive(x) && m.is_alive(y) {
        crate::seqs::lemma_count_if_agree(m.edges, q, joins(x, y, c));
    } else {
        assert forall|i: int| 0 <= i < m.edges.len() implies !q(#[trigger] m.edges[i]) by {}
        lemma_count_if_none(m.edges, q);
    }
}

} // verus!
