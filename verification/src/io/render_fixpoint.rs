//! Rendering is a fixpoint of reading back: the Graph3 text of a graph read
//! from a graph's Graph3 text is that same text.

use vstd::prelude::*;

use crate::graph::{EColor, GraphModel, VColor};
use crate::io::graph3::{
    alive_pos, edge_color_of, graph3_parse, graph3_text, grp_listed, grp_lt, grp_sum, ident_seq, is_grouping,
    lemma_alive_pos_bound, lemma_grp_sum_pos, order_ids, render_recs, same_key, state_graph, type_str, vertex_text,
};
use crate::io::round_trip::{canon_color, lemma_graph3_round_trip, lemma_render_sum, pairs_fit, read_back};
use crate::operation::utils::acmult;
use crate::seqs::{idx_filter, lemma_idx_filter};

verus! {

/// A graph whose vertices `0..n` are all alive lists them in order.
pub proof fn lemma_all_alive_list(m: GraphModel, n: nat)
    requires
        m.wf(),
        m.alive == Seq::new(n, |k: int| true),
    ensures
        m.alive_list().len() == n,
        forall|k: int| 0 <= k < n ==> #[trigger] m.alive_list()[k] == k,
{
    let s = m.alive_list();
    let p = |i: usize| (i as int) < m.alive.len() && m.alive[i as int];
    lemma_idx_filter(p, m.alive.len());
    assert forall|i: int| 0 <= i < s.len() implies #[trigger] s[i] == i by {
        lemma_ident_prefix(s, n, i);
    }
    if n > 0 {
        let top = (n - 1) as usize;
        assert(p(top));
        assert(s.contains(top));
        let j = choose|j: int| 0 <= j < s.len() && s[j] == top;
        assert(s[j] == j);
    }
}

proof fn lemma_ident_prefix(s: Seq<usize>, n: nat, i: int)
    requires
        crate::seqs::strictly_increasing(s),
        forall|q: int| 0 <= q < s.len() ==> #[trigger] s[q] < n,
        forall|u: usize| (u as int) < n ==> s.contains(u),
        0 <= i < s.len(),
    ensures
        s[i] == i,
    decreases i,
{
    if i > 0 {
        lemma_ident_prefix(s, n, i - 1);
        assert(s[i - 1] < s[i]);
    }
    let iu = i as usize;
    assert(iu as int == i) by {
        assert(s[i] < n);
        lemma_low_bound(s, i);
    }
    assert(s.contains(iu)) by {
        lemma_low_bound(s, i);
    }
    let j = choose|j: int| 0 <= j < s.len() && s[j] == iu;
    if j < i {
        lemma_ident_prefix(s, n, j);
    } else if j > i {
        assert(s[i] < s[j]);
        lemma_low_bound(s, i);
    }
}

proof fn lemma_low_bound(s: Seq<usize>, i: int)
    requires
        crate::seqs::strictly_increasing(s),
        0 <= i < s.len(),
    ensures
        s[i] >= i,
    decreases i,
{
    if i > 0 {
        lemma_low_bound(s, i - 1);
        assert(s[i - 1] < s[i]);
    }
}

/// A rendered record joins two dense labels in order, below the number of
/// alive vertices.
proof fn lemma_render_rec_bounds(m: GraphModel, w: int)
    requires
        m.wf(),
        0 <= w < render_recs(m).len(),
    ensures
        render_recs(m)[w].0 <= render_recs(m)[w].1 < m.alive_list().len(),
{
    let ids = m.alive_edge_ids();
    lemma_idx_filter(
        |i: usize| (i as int) < m.edges.len() && m.is_alive(m.edges[i as int].0) && m.is_alive(m.edges[i as int].1),
        m.edges.len(),
    );
    let e = m.edges[ids[w] as int];
    assert(m.is_alive(e.0) && m.is_alive(e.1));
    lemma_alive_pos_bound(m, e.0);
    lemma_alive_pos_bound(m, e.1);
}

/// Outside ordered pairs of dense labels a rendering sums to nothing.
proof fn lemma_render_sum_zero(m: GraphModel, a: nat, b: nat, h: bool)
    requires
        m.wf(),
        !(a <= b < m.alive_list().len()),
    ensures
        grp_sum(render_recs(m), ident_seq(m.alive_list().len()), a, b, h, render_recs(m).len() as int) == 0,
{
    let rr = render_recs(m);
    let id = ident_seq(m.alive_list().len());
    if grp_sum(rr, id, a, b, h, rr.len() as int) > 0 {
        lemma_grp_sum_pos(rr, id, a, b, h, rr.len() as int);
        let w = choose|w: int| 0 <= w < rr.len() && id[(#[trigger] rr[w]).0 as int] == a && id[rr[w].1 as int] == b && rr[w].2 == h;
        lemma_render_rec_bounds(m, w);
    }
}

/// A graph read back renders to the same group sums as the original.
proof fn lemma_read_back_sums(m: GraphModel, m2: GraphModel, a: nat, b: nat, h: bool)
    requires
        m.wf(),
        m2.wf(),
        read_back(m, m2),
    ensures
        grp_sum(render_recs(m2), ident_seq(m2.alive_list().len()), a, b, h, render_recs(m2).len() as int) == grp_sum(
            render_recs(m),
            ident_seq(m.alive_list().len()),
            a,
            b,
            h,
            render_recs(m).len() as int,
        ),
{
    let n = m.alive_list().len();
    lemma_all_alive_list(m2, n);
    if a <= b < n {
        lemma_render_sum(m, a, b, h);
        lemma_render_sum(m2, a, b, h);
        let c = edge_color_of(h);
        let au = a as usize;
        let bu = b as usize;
        assert(m2.alive_list()[a as int] == au && m2.alive_list()[b as int] == bu);
        assert(m2.is_alive(au) && m2.is_alive(bu));
        assert(m2.cmult(au, bu, c) == acmult(m, m.alive_list()[a as int], m.alive_list()[b as int], c));
    } else {
        lemma_render_sum_zero(m, a, b, h);
        lemma_render_sum_zero(m2, a, b, h);
    }
}

/// Two groupings with the same sums on every key are the same list.
proof fn lemma_grouping_unique(
    r1: Seq<(nat, nat, bool, nat)>,
    id1: Seq<nat>,
    g1: Seq<(nat, nat, bool, nat)>,
    k1: int,
    r2: Seq<(nat, nat, bool, nat)>,
    id2: Seq<nat>,
    g2: Seq<(nat, nat, bool, nat)>,
    k2: int,
)
    requires
        0 <= k1 <= r1.len(),
        0 <= k2 <= r2.len(),
        is_grouping(r1, id1, g1, k1),
        is_grouping(r2, id2, g2, k2),
        forall|a: nat, b: nat, h: bool| #[trigger] grp_sum(r1, id1, a, b, h, k1) == grp_sum(r2, id2, a, b, h, k2),
    ensures
        g1 == g2,
{
    assert forall|x: (nat, nat, bool, nat)| g1.contains(x) implies g2.contains(x) by {
        lemma_listed_in(r1, id1, g1, k1, r2, id2, g2, k2, x);
    }
    assert forall|x: (nat, nat, bool, nat)| g2.contains(x) implies g1.contains(x) by {
        lemma_listed_in(r2, id2, g2, k2, r1, id1, g1, k1, x);
    }
    lemma_sorted_unique(g1, g2);
}

proof fn lemma_listed_in(
    r1: Seq<(nat, nat, bool, nat)>,
    id1: Seq<nat>,
    g1: Seq<(nat, nat, bool, nat)>,
    k1: int,
    r2: Seq<(nat, nat, bool, nat)>,
    id2: Seq<nat>,
    g2: Seq<(nat, nat, bool, nat)>,
    k2: int,
    x: (nat, nat, bool, nat),
)
    requires
        0 <= k2 <= r2.len(),
        is_grouping(r1, id1, g1, k1),
        is_grouping(r2, id2, g2, k2),
        forall|a: nat, b: nat, h: bool| #[trigger] grp_sum(r1, id1, a, b, h, k1) == grp_sum(r2, id2, a, b, h, k2),
        g1.contains(x),
    ensures
        g2.contains(x),
{
    let i = choose|i: int| 0 <= i < g1.len() && g1[i] == x;
    assert(x.3 > 0 && x.3 == grp_sum(r1, id1, x.0, x.1, x.2, k1));
    assert(grp_sum(r2, id2, x.0, x.1, x.2, k2) > 0);
    lemma_grp_sum_pos(r2, id2, x.0, x.1, x.2, k2);
    let w = choose|w: int| 0 <= w < k2 && id2[(#[trigger] r2[w]).0 as int] == x.0 && id2[r2[w].1 as int] == x.1 && r2[w].2 == x.2;
    assert(grp_listed(g2, id2[r2[w].0 as int], id2[r2[w].1 as int], r2[w].2));
    let j = choose|j: int| 0 <= j < g2.len() && same_key(#[trigger] g2[j], x.0, x.1, x.2);
    assert(g2[j].3 == grp_sum(r2, id2, x.0, x.1, x.2, k2));
    assert(g2[j] == x);
}

/// Two lists sorted strictly by group order with the same members are
/// equal.
proof fn lemma_sorted_unique(s1: Seq<(nat, nat, bool, nat)>, s2: Seq<(nat, nat, bool, nat)>)
    requires
        forall|i: int, j: int| 0 <= i < j < s1.len() ==> grp_lt(#[trigger] s1[i], #[trigger] s1[j]),
        forall|i: int, j: int| 0 <= i < j < s2.len() ==> grp_lt(#[trigger] s2[i], #[trigger] s2[j]),
        forall|x: (nat, nat, bool, nat)| s1.contains(x) ==> s2.contains(x),
        forall|x: (nat, nat, bool, nat)| s2.contains(x) ==> s1.contains(x),
    ensures
        s1 == s2,
    decreases s1.len(),
{
    if s1.len() == 0 {
        if s2.len() > 0 {
            assert(s2.contains(s2[0]));
        }
        assert(s1 =~= s2);
    } else {
        assert(s1.contains(s1[0]));
        let j = choose|j: int| 0 <= j < s2.len() && s2[j] == s1[0];
        assert(s2.contains(s2[0]));
        let i = choose|i: int| 0 <= i < s1.len() && s1[i] == s2[0];
        if j > 0 {
            assert(grp_lt(s2[0], s2[j]));
            if i > 0 {
                assert(grp_lt(s1[0], s1[i]));
            }
        }
        assert(s1[0] == s2[0]);
        let t1 = s1.drop_first();
        let t2 = s2.drop_first();
        assert forall|x: (nat, nat, bool, nat)| t1.contains(x) implies t2.contains(x) by {
            let p = choose|p: int| 0 <= p < t1.len() && t1[p] == x;
            assert(grp_lt(s1[0], s1[p + 1]));
            assert(s2.contains(x));
            let q = choose|q: int| 0 <= q < s2.len() && s2[q] == x;
            if q == 0 {
                assert(false);
            }
            assert(t2[q - 1] == x);
        }
        assert forall|x: (nat, nat, bool, nat)| t2.contains(x) implies t1.contains(x) by {
            let p = choose|p: int| 0 <= p < t2.len() && t2[p] == x;
            assert(grp_lt(s2[0], s2[p + 1]));
            assert(s1.contains(x));
            let q = choose|q: int| 0 <= q < s1.len() && s1[q] == x;
            if q == 0 {
                assert(false);
            }
            assert(t1[q - 1] == x);
        }
        assert forall|a: int, b: int| 0 <= a < b < t1.len() implies grp_lt(#[trigger] t1[a], #[trigger] t1[b]) by {
            assert(grp_lt(s1[a + 1], s1[b + 1]));
        }
        assert forall|a: int, b: int| 0 <= a < b < t2.len() implies grp_lt(#[trigger] t2[a], #[trigger] t2[b]) by {
            assert(grp_lt(s2[a + 1], s2[b + 1]));
        }
        lemma_sorted_unique(t1, t2);
        assert(s1 =~= s2) by {
            assert forall|k: int| 0 <= k < s1.len() implies s1[k] == s2[k] by {
                if k > 0 {
                    assert(s1[k] == t1[k - 1]);
                    assert(s2[k] == t2[k - 1]);
                }
            }
        }
    }
}

/// The vertex lines of a graph read back are those of the original.
proof fn lemma_read_back_vertex_text(m: GraphModel, m2: GraphModel, k: int)
    requires
        m.wf(),
        m2.wf(),
        read_back(m, m2),
        0 <= k <= m.alive_list().len(),
    ensures
        vertex_text(m2, k) == vertex_text(m, k),
    decreases k,
{
    if k > 0 {
        lemma_read_back_vertex_text(m, m2, k - 1);
        lemma_all_alive_list(m2, m.alive_list().len());
        let c = m.nodes[m.alive_list()[k - 1] as int];
        assert(m2.alive_list()[k - 1] == k - 1);
        assert(m2.nodes[k - 1] == canon_color(c));
        assert(type_str(canon_color(c)) == type_str(c)) by {
            match c {
                VColor::Z(s) => {
                    assert(((s % 8) as u8) % 8 == s % 8);
                },
                VColor::X(s) => {
                    assert(((s % 8) as u8) % 8 == s % 8);
                },
                _ => {},
            }
        }
    }
}

/// Reading back the Graph3 text of a graph (every pair with at most
/// 10 000 alive edges, the format's limit) and rendering the graph read
/// gives the same text again.
pub proof fn lemma_graph3_render_fixpoint(m: GraphModel, t1: Seq<char>, m2: GraphModel, t2: Seq<char>)
    requires
        m.wf(),
        pairs_fit(m),
        graph3_text(m, t1),
        graph3_parse(t1) is Ok,
        state_graph(graph3_parse(t1)->Ok_0, m2),
        m2.wf(),
        graph3_text(m2, t2),
    ensures
        t2 == t1,
{
    lemma_graph3_round_trip(m, t1);
    assert(read_back(m, m2));
    let n = m.alive_list().len();
    lemma_all_alive_list(m2, n);
    let r1 = render_recs(m);
    let r2 = render_recs(m2);
    let id = ident_seq(n);
    let g1 = choose|gs: Seq<(nat, nat, bool, nat)>|
        #[trigger] is_grouping(r1, id, gs, m.alive_edge_ids().len() as int) && t1 == vertex_text(m, n as int) + crate::io::graph3::groups_text(gs);
    let g2 = choose|gs: Seq<(nat, nat, bool, nat)>|
        #[trigger] is_grouping(r2, id, gs, m2.alive_edge_ids().len() as int) && t2 == vertex_text(m2, n as int) + crate::io::graph3::groups_text(gs);
    assert(r1.len() == m.alive_edge_ids().len());
    assert(r2.len() == m2.alive_edge_ids().len());
    assert forall|a: nat, b: nat, h: bool| #[trigger] grp_sum(r1, id, a, b, h, r1.len() as int) == grp_sum(r2, id, a, b, h, r2.len() as int) by {
        lemma_read_back_sums(m, m2, a, b, h);
    }
    lemma_grouping_unique(r1, id, g1, r1.len() as int, r2, id, g2, r2.len() as int);
    lemma_read_back_vertex_text(m, m2, n as int);
}

} // verus!
