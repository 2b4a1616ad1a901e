//! Quantum circuits as layers of gates, one gate per qubit per layer, and
//! their ZX-diagram graph.

use vstd::prelude::*;

use crate::graph::{EColor, Graph, VColor};
use crate::petgraph_ext::index_limit;
use crate::rng::{rng_range, rng_range_i32_incl, rng_range_u8};

verus! {

/// A gate on one qubit of one layer. `X(s)` / `Z(s)` are spiders with phase
/// `s * pi / 4`; `CNOT_C` / `CNOT_E` are the control and target of a CNOT,
/// `SWAP_1` / `SWAP_2` the two ends of a SWAP.
#[allow(non_camel_case_types)]
#[derive(Debug, Clone, Copy, Hash, PartialEq, Eq, Structural)]
pub enum QGate {
    Input,
    Output,
    H,
    X(u8),
    Z(u8),
    T,
    CNOT_C,
    CNOT_E,
    SWAP_1,
    SWAP_2,
    ID,
}

/// A circuit on `n_qubits` qubits: `gates[t][i]` acts on qubit `i` at
/// time step `t`; every layer has `n_qubits` entries.
#[derive(Debug, Clone, Hash, PartialEq, Eq)]
pub struct QCircuit {
    n_qubits: usize,
    gates: Vec<Vec<QGate>>,
}

/// The last position `< k` of `layer` holding gate `g`.
pub open spec fn last_pos(layer: Seq<QGate>, g: QGate, k: int) -> Option<nat>
    decreases k,
{
    if k <= 0 {
        None
    } else if layer[k - 1] == g {
        Some((k - 1) as nat)
    } else {
        last_pos(layer, g, k - 1)
    }
}

pub proof fn lemma_last_pos(layer: Seq<QGate>, g: QGate, k: int)
    ensures
        last_pos(layer, g, k) matches Some(p) ==> p < k && layer[p as int] == g && forall|j: int|
            p < j < k ==> layer[j] != g,
        last_pos(layer, g, k) is None ==> forall|j: int| 0 <= j < k ==> layer[j] != g,
    decreases k,
{
    if k > 0 {
        lemma_last_pos(layer, g, k - 1);
    }
}

pub proof fn lemma_swapped_range(layer: Seq<QGate>)
    ensures
        forall|i: int| 0 <= i < layer.len() ==> 0 <= #[trigger] swapped(layer, i) < layer.len(),
{
    lemma_last_pos(layer, QGate::SWAP_1, layer.len() as int);
    lemma_last_pos(layer, QGate::SWAP_2, layer.len() as int);
}

/// The color of the ZX vertex standing for a gate.
pub open spec fn gate_color(g: QGate) -> VColor {
    match g {
        QGate::H => VColor::H,
        QGate::X(s) => VColor::X(s),
        QGate::Z(s) => VColor::Z(s),
        QGate::T => VColor::Z(1),
        QGate::Input | QGate::Output => VColor::NC,
        QGate::ID => VColor::Z(0),
        QGate::CNOT_C => VColor::Z(0),
        QGate::CNOT_E => VColor::X(0),
        QGate::SWAP_1 => VColor::Z(0),
        QGate::SWAP_2 => VColor::Z(0),
    }
}

/// Position `i` of a layer after its SWAP (the last `SWAP_1` and `SWAP_2`
/// markers trade places when both occur).
pub open spec fn swapped(layer: Seq<QGate>, i: int) -> int {
    match (last_pos(layer, QGate::SWAP_1, layer.len() as int), last_pos(layer, QGate::SWAP_2, layer.len() as int)) {
        (Some(p), Some(q)) => if i == p { q as int } else if i == q { p as int } else { i },
        _ => i,
    }
}

/// A row of `n` `X(0)` spiders, one per qubit.
pub open spec fn x_row(n: int) -> Seq<VColor> {
    Seq::new(n as nat, |i: int| VColor::X(0))
}

/// Vertex colors of the ZX graph up to layer `t` (with `n` qubits): the
/// opening row of `X(0)` spiders, then one vertex per gate, layer after
/// layer (layer `t` starts at vertex `(t + 1) * n`).
pub open spec fn circuit_nodes(layers: Seq<Seq<QGate>>, n: int, t: int) -> Seq<VColor>
    decreases t,
{
    if t <= 0 {
        x_row(n)
    } else {
        circuit_nodes(layers, n, t - 1) + layers[t - 1].map_values(|g: QGate| gate_color(g))
    }
}

/// The colors up to layer `k` have `(k + 1) n` vertices, and the vertex of
/// gate `i` of layer `t < k` is at `(t + 1) n + i`.
proof fn lemma_circuit_nodes_at(layers: Seq<Seq<QGate>>, n: int, k: int, t: int, i: int)
    requires
        0 <= n,
        0 <= t < k <= layers.len(),
        0 <= i < n,
        forall|q: int| 0 <= q < layers.len() ==> (#[trigger] layers[q]).len() == n,
    ensures
        circuit_nodes(layers, n, k).len() == (k + 1) * n,
        circuit_nodes(layers, n, k)[(t + 1) * n + i] == gate_color(layers[t][i]),
    decreases k,
{
    lemma_circuit_nodes_len(layers, n, k);
    lemma_circuit_nodes_len(layers, n, k - 1);
    assert((k - 1 + 1) * n + n == (k + 1) * n) by (nonlinear_arith);
    if t < k - 1 {
        lemma_circuit_nodes_at(layers, n, k - 1, t, i);
        assert((t + 1) * n + i < k * n) by (nonlinear_arith)
            requires
                t + 1 <= k - 1,
                i < n,
                0 <= t,
                0 <= n,
        ;
    } else {
        assert((t + 1) * n + i - k * n == i);
    }
}

proof fn lemma_circuit_nodes_len(layers: Seq<Seq<QGate>>, n: int, k: int)
    requires
        0 <= n,
        0 <= k <= layers.len(),
        forall|q: int| 0 <= q < layers.len() ==> (#[trigger] layers[q]).len() == n,
    ensures
        circuit_nodes(layers, n, k).len() == (k + 1) * n,
    decreases k,
{
    if k > 0 {
        lemma_circuit_nodes_len(layers, n, k - 1);
        assert(k * n + n == (k + 1) * n) by (nonlinear_arith);
    } else {
        assert((k + 1) * n == n) by (nonlinear_arith)
            requires
                k == 0,
        ;
    }
}

/// Each gate of layer `t`, qubit `i` becomes the vertex `(t + 1) n + i` of
/// the circuit's ZX graph (after the opening row). Its color follows the
/// gate: Z phase gates give Z spiders of the same phase, X phase gates X
/// spiders of the same phase, T the Z spider of phase 1, H an H box, the
/// CNOT control a Z spider of phase 0 and its target an X spider of phase
/// 0, the identity and the SWAP markers Z spiders of phase 0, and the input
/// and output markers plain vertices.
pub proof fn lemma_gate_vertex_color(layers: Seq<Seq<QGate>>, n: int, t: int, i: int)
    requires
        0 <= n,
        0 <= t < layers.len(),
        0 <= i < n,
        forall|q: int| 0 <= q < layers.len() ==> (#[trigger] layers[q]).len() == n,
    ensures
        ({
            let c = (circuit_nodes(layers, n, layers.len() as int) + x_row(n))[(t + 1) * n + i];
            let g = layers[t][i];
            &&& g matches QGate::Z(s) ==> c == VColor::Z(s)
            &&& g matches QGate::X(s) ==> c == VColor::X(s)
            &&& g == QGate::T ==> c == VColor::Z(1)
            &&& g == QGate::H ==> c == VColor::H
            &&& g == QGate::CNOT_C ==> c == VColor::Z(0)
            &&& g == QGate::CNOT_E ==> c == VColor::X(0)
            &&& (g == QGate::ID || g == QGate::SWAP_1 || g == QGate::SWAP_2) ==> c == VColor::Z(0)
            &&& (g == QGate::Input || g == QGate::Output) ==> c == VColor::NC
        }),
{
    let k = layers.len() as int;
    lemma_circuit_nodes_at(layers, n, k, t, i);
    assert((t + 1) * n + i < (k + 1) * n) by (nonlinear_arith)
        requires
            t + 1 <= k,
            i < n,
            0 <= t,
            0 <= n,
    ;
}

/// The opening and closing rows of the circuit's ZX graph are `X(0)`
/// spiders: vertex `i` and vertex `(L + 1) n + i` for each qubit `i`.
pub proof fn lemma_boundary_colors(layers: Seq<Seq<QGate>>, n: int, i: int)
    requires
        0 <= n,
        0 <= i < n,
        forall|q: int| 0 <= q < layers.len() ==> (#[trigger] layers[q]).len() == n,
    ensures
        (circuit_nodes(layers, n, layers.len() as int) + x_row(n))[i] == VColor::X(0),
        (circuit_nodes(layers, n, layers.len() as int) + x_row(n))[(layers.len() + 1) * n + i] == VColor::X(0),
{
    let k = layers.len() as int;
    lemma_circuit_nodes_len(layers, n, k);
    lemma_first_row(layers, n, k, i);
}

proof fn lemma_first_row(layers: Seq<Seq<QGate>>, n: int, k: int, i: int)
    requires
        0 <= n,
        0 <= i < n,
        0 <= k <= layers.len(),
        forall|q: int| 0 <= q < layers.len() ==> (#[trigger] layers[q]).len() == n,
    ensures
        circuit_nodes(layers, n, k)[i] == VColor::X(0),
    decreases k,
{
    lemma_circuit_nodes_len(layers, n, k);
    if k > 0 {
        lemma_first_row(layers, n, k - 1, i);
        lemma_circuit_nodes_len(layers, n, k - 1);
        assert(i < k * n) by (nonlinear_arith)
            requires
                i < n,
                k >= 1,
                0 <= i,
        ;
    }
}

/// The vertex that ends wire `i` after layers `0..t`: the opening spider
/// before any layer, else the (swapped) vertex of layer `t - 1`.
pub open spec fn wire_end(layers: Seq<Seq<QGate>>, n: int, t: int, i: int) -> int {
    if t <= 0 {
        i
    } else {
        t * n + swapped(layers[t - 1], i)
    }
}

/// The edges added for layer `t` (with `n` qubits): the CNOT edge when both
/// markers occur, then the wire edges from the end of each wire to this
/// layer's (swapped) vertices.
pub open spec fn layer_edges(layers: Seq<Seq<QGate>>, n: int, t: int) -> Seq<(usize, usize, EColor)> {
    let layer = layers[t];
    let base = (t + 1) * n;
    let cnot = match (last_pos(layer, QGate::CNOT_C, n), last_pos(layer, QGate::CNOT_E, n)) {
        (Some(c), Some(e)) => seq![((base + c) as usize, (base + e) as usize, EColor::NC)],
        _ => Seq::empty(),
    };
    let wires = Seq::new(
        n as nat,
        |i: int| (wire_end(layers, n, t, i) as usize, (base + swapped(layer, i)) as usize, EColor::NC),
    );
    cnot + wires
}

/// Edges of the ZX graph up to layer `t`.
pub open spec fn circuit_edges(layers: Seq<Seq<QGate>>, n: int, t: int) -> Seq<(usize, usize, EColor)>
    decreases t,
{
    if t <= 0 {
        Seq::empty()
    } else {
        circuit_edges(layers, n, t - 1) + layer_edges(layers, n, t - 1)
    }
}

/// The closing edges after `t` layers: each wire's end joined to its
/// closing `X(0)` spider (vertex `(t + 1) * n + i` for wire `i`).
pub open spec fn closing_edges(layers: Seq<Seq<QGate>>, n: int, t: int) -> Seq<(usize, usize, EColor)> {
    Seq::new(n as nat, |i: int| (wire_end(layers, n, t, i) as usize, ((t + 1) * n + i) as usize, EColor::NC))
}

/// The shapes a random layer takes: one single-qubit gate (`H`, `X(s)`,
/// `Z(s)` with `s < 8`, or `T`) at one position, or a CNOT / SWAP pair at
/// two distinct positions (only with at least two qubits), `ID` elsewhere.
pub open spec fn is_random_layer(layer: Seq<QGate>, n: nat) -> bool {
    &&& layer.len() == n
    &&& exists|pos: int|
        0 <= pos < n && {
            ||| (is_random_single(layer[pos]) && forall|i: int| 0 <= i < n && i != pos ==> layer[i] == QGate::ID)
            ||| exists|pos2: int|
                0 <= pos2 < n && pos2 != pos && n >= 2 && {
                    ||| (layer[pos] == QGate::CNOT_C && layer[pos2] == QGate::CNOT_E)
                    ||| (layer[pos] == QGate::SWAP_1 && layer[pos2] == QGate::SWAP_2)
                } && forall|i: int| 0 <= i < n && i != pos && i != pos2 ==> layer[i] == QGate::ID
        }
}

pub open spec fn is_random_single(g: QGate) -> bool {
    match g {
        QGate::H | QGate::T => true,
        QGate::X(s) => s < 8,
        QGate::Z(s) => s < 8,
        _ => false,
    }
}

impl QCircuit {
    /// Number of qubits.
    pub closed spec fn n_spec(&self) -> nat {
        self.n_qubits as nat
    }

    /// The layers, in application order.
    pub closed spec fn layers_spec(&self) -> Seq<Seq<QGate>> {
        self.gates@.map_values(|l: Vec<QGate>| l@)
    }

    /// Every layer has one gate per qubit.
    pub open spec fn wf(&self) -> bool {
        forall|t: int| 0 <= t < self.layers_spec().len() ==> (#[trigger] self.layers_spec()[t]).len() == self.n_spec()
    }

    /// A circuit on `n` qubits with no layers.
    pub fn emtpy(n: usize) -> (c: Self)
        ensures
            c.wf(),
            c.n_spec() == n,
            c.layers_spec() == Seq::<Seq<QGate>>::empty(),
    {
        let c = QCircuit { n_qubits: n, gates: Vec::new() };
        proof {
            assert(c.layers_spec() =~= Seq::<Seq<QGate>>::empty());
        }
        c
    }

    /// Number of qubits the circuit acts on.
    pub fn n_qubits(&self) -> (r: usize)
        ensures
            r == self.n_spec(),
    {
        self.n_qubits
    }

    /// The layers in the order they apply: `layers()[t][i]` acts on qubit
    /// `i` at time step `t`.
    pub fn layers(&self) -> (r: &[Vec<QGate>])
        ensures
            r@.map_values(|l: Vec<QGate>| l@) == self.layers_spec(),
    {
        self.gates.as_slice()
    }

    /// Append a gate layer; its length must equal `n_qubits`.
    pub fn push_layer(&mut self, layer: Vec<QGate>)
        requires
            old(self).wf(),
            layer.len() == old(self).n_spec(),
        ensures
            final(self).wf(),
            final(self).n_spec() == old(self).n_spec(),
            final(self).layers_spec() == old(self).layers_spec().push(layer@),
    {
        self.gates.push(layer);
        proof {
            assert(self.layers_spec() =~= old(self).layers_spec().push(layer@));
        }
    }

    /// The ZX-diagram graph of the circuit. It starts and ends with a row of
    /// `X(0)` spiders, one per qubit; between them comes one vertex per gate
    /// (layer after layer, colored by [`gate_color`]), a normal edge per
    /// CNOT, and normal wire edges joining each wire's previous vertex to
    /// its vertex in the next layer and, at the end, to its closing spider
    /// (see [`layer_edges`] and [`closing_edges`]).
    pub fn to_graph(&self) -> (g: Graph)
        requires
            self.wf(),
            (self.layers_spec().len() + 2) * (self.n_spec() + 1) + 1 < index_limit(),
            ((self.layers_spec().len() + 2) * self.n_spec()) * ((self.layers_spec().len() + 2) * self.n_spec()) <= usize::MAX,
        ensures
            g.wf(),
            g@.nodes == circuit_nodes(self.layers_spec(), self.n_spec() as int, self.layers_spec().len() as int) + x_row(
                self.n_spec() as int,
            ),
            g@.edges == circuit_edges(self.layers_spec(), self.n_spec() as int, self.layers_spec().len() as int)
                + closing_edges(self.layers_spec(), self.n_spec() as int, self.layers_spec().len() as int),
            g@.alive == Seq::new(g@.nodes.len(), |i: int| true),
            forall|t: int, i: int|
                0 <= t < self.layers_spec().len() && 0 <= i < self.n_spec() ==> ({
                    let c = #[trigger] g@.nodes[(t + 1) * self.n_spec() + i];
                    let q = self.layers_spec()[t][i];
                    &&& q matches QGate::Z(s) ==> c == VColor::Z(s)
                    &&& q matches QGate::X(s) ==> c == VColor::X(s)
                    &&& q == QGate::T ==> c == VColor::Z(1)
                    &&& q == QGate::H ==> c == VColor::H
                }),
    {
        let n = self.n_qubits;
        let ghost tt = self.layers_spec().len();
        let ghost ls = self.layers_spec();
        let ghost big = (tt + 2) * n;
        proof {
            assert(big < index_limit()) by (nonlinear_arith)
                requires
                    (tt + 2) * (n + 1) + 1 < index_limit(),
                    big == (tt + 2) * n,
            ;
            assert((tt + 1) * (n + 1) <= (tt + 2) * (n + 1)) by (nonlinear_arith);
            assert(n <= big) by (nonlinear_arith)
                requires
                    big == (tt + 2) * n,
            ;
        }
        let mut g = Graph::new();
        let mut pre: Vec<usize> = Vec::new();
        let mut i0: usize = 0;
        while i0 < n
            invariant
                n == self.n_spec(),
                big == (tt + 2) * n,
                big < index_limit(),
                big * big <= usize::MAX,
                n <= big,
                i0 <= n,
                g.wf(),
                g@.nodes == x_row(i0 as int),
                g@.edges == Seq::<(usize, usize, EColor)>::empty(),
                g@.alive == Seq::new(g@.nodes.len(), |k: int| true),
                pre.len() == i0,
                forall|k: int| 0 <= k < i0 ==> #[trigger] pre[k] == k,
            decreases n - i0,
        {
            proof {
                let l = g@.nodes.len();
                assert((l + 1) * (l + 1) <= big * big) by (nonlinear_arith)
                    requires
                        l + 1 <= big,
                ;
            }
            let idx = g.add_vertex_with(VColor::X(0));
            pre.push(idx);
            i0 += 1;
            proof {
                assert(g@.nodes =~= x_row(i0 as int));
                assert(g@.alive =~= Seq::new(g@.nodes.len(), |k: int| true));
            }
        }
        let mut t: usize = 0;
        proof {
            assert(g@.nodes =~= circuit_nodes(ls, n as int, 0));
            assert(g@.edges =~= circuit_edges(ls, n as int, 0));
        }
        while t < self.gates.len()
            invariant
                self.wf(),
                n == self.n_spec(),
                ls == self.layers_spec(),
                tt == ls.len(),
                tt == self.gates.len(),
                big == (tt + 2) * n,
                big < index_limit(),
                big * big <= usize::MAX,
                (tt + 2) * (n + 1) + 1 < index_limit(),
                t <= tt,
                g.wf(),
                g@.nodes.len() == (t + 1) * n,
                g@.nodes == circuit_nodes(ls, n as int, t as int),
                g@.edges == circuit_edges(ls, n as int, t as int),
                g@.edges.len() <= t * (n + 1),
                g@.alive == Seq::new(g@.nodes.len(), |i: int| true),
                pre.len() == n,
                forall|i: int| 0 <= i < n ==> #[trigger] pre[i] == wire_end(ls, n as int, t as int, i),
                forall|i: int| 0 <= i < n ==> 0 <= #[trigger] wire_end(ls, n as int, t as int, i) < (t + 1) * n,
            decreases tt - t,
        {
            let layer = &self.gates[t];
            assert(layer@ == ls[t as int]);
            proof {
                assert((t + 2) * n <= big) by (nonlinear_arith)
                    requires
                        t + 1 <= tt,
                        big == (tt + 2) * n,
                ;
                assert((t + 1) * n + n == (t + 2) * n) by (nonlinear_arith);
                assert(t * (n + 1) + (n + 1) == (t + 1) * (n + 1)) by (nonlinear_arith);
                assert((t + 1) * (n + 1) <= (tt + 2) * (n + 1)) by (nonlinear_arith)
                    requires
                        t + 1 <= tt,
                ;
            }
            let mut cur: Vec<usize> = Vec::new();
            let mut cnot_c: Option<usize> = None;
            let mut cnot_e: Option<usize> = None;
            let mut swap_1: Option<usize> = None;
            let mut swap_2: Option<usize> = None;
            let base = (t + 1) * n;
            let mut i: usize = 0;
            while i < n
                invariant
                    n == self.n_spec(),
                    layer@ == ls[t as int],
                    layer.len() == n,
                    base == (t + 1) * n,
                    base + n <= big,
                    big * big <= usize::MAX,
                    big < index_limit(),
                    i <= n,
                    g.wf(),
                    g@.nodes.len() == base + i,
                    g@.nodes == circuit_nodes(ls, n as int, t as int) + ls[t as int].take(i as int).map_values(
                        |q: QGate| gate_color(q),
                    ),
                    g@.edges == circuit_edges(ls, n as int, t as int),
                    g@.alive == Seq::new(g@.nodes.len(), |k: int| true),
                    cur.len() == i,
                    forall|k: int| 0 <= k < i ==> #[trigger] cur[k] == base + k,
                    cnot_c == match last_pos(ls[t as int], QGate::CNOT_C, i as int) {
                        Some(p) => Some((base + p) as usize),
                        None => None::<usize>,
                    },
                    cnot_e == match last_pos(ls[t as int], QGate::CNOT_E, i as int) {
                        Some(p) => Some((base + p) as usize),
                        None => None::<usize>,
                    },
                    swap_1 == match last_pos(ls[t as int], QGate::SWAP_1, i as int) {
                        Some(p) => Some(p as usize),
                        None => None::<usize>,
                    },
                    swap_2 == match last_pos(ls[t as int], QGate::SWAP_2, i as int) {
                        Some(p) => Some(p as usize),
                        None => None::<usize>,
                    },
                decreases n - i,
            {
                let q = layer[i];
                let color = match q {
                    QGate::H => VColor::H,
                    QGate::X(s) => VColor::X(s),
                    QGate::Z(s) => VColor::Z(s),
                    QGate::T => VColor::Z(1),
                    QGate::Input | QGate::Output => VColor::NC,
                    QGate::ID => VColor::Z(0),
                    QGate::CNOT_C => VColor::Z(0),
                    QGate::CNOT_E => VColor::X(0),
                    QGate::SWAP_1 => VColor::Z(0),
                    QGate::SWAP_2 => VColor::Z(0),
                };
                proof {
                    let l = g@.nodes.len();
                    assert((l + 1) * (l + 1) <= big * big) by (nonlinear_arith)
                        requires
                            l + 1 <= big,
                    ;
                }
                let idx = g.add_vertex_with(color);
                cur.push(idx);
                match q {
                    QGate::CNOT_C => {
                        cnot_c = Some(idx);
                    },
                    QGate::CNOT_E => {
                        cnot_e = Some(idx);
                    },
                    QGate::SWAP_1 => {
                        swap_1 = Some(i);
                    },
                    QGate::SWAP_2 => {
                        swap_2 = Some(i);
                    },
                    _ => {},
                }
                proof {
                    assert(ls[t as int].take(i + 1) =~= ls[t as int].take(i as int).push(q));
                    assert(ls[t as int].take(i + 1).map_values(|q: QGate| gate_color(q)) =~= ls[t as int].take(
                        i as int,
                    ).map_values(|q: QGate| gate_color(q)).push(gate_color(q)));
                    assert(g@.nodes =~= circuit_nodes(ls, n as int, t as int) + ls[t as int].take(i + 1).map_values(
                        |q: QGate| gate_color(q),
                    ));
                    assert(g@.alive =~= Seq::new(g@.nodes.len(), |k: int| true));
                }
                i += 1;
            }
            proof {
                assert(ls[t as int].take(n as int) =~= ls[t as int]);
                assert(g@.nodes =~= circuit_nodes(ls, n as int, t + 1));
            }
            proof {
                lemma_last_pos(ls[t as int], QGate::CNOT_C, n as int);
                lemma_last_pos(ls[t as int], QGate::CNOT_E, n as int);
                lemma_last_pos(ls[t as int], QGate::SWAP_1, n as int);
                lemma_last_pos(ls[t as int], QGate::SWAP_2, n as int);
            }
            let ghost cnot_part: Seq<(usize, usize, EColor)> = match (
                last_pos(ls[t as int], QGate::CNOT_C, n as int),
                last_pos(ls[t as int], QGate::CNOT_E, n as int),
            ) {
                (Some(c), Some(e)) => seq![(((t + 1) * n + c) as usize, ((t + 1) * n + e) as usize, EColor::NC)],
                _ => Seq::empty(),
            };
            proof {
                lemma_swapped_range(ls[t as int]);
            }
            if cnot_c.is_some() && cnot_e.is_some() {
                g.add_edge(cnot_c.unwrap(), cnot_e.unwrap());
            }
            assert(g@.edges == circuit_edges(ls, n as int, t as int) + cnot_part);
            if swap_1.is_some() && swap_2.is_some() {
                let p1 = swap_1.unwrap();
                let p2 = swap_2.unwrap();
                let tmp = cur[p1];
                let other = cur[p2];
                cur.set(p1, other);
                cur.set(p2, tmp);
            }
            assert forall|k: int| 0 <= k < n implies #[trigger] cur[k] == base + swapped(ls[t as int], k) by {}
            let ghost before_wires = g@.edges;
            let mut k: usize = 0;
            while k < n
                invariant
                    n == self.n_spec(),
                    pre.len() == n,
                    cur.len() == n,
                    base == (t + 1) * n,
                    base + n <= big,
                    big < index_limit(),
                    k <= n,
                    g.wf(),
                    g@.nodes.len() == base + n,
                    g@.nodes == circuit_nodes(ls, n as int, t + 1),
                    g@.alive == Seq::new(g@.nodes.len(), |q: int| true),
                    forall|j: int| 0 <= j < n ==> #[trigger] pre[j] == wire_end(ls, n as int, t as int, j),
                    forall|j: int| 0 <= j < n ==> 0 <= #[trigger] wire_end(ls, n as int, t as int, j) < (t + 1) * n,
                    forall|j: int| 0 <= j < n ==> #[trigger] cur[j] == base + swapped(ls[t as int], j),
                    forall|j: int| 0 <= j < n ==> 0 <= #[trigger] swapped(ls[t as int], j) < n,
                    g@.edges == before_wires + Seq::new(
                        k as nat,
                        |j: int| (wire_end(ls, n as int, t as int, j) as usize, (base + swapped(ls[t as int], j)) as usize, EColor::NC),
                    ),
                    before_wires.len() + n <= (t + 1) * (n + 1),
                    (t + 1) * (n + 1) + 1 < index_limit(),
                decreases n - k,
            {
                g.add_edge(pre[k], cur[k]);
                k += 1;
                proof {
                    assert(g@.edges =~= before_wires + Seq::new(
                        k as nat,
                        |j: int| (wire_end(ls, n as int, t as int, j) as usize, (base + swapped(ls[t as int], j)) as usize, EColor::NC),
                    ));
                }
            }
            proof {
                assert(g@.edges =~= circuit_edges(ls, n as int, t + 1));
                assert(g@.edges.len() <= (t + 1) * (n + 1));
                assert forall|j: int| 0 <= j < n implies #[trigger] cur[j] == wire_end(ls, n as int, t + 1, j)
                    && 0 <= wire_end(ls, n as int, t + 1, j) < (t + 2) * n by {}
            }
            pre = cur;
            t += 1;
        }
        let ghost mid_nodes = g@.nodes;
        let ghost mid_edges = g@.edges;
        proof {
            assert(tt * (n + 1) + n + 1 <= (tt + 2) * (n + 1)) by (nonlinear_arith);
            assert((tt + 1) * n + n == big) by (nonlinear_arith)
                requires
                    big == (tt + 2) * n,
            ;
        }
        let mut j: usize = 0;
        while j < n
            invariant
                n == self.n_spec(),
                t == tt,
                big == (tt + 2) * n,
                big < index_limit(),
                big * big <= usize::MAX,
                (tt + 1) * n + n == big,
                (tt + 2) * (n + 1) + 1 < index_limit(),
                mid_edges.len() + n <= (tt + 2) * (n + 1),
                j <= n,
                g.wf(),
                pre.len() == n,
                forall|i: int| 0 <= i < n ==> #[trigger] pre[i] == wire_end(ls, n as int, tt as int, i),
                forall|i: int| 0 <= i < n ==> 0 <= #[trigger] wire_end(ls, n as int, tt as int, i) < (tt + 1) * n,
                mid_nodes.len() == (tt + 1) * n,
                g@.nodes == mid_nodes + x_row(j as int),
                g@.edges == mid_edges + Seq::new(
                    j as nat,
                    |i: int| (wire_end(ls, n as int, tt as int, i) as usize, ((tt + 1) * n + i) as usize, EColor::NC),
                ),
                g@.alive == Seq::new(g@.nodes.len(), |k: int| true),
            decreases n - j,
        {
            proof {
                let l = g@.nodes.len();
                assert((l + 1) * (l + 1) <= big * big) by (nonlinear_arith)
                    requires
                        l + 1 <= big,
                ;
            }
            let idx = g.add_vertex_with(VColor::X(0));
            g.add_edge(pre[j], idx);
            j += 1;
            proof {
                assert(g@.nodes =~= mid_nodes + x_row(j as int));
                assert(g@.alive =~= Seq::new(g@.nodes.len(), |k: int| true));
                assert(g@.edges =~= mid_edges + Seq::new(
                    j as nat,
                    |i: int| (wire_end(ls, n as int, tt as int, i) as usize, ((tt + 1) * n + i) as usize, EColor::NC),
                ));
            }
        }
        proof {
            assert(g@.edges =~= circuit_edges(ls, n as int, tt as int) + closing_edges(ls, n as int, tt as int));
            assert(g@.nodes == circuit_nodes(ls, n as int, tt as int) + x_row(n as int));
            assert forall|t: int, i: int| 0 <= t < tt && 0 <= i < n implies ({
                let c = #[trigger] g@.nodes[(t + 1) * n + i];
                let q = ls[t][i];
                &&& q matches QGate::Z(s) ==> c == VColor::Z(s)
                &&& q matches QGate::X(s) ==> c == VColor::X(s)
                &&& q == QGate::T ==> c == VColor::Z(1)
                &&& q == QGate::H ==> c == VColor::H
            }) by {
                lemma_gate_vertex_color(ls, n as int, t, i);
            }
        }
        g
    }

    /// A random layer on `n >= 1` qubits (see [`is_random_layer`]). The
    /// second position of a CNOT / SWAP is drawn among the other `n - 1`
    /// positions.
    fn rand_layer(n: usize, rng: &mut rand::rngs::StdRng) -> (layer: Vec<QGate>)
        requires
            n >= 1,
        ensures
            is_random_layer(layer@, n as nat),
    {
        let mut layer: Vec<QGate> = Vec::new();
        let pos = rng_range(rng, 0, n);
        let gate: QGate;
        if n >= 2 {
            let k = rng_range_i32_incl(rng, 0, 5);
            gate = if k == 0 {
                QGate::H
            } else if k == 1 {
                QGate::X(rng_range_u8(rng, 0, 8))
            } else if k == 2 {
                QGate::Z(rng_range_u8(rng, 0, 8))
            } else if k == 3 {
                QGate::T
            } else if k == 4 {
                QGate::CNOT_C
            } else {
                QGate::SWAP_1
            };
        } else {
            let k = rng_range_i32_incl(rng, 0, 3);
            gate = if k == 0 {
                QGate::H
            } else if k == 1 {
                QGate::X(rng_range_u8(rng, 0, 8))
            } else if k == 2 {
                QGate::Z(rng_range_u8(rng, 0, 8))
            } else {
                QGate::T
            };
        }
        if gate == QGate::CNOT_C || gate == QGate::SWAP_1 {
            // Draw the second position from 0..n until it differs from the
            // first. The retry count is bounded by u64::MAX so the loop
            // provably ends; the fallback after that many equal draws is
            // never reached in practice.
            let mut pos2 = rng_range(rng, 0, n);
            let mut tries: u64 = 0;
            while pos2 == pos && tries < u64::MAX
                invariant
                    pos < n,
                    pos2 < n,
                    n >= 2,
                decreases u64::MAX - tries,
            {
                pos2 = rng_range(rng, 0, n);
                tries += 1;
            }
            if pos2 == pos {
                pos2 = if pos == 0 { 1 } else { 0 };
            }
            let (first, second) = if gate == QGate::CNOT_C {
                (QGate::CNOT_C, QGate::CNOT_E)
            } else {
                (QGate::SWAP_1, QGate::SWAP_2)
            };
            let mut i: usize = 0;
            while i < n
                invariant
                    i <= n,
                    layer.len() == i,
                    pos < n,
                    pos2 < n,
                    pos2 != pos,
                    forall|j: int|
                        0 <= j < i ==> #[trigger] layer[j] == if j == pos {
                            first
                        } else if j == pos2 {
                            second
                        } else {
                            QGate::ID
                        },
                decreases n - i,
            {
                if i == pos {
                    layer.push(first);
                } else if i == pos2 {
                    layer.push(second);
                } else {
                    layer.push(QGate::ID);
                }
                i += 1;
            }
            proof {
                assert(layer[pos as int] == first);
                assert(layer[pos2 as int] == second);
            }
        } else {
            let mut i: usize = 0;
            while i < n
                invariant
                    i <= n,
                    layer.len() == i,
                    pos < n,
                    forall|j: int| 0 <= j < i ==> #[trigger] layer[j] == if j == pos { gate } else { QGate::ID },
                decreases n - i,
            {
                if i == pos {
                    layer.push(gate);
                } else {
                    layer.push(QGate::ID);
                }
                i += 1;
            }
            proof {
                assert(layer[pos as int] == gate);
            }
        }
        layer
    }

    /// A random circuit of `depth` random layers on `n_qubit` qubits.
    pub fn rand_circuit(n_qubit: usize, depth: usize, rng: &mut rand::rngs::StdRng) -> (c: Self)
        requires
            depth > 0 ==> n_qubit >= 1,
        ensures
            c.wf(),
            c.n_spec() == n_qubit,
            c.layers_spec().len() == depth,
            forall|t: int| 0 <= t < depth ==> is_random_layer(#[trigger] c.layers_spec()[t], n_qubit as nat),
    {
        let mut circuit = QCircuit::emtpy(n_qubit);
        let mut t: usize = 0;
        while t < depth
            invariant
                t <= depth,
                depth > 0 ==> n_qubit >= 1,
                circuit.wf(),
                circuit.n_spec() == n_qubit,
                circuit.layers_spec().len() == t,
                forall|k: int| 0 <= k < t ==> is_random_layer(#[trigger] circuit.layers_spec()[k], n_qubit as nat),
            decreases depth - t,
        {
            let layer = QCircuit::rand_layer(n_qubit, rng);
            circuit.push_layer(layer);
            t += 1;
        }
        circuit
    }
}

} // verus!
