//! Export of a [`QCircuit`] as an OpenQASM 2.0 program (standard
//! `qelib1.inc` gates).
//!
//! Gate mapping (spider phases are `s * pi/4`, mod 8): `H` is `h`, `T` is
//! `t`; `Z(1) / Z(2) / Z(4) / Z(6) / Z(7)` are `t / s / z / sdg / tdg`, other
//! `Z(s)` are `u1(s*pi/4)` (`u1(0)` for 0); `X(4)` is `x`, other `X(s)` are
//! `rx(s*pi/4)` (`rx(0)` for 0); a `CNOT_C` + `CNOT_E` pair is `cx`, a
//! `SWAP_1` + `SWAP_2` pair is `swap` (the last marker of each kind in a
//! layer counts); `Input`, `Output` and `ID` emit nothing. In each layer the
//! single-qubit gates come first, in ascending qubit order, then the CNOT,
//! then the SWAP.

use vstd::prelude::*;

use crate::q_circuit::def::{last_pos, lemma_last_pos, QCircuit, QGate};
use crate::text::{chars_to_string, dec, push_dec, push_str};

verus! {

/// The qelib1 gate (with argument) for a Z spider of phase `s * pi/4`.
pub open spec fn z_name(s: u8) -> Seq<char> {
    let k = s % 8;
    if k == 0 {
        "u1(0)"@
    } else if k == 1 {
        "t"@
    } else if k == 2 {
        "s"@
    } else if k == 4 {
        "z"@
    } else if k == 6 {
        "sdg"@
    } else if k == 7 {
        "tdg"@
    } else {
        "u1("@ + dec(k as nat) + "*pi/4)"@
    }
}

/// The qelib1 gate (with argument) for an X spider of phase `s * pi/4`.
pub open spec fn x_name(s: u8) -> Seq<char> {
    let k = s % 8;
    if k == 0 {
        "rx(0)"@
    } else if k == 4 {
        "x"@
    } else {
        "rx("@ + dec(k as nat) + "*pi/4)"@
    }
}

/// `" q[i];\n"`.
pub open spec fn on_qubit(i: nat) -> Seq<char> {
    " q["@ + dec(i) + "];\n"@
}

/// The line of a single-qubit gate on qubit `i` (empty for the others).
pub open spec fn gate_line(g: QGate, i: nat) -> Seq<char> {
    match g {
        QGate::H => "h"@ + on_qubit(i),
        QGate::T => "t"@ + on_qubit(i),
        QGate::Z(s) => z_name(s) + on_qubit(i),
        QGate::X(s) => x_name(s) + on_qubit(i),
        _ => Seq::empty(),
    }
}

/// The single-qubit lines of positions `0..k` of a layer.
pub open spec fn single_lines(layer: Seq<QGate>, k: int) -> Seq<char>
    decreases k,
{
    if k <= 0 {
        Seq::empty()
    } else {
        single_lines(layer, k - 1) + gate_line(layer[k - 1], (k - 1) as nat)
    }
}

/// A two-qubit line `name q[a], q[b];` when both markers occur.
pub open spec fn pair_line(name: Seq<char>, a: Option<nat>, b: Option<nat>) -> Seq<char> {
    match (a, b) {
        (Some(x), Some(y)) => name + " q["@ + dec(x) + "], q["@ + dec(y) + "];\n"@,
        _ => Seq::empty(),
    }
}

/// The program lines of one layer.
pub open spec fn layer_qasm(layer: Seq<QGate>) -> Seq<char> {
    let n = layer.len() as int;
    single_lines(layer, n) + pair_line(
        "cx"@,
        last_pos(layer, QGate::CNOT_C, n),
        last_pos(layer, QGate::CNOT_E, n),
    ) + pair_line("swap"@, last_pos(layer, QGate::SWAP_1, n), last_pos(layer, QGate::SWAP_2, n))
}

/// The program lines of layers `0..t`.
pub open spec fn layers_qasm(layers: Seq<Seq<QGate>>, t: int) -> Seq<char>
    decreases t,
{
    if t <= 0 {
        Seq::empty()
    } else {
        layers_qasm(layers, t - 1) + layer_qasm(layers[t - 1])
    }
}

/// The whole program: header, register declaration, then the layers.
pub open spec fn qasm_program(n: nat, layers: Seq<Seq<QGate>>) -> Seq<char> {
    "OPENQASM 2.0;\ninclude \"qelib1.inc\";\nqreg q["@ + dec(n) + "];\n"@ + layers_qasm(layers, layers.len() as int)
}

/// The OpenQASM line of a CNOT with control `c` and target `e`.
pub open spec fn cx_text(c: nat, e: nat) -> Seq<char> {
    "cx q["@ + dec(c) + "], q["@ + dec(e) + "];\n"@
}

/// `s` is `pre`, then `mid`, then `post`.
pub open spec fn split3(s: Seq<char>, pre: Seq<char>, mid: Seq<char>, post: Seq<char>) -> bool {
    s == pre + mid + post
}

/// `p` is the last position of `g` in the layer.
pub open spec fn is_last(layer: Seq<QGate>, g: QGate, p: int) -> bool {
    0 <= p < layer.len() && layer[p] == g && forall|j: int| p < j < layer.len() ==> layer[j] != g
}

proof fn lemma_is_last(layer: Seq<QGate>, g: QGate, p: int)
    requires
        is_last(layer, g, p),
    ensures
        last_pos(layer, g, layer.len() as int) == Some(p as nat),
{
    lemma_last_pos(layer, g, layer.len() as int);
    match last_pos(layer, g, layer.len() as int) {
        Some(q) => {
            if (q as int) < p {
                assert(layer[p] == g);
            } else if (q as int) > p {
                assert(layer[q as int] == g);
            }
        },
        None => {
            assert(layer[p] == g);
        },
    }
}

/// The text of layers `0..k` begins with that of layers `0..t`, then layer
/// `t`.
proof fn lemma_layers_split(layers: Seq<Seq<QGate>>, t: int, k: int)
    requires
        0 <= t < k,
    ensures
        exists|post: Seq<char>|
            #[trigger] layers_qasm(layers, k) == layers_qasm(layers, t) + layer_qasm(layers[t]) + post,
    decreases k - t,
{
    if k == t + 1 {
        assert(layers_qasm(layers, k) == layers_qasm(layers, t) + layer_qasm(layers[t]) + Seq::<char>::empty());
    } else {
        lemma_layers_split(layers, t, k - 1);
        let post = choose|post: Seq<char>|
            #[trigger] layers_qasm(layers, k - 1) == layers_qasm(layers, t) + layer_qasm(layers[t]) + post;
        let p2 = post + layer_qasm(layers[k - 1]);
        assert(layers_qasm(layers, k) =~= layers_qasm(layers, t) + layer_qasm(layers[t]) + p2);
    }
}

/// A CNOT is written control first: wherever layer `t` of the circuit has
/// its last `CNOT_C` marker at `c` and its last `CNOT_E` marker at `e`, the
/// program holds the line `cx q[c], q[e];`, whichever of `c` and `e` is
/// larger.
pub proof fn lemma_cx_control_first(n: nat, layers: Seq<Seq<QGate>>, t: int, c: int, e: int)
    requires
        0 <= t < layers.len(),
        is_last(layers[t], QGate::CNOT_C, c),
        is_last(layers[t], QGate::CNOT_E, e),
    ensures
        exists|pre: Seq<char>, post: Seq<char>|
            #[trigger] split3(qasm_program(n, layers), pre, cx_text(c as nat, e as nat), post),
{
    let layer = layers[t];
    lemma_is_last(layer, QGate::CNOT_C, c);
    lemma_is_last(layer, QGate::CNOT_E, e);
    lemma_layers_split(layers, t, layers.len() as int);
    let post0 = choose|post: Seq<char>|
        #[trigger] layers_qasm(layers, layers.len() as int) == layers_qasm(layers, t) + layer_qasm(layers[t]) + post;
    let head = "OPENQASM 2.0;\ninclude \"qelib1.inc\";\nqreg q["@ + dec(n) + "];\n"@;
    let ln = layer.len() as int;
    let sw = pair_line("swap"@, last_pos(layer, QGate::SWAP_1, ln), last_pos(layer, QGate::SWAP_2, ln));
    let pre = head + layers_qasm(layers, t) + single_lines(layer, ln);
    let post = sw + post0;
    assert(pair_line("cx"@, last_pos(layer, QGate::CNOT_C, ln), last_pos(layer, QGate::CNOT_E, ln)) == cx_text(
        c as nat,
        e as nat,
    )) by {
        reveal_strlit("cx");
        reveal_strlit(" q[");
        reveal_strlit("cx q[");
        assert("cx"@ + " q["@ =~= "cx q["@);
        assert(pair_line("cx"@, Some(c as nat), Some(e as nat)) =~= cx_text(c as nat, e as nat));
    }
    assert(qasm_program(n, layers) =~= pre + cx_text(c as nat, e as nat) + post);
    assert(split3(qasm_program(n, layers), pre, cx_text(c as nat, e as nat), post));
}

impl QCircuit {
    /// Render the circuit as an OpenQASM 2.0 program (the module docs list
    /// how each gate is written).
    pub fn to_qasm2(&self) -> (r: String)
        ensures
            r@ == qasm_program(self.n_spec(), self.layers_spec()),
            forall|t: int, c: int, e: int|
                0 <= t < self.layers_spec().len() && is_last(self.layers_spec()[t], QGate::CNOT_C, c) && is_last(
                    self.layers_spec()[t],
                    QGate::CNOT_E,
                    e,
                ) ==> exists|pre: Seq<char>, post: Seq<char>| #[trigger] split3(r@, pre, cx_text(c as nat, e as nat), post),
    {
        let mut out: Vec<char> = Vec::new();
        push_str(&mut out, "OPENQASM 2.0;\ninclude \"qelib1.inc\";\nqreg q[");
        push_dec(&mut out, self.n_qubits() as u64);
        push_str(&mut out, "];\n");
        let layers = self.layers();
        let ghost ls = self.layers_spec();
        proof {
            assert(layers@.map_values(|l: Vec<QGate>| l@) == ls);
            assert(out@ =~= qasm_program(self.n_spec(), ls).take(out@.len() as int)) by {
                assert(out@ =~= "OPENQASM 2.0;\ninclude \"qelib1.inc\";\nqreg q["@ + dec(self.n_spec()) + "];\n"@);
            }
        }
        let ghost head = out@;
        let mut t: usize = 0;
        while t < layers.len()
            invariant
                layers@.map_values(|l: Vec<QGate>| l@) == ls,
                ls == self.layers_spec(),
                head == "OPENQASM 2.0;\ninclude \"qelib1.inc\";\nqreg q["@ + dec(self.n_spec()) + "];\n"@,
                t <= layers.len(),
                out@ == head + layers_qasm(ls, t as int),
            decreases layers.len() - t,
        {
            let layer = &layers[t];
            assert(layer@ == ls[t as int]);
            push_layer_qasm(&mut out, layer);
            proof {
                assert(out@ =~= head + layers_qasm(ls, t + 1));
            }
            t += 1;
        }
        let r = chars_to_string(&out);
        proof {
            assert forall|t: int, c: int, e: int|
                0 <= t < ls.len() && is_last(ls[t], QGate::CNOT_C, c) && is_last(ls[t], QGate::CNOT_E, e) implies exists|
                pre: Seq<char>,
                post: Seq<char>,
            | #[trigger] split3(r@, pre, cx_text(c as nat, e as nat), post) by {
                lemma_cx_control_first(self.n_spec(), ls, t, c, e);
            }
        }
        r
    }
}

/// A position held as a machine integer, seen as a natural number.
pub open spec fn pos_of(o: Option<usize>) -> Option<nat> {
    match o {
        Some(p) => Some(p as nat),
        None => None,
    }
}

/// The last position of `g` in `layer`.
fn last_index(layer: &Vec<QGate>, g: QGate) -> (r: Option<usize>)
    ensures
        pos_of(r) == last_pos(layer@, g, layer.len() as int),
{
    let mut found: Option<usize> = None;
    let mut i: usize = 0;
    while i < layer.len()
        invariant
            i <= layer.len(),
            pos_of(found) == last_pos(layer@, g, i as int),
        decreases layer.len() - i,
    {
        if layer[i] == g {
            found = Some(i);
        }
        i += 1;
    }
    found
}

/// Append the program lines of one layer.
fn push_layer_qasm(out: &mut Vec<char>, layer: &Vec<QGate>)
    ensures
        final(out)@ == old(out)@ + layer_qasm(layer@),
{
    let ghost before = out@;
    let mut i: usize = 0;
    while i < layer.len()
        invariant
            i <= layer.len(),
            out@ == before + single_lines(layer@, i as int),
        decreases layer.len() - i,
    {
        push_gate_line(out, layer[i], i);
        proof {
            assert(out@ =~= before + single_lines(layer@, i + 1));
        }
        i += 1;
    }
    let ghost singles = out@;
    let ctrl = last_index(layer, QGate::CNOT_C);
    let targ = last_index(layer, QGate::CNOT_E);
    let swap_a = last_index(layer, QGate::SWAP_1);
    let swap_b = last_index(layer, QGate::SWAP_2);
    if ctrl.is_some() && targ.is_some() {
        push_str(out, "cx");
        push_pair_args(out, ctrl.unwrap(), targ.unwrap());
    }
    let ghost with_cx = out@;
    assert(with_cx =~= singles + pair_line("cx"@, pos_of(ctrl), pos_of(targ)));
    if swap_a.is_some() && swap_b.is_some() {
        push_str(out, "swap");
        push_pair_args(out, swap_a.unwrap(), swap_b.unwrap());
    }
    assert(out@ =~= with_cx + pair_line("swap"@, pos_of(swap_a), pos_of(swap_b)));
    assert(out@ =~= before + layer_qasm(layer@));
}

/// Append the line of a single-qubit gate on qubit `i` (nothing for the
/// two-qubit markers, the boundary markers and the identity).
fn push_gate_line(out: &mut Vec<char>, g: QGate, i: usize)
    ensures
        final(out)@ == old(out)@ + gate_line(g, i as nat),
{
    match g {
        QGate::H => {
            push_str(out, "h");
            push_on_qubit(out, i);
        },
        QGate::T => {
            push_str(out, "t");
            push_on_qubit(out, i);
        },
        QGate::Z(s) => {
            let name = z_gate_name(s);
            push_str(out, name.as_str());
            push_on_qubit(out, i);
        },
        QGate::X(s) => {
            let name = x_gate_name(s);
            push_str(out, name.as_str());
            push_on_qubit(out, i);
        },
        _ => {
            assert(old(out)@ + gate_line(g, i as nat) =~= old(out)@);
        },
    }
}

/// Append `" q[i];\n"`.
fn push_on_qubit(out: &mut Vec<char>, i: usize)
    ensures
        final(out)@ == old(out)@ + on_qubit(i as nat),
{
    push_str(out, " q[");
    push_dec(out, i as u64);
    push_str(out, "];\n");
    proof {
        assert(final(out)@ =~= old(out)@ + on_qubit(i as nat));
    }
}

/// Append `" q[a], q[b];\n"`.
fn push_pair_args(out: &mut Vec<char>, a: usize, b: usize)
    ensures
        final(out)@ == old(out)@ + " q["@ + dec(a as nat) + "], q["@ + dec(b as nat) + "];\n"@,
{
    push_str(out, " q[");
    push_dec(out, a as u64);
    push_str(out, "], q[");
    push_dec(out, b as u64);
    push_str(out, "];\n");
    proof {
        assert(final(out)@ =~= old(out)@ + " q["@ + dec(a as nat) + "], q["@ + dec(b as nat) + "];\n"@);
    }
}

/// qelib1 gate (with argument) for a Z spider of phase `s * pi/4`: the
/// standard named gates where they exist, `u1` otherwise.
pub fn z_gate_name(s: u8) -> (r: String)
    ensures
        r@ == z_name(s),
{
    let k = s % 8;
    let mut out: Vec<char> = Vec::new();
    if k == 0 {
        push_str(&mut out, "u1(0)");
    } else if k == 1 {
        push_str(&mut out, "t");
    } else if k == 2 {
        push_str(&mut out, "s");
    } else if k == 4 {
        push_str(&mut out, "z");
    } else if k == 6 {
        push_str(&mut out, "sdg");
    } else if k == 7 {
        push_str(&mut out, "tdg");
    } else {
        push_str(&mut out, "u1(");
        push_dec(&mut out, k as u64);
        push_str(&mut out, "*pi/4)");
    }
    proof {
        assert(out@ =~= z_name(s));
    }
    chars_to_string(&out)
}

/// qelib1 gate (with argument) for an X spider of phase `s * pi/4`: `x` at
/// phase pi, `rx` otherwise.
pub fn x_gate_name(s: u8) -> (r: String)
    ensures
        r@ == x_name(s),
{
    let k = s % 8;
    let mut out: Vec<char> = Vec::new();
    if k == 0 {
        push_str(&mut out, "rx(0)");
    } else if k == 4 {
        push_str(&mut out, "x");
    } else {
        push_str(&mut out, "rx(");
        push_dec(&mut out, k as u64);
        push_str(&mut out, "*pi/4)");
    }
    proof {
        assert(out@ =~= x_name(s));
    }
    chars_to_string(&out)
}

} // verus!
