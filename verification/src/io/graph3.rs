//! The Graph3 (`.graph3`) text format for colored multigraphs.
//!
//! Each line declares one vertex (`a`), or two vertices and a number of
//! parallel edges between them (`a b` for one edge, `a b c` for `c` edges),
//! with an optional `: type` suffix typing the line's vertex (`NC`, `H`,
//! `Z(n)`, `X(n)`, phase `n * pi/4` reduced mod 8) or its edges (`NC`,
//! `H`). Tokens are hex labels, matched case-insensitively with leading
//! zeros ignored; everything after `#` is a comment; blank lines are
//! skipped. Multiplicities are summed per pair and type; a line or pair
//! above 10 000 edges, malformed syntax or an unknown type rejects the
//! whole file with the 1-based number of the offending line. Vertices are
//! numbered by ascending numeric label; edge groups come sorted by
//! endpoints, `NC` before `H`.
//!
//! Rendering writes the alive induced subgraph with dense labels: one
//! `a : TYPE` line per alive vertex, then one line per (pair, type) group,
//! the multiplicity as a third hex token only when above 1.

use vstd::prelude::*;

use crate::graph::{alive_edges_of, EColor, Graph, GraphModel, VColor};
use crate::seqs::count_true;
use crate::petgraph_ext::index_limit;
use crate::io::scan::{
    all_dec, all_hex, append_chars, chars_all_dec, chars_all_hex, chars_eq_str, find_char, find_from,
    is_dec_char, is_hex_char, lower, lower_chars, lower_seq, slice_chars, split_words, trim, trim_chars, words,
};
use crate::text::{chars_to_string, dec, hex, push_dec, push_hex, push_str, str_to_chars};

verus! {

/// Ceiling for edge multiplicities, per line and per pair.
pub const MAX_MULTIPLICITY: u32 = 10000;

/// `"graph3 line {line}: {detail}"`.
pub open spec fn line_err(line: nat, detail: Seq<char>) -> Seq<char> {
    "graph3 line "@ + dec(line) + ": "@ + detail
}

/// Value of one hex digit.
pub open spec fn hex_digit_val(c: char) -> nat {
    if '0' <= c && c <= '9' {
        ((c as u32) - 48) as nat
    } else if 'a' <= c && c <= 'f' {
        ((c as u32) - 87) as nat
    } else {
        ((c as u32) - 55) as nat
    }
}

/// Value of a string of hex digits, most significant first.
pub open spec fn hex_value(s: Seq<char>) -> nat
    decreases s.len(),
{
    if s.len() == 0 {
        0
    } else {
        hex_value(s.drop_last()) * 16 + hex_digit_val(s.last())
    }
}

/// The index of the first character of `s` at or after `i` other than `'0'`.
pub open spec fn skip_zeros(s: Seq<char>, i: nat) -> nat
    decreases s.len() - i,
{
    if i >= s.len() {
        s.len()
    } else if s[i as int] == '0' {
        skip_zeros(s, i + 1)
    } else {
        i
    }
}

/// Canonical spelling of a hex token: lowercase, leading zeros dropped,
/// `"0"` for zero.
pub open spec fn canon_hex(t: Seq<char>) -> Seq<char> {
    let l = lower_seq(t);
    let z = skip_zeros(l, 0);
    if z >= l.len() {
        "0"@
    } else {
        l.subrange(z as int, l.len() as int)
    }
}

/// A hex token is valid when it is non-empty and made of hex digits.
pub open spec fn hex_token_ok(t: Seq<char>) -> bool {
    t.len() > 0 && all_hex(t)
}

pub open spec fn bad_hex_detail(t: Seq<char>) -> Seq<char> {
    "invalid hex token '"@ + t + "'"@
}

pub open spec fn mult_exceeds_detail(t: Seq<char>) -> Seq<char> {
    "multiplicity '"@ + t + "' exceeds 10000"@
}

/// A multiplicity token: its value, or the error detail.
pub open spec fn mult_token(t: Seq<char>) -> Result<nat, Seq<char>> {
    if !hex_token_ok(t) {
        Err(bad_hex_detail(t))
    } else if canon_hex(t).len() > 4 || hex_value(canon_hex(t)) > 10000 {
        Err(mult_exceeds_detail(t))
    } else {
        Ok(hex_value(canon_hex(t)))
    }
}

/// Decimal digits folded into a phase mod 8, digit by digit.
pub open spec fn phase_fold(d: Seq<char>) -> nat
    decreases d.len(),
{
    if d.len() == 0 {
        0
    } else {
        ((phase_fold(d.drop_last()) * 10 + ((d.last() as u32) - 48)) % 8) as nat
    }
}

/// A (lowercased) vertex type: `nc`, `h`, `z(n)` or `x(n)` with `n` a
/// non-empty run of decimal digits.
pub open spec fn vertex_type(t: Seq<char>) -> Option<VColor> {
    if t == "nc"@ {
        Some(VColor::NC)
    } else if t == "h"@ {
        Some(VColor::H)
    } else if t.len() >= 3 && (t[0] == 'z' || t[0] == 'x') && t[1] == '(' && t.last() == ')' {
        let d = t.subrange(2, t.len() - 1);
        if d.len() > 0 && all_dec(d) {
            if t[0] == 'z' {
                Some(VColor::Z(phase_fold(d) as u8))
            } else {
                Some(VColor::X(phase_fold(d) as u8))
            }
        } else {
            None
        }
    } else {
        None
    }
}

/// The canonical Graph3 spelling of a vertex color.
pub open spec fn type_str(c: VColor) -> Seq<char> {
    match c {
        VColor::Z(s) => "Z("@ + dec((s % 8) as nat) + ")"@,
        VColor::X(s) => "X("@ + dec((s % 8) as nat) + ")"@,
        VColor::H => "H"@,
        VColor::NC => "NC"@,
    }
}

/// What one line of a file says.
pub enum G3Line {
    /// Nothing (blank or comment).
    Blank,
    /// A vertex, with its type when one is given.
    Vertex { label: Seq<char>, ty: Option<VColor> },
    /// `m` parallel edges between two vertices, Hadamard when `h`.
    Edge { a: Seq<char>, b: Seq<char>, m: nat, h: bool },
    /// A malformed line, with the error detail.
    Bad { detail: Seq<char> },
}

pub open spec fn type_token_detail() -> Seq<char> {
    "type suffix must be one whitespace-free token"@
}

pub open spec fn count_detail(n: nat) -> Seq<char> {
    "expected 1, 2, or 3 hex tokens, found "@ + dec(n)
}

pub open spec fn vertex_type_detail(t: Seq<char>) -> Seq<char> {
    "unknown vertex type '"@ + t + "'"@
}

pub open spec fn edge_type_detail(t: Seq<char>) -> Seq<char> {
    "unknown edge type '"@ + t + "'"@
}

pub open spec fn pair_detail() -> Seq<char> {
    "pair edges exceed 10000"@
}

/// The edge-line reading once the type suffix (lowercased) is known.
pub open spec fn edge_line(toks: Seq<Seq<char>>, ty: Option<Seq<char>>) -> G3Line {
    if !hex_token_ok(toks[0]) {
        G3Line::Bad { detail: bad_hex_detail(toks[0]) }
    } else if !hex_token_ok(toks[1]) {
        G3Line::Bad { detail: bad_hex_detail(toks[1]) }
    } else {
        let m: Result<nat, Seq<char>> = if toks.len() == 3 {
            mult_token(toks[2])
        } else {
            Ok(1)
        };
        match m {
            Err(d) => G3Line::Bad { detail: d },
            Ok(m) => match ty {
                None => G3Line::Edge { a: canon_hex(toks[0]), b: canon_hex(toks[1]), m, h: false },
                Some(t) => if t == "h"@ {
                    G3Line::Edge { a: canon_hex(toks[0]), b: canon_hex(toks[1]), m, h: true }
                } else if t == "nc"@ {
                    G3Line::Edge { a: canon_hex(toks[0]), b: canon_hex(toks[1]), m, h: false }
                } else {
                    G3Line::Bad { detail: edge_type_detail(t) }
                },
            },
        }
    }
}

/// The vertex-line reading once the type suffix (lowercased) is known.
pub open spec fn vertex_line(tok: Seq<char>, ty: Option<Seq<char>>) -> G3Line {
    if !hex_token_ok(tok) {
        G3Line::Bad { detail: bad_hex_detail(tok) }
    } else {
        match ty {
            None => G3Line::Vertex { label: canon_hex(tok), ty: None },
            Some(t) => match vertex_type(t) {
                Some(c) => G3Line::Vertex { label: canon_hex(tok), ty: Some(c) },
                None => G3Line::Bad { detail: vertex_type_detail(t) },
            },
        }
    }
}

/// The reading of one raw line (without its `\n`).
pub open spec fn parse_line(raw: Seq<char>) -> G3Line {
    let line = trim(raw.take(find_from(raw, '#', 0) as int));
    if line.len() == 0 {
        G3Line::Blank
    } else {
        let p = find_from(line, ':', 0);
        let t = trim(line.skip(p + 1 as int));
        if p < line.len() && (t.len() == 0 || words(t).len() != 1) {
            G3Line::Bad { detail: type_token_detail() }
        } else {
            let ty: Option<Seq<char>> = if p < line.len() {
                Some(lower_seq(t))
            } else {
                None
            };
            let toks = words(line.take(p as int));
            if toks.len() == 0 || toks.len() > 3 {
                G3Line::Bad { detail: count_detail(toks.len()) }
            } else if toks.len() == 1 {
                vertex_line(toks[0], ty)
            } else {
                edge_line(toks, ty)
            }
        }
    }
}

/// A line of a file, as read.
pub enum Line {
    Blank,
    Vertex(Vec<char>, Option<VColor>),
    Edge(Vec<char>, Vec<char>, u32, bool),
    Bad(Vec<char>),
}

impl Line {
    pub open spec fn view_line(&self) -> G3Line {
        match self {
            Line::Blank => G3Line::Blank,
            Line::Vertex(l, t) => G3Line::Vertex { label: l@, ty: *t },
            Line::Edge(a, b, m, h) => G3Line::Edge { a: a@, b: b@, m: *m as nat, h: *h },
            Line::Bad(d) => G3Line::Bad { detail: d@ },
        }
    }
}

fn detail_with(pre: &str, mid: &Vec<char>, post: &str) -> (r: Vec<char>)
    ensures
        r@ == pre@ + mid@ + post@,
{
    let mut out: Vec<char> = Vec::new();
    push_str(&mut out, pre);
    append_chars(&mut out, mid);
    push_str(&mut out, post);
    proof {
        assert(out@ =~= pre@ + mid@ + post@);
    }
    out
}

/// Validate a hex token and return its canonical spelling (lowercase, no
/// leading zeros, `0` for zero), or the error detail.
fn canonical_hex(token: &Vec<char>) -> (r: Result<Vec<char>, Vec<char>>)
    ensures
        match r {
            Ok(c) => hex_token_ok(token@) && c@ == canon_hex(token@),
            Err(d) => !hex_token_ok(token@) && d@ == bad_hex_detail(token@),
        },
{
    if token.len() == 0 || !chars_all_hex(token) {
        return Err(detail_with("invalid hex token '", token, "'"));
    }
    let lower = lower_chars(token);
    let mut z: usize = 0;
    while z < lower.len() && lower[z] == '0'
        invariant
            z <= lower.len(),
            skip_zeros(lower@, 0) == skip_zeros(lower@, z as nat),
        decreases lower.len() - z,
    {
        z += 1;
    }
    if z >= lower.len() {
        let mut zero: Vec<char> = Vec::new();
        zero.push('0');
        proof {
            assert(zero@ =~= "0"@) by {
                reveal_strlit("0");
            }
        }
        Ok(zero)
    } else {
        Ok(slice_chars(&lower, z, lower.len()))
    }
}

proof fn lemma_hex_value_bound(s: Seq<char>)
    requires
        all_hex(s),
    ensures
        hex_value(s) < pow16(s.len()),
    decreases s.len(),
{
    if s.len() > 0 {
        lemma_hex_value_bound(s.drop_last());
        assert(is_hex_char(s.last()));
        assert(hex_digit_val(s.last()) < 16);
    }
}

pub open spec fn pow16(k: nat) -> nat
    decreases k,
{
    if k == 0 {
        1
    } else {
        16 * pow16((k - 1) as nat)
    }
}

proof fn lemma_canon_hex(t: Seq<char>)
    requires
        hex_token_ok(t),
    ensures
        all_hex(canon_hex(t)),
        canon_hex(t).len() > 0,
{
    let l = lower_seq(t);
    assert forall|k: int| 0 <= k < l.len() implies is_hex_char(#[trigger] l[k]) by {
        assert(is_hex_char(t[k]));
    }
    lemma_skip_zeros(l, 0);
    if skip_zeros(l, 0) >= l.len() {
        reveal_strlit("0");
    }
}

proof fn lemma_skip_zeros(s: Seq<char>, i: nat)
    ensures
        i <= s.len() ==> i <= skip_zeros(s, i) <= s.len(),
    decreases s.len() - i,
{
    if i < s.len() && s[i as int] == '0' {
        lemma_skip_zeros(s, i + 1);
    }
}

/// Parse a multiplicity token, enforcing the 10 000 ceiling.
fn graph3_multiplicity(token: &Vec<char>) -> (r: Result<u32, Vec<char>>)
    ensures
        match r {
            Ok(m) => mult_token(token@) == Ok::<nat, Seq<char>>(m as nat),
            Err(d) => mult_token(token@) == Err::<nat, Seq<char>>(d@),
        },
{
    let canon = match canonical_hex(token) {
        Ok(c) => c,
        Err(d) => {
            return Err(d);
        },
    };
    proof {
        lemma_canon_hex(token@);
    }
    if canon.len() > 4 {
        return Err(detail_with("multiplicity '", token, "' exceeds 10000"));
    }
    let mut m: u32 = 0;
    let mut i: usize = 0;
    while i < canon.len()
        invariant
            canon.len() <= 4,
            all_hex(canon@),
            i <= canon.len(),
            m == hex_value(canon@.take(i as int)),
            m < pow16(i as nat),
        decreases canon.len() - i,
    {
        let c = canon[i];
        assert(is_hex_char(c));
        let d: u32 = if '0' <= c && c <= '9' {
            (c as u32) - 48
        } else if 'a' <= c && c <= 'f' {
            (c as u32) - 87
        } else {
            (c as u32) - 55
        };
        assert(canon@.take(i + 1).drop_last() =~= canon@.take(i as int));
        assert(pow16(i as nat) <= 4096) by {
            assert(pow16(0) == 1);
            assert(pow16(1) == 16);
            assert(pow16(2) == 256);
            assert(pow16(3) == 4096);
        }
        m = m * 16 + d;
        i += 1;
    }
    proof {
        assert(canon@.take(i as int) =~= canon@);
    }
    if m > 10000 {
        return Err(detail_with("multiplicity '", token, "' exceeds 10000"));
    }
    Ok(m)
}

/// Fold decimal digits into a phase mod 8.
fn phase_mod8(digits: &Vec<char>) -> (r: u8)
    requires
        all_dec(digits@),
    ensures
        r as nat == phase_fold(digits@),
        r < 8,
{
    let mut acc: u8 = 0;
    let mut i: usize = 0;
    while i < digits.len()
        invariant
            all_dec(digits@),
            i <= digits.len(),
            acc as nat == phase_fold(digits@.take(i as int)),
            acc < 8,
        decreases digits.len() - i,
    {
        let c = digits[i];
        assert(is_dec_char(c));
        let d: u8 = ((c as u32) - 48) as u8;
        assert(digits@.take(i + 1).drop_last() =~= digits@.take(i as int));
        acc = (acc * 10 + d) % 8;
        i += 1;
    }
    proof {
        assert(digits@.take(i as int) =~= digits@);
    }
    acc
}

/// Parse a (lowercased) vertex type: `nc`, `h`, `z(n)` or `x(n)`.
fn parse_vertex_type(t: &Vec<char>) -> (r: Option<VColor>)
    ensures
        r == vertex_type(t@),
{
    if chars_eq_str(t, "nc") {
        return Some(VColor::NC);
    }
    if chars_eq_str(t, "h") {
        return Some(VColor::H);
    }
    if t.len() >= 3 && (t[0] == 'z' || t[0] == 'x') && t[1] == '(' && t[t.len() - 1] == ')' {
        let d = slice_chars(t, 2, t.len() - 1);
        if d.len() > 0 && chars_all_dec(&d) {
            let p = phase_mod8(&d);
            if t[0] == 'z' {
                Some(VColor::Z(p))
            } else {
                Some(VColor::X(p))
            }
        } else {
            None
        }
    } else {
        None
    }
}

/// The canonical Graph3 spelling of a vertex color.
fn type_string(c: VColor) -> (r: Vec<char>)
    ensures
        r@ == type_str(c),
{
    let mut out: Vec<char> = Vec::new();
    match c {
        VColor::Z(s) => {
            push_str(&mut out, "Z(");
            push_dec(&mut out, (s % 8) as u64);
            push_str(&mut out, ")");
        },
        VColor::X(s) => {
            push_str(&mut out, "X(");
            push_dec(&mut out, (s % 8) as u64);
            push_str(&mut out, ")");
        },
        VColor::H => {
            push_str(&mut out, "H");
        },
        VColor::NC => {
            push_str(&mut out, "NC");
        },
    }
    proof {
        assert(out@ =~= type_str(c));
    }
    out
}

/// Read the edge line `toks` with the lowercased type suffix `ty`.
fn read_edge_line(toks: &Vec<Vec<char>>, ty: &Option<Vec<char>>) -> (r: Line)
    requires
        toks.len() == 2 || toks.len() == 3,
    ensures
        r.view_line() == edge_line(
            toks@.map_values(|w: Vec<char>| w@),
            match ty {
                Some(t) => Some(t@),
                None => None::<Seq<char>>,
            },
        ),
{
    let ghost ts = toks@.map_values(|w: Vec<char>| w@);
    let a = match canonical_hex(&toks[0]) {
        Ok(a) => a,
        Err(d) => {
            return Line::Bad(d);
        },
    };
    let b = match canonical_hex(&toks[1]) {
        Ok(b) => b,
        Err(d) => {
            return Line::Bad(d);
        },
    };
    let m: u32 = if toks.len() == 3 {
        match graph3_multiplicity(&toks[2]) {
            Ok(m) => m,
            Err(d) => {
                return Line::Bad(d);
            },
        }
    } else {
        1
    };
    match ty {
        None => Line::Edge(a, b, m, false),
        Some(t) => {
            if chars_eq_str(t, "h") {
                Line::Edge(a, b, m, true)
            } else if chars_eq_str(t, "nc") {
                Line::Edge(a, b, m, false)
            } else {
                Line::Bad(detail_with("unknown edge type '", t, "'"))
            }
        },
    }
}

/// Read the vertex line `tok` with the lowercased type suffix `ty`.
fn read_vertex_line(tok: &Vec<char>, ty: &Option<Vec<char>>) -> (r: Line)
    ensures
        r.view_line() == vertex_line(
            tok@,
            match ty {
                Some(t) => Some(t@),
                None => None::<Seq<char>>,
            },
        ),
{
    let a = match canonical_hex(tok) {
        Ok(a) => a,
        Err(d) => {
            return Line::Bad(d);
        },
    };
    match ty {
        None => Line::Vertex(a, None),
        Some(t) => match parse_vertex_type(t) {
            Some(c) => Line::Vertex(a, Some(c)),
            None => Line::Bad(detail_with("unknown vertex type '", t, "'")),
        },
    }
}

/// Read one raw line (without its `\n`).
fn read_line(raw: &Vec<char>) -> (r: Line)
    ensures
        r.view_line() == parse_line(raw@),
{
    let h = find_char(raw, '#', 0);
    proof {
        crate::io::scan::lemma_find_from(raw@, '#', 0);
    }
    let before = slice_chars(raw, 0, h);
    let line = trim_chars(&before);
    proof {
        assert(before@ =~= raw@.take(find_from(raw@, '#', 0) as int));
    }
    if line.len() == 0 {
        return Line::Blank;
    }
    let p = find_char(&line, ':', 0);
    proof {
        crate::io::scan::lemma_find_from(line@, ':', 0);
    }
    let ty: Option<Vec<char>> = if p < line.len() {
        let rest = slice_chars(&line, p + 1, line.len());
        let t = trim_chars(&rest);
        proof {
            assert(rest@ =~= line@.skip(p + 1));
        }
        let tw = split_words(&t);
        if t.len() == 0 || tw.len() != 1 {
            return Line::Bad(crate::text::str_to_chars("type suffix must be one whitespace-free token"));
        }
        Some(lower_chars(&t))
    } else {
        None
    };
    let nums = slice_chars(&line, 0, p);
    proof {
        assert(nums@ =~= line@.take(p as int));
    }
    let toks = split_words(&nums);
    let ghost ts = toks@.map_values(|w: Vec<char>| w@);
    assert(ts.len() == toks.len());
    if toks.len() == 0 || toks.len() > 3 {
        let mut d: Vec<char> = Vec::new();
        push_str(&mut d, "expected 1, 2, or 3 hex tokens, found ");
        push_dec(&mut d, toks.len() as u64);
        return Line::Bad(d);
    }
    if toks.len() == 1 {
        assert(ts[0] == toks[0]@);
        read_vertex_line(&toks[0], &ty)
    } else {
        read_edge_line(&toks, &ty)
    }
}

// ---------------------------------------------------------------------
// Reading a whole file.

/// The lines of a text: the pieces between `\n` separators (the last
/// piece may be empty).
pub open spec fn lines_of(s: Seq<char>) -> Seq<Seq<char>>
    decreases s.len(),
{
    if s.len() == 0 {
        seq![Seq::<char>::empty()]
    } else {
        let prev = lines_of(s.drop_last());
        if s.last() == '\n' {
            prev.push(Seq::empty())
        } else {
            prev.update(prev.len() - 1, prev.last().push(s.last()))
        }
    }
}

pub proof fn lemma_lines_of_len(s: Seq<char>)
    ensures
        lines_of(s).len() >= 1,
    decreases s.len(),
{
    if s.len() > 0 {
        lemma_lines_of_len(s.drop_last());
    }
}

/// What the reader has gathered so far: labels in first-appearance order
/// (a label's id is its position), the last type given to each label, and
/// one record `(x, y, h, m)` per edge line with `m > 0`, its endpoints'
/// ids ordered `x <= y`.
pub struct G3State {
    pub labels: Seq<Seq<char>>,
    pub vtypes: Seq<Option<VColor>>,
    pub recs: Seq<(nat, nat, bool, nat)>,
}

pub open spec fn empty_state() -> G3State {
    G3State { labels: Seq::empty(), vtypes: Seq::empty(), recs: Seq::empty() }
}

/// The first position `>= i` of `l` in `labels` (`labels.len()` if none).
pub open spec fn label_id(labels: Seq<Seq<char>>, l: Seq<char>, i: nat) -> nat
    decreases labels.len() - i,
{
    if i >= labels.len() {
        labels.len()
    } else if labels[i as int] == l {
        i
    } else {
        label_id(labels, l, i + 1)
    }
}

/// Make `l` known, giving it the next id when it is new.
pub open spec fn register(st: G3State, l: Seq<char>) -> G3State {
    if label_id(st.labels, l, 0) < st.labels.len() {
        st
    } else {
        G3State { labels: st.labels.push(l), vtypes: st.vtypes.push(None), recs: st.recs }
    }
}

/// The id of `l` (once registered).
pub open spec fn id_of(st: G3State, l: Seq<char>) -> nat {
    label_id(st.labels, l, 0)
}

/// Total multiplicity recorded for the id pair `(x, y)` in `recs[0..k]`.
pub open spec fn pair_total(recs: Seq<(nat, nat, bool, nat)>, x: nat, y: nat, k: int) -> nat
    decreases k,
{
    if k <= 0 {
        0
    } else {
        let r = recs[k - 1];
        pair_total(recs, x, y, k - 1) + if r.0 == x && r.1 == y {
            r.3
        } else {
            0
        }
    }
}

/// Total multiplicity of `recs[0..k]`.
pub open spec fn total_mult(recs: Seq<(nat, nat, bool, nat)>, k: int) -> nat
    decreases k,
{
    if k <= 0 {
        0
    } else {
        total_mult(recs, k - 1) + recs[k - 1].3
    }
}

pub open spec fn order_ids(a: nat, b: nat) -> (nat, nat) {
    if a <= b {
        (a, b)
    } else {
        (b, a)
    }
}

/// The effect of one line: the new state, or the error detail.
pub open spec fn apply_line(st: G3State, l: G3Line) -> Result<G3State, Seq<char>> {
    match l {
        G3Line::Blank => Ok(st),
        G3Line::Bad { detail } => Err(detail),
        G3Line::Vertex { label, ty } => {
            let st1 = register(st, label);
            match ty {
                None => Ok(st1),
                Some(c) => Ok(
                    G3State {
                        labels: st1.labels,
                        vtypes: st1.vtypes.update(id_of(st1, label) as int, Some(c)),
                        recs: st1.recs,
                    },
                ),
            }
        },
        G3Line::Edge { a, b, m, h } => {
            let st1 = register(register(st, a), b);
            if m == 0 {
                Ok(st1)
            } else {
                let key = order_ids(id_of(st1, a), id_of(st1, b));
                if pair_total(st1.recs, key.0, key.1, st1.recs.len() as int) + m > 10000 {
                    Err(pair_detail())
                } else {
                    Ok(G3State { labels: st1.labels, vtypes: st1.vtypes, recs: st1.recs.push((key.0, key.1, h, m)) })
                }
            }
        },
    }
}

/// The state after lines `0..k`, or the first error (with its line number).
pub open spec fn run_lines(lines: Seq<Seq<char>>, k: int) -> Result<G3State, Seq<char>>
    decreases k,
{
    if k <= 0 {
        Ok(empty_state())
    } else {
        match run_lines(lines, k - 1) {
            Err(e) => Err(e),
            Ok(st) => match apply_line(st, parse_line(lines[k - 1])) {
                Ok(st2) => Ok(st2),
                Err(d) => Err(line_err(k as nat, d)),
            },
        }
    }
}

/// The reading of a whole file: its final state, or the error message.
pub open spec fn graph3_parse(input: Seq<char>) -> Result<G3State, Seq<char>> {
    run_lines(lines_of(input), lines_of(input).len() as int)
}

/// A file whose graph fits petgraph's `u32` indices (the reader panics on
/// larger ones) and whose vertex count squared fits a `usize`.
pub open spec fn graph3_fits(input: Seq<char>) -> bool {
    match graph3_parse(input) {
        Ok(st) => state_fits(st),
        Err(_) => true,
    }
}

/// The parsed graph fits petgraph's `u32` indices, and its vertex count
/// squared fits a `usize`.
pub open spec fn state_fits(st: G3State) -> bool {
    st.labels.len() < index_limit() && st.labels.len() * st.labels.len() <= usize::MAX && total_mult(
        st.recs,
        st.recs.len() as int,
    ) + 1 < index_limit()
}

/// Strict lexicographic order on equal-length strings.
pub open spec fn lex_lt(a: Seq<char>, b: Seq<char>) -> bool {
    exists|d: int|
        0 <= d < a.len() && d < b.len() && #[trigger] a.take(d) == b.take(d) && a[d] < b[d]
}

/// Numeric order of canonical hex labels: fewer digits first, then
/// lexicographic.
pub open spec fn label_lt(a: Seq<char>, b: Seq<char>) -> bool {
    a.len() < b.len() || (a.len() == b.len() && lex_lt(a, b))
}

pub proof fn lemma_lex_asym(a: Seq<char>, b: Seq<char>)
    requires
        lex_lt(a, b),
    ensures
        a != b,
        !lex_lt(b, a),
{
    let d1 = choose|d: int|
        0 <= d < a.len() && d < b.len() && #[trigger] a.take(d) == b.take(d) && a[d] < b[d];
    if lex_lt(b, a) {
        let d2 = choose|d: int|
            0 <= d < b.len() && d < a.len() && #[trigger] b.take(d) == a.take(d) && b[d] < a[d];
        if d1 < d2 {
            assert(a.take(d2)[d1] == b.take(d2)[d1]);
        } else if d2 < d1 {
            assert(a.take(d1)[d2] == b.take(d1)[d2]);
        }
    }
}

pub proof fn lemma_lex_trans(a: Seq<char>, b: Seq<char>, c: Seq<char>)
    requires
        lex_lt(a, b),
        lex_lt(b, c),
        a.len() == b.len(),
        b.len() == c.len(),
    ensures
        lex_lt(a, c),
{
    let d1 = choose|d: int|
        0 <= d < a.len() && d < b.len() && #[trigger] a.take(d) == b.take(d) && a[d] < b[d];
    let d2 = choose|d: int|
        0 <= d < b.len() && d < c.len() && #[trigger] b.take(d) == c.take(d) && b[d] < c[d];
    if d1 <= d2 {
        assert(a.take(d1) =~= c.take(d1)) by {
            assert forall|k: int| 0 <= k < d1 implies #[trigger] a.take(d1)[k] == c.take(d1)[k] by {
                assert(a.take(d1)[k] == b.take(d1)[k]);
                assert(b.take(d2)[k] == c.take(d2)[k]);
            }
        }
        if d1 < d2 {
            assert(b.take(d2)[d1] == c.take(d2)[d1]);
        }
        assert(lex_lt(a, c));
    } else {
        assert(a.take(d2) =~= c.take(d2)) by {
            assert forall|k: int| 0 <= k < d2 implies #[trigger] a.take(d2)[k] == c.take(d2)[k] by {
                assert(a.take(d1)[k] == b.take(d1)[k]);
                assert(b.take(d2)[k] == c.take(d2)[k]);
            }
        }
        assert(a.take(d1)[d2] == b.take(d1)[d2]);
        assert(lex_lt(a, c));
    }
}

proof fn lemma_lex_total_from(a: Seq<char>, b: Seq<char>, i: int)
    requires
        a.len() == b.len(),
        a != b,
        0 <= i <= a.len(),
        a.take(i) == b.take(i),
    ensures
        lex_lt(a, b) || lex_lt(b, a),
    decreases a.len() - i,
{
    if i == a.len() {
        assert(a =~= a.take(i));
        assert(b =~= b.take(i));
    } else if a[i] != b[i] {
        assert(b.take(i) == a.take(i));
        if a[i] < b[i] {
            assert(lex_lt(a, b));
        } else {
            assert(b[i] < a[i]);
            assert(lex_lt(b, a));
        }
    } else {
        assert(a.take(i + 1) =~= b.take(i + 1)) by {
            assert forall|k: int| 0 <= k < i + 1 implies #[trigger] a.take(i + 1)[k] == b.take(i + 1)[k] by {
                if k < i {
                    assert(a.take(i)[k] == b.take(i)[k]);
                }
            }
        }
        lemma_lex_total_from(a, b, i + 1);
    }
}

/// `label_lt` is a strict total order.
pub proof fn lemma_label_order(a: Seq<char>, b: Seq<char>, c: Seq<char>)
    ensures
        label_lt(a, b) ==> a != b && !label_lt(b, a),
        a != b ==> label_lt(a, b) || label_lt(b, a),
        label_lt(a, b) && label_lt(b, c) ==> label_lt(a, c),
{
    if label_lt(a, b) && a.len() == b.len() {
        lemma_lex_asym(a, b);
    }
    if a != b && a.len() == b.len() {
        assert(a.take(0) =~= b.take(0));
        lemma_lex_total_from(a, b, 0);
    }
    if label_lt(a, b) && label_lt(b, c) && a.len() == b.len() && b.len() == c.len() {
        lemma_lex_trans(a, b, c);
    }
}

/// Numeric order of two canonical labels.
fn label_less(a: &Vec<char>, b: &Vec<char>) -> (r: bool)
    ensures
        r == label_lt(a@, b@),
{
    if a.len() != b.len() {
        return a.len() < b.len();
    }
    let mut i: usize = 0;
    while i < a.len()
        invariant
            a.len() == b.len(),
            i <= a.len(),
            a@.take(i as int) == b@.take(i as int),
        decreases a.len() - i,
    {
        if a[i] != b[i] {
            let lt = a[i] < b[i];
            proof {
                if lt {
                    assert(lex_lt(a@, b@));
                } else {
                    assert(b@.take(i as int) == a@.take(i as int));
                    assert(lex_lt(b@, a@));
                    lemma_lex_asym(b@, a@);
                }
            }
            return lt;
        }
        proof {
            assert(a@.take(i + 1) =~= b@.take(i + 1)) by {
                assert forall|k: int| 0 <= k < i + 1 implies #[trigger] a@.take(i + 1)[k] == b@.take(i + 1)[k] by {
                    if k < i {
                        assert(a@.take(i as int)[k] == b@.take(i as int)[k]);
                    }
                }
            }
        }
        i += 1;
    }
    proof {
        assert(a@ =~= a@.take(i as int));
        assert(b@ =~= b@.take(i as int));
        if lex_lt(a@, b@) {
            lemma_lex_asym(a@, b@);
        }
    }
    false
}

// ---------------------------------------------------------------------
// Facts about the reading.

pub proof fn lemma_label_id(labels: Seq<Seq<char>>, l: Seq<char>, i: nat)
    requires
        i <= labels.len(),
    ensures
        i <= label_id(labels, l, i) <= labels.len(),
        label_id(labels, l, i) < labels.len() ==> labels[label_id(labels, l, i) as int] == l,
        forall|k: int| i <= k < label_id(labels, l, i) ==> labels[k] != l,
    decreases labels.len() - i,
{
    if i < labels.len() && labels[i as int] != l {
        lemma_label_id(labels, l, i + 1);
    }
}

/// The id of a label is its first position.
pub proof fn lemma_label_id_at(labels: Seq<Seq<char>>, l: Seq<char>, idx: nat)
    requires
        idx <= labels.len(),
        idx < labels.len() ==> labels[idx as int] == l,
        forall|k: int| 0 <= k < idx ==> labels[k] != l,
    ensures
        label_id(labels, l, 0) == idx,
{
    lemma_label_id(labels, l, 0);
    let r = label_id(labels, l, 0);
    if r < idx {
        assert(labels[r as int] == l);
    } else if r > idx {
        assert(labels[idx as int] != l);
    }
}

pub proof fn lemma_pair_total_push(
    recs: Seq<(nat, nat, bool, nat)>,
    r: (nat, nat, bool, nat),
    x: nat,
    y: nat,
    k: int,
)
    requires
        0 <= k <= recs.len(),
    ensures
        pair_total(recs.push(r), x, y, k) == pair_total(recs, x, y, k),
    decreases k,
{
    if k > 0 {
        lemma_pair_total_push(recs, r, x, y, k - 1);
        assert(recs.push(r)[k - 1] == recs[k - 1]);
    }
}

pub proof fn lemma_pair_total_zero(recs: Seq<(nat, nat, bool, nat)>, x: nat, y: nat, k: int)
    requires
        0 <= k <= recs.len(),
        forall|j: int| 0 <= j < k ==> !((#[trigger] recs[j]).0 == x && recs[j].1 == y),
    ensures
        pair_total(recs, x, y, k) == 0,
    decreases k,
{
    if k > 0 {
        lemma_pair_total_zero(recs, x, y, k - 1);
    }
}

pub proof fn lemma_total_mult_push(recs: Seq<(nat, nat, bool, nat)>, r: (nat, nat, bool, nat), k: int)
    requires
        0 <= k <= recs.len(),
    ensures
        total_mult(recs.push(r), k) == total_mult(recs, k),
    decreases k,
{
    if k > 0 {
        lemma_total_mult_push(recs, r, k - 1);
        assert(recs.push(r)[k - 1] == recs[k - 1]);
    }
}

/// Only lines `0..k` matter to `run_lines(_, k)`.
pub proof fn lemma_run_prefix(l1: Seq<Seq<char>>, l2: Seq<Seq<char>>, k: int)
    requires
        0 <= k <= l1.len(),
        k <= l2.len(),
        forall|j: int| 0 <= j < k ==> l1[j] == l2[j],
    ensures
        run_lines(l1, k) == run_lines(l2, k),
    decreases k,
{
    if k > 0 {
        lemma_run_prefix(l1, l2, k - 1);
    }
}

/// An error stays the answer once it has happened.
pub proof fn lemma_run_err(lines: Seq<Seq<char>>, k: int, k2: int)
    requires
        0 <= k <= k2,
        run_lines(lines, k) is Err,
    ensures
        run_lines(lines, k2) == run_lines(lines, k),
    decreases k2 - k,
{
    if k2 > k {
        lemma_run_err(lines, k, k2 - 1);
    }
}

/// The complete lines of a prefix stay lines of the whole text, and the
/// open last line grows.
pub proof fn lemma_lines_prefix(s: Seq<char>, i: int, j: int)
    requires
        0 <= i <= j <= s.len(),
    ensures
        lines_of(s.take(i)).len() <= lines_of(s.take(j)).len(),
        forall|k: int|
            0 <= k < lines_of(s.take(i)).len() - 1 ==> #[trigger] lines_of(s.take(j))[k] == lines_of(
                s.take(i),
            )[k],
        lines_of(s.take(i)).len() == lines_of(s.take(j)).len() ==> lines_of(s.take(i)).last()
            .is_prefix_of(lines_of(s.take(j)).last()),
        lines_of(s.take(i)).len() < lines_of(s.take(j)).len() ==> lines_of(s.take(j))[lines_of(
            s.take(i),
        ).len() - 1] == lines_of(s.take(i)).last() || lines_of(s.take(i)).last().is_prefix_of(
            lines_of(s.take(j))[lines_of(s.take(i)).len() - 1],
        ),
    decreases j - i,
{
    lemma_lines_of_len(s.take(i));
    lemma_lines_of_len(s.take(j));
    if j > i {
        lemma_lines_prefix(s, i, j - 1);
        lemma_lines_of_len(s.take(j - 1));
        assert(s.take(j).drop_last() =~= s.take(j - 1));
        let a = lines_of(s.take(i));
        let b = lines_of(s.take(j - 1));
        let c = lines_of(s.take(j));
        if s[j - 1] == '\n' {
            assert(c == b.push(Seq::<char>::empty()));
        } else {
            assert(c == b.update(b.len() - 1, b.last().push(s[j - 1])));
            if a.len() == b.len() {
                assert(a.last().is_prefix_of(c.last())) by {
                    assert(a.last().is_prefix_of(b.last()));
                    assert forall|k: int| 0 <= k < a.last().len() implies a.last()[k] == c.last()[k] by {
                        assert(a.last()[k] == b.last()[k]);
                    }
                }
            } else if a.len() < b.len() {
                if a.len() - 1 == b.len() - 1 {
                } else {
                    assert(c[a.len() - 1] == b[a.len() - 1]);
                }
            }
        }
    }
}

// ---------------------------------------------------------------------
// The reader.

/// What the reader has gathered, with the running total of each id pair.
struct Reader {
    labels: Vec<Vec<char>>,
    vtypes: Vec<Option<VColor>>,
    recs: Vec<(usize, usize, bool, u32)>,
    totals: Vec<(usize, usize, u32)>,
}

/// Some entry of `totals` is keyed by the pair `(x, y)`.
pub open spec fn total_listed(totals: Seq<(usize, usize, u32)>, x: usize, y: usize) -> bool {
    exists|j: int| 0 <= j < totals.len() && (#[trigger] totals[j]).0 == x && totals[j].1 == y
}

pub open spec fn rec_view(r: (usize, usize, bool, u32)) -> (nat, nat, bool, nat) {
    (r.0 as nat, r.1 as nat, r.2, r.3 as nat)
}

/// A well-formed state: distinct labels, one type slot per label, records
/// over known ids with `x <= y` and `m > 0`, every pair within the ceiling.
pub open spec fn state_wf(st: G3State) -> bool {
    &&& st.vtypes.len() == st.labels.len()
    &&& forall|i: int, j: int| 0 <= i < j < st.labels.len() ==> st.labels[i] != st.labels[j]
    &&& forall|k: int|
        0 <= k < st.recs.len() ==> (#[trigger] st.recs[k]).0 <= st.recs[k].1 < st.labels.len() && st.recs[k].3
            > 0
    &&& forall|x: nat, y: nat| #[trigger] pair_total(st.recs, x, y, st.recs.len() as int) <= 10000
}

impl Reader {
    spec fn state(&self) -> G3State {
        G3State {
            labels: self.labels@.map_values(|l: Vec<char>| l@),
            vtypes: self.vtypes@,
            recs: self.recs@.map_values(|r: (usize, usize, bool, u32)| rec_view(r)),
        }
    }

    spec fn inv(&self) -> bool {
        &&& state_wf(self.state())
        &&& forall|j: int|
            0 <= j < self.totals.len() ==> (#[trigger] self.totals[j]).2 == pair_total(
                self.state().recs,
                self.totals[j].0 as nat,
                self.totals[j].1 as nat,
                self.recs.len() as int,
            )
        &&& forall|k: int|
            0 <= k < self.recs.len() ==> total_listed(self.totals@, (#[trigger] self.recs[k]).0, self.recs[k].1)
        &&& forall|a: int, b: int|
            0 <= a < b < self.totals.len() ==> !(self.totals[a].0 == self.totals[b].0 && self.totals[a].1
                == self.totals[b].1)
    }

    fn new() -> (r: Self)
        ensures
            r.inv(),
            r.state() == empty_state(),
    {
        let r = Reader { labels: Vec::new(), vtypes: Vec::new(), recs: Vec::new(), totals: Vec::new() };
        proof {
            assert(r.state().labels =~= Seq::<Seq<char>>::empty());
            assert(r.state().recs =~= Seq::<(nat, nat, bool, nat)>::empty());
            assert forall|x: nat, y: nat| #[trigger] pair_total(r.state().recs, x, y, 0) <= 10000 by {}
        }
        r
    }

    /// Intern a canonical label, returning its id (first-appearance order).
    fn register_label(&mut self, label: Vec<char>) -> (r: usize)
        requires
            old(self).inv(),
        ensures
            final(self).inv(),
            final(self).state() == register(old(self).state(), label@),
            r as nat == id_of(final(self).state(), label@),
            r < final(self).labels.len(),
            final(self).totals == old(self).totals,
    {
        let ghost st = self.state();
        let mut i: usize = 0;
        while i < self.labels.len()
            invariant
                st == self.state(),
                self.inv(),
                i <= self.labels.len(),
                forall|k: int| 0 <= k < i ==> st.labels[k] != label@,
                self.labels@.map_values(|l: Vec<char>| l@) == st.labels,
            decreases self.labels.len() - i,
        {
            if crate::io::scan::chars_eq(&self.labels[i], &label) {
                proof {
                    assert(st.labels[i as int] == label@);
                    lemma_label_id_at(st.labels, label@, i as nat);
                }
                return i;
            }
            assert(st.labels[i as int] != label@);
            i += 1;
        }
        proof {
            lemma_label_id_at(st.labels, label@, st.labels.len());
        }
        let idx = self.labels.len();
        self.labels.push(label);
        self.vtypes.push(None);
        proof {
            let st2 = self.state();
            assert(st2.labels =~= st.labels.push(label@));
            assert(st2.recs =~= st.recs);
            assert(st2.vtypes =~= st.vtypes.push(None));
            assert(state_wf(st2));
            assert(self.recs@ == old(self).recs@);
            assert(self.totals@ == old(self).totals@);
            assert(st2.recs == st.recs);
            assert forall|j: int| 0 <= j < self.totals.len() implies (#[trigger] self.totals[j]).2 == pair_total(
                self.state().recs,
                self.totals[j].0 as nat,
                self.totals[j].1 as nat,
                self.recs.len() as int,
            ) by {
                assert(self.totals[j] == old(self).totals[j]);
            }
            lemma_label_id_at(st2.labels, label@, idx as nat);
            assert forall|i: int, j: int| 0 <= i < j < st2.labels.len() implies st2.labels[i] != st2.labels[j] by {
                if j == idx {
                    assert(st.labels[i] != label@);
                }
            }
        }
        idx
    }

    /// The index in `totals` of the pair `(x, y)`, if any.
    fn find_total(&self, x: usize, y: usize) -> (r: Option<usize>)
        ensures
            match r {
                Some(j) => j < self.totals.len() && self.totals[j as int].0 == x && self.totals[j as int].1 == y,
                None => forall|j: int|
                    0 <= j < self.totals.len() ==> !((#[trigger] self.totals[j]).0 == x && self.totals[j].1 == y),
            },
    {
        let mut j: usize = 0;
        while j < self.totals.len()
            invariant
                j <= self.totals.len(),
                forall|k: int| 0 <= k < j ==> !((#[trigger] self.totals[k]).0 == x && self.totals[k].1 == y),
            decreases self.totals.len() - j,
        {
            if self.totals[j].0 == x && self.totals[j].1 == y {
                return Some(j);
            }
            j += 1;
        }
        None
    }

    /// Apply one line: the effect of [`apply_line`].
    fn apply(&mut self, line: Line) -> (r: Result<(), Vec<char>>)
        requires
            old(self).inv(),
        ensures
            match r {
                Ok(()) => final(self).inv() && apply_line(old(self).state(), line.view_line()) == Ok::<
                    G3State,
                    Seq<char>,
                >(final(self).state()),
                Err(d) => apply_line(old(self).state(), line.view_line()) == Err::<G3State, Seq<char>>(d@),
            },
    {
        match line {
            Line::Blank => Ok(()),
            Line::Bad(d) => Err(d),
            Line::Vertex(label, ty) => {
                let ghost l = label@;
                let ia = self.register_label(label);
                match ty {
                    None => Ok(()),
                    Some(c) => {
                        let ghost st1 = self.state();
                        self.vtypes.set(ia, Some(c));
                        proof {
                            assert(self.state().labels == st1.labels);
                            assert(self.state().recs == st1.recs);
                        }
                        Ok(())
                    },
                }
            },
            Line::Edge(a, b, m, h) => {
                let ghost la = a@;
                let ghost st0 = self.state();
                let ia = self.register_label(a);
                let ghost sta = self.state();
                let ib = self.register_label(b);
                let ghost st1 = self.state();
                proof {
                    lemma_label_id(sta.labels, la, 0);
                    assert(st1.labels[ia as int] == sta.labels[ia as int]);
                    assert forall|k: int| 0 <= k < ia implies st1.labels[k] != la by {
                        assert(st1.labels[k] == sta.labels[k]);
                    }
                    lemma_label_id_at(st1.labels, la, ia as nat);
                }
                if m == 0 {
                    return Ok(());
                }
                let (x, y) = if ia <= ib {
                    (ia, ib)
                } else {
                    (ib, ia)
                };
                let ghost old_totals = self.totals@;
                let ghost old_recs = self.recs@;
                match self.find_total(x, y) {
                    Some(j) => {
                        let t = self.totals[j].2;
                        if (t as u64) + (m as u64) > 10000 {
                            return Err(str_to_chars("pair edges exceed 10000"));
                        }
                        self.totals.set(j, (x, y, t + m));
                        self.recs.push((x, y, h, m));
                        proof {
                            self.lemma_after_push(st1, old_totals, old_recs, (x, y, h, m), j as int);
                        }
                    },
                    None => {
                        proof {
                            assert forall|k: int| 0 <= k < st1.recs.len() implies !((#[trigger] st1.recs[k]).0 == x
                                && st1.recs[k].1 == y) by {
                                assert(self.recs[k].0 == st1.recs[k].0 && self.recs[k].1 == st1.recs[k].1);
                                assert(total_listed(self.totals@, self.recs[k].0, self.recs[k].1));
                            }
                            lemma_pair_total_zero(st1.recs, x as nat, y as nat, st1.recs.len() as int);
                        }
                        if m > 10000 {
                            return Err(str_to_chars("pair edges exceed 10000"));
                        }
                        self.totals.push((x, y, m));
                        self.recs.push((x, y, h, m));
                        proof {
                            self.lemma_after_push(st1, old_totals, old_recs, (x, y, h, m), old_totals.len() as int);
                        }
                    },
                }
                Ok(())
            },
        }
    }

    /// After recording `rv` (and raising or adding its pair's total at
    /// `j`), the invariant still holds.
    proof fn lemma_after_push(
        &self,
        st1: G3State,
        old_totals: Seq<(usize, usize, u32)>,
        old_recs: Seq<(usize, usize, bool, u32)>,
        rec: (usize, usize, bool, u32),
        j: int,
    )
        requires
            state_wf(st1),
            st1.recs == old_recs.map_values(|r: (usize, usize, bool, u32)| rec_view(r)),
            self.labels@.map_values(|l: Vec<char>| l@) == st1.labels,
            self.vtypes@ == st1.vtypes,
            self.recs@ == old_recs.push(rec),
            rec_view(rec).0 <= rec_view(rec).1 < st1.labels.len(),
            0 < rec_view(rec).3,
            rec_view(rec).3 <= u32::MAX,
            pair_total(st1.recs, rec_view(rec).0, rec_view(rec).1, st1.recs.len() as int) + rec_view(rec).3 <= 10000,
            forall|a: int, b: int|
                0 <= a < b < old_totals.len() ==> !(old_totals[a].0 == old_totals[b].0 && old_totals[a].1
                    == old_totals[b].1),
            forall|q: int|
                0 <= q < old_totals.len() ==> (#[trigger] old_totals[q]).2 == pair_total(
                    st1.recs,
                    old_totals[q].0 as nat,
                    old_totals[q].1 as nat,
                    st1.recs.len() as int,
                ),
            forall|k: int|
                0 <= k < old_recs.len() ==> total_listed(old_totals, (#[trigger] old_recs[k]).0, old_recs[k].1),
            0 <= j <= old_totals.len(),
            j < old_totals.len() ==> old_totals[j].0 == rec_view(rec).0 && old_totals[j].1 == rec_view(rec).1 && self.totals@
                == old_totals.update(j, (rec.0, rec.1, (old_totals[j].2 + rec.3) as u32)),
            j == old_totals.len() ==> self.totals@ == old_totals.push((rec.0, rec.1, rec.3))
                && pair_total(st1.recs, rec_view(rec).0, rec_view(rec).1, st1.recs.len() as int) == 0
                && forall|q: int| 0 <= q < old_totals.len() ==> !(old_totals[q].0 == rec_view(rec).0 && old_totals[q].1 == rec_view(rec).1),
        ensures
            self.inv(),
            self.state() == (G3State { labels: st1.labels, vtypes: st1.vtypes, recs: st1.recs.push(rec_view(rec)) }),
    {
        let rv = rec_view(rec);
        let st2 = self.state();
        assert(st2.recs =~= st1.recs.push(rv));
        let n1 = st1.recs.len() as int;
        assert forall|x: nat, y: nat| pair_total(st2.recs, x, y, n1 + 1) == pair_total(st1.recs, x, y, n1) + if x
            == rv.0 && y == rv.1 {
            rv.3
        } else {
            0
        } by {
            lemma_pair_total_push(st1.recs, rv, x, y, n1);
        }
        assert forall|x: nat, y: nat| #[trigger] pair_total(st2.recs, x, y, st2.recs.len() as int) <= 10000 by {
            assert(pair_total(st1.recs, x, y, n1) <= 10000);
        }
        assert forall|k: int| 0 <= k < st2.recs.len() implies (#[trigger] st2.recs[k]).0 <= st2.recs[k].1
            < st2.labels.len() && st2.recs[k].3 > 0 by {
            if k < n1 {
                assert(st2.recs[k] == st1.recs[k]);
            }
        }
        assert forall|q: int| 0 <= q < self.totals.len() implies (#[trigger] self.totals[q]).2 == pair_total(
            st2.recs,
            self.totals[q].0 as nat,
            self.totals[q].1 as nat,
            self.recs.len() as int,
        ) by {
            if q != j {
                assert(self.totals[q] == old_totals[q]);
                if j < old_totals.len() {
                    assert(!(old_totals[q].0 == old_totals[j].0 && old_totals[q].1 == old_totals[j].1));
                }
            }
        }
        assert forall|a: int, b: int| 0 <= a < b < self.totals.len() implies !(self.totals[a].0
            == self.totals[b].0 && self.totals[a].1 == self.totals[b].1) by {
            if b == old_totals.len() {
                assert(self.totals[a] == old_totals[a]);
            } else {
                assert(self.totals[a].0 == old_totals[a].0 && self.totals[a].1 == old_totals[a].1);
                assert(self.totals[b].0 == old_totals[b].0 && self.totals[b].1 == old_totals[b].1);
            }
        }
        assert forall|k: int| 0 <= k < self.recs.len() implies total_listed(
            self.totals@,
            (#[trigger] self.recs[k]).0,
            self.recs[k].1,
        ) by {
            if k < old_recs.len() {
                assert(self.recs[k] == old_recs[k]);
                assert(total_listed(old_totals, old_recs[k].0, old_recs[k].1));
                let q = choose|q: int|
                    0 <= q < old_totals.len() && (#[trigger] old_totals[q]).0 == old_recs[k].0 && old_totals[q].1
                        == old_recs[k].1;
                assert(self.totals[q].0 == old_totals[q].0 && self.totals[q].1 == old_totals[q].1);
            } else {
                assert(self.totals[j].0 == self.recs[k].0 && self.totals[j].1 == self.recs[k].1);
            }
        }
    }
}

/// `"graph3 line {line}: {detail}"`.
fn line_error(line: usize, detail: &Vec<char>) -> (r: Vec<char>)
    ensures
        r@ == line_err(line as nat, detail@),
{
    let mut out: Vec<char> = Vec::new();
    push_str(&mut out, "graph3 line ");
    push_dec(&mut out, line as u64);
    push_str(&mut out, ": ");
    append_chars(&mut out, detail);
    proof {
        assert(out@ =~= line_err(line as nat, detail@));
    }
    out
}

/// Read every line: the reader's final state, or the first error.
fn read_all(chars: &Vec<char>) -> (r: Result<Reader, Vec<char>>)
    requires
        chars.len() < usize::MAX,
    ensures
        match r {
            Ok(rd) => rd.inv() && graph3_parse(chars@) == Ok::<G3State, Seq<char>>(rd.state()),
            Err(e) => graph3_parse(chars@) == Err::<G3State, Seq<char>>(e@),
        },
{
    let mut rd = Reader::new();
    let mut cur: Vec<char> = Vec::new();
    let mut line_no: usize = 1;
    let ghost mut done: Seq<Seq<char>> = Seq::empty();
    let mut i: usize = 0;
    proof {
        assert(chars@.take(0) =~= Seq::<char>::empty());
        assert(lines_of(chars@.take(0)) =~= done.push(cur@));
    }
    while i < chars.len()
        invariant
            i <= chars.len(),
            chars.len() < usize::MAX,
            lines_of(chars@.take(i as int)) == done.push(cur@),
            line_no == done.len() + 1,
            line_no <= i + 1,
            rd.inv(),
            run_lines(done, done.len() as int) == Ok::<G3State, Seq<char>>(rd.state()),
        decreases chars.len() - i,
    {
        let c = chars[i];
        proof {
            assert(chars@.take(i + 1).drop_last() =~= chars@.take(i as int));
        }
        if c == '\n' {
            let line = read_line(&cur);
            let ghost st = rd.state();
            let ghost cl = cur@;
            match rd.apply(line) {
                Ok(()) => {},
                Err(d) => {
                    let msg = line_error(line_no, &d);
                    proof {
                        let p1 = done.push(cl);
                        let lp = lines_of(chars@.take(i + 1));
                        assert(lp == p1.push(Seq::<char>::empty()));
                        lemma_lines_prefix(chars@, i + 1, chars.len() as int);
                        assert(chars@.take(chars.len() as int) =~= chars@);
                        let ll = lines_of(chars@);
                        assert forall|j: int| 0 <= j < p1.len() implies p1[j] == ll[j] by {
                            assert(lp[j] == p1[j]);
                        }
                        lemma_run_prefix(done, p1, done.len() as int);
                        lemma_run_prefix(p1, ll, p1.len() as int);
                        lemma_run_err(ll, p1.len() as int, ll.len() as int);
                    }
                    return Err(msg);
                },
            }
            proof {
                let p1 = done.push(cl);
                lemma_run_prefix(done, p1, done.len() as int);
                done = p1;
            }
            cur = Vec::new();
            line_no += 1;
            proof {
                assert(lines_of(chars@.take(i + 1)) =~= done.push(cur@));
            }
        } else {
            cur.push(c);
            proof {
                assert(lines_of(chars@.take(i + 1)) =~= done.push(cur@));
            }
        }
        i += 1;
    }
    let line = read_line(&cur);
    let ghost cl = cur@;
    proof {
        assert(chars@.take(chars.len() as int) =~= chars@);
        lemma_run_prefix(done, done.push(cl), done.len() as int);
    }
    match rd.apply(line) {
        Ok(()) => Ok(rd),
        Err(d) => Err(line_error(line_no, &d)),
    }
}

// ---------------------------------------------------------------------
// Building the graph.

/// `order` lists the ids `0..n` by ascending label; `rank` is its inverse.
pub open spec fn is_label_order(labels: Seq<Seq<char>>, order: Seq<nat>, rank: Seq<nat>) -> bool {
    let n = labels.len();
    &&& order.len() == n
    &&& rank.len() == n
    &&& forall|k: int| 0 <= k < n ==> #[trigger] order[k] < n && rank[order[k] as int] == k
    &&& forall|i: int| 0 <= i < n ==> #[trigger] rank[i] < n && order[rank[i] as int] == i
    &&& forall|k1: int, k2: int|
        0 <= k1 < k2 < n ==> label_lt(labels[#[trigger] order[k1] as int], labels[#[trigger] order[k2] as int])
}

/// Order of edge groups: by first endpoint, then second, `NC` before `H`.
pub open spec fn grp_lt(x: (nat, nat, bool, nat), y: (nat, nat, bool, nat)) -> bool {
    x.0 < y.0 || (x.0 == y.0 && (x.1 < y.1 || (x.1 == y.1 && !x.2 && y.2)))
}

pub open spec fn same_key(x: (nat, nat, bool, nat), a: nat, b: nat, h: bool) -> bool {
    x.0 == a && x.1 == b && x.2 == h
}

/// Multiplicity of the records `recs[0..k]` that land on `(a, b)` with
/// color `h` once ids are renumbered by `rank`.
pub open spec fn grp_sum(recs: Seq<(nat, nat, bool, nat)>, rank: Seq<nat>, a: nat, b: nat, h: bool, k: int) -> nat
    decreases k,
{
    if k <= 0 {
        0
    } else {
        let r = recs[k - 1];
        grp_sum(recs, rank, a, b, h, k - 1) + if rank[r.0 as int] == a && rank[r.1 as int] == b && r.2 == h {
            r.3
        } else {
            0
        }
    }
}

/// Some group of `gs` has the key `(a, b, h)`.
pub open spec fn grp_listed(gs: Seq<(nat, nat, bool, nat)>, a: nat, b: nat, h: bool) -> bool {
    exists|i: int| 0 <= i < gs.len() && same_key(#[trigger] gs[i], a, b, h)
}

/// `gs` is the sorted list of the renumbered records of `recs[0..k]`,
/// grouped by key and summed.
pub open spec fn is_grouping(recs: Seq<(nat, nat, bool, nat)>, rank: Seq<nat>, gs: Seq<(nat, nat, bool, nat)>, k: int) -> bool {
    &&& forall|i: int, j: int| 0 <= i < j < gs.len() ==> grp_lt(#[trigger] gs[i], #[trigger] gs[j])
    &&& forall|i: int|
        0 <= i < gs.len() ==> (#[trigger] gs[i]).3 > 0 && gs[i].3 == grp_sum(recs, rank, gs[i].0, gs[i].1, gs[i].2, k)
    &&& forall|q: int|
        0 <= q < k ==> grp_listed(
            gs,
            rank[(#[trigger] recs[q]).0 as int],
            rank[recs[q].1 as int],
            recs[q].2,
        )
}

pub open spec fn edge_color_of(h: bool) -> EColor {
    if h {
        EColor::H
    } else {
        EColor::NC
    }
}

/// Each group written out as its parallel edges, group after group.
pub open spec fn expand(gs: Seq<(nat, nat, bool, nat)>) -> Seq<(usize, usize, EColor)>
    decreases gs.len(),
{
    if gs.len() == 0 {
        Seq::empty()
    } else {
        let g = gs.last();
        expand(gs.drop_last()) + Seq::new(g.3, |t: int| (g.0 as usize, g.1 as usize, edge_color_of(g.2)))
    }
}

pub open spec fn color_or_nc(t: Option<VColor>) -> VColor {
    match t {
        Some(c) => c,
        None => VColor::NC,
    }
}

/// The graph a reading denotes: vertex `k` is the `k`-th label in numeric
/// order with its last declared type (`NC` if none), all alive; the edges
/// are the groups of the renumbered records, sorted, each written out as
/// its parallel edges.
pub open spec fn state_graph(st: G3State, m: crate::graph::GraphModel) -> bool {
    exists|order: Seq<nat>, rank: Seq<nat>|
        #[trigger] is_label_order(st.labels, order, rank) && m.nodes == Seq::new(
            st.labels.len(),
            |k: int| color_or_nc(st.vtypes[order[k] as int]),
        ) && m.alive == Seq::new(st.labels.len(), |k: int| true) && exists|gs: Seq<(nat, nat, bool, nat)>|
            #[trigger] is_grouping(st.recs, rank, gs, st.recs.len() as int) && m.edges == expand(gs)
}

/// `x` occurs in `s`.
pub open spec fn occurs(s: Seq<usize>, x: int) -> bool {
    exists|k: int| 0 <= k < s.len() && #[trigger] s[k] as int == x
}

/// The ids `0..n` sorted by ascending label (labels are distinct).
fn label_order(labels: &Vec<Vec<char>>) -> (order: Vec<usize>)
    requires
        forall|i: int, j: int| 0 <= i < j < labels.len() ==> labels[i]@ != labels[j]@,
    ensures
        order.len() == labels.len(),
        forall|k: int| 0 <= k < order.len() ==> #[trigger] order[k] < labels.len(),
        forall|i: int| 0 <= i < labels.len() ==> #[trigger] occurs(order@, i),
        forall|k1: int, k2: int|
            0 <= k1 < k2 < order.len() ==> label_lt(labels[#[trigger] order[k1] as int]@, labels[#[trigger] order[k2] as int]@),
{
    let n = labels.len();
    let mut order: Vec<usize> = Vec::new();
    let mut i: usize = 0;
    while i < n
        invariant
            n == labels.len(),
            forall|a: int, b: int| 0 <= a < b < labels.len() ==> labels[a]@ != labels[b]@,
            i <= n,
            order.len() == i,
            forall|k: int| 0 <= k < order.len() ==> #[trigger] order[k] < i,
            forall|j: int| 0 <= j < i ==> #[trigger] occurs(order@, j),
            forall|k1: int, k2: int|
                0 <= k1 < k2 < order.len() ==> label_lt(labels[#[trigger] order[k1] as int]@, labels[#[trigger] order[k2] as int]@),
        decreases n - i,
    {
        let mut p: usize = 0;
        while p < order.len() && !label_less(&labels[i], &labels[order[p]])
            invariant
                n == labels.len(),
                forall|a: int, b: int| 0 <= a < b < labels.len() ==> labels[a]@ != labels[b]@,
                i < n,
                order.len() == i,
                forall|k: int| 0 <= k < order.len() ==> #[trigger] order[k] < i,
                p <= order.len(),
                forall|q: int| 0 <= q < p ==> label_lt(labels[#[trigger] order[q] as int]@, labels[i as int]@),
            decreases order.len() - p,
        {
            proof {
                let x = labels[i as int]@;
                let y = labels[order[p as int] as int]@;
                assert(order[p as int] < i);
                lemma_label_order(x, y, x);
            }
            p += 1;
        }
        let ghost old_order = order@;
        proof {
            if p < order.len() {
                assert forall|q: int| p <= q < old_order.len() implies label_lt(
                    labels[i as int]@,
                    labels[#[trigger] old_order[q] as int]@,
                ) by {
                    if q > p {
                        lemma_label_order(labels[i as int]@, labels[old_order[p as int] as int]@, labels[old_order[q] as int]@);
                    }
                }
            }
        }
        order.insert(p, i);
        proof {
            old_order.insert_ensures(p as int, i);
            assert forall|k: int| 0 <= k < order.len() implies #[trigger] order[k] < i + 1 by {
                if k < p {
                } else if k > p {
                    assert(order[k] == old_order[k - 1]);
                }
            }
            assert forall|j: int| 0 <= j < i + 1 implies #[trigger] occurs(order@, j) by {
                if j == i {
                    assert(order[p as int] == j);
                } else {
                    assert(occurs(old_order, j));
                    let k0 = choose|k: int| 0 <= k < old_order.len() && #[trigger] old_order[k] as int == j;
                    if k0 < p {
                        assert(order[k0] == j);
                    } else {
                        assert(order[k0 + 1] == j);
                    }
                }
            }
            assert forall|k1: int, k2: int| 0 <= k1 < k2 < order.len() implies label_lt(
                labels[#[trigger] order[k1] as int]@,
                labels[#[trigger] order[k2] as int]@,
            ) by {
                let o1 = if k1 < p { k1 } else if k1 == p { -1 } else { k1 - 1 };
                let o2 = if k2 < p { k2 } else if k2 == p { -1 } else { k2 - 1 };
                if k1 != p && k2 != p {
                    assert(order[k1] == old_order[o1]);
                    assert(order[k2] == old_order[o2]);
                } else if k1 == p {
                    assert(order[k2] == old_order[o2]);
                } else {
                    assert(order[k1] == old_order[o1]);
                }
            }
        }
        i += 1;
    }
    order
}

/// Sum of the multiplicities of `gs[0..k]`.
pub open spec fn gs_total(gs: Seq<(nat, nat, bool, nat)>, k: int) -> nat
    decreases k,
{
    if k <= 0 {
        0
    } else {
        gs_total(gs, k - 1) + gs[k - 1].3
    }
}

proof fn lemma_gs_total_update(gs: Seq<(nat, nat, bool, nat)>, q: int, v: (nat, nat, bool, nat), k: int)
    requires
        0 <= q < gs.len(),
        0 <= k <= gs.len(),
    ensures
        gs_total(gs.update(q, v), k) + (if q < k { gs[q].3 } else { 0 }) == gs_total(gs, k) + (if q < k {
            v.3
        } else {
            0
        }),
    decreases k,
{
    if k > 0 {
        lemma_gs_total_update(gs, q, v, k - 1);
    }
}

proof fn lemma_gs_total_insert(gs: Seq<(nat, nat, bool, nat)>, q: int, v: (nat, nat, bool, nat), k: int)
    requires
        0 <= q <= gs.len(),
        0 <= k <= gs.len() + 1,
    ensures
        gs_total(gs.insert(q, v), k) == if k <= q {
            gs_total(gs, k)
        } else {
            gs_total(gs, k - 1) + v.3
        },
    decreases k,
{
    gs.insert_ensures(q, v);
    if k > 0 {
        lemma_gs_total_insert(gs, q, v, k - 1);
    }
}

proof fn lemma_expand_len(gs: Seq<(nat, nat, bool, nat)>)
    ensures
        expand(gs).len() == gs_total(gs, gs.len() as int),
    decreases gs.len(),
{
    if gs.len() > 0 {
        lemma_expand_len(gs.drop_last());
        lemma_gs_total_prefix(gs.drop_last(), gs, gs.len() - 1);
    }
}

proof fn lemma_gs_total_prefix(a: Seq<(nat, nat, bool, nat)>, b: Seq<(nat, nat, bool, nat)>, k: int)
    requires
        0 <= k <= a.len(),
        k <= b.len(),
        forall|i: int| 0 <= i < k ==> a[i] == b[i],
    ensures
        gs_total(a, k) == gs_total(b, k),
    decreases k,
{
    if k > 0 {
        lemma_gs_total_prefix(a, b, k - 1);
    }
}

proof fn lemma_grp_sum_le(recs: Seq<(nat, nat, bool, nat)>, rank: Seq<nat>, a: nat, b: nat, h: bool, k: int)
    requires
        0 <= k <= recs.len(),
    ensures
        grp_sum(recs, rank, a, b, h, k) <= total_mult(recs, k),
    decreases k,
{
    if k > 0 {
        lemma_grp_sum_le(recs, rank, a, b, h, k - 1);
    }
}

pub open spec fn gs_view(gs: Seq<(usize, usize, bool, u32)>) -> Seq<(nat, nat, bool, nat)> {
    gs.map_values(|g: (usize, usize, bool, u32)| rec_view(g))
}

/// Group the records by renumbered key, sorted.
fn group_recs(recs: &Vec<(usize, usize, bool, u32)>, rank: &Vec<usize>) -> (gs: Vec<(usize, usize, bool, u32)>)
    requires
        forall|k: int|
            0 <= k < recs.len() ==> (#[trigger] recs[k]).0 < rank.len() && recs[k].1 < rank.len() && recs[k].3 > 0,
        total_mult(gs_view(recs@), recs.len() as int) < u32::MAX,
    ensures
        is_grouping(gs_view(recs@), rank@.map_values(|x: usize| x as nat), gs_view(gs@), recs.len() as int),
        gs_total(gs_view(gs@), gs.len() as int) == total_mult(gs_view(recs@), recs.len() as int),
{
    let ghost rv = gs_view(recs@);
    let ghost rk = rank@.map_values(|x: usize| x as nat);
    let mut gs: Vec<(usize, usize, bool, u32)> = Vec::new();
    let mut j: usize = 0;
    proof {
        assert(gs_view(gs@) =~= Seq::<(nat, nat, bool, nat)>::empty());
    }
    while j < recs.len()
        invariant
            rv == gs_view(recs@),
            rk == rank@.map_values(|x: usize| x as nat),
            forall|k: int|
                0 <= k < recs.len() ==> (#[trigger] recs[k]).0 < rank.len() && recs[k].1 < rank.len() && recs[k].3 > 0,
            total_mult(rv, recs.len() as int) < u32::MAX,
            j <= recs.len(),
            is_grouping(rv, rk, gs_view(gs@), j as int),
            gs_total(gs_view(gs@), gs.len() as int) == total_mult(rv, j as int),
        decreases recs.len() - j,
    {
        let r = recs[j];
        let a = rank[r.0];
        let b = rank[r.1];
        let h = r.2;
        let ghost g0 = gs_view(gs@);
        let mut q: usize = 0;
        while q < gs.len() && (gs[q].0 < a || (gs[q].0 == a && (gs[q].1 < b || (gs[q].1 == b && !gs[q].2 && h))))
            invariant
                q <= gs.len(),
                g0 == gs_view(gs@),
                forall|i: int| 0 <= i < q ==> grp_lt(#[trigger] g0[i], (a as nat, b as nat, h, 0)),
            decreases gs.len() - q,
        {
            q += 1;
        }
        proof {
            lemma_total_mult_step(rv, j as int);
            lemma_grp_sum_le(rv, rk, a as nat, b as nat, h, j + 1);
            lemma_total_mult_mono(rv, j + 1, recs.len() as int);
            assert(rv[j as int] == rec_view(r));
            assert(rk[r.0 as int] == a && rk[r.1 as int] == b);
        }
        if q < gs.len() && gs[q].0 == a && gs[q].1 == b && gs[q].2 == h {
            let m = gs[q].3;
            proof {
                assert(g0[q as int].3 == grp_sum(rv, rk, a as nat, b as nat, h, j as int));
            }
            gs.set(q, (a, b, h, m + r.3));
            proof {
                let nv = (a as nat, b as nat, h, (m + r.3) as nat);
                assert(gs_view(gs@) =~= g0.update(q as int, nv));
                lemma_gs_total_update(g0, q as int, nv, g0.len() as int);
                self_lemma_grouping_add(rv, rk, g0, j as int, q as int, false);
            }
        } else {
            proof {
                if q < gs.len() {
                    assert(grp_lt((a as nat, b as nat, h, 0), g0[q as int]));
                }
            }
            gs.insert(q, (a, b, h, r.3));
            proof {
                let nv = (a as nat, b as nat, h, r.3 as nat);
                assert(gs_view(gs@) =~= g0.insert(q as int, nv));
                lemma_gs_total_insert(g0, q as int, nv, g0.len() + 1 as int);
                self_lemma_grouping_add(rv, rk, g0, j as int, q as int, true);
            }
        }
        j += 1;
    }
    gs
}

proof fn lemma_total_mult_mono(recs: Seq<(nat, nat, bool, nat)>, j: int, k: int)
    requires
        0 <= j <= k <= recs.len(),
    ensures
        total_mult(recs, j) <= total_mult(recs, k),
    decreases k - j,
{
    if j < k {
        lemma_total_mult_mono(recs, j, k - 1);
    }
}

proof fn lemma_total_mult_step(recs: Seq<(nat, nat, bool, nat)>, j: int)
    requires
        0 <= j < recs.len(),
    ensures
        total_mult(recs, j + 1) == total_mult(recs, j) + recs[j].3,
{
}

/// Adding record `j` to a grouping of `recs[0..j]`: raising the group at
/// `q` (or inserting a new one there) gives a grouping of `recs[0..j + 1]`.
proof fn self_lemma_grouping_add(
    recs: Seq<(nat, nat, bool, nat)>,
    rank: Seq<nat>,
    g0: Seq<(nat, nat, bool, nat)>,
    j: int,
    q: int,
    fresh: bool,
)
    requires
        0 <= j < recs.len(),
        is_grouping(recs, rank, g0, j),
        0 <= q <= g0.len(),
        recs[j].3 > 0,
        ({
            let key = (rank[recs[j].0 as int], rank[recs[j].1 as int], recs[j].2, 0nat);
            &&& forall|i: int| 0 <= i < q ==> grp_lt(#[trigger] g0[i], key)
            &&& fresh ==> (q < g0.len() ==> grp_lt(key, g0[q]))
            &&& !fresh ==> q < g0.len() && same_key(g0[q], key.0, key.1, key.2)
        }),
    ensures
        ({
            let key = (rank[recs[j].0 as int], rank[recs[j].1 as int], recs[j].2);
            let g1 = if fresh {
                g0.insert(q, (key.0, key.1, key.2, recs[j].3))
            } else {
                g0.update(q, (key.0, key.1, key.2, g0[q].3 + recs[j].3))
            };
            is_grouping(recs, rank, g1, j + 1)
        }),
{
    let r = recs[j];
    let a = rank[r.0 as int];
    let b = rank[r.1 as int];
    let h = r.2;
    let key = (a, b, h, 0nat);
    let nv = if fresh { (a, b, h, r.3) } else { (a, b, h, g0[q].3 + r.3) };
    let g1 = if fresh { g0.insert(q, nv) } else { g0.update(q, nv) };
    if fresh {
        g0.insert_ensures(q, nv);
    }
    // sortedness
    assert forall|i: int, k: int| 0 <= i < k < g1.len() implies grp_lt(#[trigger] g1[i], #[trigger] g1[k]) by {
        if fresh {
            if i < q && k < q {
            } else if i < q && k == q {
                assert(grp_lt(g0[i], key));
            } else if i < q && k > q {
                assert(g1[k] == g0[k - 1]);
            } else if i == q {
                assert(g1[k] == g0[k - 1]);
                if k - 1 > q {
                    assert(grp_lt(g0[q], g0[k - 1]));
                }
            } else {
                assert(g1[i] == g0[i - 1]);
                assert(g1[k] == g0[k - 1]);
            }
        } else {
            if i == q {
                assert(grp_lt(g0[q], g0[k]));
            } else if k == q {
                assert(grp_lt(g0[i], g0[q]));
            }
        }
    }
    // sums
    assert forall|i: int| 0 <= i < g1.len() implies (#[trigger] g1[i]).3 > 0 && g1[i].3 == grp_sum(
        recs,
        rank,
        g1[i].0,
        g1[i].1,
        g1[i].2,
        j + 1,
    ) by {
        let gi = g1[i];
        if gi.0 == a && gi.1 == b && gi.2 == h {
            if fresh {
                if i != q {
                    let o = if i < q { i } else { i - 1 };
                    assert(g1[i] == g0[o]);
                    if o < q {
                        assert(grp_lt(g0[o], key));
                    } else {
                        if q < g0.len() {
                            if o > q {
                                assert(grp_lt(g0[q], g0[o]));
                            }
                            assert(grp_lt(key, g0[q]));
                        }
                    }
                    assert(false);
                } else {
                    // a new key: nothing of recs[0..j] landed on it
                    if grp_sum(recs, rank, a, b, h, j) > 0 {
                        lemma_grp_sum_pos(recs, rank, a, b, h, j);
                        let w = choose|w: int|
                            0 <= w < j && rank[(#[trigger] recs[w]).0 as int] == a && rank[recs[w].1 as int] == b && recs[w].2 == h;
                        assert(grp_listed(g0, rank[recs[w].0 as int], rank[recs[w].1 as int], recs[w].2));
                        let z = choose|z: int| 0 <= z < g0.len() && same_key(#[trigger] g0[z], a, b, h);
                        if z < q {
                            assert(grp_lt(g0[z], key));
                        } else {
                            if z > q {
                                assert(grp_lt(g0[q], g0[z]));
                            }
                            assert(grp_lt(key, g0[q]));
                        }
                        assert(false);
                    }
                }
            } else {
                if i != q {
                    if i < q {
                        assert(grp_lt(g0[i], g0[q]));
                    } else {
                        assert(grp_lt(g0[q], g0[i]));
                    }
                    assert(false);
                }
            }
        } else {
            let o = if fresh && i > q { i - 1 } else { i };
            assert(g1[i] == g0[o]);
        }
    }
    // every record listed
    assert forall|w: int| 0 <= w < j + 1 implies grp_listed(
        g1,
        rank[(#[trigger] recs[w]).0 as int],
        rank[recs[w].1 as int],
        recs[w].2,
    ) by {
        if w == j {
            assert(same_key(g1[q], a, b, h));
        } else {
            assert(grp_listed(g0, rank[recs[w].0 as int], rank[recs[w].1 as int], recs[w].2));
            let z = choose|z: int|
                0 <= z < g0.len() && same_key(#[trigger] g0[z], rank[recs[w].0 as int], rank[recs[w].1 as int], recs[w].2);
            let z1 = if fresh && z >= q { z + 1 } else { z };
            assert(same_key(g1[z1], rank[recs[w].0 as int], rank[recs[w].1 as int], recs[w].2));
        }
    }
}

pub proof fn lemma_grp_sum_pos(recs: Seq<(nat, nat, bool, nat)>, rank: Seq<nat>, a: nat, b: nat, h: bool, k: int)
    requires
        0 <= k <= recs.len(),
        grp_sum(recs, rank, a, b, h, k) > 0,
    ensures
        exists|w: int| 0 <= w < k && rank[(#[trigger] recs[w]).0 as int] == a && rank[recs[w].1 as int] == b && recs[w].2 == h,
    decreases k,
{
    let r = recs[k - 1];
    if rank[r.0 as int] == a && rank[r.1 as int] == b && r.2 == h {
        assert(rank[recs[k - 1].0 as int] == a);
    } else {
        lemma_grp_sum_pos(recs, rank, a, b, h, k - 1);
        let w = choose|w: int| 0 <= w < k - 1 && rank[(#[trigger] recs[w]).0 as int] == a && rank[recs[w].1 as int] == b && recs[w].2 == h;
        assert(rank[recs[w].0 as int] == a);
    }
}

proof fn lemma_gs_total_mono(gs: Seq<(nat, nat, bool, nat)>, j: int, k: int)
    requires
        0 <= j <= k <= gs.len(),
    ensures
        gs_total(gs, j) <= gs_total(gs, k),
    decreases k - j,
{
    if j < k {
        lemma_gs_total_mono(gs, j, k - 1);
    }
}

/// Add `m` parallel edges `{a, b}` of color `c`.
fn add_parallel(g: &mut Graph, a: usize, b: usize, c: EColor, m: u32)
    requires
        old(g).wf(),
        a < old(g)@.nodes.len(),
        b < old(g)@.nodes.len(),
        old(g)@.edges.len() + m + 1 < index_limit(),
    ensures
        final(g).wf(),
        final(g)@.nodes == old(g)@.nodes,
        final(g)@.alive == old(g)@.alive,
        final(g)@.edges == old(g)@.edges + Seq::new(m as nat, |t: int| (a, b, c)),
{
    let mut t: u32 = 0;
    while t < m
        invariant
            g.wf(),
            t <= m,
            a < g@.nodes.len(),
            b < g@.nodes.len(),
            g@.nodes == old(g)@.nodes,
            g@.alive == old(g)@.alive,
            g@.edges == old(g)@.edges + Seq::new(t as nat, |k: int| (a, b, c)),
            old(g)@.edges.len() + m + 1 < index_limit(),
        decreases m - t,
    {
        g.add_edge_c(a, b, c);
        t += 1;
        proof {
            assert(g@.edges =~= old(g)@.edges + Seq::new(t as nat, |k: int| (a, b, c)));
        }
    }
}

/// Parse Graph3 text into a colored multigraph (see the module docs).
/// On error the message carries the 1-based number of the first
/// offending line.
pub fn from_graph3(input: &str) -> (r: Result<Graph, String>)
    requires
        input@.len() < usize::MAX,
        graph3_fits(input@),
    ensures
        match graph3_parse(input@) {
            Ok(st) => r matches Ok(g) && g.wf() && state_graph(st, g@),
            Err(e) => r matches Err(m) && m@ == e,
        },
{
    let chars = str_to_chars(input);
    let rd = match read_all(&chars) {
        Ok(rd) => rd,
        Err(e) => {
            return Err(crate::text::chars_to_string(&e));
        },
    };
    Ok(graph_of_reader(&rd))
}

/// The message of [`from_graph3_checked`] for a graph too large for
/// petgraph's `u32` indices.
pub open spec fn too_large_msg() -> Seq<char> {
    "graph too large"@
}

/// [`from_graph3`] for any input: parses, then, where the parsed graph does
/// not fit petgraph's `u32` indices (or its vertex count squared does not
/// fit a `usize`), answers `Err("graph too large")` in place of building it.
pub fn from_graph3_checked(input: &str) -> (r: Result<Graph, String>)
    requires
        input@.len() < usize::MAX,
    ensures
        match graph3_parse(input@) {
            Ok(st) => if state_fits(st) {
                r matches Ok(g) && g.wf() && state_graph(st, g@)
            } else {
                r matches Err(m) && m@ == too_large_msg()
            },
            Err(e) => r matches Err(m) && m@ == e,
        },
{
    let chars = str_to_chars(input);
    let rd = match read_all(&chars) {
        Ok(rd) => rd,
        Err(e) => {
            return Err(crate::text::chars_to_string(&e));
        },
    };
    if !reader_fits(&rd) {
        let mut v: Vec<char> = Vec::new();
        crate::text::push_str(&mut v, "graph too large");
        proof {
            assert(v@ =~= too_large_msg());
        }
        return Err(crate::text::chars_to_string(&v));
    }
    Ok(graph_of_reader(&rd))
}

/// Whether the parsed graph fits (see [`state_fits`]).
fn reader_fits(rd: &Reader) -> (r: bool)
    requires
        rd.inv(),
    ensures
        r == state_fits(rd.state()),
{
    let ghost st = rd.state();
    let n = rd.labels.len();
    assert(st.labels.len() == n);
    if n >= 0xFFFF_FFFF {
        return false;
    }
    proof {
        assert((n as u128) * (n as u128) <= 0xFFFF_FFFFu128 * 0xFFFF_FFFFu128) by (nonlinear_arith)
            requires
                (n as u128) < 0xFFFF_FFFFu128,
        ;
    }
    let sq = (n as u128) * (n as u128);
    if sq > usize::MAX as u128 {
        return false;
    }
    let mut total: u64 = 0;
    let mut q: usize = 0;
    while q < rd.recs.len()
        invariant
            st == rd.state(),
            q <= rd.recs.len(),
            total == total_mult(st.recs, q as int),
            total + 1 < 0xFFFF_FFFF,
            st.recs.len() == rd.recs.len(),
            n == st.labels.len(),
            n < 0xFFFF_FFFF,
            n * n <= usize::MAX,
        decreases rd.recs.len() - q,
    {
        proof {
            lemma_total_mult_step(st.recs, q as int);
            assert(st.recs[q as int] == rec_view(rd.recs[q as int]));
        }
        total = total + rd.recs[q].3 as u64;
        if total + 1 >= 0xFFFF_FFFF {
            proof {
                lemma_total_mult_mono(st.recs, q + 1, st.recs.len() as int);
            }
            return false;
        }
        q += 1;
    }
    true
}

/// Build the graph of a parsed file: vertices in numeric label order, one
/// edge per multiplicity unit (see [`state_graph`]).
fn graph_of_reader(rd: &Reader) -> (g: Graph)
    requires
        rd.inv(),
        state_fits(rd.state()),
    ensures
        g.wf(),
        state_graph(rd.state(), g@),
{
    let ghost st = rd.state();
    let n = rd.labels.len();
    assert(st.labels.len() == n);
    proof {
        assert forall|a: int, b: int| 0 <= a < b < rd.labels.len() implies rd.labels[a]@ != rd.labels[b]@ by {
            assert(st.labels[a] == rd.labels[a]@);
            assert(st.labels[b] == rd.labels[b]@);
        }
    }
    let order = label_order(&rd.labels);
    let mut rank: Vec<usize> = Vec::new();
    let mut i: usize = 0;
    while i < n
        invariant
            i <= n,
            rank.len() == i,
        decreases n - i,
    {
        rank.push(0);
        i += 1;
    }
    let mut k: usize = 0;
    while k < n
        invariant
            n == order.len(),
            rank.len() == n,
            k <= n,
            forall|t: int| 0 <= t < n ==> #[trigger] order[t] < n,
            forall|k1: int, k2: int|
                0 <= k1 < k2 < n ==> label_lt(rd.labels[#[trigger] order[k1] as int]@, rd.labels[#[trigger] order[k2] as int]@),
            forall|t: int| 0 <= t < k ==> #[trigger] rank[order[t] as int] == t,
        decreases n - k,
    {
        proof {
            assert forall|t: int| 0 <= t < k implies order[t] != order[k as int] by {
                lemma_label_order(rd.labels[order[t] as int]@, rd.labels[order[k as int] as int]@, rd.labels[order[k as int] as int]@);
            }
        }
        rank.set(order[k], k);
        k += 1;
    }
    let ghost ov = order@.map_values(|x: usize| x as nat);
    let ghost rk = rank@.map_values(|x: usize| x as nat);
    proof {
        assert forall|t: int| 0 <= t < n implies #[trigger] ov[t] < n && rk[ov[t] as int] == t by {}
        assert forall|x: int| 0 <= x < n implies #[trigger] rk[x] < n && ov[rk[x] as int] == x by {
            assert(occurs(order@, x));
            let t = choose|t: int| 0 <= t < order.len() && #[trigger] order@[t] as int == x;
            assert(rank[order[t] as int] == t);
        }
        assert forall|k1: int, k2: int| 0 <= k1 < k2 < n implies label_lt(
            st.labels[#[trigger] ov[k1] as int],
            st.labels[#[trigger] ov[k2] as int],
        ) by {
            assert(label_lt(rd.labels[order[k1] as int]@, rd.labels[order[k2] as int]@));
        }
        assert(is_label_order(st.labels, ov, rk));
        assert forall|q: int| 0 <= q < rd.recs.len() implies (#[trigger] rd.recs[q]).0 < rank.len() && rd.recs[q].1
            < rank.len() && rd.recs[q].3 > 0 by {
            assert(st.recs[q] == rec_view(rd.recs[q]));
        }
        assert(gs_view(rd.recs@) == st.recs);
    }
    let gs = group_recs(&rd.recs, &rank);
    let ghost gv = gs_view(gs@);
    let mut g = Graph::new();
    let mut v: usize = 0;
    while v < n
        invariant
            n == st.labels.len(),
            n == order.len(),
            st.vtypes.len() == n,
            rd.vtypes@ == st.vtypes,
            forall|t: int| 0 <= t < n ==> #[trigger] order[t] < n,
            n < index_limit(),
            n * n <= usize::MAX,
            v <= n,
            g.wf(),
            g@.nodes == Seq::new(v as nat, |t: int| color_or_nc(st.vtypes[order@[t] as int])),
            g@.alive == Seq::new(v as nat, |t: int| true),
            g@.edges == Seq::<(usize, usize, EColor)>::empty(),
        decreases n - v,
    {
        let c = match rd.vtypes[order[v]] {
            Some(c) => c,
            None => VColor::NC,
        };
        proof {
            assert((v + 1) * (v + 1) <= n * n) by (nonlinear_arith)
                requires
                    v + 1 <= n,
            ;
        }
        g.add_vertex_with(c);
        v += 1;
        proof {
            assert(g@.nodes =~= Seq::new(v as nat, |t: int| color_or_nc(st.vtypes[order@[t] as int])));
            assert(g@.alive =~= Seq::new(v as nat, |t: int| true));
        }
    }
    let ghost nodes0 = g@.nodes;
    let ghost alive0 = g@.alive;
    proof {
        lemma_expand_len(gv);
        assert(nodes0 =~= Seq::new(st.labels.len(), |t: int| color_or_nc(st.vtypes[ov[t] as int])));
        assert forall|t: int| 0 <= t < gs.len() implies (#[trigger] gs[t]).0 < n && gs[t].1 < n by {
            assert(gv[t].3 > 0);
            lemma_grp_sum_pos(st.recs, rk, gv[t].0, gv[t].1, gv[t].2, st.recs.len() as int);
            let w = choose|w: int|
                0 <= w < st.recs.len() && rk[(#[trigger] st.recs[w]).0 as int] == gv[t].0 && rk[st.recs[w].1 as int]
                    == gv[t].1 && st.recs[w].2 == gv[t].2;
            assert(st.recs[w].0 < n && st.recs[w].1 < n);
            assert(rk[st.recs[w].0 as int] < n);
            assert(rk[st.recs[w].1 as int] < n);
        }
    }
    let mut q: usize = 0;
    while q < gs.len()
        invariant
            gv == gs_view(gs@),
            is_grouping(st.recs, rk, gv, st.recs.len() as int),
            gs_total(gv, gs.len() as int) == total_mult(st.recs, st.recs.len() as int),
            total_mult(st.recs, st.recs.len() as int) + 1 < index_limit(),
            q <= gs.len(),
            g.wf(),
            g@.nodes.len() == n,
            g@.nodes == nodes0,
            g@.alive == alive0,
            forall|t: int| 0 <= t < gs.len() ==> (#[trigger] gs[t]).0 < n && gs[t].1 < n,
            g@.edges == expand(gv.take(q as int)),
        decreases gs.len() - q,
    {
        let (a, b, h, m) = gs[q];
        let c = if h {
            EColor::H
        } else {
            EColor::NC
        };
        proof {
            lemma_expand_len(gv.take(q as int));
            lemma_gs_total_prefix(gv.take(q as int), gv, q as int);
            lemma_gs_total_mono(gv, q + 1, gs.len() as int);
            assert(gv[q as int].3 == m);
        }
        add_parallel(&mut g, a, b, c, m);
        proof {
            assert(gv.take(q + 1).drop_last() =~= gv.take(q as int));
            assert(g@.edges =~= expand(gv.take(q + 1)));
        }
        q += 1;
    }
    proof {
        assert(gv.take(gs.len() as int) =~= gv);
        assert(is_grouping(st.recs, rk, gv, st.recs.len() as int));
        assert(is_label_order(st.labels, ov, rk));
        assert(state_graph(st, g@));
    }
    g
}

// ---------------------------------------------------------------------
// Rendering.

/// The dense label of an alive vertex `v`: the number of alive vertices
/// below it, i.e. its position in the ascending alive list.
pub open spec fn alive_pos(m: GraphModel, v: usize) -> nat {
    count_true(m.alive.take(v as int))
}

/// One record per alive edge: its endpoints' dense labels (smaller first),
/// whether it is Hadamard, multiplicity 1.
pub open spec fn render_recs(m: GraphModel) -> Seq<(nat, nat, bool, nat)> {
    Seq::new(
        m.alive_edge_ids().len(),
        |k: int|
            {
                let e = m.edges[m.alive_edge_ids()[k] as int];
                let p = order_ids(alive_pos(m, e.0), alive_pos(m, e.1));
                (p.0, p.1, e.2 == EColor::H, 1nat)
            },
    )
}

/// `"{a:x} {b:x}[ {m:x}][ : H]\n"` (the multiplicity only when above 1).
pub open spec fn group_line(g: (nat, nat, bool, nat)) -> Seq<char> {
    hex(g.0) + " "@ + hex(g.1) + (if g.3 > 1 {
        " "@ + hex(g.3)
    } else {
        Seq::empty()
    }) + (if g.2 {
        " : H"@
    } else {
        Seq::empty()
    }) + "\n"@
}

pub open spec fn groups_text(gs: Seq<(nat, nat, bool, nat)>) -> Seq<char>
    decreases gs.len(),
{
    if gs.len() == 0 {
        Seq::empty()
    } else {
        groups_text(gs.drop_last()) + group_line(gs.last())
    }
}

/// `"{i:x} : TYPE\n"` for the first `k` alive vertices.
pub open spec fn vertex_text(m: GraphModel, k: int) -> Seq<char>
    decreases k,
{
    if k <= 0 {
        Seq::empty()
    } else {
        vertex_text(m, k - 1) + hex((k - 1) as nat) + " : "@ + type_str(m.nodes[m.alive_list()[k - 1] as int])
            + "\n"@
    }
}

/// `0, 1, .., n - 1`.
pub open spec fn ident_seq(n: nat) -> Seq<nat> {
    Seq::new(n, |i: int| i as nat)
}

/// The Graph3 text of the alive induced subgraph of `m`: a typed line per
/// alive vertex, then the edge groups in order.
pub open spec fn graph3_text(m: GraphModel, text: Seq<char>) -> bool {
    exists|gs: Seq<(nat, nat, bool, nat)>|
        #[trigger] is_grouping(
            render_recs(m),
            ident_seq(m.alive_list().len()),
            gs,
            m.alive_edge_ids().len() as int,
        ) && text == vertex_text(m, m.alive_list().len() as int) + groups_text(gs)
}

/// Render the alive induced subgraph of `g` as Graph3 text.
pub fn to_graph3(g: &Graph) -> (r: String)
    requires
        g.wf(),
    ensures
        graph3_text(g@, r@),
{
    let ghost m = g@;
    proof {
        g.lemma_wf();
    }
    let alive = g.alive_vertices();
    let n = alive.len();
    let nn = g.node_count();
    // dense labels
    let mut remap: Vec<usize> = Vec::new();
    let mut cnt: usize = 0;
    let mut v: usize = 0;
    while v < nn
        invariant
            m == g@,
            g.wf(),
            m.wf(),
            nn == m.nodes.len(),
            m.alive.len() == nn,
            v <= nn,
            remap.len() == v,
            cnt == count_true(m.alive.take(v as int)),
            cnt <= v,
            forall|u: int| 0 <= u < v ==> #[trigger] remap[u] == count_true(m.alive.take(u)),
        decreases nn - v,
    {
        remap.push(cnt);
        proof {
            assert(m.alive.take(v + 1).drop_last() =~= m.alive.take(v as int));
        }
        if g.is_alive(v) {
            cnt += 1;
        }
        v += 1;
    }
    let es = g.edges();
    let mut recs: Vec<(usize, usize, bool, u32)> = Vec::new();
    let mut k: usize = 0;
    proof {
        lemma_count_true_alive(m);
    }
    while k < es.len()
        invariant
            m == g@,
            g.wf(),
            m.wf(),
            alive_edges_of(m, es@),
            remap.len() == m.nodes.len(),
            forall|u: int| 0 <= u < remap.len() ==> #[trigger] remap[u] == count_true(m.alive.take(u)),
            n == m.alive_list().len(),
            k <= es.len(),
            gs_view(recs@) == render_recs(m).take(k as int),
            forall|q: int| 0 <= q < recs.len() ==> (#[trigger] recs[q]).0 < n && recs[q].1 < n && recs[q].3 > 0,
        decreases es.len() - k,
    {
        let (s, t, e) = es[k];
        proof {
            crate::seqs::lemma_idx_filter(
                |i: usize|
                    (i as int) < m.edges.len() && m.is_alive(m.edges[i as int].0) && m.is_alive(m.edges[i as int].1),
                m.edges.len(),
            );
            assert(m.alive_edge_ids()[k as int] < m.edges.len());
            lemma_alive_pos_bound(m, s);
            lemma_alive_pos_bound(m, t);
        }
        let mut a = remap[s];
        let mut b = remap[t];
        if a > b {
            let x = a;
            a = b;
            b = x;
        }
        let h = g.edge_color(e) == EColor::H;
        let ghost old_recs = recs@;
        recs.push((a, b, h, 1));
        proof {
            let id = m.alive_edge_ids()[k as int];
            assert(es[k as int] == (m.edges[id as int].0, m.edges[id as int].1, id));
            assert(remap[s as int] == alive_pos(m, s));
            assert(remap[t as int] == alive_pos(m, t));
            assert(render_recs(m)[k as int] == (a as nat, b as nat, h, 1nat));
            assert(gs_view(recs@) =~= gs_view(old_recs).push((a as nat, b as nat, h, 1nat)));
            assert(gs_view(recs@) =~= render_recs(m).take(k + 1));
        }
        k += 1;
    }
    proof {
        assert(render_recs(m).take(es.len() as int) =~= render_recs(m));
        lemma_total_mult_ones(gs_view(recs@), recs.len() as int);
        assert(recs.len() == m.alive_edge_ids().len());
        crate::seqs::lemma_idx_filter(
            |i: usize|
                (i as int) < m.edges.len() && m.is_alive(m.edges[i as int].0) && m.is_alive(m.edges[i as int].1),
            m.edges.len(),
        );
    }
    let mut ident: Vec<usize> = Vec::new();
    let mut i: usize = 0;
    while i < n
        invariant
            i <= n,
            ident.len() == i,
            forall|q: int| 0 <= q < i ==> #[trigger] ident[q] == q,
        decreases n - i,
    {
        ident.push(i);
        i += 1;
    }
    let gs = group_recs(&recs, &ident);
    let ghost gv = gs_view(gs@);
    proof {
        assert(ident@.map_values(|x: usize| x as nat) =~= ident_seq(m.alive_list().len()));
    }
    let mut out: Vec<char> = Vec::new();
    let mut j: usize = 0;
    while j < n
        invariant
            m == g@,
            g.wf(),
            m.wf(),
            alive@ == m.alive_list(),
            n == alive.len(),
            j <= n,
            out@ == vertex_text(m, j as int),
        decreases n - j,
    {
        proof {
            crate::seqs::lemma_idx_filter(|i: usize| (i as int) < m.alive.len() && m.alive[i as int], m.alive.len());
            assert(alive[j as int] < m.alive.len());
        }
        push_hex(&mut out, j as u64);
        push_str(&mut out, " : ");
        let ts = type_string(g.label(alive[j]));
        append_chars(&mut out, &ts);
        push_str(&mut out, "\n");
        j += 1;
        proof {
            assert(out@ =~= vertex_text(m, j as int));
        }
    }
    let ghost head = out@;
    let mut q: usize = 0;
    while q < gs.len()
        invariant
            gv == gs_view(gs@),
            q <= gs.len(),
            out@ == head + groups_text(gv.take(q as int)),
        decreases gs.len() - q,
    {
        push_group_line(&mut out, gs[q]);
        proof {
            assert(gv.take(q + 1).drop_last() =~= gv.take(q as int));
            assert(gv[q as int] == rec_view(gs[q as int]));
            assert(out@ =~= head + groups_text(gv.take(q + 1)));
        }
        q += 1;
    }
    proof {
        assert(gv.take(gs.len() as int) =~= gv);
        assert(is_grouping(
            render_recs(m),
            ident_seq(m.alive_list().len()),
            gv,
            m.alive_edge_ids().len() as int,
        ));
    }
    chars_to_string(&out)
}

/// Append the line of one edge group.
fn push_group_line(out: &mut Vec<char>, g: (usize, usize, bool, u32))
    ensures
        final(out)@ == old(out)@ + group_line(rec_view(g)),
{
    let (a, b, h, mm) = g;
    push_hex(out, a as u64);
    push_str(out, " ");
    push_hex(out, b as u64);
    if mm > 1 {
        push_str(out, " ");
        push_hex(out, mm as u64);
    }
    if h {
        push_str(out, " : H");
    }
    push_str(out, "\n");
    proof {
        assert(final(out)@ =~= old(out)@ + group_line(rec_view(g)));
    }
}

proof fn lemma_total_mult_ones(recs: Seq<(nat, nat, bool, nat)>, k: int)
    requires
        0 <= k <= recs.len(),
        forall|q: int| 0 <= q < recs.len() ==> (#[trigger] recs[q]).3 == 1,
    ensures
        total_mult(recs, k) == k,
    decreases k,
{
    if k > 0 {
        lemma_total_mult_ones(recs, k - 1);
    }
}

/// The number of alive vertices is the count of alive bits.
pub proof fn lemma_count_true_alive(m: GraphModel)
    requires
        m.wf(),
    ensures
        m.alive_list().len() == count_true(m.alive),
{
    crate::bitset::lemma_ones_of_count(m.alive);
}

/// An alive vertex's dense label is below the number of alive vertices.
pub proof fn lemma_alive_pos_bound(m: GraphModel, v: usize)
    requires
        m.wf(),
        m.is_alive(v),
    ensures
        alive_pos(m, v) < m.alive_list().len(),
{
    lemma_count_true_alive(m);
    lemma_count_true_prefix(m.alive, v as int);
}

pub proof fn lemma_count_true_prefix(s: Seq<bool>, v: int)
    requires
        0 <= v < s.len(),
        s[v],
    ensures
        count_true(s.take(v)) < count_true(s),
    decreases s.len(),
{
    if v < s.len() - 1 {
        assert(s.drop_last().take(v) =~= s.take(v));
        lemma_count_true_prefix(s.drop_last(), v);
    } else {
        assert(s.drop_last() =~= s.take(v));
    }
}

impl Graph {
    /// The Graph3 text of this graph (see [`to_graph3`]).
    pub fn to_graph3(&self) -> (r: String)
        requires
            self.wf(),
        ensures
            graph3_text(self@, r@),
    {
        to_graph3(self)
    }

    /// Parse Graph3 text (see [`from_graph3`]).
    pub fn from_graph3(input: &str) -> (r: Result<Graph, String>)
        requires
            input@.len() < usize::MAX,
            graph3_fits(input@),
        ensures
            match graph3_parse(input@) {
                Ok(st) => r matches Ok(g) && g.wf() && state_graph(st, g@),
                Err(e) => r matches Err(m) && m@ == e,
            },
    {
        from_graph3(input)
    }
}

} // verus!
