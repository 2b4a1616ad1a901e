//! Reading back what was written: the Graph3 text of a graph parses to the
//! graph's alive part, with dense labels and phases reduced mod 8.

use vstd::prelude::*;

use crate::graph::{EColor, GraphModel, VColor};
use crate::io::scan::{
    find_from, is_ws, lemma_find_from, lemma_skip_word, lemma_skip_ws, lemma_trail_end, lower, lower_seq, skip_word, skip_ws,
    trail_end, trim, words, words_from,
};
use crate::io::graph3::{
    canon_hex, group_line, hex_digit_val, hex_token_ok, hex_value, lemma_lines_of_len, lines_of, mult_token, parse_line,
    phase_fold, pow16, skip_zeros, type_str, vertex_type, vertex_text, groups_text, G3Line, G3State, run_lines, apply_line,
    register, id_of, label_id, lemma_label_id_at, order_ids, pair_total, graph3_parse, label_lt, lex_lt, lemma_label_order,
    is_label_order, grp_sum, is_grouping, same_key, grp_listed, grp_lt, expand, edge_color_of, ident_seq, lemma_grp_sum_pos,
};
use crate::graph::{alive_colored, joins};
use crate::io::graph3::{alive_pos, color_or_nc, graph3_text, lemma_alive_pos_bound, lemma_count_true_alive, render_recs, state_graph};
use crate::operation::utils::acmult;
use crate::seqs::{idx_filter, lemma_idx_filter};
use crate::seqs::{count_if, lemma_count_if_all, lemma_count_if_append, lemma_count_if_none};
use crate::io::scan::all_dec;
use crate::text::{dec, digit_char, digits, hex};

verus! {

/// A lowercase digit of base `base`.
pub open spec fn is_digit_in(c: char, base: nat) -> bool {
    ('0' <= c && c <= '9' && (c as u32) - 48 < base) || ('a' <= c && c <= 'f' && (c as u32) - 87 < base)
}

/// The characters of a rendering in base `base` are its lowercase digits,
/// and the first one is `0` only for zero.
pub proof fn lemma_digits_chars(n: nat, base: nat)
    requires
        2 <= base <= 16,
    ensures
        digits(n, base).len() >= 1,
        forall|i: int| 0 <= i < digits(n, base).len() ==> is_digit_in(#[trigger] digits(n, base)[i], base),
        (digits(n, base)[0] == '0') == (n == 0),
    decreases n,
{
    if n >= base {
        assert(n / base < n) by (nonlinear_arith)
            requires
                n >= base,
                base >= 2,
        ;
        assert(n % base < base) by (nonlinear_arith)
            requires
                base >= 2,
        ;
        assert(n / base >= 1) by (nonlinear_arith)
            requires
                n >= base,
                base >= 2,
        ;
        lemma_digits_chars(n / base, base);
        let p = digits(n / base, base);
        assert(digits(n, base) == p.push(digit_char(n % base)));
        assert forall|i: int| 0 <= i < digits(n, base).len() implies is_digit_in(#[trigger] digits(n, base)[i], base) by {
            if i < p.len() {
                assert(digits(n, base)[i] == p[i]);
            }
        }
        assert(digits(n, base)[0] == p[0]);
    }
}

/// The value of a digit character.
pub proof fn lemma_digit_val(d: nat)
    requires
        d < 16,
    ensures
        hex_digit_val(digit_char(d)) == d,
        d < 10 ==> (digit_char(d) as u32) - 48 == d,
{
}

/// Reading a hex rendering gives the number back; the rendering is a
/// valid token in canonical form, no longer than `k` digits below `16^k`.
pub proof fn lemma_hex(n: nat)
    ensures
        hex_value(hex(n)) == n,
        hex_token_ok(hex(n)),
        canon_hex(hex(n)) == hex(n),
        forall|k: nat| 1 <= k && n < #[trigger] pow16(k) ==> hex(n).len() <= k,
    decreases n,
{
    lemma_digits_chars(n, 16);
    let s = hex(n);
    if n >= 16 {
        lemma_hex(n / 16);
        assert(s == hex(n / 16).push(digit_char(n % 16)));
        assert(s.drop_last() == hex(n / 16));
        lemma_digit_val(n % 16);
        assert(n == (n / 16) * 16 + n % 16) by (nonlinear_arith);
        assert(s.last() == digit_char(n % 16));
        assert(hex_value(s) == hex_value(s.drop_last()) * 16 + hex_digit_val(s.last()));
        assert forall|k: nat| 1 <= k && n < #[trigger] pow16(k) implies hex(n).len() <= k by {
            assert(k >= 2) by {
                if k == 1 {
                    assert(pow16(1) == 16 * pow16(0));
                }
            }
            let k1 = (k - 1) as nat;
            assert(pow16(k) == 16 * pow16(k1));
            assert(n / 16 < pow16(k1)) by (nonlinear_arith)
                requires
                    n < 16 * pow16(k1),
            ;
        }
    } else {
        lemma_digit_val(n);
        assert(s == seq![digit_char(n)]);
        assert(s.drop_last() =~= Seq::<char>::empty());
        assert(hex_value(s.drop_last()) == 0);
        assert(hex_value(s) == hex_value(s.drop_last()) * 16 + hex_digit_val(s.last()));
    }
    assert(lower_seq(s) =~= s);
    if n > 0 {
        assert(skip_zeros(s, 0) == 0);
        assert(s.subrange(0, s.len() as int) =~= s);
    } else {
        reveal_strlit("0");
        assert(s =~= "0"@);
    }
}

/// Different numbers render differently.
pub proof fn lemma_hex_inj(a: nat, b: nat)
    ensures
        hex(a) == hex(b) ==> a == b,
{
    lemma_hex(a);
    lemma_hex(b);
}

/// `c` first occurs in `s` at `k` (`s.len()` when it does not occur).
pub proof fn lemma_find_first(s: Seq<char>, c: char, k: nat)
    requires
        k <= s.len(),
        k < s.len() ==> s[k as int] == c,
        forall|i: int| 0 <= i < k ==> s[i] != c,
    ensures
        find_from(s, c, 0) == k,
{
    lemma_find_from(s, c, 0);
    let f = find_from(s, c, 0);
    if f < k {
        assert(s[f as int] == c);
    } else if f > k {
        assert(s[k as int] != c);
    }
}

/// A string that starts and ends with non-whitespace trims to itself.
pub proof fn lemma_trim_id(s: Seq<char>)
    requires
        s.len() > 0,
        !is_ws(s[0]),
        !is_ws(s.last()),
    ensures
        trim(s) == s,
{
    assert(skip_ws(s, 0) == 0);
    assert(trail_end(s, s.len()) == s.len());
    assert(s.subrange(0, s.len() as int) =~= s);
}

/// The word at `i` is `t` when `t` is a run of non-whitespace followed by
/// whitespace or the end.
pub proof fn lemma_words_token(s: Seq<char>, i: nat, t: Seq<char>)
    requires
        t.len() > 0,
        i + t.len() <= s.len(),
        s.subrange(i as int, (i + t.len()) as int) == t,
        forall|k: int| 0 <= k < t.len() ==> !is_ws(#[trigger] t[k]),
        i + t.len() < s.len() ==> is_ws(s[(i + t.len()) as int]),
    ensures
        words_from(s, i) == seq![t] + words_from(s, i + t.len()),
{
    assert(s[i as int] == t[0]);
    assert(skip_ws(s, i) == i);
    lemma_skip_word(s, i);
    let b = skip_word(s, i);
    let j = i + t.len();
    if b < j {
        assert(s[b as int] == t[b - i]);
    }
    if b > j {
        assert(!is_ws(s[j as int]));
    }
    assert(b == j);
}

/// Whitespace at `i` is skipped.
pub proof fn lemma_words_ws(s: Seq<char>, i: nat)
    requires
        i < s.len(),
        is_ws(s[i as int]),
    ensures
        words_from(s, i) == words_from(s, i + 1),
{
    assert(skip_ws(s, i) == skip_ws(s, i + 1));
}

/// No words at the end.
pub proof fn lemma_words_end(s: Seq<char>, i: nat)
    requires
        i >= s.len(),
    ensures
        words_from(s, i) == Seq::<Seq<char>>::empty(),
{
    assert(skip_ws(s, i) == s.len());
}

/// A color with its phase reduced mod 8, as the text spells it.
pub open spec fn canon_color(c: VColor) -> VColor {
    match c {
        VColor::Z(s) => VColor::Z((s % 8) as u8),
        VColor::X(s) => VColor::X((s % 8) as u8),
        _ => c,
    }
}

/// The characters of a type spelling: none is whitespace, `#`, `:` or a
/// line break, and it starts and ends with a non-whitespace character.
pub proof fn lemma_type_str_chars(c: VColor)
    ensures
        type_str(c).len() > 0,
        forall|i: int| 0 <= i < type_str(c).len() ==> {
            let ch = #[trigger] type_str(c)[i];
            !is_ws(ch) && ch != '#' && ch != ':' && ch != '\n'
        },
        vertex_type(lower_seq(type_str(c))) == Some(canon_color(c)),
{
    reveal_strlit("Z(");
    reveal_strlit("X(");
    reveal_strlit(")");
    reveal_strlit("H");
    reveal_strlit("NC");
    reveal_strlit("nc");
    reveal_strlit("h");
    match c {
        VColor::Z(s) | VColor::X(s) => {
            let d = (s % 8) as nat;
            lemma_digits_chars(d, 10);
            lemma_digit_val(d);
            assert(dec(d) == seq![digit_char(d)]);
            let t = lower_seq(type_str(c));
            let z = c is Z;
            if z {
                assert(type_str(c) =~= seq!['Z', '(', digit_char(d), ')']);
                assert(t =~= seq!['z', '(', digit_char(d), ')']);
            } else {
                assert(type_str(c) =~= seq!['X', '(', digit_char(d), ')']);
                assert(t =~= seq!['x', '(', digit_char(d), ')']);
            }
            assert(t != "nc"@);
            assert(t != "h"@);
            let dd = t.subrange(2, t.len() - 1);
            assert(dd =~= seq![digit_char(d)]);
            assert(all_dec(dd));
            assert(dd.drop_last() =~= Seq::<char>::empty());
            assert(phase_fold(dd.drop_last()) == 0);
            assert(dd.last() == digit_char(d));
            assert((dd.last() as u32) - 48 == d);
            assert(phase_fold(dd) == ((phase_fold(dd.drop_last()) * 10 + ((dd.last() as u32) - 48)) % 8) as nat);
            assert(phase_fold(dd) == d);
        },
        VColor::H => {
            assert(lower_seq(type_str(c)) =~= "h"@);
        },
        VColor::NC => {
            assert(lower_seq(type_str(c)) =~= "nc"@);
        },
    }
}

/// The text of a vertex line, without its line break.
pub open spec fn vbody(j: nat, c: VColor) -> Seq<char> {
    hex(j) + " : "@ + type_str(c)
}

/// A vertex line reads as its label and its color (phase mod 8).
pub proof fn lemma_parse_vertex(j: nat, c: VColor)
    ensures
        parse_line(vbody(j, c)) == (G3Line::Vertex { label: hex(j), ty: Some(canon_color(c)) }),
{
    reveal_strlit(" : ");
    let h = hex(j);
    let ts = type_str(c);
    let raw = vbody(j, c);
    lemma_hex(j);
    lemma_digits_chars(j, 16);
    lemma_type_str_chars(c);
    let lh = h.len();
    let lt = ts.len();
    assert(raw.len() == lh + 3 + lt);
    assert forall|i: int| 0 <= i < raw.len() implies raw[i] != '#' && (i != lh + 1 ==> raw[i] != ':') && raw[i] != '\n' by {
        if i < lh {
            assert(raw[i] == h[i]);
        } else if i >= lh + 3 {
            assert(raw[i] == ts[i - lh - 3]);
        }
    }
    lemma_find_first(raw, '#', raw.len());
    assert(raw.take(raw.len() as int) =~= raw);
    assert(raw[0] == h[0]);
    assert(raw.last() == ts[lt - 1]);
    lemma_trim_id(raw);
    let line = raw;
    assert(line[lh as int] == ' ' && line[lh + 1 as int] == ':');
    lemma_find_first(line, ':', lh + 1);
    let u = line.skip(lh + 2 as int);
    assert(u =~= seq![' '] + ts);
    assert(skip_ws(u, 1) == 1);
    assert(skip_ws(u, 0) == 1);
    assert(trail_end(u, u.len()) == u.len());
    assert(trim(u) =~= ts);
    assert(ts.subrange(0, lt as int) =~= ts);
    lemma_words_token(ts, 0, ts);
    lemma_words_end(ts, lt);
    assert(words(ts) =~= seq![ts]);
    let w = line.take(lh + 1 as int);
    assert(w =~= h + seq![' ']);
    assert(w.subrange(0, lh as int) =~= h);
    lemma_words_token(w, 0, h);
    lemma_words_ws(w, lh);
    lemma_words_end(w, lh + 1);
    assert(words(w) =~= seq![h]);
}

/// The endpoint and multiplicity tokens of a group line.
pub open spec fn gcore(g: (nat, nat, bool, nat)) -> Seq<char> {
    hex(g.0) + " "@ + hex(g.1) + (if g.3 > 1 {
        " "@ + hex(g.3)
    } else {
        Seq::empty()
    })
}

/// The text of a group line, without its line break.
pub open spec fn gbody(g: (nat, nat, bool, nat)) -> Seq<char> {
    gcore(g) + (if g.2 {
        " : H"@
    } else {
        Seq::empty()
    })
}

/// The tokens of a group line's core, with or without one trailing space.
proof fn lemma_words_gcore(g: (nat, nat, bool, nat), trailing: bool)
    ensures
        words(if trailing { gcore(g) + " "@ } else { gcore(g) }) == if g.3 > 1 {
            seq![hex(g.0), hex(g.1), hex(g.3)]
        } else {
            seq![hex(g.0), hex(g.1)]
        },
{
    reveal_strlit(" ");
    let a = hex(g.0);
    let b = hex(g.1);
    let m = hex(g.3);
    lemma_digits_chars(g.0, 16);
    lemma_digits_chars(g.1, 16);
    lemma_digits_chars(g.3, 16);
    let core = gcore(g);
    let s = if trailing { core + " "@ } else { core };
    let la = a.len();
    let lb = b.len();
    let lm = m.len();
    let l1 = la + 1 + lb;
    if g.3 > 1 {
        assert(core =~= a + seq![' '] + b + seq![' '] + m);
    } else {
        assert(core =~= a + seq![' '] + b);
    }
    assert(s.subrange(0, la as int) =~= a);
    lemma_words_token(s, 0, a);
    assert(s[la as int] == ' ');
    lemma_words_ws(s, la);
    assert(s.subrange((la + 1) as int, l1 as int) =~= b);
    if l1 < s.len() {
        assert(s[l1 as int] == ' ');
    }
    lemma_words_token(s, la + 1, b);
    if g.3 > 1 {
        lemma_words_ws(s, l1);
        assert(s.subrange((l1 + 1) as int, (l1 + 1 + lm) as int) =~= m);
        if l1 + 1 + lm < s.len() {
            assert(s[(l1 + 1 + lm) as int] == ' ');
            lemma_words_ws(s, l1 + 1 + lm);
        }
        lemma_words_token(s, l1 + 1, m);
        lemma_words_end(s, s.len());
        if l1 + 1 + lm >= s.len() {
            lemma_words_end(s, l1 + 1 + lm);
        }
        assert(words(s) =~= seq![a, b, m]);
    } else {
        if l1 < s.len() {
            lemma_words_ws(s, l1);
        }
        lemma_words_end(s, s.len());
        if l1 >= s.len() {
            lemma_words_end(s, l1);
        }
        assert(words(s) =~= seq![a, b]);
    }
}

/// Shape of a group line: no comment, nothing to trim, and a colon only
/// before the `H` type.
proof fn lemma_gbody_shape(g: (nat, nat, bool, nat))
    ensures
        trim(gbody(g).take(find_from(gbody(g), '#', 0) as int)) == gbody(g),
        find_from(gbody(g), ':', 0) == if g.2 { gcore(g).len() + 1 } else { gbody(g).len() },
        g.2 ==> gbody(g).take(gcore(g).len() + 1 as int) == gcore(g) + " "@,
        g.2 ==> gbody(g).skip(gcore(g).len() + 2 as int) == seq![' ', 'H'],
{
    reveal_strlit(" ");
    reveal_strlit(" : H");
    let a = hex(g.0);
    let b = hex(g.1);
    let m = hex(g.3);
    lemma_digits_chars(g.0, 16);
    lemma_digits_chars(g.1, 16);
    lemma_digits_chars(g.3, 16);
    let core = gcore(g);
    let raw = gbody(g);
    let lc = core.len();
    if g.3 > 1 {
        assert(core =~= a + seq![' '] + b + seq![' '] + m);
    } else {
        assert(core =~= a + seq![' '] + b);
    }
    assert forall|i: int| 0 <= i < lc implies core[i] != '#' && core[i] != ':' && core[i] != '\n' by {}
    assert(core[0] == a[0]);
    assert(!is_ws(core.last()));
    if g.2 {
        assert(raw =~= core + seq![' ', ':', ' ', 'H']);
    } else {
        assert(raw =~= core);
    }
    assert forall|i: int| 0 <= i < raw.len() implies raw[i] != '#' && (i != lc + 1 ==> raw[i] != ':') by {
        if i < lc {
            assert(raw[i] == core[i]);
        }
    }
    lemma_find_first(raw, '#', raw.len());
    assert(raw.take(raw.len() as int) =~= raw);
    assert(raw[0] == core[0]);
    lemma_trim_id(raw);
    if g.2 {
        lemma_find_first(raw, ':', lc + 1);
        assert(raw.take(lc + 1 as int) =~= core + " "@);
        assert(raw.skip(lc + 2 as int) =~= seq![' ', 'H']);
    } else {
        lemma_find_first(raw, ':', raw.len());
    }
}

/// `" H"` trims to the single word `H`, which lowercases to `h`.
proof fn lemma_h_suffix()
    ensures
        trim(seq![' ', 'H']) == "H"@,
        words("H"@) == seq!["H"@],
        lower_seq("H"@) == "h"@,
{
    reveal_strlit("H");
    reveal_strlit("h");
    let u = seq![' ', 'H'];
    assert(skip_ws(u, 1) == 1);
    assert(skip_ws(u, 0) == 1);
    assert(trail_end(u, u.len()) == u.len());
    assert(trim(u) =~= "H"@);
    assert("H"@.subrange(0, 1) =~= "H"@);
    lemma_words_token("H"@, 0, "H"@);
    lemma_words_end("H"@, 1);
    assert(words("H"@) =~= seq!["H"@]);
    assert(lower_seq("H"@) =~= "h"@);
}

/// A group line reads as its endpoints, multiplicity and color.
pub proof fn lemma_parse_group(g: (nat, nat, bool, nat))
    requires
        1 <= g.3 <= 10000,
    ensures
        parse_line(gbody(g)) == (G3Line::Edge { a: hex(g.0), b: hex(g.1), m: g.3, h: g.2 }),
{
    reveal_strlit("h");
    lemma_hex(g.0);
    lemma_hex(g.1);
    lemma_hex(g.3);
    lemma_gbody_shape(g);
    assert(pow16(4) == 65536) by {
        reveal_with_fuel(pow16, 5);
    }
    if g.3 > 1 {
        assert(mult_token(hex(g.3)) == Ok::<nat, Seq<char>>(g.3));
    }
    let raw = gbody(g);
    let line = trim(raw.take(find_from(raw, '#', 0) as int));
    assert(line == raw);
    let p = find_from(line, ':', 0);
    let toks = words(line.take(p as int));
    if g.2 {
        lemma_h_suffix();
        lemma_words_gcore(g, true);
        assert(line.skip(p + 1 as int) == seq![' ', 'H']);
        assert(trim(line.skip(p + 1 as int)) == "H"@);
        assert(toks == words(gcore(g) + " "@));
        reveal_strlit(" : H");
        assert(raw.len() == gcore(g).len() + 4);
        assert(p < line.len() && lower_seq(trim(line.skip(p + 1 as int))) == "h"@);
    } else {
        lemma_words_gcore(g, false);
        assert(raw =~= gcore(g));
        assert(line.take(p as int) =~= gcore(g));
    }
    assert(toks == if g.3 > 1 {
        seq![hex(g.0), hex(g.1), hex(g.3)]
    } else {
        seq![hex(g.0), hex(g.1)]
    });
    let ty: Option<Seq<char>> = if g.2 { Some("h"@) } else { None };
    assert(!g.2 ==> p >= line.len());
    assert(parse_line(raw) == crate::io::graph3::edge_line(toks, ty));
    let mm: Result<nat, Seq<char>> = if toks.len() == 3 { mult_token(toks[2]) } else { Ok(1) };
    assert(mm == Ok::<nat, Seq<char>>(g.3));
}

/// The lines of `ls`, each followed by a line break.
pub open spec fn joined(ls: Seq<Seq<char>>) -> Seq<char>
    decreases ls.len(),
{
    if ls.len() == 0 {
        Seq::empty()
    } else {
        joined(ls.drop_last()) + ls.last() + "\n"@
    }
}

/// Text without line breaks extends the open last line.
proof fn lemma_lines_extend(s: Seq<char>, b: Seq<char>)
    requires
        lines_of(s).len() >= 1,
        lines_of(s).last() == Seq::<char>::empty(),
        forall|i: int| 0 <= i < b.len() ==> b[i] != '\n',
    ensures
        lines_of(s + b) == lines_of(s).update(lines_of(s).len() - 1, b),
    decreases b.len(),
{
    if b.len() == 0 {
        assert(s + b =~= s);
        assert(b =~= Seq::<char>::empty());
        assert(lines_of(s).update(lines_of(s).len() - 1, b) =~= lines_of(s));
    } else {
        let b1 = b.drop_last();
        lemma_lines_extend(s, b1);
        assert((s + b).drop_last() =~= s + b1);
        assert((s + b).last() == b.last());
        assert(b1.push(b.last()) =~= b);
        assert(lines_of(s + b) =~= lines_of(s).update(lines_of(s).len() - 1, b));
    }
}

/// The lines of joined lines are those lines and an empty last one.
pub proof fn lemma_lines_joined(ls: Seq<Seq<char>>)
    requires
        forall|k: int, i: int| 0 <= k < ls.len() && 0 <= i < ls[k].len() ==> #[trigger] ls[k][i] != '\n',
    ensures
        lines_of(joined(ls)) == ls.push(Seq::<char>::empty()),
    decreases ls.len(),
{
    reveal_strlit("\n");
    if ls.len() == 0 {
        assert(lines_of(Seq::<char>::empty()) =~= seq![Seq::<char>::empty()]);
    } else {
        let l0 = ls.drop_last();
        let s = joined(l0);
        lemma_lines_joined(l0);
        let l = ls.last();
        assert forall|i: int| 0 <= i < l.len() implies l[i] != '\n' by {
            assert(ls[ls.len() - 1][i] != '\n');
        }
        lemma_lines_extend(s, l);
        assert(l0.push(Seq::<char>::empty()).update(l0.len() as int, l) =~= ls);
        let t = s + l + "\n"@;
        assert(t.drop_last() =~= s + l);
        assert(t.last() == '\n');
        assert(joined(ls) == t);
    }
}

/// Joining two runs of lines joins their texts.
pub proof fn lemma_joined_append(a: Seq<Seq<char>>, b: Seq<Seq<char>>)
    ensures
        joined(a + b) == joined(a) + joined(b),
    decreases b.len(),
{
    if b.len() == 0 {
        assert(a + b =~= a);
        assert(joined(a) + joined(b) =~= joined(a));
    } else {
        lemma_joined_append(a, b.drop_last());
        assert((a + b).drop_last() =~= a + b.drop_last());
        assert((a + b).last() == b.last());
        assert(joined(a + b) =~= joined(a) + joined(b));
    }
}

/// The vertex line of the `j`-th alive vertex of `m`.
pub open spec fn vline(m: GraphModel, j: int) -> Seq<char> {
    vbody(j as nat, m.nodes[m.alive_list()[j] as int])
}

/// The vertex lines of the first `k` alive vertices.
pub open spec fn vlines(m: GraphModel, k: nat) -> Seq<Seq<char>> {
    Seq::new(k, |j: int| vline(m, j))
}

/// The group lines.
pub open spec fn glines(gs: Seq<(nat, nat, bool, nat)>) -> Seq<Seq<char>> {
    Seq::new(gs.len(), |i: int| gbody(gs[i]))
}

/// No line break inside a vertex line or a group line.
pub proof fn lemma_no_line_break(j: nat, c: VColor, g: (nat, nat, bool, nat))
    ensures
        forall|i: int| 0 <= i < vbody(j, c).len() ==> vbody(j, c)[i] != '\n',
        forall|i: int| 0 <= i < gbody(g).len() ==> gbody(g)[i] != '\n',
{
    reveal_strlit(" : ");
    reveal_strlit(" ");
    reveal_strlit(" : H");
    lemma_digits_chars(j, 16);
    lemma_type_str_chars(c);
    let h = hex(j);
    let ts = type_str(c);
    assert forall|i: int| 0 <= i < vbody(j, c).len() implies vbody(j, c)[i] != '\n' by {
        if i < h.len() {
            assert(vbody(j, c)[i] == h[i]);
        } else if i >= h.len() + 3 {
            assert(vbody(j, c)[i] == ts[i - h.len() - 3]);
        }
    }
    lemma_digits_chars(g.0, 16);
    lemma_digits_chars(g.1, 16);
    lemma_digits_chars(g.3, 16);
    let a = hex(g.0);
    let b = hex(g.1);
    let mm = hex(g.3);
    if g.3 > 1 {
        assert(gcore(g) =~= a + seq![' '] + b + seq![' '] + mm);
    } else {
        assert(gcore(g) =~= a + seq![' '] + b);
    }
    if g.2 {
        assert(gbody(g) =~= gcore(g) + seq![' ', ':', ' ', 'H']);
    } else {
        assert(gbody(g) =~= gcore(g));
    }
    assert forall|i: int| 0 <= i < gbody(g).len() implies gbody(g)[i] != '\n' by {
        if i < gcore(g).len() {
            assert(gbody(g)[i] == gcore(g)[i]);
        }
    }
}

/// The vertex part of the text is the joined vertex lines.
pub proof fn lemma_vertex_text(m: GraphModel, k: nat)
    ensures
        vertex_text(m, k as int) == joined(vlines(m, k)),
    decreases k,
{
    if k > 0 {
        let k1 = (k - 1) as nat;
        lemma_vertex_text(m, k1);
        assert(vlines(m, k).drop_last() =~= vlines(m, k1));
        assert(vertex_text(m, k as int) =~= joined(vlines(m, k)));
    } else {
        assert(vlines(m, 0) =~= Seq::<Seq<char>>::empty());
    }
}

/// The group part of the text is the joined group lines.
pub proof fn lemma_groups_text(gs: Seq<(nat, nat, bool, nat)>)
    ensures
        groups_text(gs) == joined(glines(gs)),
    decreases gs.len(),
{
    if gs.len() > 0 {
        lemma_groups_text(gs.drop_last());
        assert(glines(gs).drop_last() =~= glines(gs.drop_last()));
        assert(group_line(gs.last()) =~= gbody(gs.last()) + "\n"@);
        assert(groups_text(gs) =~= joined(glines(gs)));
    } else {
        assert(glines(gs) =~= Seq::<Seq<char>>::empty());
    }
}

/// The labels `0..k` in hex.
pub open spec fn hex_labels(k: nat) -> Seq<Seq<char>> {
    Seq::new(k, |j: int| hex(j as nat))
}

/// The reading after the first `k` vertex lines of `m`'s text.
pub open spec fn vstate(m: GraphModel, k: nat) -> G3State {
    G3State {
        labels: hex_labels(k),
        vtypes: Seq::new(k, |j: int| Some(canon_color(m.nodes[m.alive_list()[j] as int]))),
        recs: Seq::empty(),
    }
}

/// The id of the label `hex(j)` among `hex(0..k)` is `j` (`k` when absent).
pub proof fn lemma_hex_label_id(k: nat, j: nat)
    ensures
        label_id(hex_labels(k), hex(j), 0) == if j < k { j } else { k },
{
    let labels = hex_labels(k);
    let idx = if j < k { j } else { k };
    assert forall|i: int| 0 <= i < idx implies labels[i] != hex(j) by {
        lemma_hex_inj(i as nat, j);
    }
    lemma_label_id_at(labels, hex(j), idx);
}

/// Reading the vertex lines registers the labels in order with their
/// colors.
pub proof fn lemma_run_vertices(m: GraphModel, lines: Seq<Seq<char>>, k: nat)
    requires
        k <= lines.len(),
        forall|j: int| 0 <= j < k ==> #[trigger] lines[j] == vline(m, j),
    ensures
        run_lines(lines, k as int) == Ok::<G3State, Seq<char>>(vstate(m, k)),
    decreases k,
{
    if k == 0 {
        assert(vstate(m, 0).labels =~= Seq::<Seq<char>>::empty());
        assert(vstate(m, 0).vtypes =~= Seq::<Option<VColor>>::empty());
    } else {
        let k1 = (k - 1) as nat;
        lemma_run_vertices(m, lines, k1);
        let c = m.nodes[m.alive_list()[k1 as int] as int];
        lemma_parse_vertex(k1, c);
        assert(lines[k1 as int] == vbody(k1, c));
        let st = vstate(m, k1);
        lemma_hex_label_id(k1, k1);
        let st1 = register(st, hex(k1));
        assert(st1.labels =~= hex_labels(k));
        lemma_hex_label_id(k, k1);
        assert(id_of(st1, hex(k1)) == k1);
        assert(st1.vtypes.update(k1 as int, Some(canon_color(c))) =~= vstate(m, k).vtypes);
    }
}

/// Only the first `j` records count toward `pair_total(_, _, _, j)`.
pub proof fn lemma_pair_total_agree(s1: Seq<(nat, nat, bool, nat)>, s2: Seq<(nat, nat, bool, nat)>, x: nat, y: nat, j: int)
    requires
        0 <= j <= s1.len(),
        j <= s2.len(),
        forall|i: int| 0 <= i < j ==> s1[i] == s2[i],
    ensures
        pair_total(s1, x, y, j) == pair_total(s2, x, y, j),
    decreases j,
{
    if j > 0 {
        lemma_pair_total_agree(s1, s2, x, y, j - 1);
    }
}

/// The reading after the vertex lines and the first `i` group lines.
pub open spec fn gstate(m: GraphModel, n: nat, gs: Seq<(nat, nat, bool, nat)>, i: int) -> G3State {
    G3State { labels: hex_labels(n), vtypes: vstate(m, n).vtypes, recs: gs.take(i) }
}

/// The groups of a rendering: ordered endpoints below `n`, multiplicities
/// from 1 to 10 000, and no pair over 10 000 edges in all.
pub open spec fn groups_ok(gs: Seq<(nat, nat, bool, nat)>, n: nat) -> bool {
    &&& forall|j: int| 0 <= j < gs.len() ==> (#[trigger] gs[j]).0 <= gs[j].1 && gs[j].1 < n && 1 <= gs[j].3 <= 10000
    &&& forall|j: int| 0 <= j < gs.len() ==> pair_total(gs, (#[trigger] gs[j]).0, gs[j].1, j + 1) <= 10000
}

/// Reading the group lines records each group once.
pub proof fn lemma_run_groups(m: GraphModel, lines: Seq<Seq<char>>, n: nat, gs: Seq<(nat, nat, bool, nat)>, i: nat)
    requires
        n + i <= lines.len(),
        i <= gs.len(),
        run_lines(lines, n as int) == Ok::<G3State, Seq<char>>(vstate(m, n)),
        forall|j: int| 0 <= j < i ==> #[trigger] lines[n + j] == gbody(gs[j]),
        groups_ok(gs, n),
    ensures
        run_lines(lines, (n + i) as int) == Ok::<G3State, Seq<char>>(gstate(m, n, gs, i as int)),
    decreases i,
{
    if i == 0 {
        assert(gs.take(0) =~= Seq::<(nat, nat, bool, nat)>::empty());
    } else {
        let i1 = (i - 1) as nat;
        lemma_run_groups(m, lines, n, gs, i1);
        let g = gs[i1 as int];
        assert(lines[(n + i1) as int] == gbody(g));
        lemma_parse_group(g);
        let st = gstate(m, n, gs, i1 as int);
        lemma_hex_label_id(n, g.0);
        lemma_hex_label_id(n, g.1);
        assert(register(register(st, hex(g.0)), hex(g.1)) == st);
        assert(id_of(st, hex(g.0)) == g.0);
        assert(id_of(st, hex(g.1)) == g.1);
        assert(order_ids(g.0, g.1) == (g.0, g.1));
        lemma_pair_total_agree(gs.take(i1 as int), gs, g.0, g.1, i1 as int);
        assert(pair_total(gs, g.0, g.1, (i1 + 1) as int) == pair_total(gs, g.0, g.1, i1 as int) + g.3);
        assert(gs.take(i1 as int).push((g.0, g.1, g.2, g.3)) =~= gs.take(i as int));
    }
}

/// The text of `m`'s alive vertices followed by the groups `gs` reads as
/// the labels `0..n` in hex with the canonical colors and the groups as
/// records.
pub proof fn lemma_parse_text(m: GraphModel, gs: Seq<(nat, nat, bool, nat)>)
    requires
        groups_ok(gs, m.alive_list().len()),
    ensures
        graph3_parse(vertex_text(m, m.alive_list().len() as int) + groups_text(gs)) == Ok::<G3State, Seq<char>>(
            gstate(m, m.alive_list().len(), gs, gs.len() as int),
        ),
{
    let n = m.alive_list().len();
    let vl = vlines(m, n);
    let gl = glines(gs);
    lemma_vertex_text(m, n);
    lemma_groups_text(gs);
    lemma_joined_append(vl, gl);
    let all = vl + gl;
    assert forall|k: int, i: int| 0 <= k < all.len() && 0 <= i < all[k].len() implies #[trigger] all[k][i] != '\n' by {
        if k < n {
            lemma_no_line_break(k as nat, m.nodes[m.alive_list()[k] as int], (0, 0, false, 1));
        } else {
            lemma_no_line_break(0, VColor::NC, gs[k - n]);
        }
    }
    lemma_lines_joined(all);
    let text = vertex_text(m, n as int) + groups_text(gs);
    let lines = lines_of(text);
    assert(lines == all.push(Seq::<char>::empty()));
    assert forall|j: int| 0 <= j < n implies #[trigger] lines[j] == vline(m, j) by {
        assert(lines[j] == all[j]);
        assert(all[j] == vl[j]);
    }
    lemma_run_vertices(m, lines, n);
    assert forall|j: int| 0 <= j < gs.len() implies #[trigger] lines[n + j] == gbody(gs[j]) by {
        assert(lines[n + j] == all[n + j]);
        assert(all[n + j] == gl[j]);
    }
    lemma_run_groups(m, lines, n, gs, gs.len());
    let last = lines[(n + gs.len()) as int];
    assert(last == Seq::<char>::empty());
    assert(find_from(last, '#', 0) == 0);
    assert(last.take(0) =~= Seq::<char>::empty());
    assert(skip_ws(Seq::<char>::empty(), 0) == 0);
    assert(parse_line(last) == G3Line::Blank);
    assert(lines.len() == n + gs.len() + 1);
}

/// Hex renderings sort in numeric order.
pub proof fn lemma_hex_order(i: nat, j: nat)
    requires
        i < j,
    ensures
        label_lt(hex(i), hex(j)),
    decreases j,
{
    lemma_digits_chars(i, 16);
    lemma_digits_chars(j, 16);
    if j < 16 {
        assert(hex(i) == seq![digit_char(i)]);
        assert(hex(j) == seq![digit_char(j)]);
        assert(hex(i).take(0) =~= hex(j).take(0));
        assert(digit_char(i) < digit_char(j));
        assert(lex_lt(hex(i), hex(j)));
    } else if i < 16 {
        assert(hex(i) == seq![digit_char(i)]);
        assert(hex(j) == hex(j / 16).push(digit_char(j % 16)));
    } else {
        let pi = hex(i / 16);
        let pj = hex(j / 16);
        assert(hex(i) == pi.push(digit_char(i % 16)));
        assert(hex(j) == pj.push(digit_char(j % 16)));
        assert(i / 16 <= j / 16) by (nonlinear_arith)
            requires
                i < j,
        ;
        if i / 16 == j / 16 {
            assert(i % 16 < j % 16) by (nonlinear_arith)
                requires
                    i < j,
                    i / 16 == j / 16,
            ;
            let d = pi.len() as int;
            assert(hex(i).take(d) =~= pi);
            assert(hex(j).take(d) =~= pj);
            assert(digit_char(i % 16) < digit_char(j % 16));
            assert(lex_lt(hex(i), hex(j)));
        } else {
            assert(j / 16 < j) by (nonlinear_arith)
                requires
                    j >= 16,
            ;
            lemma_hex_order(i / 16, j / 16);
            if pi.len() == pj.len() {
                let d = choose|d: int| 0 <= d < pi.len() && d < pj.len() && #[trigger] pi.take(d) == pj.take(d) && pi[d] < pj[d];
                assert(hex(i).take(d) =~= pi.take(d));
                assert(hex(j).take(d) =~= pj.take(d));
                assert(hex(i)[d] == pi[d]);
                assert(hex(j)[d] == pj[d]);
                assert(lex_lt(hex(i), hex(j)));
            }
        }
    }
}

/// Reading sorts the hex labels `0..n` into their own order.
pub proof fn lemma_hex_label_order(n: nat, order: Seq<nat>, rank: Seq<nat>)
    requires
        is_label_order(hex_labels(n), order, rank),
    ensures
        forall|k: int| 0 <= k < n ==> #[trigger] order[k] == k && rank[k] == k,
{
    let labels = hex_labels(n);
    assert forall|k1: int, k2: int| 0 <= k1 < k2 < n implies #[trigger] order[k1] < #[trigger] order[k2] by {
        assert(label_lt(labels[order[k1] as int], labels[order[k2] as int]));
        lemma_label_order(labels[order[k1] as int], labels[order[k2] as int], labels[order[k2] as int]);
        if order[k1] > order[k2] {
            lemma_hex_order(order[k2], order[k1]);
            lemma_label_order(labels[order[k2] as int], labels[order[k1] as int], labels[order[k1] as int]);
        }
    }
    lemma_increasing_low(order, n, n as int);
    lemma_increasing_high(order, n, 0);
    assert forall|k: int| 0 <= k < n implies #[trigger] order[k] == k && rank[k] == k by {
        assert(rank[order[k] as int] == k);
    }
}

/// A strictly increasing run of `n` values below `n` has `order[k] >= k`.
proof fn lemma_increasing_low(order: Seq<nat>, n: nat, k: int)
    requires
        order.len() == n,
        0 <= k <= n,
        forall|k1: int, k2: int| 0 <= k1 < k2 < n ==> #[trigger] order[k1] < #[trigger] order[k2],
    ensures
        forall|j: int| 0 <= j < k ==> #[trigger] order[j] >= j,
    decreases k,
{
    if k > 0 {
        lemma_increasing_low(order, n, k - 1);
        if k - 1 > 0 {
            assert(order[k - 2] < order[k - 1]);
        }
    }
}

/// ... and `order[k] <= k`.
proof fn lemma_increasing_high(order: Seq<nat>, n: nat, k: int)
    requires
        order.len() == n,
        0 <= k <= n,
        forall|j: int| 0 <= j < n ==> #[trigger] order[j] < n,
        forall|k1: int, k2: int| 0 <= k1 < k2 < n ==> #[trigger] order[k1] < #[trigger] order[k2],
    ensures
        forall|j: int| k <= j < n ==> #[trigger] order[j] <= j,
    decreases n - k,
{
    if k < n {
        lemma_increasing_high(order, n, k + 1);
        if k + 1 < n {
            assert(order[k] < order[k + 1]);
        }
    }
}

/// Only the first `k` records count toward `grp_sum(_, _, _, _, _, k)`.
pub proof fn lemma_grp_sum_agree(
    s1: Seq<(nat, nat, bool, nat)>,
    s2: Seq<(nat, nat, bool, nat)>,
    rank: Seq<nat>,
    a: nat,
    b: nat,
    h: bool,
    k: int,
)
    requires
        0 <= k <= s1.len(),
        k <= s2.len(),
        forall|i: int| 0 <= i < k ==> s1[i] == s2[i],
    ensures
        grp_sum(s1, rank, a, b, h, k) == grp_sum(s2, rank, a, b, h, k),
    decreases k,
{
    if k > 0 {
        lemma_grp_sum_agree(s1, s2, rank, a, b, h, k - 1);
    }
}

/// The record `r` lands on `(a, b, h)` under `rank`.
pub open spec fn lands(r: (nat, nat, bool, nat), rank: Seq<nat>, a: nat, b: nat, h: bool) -> bool {
    rank[r.0 as int] == a && rank[r.1 as int] == b && r.2 == h
}

/// With at most the record `i` landing, the sum is its multiplicity (or 0).
pub proof fn lemma_grp_sum_single(s: Seq<(nat, nat, bool, nat)>, rank: Seq<nat>, a: nat, b: nat, h: bool, k: int, i: int)
    requires
        0 <= k <= s.len(),
        forall|j: int| 0 <= j < k && j != i ==> !lands(#[trigger] s[j], rank, a, b, h),
    ensures
        grp_sum(s, rank, a, b, h, k) == if 0 <= i < k && lands(s[i], rank, a, b, h) { s[i].3 } else { 0 },
    decreases k,
{
    if k > 0 {
        lemma_grp_sum_single(s, rank, a, b, h, k - 1, i);
    }
}

/// The renumbering that keeps ids below `n`.
proof fn lemma_ident_seq(n: nat)
    ensures
        forall|x: int| 0 <= x < n ==> #[trigger] ident_seq(n)[x] == x,
{
}

/// In a grouping, the group of a key carries the key's whole sum.
pub proof fn lemma_grouping_sum(
    recs: Seq<(nat, nat, bool, nat)>,
    rank: Seq<nat>,
    gs: Seq<(nat, nat, bool, nat)>,
    k: int,
    n: nat,
    a: nat,
    b: nat,
    h: bool,
)
    requires
        0 <= k <= recs.len(),
        is_grouping(recs, rank, gs, k),
        forall|i: int| 0 <= i < gs.len() ==> (#[trigger] gs[i]).0 < n && gs[i].1 < n,
    ensures
        grp_sum(gs, ident_seq(n), a, b, h, gs.len() as int) == grp_sum(recs, rank, a, b, h, k),
{
    lemma_ident_seq(n);
    let id = ident_seq(n);
    assert forall|i: int| 0 <= i < gs.len() implies lands(#[trigger] gs[i], id, a, b, h) == same_key(gs[i], a, b, h) by {}
    if grp_listed(gs, a, b, h) {
        let i = choose|i: int| 0 <= i < gs.len() && same_key(#[trigger] gs[i], a, b, h);
        assert forall|j: int| 0 <= j < gs.len() && j != i implies !lands(#[trigger] gs[j], id, a, b, h) by {
            if j < i {
                assert(grp_lt(gs[j], gs[i]));
            } else {
                assert(grp_lt(gs[i], gs[j]));
            }
        }
        lemma_grp_sum_single(gs, id, a, b, h, gs.len() as int, i);
    } else {
        lemma_grp_sum_single(gs, id, a, b, h, gs.len() as int, -1);
        if grp_sum(recs, rank, a, b, h, k) > 0 {
            lemma_grp_sum_pos(recs, rank, a, b, h, k);
            let w = choose|w: int| 0 <= w < k && rank[(#[trigger] recs[w]).0 as int] == a && rank[recs[w].1 as int] == b && recs[w].2 == h;
            assert(grp_listed(gs, rank[recs[w].0 as int], rank[recs[w].1 as int], recs[w].2));
        }
    }
}

/// The edges written out from ordered groups join a pair as often as the
/// groups of that pair say.
pub proof fn lemma_expand_count(gs: Seq<(nat, nat, bool, nat)>, n: nat, x: nat, y: nat, c: EColor)
    requires
        forall|i: int| 0 <= i < gs.len() ==> (#[trigger] gs[i]).0 <= gs[i].1 && gs[i].1 < n,
        x < n,
        y < n,
        x <= y,
        n <= usize::MAX,
    ensures
        count_if(expand(gs), joins(x as usize, y as usize, c)) == grp_sum(gs, ident_seq(n), x, y, c == EColor::H, gs.len() as int),
    decreases gs.len(),
{
    lemma_ident_seq(n);
    if gs.len() > 0 {
        let g = gs.last();
        let g0 = gs.drop_last();
        lemma_expand_count(g0, n, x, y, c);
        lemma_grp_sum_agree(g0, gs, ident_seq(n), x, y, c == EColor::H, g0.len() as int);
        let tail = Seq::new(g.3, |t: int| (g.0 as usize, g.1 as usize, edge_color_of(g.2)));
        lemma_count_if_append(expand(g0), tail, joins(x as usize, y as usize, c));
        let hit = joins(x as usize, y as usize, c)((g.0 as usize, g.1 as usize, edge_color_of(g.2)));
        if hit {
            lemma_count_if_all(tail, joins(x as usize, y as usize, c));
        } else {
            lemma_count_if_none(tail, joins(x as usize, y as usize, c));
        }
        assert(g == gs[gs.len() - 1]);
        assert(g.0 <= g.1 && g.1 < n);
        assert((g.0 as usize) as nat == g.0 && (g.1 as usize) as nat == g.1);
        assert((x as usize) as nat == x && (y as usize) as nat == y);
        assert(hit == lands(g, ident_seq(n), x, y, c == EColor::H));
    }
}

/// An earlier filter is a prefix of a later one.
pub proof fn lemma_idx_filter_prefix(p: spec_fn(usize) -> bool, k1: nat, k2: nat)
    requires
        k1 <= k2,
    ensures
        idx_filter(p, k1).len() <= idx_filter(p, k2).len(),
        forall|i: int| 0 <= i < idx_filter(p, k1).len() ==> #[trigger] idx_filter(p, k2)[i] == idx_filter(p, k1)[i],
    decreases k2,
{
    if k2 > k1 {
        lemma_idx_filter_prefix(p, k1, (k2 - 1) as nat);
    }
}

/// Dense labels and the alive list are inverse to each other.
pub proof fn lemma_alive_pos(m: GraphModel)
    requires
        m.wf(),
    ensures
        forall|v: usize| m.is_alive(v) ==> #[trigger] alive_pos(m, v) < m.alive_list().len() && m.alive_list()[alive_pos(m, v) as int]
            == v,
        forall|k: int| 0 <= k < m.alive_list().len() ==> m.is_alive(#[trigger] m.alive_list()[k]) && alive_pos(m, m.alive_list()[k]) == k,
{
    let bits = m.alive;
    let p = |i: usize| (i as int) < bits.len() && bits[i as int];
    let al = m.alive_list();
    lemma_idx_filter(p, bits.len());
    assert forall|v: usize| m.is_alive(v) implies #[trigger] alive_pos(m, v) < al.len() && al[alive_pos(m, v) as int] == v by {
        lemma_alive_pos_bound(m, v);
        crate::bitset::lemma_ones_of_count_upto(bits, v as nat);
        assert(idx_filter(p, (v + 1) as nat) == idx_filter(p, v as nat).push(v));
        lemma_idx_filter_prefix(p, (v + 1) as nat, bits.len());
        assert(idx_filter(p, (v + 1) as nat)[alive_pos(m, v) as int] == v);
    }
    assert forall|k: int| 0 <= k < al.len() implies m.is_alive(#[trigger] al[k]) && alive_pos(m, al[k]) == k by {
        let v = al[k];
        assert(p(v));
        let q = alive_pos(m, v) as int;
        assert(al[q] == v);
        if q < k {
            assert(al[q] < al[k]);
        } else if q > k {
            assert(al[k] < al[q]);
        }
    }
}

/// The rendered records of a pair and color count the alive edges of the
/// corresponding pair of vertices.
pub proof fn lemma_render_sum(m: GraphModel, a: nat, b: nat, h: bool)
    requires
        m.wf(),
        a <= b < m.alive_list().len(),
    ensures
        grp_sum(render_recs(m), ident_seq(m.alive_list().len()), a, b, h, render_recs(m).len() as int) == crate::operation::utils::acmult(
            m,
            m.alive_list()[a as int],
            m.alive_list()[b as int],
            edge_color_of(h),
        ),
{
    let n = m.alive_list().len();
    let al = m.alive_list();
    let c = edge_color_of(h);
    let va = al[a as int];
    let vb = al[b as int];
    let rr = render_recs(m);
    let ac = alive_colored(m);
    let ids = m.alive_edge_ids();
    lemma_alive_pos(m);
    lemma_ident_seq(n);
    lemma_idx_filter(
        |i: usize| (i as int) < m.edges.len() && m.is_alive(m.edges[i as int].0) && m.is_alive(m.edges[i as int].1),
        m.edges.len(),
    );
    crate::operation::utils::lemma_acmult_alive_count(m, va, vb, c);
    assert forall|k: int| 0 <= k < rr.len() implies lands(#[trigger] rr[k], ident_seq(n), a, b, h) == joins(va, vb, c)(ac[k]) by {
        let e = m.edges[ids[k] as int];
        assert(ac[k] == e);
        assert(m.is_alive(e.0) && m.is_alive(e.1));
        lemma_alive_pos_bound(m, e.0);
        lemma_alive_pos_bound(m, e.1);
    }
    lemma_render_sum_upto(m, a, b, h, rr.len() as int);
    assert(ac.take(rr.len() as int) =~= ac);
}

proof fn lemma_render_sum_upto(m: GraphModel, a: nat, b: nat, h: bool, k: int)
    requires
        m.wf(),
        0 <= k <= render_recs(m).len(),
        a <= b < m.alive_list().len(),
        forall|j: int| 0 <= j < render_recs(m).len() ==> lands(#[trigger] render_recs(m)[j], ident_seq(m.alive_list().len()), a, b, h)
            == joins(m.alive_list()[a as int], m.alive_list()[b as int], edge_color_of(h))(alive_colored(m)[j]),
    ensures
        grp_sum(render_recs(m), ident_seq(m.alive_list().len()), a, b, h, k) == count_if(
            alive_colored(m).take(k),
            joins(m.alive_list()[a as int], m.alive_list()[b as int], edge_color_of(h)),
        ),
    decreases k,
{
    if k > 0 {
        lemma_render_sum_upto(m, a, b, h, k - 1);
        let ac = alive_colored(m);
        assert(ac.take(k).drop_last() =~= ac.take(k - 1));
        assert(ac.take(k).last() == ac[k - 1]);
        assert(render_recs(m)[k - 1].3 == 1);
    } else {
        assert(alive_colored(m).take(0) =~= Seq::<(usize, usize, EColor)>::empty());
    }
}

/// Two renumberings that agree on the records' ids give the same sums.
pub proof fn lemma_grp_sum_rank(s: Seq<(nat, nat, bool, nat)>, r1: Seq<nat>, r2: Seq<nat>, a: nat, b: nat, h: bool, k: int)
    requires
        0 <= k <= s.len(),
        forall|j: int| 0 <= j < k ==> r1[(#[trigger] s[j]).0 as int] == r2[s[j].0 as int] && r1[s[j].1 as int] == r2[s[j].1 as int],
    ensures
        grp_sum(s, r1, a, b, h, k) == grp_sum(s, r2, a, b, h, k),
    decreases k,
{
    if k > 0 {
        lemma_grp_sum_rank(s, r1, r2, a, b, h, k - 1);
    }
}

/// A pair's total splits into its normal and its Hadamard sums.
pub proof fn lemma_pair_total_split(s: Seq<(nat, nat, bool, nat)>, n: nat, x: nat, y: nat, k: int)
    requires
        0 <= k <= s.len(),
        forall|j: int| 0 <= j < s.len() ==> (#[trigger] s[j]).0 < n && s[j].1 < n,
    ensures
        pair_total(s, x, y, k) == grp_sum(s, ident_seq(n), x, y, false, k) + grp_sum(s, ident_seq(n), x, y, true, k),
    decreases k,
{
    lemma_ident_seq(n);
    if k > 0 {
        lemma_pair_total_split(s, n, x, y, k - 1);
        assert(s[k - 1].0 < n && s[k - 1].1 < n);
    }
}

/// Pair totals grow with the prefix.
pub proof fn lemma_pair_total_mono(s: Seq<(nat, nat, bool, nat)>, x: nat, y: nat, j: int, k: int)
    requires
        0 <= j <= k <= s.len(),
    ensures
        pair_total(s, x, y, j) <= pair_total(s, x, y, k),
    decreases k - j,
{
    if j < k {
        lemma_pair_total_mono(s, x, y, j, k - 1);
    }
}

/// Every pair of vertices is joined by at most 10 000 alive edges (both
/// colors together), the most one Graph3 pair may carry.
pub open spec fn pairs_fit(m: GraphModel) -> bool {
    forall|x: usize, y: usize| #[trigger] acmult(m, x, y, EColor::NC) + acmult(m, x, y, EColor::H) <= 10000
}

/// `m2` is the alive part of `m` as read back: the alive vertices in
/// order with their colors (phases mod 8), all alive, and between any two
/// of them as many edges of each color as in `m`.
pub open spec fn read_back(m: GraphModel, m2: GraphModel) -> bool {
    let n = m.alive_list().len();
    &&& m2.nodes == Seq::new(n, |k: int| canon_color(m.nodes[m.alive_list()[k] as int]))
    &&& m2.alive == Seq::new(n, |k: int| true)
    &&& forall|x: usize, y: usize, c: EColor|
        x < n && y < n ==> #[trigger] m2.cmult(x, y, c) == acmult(m, m.alive_list()[x as int], m.alive_list()[y as int], c)
}

/// The groups of a rendering are ordered, below the alive count, and within
/// the Graph3 limits when every pair fits.
proof fn lemma_render_groups_ok(m: GraphModel, gs: Seq<(nat, nat, bool, nat)>)
    requires
        m.wf(),
        pairs_fit(m),
        is_grouping(render_recs(m), ident_seq(m.alive_list().len()), gs, render_recs(m).len() as int),
    ensures
        groups_ok(gs, m.alive_list().len()),
{
    let n = m.alive_list().len();
    let rr = render_recs(m);
    let id = ident_seq(n);
    lemma_ident_seq(n);
    lemma_alive_pos(m);
    let ids = m.alive_edge_ids();
    lemma_idx_filter(
        |i: usize| (i as int) < m.edges.len() && m.is_alive(m.edges[i as int].0) && m.is_alive(m.edges[i as int].1),
        m.edges.len(),
    );
    assert forall|w: int| 0 <= w < rr.len() implies (#[trigger] rr[w]).0 <= rr[w].1 && rr[w].1 < n by {
        let e = m.edges[ids[w] as int];
        lemma_alive_pos_bound(m, e.0);
        lemma_alive_pos_bound(m, e.1);
    }
    assert forall|j: int| 0 <= j < gs.len() implies (#[trigger] gs[j]).0 <= gs[j].1 && gs[j].1 < n && 1 <= gs[j].3 <= 10000 by {
        let g = gs[j];
        lemma_grp_sum_pos(rr, id, g.0, g.1, g.2, rr.len() as int);
        let w = choose|w: int| 0 <= w < rr.len() && id[(#[trigger] rr[w]).0 as int] == g.0 && id[rr[w].1 as int] == g.1 && rr[w].2 == g.2;
        assert(rr[w].0 <= rr[w].1 && rr[w].1 < n);
        lemma_render_sum(m, g.0, g.1, g.2);
        let va = m.alive_list()[g.0 as int];
        let vb = m.alive_list()[g.1 as int];
        assert(acmult(m, va, vb, EColor::NC) + acmult(m, va, vb, EColor::H) <= 10000);
    }
    assert forall|j: int| 0 <= j < gs.len() implies pair_total(gs, (#[trigger] gs[j]).0, gs[j].1, j + 1) <= 10000 by {
        let g = gs[j];
        lemma_pair_total_mono(gs, g.0, g.1, j + 1, gs.len() as int);
        lemma_pair_total_split(gs, n, g.0, g.1, gs.len() as int);
        lemma_grouping_sum(rr, id, gs, rr.len() as int, n, g.0, g.1, false);
        lemma_grouping_sum(rr, id, gs, rr.len() as int, n, g.0, g.1, true);
        lemma_render_sum(m, g.0, g.1, false);
        lemma_render_sum(m, g.0, g.1, true);
        let va = m.alive_list()[g.0 as int];
        let vb = m.alive_list()[g.1 as int];
        assert(acmult(m, va, vb, EColor::NC) + acmult(m, va, vb, EColor::H) <= 10000);
    }
}

/// What a read gives back of a write: the Graph3 text of a graph whose
/// pairs fit the format parses, and every graph the reading denotes is
/// the graph's alive part (see [`read_back`]).
pub proof fn lemma_graph3_round_trip(m: GraphModel, text: Seq<char>)
    requires
        m.wf(),
        pairs_fit(m),
        graph3_text(m, text),
    ensures
        graph3_parse(text) is Ok,
        forall|m2: GraphModel| #[trigger] state_graph(graph3_parse(text)->Ok_0, m2) ==> read_back(m, m2),
{
    let n = m.alive_list().len();
    let rr = render_recs(m);
    let id = ident_seq(n);
    let gs = choose|gs: Seq<(nat, nat, bool, nat)>|
        #[trigger] is_grouping(rr, id, gs, m.alive_edge_ids().len() as int) && text == vertex_text(m, n as int) + groups_text(gs);
    assert(rr.len() == m.alive_edge_ids().len());
    lemma_render_groups_ok(m, gs);
    lemma_parse_text(m, gs);
    let st = gstate(m, n, gs, gs.len() as int);
    assert(st.recs =~= gs);
    lemma_ident_seq(n);
    lemma_count_true_alive(m);
    assert(n <= m.nodes.len()) by {
        lemma_idx_filter(|i: usize| (i as int) < m.alive.len() && m.alive[i as int], m.alive.len());
    }
    assert forall|m2: GraphModel| #[trigger] state_graph(graph3_parse(text)->Ok_0, m2) implies read_back(m, m2) by {
        let (order, rank) = choose|order: Seq<nat>, rank: Seq<nat>|
            #[trigger] is_label_order(st.labels, order, rank) && m2.nodes == Seq::new(
                st.labels.len(),
                |k: int| color_or_nc(st.vtypes[order[k] as int]),
            ) && m2.alive == Seq::new(st.labels.len(), |k: int| true) && exists|gs2: Seq<(nat, nat, bool, nat)>|
                #[trigger] is_grouping(st.recs, rank, gs2, st.recs.len() as int) && m2.edges == expand(gs2);
        lemma_hex_label_order(n, order, rank);
        assert(m2.nodes =~= Seq::new(n, |k: int| canon_color(m.nodes[m.alive_list()[k] as int])));
        let gs2 = choose|gs2: Seq<(nat, nat, bool, nat)>| #[trigger] is_grouping(st.recs, rank, gs2, st.recs.len() as int) && m2.edges == expand(gs2);
        assert forall|j: int| 0 <= j < gs.len() implies rank[(#[trigger] gs[j]).0 as int] == id[gs[j].0 as int] && rank[gs[j].1 as int] == id[gs[j].1 as int] by {
            assert(gs[j].0 <= gs[j].1 && gs[j].1 < n);
        }
        assert forall|i: int| 0 <= i < gs2.len() implies (#[trigger] gs2[i]).0 <= gs2[i].1 && gs2[i].1 < n by {
            let g = gs2[i];
            lemma_grp_sum_pos(gs, rank, g.0, g.1, g.2, gs.len() as int);
            let w = choose|w: int| 0 <= w < gs.len() && rank[(#[trigger] gs[w]).0 as int] == g.0 && rank[gs[w].1 as int] == g.1 && gs[w].2 == g.2;
            assert(gs[w].0 <= gs[w].1 && gs[w].1 < n);
        }
        assert forall|x: usize, y: usize, c: EColor| x < n && y < n implies #[trigger] m2.cmult(x, y, c) == acmult(
            m,
            m.alive_list()[x as int],
            m.alive_list()[y as int],
            c,
        ) by {
            let lo: nat = if x <= y { x as nat } else { y as nat };
            let hi: nat = if x <= y { y as nat } else { x as nat };
            let h = c == EColor::H;
            crate::seqs::lemma_count_if_agree(expand(gs2), joins(x, y, c), joins(lo as usize, hi as usize, c));
            lemma_expand_count(gs2, n, lo, hi, c);
            lemma_grouping_sum(gs, rank, gs2, gs.len() as int, n, lo, hi, h);
            lemma_grp_sum_rank(gs, rank, id, lo, hi, h, gs.len() as int);
            lemma_grouping_sum(rr, id, gs, rr.len() as int, n, lo, hi, h);
            lemma_render_sum(m, lo, hi, h);
            assert(edge_color_of(h) == c);
            crate::graph::lemma_cmult_sym(m, m.alive_list()[x as int], m.alive_list()[y as int], c);
        }
    }
}

} // verus!
