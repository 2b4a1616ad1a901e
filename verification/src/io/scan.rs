//! Character-level scanning: Unicode whitespace, trimming, splitting at
//! whitespace, ASCII case folding and hex / decimal digit classes.

use vstd::prelude::*;

verus! {

/// `char::is_whitespace`: the Unicode `White_Space` characters.
pub open spec fn is_ws(c: char) -> bool {
    let u = c as u32;
    ||| 9 <= u <= 13
    ||| u == 32
    ||| u == 0x85
    ||| u == 0xA0
    ||| u == 0x1680
    ||| 0x2000 <= u <= 0x200A
    ||| u == 0x2028
    ||| u == 0x2029
    ||| u == 0x202F
    ||| u == 0x205F
    ||| u == 0x3000
}

/// `[0-9a-fA-F]`.
pub open spec fn is_hex_char(c: char) -> bool {
    ('0' <= c && c <= '9') || ('a' <= c && c <= 'f') || ('A' <= c && c <= 'F')
}

/// `[0-9]`.
pub open spec fn is_dec_char(c: char) -> bool {
    '0' <= c && c <= '9'
}

/// ASCII lowercase of one character (others unchanged).
pub open spec fn lower(c: char) -> char {
    if 'A' <= c && c <= 'Z' {
        ((c as u32) + 32) as char
    } else {
        c
    }
}

/// `str::to_ascii_lowercase`.
pub open spec fn lower_seq(s: Seq<char>) -> Seq<char> {
    s.map_values(|c: char| lower(c))
}

/// The first index `>= i` holding `c` (`s.len()` when there is none).
pub open spec fn find_from(s: Seq<char>, c: char, i: nat) -> nat
    decreases s.len() - i,
{
    if i >= s.len() {
        s.len()
    } else if s[i as int] == c {
        i
    } else {
        find_from(s, c, i + 1)
    }
}

/// The first index `>= i` that is not whitespace (`s.len()` when none).
pub open spec fn skip_ws(s: Seq<char>, i: nat) -> nat
    decreases s.len() - i,
{
    if i >= s.len() {
        s.len()
    } else if is_ws(s[i as int]) {
        skip_ws(s, i + 1)
    } else {
        i
    }
}

/// The first index `>= i` that is whitespace (`s.len()` when none).
pub open spec fn skip_word(s: Seq<char>, i: nat) -> nat
    decreases s.len() - i,
{
    if i >= s.len() {
        s.len()
    } else if is_ws(s[i as int]) {
        i
    } else {
        skip_word(s, i + 1)
    }
}

/// The end of `s.take(j)` once trailing whitespace is dropped.
pub open spec fn trail_end(s: Seq<char>, j: nat) -> nat
    decreases j,
{
    if j == 0 || j > s.len() {
        j
    } else if is_ws(s[j - 1]) {
        trail_end(s, (j - 1) as nat)
    } else {
        j
    }
}

/// `str::trim`.
pub open spec fn trim(s: Seq<char>) -> Seq<char> {
    let a = skip_ws(s, 0);
    if a >= s.len() {
        Seq::empty()
    } else {
        s.subrange(a as int, trail_end(s, s.len()) as int)
    }
}

/// `str::split_whitespace`, from index `i` on.
pub open spec fn words_from(s: Seq<char>, i: nat) -> Seq<Seq<char>>
    decreases s.len() - i,
{
    let a = skip_ws(s, i);
    if a >= s.len() {
        Seq::empty()
    } else {
        let b = skip_word(s, a);
        proof {
            lemma_skip_ws(s, i);
            lemma_skip_word(s, a);
        }
        seq![s.subrange(a as int, b as int)] + words_from(s, b)
    }
}

/// `str::split_whitespace`.
pub open spec fn words(s: Seq<char>) -> Seq<Seq<char>> {
    words_from(s, 0)
}

pub proof fn lemma_find_from(s: Seq<char>, c: char, i: nat)
    ensures
        i <= s.len() ==> i <= find_from(s, c, i) <= s.len(),
        find_from(s, c, i) < s.len() ==> s[find_from(s, c, i) as int] == c,
        forall|k: int| i <= k < find_from(s, c, i) ==> s[k] != c,
    decreases s.len() - i,
{
    if i < s.len() && s[i as int] != c {
        lemma_find_from(s, c, i + 1);
    }
}

pub proof fn lemma_skip_ws(s: Seq<char>, i: nat)
    ensures
        i <= s.len() ==> i <= skip_ws(s, i) <= s.len(),
        i > s.len() ==> skip_ws(s, i) == s.len(),
        skip_ws(s, i) < s.len() ==> !is_ws(s[skip_ws(s, i) as int]),
        forall|k: int| i <= k < skip_ws(s, i) ==> is_ws(s[k]),
    decreases s.len() - i,
{
    if i < s.len() && is_ws(s[i as int]) {
        lemma_skip_ws(s, i + 1);
    }
}

pub proof fn lemma_skip_word(s: Seq<char>, i: nat)
    ensures
        i <= s.len() ==> i <= skip_word(s, i) <= s.len(),
        i > s.len() ==> skip_word(s, i) == s.len(),
        i < s.len() && !is_ws(s[i as int]) ==> skip_word(s, i) > i,
        skip_word(s, i) < s.len() ==> is_ws(s[skip_word(s, i) as int]),
        forall|k: int| i <= k < skip_word(s, i) ==> !is_ws(s[k]),
    decreases s.len() - i,
{
    if i < s.len() && !is_ws(s[i as int]) {
        lemma_skip_word(s, i + 1);
    }
}

pub proof fn lemma_trail_end(s: Seq<char>, j: nat)
    requires
        j <= s.len(),
    ensures
        trail_end(s, j) <= j,
        trail_end(s, j) > 0 ==> !is_ws(s[trail_end(s, j) - 1]),
        forall|k: int| trail_end(s, j) <= k < j ==> is_ws(s[k]),
    decreases j,
{
    if j > 0 && is_ws(s[j - 1]) {
        lemma_trail_end(s, (j - 1) as nat);
    }
}

/// Shape of `trim`: it is the stretch between the first and the last
/// non-whitespace characters.
pub proof fn lemma_trim(s: Seq<char>)
    ensures
        trim(s).len() == 0 <==> forall|k: int| 0 <= k < s.len() ==> is_ws(s[k]),
        trim(s).len() > 0 ==> !is_ws(trim(s)[0]) && !is_ws(trim(s).last()),
{
    lemma_skip_ws(s, 0);
    lemma_trail_end(s, s.len());
    let a = skip_ws(s, 0);
    if a < s.len() {
        let b = trail_end(s, s.len());
        if b <= a {
            assert(is_ws(s[a as int]));
        }
    }
}

/// `char::is_whitespace`.
pub fn char_is_ws(c: char) -> (r: bool)
    ensures
        r == is_ws(c),
{
    let u = c as u32;
    (9 <= u && u <= 13) || u == 32 || u == 0x85 || u == 0xA0 || u == 0x1680 || (0x2000 <= u && u
        <= 0x200A) || u == 0x2028 || u == 0x2029 || u == 0x202F || u == 0x205F || u == 0x3000
}

/// `s[a..b]` as a new vector.
pub fn slice_chars(s: &Vec<char>, a: usize, b: usize) -> (r: Vec<char>)
    requires
        a <= b <= s.len(),
    ensures
        r@ == s@.subrange(a as int, b as int),
{
    let mut r: Vec<char> = Vec::new();
    let mut i = a;
    while i < b
        invariant
            a <= i <= b <= s.len(),
            r@ == s@.subrange(a as int, i as int),
        decreases b - i,
    {
        r.push(s[i]);
        i += 1;
        proof {
            assert(r@ =~= s@.subrange(a as int, i as int));
        }
    }
    r
}

/// The first index `>= i` holding `c`, or `s.len()`.
pub fn find_char(s: &Vec<char>, c: char, i: usize) -> (r: usize)
    requires
        i <= s.len(),
    ensures
        r == find_from(s@, c, i as nat),
{
    let mut k = i;
    while k < s.len() && s[k] != c
        invariant
            i <= k <= s.len(),
            find_from(s@, c, i as nat) == find_from(s@, c, k as nat),
        decreases s.len() - k,
    {
        k += 1;
    }
    k
}

/// The first non-whitespace index `>= i`, or `s.len()`.
pub fn skip_ws_at(s: &Vec<char>, i: usize) -> (r: usize)
    requires
        i <= s.len(),
    ensures
        r == skip_ws(s@, i as nat),
{
    let mut k = i;
    while k < s.len() && char_is_ws(s[k])
        invariant
            i <= k <= s.len(),
            skip_ws(s@, i as nat) == skip_ws(s@, k as nat),
        decreases s.len() - k,
    {
        k += 1;
    }
    k
}

/// The first whitespace index `>= i`, or `s.len()`.
pub fn skip_word_at(s: &Vec<char>, i: usize) -> (r: usize)
    requires
        i <= s.len(),
    ensures
        r == skip_word(s@, i as nat),
{
    let mut k = i;
    while k < s.len() && !char_is_ws(s[k])
        invariant
            i <= k <= s.len(),
            skip_word(s@, i as nat) == skip_word(s@, k as nat),
        decreases s.len() - k,
    {
        k += 1;
    }
    k
}

/// `str::trim`.
pub fn trim_chars(s: &Vec<char>) -> (r: Vec<char>)
    ensures
        r@ == trim(s@),
{
    let a = skip_ws_at(s, 0);
    if a >= s.len() {
        return Vec::new();
    }
    let mut b = s.len();
    while b > 0 && char_is_ws(s[b - 1])
        invariant
            b <= s.len(),
            trail_end(s@, s.len() as nat) == trail_end(s@, b as nat),
        decreases b,
    {
        b -= 1;
    }
    proof {
        lemma_skip_ws(s@, 0);
        lemma_trail_end(s@, s.len() as nat);
        if b <= a {
            assert(!is_ws(s@[a as int]));
        }
    }
    slice_chars(s, a, b)
}

/// `str::split_whitespace`, collected.
pub fn split_words(s: &Vec<char>) -> (r: Vec<Vec<char>>)
    ensures
        r@.map_values(|w: Vec<char>| w@) == words(s@),
{
    let mut r: Vec<Vec<char>> = Vec::new();
    let mut i: usize = 0;
    while i < s.len()
        invariant
            i <= s.len(),
            words(s@) == r@.map_values(|w: Vec<char>| w@) + words_from(s@, i as nat),
        decreases s.len() - i,
    {
        let a = skip_ws_at(s, i);
        proof {
            lemma_skip_ws(s@, i as nat);
        }
        if a >= s.len() {
            proof {
                assert(words_from(s@, i as nat) =~= Seq::<Seq<char>>::empty());
                assert(words(s@) =~= r@.map_values(|w: Vec<char>| w@) + words_from(s@, s.len() as nat));
            }
            i = s.len();
        } else {
            let b = skip_word_at(s, a);
            proof {
                lemma_skip_word(s@, a as nat);
            }
            let w = slice_chars(s, a, b);
            let ghost before = r@.map_values(|w: Vec<char>| w@);
            r.push(w);
            proof {
                assert(r@.map_values(|w: Vec<char>| w@) =~= before.push(s@.subrange(a as int, b as int)));
                assert(words_from(s@, i as nat) == seq![s@.subrange(a as int, b as int)] + words_from(
                    s@,
                    b as nat,
                ));
                assert(words(s@) =~= r@.map_values(|w: Vec<char>| w@) + words_from(s@, b as nat));
            }
            i = b;
        }
    }
    proof {
        assert(words_from(s@, i as nat) =~= Seq::<Seq<char>>::empty());
        assert(r@.map_values(|w: Vec<char>| w@) + words_from(s@, i as nat) =~= r@.map_values(
            |w: Vec<char>| w@,
        ));
    }
    r
}

/// `char::to_ascii_lowercase`.
pub fn lower_char(c: char) -> (r: char)
    ensures
        r == lower(c),
{
    if 'A' <= c && c <= 'Z' {
        ((c as u8) + 32) as char
    } else {
        c
    }
}

/// `str::to_ascii_lowercase`.
pub fn lower_chars(s: &Vec<char>) -> (r: Vec<char>)
    ensures
        r@ == lower_seq(s@),
{
    let mut r: Vec<char> = Vec::new();
    let mut i: usize = 0;
    while i < s.len()
        invariant
            i <= s.len(),
            r@ == lower_seq(s@.take(i as int)),
        decreases s.len() - i,
    {
        r.push(lower_char(s[i]));
        i += 1;
        proof {
            assert(r@ =~= lower_seq(s@.take(i as int)));
        }
    }
    proof {
        assert(s@.take(i as int) =~= s@);
    }
    r
}

/// Every character of `s` is a hex digit.
pub open spec fn all_hex(s: Seq<char>) -> bool {
    forall|k: int| 0 <= k < s.len() ==> is_hex_char(s[k])
}

/// Every character of `s` is a decimal digit.
pub open spec fn all_dec(s: Seq<char>) -> bool {
    forall|k: int| 0 <= k < s.len() ==> is_dec_char(s[k])
}

pub fn chars_all_hex(s: &Vec<char>) -> (r: bool)
    ensures
        r == all_hex(s@),
{
    let mut i: usize = 0;
    while i < s.len()
        invariant
            i <= s.len(),
            forall|k: int| 0 <= k < i ==> is_hex_char(s@[k]),
        decreases s.len() - i,
    {
        let c = s[i];
        if !(('0' <= c && c <= '9') || ('a' <= c && c <= 'f') || ('A' <= c && c <= 'F')) {
            return false;
        }
        i += 1;
    }
    true
}

pub fn chars_all_dec(s: &Vec<char>) -> (r: bool)
    ensures
        r == all_dec(s@),
{
    let mut i: usize = 0;
    while i < s.len()
        invariant
            i <= s.len(),
            forall|k: int| 0 <= k < i ==> is_dec_char(s@[k]),
        decreases s.len() - i,
    {
        let c = s[i];
        if !('0' <= c && c <= '9') {
            return false;
        }
        i += 1;
    }
    true
}

} // verus!

verus! {

/// Append the characters of `s`.
pub fn append_chars(out: &mut Vec<char>, s: &Vec<char>)
    ensures
        final(out)@ == old(out)@ + s@,
{
    let mut i: usize = 0;
    while i < s.len()
        invariant
            i <= s.len(),
            out@ == old(out)@ + s@.take(i as int),
        decreases s.len() - i,
    {
        out.push(s[i]);
        i += 1;
        proof {
            assert(out@ =~= old(out)@ + s@.take(i as int));
        }
    }
    proof {
        assert(s@.take(i as int) =~= s@);
    }
}

/// Equality of two character vectors.
pub fn chars_eq(a: &Vec<char>, b: &Vec<char>) -> (r: bool)
    ensures
        r == (a@ == b@),
{
    if a.len() != b.len() {
        return false;
    }
    let mut i: usize = 0;
    while i < a.len()
        invariant
            a.len() == b.len(),
            i <= a.len(),
            a@.take(i as int) == b@.take(i as int),
        decreases a.len() - i,
    {
        if a[i] != b[i] {
            assert(a@[i as int] != b@[i as int]);
            return false;
        }
        i += 1;
        proof {
            assert(a@.take(i as int) =~= b@.take(i as int));
        }
    }
    proof {
        assert(a@ =~= a@.take(i as int));
        assert(b@ =~= b@.take(i as int));
    }
    true
}

/// Equality with a literal.
pub fn chars_eq_str(a: &Vec<char>, s: &str) -> (r: bool)
    ensures
        r == (a@ == s@),
{
    let b = crate::text::str_to_chars(s);
    chars_eq(a, &b)
}

} // verus!
