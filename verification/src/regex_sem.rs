//! What the regular expressions that the GBNF reader writes match: a
//! reading of the expression syntax (alternation, concatenation, the
//! quantifiers `*`, `+`, `?`, groups, classes, escapes and `.`) as sets of
//! strings, and the laws that the translation of literals and of quantified
//! pieces keeps under that reading. Constructs outside it (anchors, counted
//! and lazy repetition, flags, Perl classes, braced escapes) are read as
//! matching nothing, and set operations inside a class are read character
//! by character.
use vstd::prelude::*;
use crate::gbnf::{escaped_literal, regex_escaped, regex_meta, wrapped_for_quant};

verus! {

/// `o` with `k` added to the length it holds.
pub open spec fn shifted(o: Option<int>, k: int) -> Option<int> {
    match o {
        Some(m) => Some(m + k),
        None => None,
    }
}

/// The value of a hexadecimal digit.
pub open spec fn hex_digit(c: char) -> Option<int> {
    if '0' <= c && c <= '9' {
        Some(c as int - 48)
    } else if 'a' <= c && c <= 'f' {
        Some(c as int - 87)
    } else if 'A' <= c && c <= 'F' {
        Some(c as int - 55)
    } else {
        None
    }
}

/// The value of a string of hexadecimal digits.
pub open spec fn hex_value(d: Seq<char>) -> Option<int>
    decreases d.len(),
{
    if d.len() == 0 {
        Some(0)
    } else {
        match (hex_value(d.drop_last()), hex_digit(d.last())) {
            (Some(a), Some(b)) => Some(a * 16 + b),
            _ => None,
        }
    }
}

/// The character with code `v`, where `v` is a Unicode scalar value.
pub open spec fn code_char(v: int) -> Option<char> {
    if (0 <= v && v <= 0xD7FF) || (0xE000 <= v && v <= 0x10FFFF) {
        Some(v as char)
    } else {
        None
    }
}

/// The character whose code the hexadecimal digits `d` write.
pub open spec fn hex_char(d: Seq<char>) -> Option<char> {
    match hex_value(d) {
        Some(v) => code_char(v),
        None => None,
    }
}

/// An ASCII character that is neither a letter nor a digit nor `<`, `>`:
/// a backslash before it stands for the character itself.
pub open spec fn escapeable(c: char) -> bool {
    (c as int) < 128 && !('0' <= c && c <= '9') && !('a' <= c && c <= 'z') && !('A' <= c
        && c <= 'Z') && c != '<' && c != '>'
}

/// The character an escape atom of the expression syntax stands for:
/// `\` before a meta or punctuation character, `\a`, `\f`, `\t`, `\n`,
/// `\r`, `\v`, and `\x`, `\u`, `\U` with two, four or eight hexadecimal
/// digits. Other escapes stand for no single character here.
pub open spec fn esc_value(a: Seq<char>) -> Option<char> {
    if a.len() == 2 {
        let c = a[1];
        if regex_meta(c) || escapeable(c) {
            Some(c)
        } else if c == 'a' {
            Some('\x07')
        } else if c == 'f' {
            Some('\x0C')
        } else if c == 't' {
            Some('\t')
        } else if c == 'n' {
            Some('\n')
        } else if c == 'r' {
            Some('\r')
        } else if c == 'v' {
            Some('\x0B')
        } else {
            None
        }
    } else if a.len() == 4 && a[1] == 'x' {
        hex_char(a.subrange(2, 4))
    } else if a.len() == 6 && a[1] == 'u' {
        hex_char(a.subrange(2, 6))
    } else if a.len() == 10 && a[1] == 'U' {
        hex_char(a.subrange(2, 10))
    } else {
        None
    }
}

/// The length of the rest of a class, `s` starting after its `[` (and
/// `^`), up to and including the `]` that closes it; a `]` first in the
/// class is one of its characters, and a backslash takes the next character.
pub open spec fn class_rest(s: Seq<char>, first: bool) -> Option<int>
    decreases s.len(),
{
    if s.len() == 0 {
        None
    } else if s[0] == '\\' {
        if s.len() >= 2 {
            shifted(class_rest(s.skip(2), false), 2)
        } else {
            None
        }
    } else if s[0] == ']' && !first {
        Some(1)
    } else {
        shifted(class_rest(s.skip(1), false), 1)
    }
}

/// The length of the class that `s` starts with.
pub open spec fn class_len(s: Seq<char>) -> Option<int> {
    if s.len() == 0 {
        None
    } else if s.len() >= 2 && s[1] == '^' {
        shifted(class_rest(s.skip(2), true), 2)
    } else {
        shifted(class_rest(s.skip(1), true), 1)
    }
}

/// The length of `s` up to and including the `)` that closes the innermost
/// of `depth` open groups, escapes and classes taken whole.
pub open spec fn close_len(s: Seq<char>, depth: nat) -> Option<int>
    decreases s.len(),
{
    if s.len() == 0 {
        None
    } else if s[0] == '\\' {
        if s.len() >= 2 {
            shifted(close_len(s.skip(2), depth), 2)
        } else {
            None
        }
    } else if s[0] == '[' {
        match class_len(s) {
            Some(k) => if 1 <= k && k <= s.len() {
                shifted(close_len(s.skip(k), depth), k)
            } else {
                None
            },
            None => None,
        }
    } else if s[0] == '(' {
        shifted(close_len(s.skip(1), depth + 1), 1)
    } else if s[0] == ')' {
        if depth <= 1 {
            Some(1)
        } else {
            shifted(close_len(s.skip(1), (depth - 1) as nat), 1)
        }
    } else {
        shifted(close_len(s.skip(1), depth), 1)
    }
}

/// The length of an escape atom by the letter after its backslash.
pub open spec fn esc_len(r: Seq<char>) -> int {
    if r.len() >= 2 && r[1] == 'x' {
        4
    } else if r.len() >= 2 && r[1] == 'u' {
        6
    } else if r.len() >= 2 && r[1] == 'U' {
        10
    } else {
        2
    }
}

/// The length of the atom that `r` starts with: an escape, a class, a
/// group up to its closing parenthesis, or one character.
pub open spec fn item_end(r: Seq<char>) -> Option<int> {
    if r.len() == 0 {
        None
    } else if r[0] == '\\' {
        if esc_len(r) <= r.len() {
            Some(esc_len(r))
        } else {
            None
        }
    } else if r[0] == '[' {
        class_len(r)
    } else if r[0] == '(' {
        shifted(close_len(r.skip(1), 1), 1)
    } else {
        Some(1)
    }
}

/// A quantifier character.
pub open spec fn is_quant(c: char) -> bool {
    c == '*' || c == '+' || c == '?'
}

/// The length of the quantifier at position `e` of `r` (zero where none).
pub open spec fn quant_after(r: Seq<char>, e: int) -> int {
    if 0 <= e < r.len() && is_quant(r[e]) {
        1
    } else {
        0
    }
}

/// The length of the first alternative of `r`: its quantified atoms up to
/// a `|` outside of them.
pub open spec fn alt_len(r: Seq<char>) -> int
    decreases r.len(),
{
    if r.len() == 0 || r[0] == '|' {
        0
    } else {
        match item_end(r) {
            Some(e) => if 1 <= e && e <= r.len() {
                let n = e + quant_after(r, e);
                n + alt_len(r.skip(n))
            } else {
                r.len() as int
            },
            None => r.len() as int,
        }
    }
}

/// `r` matches the whole of `w`: one of its alternatives does.
pub open spec fn rmatch(r: Seq<char>, w: Seq<char>) -> bool
    decreases r.len(), 5int, w.len(), 0int,
{
    let a = alt_len(r);
    if 0 <= a && a <= r.len() {
        cmatch(r.take(a), w) || (a < r.len() && rmatch(r.skip(a + 1), w))
    } else {
        false
    }
}

/// A sequence of quantified atoms `r` matches `w`: `w` splits into a part
/// that the first quantified atom matches and a rest that the others match.
pub open spec fn cmatch(r: Seq<char>, w: Seq<char>) -> bool
    decreases r.len(), 4int, w.len(), w.len() + 2,
{
    if r.len() == 0 {
        w.len() == 0
    } else {
        csplit(r, w, 0)
    }
}

/// `cmatch` with the first quantified atom of `r` matching `w.take(j)` for
/// some `j` from `k` on.
pub open spec fn csplit(r: Seq<char>, w: Seq<char>, k: int) -> bool
    decreases r.len(), 4int, w.len(), w.len() + 1 - k,
{
    match item_end(r) {
        Some(e) => if 1 <= e && e <= r.len() && 0 <= k && k <= w.len() {
            let n = e + quant_after(r, e);
            (qmatch(r.take(e), r.subrange(e, n), w.take(k)) && cmatch(r.skip(n), w.skip(k)))
                || csplit(r, w, k + 1)
        } else {
            false
        },
        None => false,
    }
}

/// The atom `a` under the quantifier `q` (empty, `?`, `*` or `+`) matches `u`.
pub open spec fn qmatch(a: Seq<char>, q: Seq<char>, u: Seq<char>) -> bool
    decreases a.len(), 3int, u.len(), 0int,
{
    if q.len() == 0 {
        amatch(a, u)
    } else if q[0] == '?' {
        u.len() == 0 || amatch(a, u)
    } else if q[0] == '*' {
        astar(a, u)
    } else {
        aplus(a, u, 0)
    }
}

/// `u` splits, at some `j` from `k` on, into a string that the atom `a`
/// matches and a concatenation of such strings.
pub open spec fn aplus(a: Seq<char>, u: Seq<char>, k: int) -> bool
    decreases a.len(), 2int, u.len(), u.len() + 1 - k,
{
    if 0 <= k && k <= u.len() {
        (amatch(a, u.take(k)) && astar(a, u.skip(k))) || aplus(a, u, k + 1)
    } else {
        false
    }
}

/// `u` is a concatenation of strings that the atom `a` matches.
pub open spec fn astar(a: Seq<char>, u: Seq<char>) -> bool
    decreases a.len(), 1int, u.len(), u.len() + 2,
{
    u.len() == 0 || astep(a, u, 1)
}

/// `u` splits, at some `j` from `k` on (`j` at least one), into a string
/// that the atom `a` matches and a concatenation of such strings.
pub open spec fn astep(a: Seq<char>, u: Seq<char>, k: int) -> bool
    decreases a.len(), 1int, u.len(), u.len() + 1 - k,
{
    if 1 <= k && k <= u.len() {
        (amatch(a, u.take(k)) && astar(a, u.skip(k))) || astep(a, u, k + 1)
    } else {
        false
    }
}

/// The atom `a` matches `u`: an escape or a class matches one character, a
/// group what its body matches (`(?:` opens a group without capture), `.`
/// any character but a line feed, another meta character nothing, and any
/// other character itself.
pub open spec fn amatch(a: Seq<char>, u: Seq<char>) -> bool
    decreases a.len(), 0int, u.len(), 0int,
{
    if a.len() == 0 {
        false
    } else if a[0] == '\\' {
        u.len() == 1 && esc_value(a) == Some(u[0])
    } else if a[0] == '[' {
        a.len() >= 2 && u.len() == 1 && class_has(a, u[0])
    } else if a[0] == '(' {
        if a.len() >= 4 && a[1] == '?' && a[2] == ':' {
            rmatch(a.subrange(3, a.len() - 1), u)
        } else if a.len() >= 2 && a[1] != '?' {
            rmatch(a.subrange(1, a.len() - 1), u)
        } else {
            false
        }
    } else if a[0] == '.' {
        u.len() == 1 && u[0] != '\n'
    } else if regex_meta(a[0]) {
        false
    } else {
        u == seq![a[0]]
    }
}

/// The class `a` (with its brackets) holds `ch`: a `^` first negates it,
/// and its characters and ranges are read one by one.
pub open spec fn class_has(a: Seq<char>, ch: char) -> bool {
    let body = a.subrange(1, a.len() - 1);
    if body.len() > 0 && body[0] == '^' {
        !class_lists(body.skip(1), ch)
    } else {
        class_lists(body, ch)
    }
}

/// `ch` is written in `b` or lies in a range `x-y` written there.
pub open spec fn class_lists(b: Seq<char>, ch: char) -> bool {
    exists|i: int|
        0 <= i < b.len() && (#[trigger] b[i] == ch || (i + 2 < b.len() && b[i + 1] == '-' && b[i]
            <= ch && ch <= b[i + 2]))
}

/// `w` is a concatenation of strings that `c` matches.
pub open spec fn rstar(c: Seq<char>, w: Seq<char>) -> bool
    decreases w.len(),
{
    w.len() == 0 || exists|k: int|
        0 < k <= w.len() && #[trigger] rmatch(c, w.take(k)) && rstar(c, w.skip(k))
}

/// `w` is made of zero or one (`?`), any number (`*`) or at least one
/// (`+`) strings that `c` matches.
pub open spec fn repeated(q: char, c: Seq<char>, w: Seq<char>) -> bool {
    if q == '?' {
        w.len() == 0 || rmatch(c, w)
    } else if q == '*' {
        rstar(c, w)
    } else {
        exists|k: int| 0 <= k <= w.len() && #[trigger] rmatch(c, w.take(k)) && rstar(c, w.skip(k))
    }
}

/// `c` reads as one regular expression: a `)` after it closes a group
/// opened before it (its parentheses balance), a single character is a
/// plain one or `.`, and where it opens with `[` or `(` and ends with `]`
/// or `)`, that opening class or group (not one of the form `(?...)`) is
/// the whole of it.
pub open spec fn regex_piece(c: Seq<char>) -> bool {
    &&& close_len(c.push(')'), 1) == Some(c.len() + 1int)
    &&& (c.len() == 1 ==> (!regex_meta(c[0]) || c[0] == '.'))
    &&& (c.len() >= 1 && c[0] == '[' && c.last() == ']' ==> class_len(c) == Some(c.len() as int))
    &&& (c.len() >= 2 && c[0] == '(' && c.last() == ')' ==> item_end(c) == Some(c.len() as int)
        && c[1] != '?')
}

// ---------------------------------------------------------------- lengths

proof fn lemma_class_rest_bounds(s: Seq<char>, first: bool)
    ensures
        class_rest(s, first) matches Some(m) ==> 1 <= m <= s.len(),
    decreases s.len(),
{
    if s.len() == 0 {
    } else if s[0] == '\\' {
        if s.len() >= 2 {
            lemma_class_rest_bounds(s.skip(2), false);
        }
    } else if s[0] == ']' && !first {
    } else {
        lemma_class_rest_bounds(s.skip(1), false);
    }
}

proof fn lemma_class_len_bounds(s: Seq<char>)
    ensures
        class_len(s) matches Some(m) ==> 1 <= m <= s.len(),
{
    if s.len() >= 2 && s[1] == '^' {
        lemma_class_rest_bounds(s.skip(2), true);
    } else if s.len() >= 1 {
        lemma_class_rest_bounds(s.skip(1), true);
    }
}

proof fn lemma_close_bounds(s: Seq<char>, depth: nat)
    ensures
        close_len(s, depth) matches Some(m) ==> 1 <= m <= s.len(),
    decreases s.len(),
{
    if s.len() == 0 {
    } else if s[0] == '\\' {
        if s.len() >= 2 {
            lemma_close_bounds(s.skip(2), depth);
        }
    } else if s[0] == '[' {
        match class_len(s) {
            Some(k) => if 1 <= k && k <= s.len() {
                lemma_close_bounds(s.skip(k), depth);
            },
            None => {},
        }
    } else if s[0] == '(' {
        lemma_close_bounds(s.skip(1), depth + 1);
    } else if s[0] == ')' {
        if depth > 1 {
            lemma_close_bounds(s.skip(1), (depth - 1) as nat);
        }
    } else {
        lemma_close_bounds(s.skip(1), depth);
    }
}

proof fn lemma_item_end_bounds(r: Seq<char>)
    ensures
        item_end(r) matches Some(e) ==> 1 <= e <= r.len(),
{
    if r.len() > 0 && r[0] == '[' {
        lemma_class_len_bounds(r);
    } else if r.len() > 0 && r[0] == '(' {
        lemma_close_bounds(r.skip(1), 1);
    }
}

// ---------------------------------------------------------------- prefixes

proof fn lemma_class_rest_prefix(s: Seq<char>, t: Seq<char>, first: bool)
    requires
        class_rest(s, first) is Some,
    ensures
        class_rest(s + t, first) == class_rest(s, first),
    decreases s.len(),
{
    let st = s + t;
    if s[0] == '\\' {
        assert(st.skip(2) =~= s.skip(2) + t);
        lemma_class_rest_prefix(s.skip(2), t, false);
    } else if s[0] == ']' && !first {
    } else {
        assert(st.skip(1) =~= s.skip(1) + t);
        lemma_class_rest_prefix(s.skip(1), t, false);
    }
}

proof fn lemma_class_len_prefix(s: Seq<char>, t: Seq<char>)
    requires
        s.len() >= 1,
        class_len(s) is Some,
    ensures
        class_len(s + t) == class_len(s),
{
    let st = s + t;
    if s.len() >= 2 && s[1] == '^' {
        assert(st.skip(2) =~= s.skip(2) + t);
        lemma_class_rest_prefix(s.skip(2), t, true);
    } else {
        assert(st.skip(1) =~= s.skip(1) + t);
        lemma_class_rest_prefix(s.skip(1), t, true);
    }
}

proof fn lemma_close_prefix(s: Seq<char>, t: Seq<char>, depth: nat)
    requires
        close_len(s, depth) is Some,
    ensures
        close_len(s + t, depth) == close_len(s, depth),
    decreases s.len(),
{
    let st = s + t;
    if s[0] == '\\' {
        assert(st.skip(2) =~= s.skip(2) + t);
        lemma_close_prefix(s.skip(2), t, depth);
    } else if s[0] == '[' {
        let k = class_len(s).unwrap();
        lemma_class_len_prefix(s, t);
        assert(st.skip(k) =~= s.skip(k) + t);
        lemma_close_prefix(s.skip(k), t, depth);
    } else if s[0] == '(' {
        assert(st.skip(1) =~= s.skip(1) + t);
        lemma_close_prefix(s.skip(1), t, depth + 1);
    } else if s[0] == ')' {
        if depth > 1 {
            assert(st.skip(1) =~= s.skip(1) + t);
            lemma_close_prefix(s.skip(1), t, (depth - 1) as nat);
        }
    } else {
        assert(st.skip(1) =~= s.skip(1) + t);
        lemma_close_prefix(s.skip(1), t, depth);
    }
}

// ---------------------------------------------------------------- splits

/// Some `j` from `lo` on splits `u` into a string the atom `a` matches and
/// a concatenation of such strings.
pub open spec fn star_split(a: Seq<char>, u: Seq<char>, lo: int) -> bool {
    exists|j: int| lo <= j <= u.len() && #[trigger] amatch(a, u.take(j)) && astar(a, u.skip(j))
}

/// Some `j` from `lo` on splits `w` into a string the quantified atom
/// `a`, `q` matches and a string that `rest` matches.
pub open spec fn cat_split(a: Seq<char>, q: Seq<char>, rest: Seq<char>, w: Seq<char>, lo: int) -> bool {
    exists|j: int| lo <= j <= w.len() && #[trigger] qmatch(a, q, w.take(j)) && cmatch(rest, w.skip(j))
}

proof fn lemma_astep(a: Seq<char>, u: Seq<char>, k: int)
    requires
        1 <= k,
    ensures
        astep(a, u, k) == star_split(a, u, k),
    decreases u.len() + 1 - k,
{
    if k <= u.len() {
        lemma_astep(a, u, k + 1);
        if amatch(a, u.take(k)) && astar(a, u.skip(k)) {
            assert(star_split(a, u, k));
        } else if star_split(a, u, k) {
            let j = choose|j: int| k <= j <= u.len() && #[trigger] amatch(a, u.take(j)) && astar(a, u.skip(j));
            assert(j != k);
            assert(star_split(a, u, k + 1));
        }
        if star_split(a, u, k + 1) {
            let j = choose|j: int| k + 1 <= j <= u.len() && #[trigger] amatch(a, u.take(j)) && astar(a, u.skip(j));
            assert(star_split(a, u, k));
        }
    } else {
        if star_split(a, u, k) {
            let j = choose|j: int| k <= j <= u.len() && #[trigger] amatch(a, u.take(j)) && astar(a, u.skip(j));
            assert(false);
        }
    }
}

proof fn lemma_aplus(a: Seq<char>, u: Seq<char>, k: int)
    requires
        0 <= k,
    ensures
        aplus(a, u, k) == star_split(a, u, k),
    decreases u.len() + 1 - k,
{
    if k <= u.len() {
        lemma_aplus(a, u, k + 1);
        if amatch(a, u.take(k)) && astar(a, u.skip(k)) {
            assert(star_split(a, u, k));
        } else if star_split(a, u, k) {
            let j = choose|j: int| k <= j <= u.len() && #[trigger] amatch(a, u.take(j)) && astar(a, u.skip(j));
            assert(j != k);
            assert(star_split(a, u, k + 1));
        }
        if star_split(a, u, k + 1) {
            let j = choose|j: int| k + 1 <= j <= u.len() && #[trigger] amatch(a, u.take(j)) && astar(a, u.skip(j));
            assert(star_split(a, u, k));
        }
    } else {
        if star_split(a, u, k) {
            let j = choose|j: int| k <= j <= u.len() && #[trigger] amatch(a, u.take(j)) && astar(a, u.skip(j));
            assert(false);
        }
    }
}

proof fn lemma_csplit(r: Seq<char>, w: Seq<char>, k: int, e: int)
    requires
        0 <= k,
        item_end(r) == Some(e),
        1 <= e <= r.len(),
    ensures
        csplit(r, w, k) == cat_split(r.take(e), r.subrange(e, e + quant_after(r, e)),
            r.skip(e + quant_after(r, e)), w, k),
    decreases w.len() + 1 - k,
{
    let n = e + quant_after(r, e);
    let a = r.take(e);
    let q = r.subrange(e, n);
    let rest = r.skip(n);
    if k <= w.len() {
        lemma_csplit(r, w, k + 1, e);
        if qmatch(a, q, w.take(k)) && cmatch(rest, w.skip(k)) {
            assert(cat_split(a, q, rest, w, k));
        } else if cat_split(a, q, rest, w, k) {
            let j = choose|j: int| k <= j <= w.len() && #[trigger] qmatch(a, q, w.take(j)) && cmatch(rest, w.skip(j));
            assert(j != k);
            assert(cat_split(a, q, rest, w, k + 1));
        }
        if cat_split(a, q, rest, w, k + 1) {
            let j = choose|j: int| k + 1 <= j <= w.len() && #[trigger] qmatch(a, q, w.take(j)) && cmatch(rest, w.skip(j));
            assert(cat_split(a, q, rest, w, k));
        }
    } else {
        if cat_split(a, q, rest, w, k) {
            let j = choose|j: int| k <= j <= w.len() && #[trigger] qmatch(a, q, w.take(j)) && cmatch(rest, w.skip(j));
            assert(false);
        }
    }
}

// ---------------------------------------------------------------- one atom

/// An expression that is one atom, possibly under one quantifier, matches
/// what that quantified atom matches.
proof fn lemma_single_item(r: Seq<char>, e: int, u: Seq<char>)
    requires
        r.len() >= 1,
        r[0] != '|',
        item_end(r) == Some(e),
        e == r.len() || (e + 1 == r.len() && is_quant(r[e])),
    ensures
        rmatch(r, u) == qmatch(r.take(e), r.subrange(e, r.len() as int), u),
{
    lemma_item_end_bounds(r);
    let n = r.len() as int;
    assert(e + quant_after(r, e) == n);
    assert(r.skip(n) =~= Seq::<char>::empty());
    assert(alt_len(r.skip(n)) == 0);
    assert(alt_len(r) == n);
    assert(r.take(n) =~= r);
    let a = r.take(e);
    let q = r.subrange(e, n);
    let rest = r.skip(n);
    lemma_csplit(r, u, 0, e);
    assert(rmatch(r, u) == cmatch(r, u));
    assert(cmatch(r, u) == csplit(r, u, 0));
    let ul = u.len() as int;
    assert(u.take(ul) =~= u);
    if cat_split(a, q, rest, u, 0) {
        let k = choose|k: int| 0 <= k <= u.len() && #[trigger] qmatch(a, q, u.take(k)) && cmatch(rest, u.skip(k));
        assert(u.skip(k).len() == 0);
        assert(k == ul);
    }
    if qmatch(a, q, u) {
        assert(u.skip(ul).len() == 0);
        assert(cmatch(rest, u.skip(ul)));
        assert(qmatch(a, q, u.take(ul)));
        assert(cat_split(a, q, rest, u, 0));
    }
}

/// Where an atom matches what `c` matches, its repetitions are those of `c`.
proof fn lemma_star_same(a: Seq<char>, c: Seq<char>, v: Seq<char>)
    requires
        forall|u: Seq<char>| #[trigger] amatch(a, u) == rmatch(c, u),
    ensures
        astar(a, v) == rstar(c, v),
    decreases v.len(),
{
    if v.len() > 0 {
        lemma_astep(a, v, 1);
        assert forall|k: int| 0 < k <= v.len() implies astar(a, v.skip(k)) == rstar(c, v.skip(k)) by {
            lemma_star_same(a, c, v.skip(k));
        }
        if star_split(a, v, 1) {
            let k = choose|k: int| 1 <= k <= v.len() && #[trigger] amatch(a, v.take(k)) && astar(a, v.skip(k));
            assert(rmatch(c, v.take(k)));
            assert(rstar(c, v.skip(k)));
        }
        if rstar(c, v) {
            let k = choose|k: int|
                0 < k <= v.len() && #[trigger] rmatch(c, v.take(k)) && rstar(c, v.skip(k));
            assert(amatch(a, v.take(k)));
            assert(astar(a, v.skip(k)));
            assert(star_split(a, v, 1));
        }
    }
}

/// The wrapped piece is one atom, also with a quantifier after it, and it
/// matches what the piece matches.
proof fn lemma_wrapped_item(c: Seq<char>, q: char)
    requires
        regex_piece(c),
        is_quant(q),
    ensures
        wrapped_for_quant(c).len() >= 1,
        wrapped_for_quant(c)[0] != '|',
        item_end(wrapped_for_quant(c).push(q)) == Some(wrapped_for_quant(c).len() as int),
        forall|u: Seq<char>| #[trigger] amatch(wrapped_for_quant(c), u) == rmatch(c, u),
{
    let wr = wrapped_for_quant(c);
    let r = wr.push(q);
    let len = c.len() as int;
    if c.len() == 1 || (c.len() >= 1 && c[0] == '[' && c.last() == ']') {
        assert(wr == c);
        if c.len() == 1 {
            assert(item_end(r) == Some(1int));
            assert(item_end(c) == Some(1int));
        } else {
            assert(r =~= c + seq![q]);
            lemma_class_len_prefix(c, seq![q]);
        }
        assert(c.take(len) =~= c);
        assert(c.subrange(len, len).len() == 0);
        assert forall|u: Seq<char>| #[trigger] amatch(wr, u) == rmatch(c, u) by {
            lemma_single_item(c, len, u);
        }
    } else if c.len() >= 2 && c[0] == '(' && c.last() == ')' {
        let inner = c.subrange(1, len - 1);
        assert(wr =~= seq!['(', '?', ':'] + inner + seq![')']);
        assert(c.skip(1) =~= inner.push(')'));
        assert(close_len(c.skip(1), 1) == Some(len - 1));
        let s1 = wr.skip(1);
        let s2 = s1.skip(1);
        let s3 = s2.skip(1);
        assert(s3 =~= c.skip(1));
        assert(close_len(s2, 1) == Some(len));
        assert(close_len(s1, 1) == Some(len + 1));
        assert(r.skip(1) =~= s1 + seq![q]);
        lemma_close_prefix(s1, seq![q], 1);
        assert(wr.subrange(3, wr.len() - 1) =~= inner);
        assert(c.take(len) =~= c);
        assert(c.subrange(len, len).len() == 0);
        assert forall|u: Seq<char>| #[trigger] amatch(wr, u) == rmatch(c, u) by {
            lemma_single_item(c, len, u);
        }
    } else {
        assert(wr =~= seq!['(', '?', ':'] + c + seq![')']);
        let s1 = wr.skip(1);
        let s2 = s1.skip(1);
        let s3 = s2.skip(1);
        assert(s3 =~= c.push(')'));
        assert(close_len(s2, 1) == Some(len + 2));
        assert(close_len(s1, 1) == Some(len + 3));
        assert(r.skip(1) =~= s1 + seq![q]);
        lemma_close_prefix(s1, seq![q], 1);
        assert(wr.subrange(3, wr.len() - 1) =~= c);
    }
}

/// A quantifier after a piece that `wrap_for_quant` wrapped applies to the
/// whole piece: the wrapped piece followed by `q` matches exactly the strings made of
/// zero or one (`?`), any number of (`*`) or at least one (`+`) strings
/// that the piece matches.
pub proof fn lemma_wrap_for_quant_repeats(c: Seq<char>, q: char, w: Seq<char>)
    requires
        regex_piece(c),
        is_quant(q),
    ensures
        rmatch(wrapped_for_quant(c).push(q), w) == repeated(q, c, w),
{
    let wr = wrapped_for_quant(c);
    let r = wr.push(q);
    let e = wr.len() as int;
    lemma_wrapped_item(c, q);
    lemma_single_item(r, e, w);
    assert(r.take(e) =~= wr);
    assert(r.subrange(e, r.len() as int) =~= seq![q]);
    assert(rmatch(r, w) == qmatch(wr, seq![q], w));
    if q == '?' {
        assert(amatch(wr, w) == rmatch(c, w));
        assert(qmatch(wr, seq![q], w) == (w.len() == 0 || amatch(wr, w)));
    } else if q == '*' {
        lemma_star_same(wr, c, w);
        assert(rmatch(r, w) == repeated(q, c, w));
    } else {
        lemma_aplus(wr, w, 0);
        assert forall|k: int| 0 <= k <= w.len() implies astar(wr, w.skip(k)) == rstar(c, w.skip(k)) by {
            lemma_star_same(wr, c, w.skip(k));
        }
        if star_split(wr, w, 0) {
            let k = choose|k: int|
                0 <= k <= w.len() && #[trigger] amatch(wr, w.take(k)) && astar(wr, w.skip(k));
            assert(rmatch(c, w.take(k)));
        }
        if repeated(q, c, w) {
            let k = choose|k: int|
                0 <= k <= w.len() && #[trigger] rmatch(c, w.take(k)) && rstar(c, w.skip(k));
            assert(amatch(wr, w.take(k)));
            assert(star_split(wr, w, 0));
        }
    }
}

// ---------------------------------------------------------------- literals

/// The character a GBNF escape letter stands for after a backslash: line
/// feed, tab, carriage return, form feed, vertical tab, or the backslash,
/// quote, apostrophe or slash itself.
pub open spec fn gbnf_escape(n: char) -> Option<char> {
    if n == 'n' {
        Some('\n')
    } else if n == 't' {
        Some('\t')
    } else if n == 'r' {
        Some('\r')
    } else if n == 'f' {
        Some('\x0C')
    } else if n == 'v' {
        Some('\x0B')
    } else if n == '\\' || n == '"' || n == '\'' || n == '/' {
        Some(n)
    } else {
        None
    }
}

/// `ch` before the string `o` holds.
pub open spec fn prepend(ch: char, o: Option<Seq<char>>) -> Option<Seq<char>> {
    match o {
        Some(m) => Some(seq![ch] + m),
        None => None,
    }
}

/// The string that the contents `s` of a GBNF literal denote: an escape
/// letter after a backslash stands for its character, `\x`, `\u` and `\U`
/// with two, four or eight hexadecimal digits for the character of that
/// code, and any other character for itself; `None` where a backslash
/// starts no such escape.
pub open spec fn lit_chars(s: Seq<char>) -> Option<Seq<char>>
    decreases s.len(),
{
    if s.len() == 0 {
        Some(Seq::empty())
    } else if s[0] != '\\' {
        prepend(s[0], lit_chars(s.drop_first()))
    } else if s.len() < 2 {
        None
    } else if gbnf_escape(s[1]) is Some {
        prepend(gbnf_escape(s[1]).unwrap(), lit_chars(s.skip(2)))
    } else if s[1] == 'x' && s.len() >= 4 {
        match hex_char(s.subrange(2, 4)) {
            Some(ch) => prepend(ch, lit_chars(s.skip(4))),
            None => None,
        }
    } else if s[1] == 'u' && s.len() >= 6 {
        match hex_char(s.subrange(2, 6)) {
            Some(ch) => prepend(ch, lit_chars(s.skip(6))),
            None => None,
        }
    } else if s[1] == 'U' && s.len() >= 10 {
        match hex_char(s.subrange(2, 10)) {
            Some(ch) => prepend(ch, lit_chars(s.skip(10))),
            None => None,
        }
    } else {
        None
    }
}

/// The translation of a literal starts with a backslash or a character
/// that is not a meta character.
proof fn lemma_escaped_first(s: Seq<char>)
    ensures
        escaped_literal(s).len() > 0 ==> (escaped_literal(s)[0] == '\\' || !regex_meta(
            escaped_literal(s)[0],
        )),
{
}

/// The first character of a literal: its translation is one atom that
/// matches that character alone, followed by the translation of the rest.
proof fn lemma_lit_head(s: Seq<char>, m: Seq<char>) -> (res: (Seq<char>, int, char))
    requires
        lit_chars(s) == Some(m),
        s.len() > 0,
    ensures
        1 <= res.1 <= s.len(),
        m.len() >= 1,
        m[0] == res.2,
        lit_chars(s.skip(res.1)) == Some(m.drop_first()),
        escaped_literal(s) == res.0 + escaped_literal(s.skip(res.1)),
        res.0.len() >= 1,
        res.0[0] != '|',
        item_end(escaped_literal(s)) == Some(res.0.len() as int),
        forall|u: Seq<char>| #[trigger] amatch(res.0, u) == (u == seq![res.2]),
{
    let e = escaped_literal(s);
    if s[0] != '\\' {
        let c = s[0];
        assert(s.skip(1) =~= s.drop_first());
        let m2 = lit_chars(s.drop_first()).unwrap();
        assert(m.drop_first() =~= m2);
        let p = regex_escaped(c);
        assert(e == p + escaped_literal(s.skip(1)));
        if regex_meta(c) {
            assert(esc_value(p) == Some(c));
            assert(e[1] == c);
            assert forall|u: Seq<char>| #[trigger] amatch(p, u) == (u == seq![c]) by {
                if u.len() == 1 && u[0] == c {
                    assert(u =~= seq![c]);
                }
            }
        } else {
            assert(e[0] == c);
        }
        (p, 1, c)
    } else {
        let n = s[1];
        if gbnf_escape(n) is Some {
            let ch = gbnf_escape(n).unwrap();
            let p = seq!['\\', n];
            assert(esc_value(p) == Some(ch));
            assert(e == p + escaped_literal(s.skip(2)));
            assert(e[1] == n);
            assert(m.drop_first() =~= lit_chars(s.skip(2)).unwrap());
            assert forall|u: Seq<char>| #[trigger] amatch(p, u) == (u == seq![ch]) by {
                if u.len() == 1 && u[0] == ch {
                    assert(u =~= seq![ch]);
                }
            }
            (p, 2, ch)
        } else {
            let k: int = if n == 'x' {
                4
            } else if n == 'u' {
                6
            } else {
                10
            };
            let ch = hex_char(s.subrange(2, k)).unwrap();
            let p = s.take(k);
            assert(e == p + escaped_literal(s.skip(k)));
            assert(p.subrange(2, k) =~= s.subrange(2, k));
            assert(esc_value(p) == Some(ch));
            assert(e[1] == n);
            assert(m.drop_first() =~= lit_chars(s.skip(k)).unwrap());
            assert forall|u: Seq<char>| #[trigger] amatch(p, u) == (u == seq![ch]) by {
                if u.len() == 1 && u[0] == ch {
                    assert(u =~= seq![ch]);
                }
            }
            (p, k, ch)
        }
    }
}

/// The translation of a literal is one alternative, and as a sequence of
/// atoms it matches exactly the string that the literal denotes.
proof fn lemma_literal_cat(s: Seq<char>, m: Seq<char>)
    requires
        lit_chars(s) == Some(m),
    ensures
        alt_len(escaped_literal(s)) == escaped_literal(s).len(),
        forall|w: Seq<char>| #[trigger] cmatch(escaped_literal(s), w) == (w == m),
    decreases s.len(),
{
    let e = escaped_literal(s);
    if s.len() == 0 {
        assert(e =~= Seq::<char>::empty());
        assert(m =~= Seq::<char>::empty());
        assert forall|w: Seq<char>| #[trigger] cmatch(e, w) == (w == m) by {
            if w.len() == 0 {
                assert(w =~= m);
            }
        }
    } else {
        let (p, k, ch) = lemma_lit_head(s, m);
        let s2 = s.skip(k);
        let m2 = m.drop_first();
        let e2 = escaped_literal(s2);
        lemma_literal_cat(s2, m2);
        lemma_escaped_first(s2);
        let pl = p.len() as int;
        assert(e.skip(pl) =~= e2);
        assert(e.take(pl) =~= p);
        assert(quant_after(e, pl) == 0) by {
            if pl < e.len() {
                assert(e[pl] == e2[0]);
            }
        }
        assert(e.subrange(pl, pl) =~= Seq::<char>::empty());
        assert(alt_len(e) == pl + alt_len(e.skip(pl)));
        assert forall|w: Seq<char>| #[trigger] cmatch(e, w) == (w == m) by {
            lemma_csplit(e, w, 0, pl);
            let none = Seq::<char>::empty();
            assert(cmatch(e, w) == cat_split(p, none, e2, w, 0));
            if cat_split(p, none, e2, w, 0) {
                let j = choose|j: int|
                    0 <= j <= w.len() && #[trigger] qmatch(p, none, w.take(j)) && cmatch(e2, w.skip(j));
                assert(amatch(p, w.take(j)));
                assert(w.take(j) == seq![ch]);
                assert(w.skip(j) == m2);
                assert(w =~= w.take(j) + w.skip(j));
                assert(m =~= seq![ch] + m2);
            }
            if w == m {
                assert(m =~= seq![ch] + m2);
                assert(w.take(1) =~= seq![ch]);
                assert(w.skip(1) =~= m2);
                assert(amatch(p, w.take(1)));
                assert(qmatch(p, none, w.take(1)));
                assert(cmatch(e2, w.skip(1)));
                assert(cat_split(p, none, e2, w, 0));
            }
        }
    }
}

/// The regular expression that `escape_literal` writes for the contents of
/// a GBNF literal matches exactly the string that the literal denotes.
pub proof fn lemma_escape_literal_matches(s: Seq<char>, w: Seq<char>)
    requires
        lit_chars(s) is Some,
    ensures
        rmatch(escaped_literal(s), w) == (w == lit_chars(s).unwrap()),
{
    let m = lit_chars(s).unwrap();
    lemma_literal_cat(s, m);
    let e = escaped_literal(s);
    assert(e.take(e.len() as int) =~= e);
    assert(cmatch(e, w) == (w == m));
}

} // verus!
