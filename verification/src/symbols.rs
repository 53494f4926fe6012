//! Symbol names as character vectors, their lexicographic order, and the
//! small text utilities the grammar pipeline builds names with.
use vstd::prelude::*;

verus! {

/// A grammar symbol: the characters of its name.
pub type Sym = Vec<char>;

/// A right-hand side: a sequence of symbols.
pub type Rhs = Vec<Sym>;

/// Lexicographic order on character sequences, comparing code points
/// (the order `String` uses, since UTF-8 preserves code point order).
pub open spec fn lex_lt(a: Seq<char>, b: Seq<char>) -> bool
    decreases a.len(),
{
    if a.len() == 0 {
        b.len() > 0
    } else if b.len() == 0 {
        false
    } else if (a[0] as int) < (b[0] as int) {
        true
    } else if a[0] == b[0] {
        lex_lt(a.drop_first(), b.drop_first())
    } else {
        false
    }
}

pub proof fn lemma_lex_irreflexive(a: Seq<char>)
    ensures
        !lex_lt(a, a),
    decreases a.len(),
{
    if a.len() > 0 {
        lemma_lex_irreflexive(a.drop_first());
    }
}

pub proof fn lemma_lex_transitive(a: Seq<char>, b: Seq<char>, c: Seq<char>)
    requires
        lex_lt(a, b),
        lex_lt(b, c),
    ensures
        lex_lt(a, c),
    decreases a.len(),
{
    if a.len() > 0 && b.len() > 0 && c.len() > 0 {
        if a[0] == b[0] && b[0] == c[0] {
            lemma_lex_transitive(a.drop_first(), b.drop_first(), c.drop_first());
        }
    }
}

pub proof fn lemma_lex_total(a: Seq<char>, b: Seq<char>)
    ensures
        a == b || lex_lt(a, b) || lex_lt(b, a),
    decreases a.len(),
{
    if a.len() > 0 && b.len() > 0 {
        if a[0] == b[0] {
            lemma_lex_total(a.drop_first(), b.drop_first());
            if a.drop_first() == b.drop_first() {
                assert(a =~= seq![a[0]] + a.drop_first());
                assert(b =~= seq![b[0]] + b.drop_first());
            }
        } else {
            assert((a[0] as int) != (b[0] as int));
        }
    } else if a.len() == 0 && b.len() == 0 {
        assert(a =~= b);
    }
}

pub proof fn lemma_lex_asymmetric(a: Seq<char>, b: Seq<char>)
    requires
        lex_lt(a, b),
    ensures
        !lex_lt(b, a),
{
    if lex_lt(b, a) {
        lemma_lex_transitive(a, b, a);
        lemma_lex_irreflexive(a);
    }
}

proof fn lemma_lex_step(a: Seq<char>, b: Seq<char>, i: int)
    requires
        0 <= i < a.len(),
        i < b.len(),
        a[i] == b[i],
    ensures
        lex_lt(a.skip(i), b.skip(i)) == lex_lt(a.skip(i + 1), b.skip(i + 1)),
{
    assert(a.skip(i).drop_first() =~= a.skip(i + 1));
    assert(b.skip(i).drop_first() =~= b.skip(i + 1));
}

/// The names of a right-hand side, as character sequences.
pub open spec fn rhs_view(v: Seq<Vec<char>>) -> Seq<Seq<char>> {
    Seq::new(v.len(), |i: int| v[i]@)
}

/// Three-way comparison of two names: -1, 0 or 1.
pub fn order_sym(a: &Vec<char>, b: &Vec<char>) -> (r: i8)
    ensures
        r == -1 <==> lex_lt(a@, b@),
        r == 0 <==> a@ == b@,
        r == 1 <==> lex_lt(b@, a@),
        r == -1 || r == 0 || r == 1,
{
    proof {
        lemma_lex_total(a@, b@);
        lemma_lex_irreflexive(a@);
        if lex_lt(a@, b@) {
            lemma_lex_asymmetric(a@, b@);
        }
        assert(a@.skip(0) =~= a@);
        assert(b@.skip(0) =~= b@);
    }
    let mut i: usize = 0;
    while i < a.len() && i < b.len()
        invariant
            i <= a.len(),
            i <= b.len(),
            a@.take(i as int) =~= b@.take(i as int),
            lex_lt(a@, b@) == lex_lt(a@.skip(i as int), b@.skip(i as int)),
            lex_lt(b@, a@) == lex_lt(b@.skip(i as int), a@.skip(i as int)),
            a@ == b@ || lex_lt(a@, b@) || lex_lt(b@, a@),
            !(lex_lt(a@, b@) && lex_lt(b@, a@)),
            a@ == b@ ==> !lex_lt(a@, b@) && !lex_lt(b@, a@),
        decreases a.len() - i,
    {
        if a[i] < b[i] {
            return -1;
        }
        if b[i] < a[i] {
            return 1;
        }
        proof {
            assert(a[i as int] == b[i as int]);
            lemma_lex_step(a@, b@, i as int);
            lemma_lex_step(b@, a@, i as int);
            assert(a@.take(i + 1) =~= a@.take(i as int).push(a@[i as int]));
            assert(b@.take(i + 1) =~= b@.take(i as int).push(b@[i as int]));
        }
        i = i + 1;
    }
    if i < b.len() {
        return -1;
    }
    if i < a.len() {
        return 1;
    }
    proof {
        assert(a@ =~= a@.take(i as int));
        assert(b@ =~= b@.take(i as int));
    }
    0
}

/// Whether two names are equal.
pub fn eq_sym(a: &Vec<char>, b: &Vec<char>) -> (r: bool)
    ensures
        r == (a@ == b@),
{
    order_sym(a, b) == 0
}

/// A copy of a name.
pub fn clone_sym(a: &Vec<char>) -> (r: Vec<char>)
    ensures
        r@ == a@,
{
    let mut r: Vec<char> = Vec::new();
    let mut i: usize = 0;
    while i < a.len()
        invariant
            i <= a.len(),
            r@ =~= a@.take(i as int),
        decreases a.len() - i,
    {
        r.push(a[i]);
        i = i + 1;
    }
    proof {
        assert(a@.take(a@.len() as int) =~= a@);
    }
    r
}

/// A copy of a sequence of names.
pub fn clone_rhs(a: &Vec<Vec<char>>) -> (r: Vec<Vec<char>>)
    ensures
        rhs_view(r@) == rhs_view(a@),
{
    let mut r: Vec<Vec<char>> = Vec::new();
    let mut i: usize = 0;
    while i < a.len()
        invariant
            i <= a.len(),
            r.len() == i,
            forall|j: int| 0 <= j < i ==> #[trigger] r@[j]@ == a@[j]@,
        decreases a.len() - i,
    {
        let s = clone_sym(&a[i]);
        r.push(s);
        i = i + 1;
    }
    assert(rhs_view(r@) =~= rhs_view(a@));
    r
}

/// Whether two sequences of names are equal.
pub fn eq_rhs(a: &Vec<Vec<char>>, b: &Vec<Vec<char>>) -> (r: bool)
    ensures
        r == (rhs_view(a@) == rhs_view(b@)),
{
    if a.len() != b.len() {
        assert(rhs_view(a@).len() != rhs_view(b@).len());
        return false;
    }
    let mut i: usize = 0;
    while i < a.len()
        invariant
            i <= a.len(),
            a.len() == b.len(),
            forall|j: int| 0 <= j < i ==> rhs_view(a@)[j] == rhs_view(b@)[j],
        decreases a.len() - i,
    {
        if !eq_sym(&a[i], &b[i]) {
            assert(rhs_view(a@)[i as int] != rhs_view(b@)[i as int]);
            return false;
        }
        i = i + 1;
    }
    assert(rhs_view(a@) =~= rhs_view(b@));
    true
}

/// Three-way comparison of two sequences of names, ordered
/// lexicographically by name (the order of `Vec<String>`).
pub fn order_rhs(a: &Vec<Vec<char>>, b: &Vec<Vec<char>>) -> (r: i8)
    ensures
        r == 0 <==> rhs_view(a@) == rhs_view(b@),
        r == -1 || r == 0 || r == 1,
{
    let mut i: usize = 0;
    while i < a.len() && i < b.len()
        invariant
            i <= a.len(),
            i <= b.len(),
            forall|j: int| 0 <= j < i ==> rhs_view(a@)[j] == rhs_view(b@)[j],
        decreases a.len() - i,
    {
        let c = order_sym(&a[i], &b[i]);
        if c != 0 {
            assert(rhs_view(a@)[i as int] != rhs_view(b@)[i as int]);
            return c;
        }
        i = i + 1;
    }
    if a.len() < b.len() {
        assert(rhs_view(a@).len() != rhs_view(b@).len());
        return -1;
    }
    if b.len() < a.len() {
        assert(rhs_view(a@).len() != rhs_view(b@).len());
        return 1;
    }
    assert(rhs_view(a@) =~= rhs_view(b@));
    0
}

/// The characters of a string.
#[verifier::external_body]
pub(crate) fn str_to_chars(s: &str) -> (r: Vec<char>)
    ensures
        r@ == s@,
{
    s.chars().collect()
}

/// The string made of the given characters.
#[verifier::external_body]
pub(crate) fn chars_to_string(v: &Vec<char>) -> (r: String)
    ensures
        r@ == v@,
{
    v.iter().collect()
}

/// Decimal digits of a natural number, most significant first, without
/// leading zeros (zero is "0").
pub open spec fn decimal(n: nat) -> Seq<char>
    decreases n,
{
    if n < 10 {
        seq![digit_char(n)]
    } else {
        decimal(n / 10).push(digit_char(n % 10))
    }
}

pub open spec fn digit_char(d: nat) -> char {
    if d == 0 { '0' }
    else if d == 1 { '1' }
    else if d == 2 { '2' }
    else if d == 3 { '3' }
    else if d == 4 { '4' }
    else if d == 5 { '5' }
    else if d == 6 { '6' }
    else if d == 7 { '7' }
    else if d == 8 { '8' }
    else { '9' }
}

/// Decimal digits are never empty.
pub proof fn lemma_decimal_len(n: nat)
    ensures
        decimal(n).len() >= 1,
    decreases n,
{
    if n >= 10 {
        lemma_decimal_len(n / 10);
    }
}

/// Different numbers have different decimal digits.
pub proof fn lemma_decimal_injective(a: nat, b: nat)
    requires
        decimal(a) == decimal(b),
    ensures
        a == b,
    decreases a,
{
    if a < 10 && b < 10 {
        assert(decimal(a)[0] == digit_char(a));
        assert(decimal(b)[0] == digit_char(b));
    } else if a < 10 {
        lemma_decimal_len(b / 10);
        assert(decimal(b).len() >= 2);
    } else if b < 10 {
        lemma_decimal_len(a / 10);
        assert(decimal(a).len() >= 2);
    } else {
        assert(decimal(a).last() == digit_char(a % 10));
        assert(decimal(b).last() == digit_char(b % 10));
        assert(a % 10 == b % 10);
        assert(decimal(a).drop_last() =~= decimal(a / 10));
        assert(decimal(b).drop_last() =~= decimal(b / 10));
        lemma_decimal_injective(a / 10, b / 10);
    }
}

fn exec_digit_char(d: usize) -> (c: char)
    requires
        d < 10,
    ensures
        c == digit_char(d as nat),
{
    if d == 0 { '0' }
    else if d == 1 { '1' }
    else if d == 2 { '2' }
    else if d == 3 { '3' }
    else if d == 4 { '4' }
    else if d == 5 { '5' }
    else if d == 6 { '6' }
    else if d == 7 { '7' }
    else if d == 8 { '8' }
    else { '9' }
}

/// Appends the decimal digits of `n` to `out`.
pub fn push_decimal(out: &mut Vec<char>, n: usize)
    ensures
        final(out)@ == old(out)@ + decimal(n as nat),
    decreases n,
{
    if n < 10 {
        out.push(exec_digit_char(n));
        proof {
            assert(decimal(n as nat) =~= seq![digit_char(n as nat)]);
        }
    } else {
        push_decimal(out, n / 10);
        out.push(exec_digit_char(n % 10));
    }
}

/// Appends the characters of `s` to `out`.
pub fn push_all(out: &mut Vec<char>, s: &Vec<char>)
    ensures
        final(out)@ == old(out)@ + s@,
{
    let mut i: usize = 0;
    let ghost start = out@;
    while i < s.len()
        invariant
            i <= s.len(),
            out@ =~= start + s@.take(i as int),
        decreases s.len() - i,
    {
        out.push(s[i]);
        i = i + 1;
    }
    proof {
        assert(s@.take(s@.len() as int) =~= s@);
    }
}

/// Whether `s` begins with `p`.
pub fn starts_with(s: &Vec<char>, p: &Vec<char>) -> (r: bool)
    ensures
        r == (p@.len() <= s@.len() && s@.take(p@.len() as int) == p@),
{
    if p.len() > s.len() {
        return false;
    }
    let mut i: usize = 0;
    while i < p.len()
        invariant
            i <= p.len(),
            p.len() <= s.len(),
            s@.take(i as int) =~= p@.take(i as int),
        decreases p.len() - i,
    {
        if s[i] != p[i] {
            assert(s@.take(p@.len() as int)[i as int] != p@[i as int]);
            return false;
        }
        i = i + 1;
    }
    assert(p@.take(p@.len() as int) =~= p@);
    true
}

/// Whether `s` contains `p` as a contiguous piece.
pub fn contains_piece(s: &Vec<char>, p: &Vec<char>) -> (r: bool)
    ensures
        r == exists|k: int| 0 <= k && k + p@.len() <= s@.len() && #[trigger] s@.subrange(k, k + p@.len()) == p@,
{
    if p.len() > s.len() {
        return false;
    }
    let mut k: usize = 0;
    while k <= s.len() - p.len()
        invariant
            p.len() <= s.len(),
            k <= s.len() - p.len() + 1,
            forall|j: int| 0 <= j < k ==> #[trigger] s@.subrange(j, j + p@.len()) != p@,
        decreases s.len() + 1 - k,
    {
        let mut i: usize = 0;
        while i < p.len() && s[k + i] == p[i]
            invariant
                i <= p.len(),
                k + p.len() <= s.len(),
                s@.subrange(k as int, k + i) =~= p@.take(i as int),
            decreases p.len() - i,
        {
            proof {
                assert(s@.subrange(k as int, k + i + 1) =~= s@.subrange(k as int, k + i).push(s@[k + i]));
                assert(p@.take(i + 1) =~= p@.take(i as int).push(p@[i as int]));
            }
            i = i + 1;
        }
        if i == p.len() {
            assert(p@.take(p@.len() as int) =~= p@);
            return true;
        }
        assert(s@.subrange(k as int, k + p@.len())[i as int] == s@[k + i]);
        k = k + 1;
    }
    false
}

/// A name made of a prefix, another name, and a suffix.
pub fn wrap_name(prefix: &Vec<char>, inner: &Vec<char>, suffix: &Vec<char>) -> (r: Vec<char>)
    ensures
        r@ == prefix@ + inner@ + suffix@,
{
    let mut r = clone_sym(prefix);
    push_all(&mut r, inner);
    push_all(&mut r, suffix);
    r
}

/// A name made of a prefix followed by the decimal digits of `n`.
pub fn numbered_name(prefix: &Vec<char>, n: usize) -> (r: Vec<char>)
    ensures
        r@ == prefix@ + decimal(n as nat),
{
    let mut r = clone_sym(prefix);
    push_decimal(&mut r, n);
    r
}

} // verus!
