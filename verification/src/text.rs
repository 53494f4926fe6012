//! Character classes and small text operations on character vectors:
//! trimming, replacing, splitting into lines and finding a separator.
use vstd::prelude::*;

verus! {

/// The Unicode `White_Space` property, as `char::is_whitespace` documents it.
pub open spec fn white_space(c: char) -> bool {
    let u = c as int;
    (0x09 <= u <= 0x0d) || u == 0x20 || u == 0x85 || u == 0xa0 || u == 0x1680 || (0x2000 <= u
        <= 0x200a) || u == 0x2028 || u == 0x2029 || u == 0x202f || u == 0x205f || u == 0x3000
}

/// Whether `c` is white space (`char::is_whitespace`).
pub fn is_whitespace(c: char) -> (r: bool)
    ensures
        r == white_space(c),
{
    let u = c as u32;
    (0x09 <= u && u <= 0x0d) || u == 0x20 || u == 0x85 || u == 0xa0 || u == 0x1680 || (0x2000 <= u
        && u <= 0x200a) || u == 0x2028 || u == 0x2029 || u == 0x202f || u == 0x205f || u == 0x3000
}

/// What `char::is_alphabetic` answers: the Unicode `Alphabetic` property.
pub uninterp spec fn alphabetic(c: char) -> bool;

/// What `char::is_alphanumeric` answers: `Alphabetic` or `Numeric`.
pub uninterp spec fn alphanumeric(c: char) -> bool;

/// `char::is_alphabetic`: whether `c` has the Unicode `Alphabetic` property.
#[verifier::external_body]
pub(crate) fn is_alphabetic(c: char) -> (r: bool)
    ensures
        r == alphabetic(c),
{
    c.is_alphabetic()
}

/// `char::is_alphanumeric`: whether `c` is alphabetic or numeric.
#[verifier::external_body]
pub(crate) fn is_alphanumeric(c: char) -> (r: bool)
    ensures
        r == alphanumeric(c),
{
    c.is_alphanumeric()
}

/// Number of leading white-space characters.
pub open spec fn lead_ws(s: Seq<char>) -> nat
    decreases s.len(),
{
    if s.len() > 0 && white_space(s[0]) {
        1 + lead_ws(s.drop_first())
    } else {
        0
    }
}

/// `s` with white space removed at both ends (`str::trim`).
pub open spec fn trimmed(s: Seq<char>) -> Seq<char> {
    let a = s.skip(lead_ws(s) as int);
    a.take(a.len() - lead_ws(a.reverse()))
}

proof fn lemma_lead_ws(s: Seq<char>, i: int)
    requires
        0 <= i <= s.len(),
        forall|j: int| 0 <= j < i ==> white_space(#[trigger] s[j]),
        i == s.len() || !white_space(s[i]),
    ensures
        lead_ws(s) == i,
    decreases s.len(),
{
    if s.len() > 0 && i > 0 {
        assert forall|j: int| 0 <= j < i - 1 implies white_space(#[trigger] s.drop_first()[j]) by {
            assert(s.drop_first()[j] == s[j + 1]);
        }
        lemma_lead_ws(s.drop_first(), i - 1);
    }
}

/// `str::trim` on characters.
pub fn trim(s: &Vec<char>) -> (r: Vec<char>)
    ensures
        r@ == trimmed(s@),
{
    let mut a: usize = 0;
    while a < s.len() && is_whitespace(s[a])
        invariant
            a <= s.len(),
            forall|j: int| 0 <= j < a ==> white_space(#[trigger] s@[j]),
        decreases s.len() - a,
    {
        a = a + 1;
    }
    proof {
        lemma_lead_ws(s@, a as int);
    }
    let mut b: usize = s.len();
    let ghost t = s@.skip(a as int);
    while b > a && is_whitespace(s[b - 1])
        invariant
            a <= b <= s.len(),
            t == s@.skip(a as int),
            forall|j: int| 0 <= j < s.len() - b ==> white_space(#[trigger] t.reverse()[j]),
        decreases b,
    {
        assert(t.reverse()[s.len() - b] == s@[b - 1]);
        b = b - 1;
    }
    proof {
        if b > a {
            assert(t.reverse()[s.len() - b] == s@[b - 1]);
        }
        lemma_lead_ws(t.reverse(), s.len() - b);
    }
    let mut r: Vec<char> = Vec::new();
    let mut i: usize = a;
    while i < b
        invariant
            a <= i <= b,
            b <= s.len(),
            r@ =~= s@.subrange(a as int, i as int),
        decreases b - i,
    {
        r.push(s[i]);
        i = i + 1;
    }
    assert(r@ =~= trimmed(s@));
    r
}

/// Left-to-right replacement of the two-character piece `[p0, p1]` by
/// the single character `q` (`str::replace` for such patterns).
pub open spec fn replaced(s: Seq<char>, p0: char, p1: char, q: char) -> Seq<char>
    decreases s.len(),
{
    if s.len() < 2 {
        s
    } else if s[0] == p0 && s[1] == p1 {
        seq![q] + replaced(s.skip(2), p0, p1, q)
    } else {
        seq![s[0]] + replaced(s.drop_first(), p0, p1, q)
    }
}

/// `str::replace` of the two-character piece `[p0, p1]` by `q`.
pub fn replace_pair(s: &Vec<char>, p0: char, p1: char, q: char) -> (r: Vec<char>)
    ensures
        r@ == replaced(s@, p0, p1, q),
{
    let mut r: Vec<char> = Vec::new();
    let mut i: usize = 0;
    assert(s@.skip(0) =~= s@);
    assert(r@ + replaced(s@, p0, p1, q) =~= replaced(s@, p0, p1, q));
    while i < s.len()
        invariant
            i <= s.len(),
            r@ + replaced(s@.skip(i as int), p0, p1, q) == replaced(s@, p0, p1, q),
        decreases s.len() - i,
    {
        let ghost rest = s@.skip(i as int);
        if i + 1 < s.len() && s[i] == p0 && s[i + 1] == p1 {
            r.push(q);
            proof {
                assert(rest.skip(2) =~= s@.skip(i + 2));
                assert(r@ + replaced(s@.skip(i + 2), p0, p1, q) =~= (r@.drop_last() + seq![q]) + replaced(rest.skip(2), p0, p1, q));
            }
            i = i + 2;
        } else {
            r.push(s[i]);
            proof {
                assert(rest.drop_first() =~= s@.skip(i + 1));
                if rest.len() < 2 {
                    assert(rest.len() == 1);
                    assert(s@.skip(i + 1).len() == 0);
                    assert(replaced(rest, p0, p1, q) == rest);
                    assert(rest =~= seq![rest[0]] + s@.skip(i + 1));
                }
                assert(r@ + replaced(s@.skip(i + 1), p0, p1, q) =~= (r@.drop_last() + seq![s@[i as int]]) + replaced(rest.drop_first(), p0, p1, q));
            }
            i = i + 1;
        }
    }
    proof {
        assert(s@.skip(i as int) =~= Seq::<char>::empty());
        assert(r@ + replaced(s@.skip(i as int), p0, p1, q) =~= r@);
    }
    r
}

/// Whether `p` occurs in `s` at position `k`.
pub open spec fn occurs_at(s: Seq<char>, p: Seq<char>, k: int) -> bool {
    0 <= k && k + p.len() <= s.len() && s.subrange(k, k + p.len()) == p
}

/// The first position where `p` occurs in `s`, if any.
pub fn find_piece(s: &Vec<char>, p: &Vec<char>) -> (r: Option<usize>)
    ensures
        r matches Some(k) ==> occurs_at(s@, p@, k as int) && forall|j: int| 0 <= j < k ==> !occurs_at(s@, p@, j),
        r is None ==> forall|j: int| !occurs_at(s@, p@, j),
{
    if p.len() > s.len() {
        return None;
    }
    let mut k: usize = 0;
    while k <= s.len() - p.len()
        invariant
            p.len() <= s.len(),
            k <= s.len() - p.len() + 1,
            forall|j: int| 0 <= j < k ==> !occurs_at(s@, p@, j),
        decreases s.len() + 1 - k,
    {
        let mut i: usize = 0;
        while i < p.len() && s[k + i] == p[i]
            invariant
                i <= p.len(),
                k + p.len() <= s.len(),
                s@.subrange(k as int, k + i) =~= p@.take(i as int),
            decreases p.len() - i,
        {
            proof {
                assert(s@.subrange(k as int, k + i + 1) =~= s@.subrange(k as int, k + i).push(s@[k + i]));
                assert(p@.take(i + 1) =~= p@.take(i as int).push(p@[i as int]));
            }
            i = i + 1;
        }
        if i == p.len() {
            assert(p@.take(p@.len() as int) =~= p@);
            return Some(k);
        }
        assert(s@.subrange(k as int, k + p@.len())[i as int] == s@[k + i]);
        k = k + 1;
    }
    None
}

/// The characters of `s` from `a` up to (not including) `b`.
pub fn slice(s: &Vec<char>, a: usize, b: usize) -> (r: Vec<char>)
    requires
        a <= b <= s.len(),
    ensures
        r@ == s@.subrange(a as int, b as int),
{
    let mut r: Vec<char> = Vec::new();
    let mut i: usize = a;
    while i < b
        invariant
            a <= i <= b,
            b <= s.len(),
            r@ =~= s@.subrange(a as int, i as int),
        decreases b - i,
    {
        r.push(s[i]);
        i = i + 1;
    }
    r
}

/// The first line break at or after `j` (the end when there is none).
pub open spec fn next_break(s: Seq<char>, j: int) -> int
    decreases s.len() - j,
{
    if j < 0 || j >= s.len() {
        s.len() as int
    } else if s[j] == '\n' {
        j
    } else {
        next_break(s, j + 1)
    }
}

/// A line without one trailing `'\r'`.
pub open spec fn without_cr(x: Seq<char>) -> Seq<char> {
    if x.len() > 0 && x.last() == '\r' { x.drop_last() } else { x }
}

pub proof fn lemma_next_break(s: Seq<char>, j: int)
    requires
        0 <= j <= s.len(),
    ensures
        j <= next_break(s, j) <= s.len(),
        next_break(s, j) < s.len() ==> s[next_break(s, j)] == '\n',
        forall|k: int| j <= k < next_break(s, j) ==> s[k] != '\n',
    decreases s.len() - j,
{
    if j < s.len() && s[j] != '\n' {
        lemma_next_break(s, j + 1);
    }
}

/// The lines of `s` from position `start` on (`str::lines`): split at
/// `'\n'`, each without one trailing `'\r'`, and no empty line after a
/// final line break.
pub open spec fn lines_from(s: Seq<char>, start: int) -> Seq<Seq<char>>
    decreases s.len() + 1 - start,
{
    if start < 0 || start >= s.len() {
        Seq::empty()
    } else {
        let e = next_break(s, start);
        proof {
            lemma_next_break(s, start);
        }
        seq![without_cr(s.subrange(start, e))] + lines_from(s, e + 1)
    }
}

/// `s` split at `'\n'`, each line without one trailing `'\r'`, and no
/// final empty line after a trailing newline (`str::lines`).
pub fn split_lines(s: &Vec<char>) -> (r: Vec<Vec<char>>)
    ensures
        r@.map_values(|v: Vec<char>| v@) == lines_from(s@, 0),
        forall|i: int| 0 <= i < r.len() ==> !(#[trigger] r@[i]@).contains('\n'),
{
    let mut r: Vec<Vec<char>> = Vec::new();
    let mut start: usize = 0;
    let mut i: usize = 0;
    let ghost want = lines_from(s@, 0);
    assert(r@.map_values(|v: Vec<char>| v@) + lines_from(s@, 0) =~= want);
    while i < s.len()
        invariant
            start <= i <= s.len(),
            forall|j: int| start <= j < i ==> s@[j] != '\n',
            forall|j: int| 0 <= j < r.len() ==> !(#[trigger] r@[j]@).contains('\n'),
            want == lines_from(s@, 0),
            r@.map_values(|v: Vec<char>| v@) + lines_from(s@, start as int) == want,
        decreases s.len() - i,
    {
        if s[i] == '\n' {
            proof {
                lemma_next_break(s@, start as int);
                assert(next_break(s@, start as int) == i) by {
                    if next_break(s@, start as int) < i {
                        assert(s@[next_break(s@, start as int)] == '\n');
                    }
                }
            }
            let mut end = i;
            if end > start && s[end - 1] == '\r' {
                end = end - 1;
            }
            let line = slice(s, start, end);
            assert(line@ == without_cr(s@.subrange(start as int, i as int)));
            assert(!line@.contains('\n'));
            let ghost r0 = r@;
            r.push(line);
            proof {
                assert(r@.map_values(|v: Vec<char>| v@) =~= r0.map_values(|v: Vec<char>| v@) + seq![line@]);
            }
            start = i + 1;
        }
        i = i + 1;
    }
    if start < s.len() {
        proof {
            lemma_next_break(s@, start as int);
            assert(next_break(s@, start as int) == s.len()) by {
                if next_break(s@, start as int) < s.len() {
                    assert(s@[next_break(s@, start as int)] == '\n');
                }
            }
        }
        let mut end = s.len();
        if end > start && s[end - 1] == '\r' {
            end = end - 1;
        }
        let line = slice(s, start, end);
        assert(line@ == without_cr(s@.subrange(start as int, s.len() as int)));
        assert(!line@.contains('\n'));
        let ghost r0 = r@;
        r.push(line);
        proof {
            assert(r@.map_values(|v: Vec<char>| v@) =~= r0.map_values(|v: Vec<char>| v@) + seq![line@]);
            assert(lines_from(s@, s.len() + 1) =~= Seq::<Seq<char>>::empty());
            assert(r@.map_values(|v: Vec<char>| v@) + Seq::<Seq<char>>::empty() =~= r@.map_values(|v: Vec<char>| v@));
        }
    } else {
        assert(r@.map_values(|v: Vec<char>| v@) + lines_from(s@, start as int) =~= r@.map_values(|v: Vec<char>| v@));
    }
    r
}

/// The lines joined with single spaces between them (`[..].join(" ")`).
pub open spec fn joined(lines: Seq<Seq<char>>) -> Seq<char>
    decreases lines.len(),
{
    if lines.len() == 0 {
        Seq::empty()
    } else if lines.len() == 1 {
        lines[0]
    } else {
        joined(lines.drop_last()) + seq![' '] + lines.last()
    }
}

/// `parts.join(" ")`.
pub fn join_space(parts: &Vec<Vec<char>>) -> (r: Vec<char>)
    ensures
        r@ == joined(Seq::new(parts.len() as nat, |i: int| parts@[i]@)),
{
    let ghost ps = Seq::new(parts.len() as nat, |i: int| parts@[i]@);
    let mut r: Vec<char> = Vec::new();
    let mut i: usize = 0;
    while i < parts.len()
        invariant
            i <= parts.len(),
            ps == Seq::new(parts.len() as nat, |i: int| parts@[i]@),
            r@ == joined(ps.take(i as int)),
        decreases parts.len() - i,
    {
        if i > 0 {
            r.push(' ');
        }
        crate::symbols::push_all(&mut r, &parts[i]);
        proof {
            assert(ps.take(i + 1).drop_last() =~= ps.take(i as int));
            if i == 0 {
                assert(r@ =~= ps.take(1)[0]);
            }
        }
        i = i + 1;
    }
    assert(ps.take(parts.len() as int) =~= ps);
    r
}

} // verus!
