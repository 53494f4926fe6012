//! Lexical layer of the GBNF reader: comments, continuation lines, the
//! tokens of a rule body, and the translation of terminal pieces into
//! regular expressions.
use vstd::prelude::*;
use crate::symbols::{push_all, clone_sym};
use crate::text::{joined, is_whitespace, is_alphabetic, is_alphanumeric, white_space, alphabetic, alphanumeric, trim, trimmed, replace_pair, replaced, slice};

verus! {

/// A token of a rule body: the text of a piece and its quantifier
/// (empty, `*`, `+` or `?`).
pub enum Tok {
    Str(Vec<char>, Vec<char>),
    Cls(Vec<char>, Vec<char>),
    Group(Vec<char>, Vec<char>),
    Nt(Vec<char>, Vec<char>),
    Alt,
}

/// Errors of the GBNF reader.
pub enum GbnfError {
    /// A line that is not of the form `name ::= body`.
    InvalidRule(Vec<char>),
    /// A terminal piece that is neither a literal, a class nor a group.
    UnrecognizedAtom(Vec<char>),
    /// More auxiliary rules than a `usize` can number.
    TooManyRules,
}

/// A quantifier: empty or one of `*`, `+`, `?`.
pub open spec fn quant_ok(q: Seq<char>) -> bool {
    q.len() == 0 || (q.len() == 1 && (q[0] == '*' || q[0] == '+' || q[0] == '?'))
}

/// The text of a token (empty for `|`).
pub open spec fn tok_text(t: Tok) -> Seq<char> {
    match t {
        Tok::Str(x, _) => x@,
        Tok::Cls(x, _) => x@,
        Tok::Group(x, _) => x@,
        Tok::Nt(x, _) => x@,
        Tok::Alt => Seq::empty(),
    }
}

/// The quantifier of a token (empty for `|`).
pub open spec fn tok_quant(t: Tok) -> Seq<char> {
    match t {
        Tok::Str(_, q) => q@,
        Tok::Cls(_, q) => q@,
        Tok::Group(_, q) => q@,
        Tok::Nt(_, q) => q@,
        Tok::Alt => Seq::empty(),
    }
}

/// The shape a token of a body of `n` characters has: its text is no
/// longer than the body, literals start with `"`, classes with `[`,
/// groups with `(`, and names with a letter or `_`.
pub open spec fn tok_shape(t: Tok, n: nat) -> bool {
    &&& tok_text(t).len() <= n
    &&& quant_ok(tok_quant(t))
    &&& match t {
        Tok::Str(x, _) => x@.len() >= 1 && x@[0] == '"',
        Tok::Cls(x, _) => x@.len() >= 1 && x@[0] == '[',
        Tok::Group(x, _) => x@.len() >= 1 && x@[0] == '(',
        Tok::Nt(x, _) => x@.len() >= 1 && (alphabetic(x@[0]) || x@[0] == '_'),
        Tok::Alt => true,
    }
}

/// The kind of a token.
pub enum TokKind {
    Str,
    Cls,
    Group,
    Nt,
    Alt,
}

/// A token as its kind, text and quantifier.
pub open spec fn tok_view(t: Tok) -> (TokKind, Seq<char>, Seq<char>) {
    match t {
        Tok::Str(x, q) => (TokKind::Str, x@, q@),
        Tok::Cls(x, q) => (TokKind::Cls, x@, q@),
        Tok::Group(x, q) => (TokKind::Group, x@, q@),
        Tok::Nt(x, q) => (TokKind::Nt, x@, q@),
        Tok::Alt => (TokKind::Alt, Seq::empty(), Seq::empty()),
    }
}

/// Where a literal or class whose text continues at `j` ends: after the
/// first `close` not escaped by a backslash, or at the end of the line.
pub open spec fn quoted_end(s: Seq<char>, j: int, close: char) -> int
    decreases s.len() - j,
{
    if j >= s.len() {
        s.len() as int
    } else if s[j] == '\\' {
        if j + 2 <= s.len() {
            quoted_end(s, j + 2, close)
        } else {
            s.len() as int
        }
    } else if s[j] == close {
        j + 1
    } else {
        quoted_end(s, j + 1, close)
    }
}

/// One character of a group: the nesting depth, an escape in progress,
/// and whether a literal or a class is open.
pub open spec fn group_step(st: (int, bool, bool, bool), c: char) -> (int, bool, bool, bool) {
    if st.1 {
        (st.0, false, st.2, st.3)
    } else if c == '\\' {
        (st.0, true, st.2, st.3)
    } else if st.2 {
        if c == '"' { (st.0, false, false, st.3) } else { st }
    } else if st.3 {
        if c == ']' { (st.0, false, st.2, false) } else { st }
    } else if c == '"' {
        (st.0, false, true, st.3)
    } else if c == '[' {
        (st.0, false, st.2, true)
    } else if c == '(' {
        (st.0 + 1, false, st.2, st.3)
    } else if c == ')' {
        (st.0 - 1, false, st.2, st.3)
    } else {
        st
    }
}

/// Where a group whose text continues at `j` in state `st` ends: after
/// the parenthesis that closes it, or at the end of the line.
pub open spec fn group_end(s: Seq<char>, j: int, st: (int, bool, bool, bool)) -> int
    decreases s.len() - j,
{
    if j >= s.len() || st.0 <= 0 {
        j
    } else {
        group_end(s, j + 1, group_step(st, s[j]))
    }
}

/// A character that continues a name.
pub open spec fn name_char(c: char) -> bool {
    alphanumeric(c) || c == '_' || c == '-'
}

/// Where a name whose text continues at `j` ends.
pub open spec fn name_end(s: Seq<char>, j: int) -> int
    decreases s.len() - j,
{
    if j < s.len() && name_char(s[j]) {
        name_end(s, j + 1)
    } else {
        j
    }
}

/// The length of the quantifier at `j` (one character or none).
pub open spec fn quant_len(s: Seq<char>, j: int) -> int {
    if 0 <= j < s.len() && (s[j] == '*' || s[j] == '+' || s[j] == '?') { 1 } else { 0 }
}

proof fn lemma_quoted_end(s: Seq<char>, j: int, close: char)
    requires
        0 <= j <= s.len(),
    ensures
        j <= quoted_end(s, j, close) <= s.len(),
    decreases s.len() - j,
{
    if j < s.len() {
        if s[j] == '\\' {
            if j + 2 <= s.len() {
                lemma_quoted_end(s, j + 2, close);
            }
        } else if s[j] != close {
            lemma_quoted_end(s, j + 1, close);
        }
    }
}

proof fn lemma_group_end(s: Seq<char>, j: int, st: (int, bool, bool, bool))
    requires
        0 <= j <= s.len(),
    ensures
        j <= group_end(s, j, st) <= s.len(),
    decreases s.len() - j,
{
    if j < s.len() && st.0 > 0 {
        lemma_group_end(s, j + 1, group_step(st, s[j]));
    }
}

proof fn lemma_name_end(s: Seq<char>, j: int)
    requires
        0 <= j <= s.len(),
    ensures
        j <= name_end(s, j) <= s.len(),
    decreases s.len() - j,
{
    if j < s.len() && name_char(s[j]) {
        lemma_name_end(s, j + 1);
    }
}

/// Where the token that starts at `i` ends, quantifier included, for a
/// literal, a class, a group or a name; `i + 1` otherwise.
pub open spec fn piece_end(s: Seq<char>, i: int) -> int {
    let c = s[i];
    let e = if c == '"' {
        quoted_end(s, i + 1, '"')
    } else if c == '[' {
        quoted_end(s, i + 1, ']')
    } else if c == '(' {
        group_end(s, i + 1, (1, false, false, false))
    } else if alphabetic(c) || c == '_' {
        name_end(s, i + 1)
    } else {
        i + 1
    };
    e
}

pub proof fn lemma_piece_end(s: Seq<char>, i: int)
    requires
        0 <= i < s.len(),
    ensures
        i < piece_end(s, i) <= s.len(),
        i < piece_end(s, i) + quant_len(s, piece_end(s, i)) <= s.len(),
{
    let c = s[i];
    if c == '"' {
        lemma_quoted_end(s, i + 1, '"');
    } else if c == '[' {
        lemma_quoted_end(s, i + 1, ']');
    } else if c == '(' {
        lemma_group_end(s, i + 1, (1, false, false, false));
    } else if alphabetic(c) || c == '_' {
        lemma_name_end(s, i + 1);
    }
}

/// The tokens of `s` from position `i` on: white space is skipped, a `#`
/// ends the line, `|` is a token of its own, a literal, a class, a group
/// or a name is a token with the quantifier that follows it, and any
/// other character is skipped.
pub open spec fn lex(s: Seq<char>, i: int) -> Seq<(TokKind, Seq<char>, Seq<char>)>
    decreases s.len() - i,
{
    if i < 0 || i >= s.len() {
        Seq::empty()
    } else {
        let c = s[i];
        if white_space(c) {
            lex(s, i + 1)
        } else if c == '#' {
            Seq::empty()
        } else if c == '|' {
            seq![(TokKind::Alt, Seq::<char>::empty(), Seq::<char>::empty())] + lex(s, i + 1)
        } else if c == '"' || c == '[' || c == '(' || alphabetic(c) || c == '_' {
            let e = piece_end(s, i);
            let q = quant_len(s, e);
            let kind = if c == '"' {
                TokKind::Str
            } else if c == '[' {
                TokKind::Cls
            } else if c == '(' {
                TokKind::Group
            } else {
                TokKind::Nt
            };
            proof {
                lemma_piece_end(s, i);
            }
            seq![(kind, s.subrange(i, e), s.subrange(e, e + q))] + lex(s, e + q)
        } else {
            lex(s, i + 1)
        }
    }
}

/// Scanner state over a line: inside a literal, inside a class, and
/// whether the previous character was an unconsumed backslash.
pub open spec fn scan_step(st: (bool, bool, bool), c: char) -> (bool, bool, bool) {
    if st.2 {
        (st.0, st.1, false)
    } else if c == '\\' {
        (st.0, st.1, true)
    } else if st.0 {
        if c == '"' { (false, st.1, false) } else { st }
    } else if st.1 {
        if c == ']' { (st.0, false, false) } else { st }
    } else if c == '"' {
        (true, st.1, false)
    } else if c == '[' {
        (st.0, true, false)
    } else {
        st
    }
}

/// The scanner state after reading `s` from state `st`.
pub open spec fn scan_from(st: (bool, bool, bool), s: Seq<char>) -> (bool, bool, bool)
    decreases s.len(),
{
    if s.len() == 0 {
        st
    } else {
        scan_step(scan_from(st, s.drop_last()), s.last())
    }
}

/// Position `i` of `s` starts a comment: a `#` outside literals, classes
/// and escapes.
pub open spec fn comment_at(s: Seq<char>, i: int) -> bool {
    0 <= i < s.len() && s[i] == '#' && scan_from((false, false, false), s.take(i)) == (false, false, false)
}

/// Where the first comment of `s` starts (its length when there is none).
pub open spec fn comment_pos(s: Seq<char>) -> int {
    if exists|i: int| #[trigger] comment_at(s, i) {
        choose|i: int| #[trigger] comment_at(s, i) && forall|j: int| 0 <= j < i ==> !comment_at(s, j)
    } else {
        s.len() as int
    }
}

/// The line up to its first comment.
pub open spec fn uncommented(s: Seq<char>) -> Seq<char> {
    s.take(comment_pos(s))
}

/// The line up to its first comment.
pub fn strip_comment(line: &Vec<char>) -> (r: Vec<char>)
    ensures
        r@ == uncommented(line@),
        r@.len() <= line@.len(),
        r@ == line@.take(r@.len() as int),
        forall|j: int| 0 <= j < r@.len() ==> !comment_at(line@, j),
        r@.len() < line@.len() ==> comment_at(line@, r@.len() as int),
{
    let r = strip_comment_scan(line);
    proof {
        let n = r@.len() as int;
        if n < line@.len() {
            assert(comment_at(line@, n));
            let i = choose|i: int| #[trigger] comment_at(line@, i) && forall|j: int| 0 <= j < i ==> !comment_at(line@, j);
            if i < n {
                assert(!comment_at(line@, i));
            } else if i > n {
                assert(!comment_at(line@, n));
            }
        } else {
            assert forall|i: int| !#[trigger] comment_at(line@, i) by {
                if 0 <= i < n {
                    assert(!comment_at(line@, i));
                }
            }
        }
    }
    r
}

fn strip_comment_scan(line: &Vec<char>) -> (r: Vec<char>)
    ensures
        r@.len() <= line@.len(),
        r@ == line@.take(r@.len() as int),
        forall|j: int| 0 <= j < r@.len() ==> !comment_at(line@, j),
        r@.len() < line@.len() ==> comment_at(line@, r@.len() as int),
{
    let mut in_str = false;
    let mut in_cls = false;
    let mut esc = false;
    let mut i: usize = 0;
    while i < line.len()
        invariant
            i <= line.len(),
            (in_str, in_cls, esc) == scan_from((false, false, false), line@.take(i as int)),
            forall|j: int| 0 <= j < i ==> !comment_at(line@, j),
        decreases line.len() - i,
    {
        let c = line[i];
        proof {
            assert(line@.take(i + 1).drop_last() =~= line@.take(i as int));
        }
        if esc {
            esc = false;
        } else if c == '\\' {
            esc = true;
        } else if in_str {
            if c == '"' {
                in_str = false;
            }
        } else if in_cls {
            if c == ']' {
                in_cls = false;
            }
        } else if c == '"' {
            in_str = true;
        } else if c == '[' {
            in_cls = true;
        } else if c == '#' {
            return slice(line, 0, i);
        }
        i = i + 1;
    }
    assert(line@.take(line@.len() as int) =~= line@);
    clone_sym(line)
}

/// The scanner state of `join_lines`: bracket depth and the line scanner.
/// The depth saturates at the bounds of a 64-bit integer.
pub open spec fn depth_step(st: (int, bool, bool, bool), c: char) -> (int, bool, bool, bool) {
    let s3 = scan_step((st.1, st.2, st.3), c);
    let d = if !st.3 && c != '\\' && !st.1 && !st.2 && c == '(' {
        if st.0 < i64::MAX { st.0 + 1 } else { st.0 }
    } else if !st.3 && c != '\\' && !st.1 && !st.2 && c == ')' {
        if st.0 > i64::MIN { st.0 - 1 } else { st.0 }
    } else {
        st.0
    };
    (d, s3.0, s3.1, s3.2)
}

/// The scanner state after reading `s` from state `st`.
pub open spec fn depth_from(st: (int, bool, bool, bool), s: Seq<char>) -> (int, bool, bool, bool)
    decreases s.len(),
{
    if s.len() == 0 {
        st
    } else {
        depth_step(depth_from(st, s.drop_last()), s.last())
    }
}

/// The joined lines from line `li` on, the current group having started
/// at line `first` with scanner state `st`: a group ends with the first
/// line after which the depth is not positive (the depth then starts
/// again at zero, the rest of the state carries on), its lines joined by
/// single spaces, and the lines left at the end form a last group.
pub open spec fn line_groups(lines: Seq<Seq<char>>, li: int, first: int, st: (int, bool, bool, bool)) -> Seq<Seq<char>>
    decreases lines.len() - li,
{
    if li < 0 || li >= lines.len() {
        if 0 <= first < lines.len() {
            seq![joined(lines.subrange(first, lines.len() as int))]
        } else {
            Seq::empty()
        }
    } else {
        let st2 = depth_from(st, lines[li]);
        if st2.0 <= 0 {
            seq![joined(lines.subrange(first, li + 1))] + line_groups(lines, li + 1, li + 1, (0, st2.1, st2.2, st2.3))
        } else {
            line_groups(lines, li + 1, first, st2)
        }
    }
}

/// Joins continuation lines: lines are gathered, joined by single spaces,
/// until the parentheses opened outside literals and classes are closed.
pub fn join_lines(lines: Vec<Vec<char>>) -> (r: Vec<Vec<char>>)
    ensures
        r@.map_values(|v: Vec<char>| v@) == line_groups(lines@.map_values(|v: Vec<char>| v@), 0, 0, (0, false, false, false)),
{
    let ghost ls = lines@.map_values(|v: Vec<char>| v@);
    let mut result: Vec<Vec<char>> = Vec::new();
    let mut parts: Vec<Vec<char>> = Vec::new();
    let mut depth: i64 = 0;
    let mut in_str = false;
    let mut in_cls = false;
    let mut esc = false;
    let mut li: usize = 0;
    let mut first: usize = 0;
    let ghost want = line_groups(ls, 0, 0, (0, false, false, false));
    assert(result@.map_values(|v: Vec<char>| v@) + line_groups(ls, 0, 0, (0, false, false, false)) =~= want);
    while li < lines.len()
        invariant
            li <= lines.len(),
            first <= li,
            ls == lines@.map_values(|v: Vec<char>| v@),
            parts.len() == li - first,
            forall|k: int| 0 <= k < parts.len() ==> (#[trigger] parts@[k])@ == lines@[first + k]@,
            want == line_groups(ls, 0, 0, (0, false, false, false)),
            result@.map_values(|v: Vec<char>| v@) + line_groups(ls, li as int, first as int, (depth as int, in_str, in_cls, esc)) == want,
        decreases lines.len() - li,
    {
        let line = &lines[li];
        let c_line = clone_sym(line);
        parts.push(c_line);
        let ghost st0 = (depth as int, in_str, in_cls, esc);
        assert(line@.take(0) =~= Seq::<char>::empty());
        let mut ci: usize = 0;
        while ci < line.len()
            invariant
                ci <= line.len(),
                depth_from(st0, line@.take(ci as int)) == (depth as int, in_str, in_cls, esc),
            decreases line.len() - ci,
        {
            let c = line[ci];
            proof {
                assert(line@.take(ci + 1).drop_last() =~= line@.take(ci as int));
                assert(line@.take(ci + 1).last() == c);
            }
            if esc {
                esc = false;
            } else if c == '\\' {
                esc = true;
            } else if in_str {
                if c == '"' {
                    in_str = false;
                }
            } else if in_cls {
                if c == ']' {
                    in_cls = false;
                }
            } else if c == '"' {
                in_str = true;
            } else if c == '[' {
                in_cls = true;
            } else if c == '(' {
                if depth < i64::MAX {
                    depth = depth + 1;
                }
            } else if c == ')' {
                if depth > i64::MIN {
                    depth = depth - 1;
                }
            }
            ci = ci + 1;
        }
        assert(line@.take(line@.len() as int) =~= line@);
        assert(ls[li as int] == line@);
        if depth <= 0 {
            let j = crate::text::join_space(&parts);
            proof {
                let a = first as int;
                let b = li + 1;
                assert(Seq::new(parts.len() as nat, |i: int| parts@[i]@) =~= ls.subrange(a, b));
            }
            let ghost old_result = result@;
            result.push(j);
            proof {
                assert(result@.map_values(|v: Vec<char>| v@) =~= old_result.map_values(|v: Vec<char>| v@) + seq![j@]);
            }
            parts = Vec::new();
            depth = 0;
            first = li + 1;
        }
        li = li + 1;
    }
    if parts.len() > 0 {
        let j = crate::text::join_space(&parts);
        proof {
            let a = first as int;
            let b = lines.len() as int;
            assert(Seq::new(parts.len() as nat, |i: int| parts@[i]@) =~= ls.subrange(a, b));
        }
        let ghost old_result = result@;
        result.push(j);
        proof {
            assert(result@.map_values(|v: Vec<char>| v@) =~= old_result.map_values(|v: Vec<char>| v@) + seq![j@]);
            assert(result@.map_values(|v: Vec<char>| v@) + Seq::<Seq<char>>::empty() =~= result@.map_values(|v: Vec<char>| v@));
        }
    } else {
        assert(result@.map_values(|v: Vec<char>| v@) + Seq::<Seq<char>>::empty() =~= result@.map_values(|v: Vec<char>| v@));
    }
    result
}

/// The quantifier that follows position `j`, and the position after it.
pub fn read_quant(chars: &Vec<char>, j: usize) -> (r: (Vec<char>, usize))
    requires
        j <= chars.len(),
    ensures
        if j < chars.len() && (chars@[j as int] == '*' || chars@[j as int] == '+' || chars@[j as int] == '?') {
            r.0@ == seq![chars@[j as int]] && r.1 == j + 1
        } else {
            r.0@.len() == 0 && r.1 == j
        },
        quant_ok(r.0@),
{
    if j < chars.len() && (chars[j] == '*' || chars[j] == '+' || chars[j] == '?') {
        let mut q: Vec<char> = Vec::new();
        q.push(chars[j]);
        (q, j + 1)
    } else {
        (Vec::new(), j)
    }
}

/// Position after a literal or class that opened at `i` and closes with
/// `close`; a backslash skips the next character. Never beyond the end.
fn scan_quoted(chars: &Vec<char>, i: usize, close: char) -> (r: usize)
    requires
        i < chars.len(),
    ensures
        r == quoted_end(chars@, i + 1, close),
        i < r <= chars.len(),
{
    proof {
        lemma_quoted_end(chars@, i + 1, close);
    }
    let ghost target = quoted_end(chars@, i + 1, close);
    let mut j = i + 1;
    while j < chars.len()
        invariant_except_break
            quoted_end(chars@, j as int, close) == target,
        invariant
            i < j <= chars.len(),
        ensures
            j == target,
        decreases chars.len() - j,
    {
        if chars[j] == '\\' {
            if j + 1 < chars.len() {
                j = j + 2;
            } else {
                j = chars.len();
            }
        } else if chars[j] == close {
            j = j + 1;
            break;
        } else {
            j = j + 1;
        }
    }
    j
}

/// Position after a parenthesized group that opened at `i`.
fn scan_group(chars: &Vec<char>, i: usize) -> (r: usize)
    requires
        i < chars.len(),
    ensures
        r == group_end(chars@, i + 1, (1, false, false, false)),
        i < r <= chars.len(),
{
    proof {
        lemma_group_end(chars@, i + 1, (1, false, false, false));
    }
    let ghost target = group_end(chars@, i + 1, (1, false, false, false));
    let mut depth: usize = 1;
    let mut esc = false;
    let mut in_str = false;
    let mut in_cls = false;
    let mut j = i + 1;
    while j < chars.len() && depth > 0
        invariant
            i < j <= chars.len(),
            depth <= j - i,
            group_end(chars@, j as int, (depth as int, esc, in_str, in_cls)) == target,
        decreases chars.len() - j,
    {
        let ch = chars[j];
        if esc {
            esc = false;
        } else if ch == '\\' {
            esc = true;
        } else if in_str {
            if ch == '"' {
                in_str = false;
            }
        } else if in_cls {
            if ch == ']' {
                in_cls = false;
            }
        } else if ch == '"' {
            in_str = true;
        } else if ch == '[' {
            in_cls = true;
        } else if ch == '(' {
            depth = depth + 1;
        } else if ch == ')' {
            depth = depth - 1;
        }
        j = j + 1;
    }
    j
}

/// The tokens of a sequence as kinds, texts and quantifiers.
pub open spec fn toks_view(ts: Seq<Tok>) -> Seq<(TokKind, Seq<char>, Seq<char>)> {
    ts.map_values(|t: Tok| tok_view(t))
}

/// The tokens of a rule body: literals, classes, groups and names, each
/// with its quantifier, and `|` between alternatives. Text after a `#`
/// is ignored, as are characters that start no token.
pub fn tokenize(rhs: &Vec<char>) -> (out: Vec<Tok>)
    ensures
        toks_view(out@) == lex(rhs@, 0),
        forall|k: int| 0 <= k < out.len() ==> tok_shape(#[trigger] out@[k], rhs@.len()),
{
    let mut out: Vec<Tok> = Vec::new();
    let mut i: usize = 0;
    assert(toks_view(out@) + lex(rhs@, 0) =~= lex(rhs@, 0));
    while i < rhs.len()
        invariant
            i <= rhs.len(),
            toks_view(out@) + lex(rhs@, i as int) == lex(rhs@, 0),
            forall|k: int| 0 <= k < out.len() ==> tok_shape(#[trigger] out@[k], rhs@.len()),
        decreases rhs.len() - i,
    {
        let ghost before = out@;
        let ghost i0 = i as int;
        let c = rhs[i];
        if is_whitespace(c) {
            i = i + 1;
        } else if c == '#' {
            proof {
                assert(lex(rhs@, i0) =~= Seq::<(TokKind, Seq<char>, Seq<char>)>::empty());
                assert(toks_view(out@) =~= lex(rhs@, 0));
                assert(toks_view(out@) + lex(rhs@, rhs.len() as int) =~= toks_view(out@));
            }
            i = rhs.len();
        } else if c == '|' {
            out.push(Tok::Alt);
            proof {
                assert(toks_view(out@) =~= toks_view(before) + seq![(TokKind::Alt, Seq::<char>::empty(), Seq::<char>::empty())]);
            }
            i = i + 1;
        } else if c == '"' || c == '[' || c == '(' || is_alphabetic(c) || c == '_' {
            let start = i;
            let e = if c == '"' {
                scan_quoted(rhs, i, '"')
            } else if c == '[' {
                scan_quoted(rhs, i, ']')
            } else if c == '(' {
                scan_group(rhs, i)
            } else {
                let mut k = i + 1;
                proof {
                    lemma_name_end(rhs@, i + 1);
                }
                while k < rhs.len() && (is_alphanumeric(rhs[k]) || rhs[k] == '_' || rhs[k] == '-')
                    invariant
                        start < k <= rhs.len(),
                        name_end(rhs@, k as int) == name_end(rhs@, start + 1),
                    decreases rhs.len() - k,
                {
                    k = k + 1;
                }
                k
            };
            proof {
                lemma_piece_end(rhs@, i0);
                assert(e == piece_end(rhs@, i0));
            }
            let (q, j) = read_quant(rhs, e);
            let text = slice(rhs, start, e);
            proof {
                let ql = quant_len(rhs@, e as int);
                assert(j == e + ql);
                assert(q@ =~= rhs@.subrange(e as int, e + ql));
                assert(text@[0] == c);
            }
            let t = if c == '"' {
                Tok::Str(text, q)
            } else if c == '[' {
                Tok::Cls(text, q)
            } else if c == '(' {
                Tok::Group(text, q)
            } else {
                Tok::Nt(text, q)
            };
            proof {
                assert(tok_shape(t, rhs@.len()));
            }
            out.push(t);
            proof {
                assert(toks_view(out@) =~= toks_view(before) + seq![tok_view(t)]);
            }
            i = j;
        } else {
            i = i + 1;
        }
        proof {
            assert forall|k: int| 0 <= k < out.len() implies tok_shape(#[trigger] out@[k], rhs@.len()) by {
                if k < before.len() {
                    assert(out@[k] == before[k]);
                }
            }
        }
    }
    proof {
        if i >= rhs.len() {
            assert(toks_view(out@) + lex(rhs@, i as int) =~= toks_view(out@));
        }
    }
    out
}

/// The characters between the first and the last of a group's text.
pub fn group_inner(text: &Vec<char>) -> (r: Vec<char>)
    ensures
        text@.len() >= 2 ==> r@ == text@.subrange(1, text@.len() - 1),
        text@.len() < 2 ==> r@.len() == 0,
        r@.len() + 2 <= text@.len() || r@.len() == 0,
{
    if text.len() >= 2 {
        slice(text, 1, text.len() - 1)
    } else {
        Vec::new()
    }
}

/// Whether a token stands for a terminal: literals and classes do, names
/// and `|` do not, and a group does when every token inside it does
/// (a group of fewer than two characters has nothing inside).
pub open spec fn terminal_tok(t: (TokKind, Seq<char>, Seq<char>)) -> bool
    decreases t.1.len(), 0int,
{
    match t.0 {
        TokKind::Str => true,
        TokKind::Cls => true,
        TokKind::Group => {
            if t.1.len() < 2 {
                true
            } else {
                all_terminal(lex(t.1.subrange(1, t.1.len() - 1), 0), 0, (t.1.len() - 1) as nat)
            }
        },
        _ => false,
    }
}

/// Every token from position `k` on is `|` or stands for a terminal
/// (`n` bounds the texts of the tokens looked into).
pub open spec fn all_terminal(ts: Seq<(TokKind, Seq<char>, Seq<char>)>, k: int, n: nat) -> bool
    decreases n, ts.len() - k,
{
    if k < 0 || k >= ts.len() {
        true
    } else {
        &&& (ts[k].0 is Alt || (ts[k].1.len() < n && terminal_tok(ts[k])))
        &&& all_terminal(ts, k + 1, n)
    }
}

/// Whether a token stands for a terminal: literals and classes do, names
/// and `|` do not, and a group does when every token inside it does.
pub fn tok_is_terminal(tok: &Tok) -> (r: bool)
    ensures
        r == terminal_tok(tok_view(*tok)),
    decreases tok_text(*tok).len(),
{
    match tok {
        Tok::Str(_, _) => true,
        Tok::Cls(_, _) => true,
        Tok::Group(text, _) => {
            if text.len() < 2 {
                return true;
            }
            let inner = group_inner(text);
            let toks = tokenize(&inner);
            let ghost tv = toks_view(toks@);
            let ghost n = (text@.len() - 1) as nat;
            assert(inner@ == text@.subrange(1, text@.len() - 1));
            assert(terminal_tok(tok_view(*tok)) == all_terminal(tv, 0, n));
            let mut k: usize = 0;
            while k < toks.len()
                invariant
                    k <= toks.len(),
                    forall|m: int| 0 <= m < toks.len() ==> tok_shape(#[trigger] toks@[m], inner@.len()),
                    inner@.len() < text@.len(),
                    inner@.len() + 1 == n,
                    tok_text(*tok) == text@,
                    *tok is Group,
                    tv == toks_view(toks@),
                    text@.len() >= 2,
                    tv == lex(text@.subrange(1, text@.len() - 1), 0),
                    terminal_tok(tok_view(*tok)) == all_terminal(tv, 0, n),
                    all_terminal(tv, k as int, n) == all_terminal(tv, 0, n),
                decreases toks.len() - k,
            {
                let t = &toks[k];
                assert(tv[k as int] == tok_view(*t));
                assert(tok_shape(toks@[k as int], inner@.len()));
                let is_alt = match t {
                    Tok::Alt => true,
                    _ => false,
                };
                assert(is_alt == (tv[k as int].0 is Alt));
                if !is_alt {
                    if !tok_is_terminal(t) {
                        proof {
                            assert(!all_terminal(tv, k as int, n));
                            assert(terminal_tok(tok_view(*tok)) == all_terminal(tv, 0, n));
                        }
                        return false;
                    }
                }
                k = k + 1;
            }
            assert(terminal_tok(tok_view(*tok)) == all_terminal(tv, 0, n));
            true
        },
        _ => false,
    }
}

/// Whether `c` is a regular-expression meta character
/// (`regex_syntax::is_meta_character`).
pub open spec fn regex_meta(c: char) -> bool {
    c == '\\' || c == '.' || c == '+' || c == '*' || c == '?' || c == '(' || c == ')' || c == '|'
        || c == '[' || c == ']' || c == '{' || c == '}' || c == '^' || c == '$' || c == '#' || c
        == '&' || c == '-' || c == '~'
}

/// The escaped form of one character: a backslash before meta characters.
pub open spec fn regex_escaped(c: char) -> Seq<char> {
    if regex_meta(c) { seq!['\\', c] } else { seq![c] }
}

/// `regex::escape` of a one-character string: the character, with a
/// backslash before it when it is a meta character.
#[verifier::external_body]
fn regex_escape_char(c: char) -> (r: Vec<char>)
    ensures
        r@ == regex_escaped(c),
{
    regex::escape(&c.to_string()).chars().collect()
}

/// Escapes kept as they are after a backslash.
pub open spec fn simple_escape(n: char) -> bool {
    n == 'n' || n == 't' || n == 'r' || n == 'f' || n == 'v' || n == '\\' || n == '"' || n == '\''
        || n == '/'
}

/// The regular expression for the contents of a GBNF literal: known
/// escapes are kept, `\x`, `\u`, `\U` escapes are copied whole, and every
/// other character is escaped for the regex syntax.
pub open spec fn escaped_literal(s: Seq<char>) -> Seq<char>
    decreases s.len(),
{
    if s.len() == 0 {
        Seq::empty()
    } else if s[0] == '\\' && s.len() >= 2 {
        let n = s[1];
        if simple_escape(n) {
            seq!['\\', n] + escaped_literal(s.skip(2))
        } else if n == 'x' && s.len() > 3 {
            s.take(4) + escaped_literal(s.skip(4))
        } else if n == 'u' && s.len() > 5 {
            s.take(6) + escaped_literal(s.skip(6))
        } else if n == 'U' && s.len() > 9 {
            s.take(10) + escaped_literal(s.skip(10))
        } else {
            regex_escaped(s[0]) + escaped_literal(s.drop_first())
        }
    } else {
        regex_escaped(s[0]) + escaped_literal(s.drop_first())
    }
}

/// The regular expression for the contents of a GBNF literal.
pub fn escape_literal(s: &Vec<char>) -> (out: Vec<char>)
    ensures
        out@ == escaped_literal(s@),
{
    let mut out: Vec<char> = Vec::new();
    let mut i: usize = 0;
    assert(s@.skip(0) =~= s@);
    assert(out@ + escaped_literal(s@) =~= escaped_literal(s@));
    while i < s.len()
        invariant
            i <= s.len(),
            out@ + escaped_literal(s@.skip(i as int)) == escaped_literal(s@),
        decreases s.len() - i,
    {
        let ghost rest = s@.skip(i as int);
        assert(rest.len() == s@.len() - i);
        let ghost before = out@;
        if s[i] == '\\' && i + 1 < s.len() {
            let n = s[i + 1];
            assert(rest[1] == n);
            if n == 'n' || n == 't' || n == 'r' || n == 'f' || n == 'v' || n == '\\' || n == '"' || n == '\'' || n == '/' {
                out.push('\\');
                out.push(n);
                proof {
                    assert(rest.skip(2) =~= s@.skip(i + 2));
                    assert(out@ =~= before + seq!['\\', n]);
                }
                i = i + 2;
            } else if n == 'x' && s.len() - i > 3 {
                let piece = slice(s, i, i + 4);
                push_all(&mut out, &piece);
                proof {
                    assert(rest.skip(4) =~= s@.skip(i + 4));
                    assert(piece@ =~= rest.take(4));
                }
                i = i + 4;
            } else if n == 'u' && s.len() - i > 5 {
                let piece = slice(s, i, i + 6);
                push_all(&mut out, &piece);
                proof {
                    assert(rest.skip(6) =~= s@.skip(i + 6));
                    assert(piece@ =~= rest.take(6));
                }
                i = i + 6;
            } else if n == 'U' && s.len() - i > 9 {
                let piece = slice(s, i, i + 10);
                push_all(&mut out, &piece);
                proof {
                    assert(rest.skip(10) =~= s@.skip(i + 10));
                    assert(piece@ =~= rest.take(10));
                }
                i = i + 10;
            } else {
                let e = regex_escape_char(s[i]);
                push_all(&mut out, &e);
                proof {
                    assert(rest.drop_first() =~= s@.skip(i + 1));
                }
                i = i + 1;
            }
        } else {
            let e = regex_escape_char(s[i]);
            push_all(&mut out, &e);
            proof {
                assert(rest.drop_first() =~= s@.skip(i + 1));
            }
            i = i + 1;
        }
        proof {
            assert(out@ + escaped_literal(s@.skip(i as int)) =~= before + escaped_literal(rest));
        }
    }
    assert(s@.skip(i as int) =~= Seq::<char>::empty());
    assert(out@ + escaped_literal(s@.skip(i as int)) =~= out@);
    out
}

/// How a converted piece is wrapped before a quantifier applies to it.
pub open spec fn wrapped_for_quant(s: Seq<char>) -> Seq<char> {
    if s.len() == 1 || (s.len() >= 1 && s[0] == '[' && s.last() == ']') {
        s
    } else if s.len() >= 2 && s[0] == '(' && s.last() == ')' {
        seq!['(', '?', ':'] + s.subrange(1, s.len() - 1) + seq![')']
    } else {
        seq!['(', '?', ':'] + s + seq![')']
    }
}

/// Wraps a converted piece in a non-capturing group unless it is a single
/// character or a class, so that a quantifier applies to all of it.
pub fn wrap_for_quant(s: &Vec<char>) -> (r: Vec<char>)
    ensures
        r@ == wrapped_for_quant(s@),
{
    let n = s.len();
    if n == 1 || (n >= 1 && s[0] == '[' && s[n - 1] == ']') {
        clone_sym(s)
    } else if n >= 2 && s[0] == '(' && s[n - 1] == ')' {
        let mut r: Vec<char> = vec!['(', '?', ':'];
        let inner = slice(s, 1, n - 1);
        push_all(&mut r, &inner);
        r.push(')');
        r
    } else {
        let mut r: Vec<char> = vec!['(', '?', ':'];
        push_all(&mut r, s);
        r.push(')');
        r
    }
}

/// Where the piece of a terminal group that starts at `i` ends: a literal,
/// a class or a nested group whole (a parenthesis inside a literal or a
/// class of the nested group does not count), any other character alone.
pub open spec fn group_piece_end(s: Seq<char>, i: int) -> int {
    let c = s[i];
    if c == '"' {
        quoted_end(s, i + 1, '"')
    } else if c == '[' {
        quoted_end(s, i + 1, ']')
    } else if c == '(' {
        group_end(s, i + 1, (1, false, false, false))
    } else {
        i + 1
    }
}

pub proof fn lemma_group_piece_end(s: Seq<char>, i: int)
    requires
        0 <= i < s.len(),
    ensures
        i < group_piece_end(s, i) <= s.len(),
{
    let c = s[i];
    if c == '"' {
        lemma_quoted_end(s, i + 1, '"');
    } else if c == '[' {
        lemma_quoted_end(s, i + 1, ']');
    } else if c == '(' {
        lemma_group_end(s, i + 1, (1, false, false, false));
    }
}

/// The pieces of the inside of a terminal group from position `i` on,
/// white space skipped.
pub open spec fn group_pieces(s: Seq<char>, i: int) -> Seq<Seq<char>>
    decreases s.len() - i,
{
    if i < 0 || i >= s.len() {
        Seq::empty()
    } else if white_space(s[i]) {
        group_pieces(s, i + 1)
    } else {
        let e = group_piece_end(s, i);
        proof {
            lemma_group_piece_end(s, i);
        }
        seq![s.subrange(i, e)] + group_pieces(s, e)
    }
}

/// Splits the inside of a group into its pieces: literals, classes and
/// nested groups whole, and every other non-space character on its own.
pub fn extract_groups(group: &Vec<char>) -> (out: Vec<Vec<char>>)
    requires
        group@.len() >= 2,
    ensures
        out@.map_values(|p: Vec<char>| p@) == group_pieces(group@.subrange(1, group@.len() - 1), 0),
        forall|k: int| 0 <= k < out.len() ==> 1 <= (#[trigger] out@[k])@.len() <= group@.len() - 2,
{
    let inner = slice(group, 1, group.len() - 1);
    let ghost gp = group_pieces(inner@, 0);
    let mut out: Vec<Vec<char>> = Vec::new();
    let mut i: usize = 0;
    assert(out@.map_values(|p: Vec<char>| p@) + group_pieces(inner@, 0) =~= gp);
    while i < inner.len()
        invariant
            i <= inner.len(),
            inner@.len() == group@.len() - 2,
            inner@ == group@.subrange(1, group@.len() - 1),
            gp == group_pieces(inner@, 0),
            out@.map_values(|p: Vec<char>| p@) + group_pieces(inner@, i as int) == gp,
            forall|k: int| 0 <= k < out.len() ==> 1 <= (#[trigger] out@[k])@.len() <= group@.len() - 2,
        decreases inner.len() - i,
    {
        let ghost before = out@;
        let c = inner[i];
        if is_whitespace(c) {
            i = i + 1;
        } else {
            let start = i;
            let e = if c == '"' {
                scan_quoted(&inner, i, '"')
            } else if c == '[' {
                scan_quoted(&inner, i, ']')
            } else if c == '(' {
                scan_group(&inner, i)
            } else {
                i + 1
            };
            assert(e == group_piece_end(inner@, start as int));
            let piece = slice(&inner, start, e);
            out.push(piece);
            proof {
                assert(out@.map_values(|p: Vec<char>| p@) =~= before.map_values(|p: Vec<char>| p@) + seq![piece@]);
                assert forall|k: int| 0 <= k < out.len() implies 1 <= (#[trigger] out@[k])@.len() <= group@.len() - 2 by {
                    if k < before.len() {
                        assert(out@[k] == before[k]);
                    }
                }
            }
            i = e;
        }
    }
    assert(out@.map_values(|p: Vec<char>| p@) + group_pieces(inner@, i as int) =~= out@.map_values(|p: Vec<char>| p@));
    out
}

/// A piece that is a quantifier.
pub open spec fn quant_piece(p: Seq<char>) -> bool {
    p.len() == 1 && (p[0] == '*' || p[0] == '+' || p[0] == '?')
}

/// A trimmed piece shorter than two bytes: empty, or one ASCII character.
pub open spec fn short_atom(t: Seq<char>) -> bool {
    t.len() == 0 || (t.len() == 1 && (t[0] as u32) < 0x80)
}

/// The regular expression for a terminal piece of GBNF, or the piece that
/// is not recognized: a class (or a piece shorter than two bytes) as it
/// stands with `\"` and `\'` unescaped, a literal with its contents
/// escaped, a group as the expressions of its pieces in parentheses, a
/// piece followed by a quantifier piece wrapped for it.
pub open spec fn atom_regex(s: Seq<char>) -> Result<Seq<char>, Seq<char>>
    decreases s.len(), 0int,
{
    let t = trimmed(s);
    if short_atom(t) || (t.len() >= 1 && t[0] == '[' && t.last() == ']') {
        Ok(replaced(replaced(t, '\\', '"', '"'), '\\', '\'', '\''))
    } else if t.len() >= 1 && t[0] == '"' && t.last() == '"' {
        Ok(escaped_literal(t.subrange(1, t.len() - 1)))
    } else if t.len() >= 2 && t[0] == '(' && t.last() == ')' {
        proof {
            lemma_trimmed_len(s);
        }
        match pieces_regex(group_pieces(t.subrange(1, t.len() - 1), 0), 0, (t.len() - 1) as nat) {
            Ok(x) => Ok(seq!['('] + x + seq![')']),
            Err(a) => Err(a),
        }
    } else {
        Err(t)
    }
}

/// The expressions of the pieces from `i` on, concatenated, or the first
/// piece that is not recognized (`n` bounds the lengths of the pieces).
pub open spec fn pieces_regex(ps: Seq<Seq<char>>, i: int, n: nat) -> Result<Seq<char>, Seq<char>>
    decreases n, ps.len() - i,
{
    if i < 0 || i >= ps.len() {
        Ok(Seq::empty())
    } else if ps[i].len() >= n {
        Err(ps[i])
    } else {
        match atom_regex(ps[i]) {
            Err(a) => Err(a),
            Ok(c) => {
                if i + 1 < ps.len() && quant_piece(ps[i + 1]) {
                    match pieces_regex(ps, i + 2, n) {
                        Ok(rest) => Ok(wrapped_for_quant(c) + ps[i + 1] + rest),
                        Err(a) => Err(a),
                    }
                } else {
                    match pieces_regex(ps, i + 1, n) {
                        Ok(rest) => Ok(c + rest),
                        Err(a) => Err(a),
                    }
                }
            },
        }
    }
}

/// `p` before the expression of a result; an error stays as it is.
pub open spec fn prefixed(p: Seq<char>, r: Result<Seq<char>, Seq<char>>) -> Result<Seq<char>, Seq<char>> {
    match r {
        Ok(x) => Ok(p + x),
        Err(a) => Err(a),
    }
}

/// Converts a terminal piece of GBNF (a class, a literal, or a group of
/// such pieces with quantifiers) into a regular expression.
pub fn gbnf_to_regex_rec(s0: &Vec<char>) -> (r: Result<Vec<char>, GbnfError>)
    ensures
        match r {
            Ok(x) => atom_regex(s0@) == Ok::<Seq<char>, Seq<char>>(x@),
            Err(GbnfError::UnrecognizedAtom(a)) => atom_regex(s0@) == Err::<Seq<char>, Seq<char>>(a@),
            Err(_) => false,
        },
    decreases s0@.len(),
{
    let s = trim(s0);
    proof {
        lemma_trimmed_len(s0@);
    }
    let n = s.len();
    let short = n == 0 || (n == 1 && (s[0] as u32) < 0x80);
    if short || (n >= 1 && s[0] == '[' && s[n - 1] == ']') {
        let a = replace_pair(&s, '\\', '"', '"');
        return Ok(replace_pair(&a, '\\', '\'', '\''));
    }
    if n >= 1 && s[0] == '"' && s[n - 1] == '"' {
        let inner = slice(&s, 1, n - 1);
        return Ok(escape_literal(&inner));
    }
    if n >= 2 && s[0] == '(' && s[n - 1] == ')' {
        let groups = extract_groups(&s);
        let ghost ps = groups@.map_values(|p: Vec<char>| p@);
        let ghost bound = (n - 1) as nat;
        let mut parts: Vec<char> = Vec::new();
        let mut i: usize = 0;
        assert(pieces_regex(ps, 0, bound) == prefixed(parts@, pieces_regex(ps, 0, bound))) by {
            assert(parts@ == Seq::<char>::empty());
            match pieces_regex(ps, 0, bound) {
                Ok(x) => { assert(Seq::<char>::empty() + x =~= x); },
                Err(_) => {},
            }
        }
        while i < groups.len()
            invariant
                i <= groups.len(),
                n == s@.len(),
                s@ == trimmed(s0@),
                s@.len() <= s0@.len(),
                n >= 2,
                bound == n - 1,
                ps == groups@.map_values(|p: Vec<char>| p@),
                ps == group_pieces(s@.subrange(1, s@.len() - 1), 0),
                atom_regex(s0@) == (match pieces_regex(ps, 0, bound) {
                    Ok(x) => Ok(seq!['('] + x + seq![')']),
                    Err(a) => Err(a),
                }),
                forall|k: int| 0 <= k < groups.len() ==> 1 <= (#[trigger] groups@[k])@.len() <= n - 2,
                pieces_regex(ps, 0, bound) == prefixed(parts@, pieces_regex(ps, i as int, bound)),
            decreases groups.len() - i,
        {
            let ghost before = parts@;
            assert(ps[i as int] == groups@[i as int]@);
            assert(ps[i as int].len() < bound);
            let converted = match gbnf_to_regex_rec(&groups[i]) {
                Ok(x) => x,
                Err(e) => {
                    return Err(e);
                },
            };
            let is_quant = i + 1 < groups.len() && groups[i + 1].len() == 1 && (groups[i + 1][0] == '*' || groups[i + 1][0] == '+' || groups[i + 1][0] == '?');
            if is_quant {
                assert(ps[i + 1] == groups@[i + 1]@);
                assert(quant_piece(ps[i + 1]));
                let w = wrap_for_quant(&converted);
                push_all(&mut parts, &w);
                push_all(&mut parts, &groups[i + 1]);
                proof {
                    match pieces_regex(ps, i + 2, bound) {
                        Ok(rest) => {
                            assert(before + (wrapped_for_quant(converted@) + ps[i + 1] + rest) =~= parts@ + rest);
                        },
                        Err(_) => {},
                    }
                }
                i = i + 2;
            } else {
                proof {
                    if i + 1 < groups.len() {
                        assert(ps[i + 1] == groups@[i + 1]@);
                    }
                    assert(!(i + 1 < ps.len() && quant_piece(ps[i + 1])));
                }
                push_all(&mut parts, &converted);
                proof {
                    match pieces_regex(ps, i + 1, bound) {
                        Ok(rest) => {
                            assert(before + (converted@ + rest) =~= parts@ + rest);
                        },
                        Err(_) => {},
                    }
                }
                i = i + 1;
            }
        }
        proof {
            assert(parts@ + Seq::<char>::empty() =~= parts@);
        }
        let mut res: Vec<char> = Vec::new();
        res.push('(');
        push_all(&mut res, &parts);
        res.push(')');
        assert(res@ =~= seq!['('] + parts@ + seq![')']);
        return Ok(res);
    }
    Err(GbnfError::UnrecognizedAtom(s))
}

pub proof fn lemma_trimmed_len(s: Seq<char>)
    ensures
        trimmed(s).len() <= s.len(),
{
    lemma_lead_ws_le(s);
    let a = s.skip(crate::text::lead_ws(s) as int);
    lemma_lead_ws_le(a.reverse());
}

proof fn lemma_lead_ws_le(s: Seq<char>)
    ensures
        crate::text::lead_ws(s) <= s.len(),
    decreases s.len(),
{
    if s.len() > 0 {
        lemma_lead_ws_le(s.drop_first());
    }
}

/// The regular expression for the body of a terminal rule: the
/// expressions of its pieces concatenated, as for a group, or the first
/// piece that is not recognized.
pub open spec fn body_regex(s: Seq<char>) -> Result<Seq<char>, Seq<char>> {
    pieces_regex(group_pieces(s, 0), 0, (s.len() + 1) as nat)
}

/// `s` in parentheses is its own trimmed form.
proof fn lemma_trim_paren(s: Seq<char>)
    ensures
        trimmed(seq!['('] + s + seq![')']) == seq!['('] + s + seq![')'],
{
    let w = seq!['('] + s + seq![')'];
    assert(!white_space(w[0]));
    assert(crate::text::lead_ws(w) == 0);
    assert(w.skip(0) =~= w);
    assert(w.reverse()[0] == w.last());
    assert(!white_space(w.reverse()[0]));
    assert(crate::text::lead_ws(w.reverse()) == 0);
    assert(w.take(w.len() as int) =~= w);
}

/// Converts the body of a terminal rule piece into a regular expression.
pub fn gbnf_to_regex(s: &Vec<char>) -> (r: Result<Vec<char>, GbnfError>)
    ensures
        match r {
            Ok(x) => body_regex(s@) == Ok::<Seq<char>, Seq<char>>(x@),
            Err(GbnfError::UnrecognizedAtom(a)) => body_regex(s@) == Err::<Seq<char>, Seq<char>>(a@),
            Err(_) => false,
        },
{
    let mut w: Vec<char> = Vec::new();
    w.push('(');
    push_all(&mut w, s);
    w.push(')');
    proof {
        assert(w@ =~= seq!['('] + s@ + seq![')']);
        lemma_trim_paren(s@);
        assert(w@.subrange(1, w@.len() - 1) =~= s@);
        assert(short_atom(w@) == false);
    }
    let wrapped = gbnf_to_regex_rec(&w)?;
    proof {
        match body_regex(s@) {
            Ok(x) => {
                assert(wrapped@ == seq!['('] + x + seq![')']);
                assert(wrapped@.subrange(1, wrapped@.len() - 1) =~= x);
            },
            Err(_) => {},
        }
    }
    Ok(slice(&wrapped, 1, wrapped.len() - 1))
}

} // verus!
