//! Token strings as bytes: the GPT-2 byte-level alphabet decoded back to
//! bytes, byte-fallback tokens `<0xHH>`, the end-of-sequence id taken from
//! tokenizer settings, and id ranges given on the command line.
use vstd::prelude::*;
use crate::symbols::str_to_chars;

verus! {

/// Byte `b` stands for itself in the GPT-2 alphabet.
pub open spec fn printable(b: int) -> bool {
    !(b < 33 || (127 <= b && b <= 160) || b == 173)
}

/// The number of bytes below `b` that do not stand for themselves.
pub open spec fn shifted_below(b: int) -> nat
    decreases b,
{
    if b <= 0 {
        0
    } else {
        shifted_below(b - 1) + if printable(b - 1) { 0nat } else { 1nat }
    }
}

/// The character that stands for byte `b` in the GPT-2 alphabet: the byte
/// itself when printable, otherwise the next code point from 256 on.
pub open spec fn gpt2_code(b: int) -> int {
    if printable(b) {
        b
    } else {
        256 + shifted_below(b) as int
    }
}

proof fn lemma_shifted_below_mono(a: int, b: int)
    requires
        0 <= a <= b,
    ensures
        shifted_below(a) <= shifted_below(b),
        a < b && !printable(a) ==> shifted_below(a) < shifted_below(b),
    decreases b - a,
{
    if a < b {
        lemma_shifted_below_mono(a, b - 1);
        if !printable(a) && a == b - 1 {
            assert(shifted_below(b) == shifted_below(a) + 1);
        }
    }
}

proof fn lemma_shifted_below_bound(b: int)
    requires
        0 <= b <= 256,
    ensures
        shifted_below(b) <= b,
    decreases b,
{
    if b > 0 {
        lemma_shifted_below_bound(b - 1);
    }
}

proof fn lemma_shifted_run(a: int, b: int, shifted: bool)
    requires
        0 <= a <= b,
        forall|x: int| a <= x < b ==> printable(x) == !shifted,
    ensures
        shifted_below(b) == shifted_below(a) + if shifted { b - a } else { 0 },
    decreases b - a,
{
    if a < b {
        lemma_shifted_run(a, b - 1, shifted);
    }
}

proof fn lemma_shifted_total()
    ensures
        shifted_below(256) == 68,
{
    lemma_shifted_run(0, 33, true);
    lemma_shifted_run(33, 127, false);
    lemma_shifted_run(127, 161, true);
    lemma_shifted_run(161, 173, false);
    lemma_shifted_run(173, 174, true);
    lemma_shifted_run(174, 256, false);
}

/// The decoding of the GPT-2 byte-level alphabet: for each code point
/// below 324, the byte it stands for, if any.
pub struct ByteDecoder {
    pub table: Vec<Option<u8>>,
}

impl ByteDecoder {
    pub open spec fn wf(&self) -> bool {
        &&& self.table.len() == 324
        &&& forall|x: int| 0 <= x < 324 ==> (#[trigger] self.table@[x] matches Some(b) ==> gpt2_code(b as int) == x)
        &&& forall|b: u8| 0 <= #[trigger] gpt2_code(b as int) < 324 && self.table@[gpt2_code(b as int)] == Some(b)
    }

    /// The byte that character `c` stands for, if any.
    pub fn decode(&self, c: char) -> (r: Option<u8>)
        requires
            self.wf(),
        ensures
            forall|b: u8| r == Some(b) <==> gpt2_code(b as int) == c as int,
    {
        let x = c as u32;
        if x < 324 {
            let r = self.table[x as usize];
            proof {
                assert forall|b: u8| r == Some(b) <==> gpt2_code(b as int) == c as int by {
                    if gpt2_code(b as int) == c as int {
                        assert(self.table@[gpt2_code(b as int)] == Some(b));
                    }
                }
            }
            r
        } else {
            proof {
                assert forall|b: u8| gpt2_code(b as int) != c as int by {
                    lemma_shifted_below_bound(b as int);
                    lemma_shifted_below_mono(b as int, 256);
                    lemma_shifted_total();
                }
            }
            None
        }
    }
}

/// The GPT-2 byte decoder: every byte from its character.
pub fn gpt2_byte_decoder() -> (d: ByteDecoder)
    ensures
        d.wf(),
{
    let mut table: Vec<Option<u8>> = Vec::new();
    let mut x: usize = 0;
    while x < 324
        invariant
            x <= 324,
            table.len() == x,
            forall|y: int| 0 <= y < x ==> table@[y] is None,
        decreases 324 - x,
    {
        table.push(None);
        x = x + 1;
    }
    let mut n: u32 = 0;
    let mut b: u32 = 0;
    while b < 256
        invariant
            b <= 256,
            n == shifted_below(b as int),
            n <= b,
            table.len() == 324,
            forall|y: int| 0 <= y < 324 ==> (#[trigger] table@[y] matches Some(c) ==> c < b && gpt2_code(c as int) == y),
            forall|c: u8| c < b ==> 0 <= #[trigger] gpt2_code(c as int) < 324 && table@[gpt2_code(c as int)] == Some(c),
        decreases 256 - b,
    {
        proof {
            lemma_shifted_below_bound(b as int);
            lemma_shifted_below_mono(b as int, 256);
            lemma_shifted_total();
        }
        let p = !(b < 33 || (127 <= b && b <= 160) || b == 173);
        let code: u32 = if p { b } else { n + 256 };
        assert(code == gpt2_code(b as int));
        assert(code < 324);
        let ghost t0 = table@;
        proof {
            assert forall|c: u8| c < b implies gpt2_code(c as int) != code by {
                if printable(c as int) && !p {
                    assert(gpt2_code(c as int) < 256);
                } else if !printable(c as int) && p {
                    assert(gpt2_code(b as int) < 256);
                } else if !printable(c as int) && !p {
                    lemma_shifted_below_mono(c as int, b as int);
                }
            }
            assert(t0[code as int] is None) by {
                if t0[code as int] is Some {
                    let c = t0[code as int]->0;
                    assert(c < b && gpt2_code(c as int) == code);
                }
            }
        }
        table.set(code as usize, Some(b as u8));
        proof {
            assert forall|y: int| 0 <= y < 324 implies (#[trigger] table@[y] matches Some(c) ==> c < b + 1 && gpt2_code(c as int) == y) by {
                if y != code {
                    assert(table@[y] == t0[y]);
                }
            }
            assert forall|c: u8| c < b + 1 implies 0 <= #[trigger] gpt2_code(c as int) < 324 && table@[gpt2_code(c as int)] == Some(c) by {
                if c < b {
                    assert(gpt2_code(c as int) != code);
                    assert(table@[gpt2_code(c as int)] == t0[gpt2_code(c as int)]);
                } else {
                    assert(c == b);
                }
            }
        }
        if !p {
            n = n + 1;
        }
        b = b + 1;
    }
    let d = ByteDecoder { table };
    proof {
        assert forall|c: u8| 0 <= #[trigger] gpt2_code(c as int) < 324 && d.table@[gpt2_code(c as int)] == Some(c) by {
            assert(c < 256);
        }
    }
    d
}

/// An ASCII hexadecimal digit.
pub open spec fn hex_digit(c: char) -> bool {
    ('0' <= c && c <= '9') || ('a' <= c && c <= 'f') || ('A' <= c && c <= 'F')
}

/// The value of a hexadecimal digit.
pub open spec fn hex_value(c: char) -> int {
    if '0' <= c && c <= '9' {
        c as int - '0' as int
    } else if 'a' <= c && c <= 'f' {
        c as int - 'a' as int + 10
    } else {
        c as int - 'A' as int + 10
    }
}

/// A byte-fallback token: `<0x` two hexadecimal digits `>`.
pub open spec fn hex_token(s: Seq<char>) -> bool {
    &&& s.len() == 6
    &&& s[0] == '<'
    &&& s[1] == '0'
    &&& s[2] == 'x'
    &&& hex_digit(s[3])
    &&& hex_digit(s[4])
    &&& s[5] == '>'
}

/// `regex::Regex::new(r"^<0x([0-9A-Fa-f]{2})>$")` and `Regex::captures`
/// on `token`: the pattern is anchored at both ends, so it matches the
/// byte-fallback tokens exactly, and the capture is their two digits.
#[verifier::external_body]
fn hex_token_digits(token: &str) -> (r: Option<String>)
    ensures
        r is Some <==> hex_token(token@),
        r matches Some(h) ==> h@ == token@.subrange(3, 5),
{
    let re = regex::Regex::new(r"^<0x([0-9A-Fa-f]{2})>$").unwrap();
    re.captures(token).map(|caps| caps[1].to_string())
}

fn hex_digit_value(c: char) -> (v: u8)
    requires
        hex_digit(c),
    ensures
        v as int == hex_value(c),
{
    if '0' <= c && c <= '9' {
        ((c as u32) - ('0' as u32)) as u8
    } else if 'a' <= c && c <= 'f' {
        ((c as u32) - ('a' as u32) + 10) as u8
    } else {
        ((c as u32) - ('A' as u32) + 10) as u8
    }
}

/// Why a token string could not be turned into bytes.
pub enum TokenError {
    /// A character outside the GPT-2 byte alphabet, and the token.
    UnknownChar(char, String),
    /// No token string for this id.
    MissingToken(usize),
}

/// Every character of `s` stands for a byte.
pub open spec fn all_decodable(s: Seq<char>) -> bool {
    forall|i: int| 0 <= i < s.len() ==> #[trigger] decodable(s[i])
}

/// Character `c` stands for a byte.
pub open spec fn decodable(c: char) -> bool {
    exists|b: u8| gpt2_code(b as int) == c as int
}

/// The byte each character of `s` stands for.
pub open spec fn decoded(s: Seq<char>) -> Seq<u8> {
    Seq::new(s.len(), |i: int| choose|b: u8| gpt2_code(b as int) == s[i] as int)
}

/// The bytes of a token string: a byte-fallback token `<0xHH>` is the
/// byte `HH`; otherwise each character is decoded through the GPT-2 byte
/// alphabet.
pub open spec fn token_bytes_spec(s: Seq<char>) -> Option<Seq<u8>> {
    if hex_token(s) {
        Some(seq![(hex_value(s[3]) * 16 + hex_value(s[4])) as u8])
    } else if all_decodable(s) {
        Some(decoded(s))
    } else {
        None
    }
}

proof fn lemma_gpt2_code_injective(a: u8, b: u8)
    requires
        gpt2_code(a as int) == gpt2_code(b as int),
    ensures
        a == b,
{
    if a != b {
        if a < b {
            lemma_shifted_below_mono(a as int, b as int);
        } else {
            lemma_shifted_below_mono(b as int, a as int);
        }
        lemma_shifted_below_bound(a as int);
        lemma_shifted_below_bound(b as int);
    }
}

/// The bytes of token string `token`, or the first character that stands
/// for no byte.
pub fn token_to_bytes(token: &str, dec: &ByteDecoder) -> (r: Result<Vec<u8>, TokenError>)
    requires
        dec.wf(),
    ensures
        match r {
            Ok(v) => token_bytes_spec(token@) == Some(v@),
            Err(TokenError::UnknownChar(c, t)) => token_bytes_spec(token@) is None && t@ == token@ && token@.contains(c) && forall|b: u8| gpt2_code(b as int) != c as int,
            Err(TokenError::MissingToken(_)) => false,
        },
{
    if let Some(h) = hex_token_digits(token) {
        let hc = str_to_chars(h.as_str());
        assert(hc@ == token@.subrange(3, 5));
        let hi = hex_digit_value(hc[0]);
        let lo = hex_digit_value(hc[1]);
        let v: u8 = hi * 16 + lo;
        let mut out: Vec<u8> = Vec::new();
        out.push(v);
        assert(out@ =~= seq![(hex_value(token@[3]) * 16 + hex_value(token@[4])) as u8]);
        return Ok(out);
    }
    let chars = str_to_chars(token);
    let mut out: Vec<u8> = Vec::new();
    let mut i: usize = 0;
    while i < chars.len()
        invariant
            dec.wf(),
            chars@ == token@,
            !hex_token(token@),
            i <= chars.len(),
            out.len() == i,
            forall|j: int| 0 <= j < i ==> gpt2_code(#[trigger] out@[j] as int) == chars@[j] as int,
        decreases chars.len() - i,
    {
        match dec.decode(chars[i]) {
            Some(b) => {
                out.push(b);
            },
            None => {
                let c = chars[i];
                proof {
                    assert(token@[i as int] == c);
                    assert(token@.contains(c));
                    assert(!decodable(token@[i as int]));
                }
                return Err(TokenError::UnknownChar(c, crate::symbols::chars_to_string(&chars)));
            },
        }
        i = i + 1;
    }
    proof {
        let s = token@;
        assert forall|k: int| 0 <= k < s.len() implies #[trigger] decodable(s[k]) by {
            assert(gpt2_code(out@[k] as int) == s[k] as int);
        }
        assert(all_decodable(s));
        let spec_v = decoded(s);
        assert forall|k: int| 0 <= k < s.len() implies spec_v[k] == out@[k] by {
            assert(decodable(s[k]));
            let b = choose|b: u8| gpt2_code(b as int) == s[k] as int;
            assert(gpt2_code(b as int) == s[k] as int);
            lemma_gpt2_code_injective(b, out@[k]);
        }
        assert(spec_v =~= out@);
        assert(!hex_token(s));
        assert(token_bytes_spec(s) == Some(spec_v));
    }
    Ok(out)
}

/// Entry `e` has a token string, and `v` is its bytes with its id.
pub open spec fn entry_decoded(e: (Option<String>, usize), v: (Vec<u8>, usize)) -> bool {
    match e.0 {
        Some(t) => token_bytes_spec(t@) == Some(v.0@) && v.1 == e.1,
        None => false,
    }
}

/// Entry `e` has the token string `t`, which holds `c`, a character that
/// stands for no byte.
pub open spec fn entry_undecodable(e: (Option<String>, usize), c: char, t: Seq<char>) -> bool {
    match e.0 {
        Some(s) => s@ == t && token_bytes_spec(t) is None && t.contains(c),
        None => false,
    }
}

/// The tokens of a vocabulary from `(token string, id)` entries: each
/// string becomes its bytes; an entry without a string, or a string with a
/// character outside the byte alphabet, stops the whole with an error.
pub fn decode_vocab(entries: &Vec<(Option<String>, usize)>) -> (r: Result<Vec<(Vec<u8>, usize)>, TokenError>)
    ensures
        match r {
            Ok(v) => {
                &&& v.len() == entries.len()
                &&& forall|i: int| 0 <= i < entries.len() ==> entry_decoded(#[trigger] entries@[i], v@[i])
            },
            Err(TokenError::MissingToken(id)) => exists|i: int| 0 <= i < entries.len() && #[trigger] entries@[i].0 is None && entries@[i].1 == id,
            Err(TokenError::UnknownChar(c, t)) => exists|i: int| 0 <= i < entries.len() && #[trigger] entry_undecodable(entries@[i], c, t@),
        },
{
    let dec = gpt2_byte_decoder();
    let mut out: Vec<(Vec<u8>, usize)> = Vec::new();
    let mut i: usize = 0;
    while i < entries.len()
        invariant
            dec.wf(),
            i <= entries.len(),
            out.len() == i,
            forall|j: int| 0 <= j < i ==> entry_decoded(#[trigger] entries@[j], out@[j]),
        decreases entries.len() - i,
    {
        let id = entries[i].1;
        match &entries[i].0 {
            None => {
                assert(entries@[i as int].0 is None);
                return Err(TokenError::MissingToken(id));
            },
            Some(t) => {
                match token_to_bytes(t.as_str(), &dec) {
                    Ok(bytes) => {
                        out.push((bytes, id));
                    },
                    Err(e) => {
                        proof {
                            if let TokenError::UnknownChar(c, t2) = &e {
                                assert(entry_undecodable(entries@[i as int], *c, t2@));
                            }
                        }
                        return Err(e);
                    },
                }
            },
        }
        i = i + 1;
    }
    Ok(out)
}

/// An end-of-sequence setting as tokenizer files give it: a number (its
/// value when it is a non-negative integer), a token name, an object with
/// an `id` (a non-negative integer) or a `content` (a string), or anything
/// else.
pub enum EosValue {
    Number(Option<u64>),
    Str(String),
    Object(Option<u64>, Option<String>),
    Other,
}

/// What an end-of-sequence setting says: an id, a token name to look up,
/// or nothing.
pub enum EosLookup {
    Found(usize),
    Name(String),
    Missing,
}

/// The end-of-sequence id a setting gives, or the token name to look up.
pub fn eos_from_value(v: &EosValue) -> (r: EosLookup)
    ensures
        match *v {
            EosValue::Number(Some(n)) => r == EosLookup::Found(n as usize),
            EosValue::Number(None) => r == EosLookup::Missing,
            EosValue::Str(s) => r matches EosLookup::Name(t) && t@ == s@,
            EosValue::Object(Some(n), _) => r == EosLookup::Found(n as usize),
            EosValue::Object(None, Some(s)) => r matches EosLookup::Name(t) && t@ == s@,
            EosValue::Object(None, None) => r == EosLookup::Missing,
            EosValue::Other => r == EosLookup::Missing,
        },
{
    match v {
        EosValue::Number(Some(n)) => EosLookup::Found(*n as usize),
        EosValue::Number(None) => EosLookup::Missing,
        EosValue::Str(s) => EosLookup::Name(s.clone()),
        EosValue::Object(Some(n), _) => EosLookup::Found(*n as usize),
        EosValue::Object(None, Some(s)) => EosLookup::Name(s.clone()),
        EosValue::Object(None, None) => EosLookup::Missing,
        EosValue::Other => EosLookup::Missing,
    }
}

/// The id a lookup ends with, given the id the tokenizer has for the
/// looked-up name.
pub fn resolve_eos(lookup: &EosLookup, name_id: Option<u32>) -> (r: Option<usize>)
    ensures
        match *lookup {
            EosLookup::Found(n) => r == Some(n),
            EosLookup::Name(_) => r == match name_id {
                Some(x) => Some(x as usize),
                None => None::<usize>,
            },
            EosLookup::Missing => r is None,
        },
{
    match lookup {
        EosLookup::Found(n) => Some(*n),
        EosLookup::Name(_) => match name_id {
            Some(x) => Some(x as usize),
            None => None,
        },
        EosLookup::Missing => None,
    }
}

/// The end-of-sequence settings one tokenizer file holds: its
/// `eos_token_id` and its `eos_token`, each where the file has it.
pub struct EosFields {
    pub eos_token_id: Option<EosValue>,
    pub eos_token: Option<EosValue>,
}

/// The tokenizer files that may hold the end-of-sequence setting, in the
/// order they are consulted.
pub fn eos_config_files() -> (r: Vec<&'static str>)
    ensures
        r@ == seq!["tokenizer_config.json", "special_tokens_map.json", "config.json"],
{
    vec!["tokenizer_config.json", "special_tokens_map.json", "config.json"]
}

/// The token whose id is taken when no file gives one.
pub fn eos_fallback_token() -> (r: &'static str)
    ensures
        r == "<|endoftext|>",
{
    "<|endoftext|>"
}

/// The id a setting resolves to, given the id the tokenizer has for the
/// name it holds (if it holds one).
pub open spec fn resolved(v: EosValue, name_id: Option<u32>) -> Option<usize> {
    match v {
        EosValue::Number(Some(n)) => Some(n as usize),
        EosValue::Str(_) => match name_id {
            Some(x) => Some(x as usize),
            None => None,
        },
        EosValue::Object(Some(n), _) => Some(n as usize),
        EosValue::Object(None, Some(_)) => match name_id {
            Some(x) => Some(x as usize),
            None => None,
        },
        _ => None,
    }
}

/// The setting of file `f` under key `k` (`0`: `eos_token_id`, `1`:
/// `eos_token`).
pub open spec fn eos_slot(files: Seq<Option<EosFields>>, f: int, k: int) -> Option<EosValue> {
    match files[f] {
        Some(fs) => if k == 0 { fs.eos_token_id } else { fs.eos_token },
        None => None,
    }
}

/// What the setting of file `f` under key `k` resolves to; the name is
/// looked up at `lookups[2 * f + k]` (nothing where the list is shorter).
pub open spec fn slot_result(files: Seq<Option<EosFields>>, lookups: Seq<Option<u32>>, f: int, k: int) -> Option<usize> {
    match eos_slot(files, f, k) {
        Some(v) => resolved(v, if 2 * f + k < lookups.len() { lookups[2 * f + k] } else { None }),
        None => None,
    }
}

/// The first setting that resolves, over the files from `f` on in order
/// and within a file `eos_token_id` before `eos_token`; the fallback
/// token's id when none does.
pub open spec fn first_resolved(files: Seq<Option<EosFields>>, lookups: Seq<Option<u32>>, fallback: Option<u32>, f: int) -> Option<usize>
    decreases files.len() - f,
{
    if f < 0 || f >= files.len() {
        match fallback {
            Some(x) => Some(x as usize),
            None => None,
        }
    } else if slot_result(files, lookups, f, 0) is Some {
        slot_result(files, lookups, f, 0)
    } else if slot_result(files, lookups, f, 1) is Some {
        slot_result(files, lookups, f, 1)
    } else {
        first_resolved(files, lookups, fallback, f + 1)
    }
}

fn resolve_slot(v: &Option<EosValue>, lookups: &Vec<Option<u32>>, at: usize) -> (r: Option<usize>)
    ensures
        r == match *v {
            Some(x) => resolved(x, if at < lookups.len() { lookups@[at as int] } else { None }),
            None => None,
        },
{
    match v {
        Some(x) => {
            let name_id = if at < lookups.len() { lookups[at] } else { None };
            let lookup = eos_from_value(x);
            resolve_eos(&lookup, name_id)
        },
        None => None,
    }
}

/// The end-of-sequence id: the first setting that resolves, over the
/// files in order (`None` for a file that could not be read) and within a
/// file `eos_token_id` before `eos_token`. A setting that names a token
/// resolves to the id at `lookups[2 * f + k]` that the tokenizer has for
/// that name. When none resolves, the id of the fallback token.
pub fn first_eos(files: &Vec<Option<EosFields>>, lookups: &Vec<Option<u32>>, fallback: Option<u32>) -> (r: Option<usize>)
    requires
        2 * files.len() + 1 < usize::MAX,
    ensures
        r == first_resolved(files@, lookups@, fallback, 0),
{
    let mut f: usize = 0;
    while f < files.len()
        invariant
            f <= files.len(),
            2 * files.len() + 1 < usize::MAX,
            first_resolved(files@, lookups@, fallback, 0) == first_resolved(files@, lookups@, fallback, f as int),
        decreases files.len() - f,
    {
        match &files[f] {
            Some(fs) => {
                let a = resolve_slot(&fs.eos_token_id, lookups, 2 * f);
                if a.is_some() {
                    return a;
                }
                let b = resolve_slot(&fs.eos_token, lookups, 2 * f + 1);
                if b.is_some() {
                    return b;
                }
            },
            None => {},
        }
        f = f + 1;
    }
    match fallback {
        Some(x) => Some(x as usize),
        None => None,
    }
}

/// Why a range argument could not be read.
pub enum RangeError {
    /// Neither `..` nor `:` separates the two ends.
    Format,
    /// The start is not a number.
    BadStart,
    /// The end is not a number.
    BadEnd,
}

impl RangeError {
    /// The message for the error.
    pub fn describe(&self) -> (r: String)
        ensures
            r@ == range_error_text(self),
    {
        match self {
            RangeError::Format => crate::symbols::chars_to_string(&str_to_chars("expected START..END")),
            RangeError::BadStart => crate::symbols::chars_to_string(&str_to_chars("bad start")),
            RangeError::BadEnd => crate::symbols::chars_to_string(&str_to_chars("bad end")),
        }
    }
}

pub open spec fn range_error_text(e: &RangeError) -> Seq<char> {
    match *e {
        RangeError::Format => "expected START..END"@,
        RangeError::BadStart => "bad start"@,
        RangeError::BadEnd => "bad end"@,
    }
}

/// An ASCII decimal digit.
pub open spec fn dec_digit(c: char) -> bool {
    '0' <= c && c <= '9'
}

/// The value of a string of decimal digits.
pub open spec fn dec_value(s: Seq<char>) -> int
    decreases s.len(),
{
    if s.len() == 0 {
        0
    } else {
        dec_value(s.drop_last()) * 10 + (s.last() as int - '0' as int)
    }
}

/// The digits of an unsigned number as `usize::from_str` reads it: an
/// optional `+`, then at least one digit.
pub open spec fn num_digits(s: Seq<char>) -> Seq<char> {
    if s.len() > 0 && s[0] == '+' {
        s.skip(1)
    } else {
        s
    }
}

/// `s` reads as a `usize`, and its value.
pub open spec fn parses_usize(s: Seq<char>) -> bool {
    let d = num_digits(s);
    &&& d.len() > 0
    &&& forall|i: int| 0 <= i < d.len() ==> #[trigger] dec_digit(d[i])
    &&& dec_value(d) <= usize::MAX
}

/// The number `s` reads as, when it reads as one.
pub fn parse_usize(s: &Vec<char>) -> (r: Option<usize>)
    ensures
        r is Some <==> parses_usize(s@),
        r matches Some(v) ==> v == dec_value(num_digits(s@)),
{
    let start: usize = if s.len() > 0 && s[0] == '+' { 1 } else { 0 };
    let ghost d = num_digits(s@);
    assert(d == s@.subrange(start as int, s@.len() as int));
    if start >= s.len() {
        return None;
    }
    let mut v: usize = 0;
    let mut i: usize = start;
    while i < s.len()
        invariant
            start <= i <= s.len(),
            d == s@.subrange(start as int, s@.len() as int),
            d == num_digits(s@),
            forall|j: int| start <= j < i ==> dec_digit(#[trigger] s@[j]),
            v == dec_value(s@.subrange(start as int, i as int)),
        decreases s.len() - i,
    {
        let c = s[i];
        if !('0' <= c && c <= '9') {
            proof {
                assert(d[i - start] == c);
                assert(!dec_digit(d[i - start]));
            }
            return None;
        }
        let digit = (c as u32 - '0' as u32) as usize;
        proof {
            assert(s@.subrange(start as int, i + 1).drop_last() =~= s@.subrange(start as int, i as int));
            assert(s@.subrange(start as int, i + 1).last() == c);
        }
        if v > (usize::MAX - digit) / 10 {
            proof {
                if parses_usize(s@) {
                    lemma_dec_value_prefix(d, i + 1 - start);
                }
                assert(dec_value(s@.subrange(start as int, i + 1)) == v * 10 + digit) by (nonlinear_arith)
                    requires
                        dec_value(s@.subrange(start as int, i + 1)) == dec_value(s@.subrange(start as int, i as int)) * 10 + digit,
                        v == dec_value(s@.subrange(start as int, i as int));
                assert(v * 10 + digit > usize::MAX) by (nonlinear_arith)
                    requires
                        v > (usize::MAX - digit) / 10,
                        digit <= 9;
                assert(d.take(i + 1 - start) =~= s@.subrange(start as int, i + 1));
            }
            return None;
        }
        proof {
            assert(v * 10 + digit <= usize::MAX) by (nonlinear_arith)
                requires
                    v <= (usize::MAX - digit) / 10,
                    digit <= 9;
        }
        v = v * 10 + digit;
        i = i + 1;
    }
    proof {
        assert(s@.subrange(start as int, s@.len() as int) == d);
        assert forall|j: int| 0 <= j < d.len() implies #[trigger] dec_digit(d[j]) by {
            assert(d[j] == s@[start + j]);
        }
    }
    Some(v)
}

proof fn lemma_dec_value_nonneg(d: Seq<char>)
    requires
        forall|i: int| 0 <= i < d.len() ==> #[trigger] dec_digit(d[i]),
    ensures
        dec_value(d) >= 0,
    decreases d.len(),
{
    if d.len() > 0 {
        assert(dec_digit(d[d.len() - 1]));
        assert forall|i: int| 0 <= i < d.drop_last().len() implies #[trigger] dec_digit(d.drop_last()[i]) by {
            assert(dec_digit(d[i]));
        }
        lemma_dec_value_nonneg(d.drop_last());
    }
}

proof fn lemma_dec_value_prefix(d: Seq<char>, k: int)
    requires
        0 <= k <= d.len(),
        forall|i: int| 0 <= i < d.len() ==> #[trigger] dec_digit(d[i]),
    ensures
        dec_value(d.take(k)) <= dec_value(d),
    decreases d.len() - k,
{
    if k < d.len() {
        lemma_dec_value_prefix(d, k + 1);
        assert(d.take(k + 1).drop_last() =~= d.take(k));
        assert(dec_value(d.take(k + 1)) == dec_value(d.take(k)) * 10 + (d[k] as int - '0' as int));
        assert(dec_digit(d[k]));
        assert forall|i: int| 0 <= i < d.take(k).len() implies #[trigger] dec_digit(d.take(k)[i]) by {
            assert(dec_digit(d[i]));
        }
        lemma_dec_value_nonneg(d.take(k));
    } else {
        assert(d.take(k) =~= d);
    }
}

/// Position of the first `..` in `s`, if any.
fn find_dots(s: &Vec<char>) -> (r: Option<usize>)
    ensures
        r matches Some(i) ==> i + 1 < s.len() && s@[i as int] == '.' && s@[i + 1] == '.' && forall|j: int| 0 <= j < i ==> !(#[trigger] s@[j] == '.' && s@[j + 1] == '.'),
        r is None ==> forall|j: int| 0 <= j && j + 1 < s.len() ==> !(#[trigger] s@[j] == '.' && s@[j + 1] == '.'),
{
    let mut i: usize = 0;
    while i < s.len() && i + 1 < s.len()
        invariant
            i <= s.len(),
            forall|j: int| 0 <= j < i ==> !(#[trigger] s@[j] == '.' && s@[j + 1] == '.'),
        decreases s.len() - i,
    {
        if s[i] == '.' && s[i + 1] == '.' {
            return Some(i);
        }
        i = i + 1;
    }
    None
}

/// Position of the first `:` in `s`, if any.
fn find_colon(s: &Vec<char>) -> (r: Option<usize>)
    ensures
        r matches Some(i) ==> i < s.len() && s@[i as int] == ':' && forall|j: int| 0 <= j < i ==> #[trigger] s@[j] != ':',
        r is None ==> forall|j: int| 0 <= j < s.len() ==> #[trigger] s@[j] != ':',
{
    let mut i: usize = 0;
    while i < s.len()
        invariant
            i <= s.len(),
            forall|j: int| 0 <= j < i ==> #[trigger] s@[j] != ':',
        decreases s.len() - i,
    {
        if s[i] == ':' {
            return Some(i);
        }
        i = i + 1;
    }
    None
}

/// The two ends of `s` split at its first `..`, or else at its first `:`.
pub open spec fn range_parts(s: Seq<char>) -> Option<(Seq<char>, Seq<char>)> {
    if exists|j: int| 0 <= j && j + 1 < s.len() && #[trigger] s[j] == '.' && s[j + 1] == '.' {
        let j = choose|j: int| 0 <= j && j + 1 < s.len() && #[trigger] s[j] == '.' && s[j + 1] == '.' && forall|k: int| 0 <= k < j ==> !(#[trigger] s[k] == '.' && s[k + 1] == '.');
        Some((s.take(j), s.skip(j + 2)))
    } else if exists|j: int| 0 <= j < s.len() && #[trigger] s[j] == ':' {
        let j = choose|j: int| 0 <= j < s.len() && #[trigger] s[j] == ':' && forall|k: int| 0 <= k < j ==> #[trigger] s[k] != ':';
        Some((s.take(j), s.skip(j + 1)))
    } else {
        None
    }
}

fn sub_chars(s: &Vec<char>, a: usize, b: usize) -> (r: Vec<char>)
    requires
        a <= b <= s.len(),
    ensures
        r@ == s@.subrange(a as int, b as int),
{
    let mut r: Vec<char> = Vec::new();
    let mut i: usize = a;
    while i < b
        invariant
            a <= i <= b <= s.len(),
            r@ == s@.subrange(a as int, i as int),
        decreases b - i,
    {
        r.push(s[i]);
        i = i + 1;
    }
    r
}

/// A token id range `START..END` (or `START:END`).
pub fn parse_range(s: &str) -> (r: Result<(usize, usize), RangeError>)
    ensures
        match r {
            Ok((a, b)) => range_parts(s@) matches Some((x, y)) && parses_usize(x) && parses_usize(y) && a == dec_value(num_digits(x)) && b == dec_value(num_digits(y)),
            Err(RangeError::Format) => range_parts(s@) is None,
            Err(RangeError::BadStart) => range_parts(s@) matches Some((x, _)) && !parses_usize(x),
            Err(RangeError::BadEnd) => range_parts(s@) matches Some((x, y)) && parses_usize(x) && !parses_usize(y),
        },
{
    let cs = str_to_chars(s);
    let (x, y) = match find_dots(&cs) {
        Some(i) => {
            proof {
                let j = choose|j: int| 0 <= j && j + 1 < s@.len() && #[trigger] s@[j] == '.' && s@[j + 1] == '.' && forall|k: int| 0 <= k < j ==> !(#[trigger] s@[k] == '.' && s@[k + 1] == '.');
                if j < i {
                    assert(!(cs@[j] == '.' && cs@[j + 1] == '.'));
                } else if j > i {
                    assert(!(s@[i as int] == '.' && s@[i + 1] == '.'));
                }
            }
            (sub_chars(&cs, 0, i), sub_chars(&cs, i + 2, cs.len()))
        },
        None => match find_colon(&cs) {
            Some(i) => {
                proof {
                    let j = choose|j: int| 0 <= j < s@.len() && #[trigger] s@[j] == ':' && forall|k: int| 0 <= k < j ==> #[trigger] s@[k] != ':';
                    if j < i {
                        assert(cs@[j] != ':');
                    } else if j > i {
                        assert(s@[i as int] != ':');
                    }
                }
                (sub_chars(&cs, 0, i), sub_chars(&cs, i + 1, cs.len()))
            },
            None => {
                return Err(RangeError::Format);
            },
        },
    };
    let a = match parse_usize(&x) {
        Some(a) => a,
        None => {
            return Err(RangeError::BadStart);
        },
    };
    let b = match parse_usize(&y) {
        Some(b) => b,
        None => {
            return Err(RangeError::BadEnd);
        },
    };
    Ok((a, b))
}

} // verus!
