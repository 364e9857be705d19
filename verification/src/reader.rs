use crate::keyword::Keyword;
use crate::printer::{chars_to_string, push_chars_of_str};
use crate::symbol::Symbol;
use crate::types::{MalAtom, MalError, MalType, MapEntry, SpecAtom, SpecError, SpecValue};
use crate::types::{key_first_index, lemma_key_index_hit, lemma_key_index_miss};
use crate::types::{lemma_views_of, views_of, views_of_entries};
use vstd::prelude::*;
use vstd::string::StringExecFns;

verus! {

/// A reader failure: input that ended too early, a character that no rule
/// allows where it stands, or an integer literal outside the fixed width.
#[verifier::ext_equal]
pub enum ReadErr {
    Eof,
    Unexpected(char),
    BadNumber(Seq<char>),
}

/// The larger of two positions.
pub open spec fn max2(a: int, b: int) -> int {
    if a < b {
        b
    } else {
        a
    }
}

/// `x` forced into `[lo, hi]`: the parser always steps forward and never
/// past the end of the input.
pub open spec fn step_to(x: int, lo: int, hi: int) -> int {
    if x < lo {
        lo
    } else if x > hi {
        hi
    } else {
        x
    }
}

/// Insignificant whitespace between tokens; the comma counts as
/// whitespace, as is usual in this language family.
pub open spec fn is_ws(c: char) -> bool {
    c == ' ' || c == '\t' || c == '\n' || c == '\r' || c == ','
}

/// Characters that delimit tokens and never belong to one.
pub open spec fn is_special(c: char) -> bool {
    c == '(' || c == ')' || c == '[' || c == ']' || c == '{' || c == '}' || c == '"' || c == ';'
}

/// A character that may stand inside a plain token.
pub open spec fn is_token_char(c: char) -> bool {
    !is_ws(c) && !is_special(c)
}

/// A decimal digit.
pub open spec fn is_digit(c: char) -> bool {
    c == '0' || c == '1' || c == '2' || c == '3' || c == '4' || c == '5' || c == '6' || c == '7'
        || c == '8' || c == '9'
}

/// The value of a decimal digit character.
pub open spec fn digit_val(c: char) -> int {
    if c == '0' {
        0
    } else if c == '1' {
        1
    } else if c == '2' {
        2
    } else if c == '3' {
        3
    } else if c == '4' {
        4
    } else if c == '5' {
        5
    } else if c == '6' {
        6
    } else if c == '7' {
        7
    } else if c == '8' {
        8
    } else {
        9
    }
}

/// The position of the next line break at or after `i`, or the end of the
/// input.
pub open spec fn line_end(s: Seq<char>, i: int) -> int
    decreases s.len() - i,
    when 0 <= i
{
    if i >= s.len() {
        s.len() as int
    } else if s[i] == '\n' {
        i
    } else {
        line_end(s, i + 1)
    }
}

proof fn lemma_line_end(s: Seq<char>, i: int)
    requires
        0 <= i,
    ensures
        i <= line_end(s, i) <= s.len() || (i >= s.len() && line_end(s, i) == s.len()),
        line_end(s, i) >= i || i >= s.len(),
    decreases s.len() - i,
{
    if i < s.len() && s[i] != '\n' {
        lemma_line_end(s, i + 1);
    }
}

/// The first position at or after `i` that is neither whitespace nor
/// inside a comment; a `;` starts a comment that runs to the line break.
pub open spec fn skip_trivia(s: Seq<char>, i: int) -> int
    decreases s.len() - i,
    when 0 <= i
{
    if i >= s.len() {
        i
    } else if is_ws(s[i]) {
        skip_trivia(s, i + 1)
    } else if s[i] == ';' {
        skip_trivia(s, step_to(line_end(s, i + 1), i + 1, s.len() as int))
    } else {
        i
    }
}

proof fn lemma_skip_trivia(s: Seq<char>, i: int)
    requires
        0 <= i <= s.len(),
    ensures
        i <= skip_trivia(s, i) <= s.len(),
    decreases s.len() - i,
{
    if i < s.len() {
        if is_ws(s[i]) {
            lemma_skip_trivia(s, i + 1);
        } else if s[i] == ';' {
            lemma_line_end(s, i + 1);
            lemma_skip_trivia(s, step_to(line_end(s, i + 1), i + 1, s.len() as int));
        }
    }
}

/// The end of the plain token that continues through position `i`.
pub open spec fn token_end(s: Seq<char>, i: int) -> int
    decreases s.len() - i,
    when 0 <= i
{
    if i >= s.len() {
        i
    } else if is_token_char(s[i]) {
        token_end(s, i + 1)
    } else {
        i
    }
}

/// Scans the inside of a string literal from position `p`: the position
/// just past the closing quote, or a negative value if the input ends
/// first. A backslash escapes the character after it.
pub open spec fn str_body_end(s: Seq<char>, p: int) -> int
    decreases s.len() - p,
    when 0 <= p
{
    if p >= s.len() {
        -1
    } else if s[p] == '"' {
        p + 1
    } else if s[p] == '\\' {
        if p + 1 >= s.len() {
            -1
        } else {
            str_body_end(s, p + 2)
        }
    } else {
        str_body_end(s, p + 1)
    }
}

proof fn lemma_str_body_end(s: Seq<char>, p: int)
    requires
        0 <= p,
    ensures
        str_body_end(s, p) == -1 || (p < str_body_end(s, p) <= s.len()),
    decreases s.len() - p,
{
    if p < s.len() {
        if s[p] == '\\' {
            if p + 1 < s.len() {
                lemma_str_body_end(s, p + 2);
            }
        } else if s[p] != '"' {
            lemma_str_body_end(s, p + 1);
        }
    }
}

/// Whether every character of `t` in `[a, b)` is a digit.
pub open spec fn all_digits_range(t: Seq<char>, a: int, b: int) -> bool {
    forall|k: int| a <= k < b ==> is_digit(#[trigger] t[k])
}

/// Whether a token is an integer literal: digits, optionally after a
/// leading minus sign that must be followed by at least one digit.
pub open spec fn is_int_literal(t: Seq<char>) -> bool {
    t.len() > 0 && ((t[0] == '-' && t.len() >= 2 && all_digits_range(t, 1, t.len() as int))
        || all_digits_range(t, 0, t.len() as int))
}

/// The value of a run of digits, most significant first.
pub open spec fn digits_val(t: Seq<char>) -> int
    decreases t.len(),
{
    if t.len() == 0 {
        0
    } else {
        digits_val(t.drop_last()) * 10 + digit_val(t.last())
    }
}

/// The value of an integer literal token.
pub open spec fn int_literal_val(t: Seq<char>) -> int {
    if t.len() > 0 && t[0] == '-' {
        -digits_val(t.drop_first())
    } else {
        digits_val(t)
    }
}

/// How a plain token reads: an integer literal if it fits the fixed
/// width, the three named literals, a keyword after a leading colon, and
/// any other token as a symbol.
pub open spec fn classify_token(t: Seq<char>) -> Result<SpecAtom, ReadErr> {
    if is_int_literal(t) {
        let n = int_literal_val(t);
        if i64::MIN as int <= n <= i64::MAX as int {
            Ok(SpecAtom::Integer(n))
        } else {
            Err(ReadErr::BadNumber(t))
        }
    } else if t == seq!['t', 'r', 'u', 'e'] {
        Ok(SpecAtom::Boolean(true))
    } else if t == seq!['f', 'a', 'l', 's', 'e'] {
        Ok(SpecAtom::Boolean(false))
    } else if t == seq!['n', 'i', 'l'] {
        Ok(SpecAtom::Nil)
    } else if t.len() > 0 && t[0] == ':' {
        Ok(SpecAtom::Keyword(t.drop_first()))
    } else {
        Ok(SpecAtom::Symbol(t))
    }
}

/// Reads one atom token at position `j`: a string literal kept verbatim
/// with its quotes, or a plain token classified by `classify_token`; a
/// bracket in key position is not an atom.
pub open spec fn parse_atom_token(s: Seq<char>, j: int) -> Result<(SpecAtom, int), ReadErr> {
    if j >= s.len() {
        Err(ReadErr::Eof)
    } else if s[j] == '"' {
        let e = str_body_end(s, j + 1);
        if e < 0 {
            Err(ReadErr::Eof)
        } else {
            Ok((SpecAtom::Str(s.subrange(j, e)), e))
        }
    } else if is_special(s[j]) {
        Err(ReadErr::Unexpected(s[j]))
    } else {
        let k = max2(token_end(s, j + 1), j + 1);
        match classify_token(s.subrange(j, k)) {
            Ok(a) => Ok((a, k)),
            Err(e) => Err(e),
        }
    }
}

/// Adds an entry to a map under construction: an existing equal key keeps
/// its place and takes the new value, so the last write wins.
pub open spec fn map_insert(
    acc: Seq<(SpecAtom, SpecValue)>,
    k: SpecAtom,
    v: SpecValue,
) -> Seq<(SpecAtom, SpecValue)> {
    let idx = key_first_index(acc, k);
    if 0 <= idx < acc.len() {
        acc.update(idx, (k, v))
    } else {
        acc.push((k, v))
    }
}

/// Reads one value starting at position `i`, after skipping trivia:
/// a bracketed compound shape, a string literal, or a plain token. The
/// result carries the position just past the value.
pub open spec fn parse_value_spec(s: Seq<char>, i: int) -> Result<(SpecValue, int), ReadErr>
    decreases s.len() - i, 1int,
    when 0 <= i
{
    let j = max2(skip_trivia(s, i), i);
    if j >= s.len() {
        Err(ReadErr::Eof)
    } else if s[j] == '(' {
        match parse_seq_spec(s, j + 1) {
            Err(e) => Err(e),
            Ok((vs, k)) => if k >= s.len() {
                Err(ReadErr::Eof)
            } else if s[k] == ')' {
                Ok((SpecValue::List(vs), k + 1))
            } else {
                Err(ReadErr::Unexpected(s[k]))
            },
        }
    } else if s[j] == '[' {
        match parse_seq_spec(s, j + 1) {
            Err(e) => Err(e),
            Ok((vs, k)) => if k >= s.len() {
                Err(ReadErr::Eof)
            } else if s[k] == ']' {
                Ok((SpecValue::Vector(vs), k + 1))
            } else {
                Err(ReadErr::Unexpected(s[k]))
            },
        }
    } else if s[j] == '{' {
        match parse_map_spec(s, j + 1, Seq::empty()) {
            Err(e) => Err(e),
            Ok((ps, k)) => if k >= s.len() {
                Err(ReadErr::Eof)
            } else if s[k] == '}' {
                Ok((SpecValue::Mapping(ps), k + 1))
            } else {
                Err(ReadErr::Unexpected(s[k]))
            },
        }
    } else if s[j] == ')' || s[j] == ']' || s[j] == '}' {
        Err(ReadErr::Unexpected(s[j]))
    } else if s[j] == '"' {
        let e = str_body_end(s, j + 1);
        if e < 0 {
            Err(ReadErr::Eof)
        } else {
            Ok((SpecValue::Atom(SpecAtom::Str(s.subrange(j, e))), e))
        }
    } else {
        let k = max2(token_end(s, j + 1), j + 1);
        match classify_token(s.subrange(j, k)) {
            Ok(a) => Ok((SpecValue::Atom(a), k)),
            Err(e) => Err(e),
        }
    }
}

/// Reads values until a closing bracket or the end of the input; the
/// result carries the position of the stopping character.
pub open spec fn parse_seq_spec(s: Seq<char>, i: int) -> Result<(Seq<SpecValue>, int), ReadErr>
    decreases s.len() - i, 2int,
    when 0 <= i
{
    let j = max2(skip_trivia(s, i), i);
    if j >= s.len() {
        Ok((Seq::empty(), j))
    } else if s[j] == ')' || s[j] == ']' || s[j] == '}' {
        Ok((Seq::empty(), j))
    } else {
        match parse_value_spec(s, j) {
            Err(e) => Err(e),
            Ok((v, k)) => match parse_seq_spec(s, step_to(k, j + 1, s.len() as int)) {
                Err(e) => Err(e),
                Ok((vs, k2)) => Ok((seq![v] + vs, k2)),
            },
        }
    }
}

/// Reads map entries as atom/value pairs until a closing brace or the end
/// of the input; equal keys collapse, the last write winning, and an odd
/// trailing atom without its value is dropped.
pub open spec fn parse_map_spec(
    s: Seq<char>,
    i: int,
    acc: Seq<(SpecAtom, SpecValue)>,
) -> Result<(Seq<(SpecAtom, SpecValue)>, int), ReadErr>
    decreases s.len() - i, 2int,
    when 0 <= i
{
    let j = max2(skip_trivia(s, i), i);
    if j >= s.len() {
        Ok((acc, j))
    } else if s[j] == ')' || s[j] == ']' || s[j] == '}' {
        Ok((acc, j))
    } else {
        match parse_atom_token(s, j) {
            Err(e) => Err(e),
            Ok((key, k)) => {
                let after_key = max2(k, j + 1);
                let j2 = max2(skip_trivia(s, after_key), after_key);
                if j2 >= s.len() {
                    Ok((acc, j2))
                } else if s[j2] == '}' {
                    Ok((acc, j2))
                } else {
                    match parse_value_spec(s, j2) {
                        Err(e) => Err(e),
                        Ok((v, k2)) => parse_map_spec(
                            s,
                            step_to(k2, j2 + 1, s.len() as int),
                            map_insert(acc, key, v),
                        ),
                    }
                }
            },
        }
    }
}

/// Reads every top-level value of the input, in source order.
pub open spec fn parse_many_spec(s: Seq<char>, i: int) -> Result<Seq<SpecValue>, ReadErr>
    decreases s.len() - i, 3int,
    when 0 <= i
{
    let j = max2(skip_trivia(s, i), i);
    if j >= s.len() {
        Ok(Seq::empty())
    } else {
        match parse_value_spec(s, j) {
            Err(e) => Err(e),
            Ok((v, k)) => match parse_many_spec(s, step_to(k, j + 1, s.len() as int)) {
                Err(e) => Err(e),
                Ok(vs) => Ok(seq![v] + vs),
            },
        }
    }
}

/// What the reader makes of a whole text: its sequence of top-level
/// values, or the first failure.
pub open spec fn parse_program(s: Seq<char>) -> Result<Seq<SpecValue>, ReadErr> {
    parse_many_spec(s, 0)
}

/// The message a reader failure carries; input that ended too early is
/// flagged apart from every other failure.
pub open spec fn read_err_msg(e: ReadErr) -> Seq<char> {
    match e {
        ReadErr::Eof => " (EOF) unexpected end of input"@,
        ReadErr::Unexpected(c) => "unexpected `"@ + seq![c] + "`"@,
        ReadErr::BadNumber(t) => "number out of range: `"@ + t + "`"@,
    }
}


/// A reader failure as executable data, mirroring `ReadErr`.
pub enum ParseFault {
    Eof,
    Unexpected(char),
    BadNumber(Vec<char>),
}

impl View for ParseFault {
    type V = ReadErr;

    open spec fn view(&self) -> ReadErr {
        match self {
            ParseFault::Eof => ReadErr::Eof,
            ParseFault::Unexpected(c) => ReadErr::Unexpected(*c),
            ParseFault::BadNumber(t) => ReadErr::BadNumber(t@),
        }
    }
}

fn is_ws_exec(c: char) -> (r: bool)
    ensures
        r == is_ws(c),
{
    c == ' ' || c == '\t' || c == '\n' || c == '\r' || c == ','
}

fn is_special_exec(c: char) -> (r: bool)
    ensures
        r == is_special(c),
{
    c == '(' || c == ')' || c == '[' || c == ']' || c == '{' || c == '}' || c == '"' || c == ';'
}

fn is_digit_exec(c: char) -> (r: bool)
    ensures
        r == is_digit(c),
{
    c == '0' || c == '1' || c == '2' || c == '3' || c == '4' || c == '5' || c == '6' || c == '7'
        || c == '8' || c == '9'
}

fn digit_val_exec(c: char) -> (d: u64)
    requires
        is_digit(c),
    ensures
        d == digit_val(c),
        d < 10,
{
    if c == '0' {
        0
    } else if c == '1' {
        1
    } else if c == '2' {
        2
    } else if c == '3' {
        3
    } else if c == '4' {
        4
    } else if c == '5' {
        5
    } else if c == '6' {
        6
    } else if c == '7' {
        7
    } else if c == '8' {
        8
    } else {
        9
    }
}

/// Moves the cursor past whitespace and comments.
fn scan_trivia(chars: &Vec<char>, pos: usize) -> (r: usize)
    requires
        pos <= chars@.len(),
    ensures
        r as int == skip_trivia(chars@, pos as int),
        pos <= r <= chars@.len(),
{
    let ghost s = chars@;
    let mut p: usize = pos;
    proof {
        lemma_skip_trivia(s, pos as int);
    }
    loop
        invariant
            pos <= p <= s.len(),
            s == chars@,
            skip_trivia(s, pos as int) == skip_trivia(s, p as int),
        decreases s.len() - p,
    {
        if p >= chars.len() {
            return p;
        }
        let c = chars[p];
        if is_ws_exec(c) {
            p = p + 1;
        } else if c == ';' {
            let ghost q = p as int;
            p = p + 1;
            while p < chars.len() && chars[p] != '\n'
                invariant
                    s == chars@,
                    q + 1 <= p as int <= s.len(),
                    line_end(s, q + 1) == line_end(s, p as int),
                decreases s.len() - p,
            {
                p = p + 1;
            }
            proof {
                assert(line_end(s, q + 1) == p as int);
                assert(skip_trivia(s, q) == skip_trivia(s, p as int));
            }
        } else {
            return p;
        }
    }
}

/// Moves the cursor to the end of the plain token that continues at `pos`.
fn scan_token_end(chars: &Vec<char>, pos: usize) -> (r: usize)
    requires
        pos <= chars@.len(),
    ensures
        r as int == token_end(chars@, pos as int),
        pos <= r <= chars@.len(),
{
    let ghost s = chars@;
    let mut p: usize = pos;
    loop
        invariant
            pos <= p <= s.len(),
            s == chars@,
            token_end(s, pos as int) == token_end(s, p as int),
        decreases s.len() - p,
    {
        if p >= chars.len() {
            return p;
        }
        let c = chars[p];
        if is_ws_exec(c) || is_special_exec(c) {
            return p;
        }
        p = p + 1;
    }
}

/// Moves the cursor past the closing quote of a string literal, or
/// reports that the input ended first.
fn scan_string_end(chars: &Vec<char>, pos: usize) -> (r: Option<usize>)
    requires
        pos <= chars@.len(),
    ensures
        match r {
            Some(e) => str_body_end(chars@, pos as int) == e as int && pos < e <= chars@.len(),
            None => str_body_end(chars@, pos as int) == -1,
        },
{
    let ghost s = chars@;
    let mut p: usize = pos;
    proof {
        lemma_str_body_end(s, pos as int);
    }
    loop
        invariant
            pos <= p <= s.len(),
            s == chars@,
            str_body_end(s, pos as int) == str_body_end(s, p as int),
        decreases s.len() - p,
    {
        if p >= chars.len() {
            return None;
        }
        let c = chars[p];
        if c == '"' {
            proof {
                lemma_str_body_end(s, pos as int);
            }
            return Some(p + 1);
        } else if c == '\\' {
            if p + 1 >= chars.len() {
                return None;
            }
            p = p + 2;
        } else {
            p = p + 1;
        }
    }
}

/// Copies `chars[a..b]` into a fresh vector.
fn copy_range(chars: &Vec<char>, a: usize, b: usize) -> (r: Vec<char>)
    requires
        a <= b <= chars@.len(),
    ensures
        r@ == chars@.subrange(a as int, b as int),
{
    let mut out: Vec<char> = Vec::new();
    let mut i: usize = a;
    while i < b
        invariant
            a <= i <= b <= chars@.len(),
            out@ == chars@.subrange(a as int, i as int),
        decreases b - i,
    {
        out.push(chars[i]);
        proof {
            assert(out@ =~= chars@.subrange(a as int, i as int + 1));
        }
        i = i + 1;
    }
    out
}

/// Classifies one plain token as the atom it denotes.
fn classify_token_exec(t: &Vec<char>) -> (r: Result<MalAtom, ParseFault>)
    ensures
        match (r, classify_token(t@)) {
            (Ok(a), Ok(sa)) => a@ == sa,
            (Err(f), Err(se)) => f@ == se,
            _ => false,
        },
{
    let ghost tv = t@;
    let n = t.len();
    let neg = n >= 1 && t[0] == '-';
    let start: usize = if neg {
        1
    } else {
        0
    };
    let mut all_dig = n > start;
    let mut i: usize = start;
    while i < n
        invariant
            start <= 1,
            start as int <= tv.len(),
            n == tv.len(),
            start <= i <= n || (n <= start && i == start),
            tv == t@,
            all_dig == (n > start && all_digits_range(tv, start as int, i as int)),
        decreases n - i,
    {
        if !is_digit_exec(t[i]) {
            all_dig = false;
            proof {
                assert(!all_digits_range(tv, start as int, tv.len() as int));
            }
            i = n;
        } else {
            proof {
                assert(all_digits_range(tv, start as int, i as int + 1) == (all_digits_range(
                    tv,
                    start as int,
                    i as int,
                ) && is_digit(tv[i as int])));
            }
            i = i + 1;
        }
    }
    proof {
        if neg {
            assert(tv[0] == '-' && !is_digit(tv[0]));
            assert(!all_digits_range(tv, 0, tv.len() as int));
            assert(is_int_literal(tv) == (all_dig && tv.len() >= 2));
            assert(all_dig ==> tv.len() >= 2);
        } else {
            if n >= 1 && all_dig {
                assert(is_int_literal(tv));
            }
            if n == 0 {
                assert(!is_int_literal(tv));
            }
            if n >= 1 && !all_dig {
                assert(!(tv[0] == '-'));
                assert(!is_int_literal(tv));
            }
        }
    }
    if all_dig {
        return parse_int_token(t, start);
    }
    if n == 4 && t[0] == 't' && t[1] == 'r' && t[2] == 'u' && t[3] == 'e' {
        proof {
            assert(tv =~= seq!['t', 'r', 'u', 'e']);
        }
        return Ok(MalAtom::Boolean(true));
    }
    if n == 5 && t[0] == 'f' && t[1] == 'a' && t[2] == 'l' && t[3] == 's' && t[4] == 'e' {
        proof {
            assert(tv =~= seq!['f', 'a', 'l', 's', 'e']);
        }
        return Ok(MalAtom::Boolean(false));
    }
    if n == 3 && t[0] == 'n' && t[1] == 'i' && t[2] == 'l' {
        proof {
            assert(tv =~= seq!['n', 'i', 'l']);
        }
        return Ok(MalAtom::Nil);
    }
    proof {
        assert(tv != seq!['t', 'r', 'u', 'e']);
        assert(tv != seq!['f', 'a', 'l', 's', 'e']);
        assert(tv != seq!['n', 'i', 'l']);
    }
    if n >= 1 && t[0] == ':' {
        let name_chars = copy_range(t, 1, n);
        let name = chars_to_string(&name_chars);
        proof {
            assert(name@ =~= tv.drop_first());
        }
        return Ok(MalAtom::Keyword(Keyword { name }));
    }
    let name = chars_to_string(t);
    Ok(MalAtom::Symbol(Symbol { name }))
}

/// Reads the digits of an integer token into a fixed-width value,
/// reporting a token whose value does not fit.
fn parse_int_token(t: &Vec<char>, start: usize) -> (r: Result<MalAtom, ParseFault>)
    requires
        start as int <= 1,
        start < t@.len(),
        all_digits_range(t@, start as int, t@.len() as int),
        is_int_literal(t@),
        (start == 1) == (t@[0] == '-'),
    ensures
        match (r, classify_token(t@)) {
            (Ok(a), Ok(sa)) => a@ == sa,
            (Err(f), Err(se)) => f@ == se,
            _ => false,
        },
{
    let ghost tv = t@;
    let n = t.len();
    let mut acc: u64 = 0;
    let mut too_big = false;
    let mut i: usize = start;
    proof {
        assert(tv.subrange(start as int, start as int) =~= Seq::<char>::empty());
    }
    while i < n
        invariant
            start <= i <= n,
            n == tv.len(),
            tv == t@,
            start < n,
            all_digits_range(tv, start as int, tv.len() as int),
            acc <= 0x8000000000000000u64,
            !too_big ==> acc as int == digits_val(tv.subrange(start as int, i as int)),
            too_big ==> digits_val(tv.subrange(start as int, i as int)) > 0x8000000000000000,
        decreases n - i,
    {
        let d = digit_val_exec(t[i]);
        proof {
            let prefix = tv.subrange(start as int, i as int);
            let prefix1 = tv.subrange(start as int, i as int + 1);
            assert(prefix1.drop_last() =~= prefix);
            assert(digits_val(prefix1) == digits_val(prefix) * 10 + digit_val(tv[i as int]));
            lemma_digits_val_nonneg(prefix);
        }
        if too_big {
            proof {
                let prefix = tv.subrange(start as int, i as int);
                assert(digits_val(prefix) * 10 + digit_val(tv[i as int]) > 0x8000000000000000);
            }
        } else {
            if acc > (9223372036854775808u64 - d) / 10 {
                too_big = true;
                proof {
                    let b: int = 0x8000000000000000 - d;
                    assert(10 * (b / 10) + b % 10 == b) by {
                        vstd::arithmetic::div_mod::lemma_fundamental_div_mod(b, 10);
                    }
                    assert(acc as int * 10 + d > 0x8000000000000000);
                }
            } else {
                proof {
                    let b: int = 0x8000000000000000 - d;
                    assert(10 * (b / 10) + b % 10 == b) by {
                        vstd::arithmetic::div_mod::lemma_fundamental_div_mod(b, 10);
                    }
                    assert(acc as int * 10 + d <= 0x8000000000000000);
                }
                acc = acc * 10 + d;
            }
        }
        i = i + 1;
    }
    proof {
        assert(tv.subrange(start as int, n as int) =~= if start == 1 {
            tv.drop_first()
        } else {
            tv
        });
    }
    if start == 1 {
        if too_big || acc > 9223372036854775808u64 {
            return Err(ParseFault::BadNumber(copy_range(t, 0, n)));
        }
        if acc == 9223372036854775808u64 {
            return Ok(MalAtom::Integer(i64::MIN));
        }
        return Ok(MalAtom::Integer(-(acc as i64)));
    }
    if too_big || acc > 9223372036854775807u64 {
        return Err(ParseFault::BadNumber(copy_range(t, 0, n)));
    }
    Ok(MalAtom::Integer(acc as i64))
}

/// The digit fold never goes negative.
proof fn lemma_digits_val_nonneg(t: Seq<char>)
    ensures
        digits_val(t) >= 0,
    decreases t.len(),
{
    if t.len() > 0 {
        lemma_digits_val_nonneg(t.drop_last());
    }
}


/// Reads one atom token for a map key.
fn parse_atom_exec(chars: &Vec<char>, pos: usize) -> (r: (Result<MalAtom, ParseFault>, usize))
    requires
        pos <= chars@.len(),
    ensures
        match (r.0, parse_atom_token(chars@, pos as int)) {
            (Ok(a), Ok(pr)) => a@ == pr.0 && r.1 as int == pr.1 && pos < r.1 <= chars@.len(),
            (Err(f), Err(se)) => f@ == se,
            _ => false,
        },
{
    if pos >= chars.len() {
        return (Err(ParseFault::Eof), pos);
    }
    let c = chars[pos];
    if c == '"' {
        match scan_string_end(chars, pos + 1) {
            None => (Err(ParseFault::Eof), pos),
            Some(e) => {
                let token = copy_range(chars, pos, e);
                (Ok(MalAtom::Str(chars_to_string(&token))), e)
            },
        }
    } else if is_special_exec(c) {
        (Err(ParseFault::Unexpected(c)), pos)
    } else {
        let k = scan_token_end(chars, pos + 1);
        let token = copy_range(chars, pos, k);
        match classify_token_exec(&token) {
            Ok(a) => (Ok(a), k),
            Err(f) => (Err(f), pos),
        }
    }
}

/// Adds an entry to a map under construction; an existing equal key keeps
/// its place and takes the new value.
fn insert_entry(out: &mut Vec<MapEntry>, key: MalAtom, val: MalType)
    ensures
        views_of_entries(final(out)@) == map_insert(views_of_entries(old(out)@), key@, val@),
{
    let ghost acc = views_of_entries(old(out)@);
    proof {
        crate::types::lemma_views_of_entries(old(out)@);
    }
    let mut i: usize = 0;
    while i < out.len()
        invariant
            i <= out@.len(),
            acc == views_of_entries(old(out)@),
            acc == views_of_entries(out@),
            acc.len() == out@.len(),
            forall|j: int| 0 <= j < out@.len() ==> acc[j] == out@[j]@,
            forall|j: int| 0 <= j < i ==> acc[j].0 != key@,
        decreases out@.len() - i,
    {
        if crate::types::atom_eq(&out[i].key, &key) {
            proof {
                lemma_key_index_hit(acc, key@, i as int);
            }
            out.set(i, MapEntry { key, val });
            proof {
                crate::types::lemma_views_of_entries(out@);
                assert(views_of_entries(out@) =~= acc.update(i as int, (key@, val@)));
            }
            return ;
        }
        i = i + 1;
    }
    proof {
        lemma_key_index_miss(acc, key@);
    }
    out.push(MapEntry { key, val });
    proof {
        crate::types::lemma_views_of_entries(out@);
        assert(views_of_entries(out@) =~= acc.push((key@, val@)));
    }
}


/// Reads one value at the cursor.
fn parse_value_exec(chars: &Vec<char>, pos: usize) -> (r: (Result<MalType, ParseFault>, usize))
    requires
        pos <= chars@.len(),
    ensures
        match (r.0, parse_value_spec(chars@, pos as int)) {
            (Ok(v), Ok(pr)) => v@ == pr.0 && r.1 as int == pr.1 && pos < r.1 <= chars@.len(),
            (Err(f), Err(se)) => f@ == se,
            _ => false,
        },
    decreases chars@.len() - pos, 1int,
{
    let ghost s = chars@;
    let j = scan_trivia(chars, pos);
    proof {
        assert(max2(skip_trivia(s, pos as int), pos as int) == j as int);
    }
    if j >= chars.len() {
        return (Err(ParseFault::Eof), j);
    }
    let c = chars[j];
    if c == '(' {
        let (rs, k) = parse_seq_exec(chars, j + 1);
        match rs {
            Err(f) => (Err(f), k),
            Ok(vs) => {
                if k >= chars.len() {
                    (Err(ParseFault::Eof), k)
                } else if chars[k] == ')' {
                    (Ok(MalType::List(vs)), k + 1)
                } else {
                    (Err(ParseFault::Unexpected(chars[k])), k)
                }
            },
        }
    } else if c == '[' {
        let (rs, k) = parse_seq_exec(chars, j + 1);
        match rs {
            Err(f) => (Err(f), k),
            Ok(vs) => {
                if k >= chars.len() {
                    (Err(ParseFault::Eof), k)
                } else if chars[k] == ']' {
                    (Ok(MalType::Vector(vs)), k + 1)
                } else {
                    (Err(ParseFault::Unexpected(chars[k])), k)
                }
            },
        }
    } else if c == '{' {
        let (rs, k) = parse_map_exec(chars, j + 1);
        match rs {
            Err(f) => (Err(f), k),
            Ok(ps) => {
                if k >= chars.len() {
                    (Err(ParseFault::Eof), k)
                } else if chars[k] == '}' {
                    (Ok(MalType::Mapping(ps)), k + 1)
                } else {
                    (Err(ParseFault::Unexpected(chars[k])), k)
                }
            },
        }
    } else if c == ')' || c == ']' || c == '}' {
        (Err(ParseFault::Unexpected(c)), j)
    } else if c == '"' {
        match scan_string_end(chars, j + 1) {
            None => (Err(ParseFault::Eof), j),
            Some(e) => {
                let token = copy_range(chars, j, e);
                (Ok(MalType::Atom(MalAtom::Str(chars_to_string(&token)))), e)
            },
        }
    } else {
        let k = scan_token_end(chars, j + 1);
        let token = copy_range(chars, j, k);
        match classify_token_exec(&token) {
            Ok(a) => (Ok(MalType::Atom(a)), k),
            Err(f) => (Err(f), j),
        }
    }
}

/// Reads values until a closing bracket or the end of the input.
fn parse_seq_exec(chars: &Vec<char>, pos: usize) -> (r: (Result<Vec<MalType>, ParseFault>, usize))
    requires
        pos <= chars@.len(),
    ensures
        match (r.0, parse_seq_spec(chars@, pos as int)) {
            (Ok(vs), Ok(pr)) => views_of(vs@) == pr.0 && r.1 as int == pr.1 && pos <= r.1
                <= chars@.len(),
            (Err(f), Err(se)) => f@ == se,
            _ => false,
        },
    decreases chars@.len() - pos, 2int,
{
    let ghost s = chars@;
    let mut out: Vec<MalType> = Vec::new();
    let mut p: usize = pos;
    proof {
        lemma_views_of(Seq::<MalType>::empty());
        if parse_seq_spec(s, pos as int) is Ok {
            assert(views_of(out@) + parse_seq_spec(s, pos as int)->Ok_0.0 =~= parse_seq_spec(
                s,
                pos as int,
            )->Ok_0.0);
        }
    }
    loop
        invariant
            pos <= p <= s.len(),
            s == chars@,
            match (parse_seq_spec(s, pos as int), parse_seq_spec(s, p as int)) {
                (Ok(whole), Ok(cont)) => whole.0 == views_of(out@) + cont.0 && whole.1 == cont.1,
                (Err(e1), Err(e2)) => e1 == e2,
                _ => false,
            },
        decreases s.len() - p, 1int,
    {
        let j = scan_trivia(chars, p);
        proof {
            assert(max2(skip_trivia(s, p as int), p as int) == j as int);
        }
        if j >= chars.len() {
            return ((Ok(out)), j);
        }
        let c = chars[j];
        if c == ')' || c == ']' || c == '}' {
            return ((Ok(out)), j);
        }
        let ghost old_out = out@;
        let (rv, k) = parse_value_exec(chars, j);
        match rv {
            Err(f) => {
                return ((Err(f)), k);
            },
            Ok(v) => {
                proof {
                    let pr = parse_value_spec(s, j as int);
                    assert(step_to(pr->Ok_0.1, j as int + 1, s.len() as int) == pr->Ok_0.1);
                }
                out.push(v);
                proof {
                    lemma_views_of(old_out);
                    lemma_views_of(out@);
                    let sval = parse_value_spec(s, j as int)->Ok_0.0;
                    assert(views_of(out@) =~= views_of(old_out).push(sval));
                    let next = parse_seq_spec(s, k as int);
                    if next is Ok {
                        assert(views_of(old_out) + (seq![sval] + next->Ok_0.0) =~= views_of(
                            out@,
                        ) + next->Ok_0.0);
                    }
                }
                p = k;
            },
        }
    }
}

/// Reads map entries as atom/value pairs until a closing brace or the
/// end of the input; an odd trailing atom is dropped.
fn parse_map_exec(chars: &Vec<char>, pos: usize) -> (r: (Result<Vec<MapEntry>, ParseFault>, usize))
    requires
        pos <= chars@.len(),
    ensures
        match (r.0, parse_map_spec(chars@, pos as int, Seq::empty())) {
            (Ok(ps), Ok(pr)) => views_of_entries(ps@) == pr.0 && r.1 as int == pr.1 && pos <= r.1
                <= chars@.len(),
            (Err(f), Err(se)) => f@ == se,
            _ => false,
        },
    decreases chars@.len() - pos, 2int,
{
    let ghost s = chars@;
    let mut out: Vec<MapEntry> = Vec::new();
    let mut p: usize = pos;
    proof {
        crate::types::lemma_views_of_entries(Seq::<MapEntry>::empty());
        assert(views_of_entries(out@) =~= Seq::<(SpecAtom, SpecValue)>::empty());
    }
    loop
        invariant
            pos <= p <= s.len(),
            s == chars@,
            match (
                parse_map_spec(s, pos as int, Seq::empty()),
                parse_map_spec(s, p as int, views_of_entries(out@)),
            ) {
                (Ok(whole), Ok(cont)) => whole.0 == cont.0 && whole.1 == cont.1,
                (Err(e1), Err(e2)) => e1 == e2,
                _ => false,
            },
        decreases s.len() - p, 1int,
    {
        let j = scan_trivia(chars, p);
        proof {
            assert(max2(skip_trivia(s, p as int), p as int) == j as int);
        }
        if j >= chars.len() {
            return ((Ok(out)), j);
        }
        let c = chars[j];
        if c == ')' || c == ']' || c == '}' {
            return ((Ok(out)), j);
        }
        let (rk, k) = parse_atom_exec(chars, j);
        let key = match rk {
            Err(f) => {
                return ((Err(f)), k);
            },
            Ok(a) => a,
        };
        proof {
            assert(max2(k as int, j as int + 1) == k as int);
        }
        let j2 = scan_trivia(chars, k);
        proof {
            assert(max2(skip_trivia(s, k as int), k as int) == j2 as int);
        }
        if j2 >= chars.len() {
            return ((Ok(out)), j2);
        }
        if chars[j2] == '}' {
            return ((Ok(out)), j2);
        }
        let (rv, k2) = parse_value_exec(chars, j2);
        match rv {
            Err(f) => {
                return ((Err(f)), k2);
            },
            Ok(v) => {
                proof {
                    let pr = parse_value_spec(s, j2 as int);
                    assert(step_to(pr->Ok_0.1, j2 as int + 1, s.len() as int) == pr->Ok_0.1);
                }
                insert_entry(&mut out, key, v);
                p = k2;
            },
        }
    }
}

/// Builds the `Parsing` error a reader failure turns into.
fn fault_error(f: &ParseFault) -> (r: MalError)
    ensures
        r@ == SpecError::Parsing(read_err_msg(f@)),
{
    match f {
        ParseFault::Eof => MalError::Parsing(String::from_str(" (EOF) unexpected end of input")),
        ParseFault::Unexpected(c) => {
            let mut out: Vec<char> = Vec::new();
            push_chars_of_str("unexpected `", &mut out);
            out.push(*c);
            push_chars_of_str("`", &mut out);
            proof {
                assert(out@ =~= read_err_msg(f@));
            }
            MalError::Parsing(chars_to_string(&out))
        },
        ParseFault::BadNumber(t) => {
            let mut out: Vec<char> = Vec::new();
            push_chars_of_str("number out of range: `", &mut out);
            let mut i: usize = 0;
            while i < t.len()
                invariant
                    i <= t@.len(),
                    out@ == "number out of range: `"@ + t@.subrange(0, i as int),
                decreases t@.len() - i,
            {
                out.push(t[i]);
                proof {
                    assert(out@ =~= "number out of range: `"@ + t@.subrange(0, i as int + 1));
                }
                i = i + 1;
            }
            push_chars_of_str("`", &mut out);
            proof {
                assert(t@.subrange(0, t@.len() as int) =~= t@);
                assert(out@ =~= read_err_msg(f@));
            }
            MalError::Parsing(chars_to_string(&out))
        },
    }
}

/// The reader's parser: the decoded characters of one input text.
pub struct MalParser {
    chars: Vec<char>,
}

impl View for MalParser {
    type V = Seq<char>;

    closed spec fn view(&self) -> Seq<char> {
        self.chars@
    }
}

impl MalParser {
    /// A parser over the characters of `input`.
    pub fn new(input: &str) -> (r: Self)
        ensures
            r@ == input@,
    {
        let mut chars: Vec<char> = Vec::new();
        push_chars_of_str(input, &mut chars);
        MalParser { chars }
    }

    /// Reads every top-level value of the text, in source order, or the
    /// first reader failure as a `Parsing` error.
    pub fn parse(&self) -> (r: Result<Vec<MalType>, MalError>)
        ensures
            match (r, parse_program(self@)) {
                (Ok(vs), Ok(svs)) => views_of(vs@) == svs,
                (Err(e), Err(se)) => e@ == SpecError::Parsing(read_err_msg(se)),
                _ => false,
            },
    {
        let chars = &self.chars;
        let ghost s = chars@;
        let mut out: Vec<MalType> = Vec::new();
        let mut p: usize = 0;
        proof {
            lemma_views_of(Seq::<MalType>::empty());
            if parse_many_spec(s, 0) is Ok {
                assert(views_of(out@) + parse_many_spec(s, 0)->Ok_0 =~= parse_many_spec(
                    s,
                    0,
                )->Ok_0);
            }
        }
        loop
            invariant
                p <= s.len(),
                s == chars@,
                s == self@,
                match (parse_many_spec(s, 0), parse_many_spec(s, p as int)) {
                    (Ok(whole), Ok(cont)) => whole == views_of(out@) + cont,
                    (Err(e1), Err(e2)) => e1 == e2,
                    _ => false,
                },
            decreases s.len() - p,
        {
            let j = scan_trivia(chars, p);
            proof {
                assert(max2(skip_trivia(s, p as int), p as int) == j as int);
            }
            if j >= chars.len() {
                proof {
                    if parse_many_spec(s, 0) is Ok {
                        assert(views_of(out@) + Seq::<SpecValue>::empty() =~= views_of(out@));
                    }
                }
                return Ok(out);
            }
            let ghost old_out = out@;
            let (rv, k) = parse_value_exec(chars, j);
            match rv {
                Err(f) => {
                    return Err(fault_error(&f));
                },
                Ok(v) => {
                    proof {
                        let pr = parse_value_spec(s, j as int);
                        assert(step_to(pr->Ok_0.1, j as int + 1, s.len() as int) == pr->Ok_0.1);
                    }
                    out.push(v);
                    proof {
                        lemma_views_of(old_out);
                        lemma_views_of(out@);
                        let sval = parse_value_spec(s, j as int)->Ok_0.0;
                        assert(views_of(out@) =~= views_of(old_out).push(sval));
                        let next = parse_many_spec(s, k as int);
                        if next is Ok {
                            assert(views_of(old_out) + (seq![sval] + next->Ok_0) =~= views_of(
                                out@,
                            ) + next->Ok_0);
                        }
                    }
                    p = k;
                },
            }
        }
    }
}

/// Reads source text into its sequence of top-level values, or a
/// `Parsing` error; the reader half of the read-eval-print cycle.
pub fn read_str(input: &str) -> (r: Result<Vec<MalType>, MalError>)
    ensures
        match (r, parse_program(input@)) {
            (Ok(vs), Ok(svs)) => views_of(vs@) == svs,
            (Err(e), Err(se)) => e@ == SpecError::Parsing(read_err_msg(se)),
            _ => false,
        },
{
    let parser = MalParser::new(input);
    parser.parse()
}

} // verus!
