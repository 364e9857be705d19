use crate::types::{views_of, views_of_entries, MalAtom, MalError, MalType, MapEntry, SpecAtom, SpecError, SpecValue};
use crate::types::{lemma_views_of, lemma_views_of_entries};
use vstd::prelude::*;
use vstd::string::StrSliceExecFns;

verus! {

/// The decimal digit character for `d`.
pub open spec fn digit_char(d: int) -> char {
    if d == 0 {
        '0'
    } else if d == 1 {
        '1'
    } else if d == 2 {
        '2'
    } else if d == 3 {
        '3'
    } else if d == 4 {
        '4'
    } else if d == 5 {
        '5'
    } else if d == 6 {
        '6'
    } else if d == 7 {
        '7'
    } else if d == 8 {
        '8'
    } else {
        '9'
    }
}

/// The decimal digits of `m`, most significant first, no leading zeros
/// (a single `'0'` for zero itself).
pub open spec fn dec_digits(m: nat) -> Seq<char>
    decreases m,
{
    if m < 10 {
        seq![digit_char(m as int)]
    } else {
        dec_digits(m / 10).push(digit_char((m % 10) as int))
    }
}

/// The canonical decimal rendering of an integer: a minus sign for
/// negative values, then the digits without leading zeros.
pub open spec fn render_int(n: int) -> Seq<char> {
    if n < 0 {
        seq!['-'] + dec_digits((-n) as nat)
    } else {
        dec_digits(n as nat)
    }
}

/// How an atom is displayed: symbols and strings verbatim, keywords with
/// a leading colon, integers in decimal, the three literals by name.
pub open spec fn render_atom(a: SpecAtom) -> Seq<char> {
    match a {
        SpecAtom::Symbol(s) => s,
        SpecAtom::Keyword(k) => seq![':'] + k,
        SpecAtom::Integer(n) => render_int(n),
        SpecAtom::Str(s) => s,
        SpecAtom::Boolean(b) => if b {
            seq!['t', 'r', 'u', 'e']
        } else {
            seq!['f', 'a', 'l', 's', 'e']
        },
        SpecAtom::Nil => seq!['n', 'i', 'l'],
    }
}

/// How a value is displayed: lists in parentheses, vectors in square
/// brackets, maps in braces, elements joined by single spaces, and a
/// function as an opaque placeholder carrying only its name.
pub open spec fn render_value(v: SpecValue) -> Seq<char>
    decreases v, 0int,
{
    match v {
        SpecValue::Atom(a) => render_atom(a),
        SpecValue::List(vs) => seq!['('] + render_values(vs) + seq![')'],
        SpecValue::Vector(vs) => seq!['['] + render_values(vs) + seq![']'],
        SpecValue::Mapping(ps) => seq!['{'] + render_pairs(ps) + seq!['}'],
        SpecValue::Function(name, op) => seq!['[', 'f', 'u', 'n', 'c', 't', 'i', 'o', 'n', ' ']
            + name + seq![']'],
    }
}

/// A sequence of rendered values joined by single spaces.
pub open spec fn render_values(vs: Seq<SpecValue>) -> Seq<char>
    decreases vs, 1int,
{
    if vs.len() == 0 {
        Seq::empty()
    } else if vs.len() == 1 {
        render_value(vs[0])
    } else {
        render_values(vs.drop_last()) + seq![' '] + render_value(vs.last())
    }
}

/// Map entries rendered as `key value`, entries joined by single spaces.
pub open spec fn render_pairs(ps: Seq<(SpecAtom, SpecValue)>) -> Seq<char>
    decreases ps, 1int,
{
    if ps.len() == 0 {
        Seq::empty()
    } else if ps.len() == 1 {
        render_atom(ps[0].0) + seq![' '] + render_value(ps[0].1)
    } else {
        render_pairs(ps.drop_last()) + seq![' '] + render_atom(ps.last().0) + seq![' ']
            + render_value(ps.last().1)
    }
}

fn digit_char_exec(d: u64) -> (c: char)
    requires
        d < 10,
    ensures
        c == digit_char(d as int),
{
    if d == 0 {
        '0'
    } else if d == 1 {
        '1'
    } else if d == 2 {
        '2'
    } else if d == 3 {
        '3'
    } else if d == 4 {
        '4'
    } else if d == 5 {
        '5'
    } else if d == 6 {
        '6'
    } else if d == 7 {
        '7'
    } else if d == 8 {
        '8'
    } else {
        '9'
    }
}

/// Relies on `Iterator::collect` for `String`: the collected string holds
/// exactly the characters of the vector, in order.
#[verifier::external_body]
pub(crate) fn chars_to_string(v: &Vec<char>) -> (r: String)
    ensures
        r@ == v@,
{
    v.iter().collect()
}

/// Appends the characters of `s` to `out`.
pub(crate) fn push_chars_of_str(s: &str, out: &mut Vec<char>)
    ensures
        final(out)@ == old(out)@ + s@,
{
    let n = s.unicode_len();
    let mut i: usize = 0;
    while i < n
        invariant
            n == s@.len(),
            i <= n,
            out@ == old(out)@ + s@.subrange(0, i as int),
        decreases n - i,
    {
        let c = s.get_char(i);
        out.push(c);
        i = i + 1;
        proof {
            assert(out@ =~= old(out)@ + s@.subrange(0, i as int));
        }
    }
    proof {
        assert(s@.subrange(0, n as int) =~= s@);
    }
}

pub(crate) fn push_digit_chars(m: u64, out: &mut Vec<char>)
    ensures
        final(out)@ == old(out)@ + dec_digits(m as nat),
    decreases m,
{
    if m < 10 {
        let c = digit_char_exec(m);
        out.push(c);
        proof {
            assert(out@ =~= old(out)@ + dec_digits(m as nat));
        }
    } else {
        push_digit_chars(m / 10, out);
        let c = digit_char_exec(m % 10);
        out.push(c);
        proof {
            assert(out@ =~= old(out)@ + dec_digits(m as nat));
        }
    }
}

/// Appends the canonical decimal rendering of `n` to `out`.
pub(crate) fn push_int_chars(n: i64, out: &mut Vec<char>)
    ensures
        final(out)@ == old(out)@ + render_int(n as int),
{
    if n >= 0 {
        push_digit_chars(n as u64, out);
    } else {
        out.push('-');
        let m: u64 = if n == i64::MIN {
            9223372036854775808u64
        } else {
            (-n) as u64
        };
        proof {
            assert(m as int == -(n as int));
        }
        push_digit_chars(m, out);
        proof {
            assert(out@ =~= old(out)@ + render_int(n as int));
        }
    }
}

/// Appends the display form of an atom to `out`.
pub(crate) fn push_atom_chars(a: &MalAtom, out: &mut Vec<char>)
    ensures
        final(out)@ == old(out)@ + render_atom(a@),
{
    match a {
        MalAtom::Symbol(s) => {
            push_chars_of_str(s.name.as_str(), out);
        },
        MalAtom::Keyword(k) => {
            out.push(':');
            push_chars_of_str(k.name.as_str(), out);
            proof {
                assert(out@ =~= old(out)@ + render_atom(a@));
            }
        },
        MalAtom::Integer(i) => {
            push_int_chars(*i, out);
        },
        MalAtom::Str(s) => {
            push_chars_of_str(s.as_str(), out);
        },
        MalAtom::Boolean(b) => {
            if *b {
                push_chars_of_str("true", out);
                proof {
                    reveal_strlit("true");
                    assert("true"@ =~= seq!['t', 'r', 'u', 'e']);
                }
            } else {
                push_chars_of_str("false", out);
                proof {
                    reveal_strlit("false");
                    assert("false"@ =~= seq!['f', 'a', 'l', 's', 'e']);
                }
            }
        },
        MalAtom::Nil => {
            push_chars_of_str("nil", out);
            proof {
                reveal_strlit("nil");
                assert("nil"@ =~= seq!['n', 'i', 'l']);
            }
        },
    }
}

/// On a prefix one element longer, the joined rendering grows by a space
/// (after the first element) and the rendering of that element.
proof fn lemma_render_values_step(s: Seq<SpecValue>, i: int)
    requires
        0 <= i < s.len(),
    ensures
        render_values(s.subrange(0, i + 1)) == if i == 0 {
            render_value(s[0])
        } else {
            render_values(s.subrange(0, i)) + seq![' '] + render_value(s[i])
        },
{
    let t = s.subrange(0, i + 1);
    assert(t.last() == s[i]);
    if i == 0 {
        assert(t.len() == 1);
        assert(t[0] == s[0]);
    } else {
        assert(t.drop_last() =~= s.subrange(0, i));
    }
}

/// The same step fact for map entries.
proof fn lemma_render_pairs_step(s: Seq<(SpecAtom, SpecValue)>, i: int)
    requires
        0 <= i < s.len(),
    ensures
        render_pairs(s.subrange(0, i + 1)) == if i == 0 {
            render_atom(s[0].0) + seq![' '] + render_value(s[0].1)
        } else {
            render_pairs(s.subrange(0, i)) + seq![' '] + render_atom(s[i].0) + seq![' ']
                + render_value(s[i].1)
        },
{
    let t = s.subrange(0, i + 1);
    assert(t.last() == s[i]);
    if i == 0 {
        assert(t.len() == 1);
        assert(t[0] == s[0]);
    } else {
        assert(t.drop_last() =~= s.subrange(0, i));
    }
}

/// Appends the display form of a value to `out`.
pub(crate) fn push_value_chars(v: &MalType, out: &mut Vec<char>)
    ensures
        final(out)@ == old(out)@ + render_value(v@),
    decreases v,
{
    match v {
        MalType::Atom(a) => {
            push_atom_chars(a, out);
        },
        MalType::List(l) => {
            out.push('(');
            push_values_chars(l, out);
            out.push(')');
            proof {
                assert(out@ =~= old(out)@ + render_value(v@));
            }
        },
        MalType::Vector(l) => {
            out.push('[');
            push_values_chars(l, out);
            out.push(']');
            proof {
                assert(out@ =~= old(out)@ + render_value(v@));
            }
        },
        MalType::Mapping(m) => {
            out.push('{');
            push_entries_chars(m, out);
            out.push('}');
            proof {
                assert(out@ =~= old(out)@ + render_value(v@));
            }
        },
        MalType::Function(f) => {
            push_chars_of_str("[function ", out);
            push_chars_of_str(f.name.name.as_str(), out);
            out.push(']');
            proof {
                reveal_strlit("[function ");
                assert("[function "@ =~= seq!['[', 'f', 'u', 'n', 'c', 't', 'i', 'o', 'n', ' ']);
                assert(out@ =~= old(out)@ + render_value(v@));
            }
        },
    }
}

/// Appends the space-joined display forms of the elements to `out`.
fn push_values_chars(l: &Vec<MalType>, out: &mut Vec<char>)
    ensures
        final(out)@ == old(out)@ + render_values(views_of(l@)),
    decreases l,
{
    proof {
        lemma_views_of(l@);
    }
    let ghost vs = views_of(l@);
    let mut i: usize = 0;
    while i < l.len()
        invariant
            i <= l.len(),
            vs == views_of(l@),
            vs.len() == l@.len(),
            forall|j: int| 0 <= j < l@.len() ==> vs[j] == l@[j]@,
            out@ == old(out)@ + render_values(vs.subrange(0, i as int)),
        decreases l.len() - i,
    {
        if i > 0 {
            out.push(' ');
        }
        push_value_chars(&l[i], out);
        proof {
            lemma_render_values_step(vs, i as int);
            assert(out@ =~= old(out)@ + render_values(vs.subrange(0, i as int + 1)));
        }
        i = i + 1;
    }
    proof {
        assert(vs.subrange(0, l@.len() as int) =~= vs);
    }
}

/// Appends the space-joined `key value` display forms of the entries to `out`.
fn push_entries_chars(m: &Vec<MapEntry>, out: &mut Vec<char>)
    ensures
        final(out)@ == old(out)@ + render_pairs(views_of_entries(m@)),
    decreases m,
{
    proof {
        lemma_views_of_entries(m@);
    }
    let ghost ps = views_of_entries(m@);
    let mut i: usize = 0;
    while i < m.len()
        invariant
            i <= m.len(),
            ps == views_of_entries(m@),
            ps.len() == m@.len(),
            forall|j: int| 0 <= j < m@.len() ==> ps[j] == m@[j]@,
            out@ == old(out)@ + render_pairs(ps.subrange(0, i as int)),
        decreases m.len() - i,
    {
        if i > 0 {
            out.push(' ');
        }
        push_atom_chars(&m[i].key, out);
        out.push(' ');
        push_value_chars(&m[i].val, out);
        proof {
            lemma_render_pairs_step(ps, i as int);
            assert(out@ =~= old(out)@ + render_pairs(ps.subrange(0, i as int + 1)));
        }
        i = i + 1;
    }
    proof {
        assert(ps.subrange(0, m@.len() as int) =~= ps);
    }
}

/// Renders a value to text; the print half of the read-eval-print cycle.
pub fn pr_str(code: &MalType) -> (r: String)
    ensures
        r@ == render_value(code@),
{
    let mut out: Vec<char> = Vec::new();
    push_value_chars(code, &mut out);
    chars_to_string(&out)
}


/// How an error is displayed: a `Normal` message as it is, a `Parsing`
/// message behind a fixed heading, a `Resolve` failure naming the symbol
/// that has no binding.
pub open spec fn render_error_text(e: SpecError) -> Seq<char> {
    match e {
        SpecError::Normal(s) => s,
        SpecError::Parsing(s) => "Parsing error"@ + s,
        SpecError::Resolve(s) => "Symbol "@ + seq!['`'] + s + "` does not exist"@,
    }
}

impl MalError {
    /// The error as displayed to a user.
    pub fn message(&self) -> (r: String)
        ensures
            r@ == render_error_text(self@),
    {
        match self {
            MalError::Normal(s) => s.clone(),
            MalError::Parsing(s) => {
                let mut out: Vec<char> = Vec::new();
                push_chars_of_str("Parsing error", &mut out);
                push_chars_of_str(s.as_str(), &mut out);
                chars_to_string(&out)
            },
            MalError::Resolve(s) => {
                let mut out: Vec<char> = Vec::new();
                push_chars_of_str("Symbol ", &mut out);
                out.push('`');
                push_chars_of_str(s.as_str(), &mut out);
                push_chars_of_str("` does not exist", &mut out);
                proof {
                    assert(out@ =~= render_error_text(self@));
                }
                chars_to_string(&out)
            },
        }
    }
}

} // verus!
