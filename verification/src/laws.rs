use crate::env::{env_lookup, frame_lookup, SpecFrame};
use crate::env::{env_pop, env_set};
use crate::eval::{
    eval_bindings, eval_body, eval_def, eval_elems, eval_let, eval_map_vals, eval_value,
    resolve_ast_spec,
};
use crate::printer::{dec_digits, digit_char, render_atom, render_int, render_value, render_values};
use crate::reader::{
    all_digits_range, classify_token, digit_val, digits_val, int_literal_val, is_digit,
    is_int_literal, is_special, is_token_char, is_ws, map_insert, max2, parse_many_spec,
    parse_map_spec, parse_program, parse_seq_spec, parse_value_spec, skip_trivia, step_to,
    str_body_end, token_end, ReadErr,
};
use crate::repl::{render_forms, rep_spec};
use crate::types::{int_value, key_first_index, SpecAtom, SpecError, SpecValue};
use vstd::arithmetic::div_mod::lemma_fundamental_div_mod;
use vstd::prelude::*;

verus! {

/// Digit characters are digits and valid token characters.
proof fn lemma_digit_char_class(d: int)
    requires
        0 <= d <= 9,
    ensures
        is_digit(digit_char(d)),
        is_token_char(digit_char(d)),
        digit_val(digit_char(d)) == d,
{
}

/// The decimal rendering of a number is nonempty and all digits.
proof fn lemma_dec_digits_shape(m: nat)
    ensures
        dec_digits(m).len() > 0,
        all_digits_range(dec_digits(m), 0, dec_digits(m).len() as int),
        forall|k: int|
            0 <= k < dec_digits(m).len() ==> is_token_char(#[trigger] dec_digits(m)[k]),
    decreases m,
{
    if m < 10 {
        lemma_digit_char_class(m as int);
    } else {
        lemma_dec_digits_shape(m / 10);
        lemma_digit_char_class((m % 10) as int);
        assert forall|k: int| 0 <= k < dec_digits(m).len() implies is_digit(
            #[trigger] dec_digits(m)[k],
        ) && is_token_char(dec_digits(m)[k]) by {
            if k < dec_digits(m / 10).len() {
                assert(dec_digits(m)[k] == dec_digits(m / 10)[k]);
            }
        }
    }
}

/// Reading the decimal rendering of a number gives the number back.
proof fn lemma_digits_val_of_dec_digits(m: nat)
    ensures
        digits_val(dec_digits(m)) == m,
    decreases m,
{
    if m < 10 {
        lemma_digit_char_class(m as int);
        let t = dec_digits(m);
        assert(t == seq![digit_char(m as int)]);
        assert(t.drop_last() =~= Seq::<char>::empty());
        assert(digits_val(Seq::<char>::empty()) == 0);
        assert(t.last() == digit_char(m as int));
        assert(digits_val(t) == digits_val(t.drop_last()) * 10 + digit_val(t.last()));
    } else {
        lemma_digits_val_of_dec_digits(m / 10);
        lemma_digit_char_class((m % 10) as int);
        lemma_dec_digits_shape(m / 10);
        let t = dec_digits(m);
        assert(t == dec_digits(m / 10).push(digit_char((m % 10) as int)));
        assert(t.last() == digit_char((m % 10) as int));
        assert(t.drop_last() =~= dec_digits(m / 10));
        assert(digits_val(t) == digits_val(t.drop_last()) * 10 + digit_val(t.last()));
        assert(digits_val(t.drop_last()) == m / 10);
        assert(digit_val(t.last()) == m % 10);
        lemma_fundamental_div_mod(m as int, 10);
        assert(digits_val(t) == (m / 10) * 10 + m % 10);
    }
}

/// The canonical rendering of an in-range integer is an integer literal
/// token made of token characters, and it reads back as the integer.
proof fn lemma_render_int_literal(n: int)
    requires
        i64::MIN <= n <= i64::MAX,
    ensures
        is_int_literal(render_int(n)),
        int_literal_val(render_int(n)) == n,
        render_int(n).len() > 0,
        forall|k: int|
            0 <= k < render_int(n).len() ==> is_token_char(#[trigger] render_int(n)[k]),
        classify_token(render_int(n)) == Ok::<SpecAtom, ReadErr>(SpecAtom::Integer(n)),
{
    let t = render_int(n);
    if n < 0 {
        lemma_dec_digits_shape((-n) as nat);
        lemma_digits_val_of_dec_digits((-n) as nat);
        assert(t[0] == '-');
        assert(t.drop_first() =~= dec_digits((-n) as nat));
        assert forall|k: int| 0 <= k < t.len() implies is_token_char(#[trigger] t[k]) by {
            if k >= 1 {
                assert(t[k] == dec_digits((-n) as nat)[k - 1]);
            }
        }
        assert(all_digits_range(t, 1, t.len() as int)) by {
            assert forall|k: int| 1 <= k < t.len() implies is_digit(#[trigger] t[k]) by {
                assert(t[k] == dec_digits((-n) as nat)[k - 1]);
            }
        }
        assert(is_int_literal(t));
    } else {
        lemma_dec_digits_shape(n as nat);
        lemma_digits_val_of_dec_digits(n as nat);
        assert(is_digit(t[0]));
        assert(t[0] != '-');
        assert(is_int_literal(t));
    }
}

/// A token region scans to its end: all its characters are token
/// characters and the character after it, if any, is not.
proof fn lemma_token_end_region(s: Seq<char>, i: int, e: int)
    requires
        0 <= i <= e <= s.len(),
        forall|k: int| i <= k < e ==> is_token_char(#[trigger] s[k]),
        e == s.len() || !is_token_char(s[e]),
    ensures
        token_end(s, i) == e,
    decreases e - i,
{
    if i < e {
        lemma_token_end_region(s, i + 1, e);
    }
}

/// A full integer-literal input reads, evaluates, and prints back to the
/// canonical decimal form of its value: the read-eval-print round trip
/// for numbers.
pub proof fn lemma_integer_literal_round_trip(t: Seq<char>, env: Seq<SpecFrame>)
    requires
        is_int_literal(t),
        i64::MIN <= int_literal_val(t) <= i64::MAX,
    ensures
        parse_program(t) == Ok::<Seq<SpecValue>, ReadErr>(seq![int_value(int_literal_val(t))]),
        rep_spec(t, env) == (Ok::<Seq<char>, SpecError>(render_int(int_literal_val(t))), env),
{
    let n = int_literal_val(t);
    let v = int_value(n);
    assert(t.len() > 0);
    assert(is_token_char(t[0])) by {
        if t[0] == '-' {
        } else {
            assert(is_digit(t[0]));
        }
    }
    assert(skip_trivia(t, 0) == 0);
    assert(forall|k: int| 0 <= k < t.len() ==> is_token_char(#[trigger] t[k])) by {
        assert forall|k: int| 0 <= k < t.len() implies is_token_char(#[trigger] t[k]) by {
            if k == 0 {
                if t[0] == '-' {
                } else {
                    assert(is_digit(t[0]));
                }
            } else {
                assert(is_digit(t[k]));
            }
        }
    }
    lemma_token_end_region(t, 1, t.len() as int);
    assert(max2(token_end(t, 1), 1) == t.len() as int);
    assert(t.subrange(0, t.len() as int) =~= t);
    assert(classify_token(t) == Ok::<SpecAtom, ReadErr>(SpecAtom::Integer(n)));
    assert(parse_value_spec(t, 0) == Ok::<(SpecValue, int), ReadErr>((v, t.len() as int)));
    assert(skip_trivia(t, t.len() as int) == t.len() as int);
    assert(parse_many_spec(t, t.len() as int) == Ok::<Seq<SpecValue>, ReadErr>(Seq::empty()));
    assert(step_to(t.len() as int, 1, t.len() as int) == t.len() as int);
    assert(parse_many_spec(t, 0) == Ok::<Seq<SpecValue>, ReadErr>(seq![v] + Seq::empty()));
    assert(seq![v] + Seq::<SpecValue>::empty() =~= seq![v]);
    assert(eval_value(v, env) == (Ok::<SpecValue, SpecError>(v), env));
    assert(eval_elems(Seq::<SpecValue>::empty(), env) == (
        Ok::<Seq<SpecValue>, SpecError>(Seq::empty()),
        env,
    ));
    assert(eval_elems(seq![v], env).0 == Ok::<Seq<SpecValue>, SpecError>(
        seq![v] + Seq::empty(),
    ) && eval_elems(seq![v], env).1 == env) by {
        assert(seq![v][0] == v);
        assert(seq![v].drop_first() =~= Seq::<SpecValue>::empty());
        assert(eval_elems(seq![v].drop_first(), env) == eval_elems(
            Seq::<SpecValue>::empty(),
            env,
        ));
    }
    assert(render_forms(seq![v] + Seq::<SpecValue>::empty()) == render_value(v)) by {
        assert(seq![v] + Seq::<SpecValue>::empty() =~= seq![v]);
        assert(seq![v][0] == v);
    }
}

/// Referencing a symbol with no binding in any active scope yields
/// exactly `Resolve` with the offending name, and leaves the environment
/// as it was.
pub proof fn lemma_unbound_symbol(name: Seq<char>, env: Seq<SpecFrame>)
    requires
        env_lookup(env, name) is None,
    ensures
        eval_value(SpecValue::Atom(SpecAtom::Symbol(name)), env) == (
            Err::<SpecValue, SpecError>(SpecError::Resolve(name)),
            env,
        ),
{
}


/// A symbol name that reads back as the same symbol: a nonempty token
/// that no more specific literal claims.
pub open spec fn wf_symbol_text(s: Seq<char>) -> bool {
    &&& s.len() > 0
    &&& forall|k: int| 0 <= k < s.len() ==> is_token_char(#[trigger] s[k])
    &&& !is_int_literal(s)
    &&& s != seq!['t', 'r', 'u', 'e']
    &&& s != seq!['f', 'a', 'l', 's', 'e']
    &&& s != seq!['n', 'i', 'l']
    &&& s[0] != ':'
}

/// A keyword name that reads back as the same keyword.
pub open spec fn wf_keyword_text(s: Seq<char>) -> bool {
    forall|k: int| 0 <= k < s.len() ==> is_token_char(#[trigger] s[k])
}

/// A string payload that reads back as the same string: its own quotes
/// around a properly escaped body.
pub open spec fn wf_string_text(t: Seq<char>) -> bool {
    &&& t.len() >= 2
    &&& t[0] == '"'
    &&& str_body_end(t, 1) == t.len()
}

/// A value whose display form reads back as the same value: integers in
/// range, well-formed names and strings, and lists and vectors of such
/// values; maps display in unspecified entry order and functions display
/// as an opaque placeholder, so neither round-trips.
pub open spec fn round_trippable(v: SpecValue) -> bool
    decreases v, 0int,
{
    match v {
        SpecValue::Atom(SpecAtom::Integer(n)) => i64::MIN <= n <= i64::MAX,
        SpecValue::Atom(SpecAtom::Boolean(_)) => true,
        SpecValue::Atom(SpecAtom::Nil) => true,
        SpecValue::Atom(SpecAtom::Symbol(s)) => wf_symbol_text(s),
        SpecValue::Atom(SpecAtom::Keyword(k)) => wf_keyword_text(k),
        SpecValue::Atom(SpecAtom::Str(t)) => wf_string_text(t),
        SpecValue::List(vs) => all_round_trippable(vs),
        SpecValue::Vector(vs) => all_round_trippable(vs),
        SpecValue::Mapping(_) => false,
        SpecValue::Function(_, _) => false,
    }
}

/// Every element of the sequence is round-trippable.
pub open spec fn all_round_trippable(vs: Seq<SpecValue>) -> bool
    decreases vs, 1int,
{
    if vs.len() == 0 {
        true
    } else {
        round_trippable(vs[0]) && all_round_trippable(vs.drop_first())
    }
}

/// The position after a value's text must not extend a token: the end of
/// the input, whitespace, or a delimiter.
pub open spec fn ends_ok(s: Seq<char>, e: int) -> bool {
    e == s.len() || is_ws(s[e]) || is_special(s[e])
}

/// The display form of a round-trippable value is nonempty and starts
/// with a character that neither trivia nor a closing bracket claims.
proof fn lemma_render_shape(v: SpecValue)
    requires
        round_trippable(v),
    ensures
        render_value(v).len() > 0,
        !is_ws(render_value(v)[0]),
        render_value(v)[0] != ';',
        render_value(v)[0] != ')',
        render_value(v)[0] != ']',
        render_value(v)[0] != '}',
{
    match v {
        SpecValue::Atom(SpecAtom::Integer(n)) => {
            if n < 0 {
            } else {
                lemma_dec_digits_shape(n as nat);
                assert(is_digit(render_value(v)[0]));
            }
        },
        SpecValue::Atom(SpecAtom::Symbol(s)) => {
            assert(is_token_char(s[0]));
        },
        SpecValue::Atom(SpecAtom::Keyword(k)) => {
            assert(render_value(v)[0] == ':');
        },
        _ => {
        },
    }
}

/// A non-string atom of a round-trippable value renders to a token of
/// token characters that classifies back to the same atom.
proof fn lemma_atom_token(a: SpecAtom)
    requires
        round_trippable(SpecValue::Atom(a)),
        !(a matches SpecAtom::Str(_)),
    ensures
        render_atom(a).len() > 0,
        forall|k: int| 0 <= k < render_atom(a).len() ==> is_token_char(#[trigger] render_atom(a)[k]),
        classify_token(render_atom(a)) == Ok::<SpecAtom, ReadErr>(a),
{
    let t = render_atom(a);
    match a {
        SpecAtom::Integer(n) => {
            lemma_render_int_literal(n);
        },
        SpecAtom::Symbol(s) => {
        },
        SpecAtom::Keyword(k) => {
            assert(t == seq![':'] + k);
            assert(t[0] == ':');
            assert forall|j: int| 0 <= j < t.len() implies is_token_char(#[trigger] t[j]) by {
                if j >= 1 {
                    assert(t[j] == k[j - 1]);
                }
            }
            assert(!is_digit(t[0]) && t[0] != '-');
            assert(!is_int_literal(t));
            assert(t != seq!['t', 'r', 'u', 'e']);
            assert(t != seq!['f', 'a', 'l', 's', 'e']);
            assert(t != seq!['n', 'i', 'l']);
            assert(t.drop_first() =~= k);
        },
        SpecAtom::Boolean(b) => {
            if b {
                assert(t == seq!['t', 'r', 'u', 'e']);
                assert(!is_digit(t[0]) && t[0] != '-');
                assert(!is_int_literal(t));
            } else {
                assert(t == seq!['f', 'a', 'l', 's', 'e']);
                assert(!is_digit(t[0]) && t[0] != '-');
                assert(!is_int_literal(t));
                assert(t != seq!['t', 'r', 'u', 'e']);
            }
        },
        SpecAtom::Nil => {
            assert(t == seq!['n', 'i', 'l']);
            assert(!is_digit(t[0]) && t[0] != '-');
            assert(!is_int_literal(t));
            assert(t != seq!['t', 'r', 'u', 'e']);
            assert(t != seq!['f', 'a', 'l', 's', 'e']);
        },
        SpecAtom::Str(_) => {
        },
    }
}

/// A well-formed string body embedded in a larger text scans to the same
/// end, shifted by the offset.
proof fn lemma_str_embed(s: Seq<char>, off: int, t: Seq<char>, p: int)
    requires
        0 <= off,
        1 <= p <= t.len(),
        off + t.len() <= s.len(),
        s.subrange(off, off + t.len()) == t,
        str_body_end(t, p) == t.len(),
        t.len() >= 2,
    ensures
        str_body_end(s, off + p) == off + t.len(),
    decreases t.len() - p,
{
    assert(s[off + p] == t[p] || p == t.len());
    if p == t.len() {
        assert(str_body_end(t, p) == -1);
        assert(false);
    } else {
        if t[p] == '"' {
            assert(str_body_end(t, p) == p + 1);
        } else if t[p] == '\\' {
            if p + 1 >= t.len() {
                assert(str_body_end(t, p) == -1);
                assert(false);
            } else {
                lemma_str_embed(s, off, t, p + 2);
            }
        } else {
            lemma_str_embed(s, off, t, p + 1);
        }
    }
}

/// The space-joined display of values decomposes at the front: the first
/// value's display, then a space and the display of the rest.
proof fn lemma_render_values_head(vs: Seq<SpecValue>)
    requires
        vs.len() >= 1,
    ensures
        render_values(vs) == render_value(vs[0]) + (if vs.len() == 1 {
            Seq::<char>::empty()
        } else {
            seq![' '] + render_values(vs.drop_first())
        }),
    decreases vs.len(),
{
    if vs.len() == 1 {
        assert(render_values(vs) == render_value(vs[0]));
        assert(render_value(vs[0]) + Seq::<char>::empty() =~= render_value(vs[0]));
    } else if vs.len() == 2 {
        assert(vs.drop_last() =~= seq![vs[0]]);
        assert(render_values(seq![vs[0]]) == render_value(vs[0]));
        assert(vs.drop_first() =~= seq![vs[1]]);
        assert(render_values(seq![vs[1]]) == render_value(vs[1]));
        assert(vs.last() == vs[1]);
        assert(render_value(vs[0]) + seq![' '] + render_value(vs[1]) =~= render_value(vs[0]) + (
        seq![' '] + render_values(vs.drop_first())));
    } else {
        let front = vs.drop_last();
        lemma_render_values_head(front);
        assert(front[0] == vs[0]);
        assert(front.drop_first() =~= vs.drop_first().drop_last());
        let mid = vs.drop_first();
        assert(mid.len() >= 2);
        assert(mid.last() == vs.last());
        assert(render_values(vs) == render_values(front) + seq![' '] + render_value(vs.last()));
        assert(render_values(front) == render_value(vs[0]) + (seq![' '] + render_values(
            front.drop_first(),
        )));
        assert(render_values(mid) == render_values(mid.drop_last()) + seq![' '] + render_value(
            mid.last(),
        ));
        assert(render_values(mid.drop_last()) == render_values(front.drop_first()));
        assert((render_value(vs[0]) + (seq![' '] + render_values(front.drop_first()))) + seq![' ']
            + render_value(vs.last()) =~= render_value(vs[0]) + (seq![' '] + (render_values(
            mid.drop_last(),
        ) + seq![' '] + render_value(mid.last()))));
    }
}

/// A round-trippable value's display form, embedded in a larger text and
/// followed by a token break, reads back as exactly that value.
proof fn lemma_parse_render_at(s: Seq<char>, i: int, v: SpecValue)
    requires
        0 <= i,
        i + render_value(v).len() <= s.len(),
        s.subrange(i, i + render_value(v).len()) == render_value(v),
        round_trippable(v),
        ends_ok(s, i + render_value(v).len()),
    ensures
        parse_value_spec(s, i) == Ok::<(SpecValue, int), ReadErr>((
            v,
            i + render_value(v).len(),
        )),
    decreases v, 0int,
{
    let rv = render_value(v);
    let e = i + rv.len();
    lemma_render_shape(v);
    assert(forall|k: int| 0 <= k < rv.len() ==> s[i + k] == rv[k]) by {
        assert forall|k: int| 0 <= k < rv.len() implies s[i + k] == rv[k] by {
            assert(s.subrange(i, e)[k] == s[i + k]);
        }
    }
    assert(s[i] == rv[0]);
    assert(skip_trivia(s, i) == i);
    assert(max2(skip_trivia(s, i), i) == i);
    match v {
        SpecValue::Atom(a) => {
            match a {
                SpecAtom::Str(t) => {
                    assert(s[i] == '"');
                    lemma_str_embed(s, i, t, 1);
                    assert(str_body_end(s, i + 1) == e);
                    assert(s.subrange(i, e) =~= t);
                },
                _ => {
                    lemma_atom_token(a);
                    assert(rv == render_atom(a));
                    assert(is_token_char(s[i]));
                    assert(!is_special(s[i]) && !is_ws(s[i]));
                    assert forall|k: int| i + 1 <= k < e implies is_token_char(
                        #[trigger] s[k],
                    ) by {
                        assert(s[k] == rv[k - i]);
                    }
                    lemma_token_end_region(s, i + 1, e);
                    assert(max2(token_end(s, i + 1), i + 1) == e);
                    assert(s.subrange(i, e) == rv);
                    assert(classify_token(s.subrange(i, e)) == Ok::<SpecAtom, ReadErr>(a));
                },
            }
        },
        SpecValue::List(vs) => {
            assert(rv == seq!['('] + render_values(vs) + seq![')']);
            assert(s[i] == '(');
            let inner = render_values(vs);
            assert(s.subrange(i + 1, i + 1 + inner.len()) =~= inner) by {
                assert forall|k: int| 0 <= k < inner.len() implies s.subrange(
                    i + 1,
                    i + 1 + inner.len(),
                )[k] == inner[k] by {
                    assert(s[i + 1 + k] == rv[1 + k]);
                    assert(rv[1 + k] == inner[k]);
                }
            }
            assert(s[e - 1] == rv[rv.len() - 1]);
            assert(rv[rv.len() - 1] == ')');
            lemma_parse_render_elems(s, i + 1, vs);
            assert(parse_seq_spec(s, i + 1) == Ok::<(Seq<SpecValue>, int), ReadErr>((
                vs,
                e - 1,
            )));
        },
        SpecValue::Vector(vs) => {
            assert(rv == seq!['['] + render_values(vs) + seq![']']);
            assert(s[i] == '[');
            let inner = render_values(vs);
            assert(s.subrange(i + 1, i + 1 + inner.len()) =~= inner) by {
                assert forall|k: int| 0 <= k < inner.len() implies s.subrange(
                    i + 1,
                    i + 1 + inner.len(),
                )[k] == inner[k] by {
                    assert(s[i + 1 + k] == rv[1 + k]);
                    assert(rv[1 + k] == inner[k]);
                }
            }
            assert(s[e - 1] == rv[rv.len() - 1]);
            assert(rv[rv.len() - 1] == ']');
            lemma_parse_render_elems(s, i + 1, vs);
            assert(parse_seq_spec(s, i + 1) == Ok::<(Seq<SpecValue>, int), ReadErr>((
                vs,
                e - 1,
            )));
        },
        _ => {
        },
    }
}

/// The space-joined display forms of round-trippable values, embedded
/// before a closing bracket, read back as exactly those values, stopping
/// at the bracket.
proof fn lemma_parse_render_elems(s: Seq<char>, i: int, vs: Seq<SpecValue>)
    requires
        0 <= i,
        i + render_values(vs).len() < s.len(),
        s.subrange(i, i + render_values(vs).len()) == render_values(vs),
        all_round_trippable(vs),
        s[i + render_values(vs).len()] == ')' || s[i + render_values(vs).len()] == ']' || s[i
            + render_values(vs).len()] == '}',
    ensures
        parse_seq_spec(s, i) == Ok::<(Seq<SpecValue>, int), ReadErr>((
            vs,
            i + render_values(vs).len(),
        )),
    decreases vs, 1int,
{
    let inner = render_values(vs);
    let e = i + inner.len();
    assert(forall|k: int| 0 <= k < inner.len() ==> s[i + k] == inner[k]) by {
        assert forall|k: int| 0 <= k < inner.len() implies s[i + k] == inner[k] by {
            assert(s.subrange(i, e)[k] == s[i + k]);
        }
    }
    if vs.len() == 0 {
        assert(inner =~= Seq::<char>::empty());
        assert(e == i);
        assert(is_special(s[i]));
        assert(skip_trivia(s, i) == i);
        assert(parse_seq_spec(s, i) == Ok::<(Seq<SpecValue>, int), ReadErr>((Seq::empty(), i)));
        assert(vs =~= Seq::<SpecValue>::empty());
    } else {
        lemma_render_values_head(vs);
        let rv0 = render_value(vs[0]);
        let e0 = i + rv0.len();
        lemma_render_shape(vs[0]);
        assert(s.subrange(i, e0) =~= rv0) by {
            assert forall|k: int| 0 <= k < rv0.len() implies s.subrange(i, e0)[k] == rv0[k] by {
                assert(s[i + k] == inner[k]);
                assert(inner[k] == rv0[k]);
            }
        }
        if vs.len() == 1 {
            assert(e0 == e);
            assert(ends_ok(s, e0));
            lemma_parse_render_at(s, i, vs[0]);
            assert(s[i] == rv0[0]);
            assert(skip_trivia(s, i) == i);
            assert(step_to(e0, i + 1, s.len() as int) == e0);
            assert(skip_trivia(s, e0) == e0);
            assert(parse_seq_spec(s, e0) == Ok::<(Seq<SpecValue>, int), ReadErr>((
                Seq::empty(),
                e0,
            )));
            assert(seq![vs[0]] + Seq::<SpecValue>::empty() =~= vs);
        } else {
            assert(inner[rv0.len() as int] == ' ');
            assert(s[e0] == ' ');
            assert(ends_ok(s, e0));
            lemma_parse_render_at(s, i, vs[0]);
            assert(s[i] == rv0[0]);
            assert(skip_trivia(s, i) == i);
            assert(step_to(e0, i + 1, s.len() as int) == e0);
            let rest = vs.drop_first();
            let rest_inner = render_values(rest);
            assert(inner == rv0 + (seq![' '] + rest_inner));
            assert(s.subrange(e0 + 1, e0 + 1 + rest_inner.len()) =~= rest_inner) by {
                assert forall|k: int| 0 <= k < rest_inner.len() implies s.subrange(
                    e0 + 1,
                    e0 + 1 + rest_inner.len(),
                )[k] == rest_inner[k] by {
                    assert(s[e0 + 1 + k] == inner[rv0.len() as int + 1 + k]);
                    assert(inner[rv0.len() as int + 1 + k] == rest_inner[k]);
                }
            }
            assert(e0 + 1 + rest_inner.len() == e);
            assert(all_round_trippable(rest));
            lemma_parse_render_elems(s, e0 + 1, rest);
            // the skip over the single separating space
            lemma_render_values_head(rest);
            assert(round_trippable(rest[0]));
            lemma_render_shape(rest[0]);
            assert(s[e0 + 1] == rest_inner[0]);
            assert(rest_inner[0] == render_value(rest[0])[0]);
            assert(skip_trivia(s, e0 + 1) == e0 + 1);
            assert(skip_trivia(s, e0) == e0 + 1);
            assert(max2(skip_trivia(s, e0), e0) == e0 + 1);
            assert(max2(skip_trivia(s, e0 + 1), e0 + 1) == e0 + 1);
            assert(parse_seq_spec(s, e0) == parse_seq_spec(s, e0 + 1));
            assert(seq![vs[0]] + rest =~= vs);
        }
    }
}

/// Printing a round-trippable value and reading the text back yields the
/// value, alone, as the whole program.
pub proof fn lemma_read_render_round_trip(v: SpecValue)
    requires
        round_trippable(v),
    ensures
        parse_program(render_value(v)) == Ok::<Seq<SpecValue>, ReadErr>(seq![v]),
{
    let s = render_value(v);
    lemma_render_shape(v);
    assert(s.subrange(0, s.len() as int) =~= s);
    assert(ends_ok(s, s.len() as int));
    lemma_parse_render_at(s, 0, v);
    assert(skip_trivia(s, 0) == 0);
    assert(max2(skip_trivia(s, 0), 0) == 0);
    assert(skip_trivia(s, s.len() as int) == s.len() as int);
    assert(parse_many_spec(s, s.len() as int) == Ok::<Seq<SpecValue>, ReadErr>(Seq::empty()));
    assert(step_to(s.len() as int, 1, s.len() as int) == s.len() as int);
    assert(parse_many_spec(s, 0) == Ok::<Seq<SpecValue>, ReadErr>(seq![v] + Seq::empty()));
    assert(seq![v] + Seq::<SpecValue>::empty() =~= seq![v]);
}

/// A value on which evaluation has nothing to do: atoms other than
/// symbols, the empty list, vectors of such values, and function values.
pub open spec fn self_evaluating(v: SpecValue) -> bool
    decreases v, 0int,
{
    match v {
        SpecValue::Atom(SpecAtom::Symbol(_)) => false,
        SpecValue::Atom(_) => true,
        SpecValue::List(vs) => vs.len() == 0,
        SpecValue::Vector(vs) => all_self_evaluating(vs),
        SpecValue::Mapping(_) => false,
        SpecValue::Function(_, _) => true,
    }
}

/// Every element of the sequence is self-evaluating.
pub open spec fn all_self_evaluating(vs: Seq<SpecValue>) -> bool
    decreases vs, 1int,
{
    if vs.len() == 0 {
        true
    } else {
        self_evaluating(vs[0]) && all_self_evaluating(vs.drop_first())
    }
}

/// Evaluating a self-evaluating value returns it unchanged and leaves the
/// environment as it was.
pub proof fn lemma_self_eval(v: SpecValue, env: Seq<SpecFrame>)
    requires
        self_evaluating(v),
    ensures
        eval_value(v, env) == (Ok::<SpecValue, SpecError>(v), env),
    decreases v, 0int,
{
    match v {
        SpecValue::Vector(vs) => {
            lemma_self_eval_elems(vs, env);
        },
        _ => {
        },
    }
}

proof fn lemma_self_eval_elems(vs: Seq<SpecValue>, env: Seq<SpecFrame>)
    requires
        all_self_evaluating(vs),
    ensures
        eval_elems(vs, env) == (Ok::<Seq<SpecValue>, SpecError>(vs), env),
    decreases vs, 1int,
{
    if vs.len() == 0 {
        assert(vs =~= Seq::<SpecValue>::empty());
    } else {
        lemma_self_eval(vs[0], env);
        lemma_self_eval_elems(vs.drop_first(), env);
        assert(seq![vs[0]] + vs.drop_first() =~= vs);
    }
}

/// The full cycle on a round-trippable, self-evaluating value: printing
/// it, reading the text, evaluating every form, and printing the results
/// reproduces the original text and leaves the environment untouched.
pub proof fn lemma_print_read_eval_print(v: SpecValue, env: Seq<SpecFrame>)
    requires
        round_trippable(v),
        self_evaluating(v),
    ensures
        rep_spec(render_value(v), env) == (
            Ok::<Seq<char>, SpecError>(render_value(v)),
            env,
        ),
{
    lemma_read_render_round_trip(v);
    lemma_self_eval(v, env);
    assert(eval_elems(Seq::<SpecValue>::empty(), env) == (
        Ok::<Seq<SpecValue>, SpecError>(Seq::empty()),
        env,
    ));
    assert(eval_elems(seq![v], env) == (Ok::<Seq<SpecValue>, SpecError>(seq![v] + Seq::empty()), env))
        by {
        assert(seq![v][0] == v);
        assert(seq![v].drop_first() =~= Seq::<SpecValue>::empty());
        assert(eval_elems(seq![v].drop_first(), env) == eval_elems(
            Seq::<SpecValue>::empty(),
            env,
        ));
    }
    assert(render_forms(seq![v] + Seq::<SpecValue>::empty()) == render_value(v)) by {
        assert(seq![v] + Seq::<SpecValue>::empty() =~= seq![v]);
        assert(seq![v][0] == v);
    }
}


/// Evaluation touches only the innermost scope frame: whatever one form
/// does to the environment, the stack it leaves behind is exactly as deep
/// as before and every outer frame is untouched.
pub proof fn lemma_eval_keeps_frame_count(v: SpecValue, env: Seq<SpecFrame>)
    requires
        env.len() >= 1,
    ensures
        eval_value(v, env).1.len() == env.len(),
        eval_value(v, env).1.drop_last() == env.drop_last(),
    decreases v, 3int,
{
    match v {
        SpecValue::List(vs) => {
            if vs.len() == 0 {
            } else if vs[0] == SpecValue::Atom(SpecAtom::Symbol("def!"@)) {
                lemma_def_keeps_frame_count(vs.drop_first(), env);
            } else if vs[0] == SpecValue::Atom(SpecAtom::Symbol("let*"@)) {
                lemma_let_keeps_frame_count(vs.drop_first(), env);
            } else {
                lemma_elems_keep_frame_count(vs, env);
            }
        },
        _ => {
            lemma_resolve_keeps_frame_count(v, env);
        },
    }
}

proof fn lemma_resolve_keeps_frame_count(v: SpecValue, env: Seq<SpecFrame>)
    requires
        env.len() >= 1,
    ensures
        resolve_ast_spec(v, env).1.len() == env.len(),
        resolve_ast_spec(v, env).1.drop_last() == env.drop_last(),
    decreases v, 2int,
{
    match v {
        SpecValue::List(vs) => {
            lemma_elems_keep_frame_count(vs, env);
        },
        SpecValue::Vector(vs) => {
            lemma_elems_keep_frame_count(vs, env);
        },
        SpecValue::Mapping(ps) => {
            lemma_map_vals_keep_frame_count(ps, env);
        },
        _ => {
        },
    }
}

proof fn lemma_elems_keep_frame_count(vs: Seq<SpecValue>, env: Seq<SpecFrame>)
    requires
        env.len() >= 1,
    ensures
        eval_elems(vs, env).1.len() == env.len(),
        eval_elems(vs, env).1.drop_last() == env.drop_last(),
    decreases vs, 4int,
{
    if vs.len() > 0 {
        lemma_eval_keeps_frame_count(vs[0], env);
        let (r, env1) = eval_value(vs[0], env);
        if r is Ok {
            lemma_elems_keep_frame_count(vs.drop_first(), env1);
        }
    }
}

proof fn lemma_map_vals_keep_frame_count(ps: Seq<(SpecAtom, SpecValue)>, env: Seq<SpecFrame>)
    requires
        env.len() >= 1,
    ensures
        eval_map_vals(ps, env).1.len() == env.len(),
        eval_map_vals(ps, env).1.drop_last() == env.drop_last(),
    decreases ps, 4int,
{
    if ps.len() > 0 {
        lemma_eval_keeps_frame_count(ps[0].1, env);
        let (r, env1) = eval_value(ps[0].1, env);
        if r is Ok {
            lemma_map_vals_keep_frame_count(ps.drop_first(), env1);
        }
    }
}

proof fn lemma_def_keeps_frame_count(args: Seq<SpecValue>, env: Seq<SpecFrame>)
    requires
        env.len() >= 1,
    ensures
        eval_def(args, env).1.len() == env.len(),
        eval_def(args, env).1.drop_last() == env.drop_last(),
    decreases args, 4int,
{
    if args.len() == 2 {
        match args[0] {
            SpecValue::Atom(SpecAtom::Symbol(name)) => {
                lemma_eval_keeps_frame_count(args[1], env);
                let (r, env1) = eval_value(args[1], env);
                if r is Ok {
                    assert(env_set(env1, name, r->Ok_0).drop_last() =~= env1.drop_last());
                }
            },
            _ => {
            },
        }
    }
}

proof fn lemma_bindings_keep_frame_count(bs: Seq<SpecValue>, env: Seq<SpecFrame>)
    requires
        env.len() >= 1,
    ensures
        eval_bindings(bs, env).1.len() == env.len(),
        eval_bindings(bs, env).1.drop_last() == env.drop_last(),
    decreases bs, 4int,
{
    if bs.len() > 0 {
        match bs[0] {
            SpecValue::List(p) | SpecValue::Vector(p) => {
                if p.len() == 2 {
                    match p[0] {
                        SpecValue::Atom(SpecAtom::Symbol(name)) => {
                            lemma_eval_keeps_frame_count(p[1], env);
                            let (r, env1) = eval_value(p[1], env);
                            if r is Ok {
                                assert(env_set(env1, name, r->Ok_0).drop_last()
                                    =~= env1.drop_last());
                                lemma_bindings_keep_frame_count(
                                    bs.drop_first(),
                                    env_set(env1, name, r->Ok_0),
                                );
                            }
                        },
                        _ => {
                        },
                    }
                }
            },
            _ => {
            },
        }
    }
}

proof fn lemma_body_keeps_frame_count(forms: Seq<SpecValue>, env: Seq<SpecFrame>)
    requires
        env.len() >= 1,
    ensures
        eval_body(forms, env).1.len() == env.len(),
        eval_body(forms, env).1.drop_last() == env.drop_last(),
    decreases forms, 4int,
{
    if forms.len() == 1 {
        lemma_eval_keeps_frame_count(forms[0], env);
    } else if forms.len() > 1 {
        lemma_eval_keeps_frame_count(forms[0], env);
        let (r0, env1) = eval_value(forms[0], env);
        if r0 is Ok {
            lemma_body_keeps_frame_count(forms.drop_first(), env1);
        }
    }
}

proof fn lemma_let_keeps_frame_count(args: Seq<SpecValue>, env: Seq<SpecFrame>)
    requires
        env.len() >= 1,
    ensures
        eval_let(args, env).1 == env,
    decreases args, 5int,
{
    if args.len() >= 2 {
        let env1 = env.push(Seq::empty());
        assert(env1.drop_last() =~= env);
        match args[0] {
            SpecValue::List(bs) | SpecValue::Vector(bs) => {
                lemma_bindings_keep_frame_count(bs, env1);
                let (br, env2) = eval_bindings(bs, env1);
                assert(env2.drop_last() == env);
                match br {
                    Err(e) => {
                        assert(env_pop(env2) == env);
                    },
                    Ok(unit) => {
                        lemma_body_keeps_frame_count(args.drop_first(), env2);
                        let (r, env3) = eval_body(args.drop_first(), env2);
                        assert(env3.drop_last() == env2.drop_last());
                        assert(env_pop(env3) == env);
                    },
                }
            },
            _ => {
                assert(env_pop(env1) == env);
            },
        }
    }
}

/// The frame a `let*` opens never leaks: whatever the binding list and
/// body do, and whether they succeed or fail, the environment after a
/// `let*` form is exactly the environment before it.
pub proof fn lemma_let_star_restores_env(args: Seq<SpecValue>, env: Seq<SpecFrame>)
    requires
        env.len() >= 1,
    ensures
        eval_let(args, env).1 == env,
{
    lemma_let_keeps_frame_count(args, env);
}


/// A name bound by `def!` resolves to the bound value afterwards, in the
/// same environment.
pub proof fn lemma_set_then_lookup(env: Seq<SpecFrame>, name: Seq<char>, val: SpecValue)
    requires
        env.len() >= 1,
    ensures
        env_lookup(env_set(env, name, val), name) == Some(val),
{
    let env1 = env_set(env, name, val);
    assert(env1.last() == env.last().push((name, val)));
    assert(env1.last().last() == (name, val));
    assert(frame_lookup(env1.last(), name) == Some(val));
}

/// Binding one name changes no other name's resolution.
pub proof fn lemma_set_keeps_other_lookups(
    env: Seq<SpecFrame>,
    name: Seq<char>,
    val: SpecValue,
    other: Seq<char>,
)
    requires
        env.len() >= 1,
        other != name,
    ensures
        env_lookup(env_set(env, name, val), other) == env_lookup(env, other),
{
    let env1 = env_set(env, name, val);
    assert(env1.last() == env.last().push((name, val)));
    assert(env1.last().drop_last() =~= env.last());
    assert(frame_lookup(env1.last(), other) == frame_lookup(env.last(), other));
    assert(env1.drop_last() =~= env.drop_last());
}



/// No two entries of a map share a key.
pub open spec fn distinct_keys(ps: Seq<(SpecAtom, SpecValue)>) -> bool {
    forall|i: int, j: int| 0 <= i < j < ps.len() ==> (#[trigger] ps[i].0) != (#[trigger] ps[j].0)
}

proof fn lemma_key_first_index_props(acc: Seq<(SpecAtom, SpecValue)>, k: SpecAtom)
    ensures
        key_first_index(acc, k) == -1 ==> forall|j: int|
            0 <= j < acc.len() ==> (#[trigger] acc[j].0) != k,
        key_first_index(acc, k) >= 0 ==> 0 <= key_first_index(acc, k) < acc.len() && acc[
            key_first_index(acc, k)
        ].0 == k,
    decreases acc.len(),
{
    if acc.len() > 0 && acc[0].0 != k {
        lemma_key_first_index_props(acc.drop_first(), k);
        let r = key_first_index(acc.drop_first(), k);
        if r == -1 {
            assert forall|j: int| 0 <= j < acc.len() implies (#[trigger] acc[j].0) != k by {
                if j > 0 {
                    assert(acc.drop_first()[j - 1] == acc[j]);
                }
            }
        } else {
            assert(acc.drop_first()[r] == acc[r + 1]);
        }
    }
}

/// Adding an entry to a map with distinct keys keeps the keys distinct:
/// an existing key is overwritten in place, a new one is appended.
proof fn lemma_map_insert_distinct(acc: Seq<(SpecAtom, SpecValue)>, k: SpecAtom, v: SpecValue)
    requires
        distinct_keys(acc),
    ensures
        distinct_keys(map_insert(acc, k, v)),
{
    lemma_key_first_index_props(acc, k);
    let idx = key_first_index(acc, k);
    if 0 <= idx < acc.len() {
        let out = acc.update(idx, (k, v));
        assert forall|i: int, j: int| 0 <= i < j < out.len() implies (#[trigger] out[i].0) != (
        #[trigger] out[j].0) by {
            assert(acc[i].0 != acc[j].0);
            if i == idx {
                assert(out[i].0 == acc[idx].0);
            }
            if j == idx {
                assert(out[j].0 == acc[idx].0);
            }
        }
    } else {
        let out = acc.push((k, v));
        assert forall|i: int, j: int| 0 <= i < j < out.len() implies (#[trigger] out[i].0) != (
        #[trigger] out[j].0) by {
            if j < acc.len() {
                assert(acc[i].0 != acc[j].0);
            } else {
                assert(out[j].0 == k);
                assert(acc[i].0 != k);
            }
        }
    }
}

/// Every map the reader builds collapses equal keys: whatever entries the
/// text repeats, the parsed map's keys are distinct.
pub proof fn lemma_parsed_map_keys_distinct(
    s: Seq<char>,
    i: int,
    acc: Seq<(SpecAtom, SpecValue)>,
)
    requires
        0 <= i,
        distinct_keys(acc),
        parse_map_spec(s, i, acc) is Ok,
    ensures
        distinct_keys(parse_map_spec(s, i, acc)->Ok_0.0),
    decreases s.len() - i, 2int,
{
    let j = max2(skip_trivia(s, i), i);
    if j >= s.len() {
    } else if s[j] == ')' || s[j] == ']' || s[j] == '}' {
    } else {
        match crate::reader::parse_atom_token(s, j) {
            Err(e) => {
            },
            Ok((key, k)) => {
                let after_key = max2(k, j + 1);
                let j2 = max2(skip_trivia(s, after_key), after_key);
                if j2 >= s.len() {
                } else if s[j2] == '}' {
                } else {
                    match parse_value_spec(s, j2) {
                        Err(e) => {
                        },
                        Ok((v, k2)) => {
                            lemma_map_insert_distinct(acc, key, v);
                            lemma_parsed_map_keys_distinct(
                                s,
                                step_to(k2, j2 + 1, s.len() as int),
                                map_insert(acc, key, v),
                            );
                        },
                    }
                }
            },
        }
    }
}


/// Evaluating a map changes only its values: the keys stay, position by
/// position, so distinct keys stay distinct.
pub proof fn lemma_eval_map_keeps_keys(ps: Seq<(SpecAtom, SpecValue)>, env: Seq<SpecFrame>)
    requires
        eval_map_vals(ps, env).0 is Ok,
    ensures
        eval_map_vals(ps, env).0->Ok_0.len() == ps.len(),
        forall|i: int|
            0 <= i < ps.len() ==> (#[trigger] eval_map_vals(ps, env).0->Ok_0[i].0) == ps[i].0,
        distinct_keys(ps) ==> distinct_keys(eval_map_vals(ps, env).0->Ok_0),
    decreases ps,
{
    if ps.len() > 0 {
        let (r, env1) = eval_value(ps[0].1, env);
        match r {
            Err(e) => {
            },
            Ok(val) => {
                lemma_eval_map_keeps_keys(ps.drop_first(), env1);
                let out = eval_map_vals(ps, env).0->Ok_0;
                let rest = eval_map_vals(ps.drop_first(), env1).0->Ok_0;
                assert(out == seq![(ps[0].0, val)] + rest);
                assert forall|i: int| 0 <= i < ps.len() implies (#[trigger] out[i].0)
                    == ps[i].0 by {
                    if i > 0 {
                        assert(out[i] == rest[i - 1]);
                        assert(ps.drop_first()[i - 1] == ps[i]);
                    }
                }
                if distinct_keys(ps) {
                    assert forall|i: int, j: int| 0 <= i < j < out.len() implies (
                    #[trigger] out[i].0) != (#[trigger] out[j].0) by {
                        assert(out[i].0 == ps[i].0);
                        assert(out[j].0 == ps[j].0);
                    }
                }
            },
        }
    }
}

} // verus!
