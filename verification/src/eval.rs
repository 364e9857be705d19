use crate::built_ins::builtin_result;
use crate::env::{env_lookup, env_pop, env_set, Env, SpecFrame};
use crate::printer::{
    chars_to_string, push_chars_of_str, push_digit_chars, push_value_chars, render_int,
    render_value,
};
use crate::types::{
    clone_value, lemma_views_of, result_matches, views_of, views_of_entries, MalAtom, MalError,
    MalType, SpecAtom, SpecError, SpecValue,
};
use vstd::prelude::*;
use vstd::string::StringExecFns;

verus! {

/// The message for `def!` called with the wrong number of arguments.
pub open spec fn msg_def_arity(n: int) -> Seq<char> {
    "Wrong number of args for def!. Need 2, received "@ + render_int(n)
}

/// The message for `def!` whose first argument is not a symbol.
pub open spec fn msg_def_first(v: SpecValue) -> Seq<char> {
    "First arg to def! must be a symbol. Given "@ + seq!['`'] + render_value(v) + "`"@
}

/// The message for `let*` called with fewer than two arguments.
pub open spec fn msg_let_arity(n: int) -> Seq<char> {
    "Wrong number of args for let*. Need 2 or more, received "@ + render_int(n)
}

/// The message for a `let*` binding that is not a list or vector.
pub open spec fn msg_let_tuples() -> Seq<char> {
    "let* needs tuples"@
}

/// The message for a `let*` binding pair of the wrong length.
pub open spec fn msg_let_pair() -> Seq<char> {
    "let* binding needs 2 parts"@
}

/// The message for a `let*` binding whose left side is not a symbol.
pub open spec fn msg_let_lhs(v: SpecValue) -> Seq<char> {
    "let* binding needs a symbol for lhs: "@ + seq!['`'] + render_value(v) + "`"@
}

/// The message for a `let*` whose first argument is not a binding list.
pub open spec fn msg_let_shape() -> Seq<char> {
    "let* needs a binding list"@
}

/// The message for applying a value that is not a function.
pub open spec fn msg_not_a_function(v: SpecValue) -> Seq<char> {
    seq!['`'] + render_value(v) + "` is not a function"@
}

/// How a non-special form resolves: a symbol through the environment,
/// compound shapes element by element, everything else as itself.
pub open spec fn resolve_ast_spec(v: SpecValue, env: Seq<SpecFrame>) -> (Result<
    SpecValue,
    SpecError,
>, Seq<SpecFrame>)
    decreases v, 2int,
{
    match v {
        SpecValue::Atom(SpecAtom::Symbol(name)) => match env_lookup(env, name) {
            Some(val) => (Ok(val), env),
            None => (Err(SpecError::Resolve(name)), env),
        },
        SpecValue::Atom(_) => (Ok(v), env),
        SpecValue::List(vs) => {
            let (r, env1) = eval_elems(vs, env);
            match r {
                Ok(evaled) => (Ok(SpecValue::List(evaled)), env1),
                Err(e) => (Err(e), env1),
            }
        },
        SpecValue::Vector(vs) => {
            let (r, env1) = eval_elems(vs, env);
            match r {
                Ok(evaled) => (Ok(SpecValue::Vector(evaled)), env1),
                Err(e) => (Err(e), env1),
            }
        },
        SpecValue::Mapping(ps) => {
            let (r, env1) = eval_map_vals(ps, env);
            match r {
                Ok(evaled) => (Ok(SpecValue::Mapping(evaled)), env1),
                Err(e) => (Err(e), env1),
            }
        },
        SpecValue::Function(_, _) => (Ok(v), env),
    }
}

/// What evaluating one form returns and how it leaves the environment.
///
/// The empty list is itself, `def!` and `let*` are special forms, any
/// other list is evaluated element by element and its head applied to the
/// rest, and every non-list form resolves as `resolve_ast_spec` says.
pub open spec fn eval_value(v: SpecValue, env: Seq<SpecFrame>) -> (Result<
    SpecValue,
    SpecError,
>, Seq<SpecFrame>)
    decreases v, 3int,
{
    match v {
        SpecValue::List(vs) => {
            if vs.len() == 0 {
                (Ok(v), env)
            } else if vs[0] == SpecValue::Atom(SpecAtom::Symbol("def!"@)) {
                eval_def(vs.drop_first(), env)
            } else if vs[0] == SpecValue::Atom(SpecAtom::Symbol("let*"@)) {
                eval_let(vs.drop_first(), env)
            } else {
                let (r, env1) = eval_elems(vs, env);
                match r {
                    Err(e) => (Err(e), env1),
                    Ok(evaled) => {
                        if evaled.len() == 0 {
                            (Ok(SpecValue::List(evaled)), env1)
                        } else {
                            match evaled[0] {
                                SpecValue::Function(fname, op) => {
                                    match builtin_result(op, evaled.drop_first()) {
                                        Ok(val) => (Ok(val), env1),
                                        Err(e) => (Err(e), env1),
                                    }
                                },
                                _ => (
                                    (Err(SpecError::Normal(msg_not_a_function(evaled[0]))), env1)
                                ),
                            }
                        }
                    },
                }
            }
        },
        _ => resolve_ast_spec(v, env),
    }
}

/// Evaluates each element left to right, stopping at the first error.
pub open spec fn eval_elems(vs: Seq<SpecValue>, env: Seq<SpecFrame>) -> (Result<
    Seq<SpecValue>,
    SpecError,
>, Seq<SpecFrame>)
    decreases vs, 4int,
{
    if vs.len() == 0 {
        (Ok(Seq::empty()), env)
    } else {
        let (r, env1) = eval_value(vs[0], env);
        match r {
            Err(e) => (Err(e), env1),
            Ok(val) => {
                let (rr, env2) = eval_elems(vs.drop_first(), env1);
                match rr {
                    Ok(rest) => (Ok(seq![val] + rest), env2),
                    Err(e) => (Err(e), env2),
                }
            },
        }
    }
}

/// Evaluates each map value left to right, keys unchanged, stopping at
/// the first error.
pub open spec fn eval_map_vals(ps: Seq<(SpecAtom, SpecValue)>, env: Seq<SpecFrame>) -> (Result<
    Seq<(SpecAtom, SpecValue)>,
    SpecError,
>, Seq<SpecFrame>)
    decreases ps, 4int,
{
    if ps.len() == 0 {
        (Ok(Seq::empty()), env)
    } else {
        let (r, env1) = eval_value(ps[0].1, env);
        match r {
            Err(e) => (Err(e), env1),
            Ok(val) => {
                let (rr, env2) = eval_map_vals(ps.drop_first(), env1);
                match rr {
                    Ok(rest) => (Ok(seq![(ps[0].0, val)] + rest), env2),
                    Err(e) => (Err(e), env2),
                }
            },
        }
    }
}

/// What `def!` does with its arguments: exactly a symbol and a form; the
/// form's value is bound in the innermost frame and returned.
pub open spec fn eval_def(args: Seq<SpecValue>, env: Seq<SpecFrame>) -> (Result<
    SpecValue,
    SpecError,
>, Seq<SpecFrame>)
    decreases args, 4int,
{
    if args.len() != 2 {
        (Err(SpecError::Normal(msg_def_arity(args.len() as int))), env)
    } else {
        match args[0] {
            SpecValue::Atom(SpecAtom::Symbol(name)) => {
                let (r, env1) = eval_value(args[1], env);
                match r {
                    Ok(val) => (Ok(val), env_set(env1, name, val)),
                    Err(e) => (Err(e), env1),
                }
            },
            _ => (Err(SpecError::Normal(msg_def_first(args[0]))), env),
        }
    }
}

/// Binds `let*` pairs in order into the current innermost frame; each
/// right-hand side sees the bindings made before it.
pub open spec fn eval_bindings(bs: Seq<SpecValue>, env: Seq<SpecFrame>) -> (Result<
    (),
    SpecError,
>, Seq<SpecFrame>)
    decreases bs, 4int,
{
    if bs.len() == 0 {
        (Ok(()), env)
    } else {
        match bs[0] {
            SpecValue::List(p) | SpecValue::Vector(p) => {
                if p.len() != 2 {
                    (Err(SpecError::Normal(msg_let_pair())), env)
                } else {
                    match p[0] {
                        SpecValue::Atom(SpecAtom::Symbol(name)) => {
                            let (r, env1) = eval_value(p[1], env);
                            match r {
                                Err(e) => (Err(e), env1),
                                Ok(val) => eval_bindings(bs.drop_first(), env_set(env1, name, val)),
                            }
                        },
                        _ => (Err(SpecError::Normal(msg_let_lhs(p[0]))), env),
                    }
                }
            },
            _ => (Err(SpecError::Normal(msg_let_tuples())), env),
        }
    }
}

/// Evaluates body forms in order, stopping at the first error; the last
/// form's result is the result, and no body at all gives `nil`.
pub open spec fn eval_body(forms: Seq<SpecValue>, env: Seq<SpecFrame>) -> (Result<
    SpecValue,
    SpecError,
>, Seq<SpecFrame>)
    decreases forms, 4int,
{
    if forms.len() == 0 {
        (Ok(SpecValue::Atom(SpecAtom::Nil)), env)
    } else if forms.len() == 1 {
        eval_value(forms[0], env)
    } else {
        let (r0, env1) = eval_value(forms[0], env);
        match r0 {
            Err(e) => (Err(e), env1),
            Ok(val) => eval_body(forms.drop_first(), env1),
        }
    }
}

/// What `let*` does with its arguments: a fresh frame is opened, the
/// pairs of the binding list are bound in order, the body forms run in
/// that frame, and the frame is closed again on every path out.
pub open spec fn eval_let(args: Seq<SpecValue>, env: Seq<SpecFrame>) -> (Result<
    SpecValue,
    SpecError,
>, Seq<SpecFrame>)
    decreases args, 5int,
{
    if args.len() < 2 {
        (Err(SpecError::Normal(msg_let_arity(args.len() as int))), env)
    } else {
        let env1 = env.push(Seq::empty());
        match args[0] {
            SpecValue::List(bs) | SpecValue::Vector(bs) => {
                let (br, env2) = eval_bindings(bs, env1);
                match br {
                    Err(e) => (Err(e), env_pop(env2)),
                    Ok(unit) => {
                        let (r, env3) = eval_body(args.drop_first(), env2);
                        (r, env_pop(env3))
                    },
                }
            },
            _ => (Err(SpecError::Normal(msg_let_shape())), env_pop(env1)),
        }
    }
}


/// An executable element-list result agrees with its model.
pub open spec fn elems_result_matches(
    r: Result<Vec<MalType>, MalError>,
    s: Result<Seq<SpecValue>, SpecError>,
) -> bool {
    match (r, s) {
        (Ok(v), Ok(sv)) => views_of(v@) == sv,
        (Err(e), Err(se)) => e@ == se,
        _ => false,
    }
}

/// Builds a `Normal` error whose message wraps the rendering of `v`
/// between a prefix, backticks, and a suffix.
fn render_error(prefix: &str, v: &MalType, suffix: &str) -> (r: MalError)
    ensures
        r@ == SpecError::Normal(prefix@ + seq!['`'] + render_value(v@) + suffix@),
{
    let mut out: Vec<char> = Vec::new();
    push_chars_of_str(prefix, &mut out);
    out.push('`');
    push_value_chars(v, &mut out);
    push_chars_of_str(suffix, &mut out);
    proof {
        assert(out@ =~= prefix@ + seq!['`'] + render_value(v@) + suffix@);
    }
    MalError::Normal(chars_to_string(&out))
}

/// Builds a `Normal` error whose message is a prefix followed by a count.
fn arity_error(prefix: &str, n: u64) -> (r: MalError)
    ensures
        r@ == SpecError::Normal(prefix@ + render_int(n as int)),
{
    let mut out: Vec<char> = Vec::new();
    push_chars_of_str(prefix, &mut out);
    push_digit_chars(n, &mut out);
    MalError::Normal(chars_to_string(&out))
}

/// Evaluates every element of `l` left to right into a fresh vector,
/// stopping at the first error.
fn eval_elems_exec(l: &Vec<MalType>, env: &mut Env) -> (r: Result<Vec<MalType>, MalError>)
    ensures
        elems_result_matches(r, eval_elems(views_of(l@), old(env)@).0),
        final(env)@ == eval_elems(views_of(l@), old(env)@).1,
    decreases l, 1int,
{
    proof {
        lemma_views_of(l@);
    }
    let ghost vs = views_of(l@);
    let ghost env0 = old(env)@;
    let mut out: Vec<MalType> = Vec::new();
    let mut i: usize = 0;
    proof {
        assert(vs.subrange(0, vs.len() as int) =~= vs);
        assert(views_of(out@) + eval_elems(vs, env0).0->Ok_0 =~= eval_elems(vs, env0).0->Ok_0);
    }
    while i < l.len()
        invariant
            i <= l@.len(),
            vs == views_of(l@),
            vs.len() == l@.len(),
            forall|j: int| 0 <= j < l@.len() ==> vs[j] == l@[j]@,
            out@.len() == i,
            env0 == old(env)@,
            eval_elems(vs, env0).1 == eval_elems(
                vs.subrange(i as int, vs.len() as int),
                env@,
            ).1,
            match (
                eval_elems(vs, env0).0,
                eval_elems(vs.subrange(i as int, vs.len() as int), env@).0,
            ) {
                (Ok(whole), Ok(rest)) => whole == views_of(out@) + rest,
                (Err(e1), Err(e2)) => e1 == e2,
                _ => false,
            },
        decreases l@.len() - i,
    {
        let ghost suffix = vs.subrange(i as int, vs.len() as int);
        let ghost env_pre = env@;
        let ghost old_out = out@;
        proof {
            assert(suffix[0] == vs[i as int]);
            assert(suffix.drop_first() =~= vs.subrange(i as int + 1, vs.len() as int));
        }
        match eval_value_exec(&l[i], env) {
            Err(e) => {
                return Err(e);
            },
            Ok(val) => {
                out.push(val);
                proof {
                    lemma_views_of(old_out);
                    lemma_views_of(out@);
                    let sval = eval_value(vs[i as int], env_pre).0->Ok_0;
                    assert(views_of(out@) =~= views_of(old_out).push(sval));
                    let next = vs.subrange(i as int + 1, vs.len() as int);
                    if eval_elems(next, env@).0 is Ok {
                        let rest = eval_elems(next, env@).0->Ok_0;
                        assert(views_of(old_out) + (seq![sval] + rest) =~= views_of(out@)
                            + rest);
                    }
                }
                i = i + 1;
            },
        }
    }
    proof {
        assert(vs.subrange(vs.len() as int, vs.len() as int) =~= Seq::<SpecValue>::empty());
        if eval_elems(vs, env0).0 is Ok {
            assert(views_of(out@) + Seq::<SpecValue>::empty() =~= views_of(out@));
        }
    }
    Ok(out)
}


/// An executable map-entry result agrees with its model.
pub open spec fn entries_result_matches(
    r: Result<Vec<crate::types::MapEntry>, MalError>,
    s: Result<Seq<(SpecAtom, SpecValue)>, SpecError>,
) -> bool {
    match (r, s) {
        (Ok(v), Ok(sv)) => views_of_entries(v@) == sv,
        (Err(e), Err(se)) => e@ == se,
        _ => false,
    }
}

/// Evaluates every map value left to right into a fresh entry vector,
/// keys unchanged, stopping at the first error.
fn eval_entries_exec(m: &Vec<crate::types::MapEntry>, env: &mut Env) -> (r: Result<
    Vec<crate::types::MapEntry>,
    MalError,
>)
    ensures
        entries_result_matches(r, eval_map_vals(views_of_entries(m@), old(env)@).0),
        final(env)@ == eval_map_vals(views_of_entries(m@), old(env)@).1,
    decreases m, 1int,
{
    proof {
        crate::types::lemma_views_of_entries(m@);
    }
    let ghost ps = views_of_entries(m@);
    let ghost env0 = old(env)@;
    let mut out: Vec<crate::types::MapEntry> = Vec::new();
    let mut i: usize = 0;
    proof {
        assert(ps.subrange(0, ps.len() as int) =~= ps);
        assert(views_of_entries(out@) + eval_map_vals(ps, env0).0->Ok_0 =~= eval_map_vals(
            ps,
            env0,
        ).0->Ok_0);
    }
    while i < m.len()
        invariant
            i <= m@.len(),
            ps == views_of_entries(m@),
            ps.len() == m@.len(),
            forall|j: int| 0 <= j < m@.len() ==> ps[j] == m@[j]@,
            out@.len() == i,
            env0 == old(env)@,
            eval_map_vals(ps, env0).1 == eval_map_vals(
                ps.subrange(i as int, ps.len() as int),
                env@,
            ).1,
            match (
                eval_map_vals(ps, env0).0,
                eval_map_vals(ps.subrange(i as int, ps.len() as int), env@).0,
            ) {
                (Ok(whole), Ok(rest)) => whole == views_of_entries(out@) + rest,
                (Err(e1), Err(e2)) => e1 == e2,
                _ => false,
            },
        decreases m@.len() - i,
    {
        let ghost suffix = ps.subrange(i as int, ps.len() as int);
        let ghost env_pre = env@;
        let ghost old_out = out@;
        proof {
            assert(suffix[0] == ps[i as int]);
            assert(suffix.drop_first() =~= ps.subrange(i as int + 1, ps.len() as int));
        }
        let key = m[i].key.clone();
        match eval_value_exec(&m[i].val, env) {
            Err(e) => {
                return Err(e);
            },
            Ok(val) => {
                out.push(crate::types::MapEntry { key, val });
                proof {
                    crate::types::lemma_views_of_entries(old_out);
                    crate::types::lemma_views_of_entries(out@);
                    let sval = eval_value(ps[i as int].1, env_pre).0->Ok_0;
                    assert(views_of_entries(out@) =~= views_of_entries(old_out).push(
                        (ps[i as int].0, sval),
                    ));
                    let next = ps.subrange(i as int + 1, ps.len() as int);
                    if eval_map_vals(next, env@).0 is Ok {
                        let rest = eval_map_vals(next, env@).0->Ok_0;
                        assert(views_of_entries(old_out) + (seq![(ps[i as int].0, sval)] + rest)
                            =~= views_of_entries(out@) + rest);
                    }
                }
                i = i + 1;
            },
        }
    }
    proof {
        assert(ps.subrange(ps.len() as int, ps.len() as int) =~= Seq::<(
            SpecAtom,
            SpecValue,
        )>::empty());
        if eval_map_vals(ps, env0).0 is Ok {
            assert(views_of_entries(out@) + Seq::<(SpecAtom, SpecValue)>::empty()
                =~= views_of_entries(out@));
        }
    }
    Ok(out)
}

/// Resolves a non-special form: a symbol through the environment, the
/// compound shapes element by element, everything else as a copy of
/// itself.
fn resolve_ast(form: &MalType, env: &mut Env) -> (r: Result<MalType, MalError>)
    ensures
        result_matches(r, resolve_ast_spec(form@, old(env)@).0),
        final(env)@ == resolve_ast_spec(form@, old(env)@).1,
    decreases form, 2int,
{
    match form {
        MalType::Atom(MalAtom::Symbol(sym)) => env.get(sym),
        MalType::Atom(_) => Ok(clone_value(form)),
        MalType::List(l) => {
            match eval_elems_exec(l, env) {
                Ok(evaled) => Ok(MalType::List(evaled)),
                Err(e) => Err(e),
            }
        },
        MalType::Vector(l) => {
            match eval_elems_exec(l, env) {
                Ok(evaled) => Ok(MalType::Vector(evaled)),
                Err(e) => Err(e),
            }
        },
        MalType::Mapping(m) => {
            match eval_entries_exec(m, env) {
                Ok(evaled) => Ok(MalType::Mapping(evaled)),
                Err(e) => Err(e),
            }
        },
        MalType::Function(_) => Ok(clone_value(form)),
    }
}

/// Runs `def!` on the forms after the head: checks the shape, evaluates
/// the second argument, and binds it in the innermost frame.
fn execute_def(l: &Vec<MalType>, env: &mut Env) -> (r: Result<MalType, MalError>)
    requires
        l@.len() >= 1,
    ensures
        result_matches(r, eval_def(views_of(l@).drop_first(), old(env)@).0),
        final(env)@ == eval_def(views_of(l@).drop_first(), old(env)@).1,
    decreases l, 4int,
{
    proof {
        lemma_views_of(l@);
    }
    let ghost args = views_of(l@).drop_first();
    if l.len() != 3 {
        let n: u64 = (l.len() - 1) as u64;
        return Err(arity_error("Wrong number of args for def!. Need 2, received ", n));
    }
    match &l[1] {
        MalType::Atom(MalAtom::Symbol(sym)) => {
            let name = sym.clone();
            match eval_value_exec(&l[2], env) {
                Err(e) => Err(e),
                Ok(val) => Ok(env.set(name, val)),
            }
        },
        _ => Err(render_error("First arg to def! must be a symbol. Given ", &l[1], "`")),
    }
}

/// Runs `let*` on the forms after the head: opens a frame, binds the
/// pairs in order, runs the body forms, and closes the frame on every
/// path out.
fn execute_let_star(l: &Vec<MalType>, env: &mut Env) -> (r: Result<MalType, MalError>)
    requires
        l@.len() >= 1,
    ensures
        result_matches(r, eval_let(views_of(l@).drop_first(), old(env)@).0),
        final(env)@ == eval_let(views_of(l@).drop_first(), old(env)@).1,
    decreases l, 4int,
{
    proof {
        lemma_views_of(l@);
    }
    let ghost args = views_of(l@).drop_first();
    if l.len() < 3 {
        let n: u64 = (l.len() - 1) as u64;
        return Err(arity_error("Wrong number of args for let*. Need 2 or more, received ", n));
    }
    env.push_layer();
    let ghost env1 = env@;
    let bindings: &Vec<MalType> = match &l[1] {
        MalType::List(bs) => bs,
        MalType::Vector(bs) => bs,
        _ => {
            env.pop_layer();
            return Err(MalError::Normal(String::from_str("let* needs a binding list")));
        },
    };
    let ghost bviews = views_of(bindings@);
    proof {
        lemma_views_of(bindings@);
        assert(bviews.subrange(0, bviews.len() as int) =~= bviews);
    }
    let mut k: usize = 0;
    while k < bindings.len()
        invariant
            k <= bindings@.len(),
            3 <= l@.len(),
            args == views_of(l@).drop_first(),
            args.len() == l@.len() - 1,
            forall|j: int| 0 <= j < l@.len() ==> views_of(l@)[j] == l@[j]@,
            args[0] == l@[1]@,
            (args[0] matches SpecValue::List(b) && b == bviews) || (args[0]
                matches SpecValue::Vector(b) && b == bviews),
            (l@[1] matches MalType::List(bv) && bv == *bindings) || (l@[1]
                matches MalType::Vector(bv) && bv == *bindings),
            env1 == old(env)@.push(Seq::<(Seq<char>, SpecValue)>::empty()),
            bviews == views_of(bindings@),
            bviews.len() == bindings@.len(),
            forall|j: int| 0 <= j < bindings@.len() ==> bviews[j] == bindings@[j]@,
            eval_bindings(bviews, env1).0 == eval_bindings(
                bviews.subrange(k as int, bviews.len() as int),
                env@,
            ).0,
            eval_bindings(bviews, env1).1 == eval_bindings(
                bviews.subrange(k as int, bviews.len() as int),
                env@,
            ).1,
        decreases bindings@.len() - k,
    {
        let ghost suffix = bviews.subrange(k as int, bviews.len() as int);
        proof {
            assert(suffix[0] == bviews[k as int]);
            assert(suffix.drop_first() =~= bviews.subrange(k as int + 1, bviews.len() as int));
        }
        let pair: &Vec<MalType> = match &bindings[k] {
            MalType::List(p) => p,
            MalType::Vector(p) => p,
            _ => {
                env.pop_layer();
                return Err(MalError::Normal(String::from_str("let* needs tuples")));
            },
        };
        proof {
            lemma_views_of(pair@);
        }
        if pair.len() != 2 {
            env.pop_layer();
            return Err(MalError::Normal(String::from_str("let* binding needs 2 parts")));
        }
        proof {
            assert(decreases_to!(*l => l@[1]));
            assert(decreases_to!(*bindings => bindings@[k as int]));
        }
        match &pair[0] {
            MalType::Atom(MalAtom::Symbol(sym)) => {
                let name = sym.clone();
                proof {
                    assert(decreases_to!(*pair => pair@[1]));
                }
                match eval_value_exec(&pair[1], env) {
                    Err(e) => {
                        env.pop_layer();
                        return Err(e);
                    },
                    Ok(val) => {
                        env.set(name, val);
                    },
                }
            },
            _ => {
                let err = render_error("let* binding needs a symbol for lhs: ", &pair[0], "`");
                env.pop_layer();
                return Err(err);
            },
        }
        k = k + 1;
    }
    proof {
        assert(bviews.subrange(bviews.len() as int, bviews.len() as int)
            =~= Seq::<SpecValue>::empty());
    }
    let ghost env2 = env@;
    let ghost body = views_of(l@).subrange(2, l@.len() as int);
    proof {
        assert(args.drop_first() =~= body);
        assert(body.subrange(0, body.len() as int) =~= body);
        assert(eval_bindings(bviews, env1) == (Ok::<(), SpecError>(()), env2));
    }
    let mut i: usize = 2;
    let last = l.len() - 1;
    while i < last
        invariant
            2 <= i,
            i <= last,
            last == l@.len() - 1,
            3 <= l@.len(),
            args == views_of(l@).drop_first(),
            args.len() == l@.len() - 1,
            args[0] == l@[1]@,
            (args[0] matches SpecValue::List(b) && b == bviews) || (args[0]
                matches SpecValue::Vector(b) && b == bviews),
            env1 == old(env)@.push(Seq::<(Seq<char>, SpecValue)>::empty()),
            eval_bindings(bviews, env1) == (Ok::<(), SpecError>(()), env2),
            args.drop_first() == body,
            body == views_of(l@).subrange(2, l@.len() as int),
            body.len() == l@.len() - 2,
            forall|j: int| 0 <= j < body.len() ==> body[j] == views_of(l@)[j + 2],
            forall|j: int| 0 <= j < l@.len() ==> views_of(l@)[j] == l@[j]@,
            eval_body(body, env2).0 == eval_body(
                body.subrange(i as int - 2, body.len() as int),
                env@,
            ).0,
            eval_body(body, env2).1 == eval_body(
                body.subrange(i as int - 2, body.len() as int),
                env@,
            ).1,
        decreases l@.len() - i,
    {
        let ghost suffix = body.subrange(i as int - 2, body.len() as int);
        let ghost env_pre = env@;
        proof {
            assert(suffix[0] == body[i as int - 2]);
            assert(suffix.len() >= 2);
            assert(suffix.drop_first() =~= body.subrange(i as int - 1, body.len() as int));
            assert(decreases_to!(*l => l@[i as int]));
        }
        match eval_value_exec(&l[i], env) {
            Err(e) => {
                proof {
                    assert(eval_body(suffix, env_pre).0 == eval_value(
                        suffix[0],
                        env_pre,
                    ).0 && eval_body(suffix, env_pre).1 == eval_value(suffix[0], env_pre).1);
                }
                env.pop_layer();
                return Err(e);
            },
            Ok(v) => {
            },
        }
        i = i + 1;
    }
    let ghost suffix = body.subrange(i as int - 2, body.len() as int);
    proof {
        assert(suffix.len() == 1);
        assert(suffix[0] == body[i as int - 2]);
    }
    let result = eval_value_exec(&l[i], env);
    env.pop_layer();
    result
}

/// Evaluates one form against the environment: the entry point of the
/// evaluator.
fn eval_value_exec(v: &MalType, env: &mut Env) -> (r: Result<MalType, MalError>)
    ensures
        result_matches(r, eval_value(v@, old(env)@).0),
        final(env)@ == eval_value(v@, old(env)@).1,
    decreases v, 3int,
{
    match v {
        MalType::List(l) => {
            proof {
                lemma_views_of(l@);
            }
            if l.len() == 0 {
                return Ok(clone_value(v));
            }
            match &l[0] {
                MalType::Atom(MalAtom::Symbol(sym)) => {
                    if sym.name == String::from_str("def!") {
                        return execute_def(l, env);
                    }
                    if sym.name == String::from_str("let*") {
                        return execute_let_star(l, env);
                    }
                },
                _ => {
                },
            }
            match resolve_ast(v, env) {
                Err(e) => Err(e),
                Ok(evaled_value) => {
                    match evaled_value {
                        MalType::List(evaled) => {
                            proof {
                                lemma_views_of(evaled@);
                            }
                            if evaled.len() == 0 {
                                return Ok(MalType::List(evaled));
                            }
                            match &evaled[0] {
                                MalType::Function(f) => {
                                    let func = f.clone();
                                    let mut fn_args: Vec<MalType> = Vec::new();
                                    let mut i: usize = 1;
                                    while i < evaled.len()
                                        invariant
                                            1 <= i <= evaled@.len(),
                                            fn_args@.len() == i - 1,
                                            forall|j: int|
                                                0 <= j < i - 1 ==> fn_args@[j]@ == evaled@[j
                                                    + 1]@,
                                        decreases evaled@.len() - i,
                                    {
                                        fn_args.push(clone_value(&evaled[i]));
                                        i = i + 1;
                                    }
                                    proof {
                                        lemma_views_of(fn_args@);
                                        assert(views_of(fn_args@) =~= views_of(
                                            evaled@,
                                        ).drop_first());
                                    }
                                    func.invoke(fn_args)
                                },
                                _ => {
                                    let err = render_error("", &evaled[0], "` is not a function");
                                    proof {
                                        reveal_strlit("");
                                        assert(""@ + seq!['`'] + render_value(evaled@[0]@)
                                            + "` is not a function"@ =~= msg_not_a_function(
                                            views_of(evaled@)[0],
                                        ));
                                    }
                                    Err(err)
                                },
                            }
                        },
                        other => {
                            // resolving a list always yields a list
                            proof {
                                assert(false);
                            }
                            Ok(other)
                        },
                    }
                },
            }
        },
        _ => resolve_ast(v, env),
    }
}

/// Evaluates one form against the environment: the evaluator's public
/// entry point.
pub fn eval_form(form: MalType, env: &mut Env) -> (r: Result<MalType, MalError>)
    ensures
        result_matches(r, eval_value(form@, old(env)@).0),
        final(env)@ == eval_value(form@, old(env)@).1,
{
    eval_value_exec(&form, env)
}

} // verus!
