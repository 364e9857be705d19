use crate::env::{Env, SpecFrame};
use crate::eval::{eval_elems, eval_value};
use crate::printer::{push_value_chars, chars_to_string, render_error_text, render_value};
use crate::printer::pr_str;
use crate::reader::{parse_program, read_err_msg, read_str};
use crate::types::{
    clone_value, lemma_views_of, views_of, MalError, MalType, SpecError, SpecValue,
};
use crate::eval::eval_form;
use vstd::prelude::*;

verus! {

/// The display forms of several values joined by line breaks.
pub open spec fn render_forms(vs: Seq<SpecValue>) -> Seq<char>
    decreases vs.len(),
{
    if vs.len() == 0 {
        Seq::empty()
    } else if vs.len() == 1 {
        render_value(vs[0])
    } else {
        render_forms(vs.drop_last()) + seq!['\n'] + render_value(vs.last())
    }
}

/// What one input line produces: each top-level form read from the text
/// and evaluated in order against the environment, the rendered results
/// joined by line breaks; the first reader or evaluator failure is the
/// result instead.
pub open spec fn rep_spec(s: Seq<char>, env: Seq<SpecFrame>) -> (Result<
    Seq<char>,
    SpecError,
>, Seq<SpecFrame>) {
    match parse_program(s) {
        Err(e) => (Err(SpecError::Parsing(read_err_msg(e))), env),
        Ok(vs) => {
            let (r, env1) = eval_elems(vs, env);
            match r {
                Err(e) => (Err(e), env1),
                Ok(out) => (Ok(render_forms(out)), env1),
            }
        },
    }
}

/// Evaluates each form in order against the environment, stopping at the
/// first error.
pub fn eval_forms(forms: Vec<MalType>, env: &mut Env) -> (r: Result<Vec<MalType>, MalError>)
    ensures
        crate::eval::elems_result_matches(r, eval_elems(views_of(forms@), old(env)@).0),
        final(env)@ == eval_elems(views_of(forms@), old(env)@).1,
{
    proof {
        lemma_views_of(forms@);
    }
    let ghost vs = views_of(forms@);
    let ghost env0 = old(env)@;
    let mut out: Vec<MalType> = Vec::new();
    let mut i: usize = 0;
    proof {
        assert(vs.subrange(0, vs.len() as int) =~= vs);
        if eval_elems(vs, env0).0 is Ok {
            assert(views_of(out@) + eval_elems(vs, env0).0->Ok_0 =~= eval_elems(
                vs,
                env0,
            ).0->Ok_0);
        }
    }
    while i < forms.len()
        invariant
            i <= forms@.len(),
            vs == views_of(forms@),
            vs.len() == forms@.len(),
            forall|j: int| 0 <= j < forms@.len() ==> vs[j] == forms@[j]@,
            out@.len() == i,
            env0 == old(env)@,
            eval_elems(vs, env0).1 == eval_elems(
                vs.subrange(i as int, vs.len() as int),
                env@,
            ).1,
            match (
                eval_elems(vs, env0).0,
                eval_elems(vs.subrange(i as int, vs.len() as int), env@).0,
            ) {
                (Ok(whole), Ok(rest)) => whole == views_of(out@) + rest,
                (Err(e1), Err(e2)) => e1 == e2,
                _ => false,
            },
        decreases forms@.len() - i,
    {
        let ghost suffix = vs.subrange(i as int, vs.len() as int);
        let ghost env_pre = env@;
        let ghost old_out = out@;
        proof {
            assert(suffix[0] == vs[i as int]);
            assert(suffix.drop_first() =~= vs.subrange(i as int + 1, vs.len() as int));
        }
        let form = clone_value(&forms[i]);
        match eval_form(form, env) {
            Err(e) => {
                return Err(e);
            },
            Ok(val) => {
                out.push(val);
                proof {
                    lemma_views_of(old_out);
                    lemma_views_of(out@);
                    let sval = eval_value(vs[i as int], env_pre).0->Ok_0;
                    assert(views_of(out@) =~= views_of(old_out).push(sval));
                    let next = vs.subrange(i as int + 1, vs.len() as int);
                    if eval_elems(next, env@).0 is Ok {
                        let rest = eval_elems(next, env@).0->Ok_0;
                        assert(views_of(old_out) + (seq![sval] + rest) =~= views_of(out@)
                            + rest);
                    }
                }
                i = i + 1;
            },
        }
    }
    proof {
        assert(vs.subrange(vs.len() as int, vs.len() as int) =~= Seq::<SpecValue>::empty());
        if eval_elems(vs, env0).0 is Ok {
            assert(views_of(out@) + Seq::<SpecValue>::empty() =~= views_of(out@));
        }
    }
    Ok(out)
}

/// On a prefix one element longer, the joined rendering grows by a line
/// break (after the first form) and the rendering of that form.
proof fn lemma_render_forms_step(s: Seq<SpecValue>, i: int)
    requires
        0 <= i < s.len(),
    ensures
        render_forms(s.subrange(0, i + 1)) == if i == 0 {
            render_value(s[0])
        } else {
            render_forms(s.subrange(0, i)) + seq!['\n'] + render_value(s[i])
        },
{
    let t = s.subrange(0, i + 1);
    assert(t.last() == s[i]);
    if i == 0 {
        assert(t.len() == 1);
        assert(t[0] == s[0]);
    } else {
        assert(t.drop_last() =~= s.subrange(0, i));
    }
}

/// Renders several values, one per line.
pub fn print_forms(forms: &Vec<MalType>) -> (r: String)
    ensures
        r@ == render_forms(views_of(forms@)),
{
    proof {
        lemma_views_of(forms@);
    }
    let ghost vs = views_of(forms@);
    let mut out: Vec<char> = Vec::new();
    let mut i: usize = 0;
    while i < forms.len()
        invariant
            i <= forms@.len(),
            vs == views_of(forms@),
            vs.len() == forms@.len(),
            forall|j: int| 0 <= j < forms@.len() ==> vs[j] == forms@[j]@,
            out@ == render_forms(vs.subrange(0, i as int)),
        decreases forms@.len() - i,
    {
        if i > 0 {
            out.push('\n');
        }
        push_value_chars(&forms[i], &mut out);
        proof {
            lemma_render_forms_step(vs, i as int);
            assert(out@ =~= render_forms(vs.subrange(0, i as int + 1)));
        }
        i = i + 1;
    }
    proof {
        assert(vs.subrange(0, vs.len() as int) =~= vs);
    }
    chars_to_string(&out)
}

/// One read-eval-print pass over an input line: the rendered results of
/// its top-level forms, one per line, or the first failure.
pub fn rep(inp: &str, env: &mut Env) -> (r: Result<String, MalError>)
    ensures
        match (r, rep_spec(inp@, old(env)@).0) {
            (Ok(text), Ok(st)) => text@ == st,
            (Err(e), Err(se)) => e@ == se,
            _ => false,
        },
        final(env)@ == rep_spec(inp@, old(env)@).1,
{
    let forms = match read_str(inp) {
        Err(e) => {
            return Err(e);
        },
        Ok(forms) => forms,
    };
    let results = match eval_forms(forms, env) {
        Err(e) => {
            return Err(e);
        },
        Ok(results) => results,
    };
    Ok(print_forms(&results))
}


/// The outcome of each form of a program, in order: the rendered value,
/// or the failure's display text; evaluation goes on after a failing
/// form, against the environment as the earlier forms left it.
pub open spec fn program_outcomes(vs: Seq<SpecValue>, env: Seq<SpecFrame>) -> (Seq<
    Result<Seq<char>, Seq<char>>,
>, Seq<SpecFrame>)
    decreases vs,
{
    if vs.len() == 0 {
        (Seq::empty(), env)
    } else {
        let (r, env1) = eval_value(vs[0], env);
        let entry = match r {
            Ok(v) => Ok(render_value(v)),
            Err(e) => Err(render_error_text(e)),
        };
        let (rest, env2) = program_outcomes(vs.drop_first(), env1);
        (seq![entry] + rest, env2)
    }
}

/// What a whole input line produces at the boundary: one entry per
/// top-level form; a text the reader refuses produces a single entry with
/// that failure's display text.
pub open spec fn evaluate_program_spec(s: Seq<char>, env: Seq<SpecFrame>) -> (Seq<
    Result<Seq<char>, Seq<char>>,
>, Seq<SpecFrame>) {
    match parse_program(s) {
        Err(e) => (
            seq![Err(render_error_text(SpecError::Parsing(read_err_msg(e))))],
            env,
        ),
        Ok(vs) => program_outcomes(vs, env),
    }
}

/// Each executable outcome entry agrees with its model.
pub open spec fn outcomes_match(
    r: Seq<Result<String, String>>,
    s: Seq<Result<Seq<char>, Seq<char>>>,
) -> bool {
    &&& r.len() == s.len()
    &&& forall|i: int|
        0 <= i < r.len() ==> match (#[trigger] r[i], s[i]) {
            (Ok(t), Ok(st)) => t@ == st,
            (Err(t), Err(st)) => t@ == st,
            _ => false,
        }
}

/// Drives one input text through read, eval, and print: one rendered
/// result or error message per top-level form, in source order.
pub fn evaluate_program(source: &str, env: &mut Env) -> (r: Vec<Result<String, String>>)
    ensures
        outcomes_match(r@, evaluate_program_spec(source@, old(env)@).0),
        final(env)@ == evaluate_program_spec(source@, old(env)@).1,
{
    let forms = match read_str(source) {
        Err(e) => {
            let mut out: Vec<Result<String, String>> = Vec::new();
            out.push(Err(e.message()));
            return out;
        },
        Ok(forms) => forms,
    };
    proof {
        lemma_views_of(forms@);
    }
    let ghost vs = views_of(forms@);
    let ghost env0 = old(env)@;
    let mut out: Vec<Result<String, String>> = Vec::new();
    let mut i: usize = 0;
    proof {
        assert(vs.subrange(0, vs.len() as int) =~= vs);
        assert(out@.len() == 0);
    }
    while i < forms.len()
        invariant
            i <= forms@.len(),
            vs == views_of(forms@),
            vs.len() == forms@.len(),
            forall|j: int| 0 <= j < forms@.len() ==> vs[j] == forms@[j]@,
            out@.len() == i,
            env0 == old(env)@,
            program_outcomes(vs, env0).1 == program_outcomes(
                vs.subrange(i as int, vs.len() as int),
                env@,
            ).1,
            ({
                let whole = program_outcomes(vs, env0).0;
                let rest = program_outcomes(vs.subrange(i as int, vs.len() as int), env@).0;
                whole.len() == i + rest.len() && whole.subrange(i as int, whole.len() as int)
                    == rest && outcomes_match(out@, whole.subrange(0, i as int))
            }),
        decreases forms@.len() - i,
    {
        let ghost suffix = vs.subrange(i as int, vs.len() as int);
        let ghost env_pre = env@;
        let ghost old_out = out@;
        proof {
            assert(suffix[0] == vs[i as int]);
            assert(suffix.drop_first() =~= vs.subrange(i as int + 1, vs.len() as int));
        }
        let form = clone_value(&forms[i]);
        let entry = match eval_form(form, env) {
            Ok(val) => Ok(pr_str(&val)),
            Err(e) => Err(e.message()),
        };
        out.push(entry);
        proof {
            let whole = program_outcomes(vs, env0).0;
            let rest_pre = program_outcomes(suffix, env_pre).0;
            let next = vs.subrange(i as int + 1, vs.len() as int);
            let rest_post = program_outcomes(next, env@).0;
            assert(rest_pre == seq![rest_pre[0]] + rest_post);
            assert(whole.subrange(i as int, whole.len() as int) == rest_pre);
            assert(whole[i as int] == rest_pre[0]) by {
                assert(whole.subrange(i as int, whole.len() as int)[0] == whole[i as int]);
            }
            assert(whole.subrange(i as int + 1, whole.len() as int) =~= rest_post) by {
                assert(whole.len() == i + rest_pre.len());
                assert(rest_pre.len() == 1 + rest_post.len());
                assert forall|k: int| 0 <= k < rest_post.len() implies whole.subrange(
                    i as int + 1,
                    whole.len() as int,
                )[k] == rest_post[k] by {
                    assert(whole.subrange(i as int, whole.len() as int)[k + 1] == whole[i as int
                        + 1 + k]);
                    assert(rest_pre[k + 1] == rest_post[k]);
                }
            }
            assert(whole.subrange(0, i as int + 1) =~= whole.subrange(0, i as int).push(
                whole[i as int],
            ));
        }
        i = i + 1;
    }
    proof {
        assert(vs.subrange(vs.len() as int, vs.len() as int) =~= Seq::<SpecValue>::empty());
        let whole = program_outcomes(vs, env0).0;
        assert(whole.subrange(0, whole.len() as int) =~= whole);
    }
    out
}

} // verus!
