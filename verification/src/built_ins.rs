use crate::printer::{push_chars_of_str, push_value_chars, render_value, chars_to_string};
use crate::symbol::Symbol;
use crate::types::{
    int_value, result_matches, views_of, lemma_views_of, Builtin, MalAtom, MalError, MalFunction,
    MalType, SpecAtom, SpecError, SpecValue,
};
use vstd::arithmetic::div_mod::{
    lemma_div_is_ordered, lemma_div_is_ordered_by_denominator, lemma_div_nonincreasing,
    lemma_div_pos_is_pos,
    lemma_mod_add_multiples_vanish, lemma_small_mod,
};
use vstd::prelude::*;
use vstd::string::StringExecFns;

verus! {

/// Whether a value is an integer atom.
pub open spec fn is_int(v: SpecValue) -> bool {
    v matches SpecValue::Atom(SpecAtom::Integer(_))
}

/// The integer carried by an integer atom.
pub open spec fn int_of(v: SpecValue) -> int {
    match v {
        SpecValue::Atom(SpecAtom::Integer(n)) => n,
        _ => 0,
    }
}

/// Whether every argument is an integer atom.
pub open spec fn all_ints(args: Seq<SpecValue>) -> bool {
    forall|i: int| 0 <= i < args.len() ==> is_int(#[trigger] args[i])
}

/// The integers carried by a sequence of integer atoms.
pub open spec fn ints_of(args: Seq<SpecValue>) -> Seq<int> {
    Seq::new(args.len(), |i: int| int_of(args[i]))
}

/// The position of the first argument that is not an integer atom.
pub open spec fn first_non_int(args: Seq<SpecValue>) -> int
    decreases args.len(),
{
    if args.len() == 0 {
        0
    } else if !is_int(args[0]) {
        0
    } else {
        1 + first_non_int(args.drop_first())
    }
}

proof fn lemma_first_non_int(s: Seq<SpecValue>, i: int)
    requires
        0 <= i < s.len(),
        !is_int(s[i]),
        forall|j: int| 0 <= j < i ==> is_int(#[trigger] s[j]),
    ensures
        first_non_int(s) == i,
    decreases i,
{
    if i > 0 {
        lemma_first_non_int(s.drop_first(), i - 1);
    }
}

/// The value `x` reduced into the signed 64-bit range, as fixed-width
/// arithmetic leaves it.
pub open spec fn wrap64(x: int) -> int {
    if x % 0x10000000000000000 > i64::MAX as int {
        x % 0x10000000000000000 - 0x10000000000000000
    } else {
        x % 0x10000000000000000
    }
}

proof fn lemma_wrap64_id(x: int)
    requires
        i64::MIN <= x <= i64::MAX,
    ensures
        wrap64(x) == x,
{
    if x >= 0 {
        lemma_small_mod(x as nat, 0x10000000000000000nat);
    } else {
        lemma_mod_add_multiples_vanish(x, 0x10000000000000000);
        lemma_small_mod((x + 0x10000000000000000) as nat, 0x10000000000000000nat);
    }
}

proof fn lemma_wrap64_range(x: int)
    requires
        -0x10000000000000000 <= x < 0x10000000000000000,
    ensures
        wrap64(x) == if x > i64::MAX {
            x - 0x10000000000000000
        } else if x < i64::MIN {
            x + 0x10000000000000000
        } else {
            x
        },
{
    if i64::MIN <= x <= i64::MAX {
        lemma_wrap64_id(x);
    } else if x > i64::MAX {
        lemma_small_mod(x as nat, 0x10000000000000000nat);
    } else {
        lemma_mod_add_multiples_vanish(x, 0x10000000000000000);
        lemma_small_mod((x + 0x10000000000000000) as nat, 0x10000000000000000nat);
    }
}

proof fn lemma_ints_of_len(args: Seq<MalType>)
    ensures
        ints_of(views_of(args)).len() == args.len(),
        forall|j: int|
            0 <= j < args.len() ==> #[trigger] ints_of(views_of(args))[j] == int_of(
                views_of(args)[j],
            ),
{
    lemma_views_of(args);
}

proof fn lemma_wrapping_add(a: i64, b: i64)
    ensures
        a.wrapping_add(b) as int == wrap64(a as int + b as int),
{
    lemma_wrap64_range(a as int + b as int);
}

proof fn lemma_wrapping_sub(a: i64, b: i64)
    ensures
        a.wrapping_sub(b) as int == wrap64(a as int - b as int),
{
    lemma_wrap64_range(a as int - b as int);
}

/// The running left-to-right sum, wrapped at each step.
pub open spec fn sum_wrapped(ns: Seq<int>) -> int
    decreases ns.len(),
{
    if ns.len() == 0 {
        0
    } else {
        wrap64(sum_wrapped(ns.drop_last()) + ns.last())
    }
}

/// The running left-to-right product, wrapped at each step.
pub open spec fn prod_wrapped(ns: Seq<int>) -> int
    decreases ns.len(),
{
    if ns.len() == 0 {
        1
    } else {
        wrap64(prod_wrapped(ns.drop_last()) * ns.last())
    }
}

/// Division truncated toward zero, as fixed-width machines divide.
pub open spec fn trunc_div(x: int, d: int) -> int
    recommends
        d != 0,
{
    if x == 0 {
        0
    } else if x > 0 && d > 0 {
        x / d
    } else if x < 0 && d < 0 {
        (x * -1) / (d * -1)
    } else if x < 0 {
        ((x * -1) / d) * -1
    } else {
        (x / (d * -1)) * -1
    }
}

/// Folds truncating division over the rest of the arguments; division by
/// zero stops the fold.
pub open spec fn div_fold(acc: int, rest: Seq<int>) -> Result<int, ()>
    decreases rest.len(),
{
    if rest.len() == 0 {
        Ok(acc)
    } else if rest[0] == 0 {
        Err(())
    } else {
        div_fold(wrap64(trunc_div(acc, rest[0])), rest.drop_first())
    }
}

/// What `+` returns: the empty sum is zero.
pub open spec fn spec_plus(ns: Seq<int>) -> int {
    sum_wrapped(ns)
}

/// What `-` returns: nothing to subtract gives zero, one argument is
/// negated, otherwise the first argument minus the sum of the rest.
pub open spec fn spec_minus(ns: Seq<int>) -> int {
    if ns.len() == 0 {
        0
    } else if ns.len() == 1 {
        wrap64(-ns[0])
    } else {
        wrap64(ns[0] - sum_wrapped(ns.drop_first()))
    }
}

/// What `*` returns: the empty product is one.
pub open spec fn spec_multiply(ns: Seq<int>) -> int {
    prod_wrapped(ns)
}

/// The message for an argument that is not a number.
pub open spec fn msg_not_a_number(v: SpecValue) -> Seq<char> {
    seq!['`'] + render_value(v) + "` is not a number"@
}

/// The message for `/` called with no argument.
pub open spec fn msg_div_arity() -> Seq<char> {
    "/ requires at least 1 arg"@
}

/// The message for a division by zero.
pub open spec fn msg_div_zero() -> Seq<char> {
    "division by zero"@
}

/// What `/` returns: no argument is an arity error, one argument divides
/// one by it, more arguments fold division from the first; a zero divisor
/// anywhere is an error.
pub open spec fn spec_divide(ns: Seq<int>) -> Result<int, Seq<char>> {
    if ns.len() == 0 {
        Err(msg_div_arity())
    } else if ns.len() == 1 {
        if ns[0] == 0 {
            Err(msg_div_zero())
        } else {
            Ok(wrap64(trunc_div(1, ns[0])))
        }
    } else {
        match div_fold(ns[0], ns.drop_first()) {
            Ok(n) => Ok(n),
            Err(e) => Err(msg_div_zero()),
        }
    }
}

/// What a built-in returns on the given arguments: a type error names the
/// first argument that is not a number, otherwise the operation's result.
pub open spec fn builtin_result(op: Builtin, args: Seq<SpecValue>) -> Result<
    SpecValue,
    SpecError,
> {
    if !all_ints(args) {
        Err(SpecError::Normal(msg_not_a_number(args[first_non_int(args)])))
    } else {
        let ns = ints_of(args);
        match op {
            Builtin::Plus => Ok(int_value(spec_plus(ns))),
            Builtin::Minus => Ok(int_value(spec_minus(ns))),
            Builtin::Multiply => Ok(int_value(spec_multiply(ns))),
            Builtin::Divide => match spec_divide(ns) {
                Ok(n) => Ok(int_value(n)),
                Err(m) => Err(SpecError::Normal(m)),
            },
        }
    }
}

/// Builds the `Normal` error naming a value that is not a number.
fn not_a_number_error(arg: &MalType) -> (r: MalError)
    ensures
        r@ == SpecError::Normal(msg_not_a_number(arg@)),
{
    let mut out: Vec<char> = Vec::new();
    out.push('`');
    push_value_chars(arg, &mut out);
    push_chars_of_str("` is not a number", &mut out);
    proof {
        assert(out@ =~= msg_not_a_number(arg@));
    }
    MalError::Normal(chars_to_string(&out))
}

/// Checks that every argument is an integer atom and extracts the
/// integers; the first argument of any other shape is named in the error.
fn parse_numbers(args: &Vec<MalType>) -> (r: Result<Vec<i64>, MalError>)
    ensures
        match r {
            Ok(ns) => {
                &&& all_ints(views_of(args@))
                &&& ns@.len() == args@.len()
                &&& forall|j: int|
                    0 <= j < args@.len() ==> ns@[j] as int == int_of(#[trigger] views_of(args@)[j])
            },
            Err(e) => {
                &&& !all_ints(views_of(args@))
                &&& e@ == SpecError::Normal(
                    msg_not_a_number(views_of(args@)[first_non_int(views_of(args@))]),
                )
            },
        },
{
    proof {
        lemma_views_of(args@);
    }
    let ghost vs = views_of(args@);
    let mut out: Vec<i64> = Vec::new();
    let mut i: usize = 0;
    while i < args.len()
        invariant
            i <= args.len(),
            vs == views_of(args@),
            vs.len() == args@.len(),
            forall|j: int| 0 <= j < args@.len() ==> vs[j] == args@[j]@,
            out@.len() == i,
            forall|j: int| 0 <= j < i ==> is_int(#[trigger] vs[j]),
            forall|j: int| 0 <= j < i ==> out@[j] as int == int_of(#[trigger] vs[j]),
        decreases args.len() - i,
    {
        match &args[i] {
            MalType::Atom(MalAtom::Integer(num)) => {
                out.push(*num);
            },
            _ => {
                proof {
                    lemma_first_non_int(vs, i as int);
                }
                return Err(not_a_number_error(&args[i]));
            },
        }
        i = i + 1;
    }
    Ok(out)
}

/// `sum_wrapped` over a prefix one element longer wraps in that element.
proof fn lemma_sum_step(s: Seq<int>, i: int)
    requires
        0 <= i < s.len(),
    ensures
        sum_wrapped(s.subrange(0, i + 1)) == wrap64(sum_wrapped(s.subrange(0, i)) + s[i]),
{
    let t = s.subrange(0, i + 1);
    assert(t.last() == s[i]);
    assert(t.drop_last() =~= s.subrange(0, i));
}

/// `prod_wrapped` over a prefix one element longer wraps in that element.
proof fn lemma_prod_step(s: Seq<int>, i: int)
    requires
        0 <= i < s.len(),
    ensures
        prod_wrapped(s.subrange(0, i + 1)) == wrap64(prod_wrapped(s.subrange(0, i)) * s[i]),
{
    let t = s.subrange(0, i + 1);
    assert(t.last() == s[i]);
    assert(t.drop_last() =~= s.subrange(0, i));
}

/// Sums the parsed integers with wrapping, left to right.
fn sum_all(ns: &Vec<i64>, Ghost(model): Ghost<Seq<int>>) -> (r: i64)
    requires
        model.len() == ns@.len(),
        forall|j: int| 0 <= j < ns@.len() ==> ns@[j] as int == model[j],
    ensures
        r as int == sum_wrapped(model),
{
    let mut acc: i64 = 0;
    let mut i: usize = 0;
    proof {
        assert(model.subrange(0, 0) =~= Seq::<int>::empty());
    }
    while i < ns.len()
        invariant
            i <= ns.len(),
            model.len() == ns@.len(),
            forall|j: int| 0 <= j < ns@.len() ==> ns@[j] as int == model[j],
            acc as int == sum_wrapped(model.subrange(0, i as int)),
        decreases ns.len() - i,
    {
        proof {
            lemma_sum_step(model, i as int);
            lemma_wrapping_add(acc, ns@[i as int]);
        }
        acc = acc.wrapping_add(ns[i]);
        i = i + 1;
    }
    proof {
        assert(model.subrange(0, model.len() as int) =~= model);
    }
    acc
}

fn plus(args: Vec<MalType>) -> (r: Result<MalType, MalError>)
    ensures
        result_matches(r, builtin_result(Builtin::Plus, views_of(args@))),
{
    let parsed = match parse_numbers(&args) {
        Ok(ns) => ns,
        Err(e) => {
            return Err(e);
        },
    };
    proof {
        lemma_views_of(args@);
        lemma_ints_of_len(args@);
    }
    let ghost model = ints_of(views_of(args@));
    let total = sum_all(&parsed, Ghost(model));
    Ok(MalType::Atom(MalAtom::Integer(total)))
}

fn minus(args: Vec<MalType>) -> (r: Result<MalType, MalError>)
    ensures
        result_matches(r, builtin_result(Builtin::Minus, views_of(args@))),
{
    let parsed = match parse_numbers(&args) {
        Ok(ns) => ns,
        Err(e) => {
            return Err(e);
        },
    };
    proof {
        lemma_views_of(args@);
        lemma_ints_of_len(args@);
    }
    let ghost model = ints_of(views_of(args@));
    if parsed.len() == 0 {
        Ok(MalType::Atom(MalAtom::Integer(0)))
    } else if parsed.len() == 1 {
        proof {
            lemma_wrapping_sub(0i64, parsed@[0]);
        }
        let n = 0i64.wrapping_sub(parsed[0]);
        Ok(MalType::Atom(MalAtom::Integer(n)))
    } else {
        let base = parsed[0];
        let mut rest: Vec<i64> = Vec::new();
        let mut i: usize = 1;
        while i < parsed.len()
            invariant
                1 <= i <= parsed@.len(),
                rest@.len() == i - 1,
                forall|j: int| 0 <= j < i - 1 ==> rest@[j] == parsed@[j + 1],
            decreases parsed.len() - i,
        {
            rest.push(parsed[i]);
            i = i + 1;
        }
        let total = sum_all(&rest, Ghost(model.drop_first()));
        proof {
            lemma_wrapping_sub(base, total);
        }
        let n = base.wrapping_sub(total);
        Ok(MalType::Atom(MalAtom::Integer(n)))
    }
}

fn multiply(args: Vec<MalType>) -> (r: Result<MalType, MalError>)
    ensures
        result_matches(r, builtin_result(Builtin::Multiply, views_of(args@))),
{
    let parsed = match parse_numbers(&args) {
        Ok(ns) => ns,
        Err(e) => {
            return Err(e);
        },
    };
    proof {
        lemma_views_of(args@);
        lemma_ints_of_len(args@);
    }
    let ghost model = ints_of(views_of(args@));
    let mut acc: i64 = 1;
    let mut i: usize = 0;
    proof {
        assert(model.subrange(0, 0) =~= Seq::<int>::empty());
    }
    while i < parsed.len()
        invariant
            i <= parsed.len(),
            model.len() == parsed@.len(),
            forall|j: int| 0 <= j < parsed@.len() ==> parsed@[j] as int == model[j],
            acc as int == prod_wrapped(model.subrange(0, i as int)),
        decreases parsed.len() - i,
    {
        proof {
            lemma_prod_step(model, i as int);
            assert(acc.wrapping_mul(parsed@[i as int]) as int == wrap64(
                acc as int * parsed@[i as int] as int,
            ));
        }
        acc = acc.wrapping_mul(parsed[i]);
        i = i + 1;
    }
    proof {
        assert(model.subrange(0, model.len() as int) =~= model);
    }
    Ok(MalType::Atom(MalAtom::Integer(acc)))
}

/// One step of truncating division on machine integers.
fn div_exec(a: i64, b: i64) -> (q: i64)
    requires
        b != 0,
    ensures
        q as int == wrap64(trunc_div(a as int, b as int)),
{
    if a == i64::MIN && b == -1 {
        proof {
            assert(((a as int) * -1) / ((b as int) * -1) == 0x8000000000000000int / 1);
            assert(0x8000000000000000int / 1 == 0x8000000000000000);
            lemma_small_mod(0x8000000000000000nat, 0x10000000000000000nat);
        }
        i64::MIN
    } else {
        proof {
            let x = a as int;
            let d = b as int;
            if x != 0 {
                if x > 0 && d > 0 {
                    lemma_div_pos_is_pos(x, d);
                    lemma_div_nonincreasing(x, d);
                } else if x < 0 && d < 0 {
                    lemma_div_pos_is_pos(x * -1, d * -1);
                    if d == -1 {
                        assert(x != i64::MIN as int);
                        lemma_div_nonincreasing(x * -1, 1);
                    } else {
                        lemma_div_is_ordered_by_denominator(x * -1, 2, d * -1);
                        assert((x * -1) / 2 <= 0x4000000000000000) by {
                            lemma_div_nonincreasing(x * -1, 2);
                            assert(x * -1 <= 0x8000000000000000);
                            assert((x * -1) / 2 == (x * -1) / 2);
                            lemma_div_is_ordered(x * -1, 0x8000000000000000, 2);
                            assert(0x8000000000000000int / 2 == 0x4000000000000000);
                        }
                    }
                } else if x < 0 {
                    lemma_div_pos_is_pos(x * -1, d);
                    lemma_div_nonincreasing(x * -1, d);
                } else {
                    lemma_div_pos_is_pos(x, d * -1);
                    lemma_div_nonincreasing(x, d * -1);
                }
            }
            assert(i64::MIN <= trunc_div(a as int, b as int) <= i64::MAX);
            lemma_wrap64_id(trunc_div(a as int, b as int));
        }
        let q = match a.checked_div(b) {
            Some(q) => q,
            None => {
                proof {
                    assert(false);
                }
                0
            },
        };
        q
    }
}

fn divide(args: Vec<MalType>) -> (r: Result<MalType, MalError>)
    ensures
        result_matches(r, builtin_result(Builtin::Divide, views_of(args@))),
{
    let parsed = match parse_numbers(&args) {
        Ok(ns) => ns,
        Err(e) => {
            return Err(e);
        },
    };
    proof {
        lemma_views_of(args@);
        lemma_ints_of_len(args@);
    }
    let ghost model = ints_of(views_of(args@));
    if parsed.len() == 0 {
        Err(MalError::Normal(String::from_str("/ requires at least 1 arg")))
    } else if parsed.len() == 1 {
        if parsed[0] == 0 {
            Err(MalError::Normal(String::from_str("division by zero")))
        } else {
            let n = div_exec(1, parsed[0]);
            Ok(MalType::Atom(MalAtom::Integer(n)))
        }
    } else {
        let mut acc: i64 = parsed[0];
        let mut i: usize = 1;
        let ghost rest = model.drop_first();
        proof {
            assert(rest.subrange(0, rest.len() as int) =~= rest);
        }
        while i < parsed.len()
            invariant
                1 <= i <= parsed@.len(),
                all_ints(views_of(args@)),
                model == ints_of(views_of(args@)),
                model.len() == parsed@.len(),
                2 <= model.len(),
                rest == model.drop_first(),
                forall|j: int| 0 <= j < parsed@.len() ==> parsed@[j] as int == model[j],
                div_fold(model[0], rest) == div_fold(
                    acc as int,
                    rest.subrange(i as int - 1, rest.len() as int),
                ),
            decreases parsed.len() - i,
        {
            let ghost suffix = rest.subrange(i as int - 1, rest.len() as int);
            proof {
                assert(suffix[0] == model[i as int]);
                assert(suffix.drop_first() =~= rest.subrange(i as int, rest.len() as int));
            }
            if parsed[i] == 0 {
                proof {
                    assert(suffix[0] == 0);
                    assert(div_fold(acc as int, suffix) == Err::<int, ()>(()));
                    assert(spec_divide(model) == Err::<int, Seq<char>>(msg_div_zero()));
                    assert(builtin_result(Builtin::Divide, views_of(args@)) == Err::<
                        SpecValue,
                        SpecError,
                    >(SpecError::Normal(msg_div_zero())));
                }
                let err = MalError::Normal(String::from_str("division by zero"));
                proof {
                    assert(err@ == SpecError::Normal(msg_div_zero()));
                }
                return Err(err);
            }
            acc = div_exec(acc, parsed[i]);
            i = i + 1;
        }
        proof {
            assert(rest.subrange(rest.len() as int, rest.len() as int) =~= Seq::<int>::empty());
        }
        Ok(MalType::Atom(MalAtom::Integer(acc)))
    }
}

impl MalFunction {
    /// Runs the built-in behind this function value on the given arguments.
    pub fn invoke(&self, args: Vec<MalType>) -> (r: Result<MalType, MalError>)
        ensures
            result_matches(r, builtin_result(self.op, views_of(args@))),
    {
        match self.op {
            Builtin::Plus => plus(args),
            Builtin::Minus => minus(args),
            Builtin::Multiply => multiply(args),
            Builtin::Divide => divide(args),
        }
    }
}

/// The `+` built-in as a function value.
pub fn plus_fn() -> (r: MalFunction)
    ensures
        r.name@ == "+"@,
        r.op == Builtin::Plus,
{
    MalFunction::new(Symbol::new("+"), Builtin::Plus)
}

/// The `-` built-in as a function value.
pub fn minus_fn() -> (r: MalFunction)
    ensures
        r.name@ == "-"@,
        r.op == Builtin::Minus,
{
    MalFunction::new(Symbol::new("-"), Builtin::Minus)
}

/// The `*` built-in as a function value.
pub fn multiply_fn() -> (r: MalFunction)
    ensures
        r.name@ == "*"@,
        r.op == Builtin::Multiply,
{
    MalFunction::new(Symbol::new("*"), Builtin::Multiply)
}

/// The `/` built-in as a function value.
pub fn divide_fn() -> (r: MalFunction)
    ensures
        r.name@ == "/"@,
        r.op == Builtin::Divide,
{
    MalFunction::new(Symbol::new("/"), Builtin::Divide)
}

} // verus!
