use mal::env::Env;
use mal::eval::eval_form;
use mal::printer::pr_str;
use mal::reader::read_str;
use mal::repl::rep;
use mal::types::{MalAtom, MalError, MalType};

fn run(inp: &str, env: &mut Env) -> Result<String, MalError> {
    rep(inp, env)
}

fn run_one(inp: &str) -> Result<String, MalError> {
    let mut env = Env::repl();
    rep(inp, &mut env)
}

#[test]
fn addition() {
    assert_eq!(run_one("(+ 1 2)").unwrap(), "3");
}

#[test]
fn empty_addition() {
    assert_eq!(run_one("(+)").unwrap(), "0");
}

#[test]
fn empty_multiplication() {
    assert_eq!(run_one("(* )").unwrap(), "1");
}

#[test]
fn single_argument_addition() {
    assert_eq!(run_one("(+ 7)").unwrap(), "7");
}

#[test]
fn negation() {
    assert_eq!(run_one("(- 5)").unwrap(), "-5");
}

#[test]
fn empty_subtraction() {
    assert_eq!(run_one("(-)").unwrap(), "0");
}

#[test]
fn reciprocal_division_truncates() {
    assert_eq!(run_one("(/ 2)").unwrap(), "0");
}

#[test]
fn division_folds_left() {
    assert_eq!(run_one("(/ 100 5 2)").unwrap(), "10");
}

#[test]
fn subtraction_chain() {
    assert_eq!(run_one("(- 10 1 2)").unwrap(), "7");
}

#[test]
fn nested_arithmetic() {
    assert_eq!(run_one("(* 2 (+ 3 4))").unwrap(), "14");
}

#[test]
fn def_binds_in_current_environment() {
    let mut env = Env::repl();
    assert_eq!(run("(def! x 5)", &mut env).unwrap(), "5");
    assert_eq!(run("x", &mut env).unwrap(), "5");
}

#[test]
fn def_and_use_in_one_line() {
    assert_eq!(run_one("(def! x 5) x").unwrap(), "5\n5");
}

#[test]
fn let_star_binds_sequentially() {
    assert_eq!(run_one("(let* ((x 2) (y (+ x 1))) (* x y))").unwrap(), "6");
}

#[test]
fn let_star_bindings_do_not_escape() {
    let mut env = Env::repl();
    assert_eq!(run("(let* ((x 2) (y (+ x 1))) (* x y))", &mut env).unwrap(), "6");
    match run("x", &mut env) {
        Err(MalError::Resolve(name)) => assert_eq!(name, "x"),
        other => panic!("expected a resolve failure, got {:?}", other),
    }
    match run("y", &mut env) {
        Err(MalError::Resolve(name)) => assert_eq!(name, "y"),
        other => panic!("expected a resolve failure, got {:?}", other),
    }
}

#[test]
fn let_star_bindings_do_not_escape_on_error() {
    let mut env = Env::repl();
    assert!(run("(let* ((x 2)) (nosuch))", &mut env).is_err());
    match run("x", &mut env) {
        Err(MalError::Resolve(name)) => assert_eq!(name, "x"),
        other => panic!("expected a resolve failure, got {:?}", other),
    }
}

#[test]
fn let_star_vector_bindings() {
    assert_eq!(run_one("(let* [[x 3] [y 4]] (+ x y))").unwrap(), "7");
}

#[test]
fn let_star_empty_body_error() {
    match run_one("(let* ((x 2)))") {
        Err(MalError::Normal(msg)) => assert!(msg.contains("let*")),
        other => panic!("expected an arity failure, got {:?}", other),
    }
}

#[test]
fn unbalanced_open_is_flagged_as_eof() {
    match read_str("(1 2") {
        Err(MalError::Parsing(msg)) => assert!(msg.contains("EOF"), "message: {}", msg),
        other => panic!("expected a parsing failure, got {:?}", other),
    }
}

#[test]
fn unbalanced_close_is_not_flagged_as_eof() {
    match read_str("(1 2))") {
        Err(MalError::Parsing(msg)) => assert!(!msg.contains("EOF"), "message: {}", msg),
        other => panic!("expected a parsing failure, got {:?}", other),
    }
}

#[test]
fn unterminated_string_is_flagged_as_eof() {
    match read_str("\"abc") {
        Err(MalError::Parsing(msg)) => assert!(msg.contains("EOF"), "message: {}", msg),
        other => panic!("expected a parsing failure, got {:?}", other),
    }
}

#[test]
fn applying_a_non_function_names_the_value() {
    match run_one("(1 2 3)") {
        Err(MalError::Normal(msg)) => {
            assert!(msg.contains("1"), "message: {}", msg);
            assert!(msg.contains("is not a function"), "message: {}", msg);
        },
        other => panic!("expected a normal failure, got {:?}", other),
    }
}

#[test]
fn unbound_symbol_names_the_symbol() {
    match run_one("nosuch") {
        Err(MalError::Resolve(name)) => assert_eq!(name, "nosuch"),
        other => panic!("expected a resolve failure, got {:?}", other),
    }
}

#[test]
fn resolve_error_display() {
    let err = run_one("nosuch").unwrap_err();
    assert_eq!(err.message(), "Symbol `nosuch` does not exist");
}

#[test]
fn parsing_error_display_mentions_parsing() {
    let err = run_one("(1 2").unwrap_err();
    assert!(err.message().starts_with("Parsing error"));
}

#[test]
fn non_number_argument_is_a_type_error() {
    match run_one("(+ 1 :k)") {
        Err(MalError::Normal(msg)) => assert!(msg.contains("is not a number"), "message: {}", msg),
        other => panic!("expected a normal failure, got {:?}", other),
    }
}

#[test]
fn division_requires_an_argument() {
    match run_one("(/)") {
        Err(MalError::Normal(msg)) => assert_eq!(msg, "/ requires at least 1 arg"),
        other => panic!("expected a normal failure, got {:?}", other),
    }
}

#[test]
fn division_by_zero_is_an_error() {
    match run_one("(/ 1 0)") {
        Err(MalError::Normal(msg)) => assert_eq!(msg, "division by zero"),
        other => panic!("expected a normal failure, got {:?}", other),
    }
}

#[test]
fn def_wrong_arity_is_an_error() {
    match run_one("(def! x)") {
        Err(MalError::Normal(msg)) => {
            assert!(msg.contains("def!"), "message: {}", msg);
            assert!(msg.contains("1"), "message: {}", msg);
        },
        other => panic!("expected a normal failure, got {:?}", other),
    }
}

#[test]
fn def_non_symbol_is_an_error() {
    match run_one("(def! 5 6)") {
        Err(MalError::Normal(msg)) => assert!(msg.contains("symbol"), "message: {}", msg),
        other => panic!("expected a normal failure, got {:?}", other),
    }
}

#[test]
fn let_star_needs_pairs() {
    match run_one("(let* (x) 1)") {
        Err(MalError::Normal(msg)) => assert_eq!(msg, "let* needs tuples"),
        other => panic!("expected a normal failure, got {:?}", other),
    }
}

#[test]
fn let_star_pair_needs_two_parts() {
    match run_one("(let* ((x)) 1)") {
        Err(MalError::Normal(msg)) => assert_eq!(msg, "let* binding needs 2 parts"),
        other => panic!("expected a normal failure, got {:?}", other),
    }
}

#[test]
fn let_star_binding_needs_a_symbol() {
    match run_one("(let* ((5 2)) 1)") {
        Err(MalError::Normal(msg)) => assert!(msg.contains("symbol"), "message: {}", msg),
        other => panic!("expected a normal failure, got {:?}", other),
    }
}

#[test]
fn integer_literal_renders_canonically() {
    assert_eq!(run_one("007").unwrap(), "7");
    assert_eq!(run_one("-42").unwrap(), "-42");
    assert_eq!(run_one("0").unwrap(), "0");
}

#[test]
fn smallest_integer_parses() {
    assert_eq!(run_one("-9223372036854775808").unwrap(), "-9223372036854775808");
}

#[test]
fn out_of_range_integer_is_a_parsing_error() {
    match read_str("99999999999999999999") {
        Err(MalError::Parsing(msg)) => assert!(msg.contains("out of range"), "message: {}", msg),
        other => panic!("expected a parsing failure, got {:?}", other),
    }
}

#[test]
fn arithmetic_wraps_at_the_fixed_width() {
    assert_eq!(run_one("(+ 9223372036854775807 1)").unwrap(), "-9223372036854775808");
    assert_eq!(run_one("(- -9223372036854775808 1)").unwrap(), "9223372036854775807");
}

#[test]
fn empty_list_is_self_evaluating() {
    assert_eq!(run_one("()").unwrap(), "()");
}

#[test]
fn vector_elements_are_evaluated() {
    assert_eq!(run_one("[1 (+ 1 2)]").unwrap(), "[1 3]");
}

#[test]
fn vector_head_is_never_applied() {
    assert_eq!(run_one("[+ 1 2]").unwrap(), "[[function +] 1 2]");
}

#[test]
fn map_values_are_evaluated() {
    assert_eq!(run_one("{:a (+ 1 2)}").unwrap(), "{:a 3}");
}

#[test]
fn map_last_write_wins() {
    assert_eq!(run_one("{:a 1 :a 2}").unwrap(), "{:a 2}");
}

#[test]
fn map_trailing_key_is_dropped() {
    assert_eq!(run_one("{:a 1 :b}").unwrap(), "{:a 1}");
}

#[test]
fn map_compound_key_is_a_parsing_error() {
    assert!(matches!(read_str("{(1) 2}"), Err(MalError::Parsing(_))));
}

#[test]
fn comments_are_skipped() {
    assert_eq!(run_one("; a comment\n(+ 1 2) ; trailing").unwrap(), "3");
}

#[test]
fn multiple_top_level_forms_in_order() {
    assert_eq!(run_one("1 2 (+ 1 2)").unwrap(), "1\n2\n3");
}

#[test]
fn booleans_and_nil_are_literals() {
    assert_eq!(run_one("true false nil").unwrap(), "true\nfalse\nnil");
}

#[test]
fn keywords_are_self_evaluating() {
    assert_eq!(run_one(":kw").unwrap(), ":kw");
}

#[test]
fn strings_keep_their_quotes() {
    assert_eq!(run_one("\"abc\"").unwrap(), "\"abc\"");
    assert_eq!(run_one("\"a b \\\" c\"").unwrap(), "\"a b \\\" c\"");
}

#[test]
fn minus_alone_is_a_symbol() {
    assert_eq!(run_one("(- 10 3)").unwrap(), "7");
    assert!(matches!(run_one("-"), Ok(s) if s == "[function -]"));
}

#[test]
fn read_render_round_trip_on_a_tree() {
    let v = MalType::List(vec![
        MalType::Atom(MalAtom::Integer(1)),
        MalType::Vector(vec![
            MalType::Atom(MalAtom::Boolean(true)),
            MalType::Atom(MalAtom::Nil),
            MalType::Atom(MalAtom::Symbol(mal::symbol::Symbol::new("abc"))),
        ]),
        MalType::Atom(MalAtom::Str(String::from("\"x y\""))),
        MalType::List(vec![]),
    ]);
    let text = pr_str(&v);
    assert_eq!(text, "(1 [true nil abc] \"x y\" ())");
    let back = read_str(&text).unwrap();
    assert_eq!(back.len(), 1);
    assert_eq!(pr_str(&back[0]), text);
}

#[test]
fn evaluation_is_left_to_right_and_fail_fast() {
    let mut env = Env::repl();
    let r = run("((+ 1 2) nosuch (def! z 9))", &mut env);
    assert!(matches!(r, Err(MalError::Resolve(_))));
    // the failing element stopped evaluation before `z` was bound
    assert!(matches!(run("z", &mut env), Err(MalError::Resolve(_))));
}

#[test]
fn eval_form_resolves_symbols() {
    let mut env = Env::repl();
    let mut forms = read_str("+").unwrap();
    let form = forms.remove(0);
    match eval_form(form, &mut env) {
        Ok(v) => assert_eq!(pr_str(&v), "[function +]"),
        Err(e) => panic!("unexpected failure: {:?}", e),
    }
}

#[test]
fn nested_let_star_shadows_and_restores() {
    let mut env = Env::repl();
    assert_eq!(run("(def! a 1)", &mut env).unwrap(), "1");
    assert_eq!(run("(let* ((a 2)) (let* ((a 3)) a))", &mut env).unwrap(), "3");
    assert_eq!(run("a", &mut env).unwrap(), "1");
}

#[test]
fn def_inside_let_star_stays_local() {
    let mut env = Env::repl();
    assert_eq!(run("(let* ((x 1)) (def! local 5) local)", &mut env).unwrap(), "5");
    assert!(matches!(run("local", &mut env), Err(MalError::Resolve(_))));
}

#[test]
fn whitespace_and_commas_separate_tokens() {
    assert_eq!(run_one("(+ 1,\n\t2)").unwrap(), "3");
}

#[test]
fn empty_input_reads_as_nothing() {
    assert_eq!(run_one("").unwrap(), "");
    assert_eq!(read_str("").unwrap().len(), 0);
}

#[test]
fn comment_only_input_reads_as_nothing() {
    assert_eq!(run_one("; nothing here").unwrap(), "");
}

#[test]
fn non_ascii_symbols_keep_their_name() {
    match run_one("héllo") {
        Err(MalError::Resolve(name)) => assert_eq!(name, "héllo"),
        other => panic!("expected a resolve failure, got {:?}", other),
    }
}

#[test]
fn evaluate_program_reports_each_form() {
    let mut env = Env::repl();
    let out = mal::repl::evaluate_program("(+ 1 2) nosuch (def! x 9) x", &mut env);
    assert_eq!(out.len(), 4);
    assert_eq!(out[0], Ok(String::from("3")));
    assert!(matches!(&out[1], Err(msg) if msg.contains("nosuch")));
    assert_eq!(out[2], Ok(String::from("9")));
    assert_eq!(out[3], Ok(String::from("9")));
}

#[test]
fn evaluate_program_reports_a_reader_failure_once() {
    let mut env = Env::repl();
    let out = mal::repl::evaluate_program("(1 2", &mut env);
    assert_eq!(out.len(), 1);
    assert!(matches!(&out[0], Err(msg) if msg.contains("EOF")));
}

#[test]
fn structural_equality_is_deep() {
    let a = read_str("(1 [2 3] \"s\")").unwrap().remove(0);
    let b = read_str("(1 [2 3] \"s\")").unwrap().remove(0);
    assert!(a == b);
    let c = read_str("(1 [2 4] \"s\")").unwrap().remove(0);
    assert!(a != c);
}

#[test]
fn map_equality_ignores_entry_order() {
    let a = read_str("{:a 1 :b 2}").unwrap().remove(0);
    let b = read_str("{:b 2 :a 1}").unwrap().remove(0);
    assert!(a == b);
    let c = read_str("{:a 1 :b 3}").unwrap().remove(0);
    assert!(a != c);
}

#[test]
fn function_values_never_compare_equal() {
    let mut env = Env::repl();
    let f1 = eval_form(read_str("+").unwrap().remove(0), &mut env).unwrap();
    let f2 = eval_form(read_str("+").unwrap().remove(0), &mut env).unwrap();
    assert!(f1 != f2);
}

#[test]
fn let_star_body_fails_fast() {
    match run_one("(let* ((x 1)) nosuch 5)") {
        Err(MalError::Resolve(name)) => assert_eq!(name, "nosuch"),
        other => panic!("expected a resolve failure, got {:?}", other),
    }
}

#[test]
fn let_star_body_error_stops_later_forms() {
    let mut env = Env::repl();
    assert!(matches!(
        run("(let* ((x 1)) x nosuch (def! leaked 9))", &mut env),
        Err(MalError::Resolve(_))
    ));
    // the failing form stopped the body before `leaked` was bound, and
    // the let* frame was still closed
    assert!(matches!(run("leaked", &mut env), Err(MalError::Resolve(_))));
    assert!(matches!(run("x", &mut env), Err(MalError::Resolve(_))));
    assert_eq!(run("(+ 1 1)", &mut env).unwrap(), "2");
}

#[test]
fn let_star_body_runs_in_order_when_no_form_fails() {
    assert_eq!(run_one("(let* ((x 1)) (def! y 2) (+ x y))").unwrap(), "3");
}
