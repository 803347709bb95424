//! Tests of the transcoder: renaming, decimal rendering, the scope stack,
//! whole-program scenarios, and the error cases.

use bl602_script::ast::{Call, Constant, Expr, Stmt, TranscodeError};
use bl602_script::numfmt::{i64_to_dec, u64_to_dec};
use bl602_script::scope::ScopeStack;
use bl602_script::transcode::{
    get_range, rename_function, transcode, transcode_expr, transcode_fncall, transcode_in,
};

fn call(namespace: Option<&str>, name: &str, args: Vec<Expr>, constants: Vec<Constant>) -> Call {
    Call {
        namespace: namespace.map(|s| s.to_string()),
        name: name.to_string(),
        args,
        constants,
    }
}

#[test]
fn rename_percent_to_mod() {
    assert_eq!(rename_function("%"), "mod");
}

#[test]
fn rename_eq_operator() {
    assert_eq!(rename_function("=="), "eq");
}

#[test]
fn rename_other_names_unchanged() {
    assert_eq!(rename_function("print"), "print");
    assert_eq!(rename_function("+"), "+");
    assert_eq!(rename_function(""), "");
}

#[test]
fn decimal_rendering() {
    assert_eq!(u64_to_dec(0), "0");
    assert_eq!(u64_to_dec(7), "7");
    assert_eq!(u64_to_dec(1000), "1000");
    assert_eq!(u64_to_dec(u64::MAX), "18446744073709551615");
    assert_eq!(i64_to_dec(42), "42");
    assert_eq!(i64_to_dec(-42), "-42");
    assert_eq!(i64_to_dec(i64::MIN), "-9223372036854775808");
}

#[test]
fn scope_stack_begin_add_end() {
    let mut stack = ScopeStack::new();
    let root = stack.begin_scope("let* ()");
    assert_eq!(root, 0);
    stack.add_to_scope("( bl_gpio_enable_output LED_GPIO 0 0 )");
    let inner = stack.begin_scope("dotimes (i 10)");
    assert_eq!(inner, 1);
    stack.add_to_scope("( bl_gpio_output_set LED_GPIO ( mod i 2 ) )");
    stack.add_to_scope("( time_delay 1000 )");
    let loop_text = stack.end_scope(inner);
    assert_eq!(
        loop_text,
        "( dotimes (i 10) \n  ( bl_gpio_output_set LED_GPIO ( mod i 2 ) )\n  ( time_delay 1000 )\n)"
    );
    stack.add_to_scope(&loop_text);
    let out = stack.end_scope(root);
    assert_eq!(
        out,
        "( let* () \n  ( bl_gpio_enable_output LED_GPIO 0 0 )\n  ( dotimes (i 10) \n  ( bl_gpio_output_set LED_GPIO ( mod i 2 ) )\n  ( time_delay 1000 )\n)\n)"
    );
    assert_eq!(stack.depth(), 0);
}

#[test]
fn add_to_scope_empty_is_no_op() {
    let mut stack = ScopeStack::new();
    let root = stack.begin_scope("let* ()");
    stack.add_to_scope("");
    assert_eq!(stack.end_scope(root), "( let* () \n)");
}

#[test]
fn end_scope_closes_nested_scopes_in_lifo_order() {
    let mut stack = ScopeStack::new();
    let root = stack.begin_scope("let* ()");
    stack.begin_scope("let* (( a 40 ))");
    stack.begin_scope("let* (( b 2 ))");
    stack.add_to_scope("( + a b )");
    let out = stack.end_scope(root);
    assert_eq!(
        out,
        "( let* () \n  ( let* (( a 40 )) \n  ( let* (( b 2 )) \n  ( + a b )\n)\n)\n)"
    );
    assert_eq!(stack.depth(), 0);
}

#[test]
fn expr_integer_and_variable() {
    assert_eq!(transcode_expr(&Expr::IntegerConstant(11)).unwrap(), "11");
    assert_eq!(
        transcode_expr(&Expr::Variable("LED_GPIO".to_string())).unwrap(),
        "LED_GPIO"
    );
}

#[test]
fn fncall_namespaced_prefix() {
    let c = call(
        Some("gpio"),
        "enable_output",
        vec![
            Expr::Variable("LED_GPIO".to_string()),
            Expr::Stack(0),
            Expr::Stack(1),
        ],
        vec![Constant::Int(0), Constant::Int(0)],
    );
    assert_eq!(
        transcode_fncall(&c).unwrap(),
        "( bl_gpio_enable_output LED_GPIO 0 0 )"
    );
}

#[test]
fn fncall_unnamespaced_has_no_prefix() {
    let c = call(
        None,
        "time_delay",
        vec![Expr::Stack(0)],
        vec![Constant::Int(1000)],
    );
    assert_eq!(transcode_fncall(&c).unwrap(), "( time_delay 1000 )");
}

#[test]
fn fncall_renames_percent_operator() {
    let c = call(
        None,
        "%",
        vec![Expr::Variable("i".to_string()), Expr::Stack(0)],
        vec![Constant::Int(2)],
    );
    let out = transcode_fncall(&c).unwrap();
    assert_eq!(out, "( mod i 2 )");
    assert!(!out.contains('%'));
}

#[test]
fn fncall_no_args() {
    let c = call(None, "print", vec![], vec![]);
    assert_eq!(transcode_fncall(&c).unwrap(), "( print )");
}

#[test]
fn get_range_extracts_literal_bounds() {
    let range = Expr::FnCall(call(
        None,
        "range",
        vec![Expr::Stack(0), Expr::Stack(1)],
        vec![Constant::Int(0), Constant::Int(10)],
    ));
    assert_eq!(get_range(&range).unwrap(), (0, 10));
}

#[test]
fn get_range_rejects_other_calls() {
    let not_range = Expr::FnCall(call(
        None,
        "iota",
        vec![Expr::Stack(0), Expr::Stack(1)],
        vec![Constant::Int(0), Constant::Int(10)],
    ));
    assert_eq!(
        get_range(&not_range).unwrap_err(),
        TranscodeError::MalformedRange
    );
    assert_eq!(
        get_range(&Expr::IntegerConstant(3)).unwrap_err(),
        TranscodeError::MalformedRange
    );
}

#[test]
fn get_range_rejects_wrong_arity_and_non_literals() {
    let one_arg = Expr::FnCall(call(
        None,
        "range",
        vec![Expr::Stack(0)],
        vec![Constant::Int(0)],
    ));
    assert_eq!(
        get_range(&one_arg).unwrap_err(),
        TranscodeError::MalformedRange
    );
    let non_stack = Expr::FnCall(call(
        None,
        "range",
        vec![Expr::Variable("n".to_string()), Expr::Stack(0)],
        vec![Constant::Int(10)],
    ));
    assert_eq!(
        get_range(&non_stack).unwrap_err(),
        TranscodeError::MalformedRange
    );
    let non_int = Expr::FnCall(call(
        None,
        "range",
        vec![Expr::Stack(0), Expr::Stack(1)],
        vec![
            Constant::Unsupported("string".to_string()),
            Constant::Int(10),
        ],
    ));
    assert_eq!(
        get_range(&non_int).unwrap_err(),
        TranscodeError::MalformedRange
    );
}

#[test]
fn empty_program_renders_empty_root_scope() {
    let out = transcode(&vec![]).unwrap();
    assert_eq!(out, "( let* () \n)");
}

#[test]
fn single_binding_nests_with_empty_body() {
    let prog = vec![Stmt::Var(Expr::IntegerConstant(1), "a".to_string())];
    let out = transcode(&prog).unwrap();
    assert_eq!(out, "( let* () \n  ( let* (( a 1 )) \n)\n)");
}

#[test]
fn arithmetic_scenario_nests_bindings() {
    let prog = vec![
        Stmt::Var(Expr::IntegerConstant(40), "a".to_string()),
        Stmt::Var(Expr::IntegerConstant(2), "b".to_string()),
        Stmt::FnCall(call(
            None,
            "+",
            vec![
                Expr::Variable("a".to_string()),
                Expr::Variable("b".to_string()),
            ],
            vec![],
        )),
    ];
    let out = transcode(&prog).unwrap();
    assert_eq!(
        out,
        "( let* () \n  ( let* (( a 40 )) \n  ( let* (( b 2 )) \n  ( + a b )\n)\n)\n)"
    );
}

#[test]
fn blink_scenario_loop_and_side_effects() {
    let prog = vec![
        Stmt::Var(Expr::IntegerConstant(11), "LED_GPIO".to_string()),
        Stmt::FnCall(call(
            Some("gpio"),
            "enable_output",
            vec![
                Expr::Variable("LED_GPIO".to_string()),
                Expr::Stack(0),
                Expr::Stack(1),
            ],
            vec![Constant::Int(0), Constant::Int(0)],
        )),
        Stmt::For(
            Expr::FnCall(call(
                None,
                "range",
                vec![Expr::Stack(0), Expr::Stack(1)],
                vec![Constant::Int(0), Constant::Int(10)],
            )),
            "i".to_string(),
            vec![
                Stmt::FnCall(call(
                    Some("gpio"),
                    "output_set",
                    vec![
                        Expr::Variable("LED_GPIO".to_string()),
                        Expr::FnCall(call(
                            None,
                            "%",
                            vec![Expr::Variable("i".to_string()), Expr::Stack(0)],
                            vec![Constant::Int(2)],
                        )),
                    ],
                    vec![],
                )),
                Stmt::FnCall(call(
                    None,
                    "time_delay",
                    vec![Expr::Stack(0)],
                    vec![Constant::Int(1000)],
                )),
            ],
        ),
    ];
    let out = transcode(&prog).unwrap();
    let pieces = [
        "( let* (( LED_GPIO 11 ))",
        "( bl_gpio_enable_output LED_GPIO 0 0 )",
        "( dotimes (i 10)",
        "( bl_gpio_output_set LED_GPIO ( mod i 2 ) )",
        "( time_delay 1000 )",
    ];
    let mut at = 0;
    for piece in pieces {
        let found = out[at..].find(piece);
        assert!(found.is_some(), "missing `{}` in order in:\n{}", piece, out);
        at += found.unwrap() + piece.len();
    }
    assert!(!out.contains('%'));
    assert_balanced(&out);
}

#[test]
fn loop_with_break_scenario() {
    let prog = vec![Stmt::Loop(vec![
        Stmt::Var(Expr::IntegerConstant(1), "a".to_string()),
        Stmt::FnCall(call(
            None,
            "print",
            vec![Expr::Variable("a".to_string())],
            vec![],
        )),
        Stmt::If(
            Expr::FnCall(call(
                None,
                "==",
                vec![Expr::Variable("a".to_string()), Expr::Stack(0)],
                vec![Constant::Int(1)],
            )),
            vec![Stmt::Break],
        ),
    ])];
    let out = transcode(&prog).unwrap();
    let pieces = [
        "( let* () ",
        "( loop ",
        "( let* (( a 1 ))",
        "( print a )",
        "( if ( eq a 1 )",
        "( return )",
    ];
    let mut at = 0;
    for piece in pieces {
        let found = out[at..].find(piece);
        assert!(found.is_some(), "missing `{}` in order in:\n{}", piece, out);
        at += found.unwrap() + piece.len();
    }
    assert_balanced(&out);
}

#[test]
fn for_with_nonzero_lower_bound_is_an_error() {
    let prog = vec![Stmt::For(
        Expr::FnCall(call(
            None,
            "range",
            vec![Expr::Stack(0), Expr::Stack(1)],
            vec![Constant::Int(5), Constant::Int(10)],
        )),
        "i".to_string(),
        vec![],
    )];
    assert_eq!(
        transcode(&prog).unwrap_err(),
        TranscodeError::NonZeroLowerBound
    );
}

#[test]
fn unknown_statement_kind_is_an_error() {
    let prog = vec![Stmt::Unsupported("switch".to_string())];
    assert_eq!(
        transcode(&prog).unwrap_err(),
        TranscodeError::UnsupportedStmt("switch".to_string())
    );
}

#[test]
fn unknown_expression_kind_is_an_error() {
    let prog = vec![Stmt::Var(
        Expr::Unsupported("string interpolation".to_string()),
        "a".to_string(),
    )];
    assert_eq!(
        transcode(&prog).unwrap_err(),
        TranscodeError::UnsupportedExpr("string interpolation".to_string())
    );
}

#[test]
fn bare_stack_slot_in_statement_position_is_an_error() {
    let prog = vec![Stmt::Var(Expr::Stack(0), "a".to_string())];
    assert_eq!(
        transcode(&prog).unwrap_err(),
        TranscodeError::UnsupportedExpr("stack slot".to_string())
    );
}

#[test]
fn stack_slot_out_of_range_is_an_error() {
    let prog = vec![Stmt::FnCall(call(None, "f", vec![Expr::Stack(3)], vec![]))];
    assert_eq!(
        transcode(&prog).unwrap_err(),
        TranscodeError::StackSlotOutOfRange
    );
}

#[test]
fn non_integer_constant_in_arg_position_is_an_error() {
    let prog = vec![Stmt::FnCall(call(
        None,
        "f",
        vec![Expr::Stack(0)],
        vec![Constant::Unsupported("float".to_string())],
    ))];
    assert_eq!(
        transcode(&prog).unwrap_err(),
        TranscodeError::NonIntegerConstant
    );
}

#[test]
fn scope_stack_is_empty_after_transcode_returns() {
    let mut stack = ScopeStack::new();
    let prog = vec![
        Stmt::Var(Expr::IntegerConstant(1), "a".to_string()),
        Stmt::Var(Expr::IntegerConstant(2), "b".to_string()),
    ];
    let out = transcode_in(&mut stack, &prog);
    assert!(out.is_ok());
    assert_eq!(stack.depth(), 0);

    let bad = vec![Stmt::Unsupported("import".to_string())];
    let out = transcode_in(&mut stack, &bad);
    assert!(out.is_err());
    assert_eq!(stack.depth(), 0);
}

#[test]
fn output_parentheses_are_balanced() {
    let programs = vec![
        vec![],
        vec![Stmt::Var(Expr::IntegerConstant(1), "a".to_string())],
        vec![
            Stmt::Var(Expr::IntegerConstant(40), "a".to_string()),
            Stmt::Loop(vec![Stmt::Break]),
            Stmt::For(
                Expr::FnCall(call(
                    None,
                    "range",
                    vec![Expr::Stack(0), Expr::Stack(1)],
                    vec![Constant::Int(0), Constant::Int(3)],
                )),
                "i".to_string(),
                vec![Stmt::FnCall(call(
                    None,
                    "print",
                    vec![Expr::Variable("i".to_string())],
                    vec![],
                ))],
            ),
        ],
    ];
    for prog in &programs {
        assert_balanced(&transcode(prog).unwrap());
    }
}

fn assert_balanced(s: &str) {
    let mut depth: i64 = 0;
    for c in s.chars() {
        if c == '(' {
            depth += 1;
        } else if c == ')' {
            depth -= 1;
            assert!(depth >= 0, "parentheses drop below zero in:\n{}", s);
        }
    }
    assert_eq!(depth, 0, "parentheses do not balance in:\n{}", s);
}
