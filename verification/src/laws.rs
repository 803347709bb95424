//! Laws of the transcoder's output text.
//!
//! The transcoder builds its output from three kinds of material: fixed
//! punctuation and keywords, decimal renderings of integers, and the
//! script's own atoms (identifiers, namespaces, renamed call names). The
//! laws here say what follows for every program whose atoms are tame: the
//! output's parentheses balance, and no character outside the fixed
//! alphabet and the atoms — in particular no `%`, which renaming maps to
//! `mod` — ever appears.

use vstd::prelude::*;

use crate::ast::{Call, Constant, ErrorModel, Expr, Stmt};
use crate::numfmt::{spec_dec_int, spec_dec_nat, spec_digit};
use crate::scope::{
    lemma_end_scope_len, spec_add_to_scope, spec_indent_prefix, spec_render_scope, spec_end_scope,
    ScopeModel,
};
use crate::transcode::{
    lemma_block_stack_len, lemma_stmt_stack_len, spec_args_text, spec_block_prefix, spec_get_range,
    spec_namespace_prefix, spec_rename, spec_transcode_call, spec_transcode_expr,
    spec_transcode_program, spec_transcode_stmt,
};

verus! {

/// Walk a text left to right, tracking parenthesis depth `d`; the result
/// is the final depth, or nothing if the depth ever drops below zero.
pub open spec fn spec_scan(s: Seq<char>, d: int) -> Option<int>
    decreases s.len(),
{
    if s.len() <= 0 {
        Some(d)
    } else {
        let c = s[0];
        if c == ')' && d <= 0 {
            None
        } else {
            spec_scan(
                s.drop_first(),
                if c == '(' {
                    d + 1
                } else if c == ')' {
                    d - 1
                } else {
                    d
                },
            )
        }
    }
}

/// A text whose parentheses balance: scanning from depth zero ends at
/// depth zero without ever dropping below it.
pub open spec fn spec_balanced(s: Seq<char>) -> bool {
    spec_scan(s, 0) == Some(0int)
}

/// No character of `s` equals `c`.
pub open spec fn char_absent(s: Seq<char>, c: char) -> bool {
    forall|i: int| 0 <= i < s.len() ==> s[i] != c
}

/// A text without parentheses.
pub open spec fn paren_free(s: Seq<char>) -> bool {
    char_absent(s, '(') && char_absent(s, ')')
}

/// Scanning a concatenation scans the first part, then the second from
/// where the first ended.
pub proof fn lemma_scan_concat(a: Seq<char>, b: Seq<char>, d: int)
    ensures
        spec_scan(a + b, d) == (match spec_scan(a, d) {
            Some(m) => spec_scan(b, m),
            None => None::<int>,
        }),
    decreases a.len(),
{
    if a.len() == 0 {
        assert(a + b =~= b);
    } else {
        let c = a[0];
        assert((a + b)[0] == c);
        assert((a + b).drop_first() =~= a.drop_first() + b);
        if !(c == ')' && d <= 0) {
            lemma_scan_concat(
                a.drop_first(),
                b,
                if c == '(' {
                    d + 1
                } else if c == ')' {
                    d - 1
                } else {
                    d
                },
            );
        }
    }
}

/// A successful scan started deeper ends deeper by the same amount.
pub proof fn lemma_scan_shift(s: Seq<char>, d: int, m: int, k: int)
    requires
        spec_scan(s, d) == Some(m),
        k >= 0,
    ensures
        spec_scan(s, d + k) == Some(m + k),
    decreases s.len(),
{
    if s.len() > 0 {
        let c = s[0];
        lemma_scan_shift(
            s.drop_first(),
            if c == '(' {
                d + 1
            } else if c == ')' {
                d - 1
            } else {
                d
            },
            m,
            k,
        );
    }
}

/// Scanning a text without parentheses keeps the depth.
pub proof fn lemma_scan_paren_free(s: Seq<char>, d: int)
    requires
        paren_free(s),
    ensures
        spec_scan(s, d) == Some(d),
    decreases s.len(),
{
    if s.len() > 0 {
        assert(s[0] != '(' && s[0] != ')');
        assert(paren_free(s.drop_first()));
        lemma_scan_paren_free(s.drop_first(), d);
    }
}

/// A character absent from both parts is absent from the concatenation.
pub proof fn lemma_char_absent_concat(a: Seq<char>, b: Seq<char>, c: char)
    requires
        char_absent(a, c),
        char_absent(b, c),
    ensures
        char_absent(a + b, c),
{
    assert forall|i: int| 0 <= i < (a + b).len() implies (a + b)[i] != c by {
        if i < a.len() {
            assert((a + b)[i] == a[i]);
        } else {
            assert((a + b)[i] == b[i - a.len()]);
        }
    }
}

/// The decimal digits of a non-negative integer use only `0` through `9`.
pub proof fn lemma_dec_nat_chars(n: int)
    ensures
        forall|i: int|
            0 <= i < spec_dec_nat(n).len() ==> exists|d: int|
                0 <= d <= 9 && #[trigger] spec_dec_nat(n)[i] == spec_digit(d),
    decreases n,
{
    if n < 10 {
        assert(spec_dec_nat(n)[0] == spec_digit(if 0 <= n <= 9 {
            n
        } else {
            n
        }));
        assert forall|i: int| 0 <= i < spec_dec_nat(n).len() implies exists|d: int|
            0 <= d <= 9 && #[trigger] spec_dec_nat(n)[i] == spec_digit(d) by {
            if 0 <= n <= 9 {
                assert(spec_dec_nat(n)[i] == spec_digit(n));
            } else {
                assert(spec_dec_nat(n)[i] == spec_digit(9));
            }
        }
    } else {
        lemma_dec_nat_chars(n / 10);
        let prev = spec_dec_nat(n / 10);
        assert forall|i: int| 0 <= i < spec_dec_nat(n).len() implies exists|d: int|
            0 <= d <= 9 && #[trigger] spec_dec_nat(n)[i] == spec_digit(d) by {
            if i < prev.len() {
                assert(spec_dec_nat(n)[i] == prev[i]);
            } else {
                assert(spec_dec_nat(n)[i] == spec_digit(n % 10));
            }
        }
    }
}

/// Decimal digit characters are not parentheses, so a rendered integer is
/// free of them.
pub proof fn lemma_dec_int_paren_free(i: int)
    ensures
        paren_free(spec_dec_int(i)),
{
    lemma_dec_nat_chars(if i >= 0 {
        i
    } else {
        -i
    });
    let digits = spec_dec_nat(
        if i >= 0 {
            i
        } else {
            -i
        },
    );
    assert forall|j: int| 0 <= j < digits.len() implies digits[j] != '(' && digits[j] != ')' by {
        let d = choose|d: int| 0 <= d <= 9 && digits[j] == spec_digit(d);
    }
    if i < 0 {
        assert forall|j: int|
            0 <= j < spec_dec_int(i).len() implies spec_dec_int(i)[j] != '(' && spec_dec_int(i)[j]
            != ')' by {
            if j > 0 {
                assert(spec_dec_int(i)[j] == digits[j - 1]);
            }
        }
    }
}

/// A scope whose header and body entries all balance.
pub open spec fn scope_balanced(sc: ScopeModel) -> bool {
    spec_balanced(sc.header) && forall|i: int|
        0 <= i < sc.body.len() ==> spec_balanced(#[trigger] sc.body[i])
}

/// A stack all of whose scopes balance.
pub open spec fn stack_balanced(stack: Seq<ScopeModel>) -> bool {
    forall|i: int| 0 <= i < stack.len() ==> scope_balanced(#[trigger] stack[i])
}

/// The indented body entries of a balanced scope keep the scan depth.
proof fn lemma_indent_scan(body: Seq<Seq<char>>, i: int, d: int)
    requires
        d >= 0,
        0 <= i <= body.len(),
        forall|j: int| 0 <= j < body.len() ==> spec_balanced(#[trigger] body[j]),
    ensures
        spec_scan(spec_indent_prefix(body, i), d) == Some(d),
    decreases i,
{
    reveal_strlit("  ");
    reveal_strlit("\n");
    if i <= 0 {
        assert(spec_scan(spec_indent_prefix(body, i), d) == Some(d));
    } else {
        lemma_indent_scan(body, i - 1, d);
        let prev = spec_indent_prefix(body, i - 1);
        assert(paren_free("  "@));
        assert(paren_free("\n"@));
        lemma_scan_paren_free("  "@, d);
        lemma_scan_concat(prev, "  "@, d);
        lemma_scan_shift(body[i - 1], 0, 0, d);
        lemma_scan_concat(prev + "  "@, body[i - 1], d);
        lemma_scan_paren_free("\n"@, d);
        lemma_scan_concat(prev + "  "@ + body[i - 1], "\n"@, d);
    }
}

/// The rendering of a balanced scope balances.
pub proof fn lemma_render_balanced(sc: ScopeModel)
    requires
        scope_balanced(sc),
    ensures
        spec_balanced(spec_render_scope(sc)),
{
    reveal_strlit("( ");
    reveal_strlit(" \n");
    reveal_strlit(")");
    assert(spec_scan("( "@, 0) == Some(1int)) by {
        reveal_with_fuel(spec_scan, 4);
    }
    lemma_scan_shift(sc.header, 0, 0, 1);
    lemma_scan_concat("( "@, sc.header, 0);
    assert(paren_free(" \n"@));
    lemma_scan_paren_free(" \n"@, 1);
    lemma_scan_concat("( "@ + sc.header, " \n"@, 0);
    lemma_indent_scan(sc.body, sc.body.len() as int, 1);
    lemma_scan_concat(
        "( "@ + sc.header + " \n"@,
        spec_indent_prefix(sc.body, sc.body.len() as int),
        0,
    );
    assert(spec_scan(")"@, 1) == Some(0int)) by {
        reveal_with_fuel(spec_scan, 3);
    }
    lemma_scan_concat(
        "( "@ + sc.header + " \n"@ + spec_indent_prefix(sc.body, sc.body.len() as int),
        ")"@,
        0,
    );
}

/// Closing scopes of a balanced stack leaves a balanced stack and yields
/// balanced text.
pub proof fn lemma_end_scope_balanced(stack: Seq<ScopeModel>, index: int)
    requires
        stack_balanced(stack),
        0 <= index < stack.len(),
    ensures
        stack_balanced(spec_end_scope(stack, index).0),
        spec_balanced(spec_end_scope(stack, index).1),
    decreases stack.len() - index,
{
    assert(scope_balanced(stack.last()));
    lemma_render_balanced(stack.last());
    let rendered = spec_render_scope(stack.last());
    let popped = stack.drop_last();
    assert(stack_balanced(popped)) by {
        assert forall|i: int| 0 <= i < popped.len() implies scope_balanced(#[trigger] popped[i]) by {
            assert(popped[i] == stack[i]);
        }
    }
    if popped.len() > index {
        let parent = popped.last();
        let updated = popped.update(
            popped.len() - 1,
            ScopeModel { header: parent.header, body: parent.body.push(rendered) },
        );
        assert(stack_balanced(updated)) by {
            assert forall|i: int| 0 <= i < updated.len() implies scope_balanced(
                #[trigger] updated[i],
            ) by {
                if i < updated.len() - 1 {
                    assert(updated[i] == popped[i]);
                } else {
                    assert(scope_balanced(parent));
                    assert forall|j: int|
                        0 <= j < updated[i].body.len() implies spec_balanced(
                        #[trigger] updated[i].body[j],
                    ) by {
                        if j < parent.body.len() {
                            assert(updated[i].body[j] == parent.body[j]);
                        } else {
                            assert(updated[i].body[j] == rendered);
                        }
                    }
                }
            }
        }
        lemma_end_scope_balanced(updated, index);
    }
}

/// No atom of the expression — variable name, namespace, or renamed call
/// name — contains the character `c`.
pub open spec fn expr_atoms_avoid(e: Expr, c: char) -> bool
    decreases e, 3nat, 0nat,
{
    match e {
        Expr::IntegerConstant(_) => true,
        Expr::Variable(name) => char_absent(name@, c),
        Expr::FnCall(call) => call_atoms_avoid(call, c),
        Expr::Stack(_) => true,
        Expr::Unsupported(_) => true,
    }
}

/// No atom of the call contains the character `c`: the namespace, the
/// renamed name, and the atoms of every argument.
pub open spec fn call_atoms_avoid(call: Call, c: char) -> bool
    decreases call, 2nat, 0nat,
{
    &&& match call.namespace {
        Some(ns) => char_absent(ns@, c),
        None => true,
    }
    &&& char_absent(crate::transcode::spec_rename(call.name@), c)
    &&& args_atoms_avoid(call, c, call.args.len() as int)
}

/// No atom of the first `i` arguments contains the character `c`.
pub open spec fn args_atoms_avoid(call: Call, c: char, i: int) -> bool
    decreases call, 1nat, i,
{
    if i <= 0 || i > call.args.len() {
        true
    } else {
        args_atoms_avoid(call, c, i - 1) && expr_atoms_avoid(call.args[i - 1], c)
    }
}

/// No atom of the statement contains the character `c`.
pub open spec fn stmt_atoms_avoid(s: Stmt, c: char) -> bool
    decreases s, 3nat, 0nat,
{
    match s {
        Stmt::Var(value, name) => char_absent(name@, c) && expr_atoms_avoid(value, c),
        Stmt::For(_, var, body) => char_absent(var@, c) && block_atoms_avoid(
            body@,
            c,
            body@.len() as int,
        ),
        Stmt::FnCall(call) => call_atoms_avoid(call, c),
        Stmt::Loop(body) => block_atoms_avoid(body@, c, body@.len() as int),
        Stmt::If(cond, body) => expr_atoms_avoid(cond, c) && block_atoms_avoid(
            body@,
            c,
            body@.len() as int,
        ),
        Stmt::Break => true,
        Stmt::Unsupported(_) => true,
    }
}

/// No atom of the first `i` statements contains the character `c`.
pub open spec fn block_atoms_avoid(stmts: Seq<Stmt>, c: char, i: int) -> bool
    decreases stmts, 1nat, i,
{
    if i <= 0 || i > stmts.len() {
        true
    } else {
        block_atoms_avoid(stmts, c, i - 1) && stmt_atoms_avoid(stmts[i - 1], c)
    }
}

/// No atom of the program contains the character `c`.
pub open spec fn program_atoms_avoid(prog: Seq<Stmt>, c: char) -> bool {
    block_atoms_avoid(prog, c, prog.len() as int)
}

/// Atoms free of both parentheses, over a whole program: the condition
/// under which the output balances.
pub open spec fn program_atoms_paren_free(prog: Seq<Stmt>) -> bool {
    program_atoms_avoid(prog, '(') && program_atoms_avoid(prog, ')')
}

/// Two paren-free parts concatenate to a paren-free text.
proof fn lemma_paren_free_concat(a: Seq<char>, b: Seq<char>)
    requires
        paren_free(a),
        paren_free(b),
    ensures
        paren_free(a + b),
{
    lemma_char_absent_concat(a, b, '(');
    lemma_char_absent_concat(a, b, ')');
}

/// The text of an expression balances when its atoms are paren-free.
pub proof fn lemma_expr_balanced(e: Expr)
    requires
        expr_atoms_avoid(e, '('),
        expr_atoms_avoid(e, ')'),
    ensures
        crate::transcode::spec_transcode_expr(e) matches Ok(t) ==> spec_balanced(t),
    decreases e, 3nat, 0nat,
{
    match e {
        Expr::IntegerConstant(i) => {
            lemma_dec_int_paren_free(i as int);
            lemma_scan_paren_free(spec_dec_int(i as int), 0);
        },
        Expr::Variable(name) => {
            lemma_scan_paren_free(name@, 0);
        },
        Expr::FnCall(call) => {
            lemma_call_balanced(call);
        },
        _ => {},
    }
}

/// The argument text of a call balances when the atoms are paren-free.
pub proof fn lemma_args_balanced(call: Call, i: int)
    requires
        args_atoms_avoid(call, '(', i),
        args_atoms_avoid(call, ')', i),
        0 <= i <= call.args.len(),
    ensures
        crate::transcode::spec_args_text(call, i) matches Ok(t) ==> spec_balanced(t),
    decreases call, 1nat, i,
{
    reveal_strlit(" ");
    if 0 < i {
        lemma_args_balanced(call, i - 1);
        match crate::transcode::spec_args_text(call, i - 1) {
            Ok(sofar) => {
                let piece = match call.args[i - 1] {
                    Expr::Stack(k) => if k >= call.constants.len() {
                        Err(crate::ast::ErrorModel::StackSlotOutOfRange)
                    } else {
                        crate::transcode::spec_constant_text(call.constants[k as int])
                    },
                    _ => crate::transcode::spec_transcode_expr(call.args[i - 1]),
                };
                match piece {
                    Ok(p) => {
                        match call.args[i - 1] {
                            Expr::Stack(k) => {
                                if k < call.constants.len() {
                                    match call.constants[k as int] {
                                        Constant::Int(v) => {
                                            lemma_dec_int_paren_free(v as int);
                                            lemma_scan_paren_free(p, 0);
                                        },
                                        Constant::Unsupported(_) => {},
                                    }
                                }
                            },
                            _ => {
                                lemma_expr_balanced(call.args[i - 1]);
                            },
                        }
                        lemma_scan_concat(sofar, p, 0);
                        assert(paren_free(" "@));
                        lemma_scan_paren_free(" "@, 0);
                        lemma_scan_concat(sofar + p, " "@, 0);
                    },
                    Err(_) => {},
                }
            },
            Err(_) => {},
        }
    }
}

/// The text of a call balances when its atoms are paren-free.
pub proof fn lemma_call_balanced(call: Call)
    requires
        call_atoms_avoid(call, '('),
        call_atoms_avoid(call, ')'),
    ensures
        crate::transcode::spec_transcode_call(call) matches Ok(t) ==> spec_balanced(t),
    decreases call, 2nat, 0nat,
{
    lemma_args_balanced(call, call.args.len() as int);
    match crate::transcode::spec_args_text(call, call.args.len() as int) {
        Ok(args) => {
            reveal_strlit("( ");
            reveal_strlit("bl_");
            reveal_strlit("_");
            reveal_strlit(" ");
            reveal_strlit(")");
            let prefix = crate::transcode::spec_namespace_prefix(call.namespace);
            assert(paren_free(prefix)) by {
                match call.namespace {
                    Some(ns) => {
                        assert(paren_free("bl_"@));
                        assert(paren_free("_"@));
                        lemma_paren_free_concat("bl_"@, ns@);
                        lemma_paren_free_concat("bl_"@ + ns@, "_"@);
                    },
                    None => {
                        assert(paren_free(Seq::<char>::empty()));
                    },
                }
            }
            let renamed = crate::transcode::spec_rename(call.name@);
            assert(spec_scan("( "@, 0) == Some(1int)) by {
                reveal_with_fuel(spec_scan, 4);
            }
            lemma_scan_paren_free(prefix, 1);
            lemma_scan_concat("( "@, prefix, 0);
            lemma_scan_paren_free(renamed, 1);
            lemma_scan_concat("( "@ + prefix, renamed, 0);
            assert(paren_free(" "@));
            lemma_scan_paren_free(" "@, 1);
            lemma_scan_concat("( "@ + prefix + renamed, " "@, 0);
            lemma_scan_shift(args, 0, 0, 1);
            lemma_scan_concat("( "@ + prefix + renamed + " "@, args, 0);
            assert(spec_scan(")"@, 1) == Some(0int)) by {
                reveal_with_fuel(spec_scan, 3);
            }
            lemma_scan_concat("( "@ + prefix + renamed + " "@ + args, ")"@, 0);
        },
        Err(_) => {},
    }
}

/// The scopes that a statement leaves open all balance, and the text it
/// returns balances, when its atoms are paren-free and the stack it found
/// was balanced.
pub proof fn lemma_stmt_balanced(stack: Seq<ScopeModel>, s: Stmt)
    requires
        stack.len() > 0,
        stack_balanced(stack),
        stmt_atoms_avoid(s, '('),
        stmt_atoms_avoid(s, ')'),
    ensures
        spec_transcode_stmt(stack, s) matches Ok(pair) ==> stack_balanced(pair.0) && spec_balanced(
            pair.1,
        ),
    decreases s, 3nat, 0nat,
{
    match s {
        Stmt::Var(value, name) => {
            lemma_expr_balanced(value);
            match crate::transcode::spec_transcode_expr(value) {
                Ok(v) => {
                    reveal_strlit("let* (( ");
                    reveal_strlit(" ");
                    reveal_strlit(" ))");
                    assert(spec_scan("let* (( "@, 0) == Some(2int)) by {
                        reveal_with_fuel(spec_scan, 10);
                    }
                    lemma_scan_paren_free(name@, 2);
                    lemma_scan_concat("let* (( "@, name@, 0);
                    assert(paren_free(" "@));
                    lemma_scan_paren_free(" "@, 2);
                    lemma_scan_concat("let* (( "@ + name@, " "@, 0);
                    lemma_scan_shift(v, 0, 0, 2);
                    lemma_scan_concat("let* (( "@ + name@ + " "@, v, 0);
                    assert(spec_scan(" ))"@, 2) == Some(0int)) by {
                        reveal_with_fuel(spec_scan, 5);
                    }
                    lemma_scan_concat("let* (( "@ + name@ + " "@ + v, " ))"@, 0);
                    let header = "let* (( "@ + name@ + " "@ + v + " ))"@;
                    let opened = stack.push(ScopeModel { header, body: Seq::empty() });
                    assert(stack_balanced(opened)) by {
                        assert forall|i: int| 0 <= i < opened.len() implies scope_balanced(
                            #[trigger] opened[i],
                        ) by {
                            if i < stack.len() {
                                assert(opened[i] == stack[i]);
                            }
                        }
                    }
                },
                Err(_) => {},
            }
        },
        Stmt::FnCall(call) => {
            lemma_call_balanced(call);
        },
        Stmt::For(range, var, body) => {
            match spec_get_range(range) {
                Ok(pair) => {
                    if pair.0 == 0 {
                        reveal_strlit("dotimes (");
                        reveal_strlit(" ");
                        reveal_strlit(")");
                        assert(spec_scan("dotimes ("@, 0) == Some(1int)) by {
                            reveal_with_fuel(spec_scan, 11);
                        }
                        lemma_scan_paren_free(var@, 1);
                        lemma_scan_concat("dotimes ("@, var@, 0);
                        assert(paren_free(" "@));
                        lemma_scan_paren_free(" "@, 1);
                        lemma_scan_concat("dotimes ("@ + var@, " "@, 0);
                        lemma_dec_int_paren_free(pair.1 as int);
                        lemma_scan_paren_free(spec_dec_int(pair.1 as int), 1);
                        lemma_scan_concat("dotimes ("@ + var@ + " "@, spec_dec_int(pair.1 as int), 0);
                        assert(spec_scan(")"@, 1) == Some(0int)) by {
                            reveal_with_fuel(spec_scan, 3);
                        }
                        lemma_scan_concat(
                            "dotimes ("@ + var@ + " "@ + spec_dec_int(pair.1 as int),
                            ")"@,
                            0,
                        );
                        let header = "dotimes ("@ + var@ + " "@ + spec_dec_int(pair.1 as int)
                            + ")"@;
                        let opened = stack.push(ScopeModel { header, body: Seq::empty() });
                        assert(stack_balanced(opened)) by {
                            assert forall|i: int| 0 <= i < opened.len() implies scope_balanced(
                                #[trigger] opened[i],
                            ) by {
                                if i < stack.len() {
                                    assert(opened[i] == stack[i]);
                                }
                            }
                        }
                        lemma_block_balanced(opened, body@, body@.len() as int);
                        match spec_block_prefix(opened, body@, body@.len() as int) {
                            Ok(full) => {
                                lemma_block_stack_len(opened, body@, body@.len() as int);
                                lemma_end_scope_balanced(full, stack.len() as int);
                            },
                            Err(_) => {},
                        }
                    }
                },
                Err(_) => {},
            }
        },
        Stmt::Loop(body) => {
            reveal_strlit("loop");
            assert(paren_free("loop"@));
            lemma_scan_paren_free("loop"@, 0);
            let opened = stack.push(ScopeModel { header: "loop"@, body: Seq::empty() });
            assert(stack_balanced(opened)) by {
                assert forall|i: int| 0 <= i < opened.len() implies scope_balanced(
                    #[trigger] opened[i],
                ) by {
                    if i < stack.len() {
                        assert(opened[i] == stack[i]);
                    }
                }
            }
            lemma_block_balanced(opened, body@, body@.len() as int);
            match spec_block_prefix(opened, body@, body@.len() as int) {
                Ok(full) => {
                    lemma_block_stack_len(opened, body@, body@.len() as int);
                    lemma_end_scope_balanced(full, stack.len() as int);
                },
                Err(_) => {},
            }
        },
        Stmt::If(cond, body) => {
            lemma_expr_balanced(cond);
            match crate::transcode::spec_transcode_expr(cond) {
                Ok(cv) => {
                    reveal_strlit("if ");
                    assert(paren_free("if "@));
                    lemma_scan_paren_free("if "@, 0);
                    lemma_scan_concat("if "@, cv, 0);
                    let opened = stack.push(ScopeModel { header: "if "@ + cv, body: Seq::empty() });
                    assert(stack_balanced(opened)) by {
                        assert forall|i: int| 0 <= i < opened.len() implies scope_balanced(
                            #[trigger] opened[i],
                        ) by {
                            if i < stack.len() {
                                assert(opened[i] == stack[i]);
                            }
                        }
                    }
                    lemma_block_balanced(opened, body@, body@.len() as int);
                    match spec_block_prefix(opened, body@, body@.len() as int) {
                        Ok(full) => {
                            lemma_block_stack_len(opened, body@, body@.len() as int);
                            lemma_end_scope_balanced(full, stack.len() as int);
                        },
                        Err(_) => {},
                    }
                },
                Err(_) => {},
            }
        },
        Stmt::Break => {
            reveal_strlit("( return )");
            assert(spec_scan("( return )"@, 0) == Some(0int)) by {
                reveal_with_fuel(spec_scan, 12);
            }
        },
        Stmt::Unsupported(_) => {},
    }
}

/// A block keeps the stack balanced when every statement's atoms are
/// paren-free.
pub proof fn lemma_block_balanced(stack: Seq<ScopeModel>, stmts: Seq<Stmt>, i: int)
    requires
        stack.len() > 0,
        stack_balanced(stack),
        block_atoms_avoid(stmts, '(', i),
        block_atoms_avoid(stmts, ')', i),
        0 <= i <= stmts.len(),
    ensures
        spec_block_prefix(stack, stmts, i) matches Ok(st) ==> stack_balanced(st),
    decreases stmts, 1nat, i,
{
    if 0 < i {
        lemma_block_balanced(stack, stmts, i - 1);
        match spec_block_prefix(stack, stmts, i - 1) {
            Ok(st) => {
                lemma_block_stack_len(stack, stmts, i - 1);
                lemma_stmt_balanced(st, stmts[i - 1]);
                match spec_transcode_stmt(st, stmts[i - 1]) {
                    Ok(pair) => {
                        lemma_stmt_stack_len(st, stmts[i - 1]);
                        let added = spec_add_to_scope(pair.0, pair.1);
                        assert(stack_balanced(added)) by {
                            if pair.1.len() != 0 {
                                let top = pair.0.last();
                                assert forall|j: int| 0 <= j < added.len() implies scope_balanced(
                                    #[trigger] added[j],
                                ) by {
                                    if j < added.len() - 1 {
                                        assert(added[j] == pair.0[j]);
                                    } else {
                                        assert(scope_balanced(top));
                                        assert forall|m: int|
                                            0 <= m < added[j].body.len() implies spec_balanced(
                                            #[trigger] added[j].body[m],
                                        ) by {
                                            if m < top.body.len() {
                                                assert(added[j].body[m] == top.body[m]);
                                            } else {
                                                assert(added[j].body[m] == pair.1);
                                            }
                                        }
                                    }
                                }
                            }
                        }
                    },
                    Err(_) => {},
                }
            },
            Err(_) => {},
        }
    }
}

/// Output parentheses are balanced: for every program whose atoms contain
/// no parenthesis characters, a successfully transcoded program scans to
/// depth zero without ever dropping below it.
pub proof fn lemma_transcode_balanced(prog: Seq<Stmt>)
    requires
        program_atoms_paren_free(prog),
    ensures
        spec_transcode_program(prog) matches Ok(out) ==> spec_balanced(out),
{
    let root = seq![ScopeModel { header: "let* ()"@, body: Seq::empty() }];
    assert(spec_scan("let* ()"@, 0) == Some(0int)) by {
        reveal_strlit("let* ()");
        reveal_with_fuel(spec_scan, 9);
    }
    assert(stack_balanced(root)) by {
        assert(scope_balanced(root[0]));
    }
    lemma_block_balanced(root, prog, prog.len() as int);
    match spec_block_prefix(root, prog, prog.len() as int) {
        Ok(full) => {
            lemma_block_stack_len(root, prog, prog.len() as int);
            lemma_end_scope_balanced(full, 0);
        },
        Err(_) => {},
    }
}

/// The decimal rendering of an integer contains no `%`.
proof fn lemma_dec_int_no_pct(i: int)
    ensures
        char_absent(spec_dec_int(i), '%'),
{
    lemma_dec_nat_chars(
        if i >= 0 {
            i
        } else {
            -i
        },
    );
    let digits = spec_dec_nat(
        if i >= 0 {
            i
        } else {
            -i
        },
    );
    assert forall|j: int| 0 <= j < digits.len() implies digits[j] != '%' by {
        let d = choose|d: int| 0 <= d <= 9 && digits[j] == spec_digit(d);
    }
    if i < 0 {
        assert forall|j: int| 0 <= j < spec_dec_int(i).len() implies spec_dec_int(i)[j] != '%' by {
            if j > 0 {
                assert(spec_dec_int(i)[j] == digits[j - 1]);
            }
        }
    }
}

/// A scope none of whose texts contains `%`.
pub open spec fn scope_no_pct(sc: ScopeModel) -> bool {
    char_absent(sc.header, '%') && forall|i: int|
        0 <= i < sc.body.len() ==> char_absent(#[trigger] sc.body[i], '%')
}

/// A stack none of whose scopes contains `%`.
pub open spec fn stack_no_pct(stack: Seq<ScopeModel>) -> bool {
    forall|i: int| 0 <= i < stack.len() ==> scope_no_pct(#[trigger] stack[i])
}

/// Pushing a fresh scope with a `%`-free header keeps the stack `%`-free.
proof fn lemma_push_scope_no_pct(stack: Seq<ScopeModel>, header: Seq<char>)
    requires
        stack_no_pct(stack),
        char_absent(header, '%'),
    ensures
        stack_no_pct(stack.push(ScopeModel { header, body: Seq::empty() })),
{
    let opened = stack.push(ScopeModel { header, body: Seq::empty() });
    assert forall|i: int| 0 <= i < opened.len() implies scope_no_pct(#[trigger] opened[i]) by {
        if i < stack.len() {
            assert(opened[i] == stack[i]);
        }
    }
}

/// The indented body entries of a `%`-free scope contain no `%`.
proof fn lemma_indent_no_pct(body: Seq<Seq<char>>, i: int)
    requires
        0 <= i <= body.len(),
        forall|j: int| 0 <= j < body.len() ==> char_absent(#[trigger] body[j], '%'),
    ensures
        char_absent(spec_indent_prefix(body, i), '%'),
    decreases i,
{
    reveal_strlit("  ");
    reveal_strlit("\n");
    if i > 0 {
        lemma_indent_no_pct(body, i - 1);
        let prev = spec_indent_prefix(body, i - 1);
        assert(char_absent("  "@, '%'));
        assert(char_absent("\n"@, '%'));
        lemma_char_absent_concat(prev, "  "@, '%');
        lemma_char_absent_concat(prev + "  "@, body[i - 1], '%');
        lemma_char_absent_concat(prev + "  "@ + body[i - 1], "\n"@, '%');
    }
}

/// The rendering of a `%`-free scope contains no `%`.
proof fn lemma_render_no_pct(sc: ScopeModel)
    requires
        scope_no_pct(sc),
    ensures
        char_absent(spec_render_scope(sc), '%'),
{
    reveal_strlit("( ");
    reveal_strlit(" \n");
    reveal_strlit(")");
    assert(char_absent("( "@, '%'));
    assert(char_absent(" \n"@, '%'));
    assert(char_absent(")"@, '%'));
    lemma_indent_no_pct(sc.body, sc.body.len() as int);
    lemma_char_absent_concat("( "@, sc.header, '%');
    lemma_char_absent_concat("( "@ + sc.header, " \n"@, '%');
    lemma_char_absent_concat(
        "( "@ + sc.header + " \n"@,
        spec_indent_prefix(sc.body, sc.body.len() as int),
        '%',
    );
    lemma_char_absent_concat(
        "( "@ + sc.header + " \n"@ + spec_indent_prefix(sc.body, sc.body.len() as int),
        ")"@,
        '%',
    );
}

/// Closing scopes of a `%`-free stack leaves a `%`-free stack and yields
/// `%`-free text.
proof fn lemma_end_scope_no_pct(stack: Seq<ScopeModel>, index: int)
    requires
        stack_no_pct(stack),
        0 <= index < stack.len(),
    ensures
        stack_no_pct(spec_end_scope(stack, index).0),
        char_absent(spec_end_scope(stack, index).1, '%'),
    decreases stack.len() - index,
{
    assert(scope_no_pct(stack.last()));
    lemma_render_no_pct(stack.last());
    let rendered = spec_render_scope(stack.last());
    let popped = stack.drop_last();
    assert(stack_no_pct(popped)) by {
        assert forall|i: int| 0 <= i < popped.len() implies scope_no_pct(#[trigger] popped[i]) by {
            assert(popped[i] == stack[i]);
        }
    }
    if popped.len() > index {
        let parent = popped.last();
        let updated = popped.update(
            popped.len() - 1,
            ScopeModel { header: parent.header, body: parent.body.push(rendered) },
        );
        assert(stack_no_pct(updated)) by {
            assert forall|i: int| 0 <= i < updated.len() implies scope_no_pct(
                #[trigger] updated[i],
            ) by {
                if i < updated.len() - 1 {
                    assert(updated[i] == popped[i]);
                } else {
                    assert(scope_no_pct(parent));
                    assert forall|j: int| 0 <= j < updated[i].body.len() implies char_absent(
                        #[trigger] updated[i].body[j],
                        '%',
                    ) by {
                        if j < parent.body.len() {
                            assert(updated[i].body[j] == parent.body[j]);
                        } else {
                            assert(updated[i].body[j] == rendered);
                        }
                    }
                }
            }
        }
        lemma_end_scope_no_pct(updated, index);
    }
}

/// The text of an expression contains no `%` when its atoms contain none.
pub proof fn lemma_expr_no_pct(e: Expr)
    requires
        expr_atoms_avoid(e, '%'),
    ensures
        crate::transcode::spec_transcode_expr(e) matches Ok(t) ==> char_absent(t, '%'),
    decreases e, 3nat, 0nat,
{
    match e {
        Expr::IntegerConstant(i) => {
            lemma_dec_int_no_pct(i as int);
        },
        Expr::FnCall(call) => {
            lemma_call_no_pct(call);
        },
        _ => {},
    }
}

/// The argument text of a call contains no `%` when the atoms contain
/// none.
pub proof fn lemma_args_no_pct(call: Call, i: int)
    requires
        args_atoms_avoid(call, '%', i),
        0 <= i <= call.args.len(),
    ensures
        crate::transcode::spec_args_text(call, i) matches Ok(t) ==> char_absent(t, '%'),
    decreases call, 1nat, i,
{
    reveal_strlit(" ");
    if 0 < i {
        lemma_args_no_pct(call, i - 1);
        match crate::transcode::spec_args_text(call, i - 1) {
            Ok(sofar) => {
                let piece = match call.args[i - 1] {
                    Expr::Stack(k) => if k >= call.constants.len() {
                        Err(crate::ast::ErrorModel::StackSlotOutOfRange)
                    } else {
                        crate::transcode::spec_constant_text(call.constants[k as int])
                    },
                    _ => crate::transcode::spec_transcode_expr(call.args[i - 1]),
                };
                match piece {
                    Ok(p) => {
                        match call.args[i - 1] {
                            Expr::Stack(k) => {
                                if k < call.constants.len() {
                                    match call.constants[k as int] {
                                        Constant::Int(v) => {
                                            lemma_dec_int_no_pct(v as int);
                                        },
                                        Constant::Unsupported(_) => {},
                                    }
                                }
                            },
                            _ => {
                                lemma_expr_no_pct(call.args[i - 1]);
                            },
                        }
                        assert(char_absent(" "@, '%'));
                        lemma_char_absent_concat(sofar, p, '%');
                        lemma_char_absent_concat(sofar + p, " "@, '%');
                    },
                    Err(_) => {},
                }
            },
            Err(_) => {},
        }
    }
}

/// The text of a call contains no `%` when its atoms contain none: the
/// operator `%` itself is renamed to `mod` before it is emitted.
pub proof fn lemma_call_no_pct(call: Call)
    requires
        call_atoms_avoid(call, '%'),
    ensures
        crate::transcode::spec_transcode_call(call) matches Ok(t) ==> char_absent(t, '%'),
    decreases call, 2nat, 0nat,
{
    lemma_args_no_pct(call, call.args.len() as int);
    match crate::transcode::spec_args_text(call, call.args.len() as int) {
        Ok(args) => {
            reveal_strlit("( ");
            reveal_strlit("bl_");
            reveal_strlit("_");
            reveal_strlit(" ");
            reveal_strlit(")");
            let prefix = crate::transcode::spec_namespace_prefix(call.namespace);
            assert(char_absent(prefix, '%')) by {
                match call.namespace {
                    Some(ns) => {
                        assert(char_absent("bl_"@, '%'));
                        assert(char_absent("_"@, '%'));
                        lemma_char_absent_concat("bl_"@, ns@, '%');
                        lemma_char_absent_concat("bl_"@ + ns@, "_"@, '%');
                    },
                    None => {},
                }
            }
            let renamed = crate::transcode::spec_rename(call.name@);
            assert(char_absent("( "@, '%'));
            assert(char_absent(" "@, '%'));
            assert(char_absent(")"@, '%'));
            lemma_char_absent_concat("( "@, prefix, '%');
            lemma_char_absent_concat("( "@ + prefix, renamed, '%');
            lemma_char_absent_concat("( "@ + prefix + renamed, " "@, '%');
            lemma_char_absent_concat("( "@ + prefix + renamed + " "@, args, '%');
            lemma_char_absent_concat("( "@ + prefix + renamed + " "@ + args, ")"@, '%');
        },
        Err(_) => {},
    }
}

/// The scopes a statement leaves open and the text it returns contain no
/// `%` when its atoms contain none.
pub proof fn lemma_stmt_no_pct(stack: Seq<ScopeModel>, s: Stmt)
    requires
        stack.len() > 0,
        stack_no_pct(stack),
        stmt_atoms_avoid(s, '%'),
    ensures
        spec_transcode_stmt(stack, s) matches Ok(pair) ==> stack_no_pct(pair.0) && char_absent(
            pair.1,
            '%',
        ),
    decreases s, 3nat, 0nat,
{
    match s {
        Stmt::Var(value, name) => {
            lemma_expr_no_pct(value);
            match crate::transcode::spec_transcode_expr(value) {
                Ok(v) => {
                    reveal_strlit("let* (( ");
                    reveal_strlit(" ");
                    reveal_strlit(" ))");
                    assert(char_absent("let* (( "@, '%'));
                    assert(char_absent(" "@, '%'));
                    assert(char_absent(" ))"@, '%'));
                    lemma_char_absent_concat("let* (( "@, name@, '%');
                    lemma_char_absent_concat("let* (( "@ + name@, " "@, '%');
                    lemma_char_absent_concat("let* (( "@ + name@ + " "@, v, '%');
                    lemma_char_absent_concat("let* (( "@ + name@ + " "@ + v, " ))"@, '%');
                    lemma_push_scope_no_pct(stack, "let* (( "@ + name@ + " "@ + v + " ))"@);
                },
                Err(_) => {},
            }
        },
        Stmt::FnCall(call) => {
            lemma_call_no_pct(call);
        },
        Stmt::For(range, var, body) => {
            match spec_get_range(range) {
                Ok(pair) => {
                    if pair.0 == 0 {
                        reveal_strlit("dotimes (");
                        reveal_strlit(" ");
                        reveal_strlit(")");
                        assert(char_absent("dotimes ("@, '%'));
                        assert(char_absent(" "@, '%'));
                        assert(char_absent(")"@, '%'));
                        lemma_dec_int_no_pct(pair.1 as int);
                        lemma_char_absent_concat("dotimes ("@, var@, '%');
                        lemma_char_absent_concat("dotimes ("@ + var@, " "@, '%');
                        lemma_char_absent_concat(
                            "dotimes ("@ + var@ + " "@,
                            spec_dec_int(pair.1 as int),
                            '%',
                        );
                        lemma_char_absent_concat(
                            "dotimes ("@ + var@ + " "@ + spec_dec_int(pair.1 as int),
                            ")"@,
                            '%',
                        );
                        let header = "dotimes ("@ + var@ + " "@ + spec_dec_int(pair.1 as int)
                            + ")"@;
                        lemma_push_scope_no_pct(stack, header);
                        let opened = stack.push(ScopeModel { header, body: Seq::empty() });
                        lemma_block_no_pct(opened, body@, body@.len() as int);
                        match spec_block_prefix(opened, body@, body@.len() as int) {
                            Ok(full) => {
                                lemma_block_stack_len(opened, body@, body@.len() as int);
                                lemma_end_scope_no_pct(full, stack.len() as int);
                            },
                            Err(_) => {},
                        }
                    }
                },
                Err(_) => {},
            }
        },
        Stmt::Loop(body) => {
            reveal_strlit("loop");
            assert(char_absent("loop"@, '%'));
            lemma_push_scope_no_pct(stack, "loop"@);
            let opened = stack.push(ScopeModel { header: "loop"@, body: Seq::empty() });
            lemma_block_no_pct(opened, body@, body@.len() as int);
            match spec_block_prefix(opened, body@, body@.len() as int) {
                Ok(full) => {
                    lemma_block_stack_len(opened, body@, body@.len() as int);
                    lemma_end_scope_no_pct(full, stack.len() as int);
                },
                Err(_) => {},
            }
        },
        Stmt::If(cond, body) => {
            lemma_expr_no_pct(cond);
            match crate::transcode::spec_transcode_expr(cond) {
                Ok(cv) => {
                    reveal_strlit("if ");
                    assert(char_absent("if "@, '%'));
                    lemma_char_absent_concat("if "@, cv, '%');
                    lemma_push_scope_no_pct(stack, "if "@ + cv);
                    let opened = stack.push(ScopeModel { header: "if "@ + cv, body: Seq::empty() });
                    lemma_block_no_pct(opened, body@, body@.len() as int);
                    match spec_block_prefix(opened, body@, body@.len() as int) {
                        Ok(full) => {
                            lemma_block_stack_len(opened, body@, body@.len() as int);
                            lemma_end_scope_no_pct(full, stack.len() as int);
                        },
                        Err(_) => {},
                    }
                },
                Err(_) => {},
            }
        },
        Stmt::Break => {
            reveal_strlit("( return )");
            assert(char_absent("( return )"@, '%'));
        },
        Stmt::Unsupported(_) => {},
    }
}

/// A block keeps the stack `%`-free when every statement's atoms contain
/// no `%`.
pub proof fn lemma_block_no_pct(stack: Seq<ScopeModel>, stmts: Seq<Stmt>, i: int)
    requires
        stack.len() > 0,
        stack_no_pct(stack),
        block_atoms_avoid(stmts, '%', i),
        0 <= i <= stmts.len(),
    ensures
        spec_block_prefix(stack, stmts, i) matches Ok(st) ==> stack_no_pct(st),
    decreases stmts, 1nat, i,
{
    if 0 < i {
        lemma_block_no_pct(stack, stmts, i - 1);
        match spec_block_prefix(stack, stmts, i - 1) {
            Ok(st) => {
                lemma_block_stack_len(stack, stmts, i - 1);
                lemma_stmt_no_pct(st, stmts[i - 1]);
                match spec_transcode_stmt(st, stmts[i - 1]) {
                    Ok(pair) => {
                        lemma_stmt_stack_len(st, stmts[i - 1]);
                        let added = spec_add_to_scope(pair.0, pair.1);
                        assert(stack_no_pct(added)) by {
                            if pair.1.len() != 0 {
                                let top = pair.0.last();
                                assert forall|j: int| 0 <= j < added.len() implies scope_no_pct(
                                    #[trigger] added[j],
                                ) by {
                                    if j < added.len() - 1 {
                                        assert(added[j] == pair.0[j]);
                                    } else {
                                        assert(scope_no_pct(top));
                                        assert forall|m: int|
                                            0 <= m < added[j].body.len() implies char_absent(
                                            #[trigger] added[j].body[m],
                                            '%',
                                        ) by {
                                            if m < top.body.len() {
                                                assert(added[j].body[m] == top.body[m]);
                                            } else {
                                                assert(added[j].body[m] == pair.1);
                                            }
                                        }
                                    }
                                }
                            }
                        }
                    },
                    Err(_) => {},
                }
            },
            Err(_) => {},
        }
    }
}

/// Renames are applied: for every program whose atoms contain no `%` —
/// the operator `%` itself is renamed to `mod` before it is emitted — no
/// `%` appears in a successfully transcoded program.
pub proof fn lemma_transcode_no_percent(prog: Seq<Stmt>)
    requires
        program_atoms_avoid(prog, '%'),
    ensures
        spec_transcode_program(prog) matches Ok(out) ==> char_absent(out, '%'),
{
    let root = seq![ScopeModel { header: "let* ()"@, body: Seq::empty() }];
    reveal_strlit("let* ()");
    assert(char_absent("let* ()"@, '%'));
    assert(stack_no_pct(root)) by {
        assert(scope_no_pct(root[0]));
    }
    lemma_block_no_pct(root, prog, prog.len() as int);
    match spec_block_prefix(root, prog, prog.len() as int) {
        Ok(full) => {
            lemma_block_stack_len(root, prog, prog.len() as int);
            lemma_end_scope_no_pct(full, 0);
        },
        Err(_) => {},
    }
}

/// `p` is the leading text of `s`.
pub open spec fn has_prefix(s: Seq<char>, p: Seq<char>) -> bool {
    p.len() <= s.len() && s.subrange(0, p.len() as int) == p
}

/// Closing scopes down to `index` keeps the headers of the scopes that
/// stay open, and the returned text renders scope `index` under its own
/// header.
proof fn lemma_end_scope_headers(stack: Seq<ScopeModel>, index: int)
    requires
        0 <= index < stack.len(),
    ensures
        forall|j: int|
            0 <= j < index ==> #[trigger] spec_end_scope(stack, index).0[j].header
                == stack[j].header,
        exists|b: Seq<Seq<char>>|
            spec_end_scope(stack, index).1 == spec_render_scope(
                ScopeModel { header: stack[index].header, body: b },
            ),
    decreases stack.len() - index,
{
    lemma_end_scope_len(stack, index);
    let rendered = spec_render_scope(stack.last());
    let popped = stack.drop_last();
    if popped.len() <= index {
        assert(stack.last() == stack[index]);
        let b = stack[index].body;
        assert(spec_end_scope(stack, index).1 == spec_render_scope(
            ScopeModel { header: stack[index].header, body: b },
        ));
    } else {
        let parent = popped.last();
        let updated = popped.update(
            popped.len() - 1,
            ScopeModel { header: parent.header, body: parent.body.push(rendered) },
        );
        assert(forall|j: int| 0 <= j < updated.len() ==> #[trigger] updated[j].header
            == stack[j].header);
        lemma_end_scope_headers(updated, index);
        let b = choose|b: Seq<Seq<char>>|
            spec_end_scope(updated, index).1 == spec_render_scope(
                ScopeModel { header: updated[index].header, body: b },
            );
        assert(spec_end_scope(stack, index).1 == spec_render_scope(
            ScopeModel { header: stack[index].header, body: b },
        ));
    }
}

/// A statement keeps the header of every scope that was open when it
/// started.
proof fn lemma_stmt_headers(stack: Seq<ScopeModel>, s: Stmt, j: int)
    requires
        0 <= j < stack.len(),
    ensures
        spec_transcode_stmt(stack, s) matches Ok(pair) ==> j < pair.0.len() && pair.0[j].header
            == stack[j].header,
    decreases s, 3nat, 0nat,
{
    lemma_stmt_stack_len(stack, s);
    match s {
        Stmt::For(range, var, body) => {
            match spec_get_range(range) {
                Ok(pair) => {
                    if pair.0 == 0 {
                        let opened = stack.push(
                            ScopeModel {
                                header: "dotimes ("@ + var@ + " "@ + spec_dec_int(pair.1 as int)
                                    + ")"@,
                                body: Seq::empty(),
                            },
                        );
                        lemma_block_headers(opened, body@, body@.len() as int, j);
                        match spec_block_prefix(opened, body@, body@.len() as int) {
                            Ok(full) => {
                                lemma_block_stack_len(opened, body@, body@.len() as int);
                                lemma_end_scope_headers(full, stack.len() as int);
                                lemma_end_scope_len(full, stack.len() as int);
                            },
                            Err(_) => {},
                        }
                    }
                },
                Err(_) => {},
            }
        },
        Stmt::Loop(body) => {
            let opened = stack.push(ScopeModel { header: "loop"@, body: Seq::empty() });
            lemma_block_headers(opened, body@, body@.len() as int, j);
            match spec_block_prefix(opened, body@, body@.len() as int) {
                Ok(full) => {
                    lemma_block_stack_len(opened, body@, body@.len() as int);
                    lemma_end_scope_headers(full, stack.len() as int);
                    lemma_end_scope_len(full, stack.len() as int);
                },
                Err(_) => {},
            }
        },
        Stmt::If(cond, body) => {
            match spec_transcode_expr(cond) {
                Ok(cv) => {
                    let opened = stack.push(
                        ScopeModel { header: "if "@ + cv, body: Seq::empty() },
                    );
                    lemma_block_headers(opened, body@, body@.len() as int, j);
                    match spec_block_prefix(opened, body@, body@.len() as int) {
                        Ok(full) => {
                            lemma_block_stack_len(opened, body@, body@.len() as int);
                            lemma_end_scope_headers(full, stack.len() as int);
                            lemma_end_scope_len(full, stack.len() as int);
                        },
                        Err(_) => {},
                    }
                },
                Err(_) => {},
            }
        },
        _ => {},
    }
}

/// A block keeps the header of every scope that was open when it started.
proof fn lemma_block_headers(stack: Seq<ScopeModel>, stmts: Seq<Stmt>, i: int, j: int)
    requires
        0 <= j < stack.len(),
        0 <= i <= stmts.len(),
    ensures
        spec_block_prefix(stack, stmts, i) matches Ok(st) ==> j < st.len() && st[j].header
            == stack[j].header,
    decreases stmts, 1nat, i,
{
    if 0 < i {
        lemma_block_headers(stack, stmts, i - 1, j);
        match spec_block_prefix(stack, stmts, i - 1) {
            Ok(st) => {
                lemma_stmt_headers(st, stmts[i - 1], j);
                match spec_transcode_stmt(st, stmts[i - 1]) {
                    Ok(pair) => {
                        lemma_stmt_stack_len(st, stmts[i - 1]);
                        let added = spec_add_to_scope(pair.0, pair.1);
                        assert(j < added.len() && added[j].header == pair.0[j].header);
                    },
                    Err(_) => {},
                }
            },
            Err(_) => {},
        }
    }
}

/// Every `let*` form contains exactly one binding pair: a binding
/// statement opens one scope whose header is `let* (( <name> <value> ))`
/// — a single pair — and emits no text of its own; the scope closes only
/// with its enclosing block.
pub proof fn lemma_var_binding_pair(stack: Seq<ScopeModel>, value: Expr, name: String)
    ensures
        spec_transcode_expr(value) matches Ok(v) ==> spec_transcode_stmt(
            stack,
            Stmt::Var(value, name),
        ) == Ok::<(Seq<ScopeModel>, Seq<char>), ErrorModel>(
            (
                stack.push(
                    ScopeModel {
                        header: "let* (( "@ + name@ + " "@ + v + " ))"@,
                        body: Seq::empty(),
                    },
                ),
                Seq::<char>::empty(),
            ),
        ),
{
}

/// Every `dotimes` form carries exactly the `(var n)` header with the
/// literal bound `n`: the text of a transcoded `for` over `range(0, n)`
/// begins with `( dotimes (<var> <n>) `, and a non-zero lower bound is
/// refused.
pub proof fn lemma_for_dotimes_header(
    stack: Seq<ScopeModel>,
    range: Expr,
    var: String,
    body: Vec<Stmt>,
)
    ensures
        (spec_get_range(range) is Ok && spec_get_range(range)->Ok_0.0 == 0 && spec_transcode_stmt(
            stack,
            Stmt::For(range, var, body),
        ) is Ok) ==> has_prefix(
            spec_transcode_stmt(stack, Stmt::For(range, var, body))->Ok_0.1,
            "( "@ + ("dotimes ("@ + var@ + " "@ + spec_dec_int(
                spec_get_range(range)->Ok_0.1 as int,
            ) + ")"@) + " \n"@,
        ),
        spec_get_range(range) matches Ok(b) && b.0 != 0 ==> spec_transcode_stmt(
            stack,
            Stmt::For(range, var, body),
        ) == Err::<(Seq<ScopeModel>, Seq<char>), ErrorModel>(ErrorModel::NonZeroLowerBound),
{
    match spec_get_range(range) {
        Ok(b) => {
            if b.0 == 0 {
                let header = "dotimes ("@ + var@ + " "@ + spec_dec_int(b.1 as int) + ")"@;
                let opened = stack.push(ScopeModel { header, body: Seq::empty() });
                match spec_block_prefix(opened, body@, body@.len() as int) {
                    Ok(full) => {
                        lemma_block_stack_len(opened, body@, body@.len() as int);
                        lemma_block_headers(opened, body@, body@.len() as int, stack.len() as int);
                        lemma_end_scope_headers(full, stack.len() as int);
                        let rb = choose|rb: Seq<Seq<char>>|
                            spec_end_scope(full, stack.len() as int).1 == spec_render_scope(
                                ScopeModel { header: full[stack.len() as int].header, body: rb },
                            );
                        let text = spec_end_scope(full, stack.len() as int).1;
                        let p = "( "@ + header + " \n"@;
                        assert(text =~= p + (spec_indent_prefix(rb, rb.len() as int) + ")"@));
                        assert(has_prefix(text, p)) by {
                            assert(text.subrange(0, p.len() as int) =~= p);
                        }
                    },
                    Err(_) => {},
                }
            }
        },
        Err(_) => {},
    }
}

/// Namespaced calls carry exactly one `bl_<ns>_` prefix and unnamespaced
/// calls none, and the call name reaches the output only through the
/// renaming map.
pub proof fn lemma_call_prefix(c: Call)
    ensures
        spec_args_text(c, c.args.len() as int) matches Ok(args) ==> spec_transcode_call(c)
            == Ok::<Seq<char>, ErrorModel>(
            "( "@ + spec_namespace_prefix(c.namespace) + spec_rename(c.name@) + " "@ + args + ")"@,
        ),
        c.namespace matches Some(ns) ==> spec_namespace_prefix(c.namespace) == "bl_"@ + ns@ + "_"@,
        c.namespace is None ==> spec_namespace_prefix(c.namespace) == Seq::<char>::empty(),
{
}

} // verus!
