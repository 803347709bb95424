//! Transcoding of script syntax trees to uLisp S-expressions.

use vstd::prelude::*;

use crate::ast::{Call, Constant, ErrorModel, Expr, Stmt, TranscodeError};
use crate::numfmt::{i64_to_dec, spec_dec_int};
use crate::scope::{
    spec_add_to_scope, spec_end_scope, lemma_end_scope_len, ScopeModel, ScopeStack,
};

verus! {

/// Rename a scripting operator or function name to its uLisp counterpart:
/// `%` becomes `mod` and `==` becomes `eq`; every other name is unchanged.
pub open spec fn spec_rename(name: Seq<char>) -> Seq<char> {
    if name == "%"@ {
        "mod"@
    } else if name == "=="@ {
        "eq"@
    } else {
        name
    }
}

/// Rename a scripting function or operator name to uLisp:
/// `%` becomes `mod`, `==` becomes `eq`.
pub fn rename_function(name: &str) -> (r: String)
    ensures
        r@ == spec_rename(name@),
{
    let owned = String::from_str(name);
    if owned == String::from_str("%") {
        String::from_str("mod")
    } else if owned == String::from_str("==") {
        String::from_str("eq")
    } else {
        owned
    }
}

/// The call prefix for an optional namespace: `bl_<ns>_` when present,
/// empty otherwise.
pub open spec fn spec_namespace_prefix(ns: Option<String>) -> Seq<char> {
    match ns {
        Some(n) => "bl_"@ + n@ + "_"@,
        None => Seq::empty(),
    }
}

/// The literal text of a constant table entry: decimal digits for an
/// integer, an error for any other kind.
pub open spec fn spec_constant_text(c: Constant) -> Result<Seq<char>, ErrorModel> {
    match c {
        Constant::Int(v) => Ok(spec_dec_int(v as int)),
        Constant::Unsupported(_) => Err(ErrorModel::NonIntegerConstant),
    }
}

/// The uLisp text of an expression: decimal digits for an integer literal,
/// the name itself for a variable, the rendered call for a nested call.
/// A bare stack slot or an untranslated kind is an error.
pub open spec fn spec_transcode_expr(e: Expr) -> Result<Seq<char>, ErrorModel>
    decreases e, 3nat, 0nat,
{
    match e {
        Expr::IntegerConstant(i) => Ok(spec_dec_int(i as int)),
        Expr::Variable(name) => Ok(name@),
        Expr::FnCall(c) => spec_transcode_call(c),
        Expr::Stack(_) => Err(ErrorModel::UnsupportedExpr("stack slot"@)),
        Expr::Unsupported(kind) => Err(ErrorModel::UnsupportedExpr(kind@)),
    }
}

/// The concatenated text of the first `i` arguments of a call, each
/// followed by a single space. A stack-slot argument is replaced by the
/// literal form of the constant it references.
pub open spec fn spec_args_text(c: Call, i: int) -> Result<Seq<char>, ErrorModel>
    decreases c, 1nat, i,
{
    if i <= 0 || i > c.args.len() {
        Ok(Seq::empty())
    } else {
        match spec_args_text(c, i - 1) {
            Err(e) => Err(e),
            Ok(sofar) => {
                let piece = match c.args[i - 1] {
                    Expr::Stack(k) => if k >= c.constants.len() {
                        Err(ErrorModel::StackSlotOutOfRange)
                    } else {
                        spec_constant_text(c.constants[k as int])
                    },
                    _ => spec_transcode_expr(c.args[i - 1]),
                };
                match piece {
                    Err(e) => Err(e),
                    Ok(p) => Ok(sofar + p + " "@),
                }
            },
        }
    }
}

/// The uLisp text of a call: `( <prefix><renamed name> <arg>... )`, where
/// every argument carries one trailing space.
pub open spec fn spec_transcode_call(c: Call) -> Result<Seq<char>, ErrorModel>
    decreases c, 2nat, 0nat,
{
    match spec_args_text(c, c.args.len() as int) {
        Err(e) => Err(e),
        Ok(args) => Ok(
            "( "@ + spec_namespace_prefix(c.namespace) + spec_rename(c.name@) + " "@ + args
                + ")"@,
        ),
    }
}

/// Once some argument fails, the whole argument list fails the same way.
pub proof fn lemma_args_err_persists(c: Call, i: int, j: int)
    requires
        0 <= i <= j <= c.args.len(),
        spec_args_text(c, i) is Err,
    ensures
        spec_args_text(c, j) == spec_args_text(c, i),
    decreases j - i,
{
    if j > i {
        lemma_args_err_persists(c, i, j - 1);
    }
}

/// The bounds of a `for` iterator: the expression must be a call named
/// `range` with exactly two stack-slot arguments referencing integer
/// constants; the result is that pair of integers.
pub open spec fn spec_get_range(e: Expr) -> Result<(i64, i64), ErrorModel> {
    match e {
        Expr::FnCall(c) => if c.name@ != "range"@ {
            Err(ErrorModel::MalformedRange)
        } else if c.args.len() != 2 {
            Err(ErrorModel::MalformedRange)
        } else {
            match c.args[0] {
                Expr::Stack(i) => match c.args[1] {
                    Expr::Stack(j) => if i >= c.constants.len() || j >= c.constants.len() {
                        Err(ErrorModel::MalformedRange)
                    } else {
                        match c.constants[i as int] {
                            Constant::Int(lo) => match c.constants[j as int] {
                                Constant::Int(hi) => Ok((lo, hi)),
                                Constant::Unsupported(_) => Err(ErrorModel::MalformedRange),
                            },
                            Constant::Unsupported(_) => Err(ErrorModel::MalformedRange),
                        }
                    },
                    _ => Err(ErrorModel::MalformedRange),
                },
                _ => Err(ErrorModel::MalformedRange),
            }
        },
        _ => Err(ErrorModel::MalformedRange),
    }
}

/// The returned text agrees with the given specification result: equal
/// texts on success, equal errors on failure.
pub open spec fn text_result_matches(
    r: Result<String, TranscodeError>,
    s: Result<Seq<char>, ErrorModel>,
) -> bool {
    match (r, s) {
        (Ok(a), Ok(b)) => a@ == b,
        (Err(a), Err(b)) => a@ == b,
        _ => false,
    }
}

/// Transcode an expression to its uLisp text.
pub fn transcode_expr(e: &Expr) -> (r: Result<String, TranscodeError>)
    ensures
        text_result_matches(r, spec_transcode_expr(*e)),
    decreases *e, 3nat, 0nat,
{
    match e {
        Expr::IntegerConstant(i) => Ok(i64_to_dec(*i)),
        Expr::Variable(name) => Ok(String::from_str(name.as_str())),
        Expr::FnCall(c) => transcode_fncall(c),
        Expr::Stack(_) => Err(TranscodeError::UnsupportedExpr(String::from_str("stack slot"))),
        Expr::Unsupported(kind) => Err(
            TranscodeError::UnsupportedExpr(String::from_str(kind.as_str())),
        ),
    }
}

/// Transcode a call to its uLisp text: `( <prefix><renamed name> <arg>... )`.
pub fn transcode_fncall(c: &Call) -> (r: Result<String, TranscodeError>)
    ensures
        text_result_matches(r, spec_transcode_call(*c)),
    decreases *c, 2nat, 0nat,
{
    let mut args_text = String::new();
    let n = c.args.len();
    let mut k: usize = 0;
    proof {
        assert(args_text@ =~= Seq::<char>::empty());
    }
    while k < n
        invariant
            n == c.args.len(),
            k <= n,
            spec_args_text(*c, k as int) == Ok::<Seq<char>, ErrorModel>(args_text@),
        decreases n - k,
    {
        let piece: Result<String, TranscodeError> = match &c.args[k] {
            Expr::Stack(slot) => if *slot >= c.constants.len() {
                Err(TranscodeError::StackSlotOutOfRange)
            } else {
                match &c.constants[*slot] {
                    Constant::Int(v) => Ok(i64_to_dec(*v)),
                    Constant::Unsupported(_) => Err(TranscodeError::NonIntegerConstant),
                }
            },
            _ => transcode_expr(&c.args[k]),
        };
        match piece {
            Err(e) => {
                proof {
                    assert(spec_args_text(*c, k + 1) == Err::<Seq<char>, ErrorModel>(e@));
                    lemma_args_err_persists(*c, k + 1, n as int);
                    assert(spec_transcode_call(*c) == Err::<Seq<char>, ErrorModel>(e@));
                }
                return Err(e);
            },
            Ok(p) => {
                args_text.append(p.as_str());
                args_text.append(" ");
                k = k + 1;
            },
        }
    }
    let mut out = String::from_str("( ");
    match &c.namespace {
        Some(ns) => {
            out.append("bl_");
            out.append(ns.as_str());
            out.append("_");
        },
        None => {},
    }
    let renamed = rename_function(c.name.as_str());
    out.append(renamed.as_str());
    out.append(" ");
    out.append(args_text.as_str());
    out.append(")");
    proof {
        assert(out@ =~= "( "@ + spec_namespace_prefix(c.namespace) + spec_rename(c.name@) + " "@
            + args_text@ + ")"@);
    }
    Ok(out)
}

/// Whether an extracted range agrees with the specification result.
pub open spec fn range_result_matches(
    r: Result<(i64, i64), TranscodeError>,
    s: Result<(i64, i64), ErrorModel>,
) -> bool {
    match (r, s) {
        (Ok(a), Ok(b)) => a == b,
        (Err(a), Err(b)) => a@ == b,
        _ => false,
    }
}

/// Extract the `[lo, hi]` bounds of a `for` iterator expression, which
/// must be `range(lo, hi)` with integer literal arguments.
pub fn get_range(e: &Expr) -> (r: Result<(i64, i64), TranscodeError>)
    ensures
        range_result_matches(r, spec_get_range(*e)),
{
    match e {
        Expr::FnCall(c) => {
            if !(c.name == String::from_str("range")) {
                return Err(TranscodeError::MalformedRange);
            }
            if c.args.len() != 2 {
                return Err(TranscodeError::MalformedRange);
            }
            match &c.args[0] {
                Expr::Stack(i) => match &c.args[1] {
                    Expr::Stack(j) => {
                        if *i >= c.constants.len() || *j >= c.constants.len() {
                            return Err(TranscodeError::MalformedRange);
                        }
                        match &c.constants[*i] {
                            Constant::Int(lo) => match &c.constants[*j] {
                                Constant::Int(hi) => Ok((*lo, *hi)),
                                Constant::Unsupported(_) => Err(TranscodeError::MalformedRange),
                            },
                            Constant::Unsupported(_) => Err(TranscodeError::MalformedRange),
                        }
                    },
                    _ => Err(TranscodeError::MalformedRange),
                },
                _ => Err(TranscodeError::MalformedRange),
            }
        },
        _ => Err(TranscodeError::MalformedRange),
    }
}

/// The effect of one statement: the new scope stack and the text to append
/// to the current scope (empty for a `let`, whose scope stays open until
/// the enclosing block ends).
pub open spec fn spec_transcode_stmt(stack: Seq<ScopeModel>, s: Stmt) -> Result<
    (Seq<ScopeModel>, Seq<char>),
    ErrorModel,
>
    decreases s, 3nat, 0nat,
{
    match s {
        Stmt::Var(value, name) => match spec_transcode_expr(value) {
            Err(e) => Err(e),
            Ok(v) => Ok(
                (
                    stack.push(
                        ScopeModel {
                            header: "let* (( "@ + name@ + " "@ + v + " ))"@,
                            body: Seq::empty(),
                        },
                    ),
                    Seq::empty(),
                ),
            ),
        },
        Stmt::FnCall(c) => match spec_transcode_call(c) {
            Err(e) => Err(e),
            Ok(v) => Ok((stack, v)),
        },
        Stmt::For(range, var, body) => match spec_get_range(range) {
            Err(e) => Err(e),
            Ok((lo, hi)) => if lo != 0 {
                Err(ErrorModel::NonZeroLowerBound)
            } else {
                let opened = stack.push(
                    ScopeModel {
                        header: "dotimes ("@ + var@ + " "@ + spec_dec_int(hi as int) + ")"@,
                        body: Seq::empty(),
                    },
                );
                match spec_block_prefix(opened, body@, body@.len() as int) {
                    Err(e) => Err(e),
                    Ok(full) => Ok(spec_end_scope(full, stack.len() as int)),
                }
            },
        },
        Stmt::Loop(body) => {
            let opened = stack.push(ScopeModel { header: "loop"@, body: Seq::empty() });
            match spec_block_prefix(opened, body@, body@.len() as int) {
                Err(e) => Err(e),
                Ok(full) => Ok(spec_end_scope(full, stack.len() as int)),
            }
        },
        Stmt::If(cond, body) => match spec_transcode_expr(cond) {
            Err(e) => Err(e),
            Ok(cv) => {
                let opened = stack.push(ScopeModel { header: "if "@ + cv, body: Seq::empty() });
                match spec_block_prefix(opened, body@, body@.len() as int) {
                    Err(e) => Err(e),
                    Ok(full) => Ok(spec_end_scope(full, stack.len() as int)),
                }
            },
        },
        Stmt::Break => Ok((stack, "( return )"@)),
        Stmt::Unsupported(kind) => Err(ErrorModel::UnsupportedStmt(kind@)),
    }
}

/// The scope stack after transcoding the first `i` statements of a block,
/// appending each statement's text to the current scope.
pub open spec fn spec_block_prefix(
    stack: Seq<ScopeModel>,
    stmts: Seq<Stmt>,
    i: int,
) -> Result<Seq<ScopeModel>, ErrorModel>
    decreases stmts, 1nat, i,
{
    if i <= 0 || i > stmts.len() {
        Ok(stack)
    } else {
        match spec_block_prefix(stack, stmts, i - 1) {
            Err(e) => Err(e),
            Ok(st) => match spec_transcode_stmt(st, stmts[i - 1]) {
                Err(e) => Err(e),
                Ok(pair) => Ok(spec_add_to_scope(pair.0, pair.1)),
            },
        }
    }
}

/// A statement leaves at least as many scopes open as it found: it closes
/// only scopes it opened itself.
pub proof fn lemma_stmt_stack_len(stack: Seq<ScopeModel>, s: Stmt)
    ensures
        spec_transcode_stmt(stack, s) matches Ok(pair) ==> pair.0.len() >= stack.len(),
    decreases s, 3nat, 0nat,
{
    match s {
        Stmt::For(range, var, body) => {
            match spec_get_range(range) {
                Ok(pair) => {
                    if pair.0 == 0 {
                        let opened = stack.push(
                            ScopeModel {
                                header: "dotimes ("@ + var@ + " "@ + spec_dec_int(pair.1 as int)
                                    + ")"@,
                                body: Seq::empty(),
                            },
                        );
                        lemma_block_stack_len(opened, body@, body@.len() as int);
                        match spec_block_prefix(opened, body@, body@.len() as int) {
                            Ok(full) => lemma_end_scope_len(full, stack.len() as int),
                            Err(_) => {},
                        }
                    }
                },
                Err(_) => {},
            }
        },
        Stmt::Loop(body) => {
            let opened = stack.push(ScopeModel { header: "loop"@, body: Seq::empty() });
            lemma_block_stack_len(opened, body@, body@.len() as int);
            match spec_block_prefix(opened, body@, body@.len() as int) {
                Ok(full) => lemma_end_scope_len(full, stack.len() as int),
                Err(_) => {},
            }
        },
        Stmt::If(cond, body) => {
            match spec_transcode_expr(cond) {
                Ok(cv) => {
                    let opened = stack.push(
                        ScopeModel { header: "if "@ + cv, body: Seq::empty() },
                    );
                    lemma_block_stack_len(opened, body@, body@.len() as int);
                    match spec_block_prefix(opened, body@, body@.len() as int) {
                        Ok(full) => lemma_end_scope_len(full, stack.len() as int),
                        Err(_) => {},
                    }
                },
                Err(_) => {},
            }
        },
        _ => {},
    }
}

/// A block leaves at least as many scopes open as it found.
pub proof fn lemma_block_stack_len(stack: Seq<ScopeModel>, stmts: Seq<Stmt>, i: int)
    ensures
        spec_block_prefix(stack, stmts, i) matches Ok(st) ==> st.len() >= stack.len(),
    decreases stmts, 1nat, i,
{
    if 0 < i <= stmts.len() {
        lemma_block_stack_len(stack, stmts, i - 1);
        match spec_block_prefix(stack, stmts, i - 1) {
            Ok(st) => lemma_stmt_stack_len(st, stmts[i - 1]),
            Err(_) => {},
        }
    }
}

/// Once some statement fails, the whole block fails the same way.
pub proof fn lemma_block_err_persists(stack: Seq<ScopeModel>, stmts: Seq<Stmt>, i: int, j: int)
    requires
        0 <= i <= j <= stmts.len(),
        spec_block_prefix(stack, stmts, i) is Err,
    ensures
        spec_block_prefix(stack, stmts, j) == spec_block_prefix(stack, stmts, i),
    decreases j - i,
{
    if j > i {
        lemma_block_err_persists(stack, stmts, i, j - 1);
    }
}

/// Transcode one statement against the scope stack and return the text to
/// append to the current scope; a `let` opens a scope and returns empty
/// text, a loop or conditional opens, fills and closes its own scope.
pub fn transcode_stmt(stack: &mut ScopeStack, s: &Stmt) -> (r: Result<String, TranscodeError>)
    ensures
        ({
            let spec_r = spec_transcode_stmt(old(stack)@, *s);
            match r {
                Ok(out) => spec_r matches Ok(pair) && final(stack)@ == pair.0 && out@ == pair.1,
                Err(e) => spec_r matches Err(em) && e@ == em,
            }
        }),
    decreases *s, 3nat, 0nat,
{
    match s {
        Stmt::Var(value, name) => {
            match transcode_expr(value) {
                Err(e) => Err(e),
                Ok(v) => {
                    let mut header = String::from_str("let* (( ");
                    header.append(name.as_str());
                    header.append(" ");
                    header.append(v.as_str());
                    header.append(" ))");
                    stack.begin_scope(header.as_str());
                    Ok(String::new())
                },
            }
        },
        Stmt::FnCall(c) => transcode_fncall(c),
        Stmt::For(range, var, body) => {
            match get_range(range) {
                Err(e) => Err(e),
                Ok((lo, hi)) => {
                    if lo != 0 {
                        Err(TranscodeError::NonZeroLowerBound)
                    } else {
                        let mut header = String::from_str("dotimes (");
                        header.append(var.as_str());
                        header.append(" ");
                        let hi_text = i64_to_dec(hi);
                        header.append(hi_text.as_str());
                        header.append(")");
                        let index = stack.begin_scope(header.as_str());
                        match transcode_block(stack, body) {
                            Err(e) => Err(e),
                            Ok(_) => Ok(stack.end_scope(index)),
                        }
                    }
                },
            }
        },
        Stmt::Loop(body) => {
            let index = stack.begin_scope("loop");
            match transcode_block(stack, body) {
                Err(e) => Err(e),
                Ok(_) => Ok(stack.end_scope(index)),
            }
        },
        Stmt::If(cond, body) => {
            match transcode_expr(cond) {
                Err(e) => Err(e),
                Ok(cv) => {
                    let mut header = String::from_str("if ");
                    header.append(cv.as_str());
                    let index = stack.begin_scope(header.as_str());
                    match transcode_block(stack, body) {
                        Err(e) => Err(e),
                        Ok(_) => Ok(stack.end_scope(index)),
                    }
                },
            }
        },
        Stmt::Break => Ok(String::from_str("( return )")),
        Stmt::Unsupported(kind) => Err(
            TranscodeError::UnsupportedStmt(String::from_str(kind.as_str())),
        ),
    }
}

/// Transcode every statement of a block in order, appending each
/// statement's text to the current scope. The walk hands each statement
/// over exactly once, so no deduplication by source position is needed.
pub fn transcode_block(stack: &mut ScopeStack, stmts: &Vec<Stmt>) -> (r: Result<
    (),
    TranscodeError,
>)
    requires
        old(stack)@.len() > 0,
    ensures
        ({
            let spec_r = spec_block_prefix(old(stack)@, stmts@, stmts@.len() as int);
            match r {
                Ok(_) => spec_r matches Ok(st) && final(stack)@ == st && final(stack)@.len()
                    >= old(stack)@.len(),
                Err(e) => spec_r matches Err(em) && e@ == em,
            }
        }),
    decreases *stmts, 1nat, stmts@.len(),
{
    let n = stmts.len();
    let mut k: usize = 0;
    while k < n
        invariant
            n == stmts@.len(),
            k <= n,
            old(stack)@.len() > 0,
            stack@.len() >= old(stack)@.len(),
            spec_block_prefix(old(stack)@, stmts@, k as int) == Ok::<Seq<ScopeModel>, ErrorModel>(
                stack@,
            ),
        decreases n - k,
    {
        let ghost before = stack@;
        match transcode_stmt(stack, &stmts[k]) {
            Err(e) => {
                proof {
                    assert(spec_block_prefix(old(stack)@, stmts@, k + 1)
                        == Err::<Seq<ScopeModel>, ErrorModel>(e@));
                    lemma_block_err_persists(old(stack)@, stmts@, k + 1, n as int);
                }
                return Err(e);
            },
            Ok(out) => {
                proof {
                    lemma_stmt_stack_len(before, stmts@[k as int]);
                }
                stack.add_to_scope(out.as_str());
                k = k + 1;
            },
        }
    }
    Ok(())
}

/// The complete uLisp program for a script: the statements are transcoded
/// into a root `let* ()` scope, and closing the root renders the whole
/// nested program text.
pub open spec fn spec_transcode_program(prog: Seq<Stmt>) -> Result<Seq<char>, ErrorModel> {
    let root = seq![ScopeModel { header: "let* ()"@, body: Seq::empty() }];
    match spec_block_prefix(root, prog, prog.len() as int) {
        Err(e) => Err(e),
        Ok(full) => Ok(spec_end_scope(full, 0).1),
    }
}

/// Transcode a whole program using the given scope stack, which must be
/// empty and is empty again when the call returns: the root scope opened
/// here is also closed here, on failure by unwinding.
pub fn transcode_in(stack: &mut ScopeStack, program: &Vec<Stmt>) -> (r: Result<
    String,
    TranscodeError,
>)
    requires
        old(stack)@.len() == 0,
    ensures
        final(stack)@.len() == 0,
        text_result_matches(r, spec_transcode_program(program@)),
{
    let root = stack.begin_scope("let* ()");
    proof {
        assert(stack@ =~= seq![ScopeModel { header: "let* ()"@, body: Seq::empty() }]);
    }
    match transcode_block(stack, program) {
        Ok(_) => {
            let out = stack.end_scope(root);
            Ok(out)
        },
        Err(e) => {
            stack.clear();
            Err(e)
        },
    }
}

/// Transcode a whole program to its uLisp text: the statements are walked
/// in document order into a fresh root `let* ()` scope, and closing the
/// root renders the complete program.
pub fn transcode(program: &Vec<Stmt>) -> (r: Result<String, TranscodeError>)
    ensures
        text_result_matches(r, spec_transcode_program(program@)),
{
    let mut stack = ScopeStack::new();
    transcode_in(&mut stack, program)
}

} // verus!
