//! The call into rustpython that extraction makes: parsing a module, with each top-level
//! statement converted into a plain value of this library.
use vstd::prelude::*;

use rustpython_ast::{Arg, ArgWithDefault, Constant, Expr, Stmt};
use rustpython_parser::Parse;

use crate::extract::{statement_views, DefParameter, Statement, StatementModel};

verus! {

#[verifier::external_type_specification]
#[verifier::external_body]
pub struct ExTextRange(rustpython_parser::text_size::TextRange);

#[verifier::external_type_specification]
#[verifier::external_body]
#[verifier::reject_recursive_types(R)]
pub struct ExStmt<R>(rustpython_ast::Stmt<R>);

#[verifier::external_type_specification]
#[verifier::external_body]
#[verifier::reject_recursive_types(R)]
pub struct ExArg<R>(rustpython_ast::Arg<R>);

#[verifier::external_type_specification]
#[verifier::external_body]
#[verifier::reject_recursive_types(R)]
pub struct ExArgWithDefault<R>(rustpython_ast::ArgWithDefault<R>);

/// Whether rustpython's parser accepts the text as a Python module.
pub uninterp spec fn parses(code: Seq<char>) -> bool;

/// The top-level statements that rustpython's parser finds in the text, each converted
/// one for one by `statement_of`.
pub uninterp spec fn module_definitions(code: Seq<char>) -> Seq<StatementModel>;

/// Relies on `rustpython_parser::Parse` for `ast::Suite`: the top-level statements of a
/// module, each converted by `statement_of`, or none where the parser reports an error
/// (its error type lives in a crate that this one does not name, so only the failure is
/// passed on).
#[verifier::external_body]
pub(crate) fn parse_module(code: &str) -> (r: Option<Vec<Statement>>)
    ensures
        r is Some <==> parses(code@),
        r matches Some(v) ==> statement_views(v@) == module_definitions(code@),
{
    <Vec<Stmt> as Parse>::parse(code, "<module>").ok().map(
        |body| body.into_iter().map(statement_of).collect(),
    )
}

/// Relies on the fields of `rustpython_ast::StmtFunctionDef` and `Arguments`: a `def`
/// becomes its name, each statement of its body (see `string_literal`), and each of its
/// parameter lists, one for one; any other statement becomes `Other`.
#[verifier::external_body]
fn statement_of(stmt: Stmt) -> (r: Statement) {
    match stmt {
        Stmt::FunctionDef(f) => Statement::FunctionDef {
            name: String::from(f.name),
            body_literals: f.body.iter().map(string_literal).collect(),
            posonlyargs: f.args.posonlyargs.into_iter().map(parameter_of).collect(),
            args: f.args.args.into_iter().map(parameter_of).collect(),
            vararg: f.args.vararg.map(|a| collector_of(*a)),
            kwonlyargs: f.args.kwonlyargs.into_iter().map(parameter_of).collect(),
            kwarg: f.args.kwarg.map(|a| collector_of(*a)),
        },
        _ => Statement::Other,
    }
}

/// Relies on `rustpython_ast::Stmt::Expr` holding an `Expr::Constant` of `Constant::Str`:
/// the text of a statement that is a bare string literal; any other statement gives none.
#[verifier::external_body]
fn string_literal(stmt: &Stmt) -> (r: Option<String>) {
    match stmt {
        Stmt::Expr(e) => match e.value.as_ref() {
            Expr::Constant(c) => match &c.value {
                Constant::Str(s) => Some(s.clone()),
                _ => None,
            },
            _ => None,
        },
        _ => None,
    }
}

/// Relies on `rustpython_ast::Identifier::as_str` for the name, and on the `Display` of
/// `rustpython_ast::Expr` (its unparser) for the source text of the annotation and of the
/// default.
#[verifier::external_body]
fn parameter_of(a: ArgWithDefault) -> (r: DefParameter) {
    DefParameter {
        name: String::from(a.def.arg.as_str()),
        annotation: a.def.annotation.map(|e| e.to_string()),
        default: a.default.map(|e| e.to_string()),
    }
}

/// Relies on `rustpython_ast::Identifier::as_str` and on the `Display` of
/// `rustpython_ast::Expr`: a `*args` or `**kwargs` parameter, which takes no default.
#[verifier::external_body]
fn collector_of(a: Arg) -> (r: DefParameter) {
    DefParameter {
        name: String::from(a.arg.as_str()),
        annotation: a.annotation.map(|e| e.to_string()),
        default: None,
    }
}

} // verus!
