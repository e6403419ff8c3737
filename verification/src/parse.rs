//! Python source to the library's syntax tree, through `ruff_python_parser`.
//!
//! The parser's tree is carried over node for node: the nodes the analysis
//! has rules for keep their fields, and every other statement or expression
//! keeps its direct children in the order the source gives them (the order
//! of `ruff_python_ast`'s source-order walk). The carrying over is plain
//! conversion and is trusted, like the parse itself.

use vstd::prelude::*;

use ruff_python_ast::{
    Comprehension as PyComprehension, ElifElseClause as PyElif, ExceptHandler as PyHandler, ExprRef,
    InterpolatedStringElement as PyElement, Keyword as PyKeyword, MatchCase as PyCase, Parameters as PyParameters,
    ParameterWithDefault as PyWithDefault, Pattern as PyPattern, StmtRef, TypeParam as PyTypeParam,
    WithItem as PyWithItem,
};
use ruff_text_size::Ranged;

use crate::resolve::modules::parse_view;
use crate::syntax::{Alias, Arguments, Child, Expr, ExprContext, ExprKind, Parameter, Stmt, StmtKind, TextRange};

verus! {

#[verifier::external_type_specification]
#[verifier::external_body]
pub struct ExStmtRef<'a>(ruff_python_ast::StmtRef<'a>);

#[verifier::external_type_specification]
#[verifier::external_body]
pub struct ExExprRef<'a>(ruff_python_ast::ExprRef<'a>);

#[verifier::external_type_specification]
#[verifier::external_body]
pub struct ExPyKeyword(ruff_python_ast::Keyword);

#[verifier::external_type_specification]
#[verifier::external_body]
pub struct ExPyParameters(ruff_python_ast::Parameters);

#[verifier::external_type_specification]
#[verifier::external_body]
pub struct ExPyWithDefault(ruff_python_ast::ParameterWithDefault);

#[verifier::external_type_specification]
#[verifier::external_body]
pub struct ExPyComprehension(ruff_python_ast::Comprehension);

#[verifier::external_type_specification]
#[verifier::external_body]
pub struct ExPyElif(ruff_python_ast::ElifElseClause);

#[verifier::external_type_specification]
#[verifier::external_body]
pub struct ExPyHandler(ruff_python_ast::ExceptHandler);

#[verifier::external_type_specification]
#[verifier::external_body]
pub struct ExPyElement(ruff_python_ast::InterpolatedStringElement);

#[verifier::external_type_specification]
#[verifier::external_body]
pub struct ExPyCase(ruff_python_ast::MatchCase);

#[verifier::external_type_specification]
#[verifier::external_body]
pub struct ExPyPattern(ruff_python_ast::Pattern);

#[verifier::external_type_specification]
#[verifier::external_body]
pub struct ExPyTypeParam(ruff_python_ast::TypeParam);

#[verifier::external_type_specification]
#[verifier::external_body]
pub struct ExPyWithItem(ruff_python_ast::WithItem);

/// What `ruff_python_parser::parse_module` makes of a module's source, in
/// the library's syntax: the module's statements, or the parser's message.
pub uninterp spec fn python_module(source: Seq<char>) -> Result<Seq<Stmt>, Seq<char>>;

/// Parses a module's source with `ruff_python_parser::parse_module` and
/// carries the tree over into the library's syntax. The result is named by
/// `python_module`; nothing more is claimed of it. Sources whose UTF-8
/// length does not fit the parser's 32-bit offsets are left out.
#[verifier::external_body]
pub(crate) fn parse_python(source: &str) -> (r: Result<Vec<Stmt>, String>)
    requires
        vstd::utf8::encode_utf8(source@).len() < u32::MAX,
    ensures
        parse_view(r) == python_module(source@),
{
    match ruff_python_parser::parse_module(source) {
        Ok(parsed) => Ok(parsed.syntax().body.iter().map(|s| stmt(s.into())).collect()),
        Err(error) => Err(error.to_string()),
    }
}

/// The context a name is used in: written, deleted, or else read.
fn context_of(store: bool, del: bool) -> (r: ExprContext)
    ensures
        r == (if store { ExprContext::Store } else if del { ExprContext::Del } else { ExprContext::Load }),
{
    if store {
        ExprContext::Store
    } else if del {
        ExprContext::Del
    } else {
        ExprContext::Load
    }
}

/// The values of keyword arguments.
#[verifier::external_body]
fn keyword_values(keywords: &[PyKeyword]) -> Vec<Expr> {
    keywords.iter().map(|k| expr((&k.value).into())).collect()
}

/// A parameter with its annotation and default, in source order.
#[verifier::external_body]
fn parameter(name: &str, annotation: Option<ExprRef>, default: Option<ExprRef>) -> Parameter {
    let exprs = annotation.into_iter().chain(default).map(expr).collect();
    Parameter { name: name.to_owned(), exprs }
}

/// A parameter that may have a default.
#[verifier::external_body]
fn with_default(w: &PyWithDefault) -> Parameter {
    let annotation = w.parameter.annotation.as_deref().map(ExprRef::from);
    parameter(w.parameter.name.as_str(), annotation, w.default.as_deref().map(ExprRef::from))
}

/// The parameters of a function or lambda, in source order.
#[verifier::external_body]
fn parameters(p: &PyParameters) -> Vec<Parameter> {
    let mut out: Vec<Parameter> = p.posonlyargs.iter().chain(p.args.iter()).map(with_default).collect();
    out.extend(p.vararg.as_deref().map(|v| parameter(v.name.as_str(), v.annotation.as_deref().map(ExprRef::from), None)));
    out.extend(p.kwonlyargs.iter().map(with_default));
    out.extend(p.kwarg.as_deref().map(|k| parameter(k.name.as_str(), k.annotation.as_deref().map(ExprRef::from), None)));
    out
}

/// A statement.
#[verifier::external_body]
fn stmt(s: StmtRef) -> Stmt {
    let kind = match s {
        StmtRef::Import(i) => StmtKind::Import {
            names: i.names.iter().map(|a| Alias { name: a.name.to_string(), asname: a.asname.as_ref().map(|n| n.to_string()) }).collect(),
        },
        _ => import_from(s),
    };
    Stmt { range: TextRange { start: s.range().start().to_u32(), end: s.range().end().to_u32() }, kind }
}

/// A `from` import.
#[verifier::external_body]
fn import_from(s: StmtRef) -> StmtKind {
    match s {
        StmtRef::ImportFrom(i) => StmtKind::ImportFrom {
            module: i.module.as_ref().map(|m| m.to_string()),
            names: i.names.iter().map(|a| Alias { name: a.name.to_string(), asname: a.asname.as_ref().map(|n| n.to_string()) }).collect(),
            level: i.level,
        },
        _ => definition(s),
    }
}

/// A function statement.
#[verifier::external_body]
fn definition(s: StmtRef) -> StmtKind {
    match s {
        StmtRef::FunctionDef(f) => StmtKind::FunctionDef {
            name: f.name.to_string(),
            name_start: f.name.range.start().to_u32(),
            decorators: f.decorator_list.iter().map(|d| expr((&d.expression).into())).collect(),
            parameters: parameters(&f.parameters),
            result_annotation: f.returns.as_deref().map(|r| expr(r.into())),
            body: f.body.iter().map(|b| stmt(b.into())).collect(),
        },
        _ => class_definition(s),
    }
}

/// A class statement.
#[verifier::external_body]
fn class_definition(s: StmtRef) -> StmtKind {
    match s {
        StmtRef::ClassDef(c) => StmtKind::ClassDef {
            name: c.name.to_string(),
            name_start: c.name.range.start().to_u32(),
            decorators: c.decorator_list.iter().map(|d| expr((&d.expression).into())).collect(),
            arguments: c.arguments.as_deref().map(|a| Arguments {
                args: a.args.iter().map(|x| expr(x.into())).collect(),
                keywords: keyword_values(&a.keywords),
            }),
            body: c.body.iter().map(|b| stmt(b.into())).collect(),
        },
        _ => assignment(s),
    }
}

/// An assignment or a scope declaration.
#[verifier::external_body]
fn assignment(s: StmtRef) -> StmtKind {
    match s {
        StmtRef::Assign(a) => StmtKind::Assign {
            targets: a.targets.iter().map(|t| expr(t.into())).collect(),
            value: expr((&*a.value).into()),
        },
        StmtRef::AugAssign(a) => StmtKind::AugAssign { target: expr((&*a.target).into()), value: expr((&*a.value).into()) },
        StmtRef::AnnAssign(a) => StmtKind::AnnAssign {
            target: expr((&*a.target).into()),
            annotation: expr((&*a.annotation).into()),
            value: a.value.as_deref().map(|v| expr(v.into())),
        },
        _ => declaration(s),
    }
}

/// A `global` or `nonlocal` statement.
#[verifier::external_body]
fn declaration(s: StmtRef) -> StmtKind {
    match s {
        StmtRef::Global(g) => StmtKind::Global { names: g.names.iter().map(|n| n.to_string()).collect() },
        StmtRef::Nonlocal(n) => StmtKind::Nonlocal { names: n.names.iter().map(|x| x.to_string()).collect() },
        _ => {
            let mut children = Vec::new();
            simple_children(s, &mut children);
            StmtKind::Other { children }
        },
    }
}

/// Appends an expression child when there is one.
#[verifier::external_body]
fn push_opt(e: Option<ExprRef>, out: &mut Vec<Child>) {
    out.extend(e.map(|e| Child::Expr(expr(e))));
}

/// Children of simple statements.
#[verifier::external_body]
fn simple_children(s: StmtRef, out: &mut Vec<Child>) {
    match s {
        StmtRef::Return(r) => push_opt(r.value.as_deref().map(ExprRef::from), out),
        StmtRef::Delete(d) => out.extend(d.targets.iter().map(|t| Child::Expr(expr(t.into())))),
        StmtRef::Expr(e) => out.push(Child::Expr(expr((&*e.value).into()))),
        _ => check_children(s, out),
    }
}

/// Children of `raise` and `assert`.
#[verifier::external_body]
fn check_children(s: StmtRef, out: &mut Vec<Child>) {
    match s {
        StmtRef::Raise(r) => {
            push_opt(r.exc.as_deref().map(ExprRef::from), out);
            push_opt(r.cause.as_deref().map(ExprRef::from), out);
        },
        StmtRef::Assert(a) => {
            out.push(Child::Expr(expr((&*a.test).into())));
            push_opt(a.msg.as_deref().map(ExprRef::from), out);
        },
        _ => loop_children(s, out),
    }
}

/// Children of `for` loops.
#[verifier::external_body]
fn loop_children(s: StmtRef, out: &mut Vec<Child>) {
    match s {
        StmtRef::For(f) => {
            out.extend([Child::Expr(expr((&*f.target).into())), Child::Expr(expr((&*f.iter).into()))]);
            out.extend(f.body.iter().chain(f.orelse.iter()).map(|b| Child::Stmt(stmt(b.into()))));
        },
        _ => while_children(s, out),
    }
}

/// Children of `while` loops.
#[verifier::external_body]
fn while_children(s: StmtRef, out: &mut Vec<Child>) {
    match s {
        StmtRef::While(w) => {
            out.push(Child::Expr(expr((&*w.test).into())));
            out.extend(w.body.iter().chain(w.orelse.iter()).map(|b| Child::Stmt(stmt(b.into()))));
        },
        _ => branch_children(s, out),
    }
}

/// Children of `if` and `with`.
#[verifier::external_body]
fn branch_children(s: StmtRef, out: &mut Vec<Child>) {
    match s {
        StmtRef::If(i) => {
            out.push(Child::Expr(expr((&*i.test).into())));
            out.extend(i.body.iter().map(|b| Child::Stmt(stmt(b.into()))));
            i.elif_else_clauses.iter().for_each(|clause| elif_children(clause, out));
        },
        StmtRef::With(w) => {
            w.items.iter().for_each(|item| with_item_children(item, out));
            out.extend(w.body.iter().map(|b| Child::Stmt(stmt(b.into()))));
        },
        _ => block_children(s, out),
    }
}

/// Children of `match` and `try`.
#[verifier::external_body]
fn block_children(s: StmtRef, out: &mut Vec<Child>) {
    match s {
        StmtRef::Match(m) => {
            out.push(Child::Expr(expr((&*m.subject).into())));
            m.cases.iter().for_each(|case| case_children(case, out));
        },
        StmtRef::Try(t) => {
            out.extend(t.body.iter().map(|b| Child::Stmt(stmt(b.into()))));
            t.handlers.iter().for_each(|handler| handler_children(handler, out));
            out.extend(t.orelse.iter().chain(t.finalbody.iter()).map(|b| Child::Stmt(stmt(b.into()))));
        },
        _ => alias_children(s, out),
    }
}

/// Children of a type alias statement: its name, the bounds and defaults of
/// its type parameters, its value.
#[verifier::external_body]
fn alias_children(s: StmtRef, out: &mut Vec<Child>) {
    if let StmtRef::TypeAlias(t) = s {
        out.push(Child::Expr(expr((&*t.name).into())));
        t.type_params.iter().flat_map(|ps| ps.type_params.iter()).for_each(|p| type_param_children(p, out));
        out.push(Child::Expr(expr((&*t.value).into())));
    }
}

/// An `elif` or `else` clause: its test, then its body.
#[verifier::external_body]
fn elif_children(clause: &PyElif, out: &mut Vec<Child>) {
    push_opt(clause.test.as_ref().map(ExprRef::from), out);
    out.extend(clause.body.iter().map(|b| Child::Stmt(stmt(b.into()))));
}

/// A `with` item: the context expression, then the target.
#[verifier::external_body]
fn with_item_children(item: &PyWithItem, out: &mut Vec<Child>) {
    out.push(Child::Expr(expr((&item.context_expr).into())));
    push_opt(item.optional_vars.as_deref().map(ExprRef::from), out);
}

/// An `except` clause: the exception type, then the body.
#[verifier::external_body]
fn handler_children(handler: &PyHandler, out: &mut Vec<Child>) {
    let PyHandler::ExceptHandler(h) = handler;
    push_opt(h.type_.as_deref().map(ExprRef::from), out);
    out.extend(h.body.iter().map(|b| Child::Stmt(stmt(b.into()))));
}

/// A `case`: the expressions of its pattern, its guard, its body.
#[verifier::external_body]
fn case_children(case: &PyCase, out: &mut Vec<Child>) {
    let mut found = Vec::new();
    pattern_exprs(&case.pattern, &mut found);
    out.extend(found.into_iter().map(Child::Expr));
    push_opt(case.guard.as_deref().map(ExprRef::from), out);
    out.extend(case.body.iter().map(|b| Child::Stmt(stmt(b.into()))));
}

/// A type parameter's bound and default.
#[verifier::external_body]
fn type_param_children(p: &PyTypeParam, out: &mut Vec<Child>) {
    match p {
        PyTypeParam::TypeVar(v) => {
            push_opt(v.bound.as_deref().map(ExprRef::from), out);
            push_opt(v.default.as_deref().map(ExprRef::from), out);
        },
        PyTypeParam::TypeVarTuple(v) => push_opt(v.default.as_deref().map(ExprRef::from), out),
        PyTypeParam::ParamSpec(v) => push_opt(v.default.as_deref().map(ExprRef::from), out),
    }
}

/// The expressions a pattern holds, in source order.
#[verifier::external_body]
fn pattern_exprs(p: &PyPattern, out: &mut Vec<Expr>) {
    match p {
        PyPattern::MatchValue(v) => out.push(expr((&*v.value).into())),
        PyPattern::MatchSequence(s) => s.patterns.iter().for_each(|q| pattern_exprs(q, out)),
        PyPattern::MatchOr(o) => o.patterns.iter().for_each(|q| pattern_exprs(q, out)),
        PyPattern::MatchAs(a) => a.pattern.iter().for_each(|q| pattern_exprs(q, out)),
        PyPattern::MatchMapping(m) => m.keys.iter().zip(m.patterns.iter()).for_each(|(k, q)| {
            out.push(expr(k.into()));
            pattern_exprs(q, out)
        }),
        _ => class_pattern_exprs(p, out),
    }
}

/// The expressions of a class pattern: the class, then its arguments.
#[verifier::external_body]
fn class_pattern_exprs(p: &PyPattern, out: &mut Vec<Expr>) {
    if let PyPattern::MatchClass(c) = p {
        out.push(expr((&*c.cls).into()));
        c.arguments.patterns.iter().for_each(|q| pattern_exprs(q, out));
        c.arguments.keywords.iter().for_each(|k| pattern_exprs(&k.pattern, out));
    }
}

/// An expression.
#[verifier::external_body]
fn expr(e: ExprRef) -> Expr {
    let kind = match e {
        ExprRef::Name(n) => ExprKind::Name { id: n.id.to_string(), ctx: context_of(n.ctx.is_store(), n.ctx.is_del()) },
        ExprRef::Attribute(a) => ExprKind::Attribute {
            value: Box::new(expr((&*a.value).into())),
            attr: a.attr.to_string(),
            ctx: context_of(a.ctx.is_store(), a.ctx.is_del()),
        },
        ExprRef::StringLiteral(_) => ExprKind::StringLiteral,
        _ => call(e),
    };
    Expr { range: TextRange { start: e.range().start().to_u32(), end: e.range().end().to_u32() }, kind }
}

/// A call, a set display or a set comprehension.
#[verifier::external_body]
fn call(e: ExprRef) -> ExprKind {
    match e {
        ExprRef::Call(c) => ExprKind::Call {
            func: Box::new(expr((&*c.func).into())),
            arguments: Arguments {
                args: c.arguments.args.iter().map(|x| expr(x.into())).collect(),
                keywords: keyword_values(&c.arguments.keywords),
            },
        },
        ExprRef::Set(set) => ExprKind::SetLiteral { elts: set.elts.iter().map(|x| expr(x.into())).collect() },
        ExprRef::SetComp(_) => ExprKind::SetComp { children: expr_children(e) },
        _ => display(e),
    }
}

/// Subscripts and displays.
#[verifier::external_body]
fn display(e: ExprRef) -> ExprKind {
    match e {
        ExprRef::Subscript(s) => ExprKind::Subscript {
            value: Box::new(expr((&*s.value).into())),
            slice: Box::new(expr((&*s.slice).into())),
            ctx: context_of(s.ctx.is_store(), s.ctx.is_del()),
        },
        ExprRef::Tuple(t) => ExprKind::Tuple {
            elts: t.elts.iter().map(|x| expr(x.into())).collect(),
            ctx: context_of(t.ctx.is_store(), t.ctx.is_del()),
        },
        _ => compound(e),
    }
}

/// Lists, starred and named expressions, lambdas.
#[verifier::external_body]
fn compound(e: ExprRef) -> ExprKind {
    match e {
        ExprRef::List(l) => ExprKind::List {
            elts: l.elts.iter().map(|x| expr(x.into())).collect(),
            ctx: context_of(l.ctx.is_store(), l.ctx.is_del()),
        },
        ExprRef::Starred(s) => ExprKind::Starred {
            value: Box::new(expr((&*s.value).into())),
            ctx: context_of(s.ctx.is_store(), s.ctx.is_del()),
        },
        _ => binding(e),
    }
}

/// Named expressions and lambdas.
#[verifier::external_body]
fn binding(e: ExprRef) -> ExprKind {
    match e {
        ExprRef::Named(n) => ExprKind::Named {
            target: Box::new(expr((&*n.target).into())),
            value: Box::new(expr((&*n.value).into())),
        },
        ExprRef::Lambda(l) => ExprKind::Lambda {
            parameters: l.parameters.as_deref().map(parameters).unwrap_or_default(),
            body: Box::new(expr((&*l.body).into())),
        },
        _ => ExprKind::Other { children: expr_children(e) },
    }
}

/// The direct sub-expressions of an expression without a rule, in source
/// order.
#[verifier::external_body]
fn expr_children(e: ExprRef) -> Vec<Expr> {
    let mut out = Vec::new();
    operator_children(e, &mut out);
    out
}

/// Sub-expressions of operators.
#[verifier::external_body]
fn operator_children(e: ExprRef, out: &mut Vec<Expr>) {
    match e {
        ExprRef::BoolOp(b) => out.extend(b.values.iter().map(|x| expr(x.into()))),
        ExprRef::BinOp(b) => out.extend([expr((&*b.left).into()), expr((&*b.right).into())]),
        ExprRef::UnaryOp(u) => out.push(expr((&*u.operand).into())),
        _ => test_children(e, out),
    }
}

/// Sub-expressions of conditionals and comparisons.
#[verifier::external_body]
fn test_children(e: ExprRef, out: &mut Vec<Expr>) {
    match e {
        ExprRef::If(i) => out.extend([expr((&*i.body).into()), expr((&*i.test).into()), expr((&*i.orelse).into())]),
        ExprRef::Compare(c) => {
            out.push(expr((&*c.left).into()));
            out.extend(c.comparators.iter().map(|x| expr(x.into())));
        },
        _ => comprehension_children(e, out),
    }
}

/// Sub-expressions of list, set and generator comprehensions.
#[verifier::external_body]
fn comprehension_children(e: ExprRef, out: &mut Vec<Expr>) {
    match e {
        ExprRef::ListComp(c) => generators((&*c.elt).into(), &c.generators, out),
        ExprRef::SetComp(c) => generators((&*c.elt).into(), &c.generators, out),
        ExprRef::Generator(c) => generators((&*c.elt).into(), &c.generators, out),
        _ => dict_children(e, out),
    }
}

/// Sub-expressions of dictionary comprehensions and displays.
#[verifier::external_body]
fn dict_children(e: ExprRef, out: &mut Vec<Expr>) {
    match e {
        ExprRef::DictComp(c) => {
            out.extend(c.key.as_deref().map(|k| expr(k.into())));
            generators((&*c.value).into(), &c.generators, out);
        },
        ExprRef::Dict(d) => d.items.iter().for_each(|item| {
            out.extend(item.key.as_ref().map(|k| expr(k.into())));
            out.push(expr((&item.value).into()));
        }),
        _ => value_children(e, out),
    }
}

/// An element, then each `for` clause's target, iterable and conditions.
#[verifier::external_body]
fn generators(elt: ExprRef, clauses: &[PyComprehension], out: &mut Vec<Expr>) {
    out.push(expr(elt));
    for clause in clauses {
        out.extend([expr((&clause.target).into()), expr((&clause.iter).into())]);
        out.extend(clause.ifs.iter().map(|x| expr(x.into())));
    }
}

/// Sub-expressions of `await`, `yield` and slices.
#[verifier::external_body]
fn value_children(e: ExprRef, out: &mut Vec<Expr>) {
    match e {
        ExprRef::Await(a) => out.push(expr((&*a.value).into())),
        ExprRef::Yield(y) => out.extend(y.value.as_deref().map(|v| expr(v.into()))),
        ExprRef::YieldFrom(y) => out.push(expr((&*y.value).into())),
        ExprRef::Slice(s) => {
            let parts = [s.lower.as_deref(), s.upper.as_deref(), s.step.as_deref()];
            out.extend(parts.into_iter().flatten().map(|x| expr(x.into())));
        },
        _ => string_children(e, out),
    }
}

/// The interpolated expressions of f-strings and t-strings.
#[verifier::external_body]
fn string_children(e: ExprRef, out: &mut Vec<Expr>) {
    match e {
        ExprRef::FString(f) => f.value.elements().for_each(|el| element_exprs(el, out)),
        ExprRef::TString(t) => t.value.elements().for_each(|el| element_exprs(el, out)),
        _ => {},
    }
}

/// The expressions of an interpolated-string element: the interpolated
/// expression, then those of its format specification.
#[verifier::external_body]
fn element_exprs(el: &PyElement, out: &mut Vec<Expr>) {
    if let PyElement::Interpolation(i) = el {
        out.push(expr((&*i.expression).into()));
        i.format_spec.iter().flat_map(|spec| spec.elements.iter()).for_each(|inner| element_exprs(inner, out));
    }
}

} // verus!
