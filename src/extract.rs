//! Merging a docstring's arguments with a function's real parameters, and collecting the
//! documentation of every top-level function of a Python module.
use vstd::prelude::*;

use crate::docstrings::{
    argument_views, docstring_model, opt_view, ArgumentModel, Docstring, DocstringModel,
};
use crate::python::{module_definitions, parse_module, parses};

verus! {

/// A parameter of the real signature, with the source text of its annotation.
#[derive(Debug, PartialEq, Eq)]
pub struct Parameter {
    pub name: String,
    pub annotation: Option<String>,
}

/// The parameters of a function: positional ones, keyword-only ones, and the source
/// text of the keyword-only defaults, which belong to the last keyword-only parameters.
#[derive(Debug, PartialEq, Eq)]
pub struct Signature {
    pub args: Vec<Parameter>,
    pub kwonlyargs: Vec<Parameter>,
    pub kw_defaults: Vec<String>,
}

/// A function definition as the syntax tree gives it.
#[derive(Debug, PartialEq, Eq)]
pub struct SourceFunction {
    pub name: String,
    pub docstring: Option<String>,
    pub signature: Signature,
}

/// A parameter with its type, its default and its documentation.
#[derive(Debug, PartialEq, Eq)]
pub struct Argument {
    pub name: String,
    pub type_: String,
    pub default: Option<String>,
    pub description: Option<String>,
}

/// The documentation of one function.
#[derive(Debug)]
pub struct Function {
    pub name: String,
    pub docstring: Docstring,
    pub arguments: Vec<Argument>,
}

/// The documented functions of a module, in the order of the source.
#[derive(Debug)]
pub struct Module {
    pub functions: Vec<Function>,
}

/// Why a module could not be read.
#[derive(Debug, PartialEq, Eq, Structural, Clone, Copy)]
pub enum ExtractError {
    /// The source is not valid Python.
    Syntax,
}

pub struct ParameterModel {
    pub name: Seq<char>,
    pub annotation: Option<Seq<char>>,
}

pub struct SignatureModel {
    pub args: Seq<ParameterModel>,
    pub kwonlyargs: Seq<ParameterModel>,
    pub kw_defaults: Seq<Seq<char>>,
}

pub struct SourceFunctionModel {
    pub name: Seq<char>,
    pub docstring: Option<Seq<char>>,
    pub signature: SignatureModel,
}

pub struct MergedModel {
    pub name: Seq<char>,
    pub type_: Seq<char>,
    pub default: Option<Seq<char>>,
    pub description: Option<Seq<char>>,
}

pub struct FunctionModel {
    pub name: Seq<char>,
    pub docstring: DocstringModel,
    pub arguments: Seq<MergedModel>,
}

impl View for Parameter {
    type V = ParameterModel;

    open spec fn view(&self) -> ParameterModel {
        ParameterModel { name: self.name@, annotation: opt_view(self.annotation) }
    }
}

pub open spec fn parameter_views(s: Seq<Parameter>) -> Seq<ParameterModel> {
    s.map_values(|p: Parameter| p@)
}

impl View for Signature {
    type V = SignatureModel;

    open spec fn view(&self) -> SignatureModel {
        SignatureModel {
            args: parameter_views(self.args@),
            kwonlyargs: parameter_views(self.kwonlyargs@),
            kw_defaults: views_of_strings(self.kw_defaults@),
        }
    }
}

pub open spec fn views_of_strings(s: Seq<String>) -> Seq<Seq<char>> {
    s.map_values(|x: String| x@)
}

impl View for SourceFunction {
    type V = SourceFunctionModel;

    open spec fn view(&self) -> SourceFunctionModel {
        SourceFunctionModel {
            name: self.name@,
            docstring: opt_view(self.docstring),
            signature: self.signature@,
        }
    }
}

impl View for Argument {
    type V = MergedModel;

    open spec fn view(&self) -> MergedModel {
        MergedModel {
            name: self.name@,
            type_: self.type_@,
            default: opt_view(self.default),
            description: opt_view(self.description),
        }
    }
}

pub open spec fn merged_views(s: Seq<Argument>) -> Seq<MergedModel> {
    s.map_values(|a: Argument| a@)
}

impl View for Function {
    type V = FunctionModel;

    open spec fn view(&self) -> FunctionModel {
        FunctionModel {
            name: self.name@,
            docstring: self.docstring@,
            arguments: merged_views(self.arguments@),
        }
    }
}

pub open spec fn function_views(s: Seq<Function>) -> Seq<FunctionModel> {
    s.map_values(|f: Function| f@)
}

/// The keyword-only defaults are no more than the keyword-only parameters.
pub open spec fn signature_wf(sig: SignatureModel) -> bool {
    sig.kw_defaults.len() <= sig.kwonlyargs.len()
}

/// The description that the docstring gives `name`: that of the last entry so named.
pub open spec fn doc_description(doc: Seq<ArgumentModel>, name: Seq<char>) -> Option<Seq<char>>
    decreases doc.len(),
{
    if doc.len() == 0 {
        None
    } else if doc.last().name == name {
        doc.last().description
    } else {
        doc_description(doc.drop_last(), name)
    }
}

/// The merged entry of one parameter; none for a parameter without annotation.
pub open spec fn merge_one(
    doc: Seq<ArgumentModel>,
    p: ParameterModel,
    default: Option<Seq<char>>,
) -> Seq<MergedModel> {
    match p.annotation {
        Some(t) => seq![
            MergedModel {
                name: p.name,
                type_: t,
                default: default,
                description: doc_description(doc, p.name),
            },
        ],
        None => Seq::empty(),
    }
}

/// The merged entries of the positional parameters `ps`.
pub open spec fn merge_positional(doc: Seq<ArgumentModel>, ps: Seq<ParameterModel>) -> Seq<
    MergedModel,
>
    decreases ps.len(),
{
    if ps.len() == 0 {
        Seq::empty()
    } else {
        merge_positional(doc, ps.drop_last()) + merge_one(doc, ps.last(), None)
    }
}

/// The default of the keyword-only parameter at `index`: defaults align with the end.
pub open spec fn kw_default(sig: SignatureModel, index: int) -> Option<Seq<char>> {
    let missing = sig.kwonlyargs.len() - sig.kw_defaults.len();
    if index >= missing {
        Some(sig.kw_defaults[index - missing])
    } else {
        None
    }
}

/// The merged entries of the first `k` keyword-only parameters.
pub open spec fn merge_keyword(doc: Seq<ArgumentModel>, sig: SignatureModel, k: nat) -> Seq<
    MergedModel,
>
    decreases k,
{
    if k == 0 {
        Seq::empty()
    } else {
        merge_keyword(doc, sig, (k - 1) as nat) + merge_one(
            doc,
            sig.kwonlyargs[k - 1],
            kw_default(sig, k - 1),
        )
    }
}

/// The signature's annotated parameters, in its order, with their documentation.
pub open spec fn merge_spec(doc: Seq<ArgumentModel>, sig: SignatureModel) -> Seq<MergedModel> {
    merge_positional(doc, sig.args) + merge_keyword(doc, sig, sig.kwonlyargs.len())
}

pub open spec fn docstring_text(o: Option<Seq<char>>) -> Seq<char> {
    match o {
        Some(s) => s,
        None => Seq::empty(),
    }
}

pub open spec fn function_model(src: SourceFunctionModel) -> FunctionModel {
    let d = docstring_model(docstring_text(src.docstring));
    FunctionModel {
        name: src.name,
        docstring: d,
        arguments: merge_spec(d.arguments, src.signature),
    }
}

fn copy_string(s: &String) -> (r: String)
    ensures
        r@ == s@,
{
    s.clone()
}

fn copy_opt(o: &Option<String>) -> (r: Option<String>)
    ensures
        opt_view(r) == opt_view(*o),
{
    match o {
        Some(s) => Some(copy_string(s)),
        None => None,
    }
}

/// The description that the docstring gives `name`.
pub fn lookup_description(doc: &Vec<crate::docstrings::Argument>, name: &String) -> (r: Option<
    String,
>)
    ensures
        opt_view(r) == doc_description(argument_views(doc@), name@),
{
    let ghost dv = argument_views(doc@);
    let mut found: Option<String> = None;
    let mut i: usize = 0;
    while i < doc.len()
        invariant
            i <= doc.len(),
            dv == argument_views(doc@),
            opt_view(found) == doc_description(dv.take(i as int), name@),
        decreases doc.len() - i,
    {
        proof {
            assert(dv.take(i + 1).drop_last() =~= dv.take(i as int));
            assert(dv[i as int] == doc@[i as int]@);
        }
        if crate::text::same_text(doc[i].name.as_str(), name.as_str()) {
            found = copy_opt(&doc[i].description);
        }
        i = i + 1;
    }
    proof {
        assert(dv.take(doc.len() as int) =~= dv);
    }
    found
}

fn merge_parameter(
    doc: &Vec<crate::docstrings::Argument>,
    p: &Parameter,
    default: Option<String>,
    out: &mut Vec<Argument>,
)
    ensures
        merged_views(final(out)@) == merged_views(old(out)@) + merge_one(
            argument_views(doc@),
            p@,
            opt_view(default),
        ),
{
    match &p.annotation {
        Some(t) => {
            let a = Argument {
                name: copy_string(&p.name),
                type_: copy_string(t),
                default,
                description: lookup_description(doc, &p.name),
            };
            let ghost before = merged_views(out@);
            out.push(a);
            proof {
                assert(merged_views(out@) =~= before + merge_one(
                    argument_views(doc@),
                    p@,
                    opt_view(default),
                ));
            }
        },
        None => {
            proof {
                assert(merged_views(out@) =~= merged_views(out@) + Seq::<MergedModel>::empty());
            }
        },
    }
}

/// The signature's annotated parameters in signature order, each with its type, its
/// default and the description that the docstring gives it, if any.
pub fn merge_arguments(doc: &Vec<crate::docstrings::Argument>, sig: &Signature) -> (r: Vec<
    Argument,
>)
    requires
        signature_wf(sig@),
    ensures
        merged_views(r@) == merge_spec(argument_views(doc@), sig@),
{
    let ghost dv = argument_views(doc@);
    let ghost sv = sig@;
    let mut r: Vec<Argument> = Vec::new();
    let mut i: usize = 0;
    proof {
        assert(merged_views(r@) =~= Seq::<MergedModel>::empty());
        assert(sv.args.take(0) =~= Seq::<ParameterModel>::empty());
    }
    while i < sig.args.len()
        invariant
            i <= sig.args.len(),
            dv == argument_views(doc@),
            sv == sig@,
            merged_views(r@) == merge_positional(dv, sv.args.take(i as int)),
        decreases sig.args.len() - i,
    {
        proof {
            assert(sv.args.take(i + 1).drop_last() =~= sv.args.take(i as int));
            assert(sv.args[i as int] == sig.args@[i as int]@);
        }
        merge_parameter(doc, &sig.args[i], None, &mut r);
        i = i + 1;
    }
    proof {
        assert(sv.args.take(sig.args.len() as int) =~= sv.args);
    }
    let ghost positional = merged_views(r@);
    let missing: usize = sig.kwonlyargs.len() - sig.kw_defaults.len();
    let mut k: usize = 0;
    while k < sig.kwonlyargs.len()
        invariant
            k <= sig.kwonlyargs.len(),
            dv == argument_views(doc@),
            sv == sig@,
            signature_wf(sv),
            missing == sv.kwonlyargs.len() - sv.kw_defaults.len(),
            positional == merge_positional(dv, sv.args),
            merged_views(r@) == positional + merge_keyword(dv, sv, k as nat),
        decreases sig.kwonlyargs.len() - k,
    {
        let default = if k >= missing {
            Some(copy_string(&sig.kw_defaults[k - missing]))
        } else {
            None
        };
        proof {
            assert(sv.kwonlyargs[k as int] == sig.kwonlyargs@[k as int]@);
            assert(opt_view(default) == kw_default(sv, k as int));
        }
        let ghost before = merged_views(r@);
        merge_parameter(doc, &sig.kwonlyargs[k], default, &mut r);
        proof {
            assert(merged_views(r@) =~= positional + merge_keyword(dv, sv, (k + 1) as nat));
        }
        k = k + 1;
    }
    r
}

/// The documentation of one function: its docstring read (an absent one reads as the
/// empty text) and its annotated parameters merged with it.
pub fn extract_function(src: &SourceFunction) -> (r: Function)
    requires
        signature_wf(src.signature@),
    ensures
        r@ == function_model(src@),
{
    let docstring = match &src.docstring {
        Some(text) => Docstring::new_from_string(text.as_str()),
        None => Docstring::new_from_string(""),
    };
    proof {
        reveal_strlit("");
        assert(""@ =~= Seq::<char>::empty());
    }
    let arguments = merge_arguments(&docstring.arguments, &src.signature);
    Function { name: copy_string(&src.name), docstring, arguments }
}

/// The documentation of each function, in order.
pub fn extract_functions(defs: &Vec<SourceFunction>) -> (r: Module)
    requires
        forall|i: int| 0 <= i < defs.len() ==> signature_wf(#[trigger] defs@[i].signature@),
    ensures
        function_views(r.functions@) == defs@.map_values(|d: SourceFunction| function_model(d@)),
{
    let ghost target = defs@.map_values(|d: SourceFunction| function_model(d@));
    let mut functions: Vec<Function> = Vec::new();
    let mut i: usize = 0;
    while i < defs.len()
        invariant
            i <= defs.len(),
            target == defs@.map_values(|d: SourceFunction| function_model(d@)),
            forall|j: int| 0 <= j < defs.len() ==> signature_wf(#[trigger] defs@[j].signature@),
            function_views(functions@) == target.take(i as int),
        decreases defs.len() - i,
    {
        let f = extract_function(&defs[i]);
        let ghost before = function_views(functions@);
        functions.push(f);
        proof {
            assert(function_views(functions@) =~= before.push(target[i as int]));
            assert(target.take(i + 1) =~= target.take(i as int).push(target[i as int]));
        }
        i = i + 1;
    }
    proof {
        assert(target.take(defs.len() as int) =~= target);
    }
    Module { functions }
}


/// A parameter as a `def` writes it: its name, and the source text of its annotation and
/// of its default.
#[derive(Debug, PartialEq, Eq)]
pub struct DefParameter {
    pub name: String,
    pub annotation: Option<String>,
    pub default: Option<String>,
}

/// A top-level statement of a module: a `def`, with the text of its first statement where
/// that is a string literal, or any other statement.
#[derive(Debug, PartialEq, Eq)]
pub enum Statement {
    FunctionDef {
        name: String,
        body_literals: Vec<Option<String>>,
        posonlyargs: Vec<DefParameter>,
        args: Vec<DefParameter>,
        vararg: Option<DefParameter>,
        kwonlyargs: Vec<DefParameter>,
        kwarg: Option<DefParameter>,
    },
    Other,
}

pub struct DefParameterModel {
    pub name: Seq<char>,
    pub annotation: Option<Seq<char>>,
    pub default: Option<Seq<char>>,
}

pub enum StatementModel {
    FunctionDef {
        name: Seq<char>,
        body_literals: Seq<Option<Seq<char>>>,
        posonlyargs: Seq<DefParameterModel>,
        args: Seq<DefParameterModel>,
        vararg: Option<DefParameterModel>,
        kwonlyargs: Seq<DefParameterModel>,
        kwarg: Option<DefParameterModel>,
    },
    Other,
}

impl View for DefParameter {
    type V = DefParameterModel;

    open spec fn view(&self) -> DefParameterModel {
        DefParameterModel {
            name: self.name@,
            annotation: opt_view(self.annotation),
            default: opt_view(self.default),
        }
    }
}

pub open spec fn def_parameter_views(s: Seq<DefParameter>) -> Seq<DefParameterModel> {
    s.map_values(|p: DefParameter| p@)
}

impl View for Statement {
    type V = StatementModel;

    open spec fn view(&self) -> StatementModel {
        match self {
            Statement::FunctionDef {
                name,
                body_literals,
                posonlyargs,
                args,
                vararg,
                kwonlyargs,
                kwarg,
            } => StatementModel::FunctionDef {
                name: name@,
                body_literals: body_literals@.map_values(|l: Option<String>| opt_view(l)),
                posonlyargs: def_parameter_views(posonlyargs@),
                args: def_parameter_views(args@),
                vararg: opt_parameter_view(*vararg),
                kwonlyargs: def_parameter_views(kwonlyargs@),
                kwarg: opt_parameter_view(*kwarg),
            },
            Statement::Other => StatementModel::Other,
        }
    }
}

pub open spec fn opt_parameter_view(p: Option<DefParameter>) -> Option<DefParameterModel> {
    match p {
        Some(q) => Some(q@),
        None => None,
    }
}

/// The docstring of a body: the text of its first statement, where that statement is a
/// bare string literal; none for an empty body or any other first statement.
pub open spec fn first_literal(body_literals: Seq<Option<Seq<char>>>) -> Option<Seq<char>> {
    if body_literals.len() > 0 {
        body_literals[0]
    } else {
        None
    }
}

pub open spec fn statement_views(s: Seq<Statement>) -> Seq<StatementModel> {
    s.map_values(|st: Statement| st@)
}

pub open spec fn plain_parameter(p: DefParameterModel) -> ParameterModel {
    ParameterModel { name: p.name, annotation: p.annotation }
}

/// The defaults of `ps` that are present, in order.
pub open spec fn present_defaults(ps: Seq<DefParameterModel>) -> Seq<Seq<char>>
    decreases ps.len(),
{
    if ps.len() == 0 {
        Seq::empty()
    } else {
        present_defaults(ps.drop_last()) + match ps.last().default {
            Some(d) => seq![d],
            None => Seq::empty(),
        }
    }
}

/// The definitions among `stmts`, in order. Each takes its docstring from the first
/// statement of its body, and its signature from its positional (`args`) and keyword-only
/// parameters, with the keyword-only defaults that are present listed after them;
/// positional-only parameters and the `*args` and `**kwargs` collectors are not merged.
pub open spec fn definitions_of(stmts: Seq<StatementModel>) -> Seq<SourceFunctionModel>
    decreases stmts.len(),
{
    if stmts.len() == 0 {
        Seq::empty()
    } else {
        definitions_of(stmts.drop_last()) + match stmts.last() {
            StatementModel::FunctionDef { name, body_literals, args, kwonlyargs, .. } => seq![
                SourceFunctionModel {
                    name,
                    docstring: first_literal(body_literals),
                    signature: SignatureModel {
                        args: args.map_values(|p: DefParameterModel| plain_parameter(p)),
                        kwonlyargs: kwonlyargs.map_values(|p: DefParameterModel| plain_parameter(p)),
                        kw_defaults: present_defaults(kwonlyargs),
                    },
                },
            ],
            StatementModel::Other => Seq::empty(),
        }
    }
}

proof fn lemma_present_defaults_len(ps: Seq<DefParameterModel>)
    ensures
        present_defaults(ps).len() <= ps.len(),
    decreases ps.len(),
{
    if ps.len() > 0 {
        lemma_present_defaults_len(ps.drop_last());
    }
}

proof fn lemma_definitions_wf(stmts: Seq<StatementModel>)
    ensures
        forall|i: int|
            0 <= i < definitions_of(stmts).len() ==> signature_wf(
                #[trigger] definitions_of(stmts)[i].signature,
            ),
    decreases stmts.len(),
{
    if stmts.len() > 0 {
        lemma_definitions_wf(stmts.drop_last());
        let prev = definitions_of(stmts.drop_last());
        match stmts.last() {
            StatementModel::FunctionDef { kwonlyargs, .. } => {
                lemma_present_defaults_len(kwonlyargs);
                assert forall|i: int|
                    0 <= i < definitions_of(stmts).len() implies signature_wf(
                    #[trigger] definitions_of(stmts)[i].signature,
                ) by {
                    if i < prev.len() {
                        assert(definitions_of(stmts)[i] == prev[i]);
                    }
                }
            },
            StatementModel::Other => {
                assert(definitions_of(stmts) =~= prev);
            },
        }
    }
}

fn plain_parameters(ps: &Vec<DefParameter>) -> (r: Vec<Parameter>)
    ensures
        parameter_views(r@) == def_parameter_views(ps@).map_values(
            |p: DefParameterModel| plain_parameter(p),
        ),
{
    let ghost target = def_parameter_views(ps@).map_values(|p: DefParameterModel| plain_parameter(p));
    let mut r: Vec<Parameter> = Vec::new();
    let mut i: usize = 0;
    while i < ps.len()
        invariant
            i <= ps.len(),
            target == def_parameter_views(ps@).map_values(|p: DefParameterModel| plain_parameter(p)),
            parameter_views(r@) == target.take(i as int),
        decreases ps.len() - i,
    {
        let p = Parameter { name: copy_string(&ps[i].name), annotation: copy_opt(&ps[i].annotation) };
        let ghost before = parameter_views(r@);
        r.push(p);
        proof {
            assert(parameter_views(r@) =~= before.push(target[i as int]));
            assert(target.take(i + 1) =~= target.take(i as int).push(target[i as int]));
        }
        i = i + 1;
    }
    proof {
        assert(target.take(ps.len() as int) =~= target);
    }
    r
}

fn defaults_present(ps: &Vec<DefParameter>) -> (r: Vec<String>)
    ensures
        views_of_strings(r@) == present_defaults(def_parameter_views(ps@)),
{
    let ghost pv = def_parameter_views(ps@);
    let mut r: Vec<String> = Vec::new();
    let mut i: usize = 0;
    proof {
        assert(pv.take(0) =~= Seq::<DefParameterModel>::empty());
        assert(views_of_strings(r@) =~= Seq::<Seq<char>>::empty());
    }
    while i < ps.len()
        invariant
            i <= ps.len(),
            pv == def_parameter_views(ps@),
            views_of_strings(r@) == present_defaults(pv.take(i as int)),
        decreases ps.len() - i,
    {
        proof {
            assert(pv.take(i + 1).drop_last() =~= pv.take(i as int));
            assert(pv[i as int] == ps@[i as int]@);
        }
        let ghost before = views_of_strings(r@);
        match &ps[i].default {
            Some(d) => {
                r.push(copy_string(d));
                proof {
                    assert(views_of_strings(r@) =~= before + seq![d@]);
                }
            },
            None => {
                proof {
                    assert(before + Seq::<Seq<char>>::empty() =~= before);
                }
            },
        }
        i = i + 1;
    }
    proof {
        assert(pv.take(ps.len() as int) =~= pv);
    }
    r
}

/// The definitions among the statements, in order.
pub fn definitions(stmts: &Vec<Statement>) -> (r: Vec<SourceFunction>)
    ensures
        r@.map_values(|d: SourceFunction| d@) == definitions_of(statement_views(stmts@)),
{
    let ghost sv = statement_views(stmts@);
    let mut r: Vec<SourceFunction> = Vec::new();
    let mut i: usize = 0;
    proof {
        assert(sv.take(0) =~= Seq::<StatementModel>::empty());
        assert(r@.map_values(|d: SourceFunction| d@) =~= Seq::<SourceFunctionModel>::empty());
    }
    while i < stmts.len()
        invariant
            i <= stmts.len(),
            sv == statement_views(stmts@),
            r@.map_values(|d: SourceFunction| d@) == definitions_of(sv.take(i as int)),
        decreases stmts.len() - i,
    {
        proof {
            assert(sv.take(i + 1).drop_last() =~= sv.take(i as int));
            assert(sv[i as int] == stmts@[i as int]@);
        }
        let ghost before = r@.map_values(|d: SourceFunction| d@);
        match &stmts[i] {
            Statement::FunctionDef { name, body_literals, args, kwonlyargs, .. } => {
                let docstring = if body_literals.len() > 0 {
                    copy_opt(&body_literals[0])
                } else {
                    None
                };
                proof {
                    let lv = body_literals@.map_values(|l: Option<String>| opt_view(l));
                    if body_literals.len() > 0 {
                        assert(lv[0] == opt_view(body_literals@[0]));
                    }
                    assert(opt_view(docstring) == first_literal(lv));
                }
                let f = SourceFunction {
                    name: copy_string(name),
                    docstring,
                    signature: Signature {
                        args: plain_parameters(args),
                        kwonlyargs: plain_parameters(kwonlyargs),
                        kw_defaults: defaults_present(kwonlyargs),
                    },
                };
                r.push(f);
                proof {
                    assert(r@.map_values(|d: SourceFunction| d@) =~= before.push(f@));
                    assert(definitions_of(sv.take(i + 1)) =~= definitions_of(sv.take(i as int))
                        + seq![f@]);
                }
            },
            Statement::Other => {
                proof {
                    assert(definitions_of(sv.take(i + 1)) =~= definitions_of(sv.take(i as int)));
                }
            },
        }
        i = i + 1;
    }
    proof {
        assert(sv.take(stmts.len() as int) =~= sv);
    }
    r
}

/// The documentation of every top-level `def` of a Python module, in source order; an
/// error where the source does not parse.
pub fn extract(code: &str) -> (r: Result<Module, ExtractError>)
    ensures
        r is Err <==> !parses(code@),
        r matches Err(e) ==> e == ExtractError::Syntax,
        r matches Ok(m) ==> function_views(m.functions@) == definitions_of(
            module_definitions(code@),
        ).map_values(|d: SourceFunctionModel| function_model(d)),
{
    let stmts = match parse_module(code) {
        Some(s) => s,
        None => {
            return Err(ExtractError::Syntax);
        },
    };
    let defs = definitions(&stmts);
    proof {
        let dv = defs@.map_values(|d: SourceFunction| d@);
        lemma_definitions_wf(statement_views(stmts@));
        assert forall|i: int| 0 <= i < defs.len() implies signature_wf(
            #[trigger] defs@[i].signature@,
        ) by {
            assert(dv[i] == defs@[i]@);
            assert(signature_wf(definitions_of(statement_views(stmts@))[i].signature));
        }
    }
    let module = extract_functions(&defs);
    proof {
        let dv = defs@.map_values(|d: SourceFunction| d@);
        assert(dv.map_values(|d: SourceFunctionModel| function_model(d)) =~= defs@.map_values(
            |d: SourceFunction| function_model(d@),
        ));
    }
    Ok(module)
}

/// The names of the annotated parameters of `ps`, in order.
pub open spec fn annotated_names(ps: Seq<ParameterModel>) -> Seq<Seq<char>>
    decreases ps.len(),
{
    if ps.len() == 0 {
        Seq::empty()
    } else {
        annotated_names(ps.drop_last()) + match ps.last().annotation {
            Some(_) => seq![ps.last().name],
            None => Seq::empty(),
        }
    }
}

pub open spec fn merged_names(ms: Seq<MergedModel>) -> Seq<Seq<char>> {
    ms.map_values(|m: MergedModel| m.name)
}

proof fn lemma_names_concat(a: Seq<MergedModel>, b: Seq<MergedModel>)
    ensures
        merged_names(a + b) == merged_names(a) + merged_names(b),
{
    assert(merged_names(a + b) =~= merged_names(a) + merged_names(b));
}

proof fn lemma_one_name(doc: Seq<ArgumentModel>, p: ParameterModel, d: Option<Seq<char>>)
    ensures
        merged_names(merge_one(doc, p, d)) == match p.annotation {
            Some(_) => seq![p.name],
            None => Seq::<Seq<char>>::empty(),
        },
{
    assert(merged_names(merge_one(doc, p, d)) =~= match p.annotation {
        Some(_) => seq![p.name],
        None => Seq::<Seq<char>>::empty(),
    });
}

proof fn lemma_positional_names(doc: Seq<ArgumentModel>, ps: Seq<ParameterModel>)
    ensures
        merged_names(merge_positional(doc, ps)) == annotated_names(ps),
    decreases ps.len(),
{
    if ps.len() > 0 {
        lemma_positional_names(doc, ps.drop_last());
        lemma_names_concat(merge_positional(doc, ps.drop_last()), merge_one(doc, ps.last(), None));
        lemma_one_name(doc, ps.last(), None);
    } else {
        assert(merged_names(Seq::empty()) =~= Seq::<Seq<char>>::empty());
    }
}

proof fn lemma_keyword_names(doc: Seq<ArgumentModel>, sig: SignatureModel, k: nat)
    requires
        k <= sig.kwonlyargs.len(),
    ensures
        merged_names(merge_keyword(doc, sig, k)) == annotated_names(sig.kwonlyargs.take(k as int)),
    decreases k,
{
    if k > 0 {
        lemma_keyword_names(doc, sig, (k - 1) as nat);
        let prev = merge_keyword(doc, sig, (k - 1) as nat);
        let one = merge_one(doc, sig.kwonlyargs[k - 1], kw_default(sig, k - 1));
        lemma_names_concat(prev, one);
        lemma_one_name(doc, sig.kwonlyargs[k - 1], kw_default(sig, k - 1));
        assert(sig.kwonlyargs.take(k as int).drop_last() =~= sig.kwonlyargs.take(k - 1));
    } else {
        assert(merged_names(Seq::empty()) =~= Seq::<Seq<char>>::empty());
        assert(sig.kwonlyargs.take(0) =~= Seq::<ParameterModel>::empty());
    }
}

/// Merging lists the annotated parameters in the order of the signature, positional
/// ones first, whatever the docstring documents and in whatever order it does so.
pub proof fn lemma_merge_keeps_signature_order(doc: Seq<ArgumentModel>, sig: SignatureModel)
    requires
        signature_wf(sig),
    ensures
        merged_names(merge_spec(doc, sig)) == annotated_names(sig.args) + annotated_names(
            sig.kwonlyargs,
        ),
{
    lemma_positional_names(doc, sig.args);
    lemma_keyword_names(doc, sig, sig.kwonlyargs.len());
    assert(sig.kwonlyargs.take(sig.kwonlyargs.len() as int) =~= sig.kwonlyargs);
    lemma_names_concat(
        merge_positional(doc, sig.args),
        merge_keyword(doc, sig, sig.kwonlyargs.len()),
    );
}


proof fn lemma_annotated_names_member(ps: Seq<ParameterModel>, x: Seq<char>)
    requires
        annotated_names(ps).contains(x),
    ensures
        exists|i: int| 0 <= i < ps.len() && #[trigger] ps[i].name == x && ps[i].annotation is Some,
    decreases ps.len(),
{
    let prev = ps.drop_last();
    let tail: Seq<Seq<char>> = match ps.last().annotation {
        Some(_) => seq![ps.last().name],
        None => Seq::empty(),
    };
    let k = choose|k: int| 0 <= k < annotated_names(ps).len() && annotated_names(ps)[k] == x;
    if k < annotated_names(prev).len() {
        assert(annotated_names(prev)[k] == x);
        lemma_annotated_names_member(prev, x);
        let i = choose|i: int| 0 <= i < prev.len() && #[trigger] prev[i].name == x && prev[i].annotation is Some;
        assert(ps[i] == prev[i]);
    } else {
        assert(tail.len() > 0);
        assert(ps[ps.len() - 1].name == x);
    }
}

/// A signature's parameters, positional ones then keyword-only ones.
pub open spec fn all_parameters(sig: SignatureModel) -> Seq<ParameterModel> {
    sig.args + sig.kwonlyargs
}

/// A parameter without an annotation gets no merged entry, even where the docstring
/// documents it, when no other parameter shares its name; the docstring's own argument
/// entries are those read from the docstring, whatever the signature.
pub proof fn lemma_unannotated_left_out(src: SourceFunctionModel, k: int)
    requires
        signature_wf(src.signature),
        0 <= k < all_parameters(src.signature).len(),
        all_parameters(src.signature)[k].annotation is None,
        forall|i: int, j: int|
            0 <= i < j < all_parameters(src.signature).len() ==> #[trigger] all_parameters(
                src.signature,
            )[i].name != #[trigger] all_parameters(src.signature)[j].name,
    ensures
        !merged_names(function_model(src).arguments).contains(
            all_parameters(src.signature)[k].name,
        ),
        function_model(src).docstring.arguments == docstring_model(
            docstring_text(src.docstring),
        ).arguments,
{
    let sig = src.signature;
    let ps = all_parameters(sig);
    let n = ps[k].name;
    let doc = function_model(src).docstring.arguments;
    lemma_merge_keeps_signature_order(doc, sig);
    let names = merged_names(function_model(src).arguments);
    assert(names == annotated_names(sig.args) + annotated_names(sig.kwonlyargs));
    if names.contains(n) {
        let m = choose|m: int| 0 <= m < names.len() && names[m] == n;
        let la = annotated_names(sig.args).len();
        if m < la {
            assert(annotated_names(sig.args)[m] == n);
            lemma_annotated_names_member(sig.args, n);
            let i = choose|i: int|
                0 <= i < sig.args.len() && #[trigger] sig.args[i].name == n && sig.args[i].annotation is Some;
            assert(ps[i] == sig.args[i]);
            assert(i != k);
            if i < k {
                assert(ps[i].name != ps[k].name);
            } else {
                assert(ps[k].name != ps[i].name);
            }
        } else {
            assert(annotated_names(sig.kwonlyargs)[m - la] == n);
            lemma_annotated_names_member(sig.kwonlyargs, n);
            let i = choose|i: int|
                0 <= i < sig.kwonlyargs.len() && #[trigger] sig.kwonlyargs[i].name == n
                    && sig.kwonlyargs[i].annotation is Some;
            let g = sig.args.len() + i;
            assert(ps[g] == sig.kwonlyargs[i]);
            assert(g != k);
            if g < k {
                assert(ps[g].name != ps[k].name);
            } else {
                assert(ps[k].name != ps[g].name);
            }
        }
    }
}

} // verus!
