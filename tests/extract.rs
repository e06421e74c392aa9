use docstring_md::docstrings::Docstring;
use docstring_md::extract::{
    definitions, extract, extract_function, merge_arguments, DefParameter, ExtractError,
    Parameter, Signature, SourceFunction, Statement,
};

#[test]
fn it_parses_python_function() {
    let code = r#"
        def foo(a: int, b: int) -> int:
            """Example docstring

            Args:
                a: a number
                b: another number

            Returns:
                the sum of a and b

            Raises:
                ValueError: if a or b are not numbers
            """
            return a + b
        "#;

    let result = extract(&textwrap::dedent(code)).unwrap();

    assert_eq!(result.functions.len(), 1);

    let function = &result.functions[0];

    assert_eq!(function.name, "foo");
    assert_eq!(function.docstring.title, "Example docstring");
    assert_eq!(function.docstring.description, "");
    assert_eq!(function.docstring.arguments.len(), 2);

    let arguments = &function.docstring.arguments;

    assert_eq!(arguments[0].name, "a");
    assert_eq!(arguments[0].description, Some("a number".to_string()));
    assert_eq!(arguments[1].name, "b");
    assert_eq!(arguments[1].description, Some("another number".to_string()));

    assert_eq!(function.docstring.returns, "the sum of a and b");
    assert_eq!(function.docstring.raises.len(), 1);
    assert_eq!(function.docstring.raises[0].exception, "ValueError");
    assert_eq!(
        function.docstring.raises[0].description,
        Some("if a or b are not numbers".to_string())
    );
}

fn param(name: &str, annotation: Option<&str>) -> Parameter {
    Parameter { name: name.to_string(), annotation: annotation.map(|a| a.to_string()) }
}

#[test]
fn unannotated_parameter_is_left_out() {
    let code = "def f(a, b: int):\n    \"\"\"T\n\n    Args:\n        a: first\n        b: second\n    \"\"\"\n";
    let m = extract(code).unwrap();
    let f = &m.functions[0];
    assert_eq!(f.arguments.len(), 1);
    assert_eq!(f.arguments[0].name, "b");
    assert_eq!(f.arguments[0].type_, "int");
    assert_eq!(f.arguments[0].description, Some("second".to_string()));
    assert_eq!(f.docstring.arguments.len(), 2);
}

#[test]
fn merge_follows_signature_order() {
    let doc = Docstring::new_from_string("T\n\nArgs:\n    c: third\n    b: second\n    a: first\n    z: not a parameter\n");
    let sig = Signature {
        args: vec![param("a", Some("int")), param("b", Some("str")), param("c", Some("bool"))],
        kwonlyargs: vec![],
        kw_defaults: vec![],
    };
    let merged = merge_arguments(&doc.arguments, &sig);
    let names: Vec<&str> = merged.iter().map(|a| a.name.as_str()).collect();
    assert_eq!(names, vec!["a", "b", "c"]);
    assert_eq!(merged[0].description, Some("first".to_string()));
    assert_eq!(merged[2].type_, "bool");
}

#[test]
fn undocumented_parameter_has_no_description() {
    let doc = Docstring::new_from_string("T");
    let sig = Signature { args: vec![param("x", Some("int"))], kwonlyargs: vec![], kw_defaults: vec![] };
    let merged = merge_arguments(&doc.arguments, &sig);
    assert_eq!(merged.len(), 1);
    assert_eq!(merged[0].description, None);
    assert_eq!(merged[0].default, None);
}

#[test]
fn keyword_defaults_align_with_the_end() {
    let doc = Docstring::new_from_string("T");
    let sig = Signature {
        args: vec![],
        kwonlyargs: vec![param("a", Some("int")), param("b", Some("int")), param("c", Some("int"))],
        kw_defaults: vec!["2".to_string(), "3".to_string()],
    };
    let merged = merge_arguments(&doc.arguments, &sig);
    assert_eq!(merged[0].default, None);
    assert_eq!(merged[1].default, Some("2".to_string()));
    assert_eq!(merged[2].default, Some("3".to_string()));
}

#[test]
fn keyword_only_defaults_come_from_source() {
    let code = "def g(x: int, *, k: int, flag: bool = False, name: str = 'n'):\n    pass\n";
    let m = extract(code).unwrap();
    let f = &m.functions[0];
    assert_eq!(f.name, "g");
    assert_eq!(f.arguments.len(), 4);
    assert_eq!(f.arguments[0].default, None);
    assert_eq!(f.arguments[1].name, "k");
    assert_eq!(f.arguments[1].default, None);
    assert_eq!(f.arguments[2].default, Some("False".to_string()));
    assert_eq!(f.arguments[3].default, Some("'n'".to_string()));
    assert_eq!(f.docstring.title, "");
}

#[test]
fn annotations_are_written_back_as_source() {
    let code = "def h(items: list[int], m: Optional[str]):\n    '''Sum.'''\n    return 1\n";
    let m = extract(code).unwrap();
    let f = &m.functions[0];
    assert_eq!(f.arguments[0].type_, "list[int]");
    assert_eq!(f.arguments[1].type_, "Optional[str]");
    assert_eq!(f.docstring.title, "Sum.");
}

#[test]
fn only_top_level_defs_in_source_order() {
    let code = "x = 1\n\ndef one():\n    pass\n\nclass C:\n    def inner(self):\n        pass\n\ndef two():\n    '''Second.'''\n";
    let m = extract(code).unwrap();
    let names: Vec<&str> = m.functions.iter().map(|f| f.name.as_str()).collect();
    assert_eq!(names, vec!["one", "two"]);
    assert_eq!(m.functions[1].docstring.title, "Second.");
}

#[test]
fn first_statement_must_be_a_string() {
    let code = "def f():\n    x = 1\n    '''Not a docstring.'''\n";
    let m = extract(code).unwrap();
    assert_eq!(m.functions[0].docstring.title, "");
}

#[test]
fn unparsable_source_is_an_error() {
    assert!(matches!(extract("def broken(:\n"), Err(ExtractError::Syntax)));
}

#[test]
fn function_without_docstring_reads_as_empty() {
    let src = SourceFunction {
        name: "f".to_string(),
        docstring: None,
        signature: Signature { args: vec![param("a", Some("int"))], kwonlyargs: vec![], kw_defaults: vec![] },
    };
    let f = extract_function(&src);
    assert_eq!(f.name, "f");
    assert_eq!(f.docstring.title, "");
    assert_eq!(f.arguments.len(), 1);
    assert_eq!(f.arguments[0].description, None);
}

#[test]
fn definitions_keep_defs_in_order_with_present_defaults() {
    let dp = |n: &str, a: Option<&str>, d: Option<&str>| DefParameter {
        name: n.to_string(),
        annotation: a.map(|x| x.to_string()),
        default: d.map(|x| x.to_string()),
    };
    let stmts = vec![
        Statement::Other,
        Statement::FunctionDef {
            name: "f".to_string(),
            body_literals: vec![Some("Doc.".to_string()), None, Some("Later.".to_string())],
            posonlyargs: vec![dp("p", Some("int"), None)],
            args: vec![dp("x", Some("int"), Some("1"))],
            vararg: Some(dp("rest", Some("int"), None)),
            kwonlyargs: vec![dp("a", Some("int"), None), dp("b", None, Some("2"))],
            kwarg: None,
        },
        Statement::FunctionDef {
            name: "g".to_string(),
            body_literals: vec![None, Some("Not first.".to_string())],
            posonlyargs: vec![],
            args: vec![],
            vararg: None,
            kwonlyargs: vec![],
            kwarg: None,
        },
        Statement::Other,
    ];
    let defs = definitions(&stmts);
    assert_eq!(defs.len(), 2);
    assert_eq!(defs[1].name, "g");
    assert_eq!(defs[1].docstring, None);
    assert_eq!(defs[0].name, "f");
    assert_eq!(defs[0].docstring, Some("Doc.".to_string()));
    assert_eq!(defs[0].signature.args, vec![param("x", Some("int"))]);
    assert_eq!(defs[0].signature.kwonlyargs, vec![param("a", Some("int")), param("b", None)]);
    assert_eq!(defs[0].signature.kw_defaults, vec!["2".to_string()]);
}

#[test]
fn keyword_default_before_required_keyword_is_right_aligned() {
    let m = extract("def f(*, a: int = 1, b: int):\n    pass\n").unwrap();
    let f = &m.functions[0];
    assert_eq!(f.arguments[0].default, None);
    assert_eq!(f.arguments[1].default, Some("1".to_string()));
}

#[test]
fn collectors_and_positional_only_parameters_are_not_merged() {
    let code = "def f(p: int, /, x: int, *rest: int, k: int, **kw: int):\n    pass\n";
    let m = extract(code).unwrap();
    let names: Vec<&str> = m.functions[0].arguments.iter().map(|a| a.name.as_str()).collect();
    assert_eq!(names, vec!["x", "k"]);
}
