use docstring_md::docstrings::{parse_arguments, parse_fields, parse_raises, BodyPart, Docstring};

#[test]
fn it_parses_docstrings() {
    let docstring = r#"
        Fetches rows from a Smalltable.

        Retrieves rows pertaining to the given keys from the Table instance
        represented by table_handle.  String keys will be UTF-8 encoded.

        Args:
            table_handle: An open smalltable.Table instance.
            keys: A sequence of strings representing the key of each table
              row to fetch.  String keys will be UTF-8 encoded.
            require_all_keys: If True only rows with values set for all keys will be
              returned.

        Returns:
            A dict mapping keys to the corresponding table row data
            fetched. Each row is represented as a tuple of strings. For
            example:

            {b'Serak': ('Rigel VII', 'Preparer'),
             b'Zim': ('Irk', 'Invader'),
             b'Lrrr': ('Omicron Persei 8', 'Emperor')}

            Returned keys are always bytes.  If a key from the keys argument is
            missing from the dictionary, then that row was not found in the
            table (and require_all_keys must have been False).

        Raises:
            IOError: An error occurred accessing the smalltable.
        "#;

    let parsed_docstring = Docstring::new_from_string(docstring);

    assert_eq!(parsed_docstring.title, "Fetches rows from a Smalltable.");
    assert_eq!(
        parsed_docstring.description,
        "Retrieves rows pertaining to the given keys from the Table instance\nrepresented by table_handle.  String keys will be UTF-8 encoded."
    );

    assert_eq!(parsed_docstring.arguments.len(), 3);
    assert_eq!(parsed_docstring.arguments[0].name, "table_handle");
    assert_eq!(
        parsed_docstring.arguments[0].description,
        Some("An open smalltable.Table instance.".to_string())
    );
    assert_eq!(parsed_docstring.arguments[0].default, None);
    assert_eq!(parsed_docstring.arguments[0].type_, None);

    assert_eq!(parsed_docstring.arguments[1].name, "keys");
    assert_eq!(parsed_docstring.arguments[1].description, Some("A sequence of strings representing the key of each table\n  row to fetch.  String keys will be UTF-8 encoded.".to_string()));
    assert_eq!(parsed_docstring.arguments[1].default, None);
    assert_eq!(parsed_docstring.arguments[1].type_, None);

    assert_eq!(parsed_docstring.arguments[2].name, "require_all_keys");
    assert_eq!(
        parsed_docstring.arguments[2].description,
        Some("If True only rows with values set for all keys will be\n  returned.".to_string())
    );
    assert_eq!(parsed_docstring.arguments[2].default, None);
    assert_eq!(parsed_docstring.arguments[2].type_, None);

    assert_eq!(
        parsed_docstring.returns,
        "A dict mapping keys to the corresponding table row data\nfetched. Each row is represented as a tuple of strings. For\nexample:\n\n{b'Serak': ('Rigel VII', 'Preparer'),\n b'Zim': ('Irk', 'Invader'),\n b'Lrrr': ('Omicron Persei 8', 'Emperor')}\n\nReturned keys are always bytes.  If a key from the keys argument is\nmissing from the dictionary, then that row was not found in the\ntable (and require_all_keys must have been False)."
    );

    assert_eq!(parsed_docstring.raises.len(), 1);

    assert_eq!(parsed_docstring.raises[0].exception, "IOError");
    assert_eq!(
        parsed_docstring.raises[0].description,
        Some("An error occurred accessing the smalltable.".to_string())
    );
}

#[test]
fn it_parses_docstrings_with_code_snippets() {
    let docstring = r#"
        This is a docstring with code snippets

        >>> 1 + 1 = 2
        >>> 2 + 2 = 4
        >>> print("something")

        >>> 1 + 1 = 3
        >>> 2 + 2 = 5
        >>> print("something wrong")
        "#;

    let parsed_docstring = Docstring::new_from_string(docstring);

    assert_eq!(
        parsed_docstring.title,
        "This is a docstring with code snippets"
    );

    assert_eq!(parsed_docstring.body.len(), 2);

    assert_eq!(
        parsed_docstring.body[0],
        BodyPart::CodeSnippet("1 + 1 = 2\n2 + 2 = 4\nprint(\"something\")".to_string())
    );

    assert_eq!(
        parsed_docstring.body[1],
        BodyPart::CodeSnippet("1 + 1 = 3\n2 + 2 = 5\nprint(\"something wrong\")".to_string())
    );
}

#[test]
fn sections_of_a_short_docstring() {
    let text = "Fetches rows.\n\nDetail line.\n\nArgs:\n    x: a number\n\nReturns:\n    a value\n\nRaises:\n    IOError: bad access\n";
    let d = Docstring::new_from_string(text);
    assert_eq!(d.title, "Fetches rows.");
    assert_eq!(d.description, "Detail line.");
    assert_eq!(d.arguments.len(), 1);
    assert_eq!(d.arguments[0].name, "x");
    assert_eq!(d.arguments[0].description, Some("a number".to_string()));
    assert_eq!(d.returns, "a value");
    assert_eq!(d.raises.len(), 1);
    assert_eq!(d.raises[0].exception, "IOError");
    assert_eq!(d.raises[0].description, Some("bad access".to_string()));
    assert_eq!(d.body, vec![BodyPart::Text("Detail line.\n".to_string())]);
}

#[test]
fn code_then_blank_then_text() {
    let text = "Title\n\n>>> 1+1\n>>> 2+2\n\nplain words";
    let d = Docstring::new_from_string(text);
    assert_eq!(
        d.body,
        vec![
            BodyPart::CodeSnippet("1+1\n2+2".to_string()),
            BodyPart::Text("\nplain words".to_string()),
        ]
    );
}

#[test]
fn text_before_code_is_kept_unless_blank() {
    let d = Docstring::new_from_string("Title\n\nSome prose\n>>> x = 1\nafter");
    assert_eq!(
        d.body,
        vec![
            BodyPart::Text("Some prose".to_string()),
            BodyPart::CodeSnippet("x = 1".to_string()),
            BodyPart::Text("after".to_string()),
        ]
    );
    assert_eq!(d.description, "Some prose\n>>> x = 1\nafter");
}

#[test]
fn empty_docstring_gives_empty_parts() {
    let d = Docstring::new_from_string("");
    assert_eq!(d.title, "");
    assert_eq!(d.description, "");
    assert_eq!(d.returns, "");
    assert!(d.body.is_empty());
    assert!(d.arguments.is_empty());
    assert!(d.private_arguments.is_empty());
    assert!(d.raises.is_empty());
}

#[test]
fn title_only_docstring() {
    let d = Docstring::new_from_string("Just a title\nspread over two lines");
    assert_eq!(d.title, "Just a title spread over two lines");
    assert_eq!(d.description, "");
    assert!(d.body.is_empty());
}

#[test]
fn both_header_spellings_and_private_arguments() {
    let text = "T\n\nArguments:\n    a: first\nPrivate arguments:\n    _b: hidden\n";
    let d = Docstring::new_from_string(text);
    assert_eq!(d.arguments.len(), 1);
    assert_eq!(d.arguments[0].name, "a");
    assert_eq!(d.private_arguments.len(), 1);
    assert_eq!(d.private_arguments[0].name, "_b");
    assert_eq!(d.private_arguments[0].description, Some("hidden".to_string()));
}

#[test]
fn every_line_lands_somewhere() {
    let text = "T1\nT2\n\nbody a\nbody b\nArgs:\n    a: x\n    b: y\nReturns:\n    r\nRaises:\n    E: e";
    let d = Docstring::new_from_string(text);
    assert_eq!(d.title, "T1 T2");
    assert_eq!(d.description, "body a\nbody b");
    assert_eq!(d.arguments.len(), 2);
    assert_eq!(d.returns, "r");
    assert_eq!(d.raises.len(), 1);
}

#[test]
fn field_with_continuations() {
    let fields = parse_fields("name: seed text\n  more words\n  last words");
    assert_eq!(fields.len(), 1);
    assert_eq!(fields[0].key, "name");
    assert_eq!(fields[0].description, "seed text\n  more words\n  last words");
}

#[test]
fn field_splits_on_first_colon_only() {
    let fields = parse_fields("url: see http://example.org\nother:");
    assert_eq!(fields.len(), 2);
    assert_eq!(fields[0].description, "see http://example.org");
    assert_eq!(fields[1].key, "other");
    assert_eq!(fields[1].description, "");
}

#[test]
fn continuation_before_any_field_is_dropped() {
    let fields = parse_fields("stray line\nkey: value");
    assert_eq!(fields.len(), 1);
    assert_eq!(fields[0].key, "key");
}

#[test]
fn section_text_is_dedented_before_reading() {
    let args = parse_arguments("        a: first\n          more\n        b: second\n");
    assert_eq!(args.len(), 2);
    assert_eq!(args[0].name, "a");
    assert_eq!(args[0].description, Some("first\n  more".to_string()));
    assert_eq!(args[1].name, "b");
    let raises = parse_raises("    ValueError: bad\n    KeyError: missing\n");
    assert_eq!(raises.len(), 2);
    assert_eq!(raises[1].exception, "KeyError");
    assert_eq!(raises[1].description, Some("missing".to_string()));
}

#[test]
fn returns_are_dedented_and_trimmed() {
    let d = Docstring::new_from_string("T\n\nReturns:\n        line one\n          line two\n");
    assert_eq!(d.returns, "line one\n  line two");
}

#[test]
fn seed_with_trailing_spaces_joins_its_continuations() {
    let args = parse_arguments("name: seed   \n  more words\n  last words\n");
    assert_eq!(args.len(), 1);
    assert_eq!(args[0].name, "name");
    assert_eq!(args[0].description, Some("seed\n  more words\n  last words".to_string()));
    let raises = parse_raises("OSError:   cannot read\n  the file\n");
    assert_eq!(raises.len(), 1);
    assert_eq!(raises[0].exception, "OSError");
    assert_eq!(raises[0].description, Some("cannot read\n  the file".to_string()));
}

#[test]
fn empty_sections_read_as_nothing() {
    assert!(parse_arguments("").is_empty());
    assert!(parse_raises("").is_empty());
}

#[test]
fn field_round_trip_with_crlf_line_endings() {
    let args = parse_arguments("name: seed  \r\n  more words\r\n  last words\r\n");
    assert_eq!(args.len(), 1);
    assert_eq!(args[0].name, "name");
    assert_eq!(args[0].description, Some("seed\n  more words\n  last words".to_string()));
}
