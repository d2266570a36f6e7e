use acon::{Acon, AconError, Table};

fn parse(input: &str) -> Acon {
    input.parse::<Acon>().unwrap()
}

#[test]
fn doc_dot_pathing() {
    let input = r#"
{ table
   key value
  [ my-array
    { subtable
      anything goes
    }
  ]
}"#;
    let result = parse(input);
    assert_eq!(result.path("table.my-array.0.subtable.anything").unwrap().string(), "goes");
}

#[test]
fn doc_escape_codes_are_kept_as_written() {
    let input = r#"
  key(32)with_space(46)and_dot value(10)with(10)new(10)lines, which is interesting
"#;
    let result = parse(input);
    assert_eq!(
        result.path("key(32)with_space(46)and_dot").unwrap().string(),
        "value(10)with(10)new(10)lines, which is interesting"
    );
}

#[test]
fn doc_path_with_dollar() {
    let input = r#"
 { table
   [ array
     value
 $
 "#;
    let result = parse(input);
    assert_eq!(result.path("table.array.0").unwrap().string(), "value");
}

#[test]
fn doc_from_str_gives_table() {
    let input = r#"
   key value
   { table-name
     key value
     key2 value2
   }
 "#;
    match parse(input) {
        Acon::Table(_) => {}
        _ => panic!("not a table"),
    }
}

#[test]
fn value_words_collapse_to_single_spaces() {
    let acon = parse("key   several \t words   here  \n");
    assert_eq!(acon.path("key").unwrap().string(), "several words here");
}

#[test]
fn key_without_value_is_empty_string() {
    let acon = parse("lonely\n");
    assert_eq!(acon.path("lonely").unwrap().string(), "");
}

#[test]
fn empty_input_is_empty_table() {
    let acon = parse("");
    assert_eq!(acon.table().len(), 0);
}

#[test]
fn crlf_lines() {
    let acon = parse("a b\r\n[ list\r\n\r\nx\r\n]\r\n");
    assert_eq!(acon.path("a").unwrap().string(), "b");
    assert_eq!(acon.path("list.0").unwrap().string(), "");
    assert_eq!(acon.path("list.1").unwrap().string(), "x");
}

#[test]
fn unicode_whitespace_separates_words() {
    let acon = parse("key\u{3000}one\u{a0}two\n");
    assert_eq!(acon.path("key").unwrap().string(), "one two");
}

#[test]
fn error_excessive_closing_delimiter() {
    assert_eq!("a b\n}\n".parse::<Acon>(), Err(AconError::ExcessiveClosingDelimiter(Some(2))));
}

#[test]
fn error_wrong_closing_expected_array() {
    assert_eq!("[ x\n}\n".parse::<Acon>(), Err(AconError::WrongClosingDelimiterExpectedArray(Some(2))));
}

#[test]
fn error_wrong_closing_expected_table() {
    assert_eq!("{ x\n]\n".parse::<Acon>(), Err(AconError::WrongClosingDelimiterExpectedTable(Some(2))));
    assert_eq!("]\n".parse::<Acon>(), Err(AconError::WrongClosingDelimiterExpectedTable(Some(1))));
}

#[test]
fn error_overwriting_key_at_dollar() {
    let input = "{ t\n$\n{ t\n$\n";
    assert_eq!(input.parse::<Acon>(), Err(AconError::OverwritingKey(Some(4))));
}

#[test]
fn error_multiple_top_nodes_and_top_array() {
    assert_eq!("{ t\n".parse::<Acon>(), Err(AconError::MultipleTopNodes));
    assert_eq!("{ t\n[ a\n".parse::<Acon>(), Err(AconError::TopNodeIsArray));
}

#[test]
fn reason_texts() {
    assert_eq!(
        AconError::OverwritingKey(Some(12)).reason(),
        "On line 12, the key is already present in the table."
    );
    assert_eq!(AconError::OverwritingKey(None).reason(), "The key is already present in the table.");
    assert_eq!(
        AconError::MultipleTopNodes.reason(),
        "There is an unterminated table, you can append '$' to the input or try terminating it by finding a flaw in the input."
    );
    assert_eq!(
        AconError::ExcessiveClosingDelimiter(Some(3)).reason(),
        "On line 3, there's a closing delimiter that has no matching opening delimiter. Note that\nall delimiters must be the first word on a line to count as such. The only delimiters are {, }, [, ], and $."
    );
    assert_eq!(
        AconError::WrongClosingDelimiterExpectedTable(Some(100)).reason(),
        "On line 100, the closing delimiter did not match the table closing delimiter }. Make sure all delimiters\nuntil the end of the input. Try appending a ']' to the input to see if this solves the issue."
    );
    assert_eq!(
        AconError::TopNodeIsArray.reason(),
        "The top of the stack is an array. This indicates that there is an unterminated array all the way\nuntil the end of the input. Try appending a ']' to the input to see if this solves the issue."
    );
    assert_eq!(
        AconError::InternalStringTop(Some(0)).reason(),
        "On line 0, there's a string on the top of the internal parse stack. This is impossible unless there is a\nbug in the parser. Please report this along with the input to the repository maintainer of ACON."
    );
    assert_eq!(
        AconError::MissingStackTop(None).reason(),
        "The top of the stack is missing. This indicates an internal error, as it's never supposed to\nhappen. Please contact the maintainer of the ACON repository."
    );
    assert_eq!(
        AconError::WrongClosingDelimiterExpectedArray(Some(7)).reason(),
        "On line 7, the closing delimiter did not match the array closing delimiter ]. Make sure all delimiters\nmatch up in the input. Some editors can help you by jumping from/to each delimiter."
    );
}

#[test]
fn array_indices_parse_like_usize() {
    let acon = parse("[ a\nzero\none\n]\n");
    let a = acon.get("a").unwrap();
    assert_eq!(a.get("1").unwrap().string(), "one");
    assert_eq!(a.get("+1").unwrap().string(), "one");
    assert_eq!(a.get("01").unwrap().string(), "one");
    assert!(a.get("-1").is_none());
    assert!(a.get("+").is_none());
    assert!(a.get("").is_none());
    assert!(a.get("2").is_none());
    assert!(a.get("99999999999999999999999999").is_none());
    assert!(a.get("0").unwrap().get("0").is_none());
}

#[test]
fn get_mut_writes_into_the_tree() {
    let mut acon = parse("{ t\nk v\n}\n");
    {
        let t = acon.get_mut("t").unwrap();
        *t = Acon::String("replaced".to_string());
    }
    assert_eq!(acon.path("t").unwrap().string(), "replaced");
    assert!(acon.get_mut("missing").is_none());
}

#[test]
fn path_mut_then_path_reads_the_written_value() {
    let mut acon = parse("{ a\n[ b\nx\ny\n]\n}\n");
    {
        let y = acon.path_mut("a.b.1").unwrap();
        *y = Acon::String("written".to_string());
    }
    assert_eq!(acon.path("a.b.1").unwrap().string(), "written");
    assert_eq!(acon.path("a.b.0").unwrap().string(), "x");
    assert!(acon.path_mut("a.c").is_none());
}

#[test]
fn path_concat_follows_segments() {
    let acon = parse("{ a\n{ b\nc d\n}\n}\n");
    let direct = acon.path("a.b.c").unwrap();
    let stepwise = acon.path("a").unwrap().path("b.c").unwrap();
    assert_eq!(direct, stepwise);
    assert_eq!(acon.path("a").unwrap().get("b"), acon.path("a.b"));
}

#[test]
fn comment_line_is_ignored() {
    let with = parse("x 1\n# a comment line\ny 2\n");
    let without = parse("x 1\ny 2\n");
    assert_eq!(with, without);
}

#[test]
fn dollar_closes_all() {
    let acon = parse("{ a\n{ b\n[ c\nitem\n$ ignored words\nafter top\n");
    assert_eq!(acon.path("a.b.c.0").unwrap().string(), "item");
    assert_eq!(acon.path("after").unwrap().string(), "top");
}

#[test]
fn write_then_parse_gives_the_tree_back() {
    let acon = parse("zeta last\nalpha first value\n{ inner\nk v w\n{\ndeep yes\n}\n}\nempty\n");
    let text = acon.to_string().unwrap();
    let back = parse(&text);
    assert_eq!(back, acon);
}

#[test]
fn written_text_is_exact() {
    let acon = parse("b 2\na 1\n{ t\nk v\n}\n[ arr\nx\n]\n");
    let text = acon.to_string().unwrap();
    assert_eq!(text, "a 1\n[ arr\n\t x\n\n]\nb 2\n{ t\n\tk v\n\n}\n");
    assert!(Acon::String("s".to_string()).to_string().is_none());
    assert!(Acon::Array(Vec::new()).to_string().is_none());
}

#[test]
fn array_gains_an_empty_element_when_written_and_parsed() {
    let acon = parse("[ arr\nx\n]\n");
    let back = parse(&acon.to_string().unwrap());
    assert_eq!(back.path("arr.0").unwrap().string(), "x");
    assert_eq!(back.path("arr.1").unwrap().string(), "");
}

#[test]
fn table_keys_are_kept_in_order() {
    let mut t = Table::new();
    assert!(t.is_empty());
    assert_eq!(t.insert("b".to_string(), Acon::String("2".to_string())), None);
    assert_eq!(t.insert("a".to_string(), Acon::String("1".to_string())), None);
    assert_eq!(t.insert("ä".to_string(), Acon::String("3".to_string())), None);
    assert_eq!(
        t.insert("b".to_string(), Acon::String("two".to_string())),
        Some(Acon::String("2".to_string()))
    );
    assert_eq!(t.len(), 3);
    assert_eq!(t.key_at(0), "a");
    assert_eq!(t.key_at(1), "b");
    assert_eq!(t.key_at(2), "ä");
    assert_eq!(t.get("b").unwrap().string(), "two");
    assert_eq!(t.value_at(0).string(), "1");
    assert!(t.contains_key("a"));
    assert!(!t.contains_key("c"));
    if let Some(v) = t.get_mut("a") {
        *v = Acon::String("one".to_string());
    }
    assert_eq!(t.get("a").unwrap().string(), "one");
}

#[test]
fn clone_is_equal() {
    let acon = parse("{ a\n[ b\nx\n]\nk v\n}\n");
    let copy = acon.clone();
    assert_eq!(copy, acon);
    let t = acon.table().clone();
    assert_eq!(&t, acon.table());
}

#[test]
fn accessors_give_the_inner_values() {
    let acon = parse("[ a\nx\n]\ns t\n");
    assert_eq!(acon.get("a").unwrap().array().len(), 1);
    assert_eq!(acon.get("s").unwrap().string(), "t");
    assert!(acon.table().contains_key("a"));
    assert!(acon.get("s").unwrap().get("x").is_none());
}

#[test]
fn dollar_equals_closing_delimiters() {
    let with_dollar = "{ a\n[ b\nx\n$ skipped words\n".parse::<Acon>();
    let written_out = "{ a\n[ b\nx\n]\n}\n".parse::<Acon>();
    assert_eq!(with_dollar, written_out);
    assert!(with_dollar.is_ok());
    let clash_dollar = "{ t\n$\n{ t\n[ c\n$ x\n".parse::<Acon>();
    let clash_written = "{ t\n$\n{ t\n[ c\n]\n}\n".parse::<Acon>();
    assert_eq!(clash_dollar, Err(AconError::OverwritingKey(Some(5))));
    assert_eq!(clash_written, Err(AconError::OverwritingKey(Some(6))));
}

#[test]
fn blank_lines_in_tables_are_ignored() {
    let with = parse("{ t\nk v\n\n  \t\nj w\n}\n");
    let without = parse("{ t\nk v\nj w\n}\n");
    assert_eq!(with, without);
}

#[test]
fn built_tree_round_trips() {
    let mut inner = Table::new();
    inner.insert("z".to_string(), Acon::String("last one".to_string()));
    inner.insert("m".to_string(), Acon::String("".to_string()));
    let mut root = Table::new();
    root.insert("zz".to_string(), Acon::String("x".to_string()));
    root.insert("".to_string(), Acon::Table(inner));
    root.insert("a".to_string(), Acon::String("first".to_string()));
    let tree = Acon::Table(root);
    let back = parse(&tree.to_string().unwrap());
    assert_eq!(back, tree);
}

#[test]
fn table_remove() {
    let mut t = Table::new();
    t.insert("a".to_string(), Acon::String("1".to_string()));
    t.insert("b".to_string(), Acon::String("2".to_string()));
    assert_eq!(t.remove("a"), Some(Acon::String("1".to_string())));
    assert_eq!(t.remove("a"), None);
    assert_eq!(t.len(), 1);
    assert_eq!(t.key_at(0), "b");
}

#[test]
fn final_line_break_changes_nothing() {
    assert_eq!(parse("{ t\nk v\n}"), parse("{ t\nk v\n}\n"));
    assert_eq!(parse("k v\r"), parse("k v\r\n"));
}

#[test]
fn comment_and_blank_line_after_unterminated_last_line() {
    assert_eq!(parse("{ t\nk v\n}\n# note"), parse("{ t\nk v\n}"));
    assert_eq!(parse("{ t\nk v\n}\n  "), parse("{ t\nk v\n}"));
}

#[test]
fn dollar_without_final_line_breaks() {
    let with_dollar = "{ a\n[ b\nx\n$ rest".parse::<Acon>();
    let written_out = "{ a\n[ b\nx\n]\n}".parse::<Acon>();
    assert_eq!(with_dollar, written_out);
    assert!(with_dollar.is_ok());
}
