use ts_macro::closure::select_original_macro;
use ts_macro::finder::LineError;
use ts_macro::generate::{cargo_warning_lines, ts_module_source};
use ts_macro::scan::find_delimited;
use ts_macro::lexer::{lex_space, new_cursor, raw_string_start_regex, skip_literal, skip_whitespace, LexError};
use ts_macro::text::white_space;
use ts_macro::{ClosureSig, Parser};

fn chars(s: &str) -> Vec<char> {
    s.chars().collect()
}

#[test]
fn white_space_is_char_is_whitespace() {
    for u in 0..=0x10FFFFu32 {
        if let Some(c) = char::from_u32(u) {
            assert_eq!(white_space(c), c.is_whitespace(), "U+{:04X}", u);
        }
    }
}

#[test]
fn lexer_also_skips_direction_marks() {
    assert!(lex_space('\u{200e}'));
    assert!(lex_space('\u{200f}'));
    assert!(lex_space('\u{3000}'));
    assert!(!lex_space('a'));
}

#[test]
fn warning_lines_follow_str_lines() {
    for message in ["", "one", "a\nb", "a\r\nb\r\n", "x\n\ny\n", "\n", "trail\r", "-- error --\n{:?}\nend"] {
        let expected: Vec<String> = message.lines().map(|l| format!("cargo:warning={}", l)).collect();
        assert_eq!(cargo_warning_lines(message), expected, "{:?}", message);
    }
}

#[test]
fn warnings_are_one_line_each() {
    assert_eq!(
        cargo_warning_lines("a\nb\r\nc"),
        vec!["cargo:warning=a".to_string(), "cargo:warning=b".to_string(), "cargo:warning=c".to_string()]
    );
    assert_eq!(cargo_warning_lines("whole"), vec!["cargo:warning=whole".to_string()]);
}

#[test]
fn line_error_text_counts_lines_from_one() {
    let e = LineError(4, "unexpected token".to_string());
    assert_eq!(e.to_text(), "5:unexpected token");
    let e = e.add_line(3);
    assert_eq!(e.0, 7);
    assert_eq!(e.to_text(), "8:unexpected token");
    let l = LineError::from(LexError { line: 2 });
    assert_eq!(l.0, 2);
    assert_eq!(l.1, "Lexing error");
}

#[test]
fn last_stringify_carries_the_original_input() {
    let p = |v: &[&str]| v.iter().map(|s| s.to_string()).collect::<Vec<String>>();
    let paths = vec![p(&["quote"]), p(&["stringify"]), p(&["std", "stringify"]), p(&["stringify"]), p(&["x"])];
    assert_eq!(select_original_macro(&paths), Some(3));
    assert_eq!(select_original_macro(&vec![p(&["std", "stringify"]), p(&["concat"])]), None);
    assert_eq!(select_original_macro(&vec![]), None);
}

#[test]
fn signatures_drop_whitespace() {
    assert_eq!(ClosureSig::from_stringified("a + b ;").std_body, "{a+b;}");
    assert_eq!(ClosureSig::from_body_text("{ return\n\t1 ; }").std_body, "{return1;}");
    assert_eq!(ClosureSig::from_body_text("\u{3000}x\u{85}").std_body, "x");
}

#[test]
fn whitespace_does_not_change_the_name() {
    let a = ClosureSig::from_body_text("{ let a = \"x y\"; }");
    let b = ClosureSig::from_body_text("{leta=\"x   y\"  ;}");
    assert_eq!(a, b);
    assert_eq!(a.extern_name(), b.extern_name());
    assert_eq!(a.name_hash(), b.name_hash());
}

#[test]
fn a_signature_is_its_own_signature() {
    let a = ClosureSig::from_body_text("{ f ( 1 , 2 ) }");
    let again = ClosureSig::from_body_text(&a.std_body);
    assert_eq!(a, again);
}

#[test]
fn different_bodies_get_different_names() {
    let a = ClosureSig::from_body_text("{ return 1; }");
    let b = ClosureSig::from_body_text("{ return 2; }");
    assert_ne!(a.extern_name(), b.extern_name());
    assert!(a.extern_name().starts_with("__cpp_closure_"));
    let digits = &a.extern_name()["__cpp_closure_".len()..];
    assert_eq!(digits, a.name_hash().to_string());
}

#[test]
fn module_for_one_closure() {
    let mut parser = Parser::new();
    parser.parse_source("m.rs".to_string(), Some("ts_block!({ return 1; });".to_string())).unwrap();
    let name = parser.closures[0].sig.extern_name();
    let text = ts_module_source(&parser.closures, "b\\lib.rs", [10, 20, 30, 40]);
    let expected = format!(
        "/*line 10 \"b\\\\lib.rs\"*/\n\nconst {n} = () => {{\n    //line 1 \"m.rs\"\n            return 1; \n}}\n/*line 20 \"b\\\\lib.rs\"*/\n\nconst invoke = (func_name: string) => {{\n/*line 30 \"b\\\\lib.rs\"*/\n\n    if(func_name === \"{n}\") {{ return {n}(); }}/*line 40 \"b\\\\lib.rs\"*/\n\n    return \"\";\n}}\n\nimport {{ argv }} from 'node:process';\nconsole.log(invoke(argv[2]));",
        n = name
    );
    assert_eq!(text, expected);
}

#[test]
fn module_without_closures() {
    let text = ts_module_source(&vec![], "f.rs", [1, 2, 3, 4]);
    assert_eq!(
        text,
        "/*line 2 \"f.rs\"*/\n\nconst invoke = (func_name: string) => {\n/*line 4 \"f.rs\"*/\n\n    return \"\";\n}\n\nimport { argv } from 'node:process';\nconsole.log(invoke(argv[2]));"
    );
}

#[test]
fn module_holds_every_closure() {
    let mut parser = Parser::new();
    let src = "ts_block!({ a }); ts_block!({ b }); ts_block!({ c });";
    parser.parse_source("m.rs".to_string(), Some(src.to_string())).unwrap();
    let text = ts_module_source(&parser.closures, "g.rs", [1, 1, 1, 1]);
    for c in &parser.closures {
        let n = c.sig.extern_name();
        assert!(text.contains(&format!("\nconst {} = () => {{\n    {}\n}}\n", n, c.body_str)));
        assert!(text.contains(&format!("if(func_name === \"{n}\") {{ return {n}(); }}", n = n)));
    }
}

#[test]
fn skip_literal_on_each_kind() {
    let re = raw_string_start_regex().unwrap();
    let cases: [(&str, Option<usize>); 12] = [
        ("\"a\\\"b\" rest", Some(6)),
        ("b\"x\\n\" rest", Some(6)),
        ("'a' rest", Some(3)),
        ("'\\u{1F600}' rest", Some(11)),
        ("'life rest", Some(5)),
        ("b'\\x7f' rest", Some(7)),
        ("r\"raw\" rest", Some(6)),
        ("r##\"a\"#b\"## rest", Some(11)),
        ("br#\"x\"# rest", Some(7)),
        ("rust", None),
        ("b rest", None),
        ("x", None),
    ];
    for (text, len) in cases {
        let cs = chars(text);
        let cur = new_cursor(&cs);
        let (after, found) = skip_literal(cur, &re).unwrap();
        match len {
            Some(n) => {
                assert!(found, "{:?}", text);
                assert_eq!(after.pos, n, "{:?}", text);
            }
            None => {
                assert!(!found, "{:?}", text);
                assert_eq!(after.pos, 0, "{:?}", text);
            }
        }
    }
}

#[test]
fn skip_literal_errors_carry_the_line() {
    let re = raw_string_start_regex().unwrap();
    for text in ["\"open\n\n", "b'ab'", "r#\"open\"", "b\"é\""] {
        let cs = chars(text);
        let cur = new_cursor(&cs);
        assert!(skip_literal(cur, &re).is_err(), "{:?}", text);
    }
    let cs = chars("\"a\nb\nc");
    match skip_literal(new_cursor(&cs), &re) {
        Err(e) => assert_eq!(e.line, 0),
        Ok(_) => panic!("an unterminated string lexed"),
    }
}

#[test]
fn cursor_counts_bytes_lines_and_columns() {
    let cs = chars("é\n  // c\n /* a /* b */ */x");
    let cur = skip_whitespace(new_cursor(&cs).advance(1));
    assert_eq!(cur.pos, cs.len() - 1);
    assert_eq!(cur.line, 2);
    assert_eq!(cur.column, 16);
    assert_eq!(cur.off as usize, "é\n  // c\n /* a /* b */ */".len());
}

#[test]
fn skipping_whitespace_twice_moves_no_further() {
    let cases: [(&str, usize); 6] = [
        ("  // a\n /* b */ x", 16),
        ("\u{200e}\t\n", 3),
        ("  /* open", 0),
        ("// to the end", 13),
        ("x", 0),
        ("", 0),
    ];
    for (text, expected) in cases {
        let cs = chars(text);
        let once = skip_whitespace(new_cursor(&cs));
        assert_eq!(once.pos, expected, "{:?}", text);
        let twice = skip_whitespace(once);
        assert_eq!(twice.pos, once.pos, "{:?}", text);
    }
}

#[test]
fn module_lays_out_functions_then_cases_in_order() {
    let mut parser = Parser::new();
    let src = "ts_block!({ return 'a'; }); ts_block!({ return 'b'; });";
    parser.parse_source("m.rs".to_string(), Some(src.to_string())).unwrap();
    let text = ts_module_source(&parser.closures, "g.rs", [1, 2, 3, 4]);
    let names: Vec<String> = parser.closures.iter().map(|c| c.sig.extern_name()).collect();
    let def0 = text.find(&format!("\nconst {} = ", names[0])).unwrap();
    let def1 = text.find(&format!("\nconst {} = ", names[1])).unwrap();
    let head = text.find("const invoke = (func_name: string) => {").unwrap();
    let case0 = text.find(&format!("if(func_name === \"{}\")", names[0])).unwrap();
    let case1 = text.find(&format!("if(func_name === \"{}\")", names[1])).unwrap();
    assert!(def0 < def1 && def1 < head && head < case0 && case0 < case1);
    assert!(text.ends_with("\n    return \"\";\n}\n\nimport { argv } from 'node:process';\nconsole.log(invoke(argv[2]));"));
}

#[test]
fn found_delimiter_is_the_needle() {
    let re = raw_string_start_regex().unwrap();
    let cs = chars("a (b[c]) \"é]\"\n ] x");
    let cur = new_cursor(&cs);
    let found = find_delimited(cur, ']', &re).unwrap();
    assert_eq!(found.pos, 15);
    assert_eq!(cs[found.pos], ']');
    assert_eq!(found.line, 1);
    assert_eq!(found.off as usize, "a (b[c]) \"é]\"\n ".len());
}

#[test]
fn the_delimiter_found_is_the_first_outside_literals_and_brackets() {
    let re = raw_string_start_regex().unwrap();
    // `]` inside a string, a comment and a bracket pair comes before the one found
    let cs = chars("\"]\" /* ] */ [ ] ] ]");
    let found = find_delimited(new_cursor(&cs), ']', &re).unwrap();
    assert_eq!(found.pos, 16);
}
