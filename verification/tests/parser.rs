use std::collections::hash_map::DefaultHasher;
use std::hash::{Hash, Hasher};

use ts_macro::{ClosureSig, Error, Parser};

const README_MAIN: &str = "use ts_macro::ts_block;

fn main() {
    let r1 = ts_block!({
        let str: number[] = [\"Hello\", \"TS\", \"World\"];
        return str.join(\" \");
    });
    println!(\"{}\", r1);

    let r2 = ts_block! {{
        let now = new Date();
        return now.toISOString();
    }};
    println!(\"{}\", r2);
}
";

fn parse(text: &str) -> (Parser, Result<(), Error>) {
    let mut parser = Parser::new();
    let r = parser.parse_source("src/main.rs".to_string(), Some(text.to_string()));
    (parser, r)
}

#[test]
fn readme_example_yields_two_closures() {
    let (parser, r) = parse(README_MAIN);
    assert!(r.is_ok());
    assert_eq!(parser.closures.len(), 2);
    assert_eq!(parser.current_path, "src/main.rs");

    let first = &parser.closures[0];
    assert_eq!(
        first.body_str,
        "//line 4 \"src/main.rs\"\n                        \n        let str: number[] = [\"Hello\", \"TS\", \"World\"];\n        return str.join(\" \");\n    "
    );
    assert_eq!(
        first.sig.std_body,
        "{letstr:number[]=[\"Hello\",\"TS\",\"World\"];returnstr.join(\"\");}"
    );
    assert_eq!(first.callback_offset, 0);

    let second = &parser.closures[1];
    assert_eq!(
        second.body_str,
        "//line 10 \"src/main.rs\"\n                         \n        let now = new Date();\n        return now.toISOString();\n    "
    );
    assert_eq!(second.sig.std_body, "{letnow=newDate();returnnow.toISOString();}");
}

#[test]
fn build_side_and_macro_side_agree_on_names() {
    let (parser, _) = parse(README_MAIN);
    // what `stringify!` gives the derive for the first block
    let macro_side = ClosureSig::from_stringified(
        "let str : number [] = [\"Hello\", \"TS\", \"World\"] ; return str . join(\" \") ;",
    );
    assert_eq!(parser.closures[0].sig.std_body, macro_side.std_body);
    assert_eq!(parser.closures[0].sig.extern_name(), macro_side.extern_name());
}

#[test]
fn name_hash_is_the_default_hash_of_the_signature() {
    for body in ["", "{}", "{return1;}", "{letx=\"é→\";}"] {
        let sig = ClosureSig { std_body: body.to_string() };
        let mut hasher = DefaultHasher::new();
        sig.hash(&mut hasher);
        assert_eq!(sig.name_hash(), hasher.finish());
        assert_eq!(sig.extern_name(), format!("__cpp_closure_{}", hasher.finish()));
        // an identifier token made of the name prints as the name
        let ident = proc_macro2::Ident::new(&sig.extern_name(), proc_macro2::Span::call_site());
        assert_eq!(ident.to_string(), sig.extern_name());
    }
}

#[test]
fn unreadable_file() {
    let mut parser = Parser::new();
    let r = parser.parse_source("missing.rs".to_string(), None);
    match r {
        Err(Error::ParseCannotOpenFile { src_path }) => assert_eq!(src_path, "missing.rs"),
        other => panic!("unexpected {:?}", other),
    }
    assert!(parser.closures.is_empty());
    assert_eq!(parser.current_path, "");
}

#[test]
fn unsafe_closure_and_square_brackets() {
    let (parser, r) = parse("fn f() { ts_block![unsafe { return 1; }]; }");
    assert!(r.is_ok());
    assert_eq!(parser.closures.len(), 1);
    assert_eq!(parser.closures[0].sig.std_body, "{return1;}");
    assert_eq!(parser.closures[0].body_str, "//line 1 \"src/main.rs\"\n                            return 1; ");
}

#[test]
fn macros_in_comments_and_strings_are_skipped() {
    let text = "// ts_block!({ a })\n/* ts_block!({ b }) /* nested */ */\nlet s = \"ts_block!({ c })\";\nlet r = r#\"ts_block!({ d })\"#;\nts_block!({ e });";
    let (parser, r) = parse(text);
    assert!(r.is_ok());
    assert_eq!(parser.closures.len(), 1);
    assert_eq!(parser.closures[0].sig.std_body, "{e}");
}

#[test]
fn other_identifiers_and_missing_bang_are_skipped() {
    let (parser, r) = parse("ts_blocks!({ a }); r#ts_block!({ b }); ts_block ({ c }); ts_block ! { { d } }");
    assert!(r.is_ok());
    // a raw identifier names the same macro
    assert_eq!(parser.closures.len(), 2);
    assert_eq!(parser.closures[0].sig.std_body, "{b}");
    assert_eq!(parser.closures[1].sig.std_body, "{d}");
}

#[test]
fn trailing_token_is_a_macro_error() {
    let (parser, r) = parse("\nts_block!({ a } b)");
    match r {
        Err(Error::MacroError { src_path, error }) => {
            assert_eq!(src_path, "src/main.rs");
            assert_eq!(error.0, 1);
            assert_eq!(error.1, "unexpected token");
            assert_eq!(error.to_text(), "2:unexpected token");
        }
        other => panic!("unexpected {:?}", other),
    }
    assert!(parser.closures.is_empty());
}

#[test]
fn contents_without_braces_are_a_lexing_error() {
    let (_, r) = parse("ts_block!(a b)");
    match r {
        Err(Error::MacroError { error, .. }) => {
            assert_eq!(error.0, 0);
            assert_eq!(error.1, "Lexing error");
        }
        other => panic!("unexpected {:?}", other),
    }
}

#[test]
fn only_unsafe_is_missing_a_body() {
    let (_, r) = parse("ts_block!(unsafe)");
    match r {
        // no brace at all: the body search fails first
        Err(Error::MacroError { error, .. }) => assert_eq!(error.1, "Lexing error"),
        other => panic!("unexpected {:?}", other),
    }
}

#[test]
fn contents_that_do_not_tokenize() {
    let (_, r) = parse("ts_block!({ a } \\ )");
    match r {
        Err(Error::MacroError { error, .. }) => assert_eq!(error.1, "TokenStream parse error"),
        other => panic!("unexpected {:?}", other),
    }
}

#[test]
fn unbalanced_macro_is_a_lex_error() {
    let (parser, r) = parse("fn main() {\n    ts_block!({ a )\n}");
    match r {
        Err(Error::LexError { src_path, line }) => {
            assert_eq!(src_path, "src/main.rs");
            assert_eq!(line, 1);
        }
        other => panic!("unexpected {:?}", other),
    }
    assert!(parser.closures.is_empty());
}

#[test]
fn bad_literal_is_a_lex_error() {
    let (_, r) = parse("let a = 1;\nlet s = \"unterminated");
    match r {
        Err(Error::LexError { line, .. }) => assert_eq!(line, 1),
        other => panic!("unexpected {:?}", other),
    }
}

#[test]
fn multibyte_character_outside_literals_stops_the_scan() {
    let (_, r) = parse("let a = 1;\nlet b = a → 2;");
    match r {
        Err(Error::SplitChar { line, .. }) => assert_eq!(line, 1),
        other => panic!("unexpected {:?}", other),
    }
    // in identifiers, literals and comments it is fine
    let (parser, r) = parse("let café = \"→\"; // →\nts_block!({ return 'é'; });");
    assert!(r.is_ok());
    assert_eq!(parser.closures.len(), 1);
}

#[test]
fn closures_found_before_an_error_stay_recorded() {
    let (parser, r) = parse("ts_block!({ a }); ts_block!({ b } c)");
    assert!(r.is_err());
    assert_eq!(parser.closures.len(), 1);
    assert_eq!(parser.closures[0].sig.std_body, "{a}");
}

#[test]
fn a_second_file_appends() {
    let mut parser = Parser::new();
    parser.parse_source("a.rs".to_string(), Some("ts_block!({ a });".to_string())).unwrap();
    parser.parse_source("b\\c.rs".to_string(), Some("ts_block!({ b });".to_string())).unwrap();
    assert_eq!(parser.closures.len(), 2);
    assert_eq!(parser.current_path, "b\\c.rs");
    assert_eq!(parser.closures[1].body_str, "//line 1 \"b\\\\c.rs\"\n            b ");
}

#[test]
fn callback_offset_is_the_callback_count() {
    let mut parser = Parser::new();
    parser.callbacks_count = 7;
    parser.parse_source("a.rs".to_string(), Some("ts_block!({ a }); ts_block!({ b });".to_string())).unwrap();
    assert!(parser.closures.iter().all(|c| c.callback_offset == 7));
}

#[test]
fn default_parser_is_empty() {
    let parser = Parser::default();
    assert!(parser.closures.is_empty());
    assert_eq!(parser.callbacks_count, 0);
}

#[test]
fn a_file_without_the_word_gives_nothing() {
    let (parser, r) = parse("fn main() { let ts_bloc = 1; tsblock!({ a }); ts_blo!({ b }); }");
    assert!(r.is_ok());
    assert!(parser.closures.is_empty());
}

#[test]
fn errors_name_the_file_being_parsed() {
    let mut parser = Parser::new();
    parser.parse_source("good.rs".to_string(), Some("ts_block!({ a });".to_string())).unwrap();
    let r = parser.parse_source("bad.rs".to_string(), Some("let s = \"ab".to_string()));
    match r {
        Err(Error::LexError { src_path, line }) => {
            assert_eq!(src_path, "bad.rs");
            assert_eq!(line, 0);
        }
        other => panic!("unexpected {:?}", other),
    }
    assert_eq!(parser.current_path, "bad.rs");
    assert_eq!(parser.closures.len(), 1);
}

#[test]
fn captures_and_return_type_come_before_the_body() {
    let (parser, r) = parse("ts_block!(unsafe [foo as \"int\"] -> u32 as \"int\" { /*... */ })");
    assert!(r.is_ok());
    assert_eq!(parser.closures.len(), 1);
    let c = &parser.closures[0];
    assert_eq!(c.sig.std_body, "{}");
    assert!(c.body.to_string().starts_with('{'));
    assert_eq!(c.body_str, format!("//line 1 \"src/main.rs\"\n{} /*... */ ", " ".repeat(49)));
}

#[test]
fn closure_forms() {
    let ok = |s: &str| {
        let (parser, r) = parse(&format!("ts_block!({});", s));
        assert!(r.is_ok(), "{:?}: {:?}", s, r);
        parser.closures[0].sig.std_body.clone()
    };
    assert_eq!(ok("[a, b] { x }"), "{x}");
    assert_eq!(ok("unsafe [] { x }"), "{x}");
    assert_eq!(ok("-> Vec<u8> as \"Uint8Array\" { y }"), "{y}");
    assert_eq!(ok("[c] -> u32 as r\"n\" { z }"), "{z}");
    let err = |s: &str| match parse(&format!("ts_block!({});", s)).1 {
        Err(Error::MacroError { error, .. }) => error.1,
        other => panic!("{:?}: {:?}", s, other),
    };
    assert_eq!(err("[a] x { y }"), "unexpected token");
    assert_eq!(err("-> u32 { y }"), "unexpected end of input, expected token tree");
    assert_eq!(err("-> u32 as int { y }"), "unexpected token");
    assert_eq!(err("-> {T} as \"int\" x"), "expected curly braces");
    assert_eq!(err("{ a } { b }"), "unexpected token");
}

#[test]
fn contents_without_a_brace_group_stop_the_build() {
    let (parser, r) = parse("fn main() { ts_block!(1); }");
    match r {
        Err(Error::MacroError { src_path, error }) => {
            assert_eq!(src_path, "src/main.rs");
            assert_eq!(error.to_text(), "1:Lexing error");
        }
        other => panic!("unexpected {:?}", other),
    }
    assert!(parser.closures.is_empty());
}
