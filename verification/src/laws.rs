//! Properties of the library as a whole, proved over the specifications that
//! the operations' own contracts use.

use vstd::prelude::*;

use crate::closure::{body_hash, body_index, closure_grammar, closure_name, closure_name_prefix, opens_with};
use crate::finder::{
    block_header, handle_block, lemma_block_header_bounds, lemma_scan_macros_unfold,
    line_directive_text, lexing_of, parsed, scan_macros, ts_block_word, ClosureView, Error, Header, Parser,
};
use crate::generate::{
    lines_of, strip_cr, ts_definition, Origins, ts_definitions, ts_invoke_case, ts_invoke_cases, ts_module,
    ts_invoke_footer, ts_invoke_header, warning_lines_of, warning_prefix,
};
use crate::lexer::{
    block_comment_len, find_char, lemma_block_comment_scan_bounds, lemma_find_char_bounds,
    lemma_literal_scan_bounds, lemma_ws_run_bounds, literal_scan, ws_run, ws_skip,
};
use crate::scan::{
    bracket_step, delim_result, find_delim, lemma_find_delim_found, lemma_find_delim_unfold,
    lemma_token_start_bounds, token_start, DelimScan, ScanError,
};
use crate::lexer::{lit_result, starts_raw_string, Cursor, LexError, PResult};
use crate::outside::Lexing;
use crate::text::{
    byte_len, decimal, digit_char, is_white_space, lemma_decimal_digits, newline_count, strip_white_space,
    utf8_width,
};

verus! {

// ---------------------------------------------------------------------------
// What a parse records
// ---------------------------------------------------------------------------

/// `cv` is a closure that a parse of the file `path`, whose text is `text`,
/// recorded while `count` callbacks were registered: its offset is `count`,
/// and its TypeScript body is a stretch of `text` after a `//line` marker.
pub open spec fn recorded_from(text: Seq<char>, path: Seq<char>, count: u32, cv: ClosureView) -> bool {
    &&& cv.callback_offset == count
    &&& exists|l: nat, c: nat, a: int, b: int|
        #![trigger line_directive_text(path, l, c), text.subrange(a, b)]
        0 <= a <= b <= text.len() && cv.body_str == line_directive_text(path, l, c) + text.subrange(a, b)
}

proof fn lemma_handle_block_records(
    text: Seq<char>,
    a: int,
    b: int,
    path: Seq<char>,
    count: u32,
    lexed: Option<Lexing>,
)
    requires
        0 <= a <= b <= text.len(),
    ensures
        handle_block(text, a, b, path, count, lexed) matches Ok(cv) ==> recorded_from(text, path, count, cv),
{
    let x = text.subrange(a, b);
    lemma_find_delim_found(x, '{', Seq::empty());
    if let DelimScan::Found(q) = find_delim(x, '{', Seq::empty()) {
        let begin = a + q + 1;
        lemma_find_delim_found(text.subrange(begin, b), '}', Seq::empty());
        if let DelimScan::Found(q2) = find_delim(text.subrange(begin, b), '}', Seq::empty()) {
            let end = begin + q2;
            if let Ok(cv) = handle_block(text, a, b, path, count, lexed) {
                let l = crate::finder::line_at(text, begin);
                let c = crate::finder::column_at(text, begin);
                assert(0 <= begin <= end <= text.len());
                assert(cv.body_str == line_directive_text(path, l, c) + text.subrange(begin, end));
            }
        }
    }
}

proof fn lemma_scan_records(
    text: Seq<char>,
    p: int,
    path: Seq<char>,
    count: u32,
    lex: spec_fn(int) -> Option<Lexing>,
)
    ensures
        forall|i: int|
            0 <= i < scan_macros(text, p, path, count, lex).0.len() ==> recorded_from(
                text,
                path,
                count,
                #[trigger] scan_macros(text, p, path, count, lex).0[i],
            ),
    decreases text.len() - p,
{
    if p < 0 || p >= text.len() {
        reveal(scan_macros);
        return;
    }
    lemma_scan_macros_unfold(text, p, path, count, lex);
    let p1 = p + ws_skip(text.skip(p));
    lemma_ws_run_bounds(text.skip(p));
    lemma_literal_scan_bounds(text.skip(p1));
    lemma_block_header_bounds(text, p1);
    match literal_scan(text.skip(p1)) {
        Err(_) => {},
        Ok(Some(k)) => {
            lemma_scan_records(text, p1 + k, path, count, lex);
        },
        Ok(None) => match block_header(text, p1) {
            Header::Skip(q) => {
                lemma_scan_records(text, q as int, path, count, lex);
            },
            Header::Open(a, d) => {
                lemma_find_delim_found(text.skip(a as int), d, Seq::empty());
                if let DelimScan::Found(q) = find_delim(text.skip(a as int), d, Seq::empty()) {
                    let b = (a + q) as int;
                    lemma_handle_block_records(text, a as int, b, path, count, lex(a as int));
                    if let Ok(cv) = handle_block(text, a as int, b, path, count, lex(a as int)) {
                        lemma_scan_records(text, b, path, count, lex);
                        let rest = scan_macros(text, b, path, count, lex);
                        let all = scan_macros(text, p, path, count, lex);
                        assert(all.0 == seq![cv] + rest.0);
                        assert forall|i: int| 0 <= i < all.0.len() implies recorded_from(
                            text,
                            path,
                            count,
                            #[trigger] all.0[i],
                        ) by {
                            if i > 0 {
                                assert(all.0[i] == rest.0[i - 1]);
                            }
                        }
                    }
                }
            },
            Header::NoSymbol => {
                if p1 < text.len() && utf8_width(text[p1]) == 1 {
                    lemma_scan_records(text, p1 + 1, path, count, lex);
                }
            },
        },
    }
}

/// Parsing a file only appends to what the parser holds: the closures it
/// recorded before stay, unchanged and in order, and the callback count
/// stays. Each closure the parse adds carries that count as its callback
/// offset, and its TypeScript body is a stretch of the file's own text
/// after a `//line` marker.
pub proof fn parse_only_appends(
    before: Parser,
    path: Seq<char>,
    contents: Option<String>,
    after: Parser,
    r: Result<(), Error>,
)
    requires
        parsed(before, path, contents, after, r),
    ensures
        before.closures_view().len() <= after.closures_view().len(),
        after.closures_view().take(before.closures_view().len() as int) == before.closures_view(),
        after.callbacks_count == before.callbacks_count,
        contents matches Some(text) ==> forall|i: int|
            before.closures_view().len() <= i < after.closures_view().len() ==> recorded_from(
                text@,
                path,
                before.callbacks_count,
                #[trigger] after.closures_view()[i],
            ),
{
    let n = before.closures_view().len() as int;
    if let Some(text) = contents {
        let scan = scan_macros(text@, 0, path, before.callbacks_count, lexing_of(after.lexed()));
        lemma_scan_records(text@, 0, path, before.callbacks_count, lexing_of(after.lexed()));
        assert(after.closures_view().take(n) =~= before.closures_view());
        assert forall|i: int| n <= i < after.closures_view().len() implies recorded_from(
            text@,
            path,
            before.callbacks_count,
            #[trigger] after.closures_view()[i],
        ) by {
            assert(after.closures_view()[i] == scan.0[i - n]);
        }
    } else {
        assert(after.closures_view().take(n) =~= before.closures_view());
    }
}

/// A file that could not be read leaves the parser as it was.
pub proof fn unreadable_file_changes_nothing(before: Parser, path: Seq<char>, after: Parser, r: Result<(), Error>)
    requires
        parsed(before, path, None, after, r),
    ensures
        after == before,
        r matches Err(Error::ParseCannotOpenFile { src_path }) && src_path@ == path,
{
}

/// `word` stands nowhere in `text`.
pub open spec fn lacks_word(text: Seq<char>, word: Seq<char>) -> bool {
    forall|k: int| 0 <= k && k + word.len() <= text.len() ==> #[trigger] text.subrange(k, k + word.len()) != word
}

proof fn lemma_scan_without_word(
    text: Seq<char>,
    p: int,
    path: Seq<char>,
    count: u32,
    lex: spec_fn(int) -> Option<Lexing>,
)
    requires
        lacks_word(text, ts_block_word()),
    ensures
        scan_macros(text, p, path, count, lex).0.len() == 0,
    decreases text.len() - p,
{
    if p < 0 || p >= text.len() {
        reveal(scan_macros);
        return;
    }
    lemma_scan_macros_unfold(text, p, path, count, lex);
    let p1 = p + ws_skip(text.skip(p));
    lemma_ws_run_bounds(text.skip(p));
    lemma_literal_scan_bounds(text.skip(p1));
    lemma_block_header_bounds(text, p1);
    match literal_scan(text.skip(p1)) {
        Err(_) => {},
        Ok(Some(k)) => {
            lemma_scan_without_word(text, p1 + k, path, count, lex);
        },
        Ok(None) => match block_header(text, p1) {
            Header::Skip(q) => {
                lemma_scan_without_word(text, q as int, path, count, lex);
            },
            Header::Open(..) => {
                let m = crate::lexer::symbol_len(text.skip(p1))->0;
                let j = crate::lexer::raw_marker(text.skip(p1)) as int;
                crate::lexer::lemma_symbol_bounds(text.skip(p1));
                assert(text.subrange(p1 + j, p1 + m) == ts_block_word());
                assert(text.subrange(p1 + j, p1 + j + ts_block_word().len()) == ts_block_word());
            },
            Header::NoSymbol => {
                if p1 < text.len() && utf8_width(text[p1]) == 1 {
                    lemma_scan_without_word(text, p1 + 1, path, count, lex);
                }
            },
        },
    }
}

/// A file in which the word `ts_block` stands nowhere gives no closure.
pub proof fn no_word_no_closure(before: Parser, path: Seq<char>, text: String, after: Parser, r: Result<(), Error>)
    requires
        parsed(before, path, Some(text), after, r),
        lacks_word(text@, ts_block_word()),
    ensures
        after.closures_view() == before.closures_view(),
{
    lemma_scan_without_word(text@, 0, path, before.callbacks_count, lexing_of(after.lexed()));
    assert(after.closures_view() =~= before.closures_view());
}

/// The file a failed parse was about, as the error names it.
pub open spec fn error_path(e: Error) -> Seq<char> {
    match e {
        Error::ParseCannotOpenFile { src_path } => src_path@,
        Error::ParseSyntaxError { src_path, .. } => src_path@,
        Error::LexError { src_path, .. } => src_path@,
        Error::MacroError { src_path, .. } => src_path@,
        Error::SplitChar { src_path, .. } => src_path@,
    }
}

/// Every error of a parse names the file that was being parsed.
pub proof fn errors_name_the_file(
    before: Parser,
    path: Seq<char>,
    contents: Option<String>,
    after: Parser,
    r: Result<(), Error>,
)
    requires
        parsed(before, path, contents, after, r),
    ensures
        r matches Err(e) ==> error_path(e) == path,
{
}

// ---------------------------------------------------------------------------
// Whitespace and comments
// ---------------------------------------------------------------------------

proof fn lemma_ws_run_stops(s: Seq<char>)
    ensures
        ws_run(s) matches Some(n) ==> ws_run(s.skip(n as int)) == Some(0nat),
    decreases s.len(),
{
    lemma_ws_run_bounds(s);
    if s.len() == 0 {
    } else if s.len() >= 2 && s[0] == '/' && s[1] == '/' {
        lemma_find_char_bounds(s, '\n');
        match find_char(s, '\n') {
            Some(k) => {
                let t = s.skip(k as int + 1);
                lemma_ws_run_stops(t);
                if let Some(n) = ws_run(t) {
                    assert(s.skip((n + k + 1) as int) =~= t.skip(n as int));
                }
            },
            None => {
                assert(s.skip(s.len() as int).len() == 0);
            },
        }
    } else if s.len() >= 2 && s[0] == '/' && s[1] == '*' {
        lemma_block_comment_scan_bounds(s, 2, 1);
        if let Some(k) = block_comment_len(s) {
            let t = s.skip(k as int);
            lemma_ws_run_stops(t);
            if let Some(n) = ws_run(t) {
                assert(s.skip((n + k) as int) =~= t.skip(n as int));
            }
        }
    } else if crate::lexer::is_lex_space(s[0]) {
        let t = s.skip(1);
        lemma_ws_run_stops(t);
        if let Some(n) = ws_run(t) {
            assert(s.skip((n + 1) as int) =~= t.skip(n as int));
        }
    } else {
        assert(s.skip(0) =~= s);
    }
}

/// Skipping whitespace and comments a second time moves no further: after
/// the first skip, what follows is neither.
pub proof fn skipping_whitespace_twice_is_skipping_once(s: Seq<char>)
    ensures
        ws_skip(s.skip(ws_skip(s) as int)) == 0,
{
    lemma_ws_run_stops(s);
    if ws_run(s) is None {
        assert(s.skip(0) =~= s);
    }
}

// ---------------------------------------------------------------------------
// Signatures ignore whitespace
// ---------------------------------------------------------------------------

proof fn lemma_strip_append(x: Seq<char>, y: Seq<char>)
    ensures
        strip_white_space(x + y) == strip_white_space(x) + strip_white_space(y),
    decreases y.len(),
{
    if y.len() == 0 {
        assert(x + y =~= x);
        assert(strip_white_space(x) + strip_white_space(y) =~= strip_white_space(x));
    } else {
        lemma_strip_append(x, y.drop_last());
        assert((x + y).drop_last() =~= x + y.drop_last());
        assert((x + y).last() == y.last());
        if !is_white_space(y.last()) {
            assert((strip_white_space(x) + strip_white_space(y.drop_last())).push(y.last())
                =~= strip_white_space(x) + strip_white_space(y.drop_last()).push(y.last()));
        }
    }
}

proof fn lemma_strip_all_white(w: Seq<char>)
    requires
        forall|i: int| 0 <= i < w.len() ==> is_white_space(#[trigger] w[i]),
    ensures
        strip_white_space(w) == Seq::<char>::empty(),
    decreases w.len(),
{
    if w.len() > 0 {
        assert(is_white_space(w[w.len() - 1]));
        lemma_strip_all_white(w.drop_last());
    }
}

/// Whitespace anywhere in a closure's body changes neither its signature nor
/// its name: this is what lets the build, which reads the body from the
/// source, and the macro, which sees it re-printed, agree on the name.
pub proof fn whitespace_changes_no_signature(a: Seq<char>, w: Seq<char>, b: Seq<char>)
    requires
        forall|i: int| 0 <= i < w.len() ==> is_white_space(#[trigger] w[i]),
    ensures
        strip_white_space(a + w + b) == strip_white_space(a + b),
        closure_name(strip_white_space(a + w + b)) == closure_name(strip_white_space(a + b)),
{
    lemma_strip_append(a + w, b);
    lemma_strip_append(a, w);
    lemma_strip_append(a, b);
    lemma_strip_all_white(w);
    assert(strip_white_space(a) + Seq::<char>::empty() =~= strip_white_space(a));
}

/// A signature holds no whitespace, so making a signature of it again gives
/// it back unchanged.
pub proof fn signature_is_stable(s: Seq<char>)
    ensures
        forall|i: int|
            0 <= i < strip_white_space(s).len() ==> !is_white_space(#[trigger] strip_white_space(s)[i]),
        strip_white_space(strip_white_space(s)) == strip_white_space(s),
    decreases s.len(),
{
    if s.len() > 0 {
        signature_is_stable(s.drop_last());
        let t = strip_white_space(s.drop_last());
        if !is_white_space(s.last()) {
            assert(t.push(s.last()).drop_last() =~= t);
            assert forall|i: int| 0 <= i < t.push(s.last()).len() implies !is_white_space(
                #[trigger] t.push(s.last())[i],
            ) by {
                if i < t.len() {
                    assert(t.push(s.last())[i] == t[i]);
                }
            }
        }
    }
}

// ---------------------------------------------------------------------------
// The generated module
// ---------------------------------------------------------------------------

/// `part` stands somewhere in `whole`.
pub open spec fn occurs_in(part: Seq<char>, whole: Seq<char>) -> bool {
    exists|k: int| 0 <= k && k + part.len() <= whole.len() && #[trigger] whole.subrange(k, k + part.len()) == part
}

proof fn lemma_occurs_before(part: Seq<char>, whole: Seq<char>, extra: Seq<char>)
    requires
        occurs_in(part, whole),
    ensures
        occurs_in(part, whole + extra),
{
    let k = choose|k: int| 0 <= k && k + part.len() <= whole.len() && #[trigger] whole.subrange(k, k + part.len()) == part;
    assert((whole + extra).subrange(k, k + part.len()) =~= whole.subrange(k, k + part.len()));
}

proof fn lemma_occurs_after(part: Seq<char>, pre: Seq<char>, whole: Seq<char>)
    requires
        occurs_in(part, whole),
    ensures
        occurs_in(part, pre + whole),
{
    let k = choose|k: int| 0 <= k && k + part.len() <= whole.len() && #[trigger] whole.subrange(k, k + part.len()) == part;
    let k2 = pre.len() + k;
    assert((pre + whole).subrange(k2, k2 + part.len()) =~= whole.subrange(k, k + part.len()));
}

proof fn lemma_occurs_at_end(pre: Seq<char>, part: Seq<char>)
    ensures
        occurs_in(part, pre + part),
{
    let k = pre.len() as int;
    assert((pre + part).subrange(k, k + part.len()) =~= part);
}

proof fn lemma_definitions_hold(cs: Seq<ClosureView>, origin: Seq<char>, i: int)
    requires
        0 <= i < cs.len(),
    ensures
        occurs_in(ts_definition(closure_name(cs[i].std_body), cs[i].body_str), ts_definitions(cs, origin)),
        occurs_in(ts_invoke_case(closure_name(cs[i].std_body)), ts_invoke_cases(cs, origin)),
    decreases cs.len(),
{
    let def = ts_definition(closure_name(cs[i].std_body), cs[i].body_str);
    let case = ts_invoke_case(closure_name(cs[i].std_body));
    let init = cs.drop_last();
    if i == cs.len() - 1 {
        lemma_occurs_at_end(ts_definitions(init, origin) + origin, def);
        lemma_occurs_at_end(ts_invoke_cases(init, origin) + origin, case);
    } else {
        lemma_definitions_hold(init, origin, i);
        assert(init[i] == cs[i]);
        lemma_occurs_before(def, ts_definitions(init, origin), origin + ts_definition(
            closure_name(cs.last().std_body),
            cs.last().body_str,
        ));
        assert(ts_definitions(init, origin) + (origin + ts_definition(
            closure_name(cs.last().std_body),
            cs.last().body_str,
        )) =~= ts_definitions(cs, origin));
        lemma_occurs_before(case, ts_invoke_cases(init, origin), origin + ts_invoke_case(
            closure_name(cs.last().std_body),
        ));
        assert(ts_invoke_cases(init, origin) + (origin + ts_invoke_case(
            closure_name(cs.last().std_body),
        )) =~= ts_invoke_cases(cs, origin));
    }
}

/// Every closure of the generated module is there twice: as a function
/// under its name, holding its body, and as a case of the dispatcher that
/// calls that function when asked for that name.
pub proof fn module_holds_every_closure(cs: Seq<ClosureView>, o: Origins, i: int)
    requires
        0 <= i < cs.len(),
    ensures
        occurs_in(ts_definition(closure_name(cs[i].std_body), cs[i].body_str), ts_module(cs, o)),
        occurs_in(ts_invoke_case(closure_name(cs[i].std_body)), ts_module(cs, o)),
{
    let def = ts_definition(closure_name(cs[i].std_body), cs[i].body_str);
    let case = ts_invoke_case(closure_name(cs[i].std_body));
    lemma_definitions_hold(cs, o.definition, i);
    lemma_definitions_hold(cs, o.case, i);
    let defs = ts_definitions(cs, o.definition);
    let head = o.dispatcher + crate::generate::ts_invoke_header();
    let cases = ts_invoke_cases(cs, o.case);
    let tail = o.footer + crate::generate::ts_invoke_footer();
    assert(ts_module(cs, o) =~= defs + (head + cases + tail));
    lemma_occurs_before(def, defs, head + cases + tail);
    lemma_occurs_before(case, cases, tail);
    lemma_occurs_after(case, defs + head, cases + tail);
    assert((defs + head) + (cases + tail) =~= ts_module(cs, o));
}


/// Where the function of the `i`-th closure starts in the functions part of
/// the module.
pub open spec fn definition_at(cs: Seq<ClosureView>, origin: Seq<char>, i: int) -> int {
    (ts_definitions(cs.take(i), origin).len() + origin.len()) as int
}

/// Where the dispatcher case of the `i`-th closure starts in the cases part
/// of the module.
pub open spec fn case_at(cs: Seq<ClosureView>, origin: Seq<char>, i: int) -> int {
    (ts_invoke_cases(cs.take(i), origin).len() + origin.len()) as int
}

pub open spec fn definition_of(c: ClosureView) -> Seq<char> {
    ts_definition(closure_name(c.std_body), c.body_str)
}

pub open spec fn case_of(c: ClosureView) -> Seq<char> {
    ts_invoke_case(closure_name(c.std_body))
}

proof fn lemma_pieces_prefix(cs: Seq<ClosureView>, origin: Seq<char>, j: int)
    requires
        0 <= j <= cs.len(),
    ensures
        ts_definitions(cs.take(j), origin).len() <= ts_definitions(cs, origin).len(),
        ts_definitions(cs, origin).take(ts_definitions(cs.take(j), origin).len() as int)
            == ts_definitions(cs.take(j), origin),
        ts_invoke_cases(cs.take(j), origin).len() <= ts_invoke_cases(cs, origin).len(),
        ts_invoke_cases(cs, origin).take(ts_invoke_cases(cs.take(j), origin).len() as int)
            == ts_invoke_cases(cs.take(j), origin),
    decreases cs.len(),
{
    if j == cs.len() {
        assert(cs.take(j) =~= cs);
        assert(ts_definitions(cs, origin).take(ts_definitions(cs, origin).len() as int) =~= ts_definitions(cs, origin));
        assert(ts_invoke_cases(cs, origin).take(ts_invoke_cases(cs, origin).len() as int) =~= ts_invoke_cases(cs, origin));
    } else {
        let init = cs.drop_last();
        lemma_pieces_prefix(init, origin, j);
        assert(init.take(j) =~= cs.take(j));
        let d = ts_definitions(init, origin);
        let dt = ts_definitions(cs.take(j), origin);
        assert((d + origin + definition_of(cs.last())).take(dt.len() as int) =~= d.take(dt.len() as int));
        let c = ts_invoke_cases(init, origin);
        let ct = ts_invoke_cases(cs.take(j), origin);
        assert((c + origin + case_of(cs.last())).take(ct.len() as int) =~= c.take(ct.len() as int));
    }
}

proof fn lemma_piece_at(cs: Seq<ClosureView>, origin: Seq<char>, i: int)
    requires
        0 <= i < cs.len(),
    ensures
        definition_at(cs, origin, i) + definition_of(cs[i]).len() == ts_definitions(cs.take(i + 1), origin).len(),
        definition_at(cs, origin, i) + definition_of(cs[i]).len() <= ts_definitions(cs, origin).len(),
        ts_definitions(cs, origin).subrange(
            definition_at(cs, origin, i),
            definition_at(cs, origin, i) + definition_of(cs[i]).len(),
        ) == definition_of(cs[i]),
        case_at(cs, origin, i) + case_of(cs[i]).len() == ts_invoke_cases(cs.take(i + 1), origin).len(),
        case_at(cs, origin, i) + case_of(cs[i]).len() <= ts_invoke_cases(cs, origin).len(),
        ts_invoke_cases(cs, origin).subrange(case_at(cs, origin, i), case_at(cs, origin, i) + case_of(cs[i]).len())
            == case_of(cs[i]),
{
    let t = cs.take(i + 1);
    assert(t.drop_last() =~= cs.take(i));
    assert(t.last() == cs[i]);
    lemma_pieces_prefix(cs, origin, i + 1);
    let d = ts_definitions(cs, origin);
    let dt = ts_definitions(t, origin);
    let k = definition_at(cs, origin, i);
    assert(d.subrange(k, k + definition_of(cs[i]).len()) =~= dt.subrange(k, k + definition_of(cs[i]).len()));
    assert(dt.subrange(k, k + definition_of(cs[i]).len()) =~= definition_of(cs[i]));
    let c = ts_invoke_cases(cs, origin);
    let ct = ts_invoke_cases(t, origin);
    let m = case_at(cs, origin, i);
    assert(c.subrange(m, m + case_of(cs[i]).len()) =~= ct.subrange(m, m + case_of(cs[i]).len()));
    assert(ct.subrange(m, m + case_of(cs[i]).len()) =~= case_of(cs[i]));
}

proof fn lemma_pieces_ordered(cs: Seq<ClosureView>, origin: Seq<char>, i: int, j: int)
    requires
        0 <= i < j < cs.len(),
    ensures
        definition_at(cs, origin, i) + definition_of(cs[i]).len() <= definition_at(cs, origin, j),
        case_at(cs, origin, i) + case_of(cs[i]).len() <= case_at(cs, origin, j),
{
    lemma_piece_at(cs, origin, i);
    lemma_pieces_prefix(cs.take(j), origin, i + 1);
    assert(cs.take(j).take(i + 1) =~= cs.take(i + 1));
}

/// The module is laid out in order: first the function of every closure, in
/// the closures' order, then the dispatcher's header, then its case for
/// every closure, in the same order, and last its end, which prints the
/// result of the call. `definition_at` and `case_at` give where each
/// function and each case stands.
pub proof fn module_is_in_order(cs: Seq<ClosureView>, o: Origins)
    ensures
        ({
            let m = ts_module(cs, o);
            let defs = ts_definitions(cs, o.definition);
            let cases_start = (defs.len() + o.dispatcher.len() + ts_invoke_header().len()) as int;
            &&& forall|i: int|
                0 <= i < cs.len() ==> #[trigger] definition_at(cs, o.definition, i) + definition_of(cs[i]).len()
                    <= defs.len() && m.subrange(
                    definition_at(cs, o.definition, i),
                    definition_at(cs, o.definition, i) + definition_of(cs[i]).len(),
                ) == definition_of(cs[i])
            &&& forall|i: int, j: int|
                0 <= i < j < cs.len() ==> #[trigger] definition_at(cs, o.definition, i) + definition_of(cs[i]).len()
                    <= #[trigger] definition_at(cs, o.definition, j)
            &&& m.subrange((defs.len() + o.dispatcher.len()) as int, cases_start) == ts_invoke_header()
            &&& forall|i: int|
                0 <= i < cs.len() ==> #[trigger] m.subrange(
                    cases_start + case_at(cs, o.case, i),
                    cases_start + case_at(cs, o.case, i) + case_of(cs[i]).len(),
                ) == case_of(cs[i])
            &&& forall|i: int, j: int|
                0 <= i < j < cs.len() ==> #[trigger] case_at(cs, o.case, i) + case_of(cs[i]).len()
                    <= #[trigger] case_at(cs, o.case, j)
            &&& m.len() >= ts_invoke_footer().len()
            &&& m.skip(m.len() - ts_invoke_footer().len()) == ts_invoke_footer()
        }),
{
    let m = ts_module(cs, o);
    let defs = ts_definitions(cs, o.definition);
    let head = o.dispatcher + ts_invoke_header();
    let cases = ts_invoke_cases(cs, o.case);
    let tail = o.footer + ts_invoke_footer();
    assert(m =~= defs + head + cases + tail);
    let cases_start = (defs.len() + o.dispatcher.len() + ts_invoke_header().len()) as int;
    assert forall|i: int| 0 <= i < cs.len() implies #[trigger] definition_at(cs, o.definition, i)
        + definition_of(cs[i]).len() <= defs.len() && m.subrange(
        definition_at(cs, o.definition, i),
        definition_at(cs, o.definition, i) + definition_of(cs[i]).len(),
    ) == definition_of(cs[i]) by {
        lemma_piece_at(cs, o.definition, i);
        let k = definition_at(cs, o.definition, i);
        assert(m.subrange(k, k + definition_of(cs[i]).len()) =~= defs.subrange(k, k + definition_of(cs[i]).len()));
    }
    assert forall|i: int, j: int| 0 <= i < j < cs.len() implies #[trigger] definition_at(cs, o.definition, i)
        + definition_of(cs[i]).len() <= #[trigger] definition_at(cs, o.definition, j) by {
        lemma_pieces_ordered(cs, o.definition, i, j);
    }
    assert(m.subrange((defs.len() + o.dispatcher.len()) as int, cases_start) =~= ts_invoke_header());
    assert forall|i: int| 0 <= i < cs.len() implies #[trigger] m.subrange(
        cases_start + case_at(cs, o.case, i),
        cases_start + case_at(cs, o.case, i) + case_of(cs[i]).len(),
    ) == case_of(cs[i]) by {
        lemma_piece_at(cs, o.case, i);
        let k0 = case_at(cs, o.case, i);
        let k = cases_start + k0;
        assert(m.subrange(k, k + case_of(cs[i]).len()) =~= cases.subrange(k0, k0 + case_of(cs[i]).len()));
    }
    assert forall|i: int, j: int| 0 <= i < j < cs.len() implies #[trigger] case_at(cs, o.case, i)
        + case_of(cs[i]).len() <= #[trigger] case_at(cs, o.case, j) by {
        lemma_pieces_ordered(cs, o.case, i, j);
    }
    assert(m.skip(m.len() - ts_invoke_footer().len()) =~= ts_invoke_footer());
}

// ---------------------------------------------------------------------------
// Delimiters and the closure grammar
// ---------------------------------------------------------------------------

proof fn lemma_counts_append(a: Seq<char>, b: Seq<char>)
    ensures
        byte_len(a + b) == byte_len(a) + byte_len(b),
        newline_count(a + b) == newline_count(a) + newline_count(b),
    decreases b.len(),
{
    if b.len() == 0 {
        assert(a + b =~= a);
    } else {
        lemma_counts_append(a, b.drop_last());
        assert((a + b).drop_last() =~= a + b.drop_last());
    }
}

/// A delimiter that `find_delimited` finds stands where the cursor it gives
/// back points: what is left to read from there starts with the needle and
/// is a tail of what was scanned, and the byte offset and the line have
/// moved by the bytes and the line breaks stepped over.
pub proof fn found_delimiter_is_the_needle<'a>(input: Cursor<'a>, needle: char, r: Result<Cursor<'a>, ScanError>)
    requires
        input.wf(),
        delim_result(input, find_delim(input.rest(), needle, Seq::empty()), r),
    ensures
        r matches Ok(c) ==> ({
            let k = input.rest().len() - c.rest().len();
            &&& c.wf()
            &&& c.text == input.text
            &&& 0 <= k < input.rest().len()
            &&& c.rest().len() > 0
            &&& c.rest()[0] == needle
            &&& c.rest() == input.rest().skip(k)
            &&& c.off == input.off + byte_len(input.rest().take(k))
            &&& c.line == input.line + newline_count(input.rest().take(k))
        }),
{
    lemma_find_delim_found(input.rest(), needle, Seq::empty());
    if let DelimScan::Found(p) = find_delim(input.rest(), needle, Seq::empty()) {
        input.lemma_at(p as int);
        let t = input.text@;
        let q = input.pos as int;
        assert(t.take(q + p) =~= t.take(q) + input.rest().take(p as int));
        lemma_counts_append(t.take(q), input.rest().take(p as int));
    }
}


/// The scan for `needle` over `s`, started with the brackets `stack` open,
/// stands on a token at offset `q` with the brackets `st` open: it got
/// there past whitespace, comments and literals, through matched brackets,
/// without stopping before.
pub open spec fn scan_passes(s: Seq<char>, needle: char, stack: Seq<char>, q: int, st: Seq<char>) -> bool
    decreases s.len(),
{
    if s.len() == 0 {
        false
    } else {
        match token_start(s) {
            Err(_) => false,
            Ok(p) => if p >= s.len() {
                false
            } else if q == p {
                st == stack
            } else if q < p || (stack.len() == 0 && s[p as int] == needle) {
                false
            } else {
                match bracket_step(stack, s[p as int]) {
                    None => false,
                    Some(next) => utf8_width(s[p as int]) == 1 && scan_passes(
                        s.skip(p as int + 1),
                        needle,
                        next,
                        q - (p + 1),
                        st,
                    ),
                }
            },
        }
    }
}

proof fn lemma_passes_bounds(s: Seq<char>, needle: char, stack: Seq<char>, q: int, st: Seq<char>)
    requires
        scan_passes(s, needle, stack, q, st),
    ensures
        0 <= q < s.len(),
    decreases s.len(),
{
    lemma_token_start_bounds(s);
    let p = token_start(s)->Ok_0;
    if q != p {
        let next = bracket_step(stack, s[p as int])->Some_0;
        lemma_passes_bounds(s.skip(p as int + 1), needle, next, q - (p + 1), st);
    }
}

proof fn lemma_first_delimiter(s: Seq<char>, needle: char, stack: Seq<char>)
    ensures
        find_delim(s, needle, stack) matches DelimScan::Found(p) ==> scan_passes(s, needle, stack, p as int, Seq::empty()),
        forall|q: int|
            #[trigger] scan_passes(s, needle, stack, q, Seq::empty()) && !(find_delim(s, needle, stack) matches DelimScan::Found(p) && q >= p)
                ==> s[q] != needle,
    decreases s.len(),
{
    if s.len() == 0 {
        reveal(find_delim);
        return;
    }
    lemma_find_delim_unfold(s, needle, stack);
    lemma_token_start_bounds(s);
    if let Ok(p) = token_start(s) {
        if p < s.len() && stack.len() == 0 && s[p as int] == needle {
            assert(stack =~= Seq::<char>::empty());
        }
        if p < s.len() && !(stack.len() == 0 && s[p as int] == needle) {
            if let Some(next) = bracket_step(stack, s[p as int]) {
                if utf8_width(s[p as int]) == 1 {
                    let t = s.skip(p as int + 1);
                    lemma_first_delimiter(t, needle, next);
                    if let DelimScan::Found(f) = find_delim(t, needle, next) {
                        lemma_passes_bounds(t, needle, next, f as int, Seq::empty());
                        assert(scan_passes(s, needle, stack, (p + 1 + f) as int, Seq::empty()));
                    }
                    assert forall|q: int|
                        #[trigger] scan_passes(s, needle, stack, q, Seq::empty()) && !(find_delim(s, needle, stack) matches DelimScan::Found(f) && q >= f)
                            implies s[q] != needle by {
                        lemma_passes_bounds(s, needle, stack, q, Seq::empty());
                        if q != p {
                            assert(scan_passes(t, needle, next, q - (p + 1), Seq::empty()));
                            assert(s[q] == t[q - (p + 1)]);
                        }
                    }
                }
            }
        }
    }
}

/// `find_delimited` stops at the first place where the needle stands
/// outside literals, comments and open brackets: where it finds the needle,
/// the scan has walked up to that place with no bracket open; and at every
/// place the scan walks over with no bracket open before where it stops, or
/// anywhere when it finds nothing, the needle does not stand.
pub proof fn delimiter_is_the_first(s: Seq<char>, needle: char)
    ensures
        find_delim(s, needle, Seq::empty()) matches DelimScan::Found(p) ==> scan_passes(
            s,
            needle,
            Seq::empty(),
            p as int,
            Seq::empty(),
        ) && s[p as int] == needle,
        forall|q: int|
            #[trigger] scan_passes(s, needle, Seq::empty(), q, Seq::empty()) && !(find_delim(
                s,
                needle,
                Seq::empty(),
            ) matches DelimScan::Found(p) && q >= p) ==> s[q] != needle,
{
    lemma_first_delimiter(s, needle, Seq::empty());
    lemma_find_delim_found(s, needle, Seq::empty());
}

/// The body of a closure is the last of the trees of its contents: what
/// comes before it is an optional `unsafe`, an optional capture list and an
/// optional return part, and with either of the last two the body is a
/// brace group.
pub proof fn closure_body_is_last(trees: Seq<(bool, Seq<char>)>)
    ensures
        closure_grammar(trees) matches Ok(i) ==> i == trees.len() - 1 && (i > body_index(trees)
            ==> opens_with(trees[i], '{')),
{
}


// ---------------------------------------------------------------------------
// Names and literals
// ---------------------------------------------------------------------------

proof fn lemma_decimal_injective(n: nat, m: nat)
    requires
        decimal(n) == decimal(m),
    ensures
        n == m,
    decreases n,
{
    if n >= 10 {
        lemma_decimal_digits(n / 10);
    }
    if m >= 10 {
        lemma_decimal_digits(m / 10);
    }
    let a = decimal(n);
    assert(a.last() == digit_char(n % 10));
    assert(decimal(m).last() == digit_char(m % 10));
    assert(n % 10 == m % 10);
    if n >= 10 && m >= 10 {
        assert(decimal(n / 10) =~= a.drop_last());
        assert(decimal(m / 10) =~= decimal(m).drop_last());
        lemma_decimal_injective(n / 10, m / 10);
    }
}

/// Two closures share a name exactly when their bodies hash alike: the
/// name is the prefix and the hash in decimal, and no two numbers are
/// written alike.
pub proof fn names_match_hashes(a: Seq<char>, b: Seq<char>)
    ensures
        closure_name(a) == closure_name(b) <==> body_hash(a) == body_hash(b),
{
    if closure_name(a) == closure_name(b) {
        let k = closure_name_prefix().len() as int;
        assert(closure_name(a).skip(k) =~= decimal(body_hash(a) as nat));
        assert(closure_name(b).skip(k) =~= decimal(body_hash(b) as nat));
        lemma_decimal_injective(body_hash(a) as nat, body_hash(b) as nat);
    }
}

/// Whether a literal starts `s`: a string, a byte string, a character or
/// lifetime, a byte, or a raw string.
pub open spec fn literal_starts(s: Seq<char>) -> bool {
    ||| s.len() > 0 && s[0] == '"'
    ||| s.len() > 1 && s[0] == 'b' && s[1] == '"'
    ||| s.len() > 0 && s[0] == '\''
    ||| s.len() > 1 && s[0] == 'b' && s[1] == '\''
    ||| starts_raw_string(s)
}

/// `skip_literal` moves only over a literal: where none starts it gives the
/// cursor back unmoved; where one starts it either fails or gives a cursor
/// further on by at least one character, on what is left of the same text,
/// with the byte offset and the line moved by what it stepped over.
pub proof fn skipped_literal_is_a_prefix<'a>(input: Cursor<'a>, r: PResult<'a, bool>)
    requires
        input.wf(),
        lit_result(input, crate::lexer::literal_scan(input.rest()), r),
    ensures
        !literal_starts(input.rest()) ==> r == Ok::<(Cursor<'a>, bool), LexError>((input, false)),
        r matches Ok((c, true)) ==> ({
            let k = input.rest().len() - c.rest().len();
            &&& literal_starts(input.rest())
            &&& c.wf()
            &&& c.text == input.text
            &&& 0 < k <= input.rest().len()
            &&& c.rest() == input.rest().skip(k)
            &&& c.off == input.off + byte_len(input.rest().take(k))
            &&& c.line == input.line + newline_count(input.rest().take(k))
        }),
{
    let s = input.rest();
    lemma_literal_scan_bounds(s);
    if let Ok(Some(k)) = crate::lexer::literal_scan(s) {
        input.lemma_at(k as int);
        let t = input.text@;
        let q = input.pos as int;
        assert(t.take(q + k) =~= t.take(q) + s.take(k as int));
        lemma_counts_append(t.take(q), s.take(k as int));
    }
}


// ---------------------------------------------------------------------------
// What the lexer accepts, stated from Rust's own rules
// ---------------------------------------------------------------------------

/// Every simple escape of Rust (`\n`, `\r`, `\t`, `\\`, `\0`, `\'`, `\"`)
/// is two characters of a string, byte string, character or byte literal,
/// and the literal goes on after it.
pub proof fn simple_escapes_are_two_characters(e: char, s: Seq<char>)
    requires
        e == 'n' || e == 'r' || e == 't' || e == '\\' || e == '0' || e == '\'' || e == '"',
    ensures
        crate::lexer::cooked_string_len(seq!['\\', e] + s) == crate::lexer::shift(
            crate::lexer::cooked_string_len(s),
            2,
        ),
        crate::lexer::cooked_byte_string_len(seq!['\\', e] + s) == crate::lexer::shift(
            crate::lexer::cooked_byte_string_len(s),
            2,
        ),
        crate::lexer::cooked_char_len(seq!['\\', e] + s) == Some(2nat),
        crate::lexer::cooked_byte_len(seq!['\\', e] + s) == Some(2nat),
{
    let t = seq!['\\', e] + s;
    assert(t[0] == '\\' && t[1] == e);
    assert(t.skip(2) =~= s);
}

/// A string literal's body that holds no quote, backslash or carriage
/// return ends at the first quote after it.
pub proof fn plain_string_bodies_end_at_the_quote(t: Seq<char>, s: Seq<char>)
    requires
        forall|i: int| 0 <= i < t.len() ==> t[i] != '"' && t[i] != '\\' && t[i] != '\r',
    ensures
        crate::lexer::cooked_string_len(t + seq!['"'] + s) == Some(t.len()),
    decreases t.len(),
{
    let u = t + seq!['"'] + s;
    if t.len() == 0 {
        assert(u[0] == '"');
    } else {
        assert(u[0] == t[0]);
        let t1 = t.skip(1);
        assert forall|i: int| 0 <= i < t1.len() implies t1[i] != '"' && t1[i] != '\\' && t1[i] != '\r' by {
            assert(t1[i] == t[i + 1]);
        }
        plain_string_bodies_end_at_the_quote(t1, s);
        assert(u.skip(1) =~= t1 + seq!['"'] + s);
    }
}

/// Every block comment is skipped whole, whatever follows its `/*`: the
/// whitespace run over a text that starts with a block comment of length
/// `k` is `k` plus the run after it.
pub proof fn block_comments_are_skipped_whole(s: Seq<char>)
    ensures
        crate::lexer::block_comment_len(s) matches Some(k) ==> ws_run(s) == crate::lexer::shift(
            ws_run(s.skip(k as int)),
            k,
        ),
{
}

proof fn lemma_comment_scan_plain(t: Seq<char>, u: Seq<char>, i: int)
    requires
        forall|j: int| 0 <= j < t.len() ==> t[j] != '/',
        2 <= i <= t.len() + 2,
    ensures
        crate::lexer::block_comment_scan(seq!['/', '*'] + t + seq!['*', '/'] + u, i, 1) == Some(
            (t.len() + 4) as nat,
        ),
    decreases t.len() + 2 - i,
{
    let c = seq!['/', '*'] + t + seq!['*', '/'] + u;
    let n = t.len() as int;
    assert(c[n + 2] == '*' && c[n + 3] == '/');
    if i < n + 2 {
        assert(c[i] == t[i - 2]);
        if i + 1 < n + 2 {
            assert(c[i + 1] == t[i - 1]);
        }
        lemma_comment_scan_plain(t, u, i + 1);
    }
}

/// A block comment whose text holds no `/` ends at the first `*/` that
/// follows it, stars in its text included (as in `/** doc */`).
pub proof fn block_comment_ends_at_its_close(t: Seq<char>, u: Seq<char>)
    requires
        forall|j: int| 0 <= j < t.len() ==> t[j] != '/',
    ensures
        crate::lexer::block_comment_len(seq!['/', '*'] + t + seq!['*', '/'] + u) == Some(
            (t.len() + 4) as nat,
        ),
{
    lemma_comment_scan_plain(t, u, 2);
}

/// Identifiers are Rust's: an ASCII letter or `_` starts one, and a digit
/// continues one but does not start it.
pub proof fn identifiers_start_as_in_rust(c: char)
    ensures
        ('a' <= c <= 'z' || 'A' <= c <= 'Z' || c == '_') ==> crate::lexer::is_ident_start(c)
            && crate::lexer::is_ident_continue(c),
        '0' <= c <= '9' ==> crate::lexer::is_ident_continue(c) && !crate::lexer::is_ident_start(c),
{
}

/// An identifier that starts with `_` or an ASCII letter (and is not raw)
/// runs over all the identifier characters that follow its first.
pub proof fn identifiers_run_to_their_end(s: Seq<char>)
    requires
        s.len() > 0,
        'a' <= s[0] <= 'z' || 'A' <= s[0] <= 'Z' || s[0] == '_',
        !(s.len() >= 2 && s[0] == 'r' && s[1] == '#'),
    ensures
        crate::lexer::symbol_len(s) == Some(1 + crate::lexer::ident_run(s.skip(1))),
{
}

/// A quote followed by `_` and no closing quote is the lifetime `'_` (with
/// whatever identifier characters follow), skipped as a literal.
pub proof fn underscore_lifetimes_are_skipped(t: Seq<char>)
    requires
        t.len() == 0 || t[0] != '\'',
    ensures
        crate::lexer::char_lit(seq!['\'', '_'] + t) == Ok::<Option<nat>, nat>(
            Some(2 + crate::lexer::ident_run(t)),
        ),
{
    let s = seq!['\'', '_'] + t;
    let u = s.skip(1);
    assert(u =~= seq!['_'] + t);
    assert(u.skip(1) =~= t);
}

/// The generated module, piece by piece, each after the closed comment
/// `/*line N "file"*/` of its line: the functions, the dispatcher's start,
/// its cases, and its end that prints the result of the call. Each comment
/// opens with `/*line ` and is closed by `*/` and a line break.
pub proof fn module_pieces_follow_closed_comments(cs: Seq<ClosureView>, file: Seq<char>, lines: [u32; 4])
    ensures
        ts_module(cs, crate::generate::origins(file, lines)) == ts_definitions(
            cs,
            crate::generate::origin_comment(file, lines@[0]),
        ) + crate::generate::origin_comment(file, lines@[1]) + ts_invoke_header() + ts_invoke_cases(
            cs,
            crate::generate::origin_comment(file, lines@[2]),
        ) + crate::generate::origin_comment(file, lines@[3]) + ts_invoke_footer(),
        forall|l: u32| #![trigger crate::generate::origin_comment(file, l)] {
            let c = crate::generate::origin_comment(file, l);
            &&& c.len() >= 10
            &&& c.take(7) == "/*line "@
            &&& c.skip(c.len() - 3) == "*/\n"@
        },
        ts_invoke_footer().skip(ts_invoke_footer().len() - 29) == "console.log(invoke(argv[2]));"@,
{
    reveal_strlit("/*line ");
    reveal_strlit("\"*/\n");
    reveal_strlit("*/\n");
    reveal_strlit("console.log(invoke(argv[2]));");
    reveal_strlit("\n    return \"\";\n}\n\nimport { argv } from 'node:process';\nconsole.log(invoke(argv[2]));");
    assert forall|l: u32| #![trigger crate::generate::origin_comment(file, l)] {
        let c = crate::generate::origin_comment(file, l);
        &&& c.len() >= 10
        &&& c.take(7) == "/*line "@
        &&& c.skip(c.len() - 3) == "*/\n"@
    } by {
        let c = crate::generate::origin_comment(file, l);
        lemma_decimal_digits(l as nat);
        assert(c.take(7) =~= "/*line "@);
        assert(c.skip(c.len() - 3) =~= "*/\n"@);
    }
    assert(ts_invoke_footer().skip(ts_invoke_footer().len() - 29) =~= "console.log(invoke(argv[2]));"@);
}


// ---------------------------------------------------------------------------
// Which characters nest
// ---------------------------------------------------------------------------

/// The open brackets as the scan keeps them: the closers they wait for.
pub open spec fn closers_only(stack: Seq<char>) -> bool {
    forall|i: int| 0 <= i < stack.len() ==> #[trigger] stack[i] == ')' || stack[i] == ']' || stack[i] == '}'
}

/// Only `(`, `[` and `{` open a bracket, each waiting for its own closer,
/// and only `)`, `]` and `}` close one: the innermost open one, or else the
/// scan fails. Every other character leaves the open brackets as they are.
pub proof fn only_round_square_and_curly_brackets_nest(stack: Seq<char>, c: char)
    requires
        closers_only(stack),
    ensures
        c != '(' && c != '[' && c != '{' && c != ')' && c != ']' && c != '}' ==> bracket_step(stack, c)
            == Some(stack),
        c == '(' ==> bracket_step(stack, c) == Some(stack.push(')')),
        c == '[' ==> bracket_step(stack, c) == Some(stack.push(']')),
        c == '{' ==> bracket_step(stack, c) == Some(stack.push('}')),
        (c == ')' || c == ']' || c == '}') ==> bracket_step(stack, c) == (if stack.len() > 0
            && stack.last() == c {
            Some(stack.drop_last())
        } else {
            None
        }),
{
    if stack.len() > 0 {
        assert(closers_only(stack) ==> (stack.last() == ')' || stack.last() == ']' || stack.last() == '}'));
    }
}

/// A character of plain code: ASCII, and none of the brackets, quotes or
/// `/` that start nesting, literals or comments.
pub open spec fn plain_code_char(c: char) -> bool {
    &&& (c as u32) < 0x80
    &&& c != '(' && c != ')' && c != '[' && c != ']' && c != '{' && c != '}'
    &&& c != '"' && c != '\'' && c != '/'
}

proof fn lemma_plain_ws(s: Seq<char>, p: int)
    requires
        0 <= p < s.len(),
        s[p] == ')' || s[p] == ']' || s[p] == '}',
        forall|i: int| 0 <= i < p ==> plain_code_char(#[trigger] s[i]),
    ensures
        ws_run(s) matches Some(w) && w <= p && (w < p ==> !crate::lexer::is_lex_space(s[w as int])),
    decreases p,
{
    if s.len() >= 2 && s[0] == '/' {
    } else if crate::lexer::is_lex_space(s[0]) {
        assert(p > 0);
        let t = s.skip(1);
        assert forall|i: int| 0 <= i < p - 1 implies plain_code_char(#[trigger] t[i]) by {
            assert(t[i] == s[i + 1]);
        }
        lemma_plain_ws(t, p - 1);
        let w = ws_run(t)->Some_0 as int;
        if w + 1 < p {
            assert(t[w] == s[w + 1]);
        }
    }
}

proof fn lemma_plain_find(s: Seq<char>, needle: char, p: int)
    requires
        needle == ')' || needle == ']' || needle == '}',
        0 <= p < s.len(),
        s[p] == needle,
        forall|i: int| 0 <= i < p ==> plain_code_char(#[trigger] s[i]),
    ensures
        find_delim(s, needle, Seq::empty()) == DelimScan::Found(p as nat),
    decreases p,
{
    lemma_find_delim_unfold(s, needle, Seq::empty());
    lemma_plain_ws(s, p);
    let w = ws_run(s)->Some_0 as int;
    let u = s.skip(w);
    assert(u[0] == s[w]);
    if u.len() > 1 {
        assert(u[1] == s[w + 1]);
    }
    // no raw string starts at `w`: its quote would stand at or before `p`
    let j = crate::lexer::raw_r_index(u) as int;
    if u.len() > j && u[j] == 'r' {
        let t = u.skip(j + 1);
        crate::lexer::lemma_hash_run(t);
        let q = j + 1 + crate::lexer::hash_run(t);
        if q < u.len() {
            if w + q > p {
                assert(t[p - w - j - 1] == s[p]);
            }
            assert(u[q] == s[w + q]);
        }
    }
    assert(crate::lexer::literal_scan(u) == Ok::<Option<nat>, nat>(None));
    reveal(token_start);
    assert(token_start(s) == Ok::<nat, nat>(w as nat));
    if w < p {
        only_round_square_and_curly_brackets_nest(Seq::empty(), s[w]);
        let t = s.skip(w + 1);
        assert forall|i: int| 0 <= i < p - w - 1 implies plain_code_char(#[trigger] t[i]) by {
            assert(t[i] == s[i + w + 1]);
        }
        assert(t[p - w - 1] == s[p]);
        lemma_plain_find(t, needle, p - w - 1);
    }
}

/// The closing delimiter is found at its first place in plain code: in a
/// text whose characters before `p` are plain code (no brackets, quotes or
/// comments), the scan for `)`, `]` or `}` stops at `p`, where it stands.
pub proof fn delimiter_found_after_plain_code(s: Seq<char>, needle: char, p: int)
    requires
        needle == ')' || needle == ']' || needle == '}',
        0 <= p < s.len(),
        s[p] == needle,
        forall|i: int| 0 <= i < p ==> plain_code_char(#[trigger] s[i]),
    ensures
        find_delim(s, needle, Seq::empty()) == DelimScan::Found(p as nat),
{
    lemma_plain_find(s, needle, p);
}

// ---------------------------------------------------------------------------
// Build-script warnings
// ---------------------------------------------------------------------------

proof fn lemma_find_char_first(s: Seq<char>, c: char)
    ensures
        find_char(s, c) matches Some(k) ==> forall|j: int| 0 <= j < k ==> s[j] != c,
        find_char(s, c) is None ==> forall|j: int| 0 <= j < s.len() ==> s[j] != c,
    decreases s.len(),
{
    if s.len() > 0 && s[0] != c {
        lemma_find_char_first(s.skip(1), c);
        lemma_find_char_bounds(s.skip(1), c);
        match find_char(s.skip(1), c) {
            Some(k) => {
                assert forall|j: int| 0 <= j < k + 1 implies s[j] != c by {
                    if j > 0 {
                        assert(s[j] == s.skip(1)[j - 1]);
                    }
                }
            },
            None => {
                assert forall|j: int| 0 <= j < s.len() implies s[j] != c by {
                    if j > 0 {
                        assert(s[j] == s.skip(1)[j - 1]);
                    }
                }
            },
        }
    }
}

proof fn lemma_lines_have_no_break(s: Seq<char>)
    ensures
        forall|i: int, j: int|
            0 <= i < lines_of(s).len() && 0 <= j < lines_of(s)[i].len() ==> #[trigger] lines_of(s)[i][j]
                != '\n',
    decreases s.len(),
{
    if s.len() > 0 {
        lemma_find_char_first(s, '\n');
        lemma_find_char_bounds(s, '\n');
        if let Some(k) = find_char(s, '\n') {
            lemma_lines_have_no_break(s.skip(k as int + 1));
            let first = strip_cr(s.take(k as int));
            let rest = lines_of(s.skip(k as int + 1));
            assert(lines_of(s) == seq![first] + rest);
            assert forall|i: int, j: int|
                0 <= i < lines_of(s).len() && 0 <= j < lines_of(s)[i].len() implies #[trigger] lines_of(s)[i][j]
                    != '\n' by {
                if i == 0 {
                    assert(lines_of(s)[0] == first);
                    assert(first[j] == s[j]);
                } else {
                    assert(lines_of(s)[i] == rest[i - 1]);
                }
            }
        }
    }
}

/// Each warning the build prints is one line: no line break is left inside
/// it. A message of one line, with no line break, gives one warning, and
/// that warning holds the message whole.
pub proof fn warnings_are_single_lines(message: Seq<char>)
    ensures
        forall|i: int, j: int|
            0 <= i < warning_lines_of(message).len() && 0 <= j < warning_lines_of(message)[i].len()
                ==> #[trigger] warning_lines_of(message)[i][j] != '\n',
        message.len() > 0 && find_char(message, '\n') is None ==> warning_lines_of(message) == seq![
            warning_prefix() + message,
        ],
{
    reveal_strlit("cargo:warning=");
    lemma_lines_have_no_break(message);
    let lines = lines_of(message);
    assert forall|i: int, j: int|
        0 <= i < warning_lines_of(message).len() && 0 <= j < warning_lines_of(message)[i].len()
            implies #[trigger] warning_lines_of(message)[i][j] != '\n' by {
        assert(warning_lines_of(message)[i] == warning_prefix() + lines[i]);
        if j >= warning_prefix().len() {
            assert(warning_lines_of(message)[i][j] == lines[i][j - warning_prefix().len()]);
        }
    }
    if message.len() > 0 && find_char(message, '\n') is None {
        assert(warning_lines_of(message) =~= seq![warning_prefix() + message]);
    }
}

} // verus!
