//! Finding the `ts_block!` macros of a Rust source file and collecting the
//! TypeScript closure each one holds.

use vstd::prelude::*;

use crate::closure::{closure_grammar, Closure, Macro};
use crate::lexer::{
    chars_to_string, lemma_literal_scan_bounds, lemma_symbol_bounds, lemma_ws_run_bounds,
    literal_scan, new_cursor, raw_string_start_pattern, raw_string_start_regex, skip_literal, skip_whitespace, symbol,
    raw_marker, symbol_len, ws_skip, Cursor, LexError,
};
use crate::outside::{lex_token_trees, lexed_view, push_char, regex_new, CompiledRegex, LexedTree, Lexing};
use crate::scan::{find_delim, find_delimited, lemma_find_delim_found, DelimScan, ScanError};
use crate::text::{
    byte_len, char_width, column_of, decimal, newline_count, push_decimal, str_chars,
    strip_white_space, utf8_width,
};

verus! {

// ---------------------------------------------------------------------------
// Errors
// ---------------------------------------------------------------------------

/// An error at a line (counted from 0) of the source, with a message.
#[derive(Debug)]
pub struct LineError(pub u32, pub String);

impl LineError {
    /// The same error, `a` lines further down.
    pub fn add_line(self, a: u32) -> (e: LineError)
        requires
            self.0 + a <= u32::MAX,
        ensures
            e.0 == self.0 + a,
            e.1 == self.1,
    {
        LineError(self.0 + a, self.1)
    }

    /// The error as `line:message`, the line counted from 1.
    pub fn to_text(&self) -> (s: String)
        requires
            self.0 < u32::MAX,
        ensures
            s@ == decimal((self.0 + 1) as nat) + ":"@ + self.1@,
    {
        let mut s = String::new();
        push_decimal(&mut s, (self.0 + 1) as u64);
        s.append(":");
        s.append(self.1.as_str());
        s
    }

    /// A lexing failure as an error of its line.
    pub fn from(e: LexError) -> (r: LineError)
        ensures
            r.0 == e.line,
            r.1@ == lexing_error_message(),
    {
        LineError(e.line, "Lexing error".to_owned())
    }
}

pub open spec fn lexing_error_message() -> Seq<char> {
    "Lexing error"@
}

pub open spec fn token_stream_error_message() -> Seq<char> {
    "TokenStream parse error"@
}

/// Why parsing a source file for `ts_block!` macros failed.
#[derive(Debug)]
pub enum Error {
    /// The file could not be read.
    ParseCannotOpenFile { src_path: String },
    /// The file is not valid Rust; `error` is the parser's message.
    ParseSyntaxError { src_path: String, error: String },
    /// The file does not lex, at `line` (counted from 0).
    LexError { src_path: String, line: u32 },
    /// The contents of a `ts_block!` are not a closure (`error` holds the
    /// line and the message); the build stops here, with the message
    /// `Error while parsing ts_block! macro:` and the file and error.
    MacroError { src_path: String, error: LineError },
    /// The scan met a multi-byte character where it steps over one byte, at
    /// `line`; the build stops here.
    SplitChar { src_path: String, line: u32 },
}

/// Why handling one `ts_block!` failed.
#[derive(Debug)]
pub enum BlockError {
    /// Its contents do not lex or are not a closure.
    Line(LineError),
    /// A multi-byte character where the scan steps one byte, at this line.
    SplitChar(u32),
}

// ---------------------------------------------------------------------------
// Line markers
// ---------------------------------------------------------------------------

/// `s` with every backslash doubled.
pub open spec fn escape_backslashes(s: Seq<char>) -> Seq<char>
    decreases s.len(),
{
    if s.len() == 0 {
        s
    } else if s.last() == '\\' {
        escape_backslashes(s.drop_last()) + seq!['\\', '\\']
    } else {
        escape_backslashes(s.drop_last()).push(s.last())
    }
}

/// `n` spaces.
pub open spec fn spaces(n: nat) -> Seq<char> {
    Seq::new(n, |i: int| ' ')
}

/// The marker that tells where a TypeScript body comes from: the file and
/// the line (counted from 1), then the column as spaces.
pub open spec fn line_directive_text(path: Seq<char>, line: nat, column: nat) -> Seq<char> {
    "//line "@ + decimal(line + 1) + " \""@ + escape_backslashes(path) + "\"\n"@ + spaces(column)
}

/// Append `path` with every backslash doubled.
pub fn push_escaped(out: &mut String, path: &str)
    ensures
        final(out)@ == old(out)@ + escape_backslashes(path@),
{
    let chars = str_chars(path);
    let ghost start = out@;
    let mut i: usize = 0;
    assert(chars@.take(0) =~= Seq::<char>::empty());
    while i < chars.len()
        invariant
            i <= chars@.len(),
            chars@ == path@,
            out@ =~= start + escape_backslashes(chars@.take(i as int)),
        decreases chars.len() - i,
    {
        let c = chars[i];
        assert(chars@.take(i + 1).drop_last() =~= chars@.take(i as int));
        push_char(out, c);
        if c == '\\' {
            push_char(out, '\\');
        }
        i = i + 1;
    }
    assert(chars@.take(i as int) =~= chars@);
}

/// The line marker for a body that starts at `cur`, in the file `path`.
pub fn line_directive(path: &str, cur: &Cursor) -> (s: String)
    requires
        cur.line < u32::MAX,
    ensures
        s@ == line_directive_text(path@, cur.line as nat, cur.column as nat),
{
    let mut line = String::new();
    line.append("//line ");
    push_decimal(&mut line, (cur.line + 1) as u64);
    line.append(" \"");
    push_escaped(&mut line, path);
    line.append("\"\n");
    let ghost start = line@;
    let mut i: u32 = 0;
    while i < cur.column
        invariant
            i <= cur.column,
            line@ =~= start + spaces(i as nat),
        decreases cur.column - i,
    {
        push_char(&mut line, ' ');
        i = i + 1;
    }
    line
}


// ---------------------------------------------------------------------------
// One `ts_block!`
// ---------------------------------------------------------------------------

/// What the finder keeps of a closure.
pub ghost struct ClosureView {
    pub std_body: Seq<char>,
    pub body_str: Seq<char>,
    pub callback_offset: u32,
    pub body: proc_macro2::TokenTree,
}

pub open spec fn closure_view(c: Closure) -> ClosureView {
    ClosureView {
        std_body: c.sig.std_body@,
        body_str: c.body_str@,
        callback_offset: c.callback_offset,
        body: c.body,
    }
}

/// What the lexer gave for each `ts_block!` of a file, by the offset at
/// which the macro's contents start (`None` where the lexer was not asked).
pub type Lexings = Map<int, Option<Lexing>>;

/// The lexing of the contents that start at each offset, as a function.
pub open spec fn lexing_of(m: Lexings) -> spec_fn(int) -> Option<Lexing> {
    |k: int| if m.dom().contains(k) { m[k] } else { None }
}

/// `lex` gives what `m` records, where `m` records something.
pub open spec fn agrees(lex: spec_fn(int) -> Option<Lexing>, m: Lexings) -> bool {
    forall|k: int| #[trigger] m.dom().contains(k) ==> lex(k) == m[k]
}

pub open spec fn closures_view(cs: Seq<Closure>) -> Seq<ClosureView> {
    cs.map_values(|c: Closure| closure_view(c))
}

/// Line (from 0) of offset `p` of `text`.
pub open spec fn line_at(text: Seq<char>, p: int) -> nat {
    newline_count(text.take(p))
}

/// Column (in bytes) of offset `p` of `text`.
pub open spec fn column_at(text: Seq<char>, p: int) -> nat {
    column_of(text.take(p))
}

/// Why a `ts_block!` could not be handled.
pub ghost enum BlockStop {
    /// An error at a line, with its message.
    Line(nat, Seq<char>),
    /// A multi-byte character where the scan steps one byte, at an offset.
    Split(nat),
    /// The contents were not handed to the lexer: no handling ends so.
    Unlexed,
}

/// Handling the `ts_block!` whose contents are `text[a..b]`, with `lexed`
/// what the lexer gave: the body's text is what stands between the first
/// `{` and its `}`; then the contents must have been lexed, as they are,
/// and the trees must follow the closure grammar, whose body gives the
/// signature and the token tree.
pub open spec fn handle_block(
    text: Seq<char>,
    a: int,
    b: int,
    path: Seq<char>,
    count: u32,
    lexed: Option<Lexing>,
) -> Result<
    ClosureView,
    BlockStop,
> {
    let x = text.subrange(a, b);
    match find_delim(x, '{', Seq::empty()) {
        DelimScan::Lex(q) => Err(BlockStop::Line(line_at(text, a + q), lexing_error_message())),
        DelimScan::Split(q) => Err(BlockStop::Split((a + q) as nat)),
        DelimScan::Found(q) => {
            let begin = a + q + 1;
            match find_delim(text.subrange(begin, b), '}', Seq::empty()) {
                DelimScan::Lex(q2) => Err(
                    BlockStop::Line(line_at(text, begin + q2), lexing_error_message()),
                ),
                DelimScan::Split(q2) => Err(BlockStop::Split((begin + q2) as nat)),
                DelimScan::Found(q2) => {
                    let end = begin + q2;
                    match lexed {
                        Some(l) if l.source() == x => match l.trees() {
                        None => Err(BlockStop::Line(line_at(text, a), token_stream_error_message())),
                        Some(trees) => match closure_grammar(lexed_view(trees)) {
                            Err(m) => Err(BlockStop::Line(line_at(text, a), m)),
                            Ok(i) => Ok(
                                ClosureView {
                                    std_body: strip_white_space(trees[i].text@),
                                    body_str: line_directive_text(
                                        path,
                                        line_at(text, begin),
                                        column_at(text, begin),
                                    ) + text.subrange(begin, end),
                                    callback_offset: count,
                                    body: trees[i].tree,
                                },
                            ),
                        },
                        },
                        _ => Err(BlockStop::Unlexed),
                    }
                },
            }
        },
    }
}


// ---------------------------------------------------------------------------
// A whole source file
// ---------------------------------------------------------------------------

/// Why the finder stopped before the end of the source.
pub ghost enum FindStop {
    /// The source does not lex, at an offset.
    Lex(nat),
    /// A multi-byte character where the scan steps one byte, at an offset.
    Split(nat),
    /// A `ts_block!` that is not a closure: the line and message.
    Block(nat, Seq<char>),
    /// A `ts_block!` whose contents were not handed to the lexer.
    Unlexed,
}

/// The name of the macro the finder looks for.
pub open spec fn ts_block_word() -> Seq<char> {
    seq!['t', 's', '_', 'b', 'l', 'o', 'c', 'k']
}

/// The closing delimiter of an opening one.
pub open spec fn closer_of(c: char) -> Option<char> {
    if c == '(' {
        Some(')')
    } else if c == '[' {
        Some(']')
    } else if c == '{' {
        Some('}')
    } else {
        None
    }
}

/// What stands at offset `p1` of `text`, where no literal starts.
pub ghost enum Header {
    /// No identifier starts there.
    NoSymbol,
    /// Not the start of a `ts_block!`: go on from this offset.
    Skip(nat),
    /// `ts_block!` and an opening delimiter: the contents start at this
    /// offset and run to this closing delimiter.
    Open(nat, char),
}

/// Is `text[p1..]` the start of a `ts_block ! (`, `[` or `{`?
pub open spec fn block_header(text: Seq<char>, p1: int) -> Header {
    match symbol_len(text.skip(p1)) {
        None => Header::NoSymbol,
        Some(m) => {
            let p2 = p1 + m;
            if text.subrange(p1 + raw_marker(text.skip(p1)), p2) != ts_block_word() {
                Header::Skip(p2 as nat)
            } else {
                let p3 = p2 + ws_skip(text.skip(p2));
                if !(p3 < text.len() && text[p3] == '!') {
                    Header::Skip(p3 as nat)
                } else {
                    let p4 = p3 + 1 + ws_skip(text.skip(p3 + 1));
                    let d = if p4 < text.len() {
                        closer_of(text[p4])
                    } else {
                        None
                    };
                    match d {
                        None => Header::Skip(p4 as nat),
                        Some(d) => Header::Open((p4 + 1) as nat, d),
                    }
                }
            }
        },
    }
}

pub proof fn lemma_block_header_bounds(text: Seq<char>, p1: int)
    requires
        0 <= p1 <= text.len(),
    ensures
        block_header(text, p1) matches Header::Skip(q) ==> p1 < q <= text.len(),
        block_header(text, p1) matches Header::Open(q, _) ==> p1 < q <= text.len(),
{
    lemma_symbol_bounds(text.skip(p1));
    if let Some(m) = symbol_len(text.skip(p1)) {
        let p2 = p1 + m;
        lemma_ws_run_bounds(text.skip(p2));
        let p3 = p2 + ws_skip(text.skip(p2));
        if p3 < text.len() {
            lemma_ws_run_bounds(text.skip(p3 + 1));
        }
    }
}

/// The finder on `text` from offset `p` on, with `lex` giving what the
/// lexer made of the contents of each `ts_block!`: the closures it records,
/// in order, and why it stopped early, if it did. It skips whitespace,
/// comments and literals; at `ts_block ! (`, `[` or `{` it takes the
/// contents up to the matching delimiter as a closure; at anything else it
/// steps over one character.
#[verifier::opaque]
pub open spec fn scan_macros(text: Seq<char>, p: int, path: Seq<char>, count: u32, lex: spec_fn(int) -> Option<Lexing>) -> (
    Seq<ClosureView>,
    Option<FindStop>,
)
    decreases text.len() - p,
{
    if p < 0 || p >= text.len() {
        (Seq::empty(), None)
    } else {
        let p1 = p + ws_skip(text.skip(p));
        proof {
            lemma_ws_run_bounds(text.skip(p));
            lemma_literal_scan_bounds(text.skip(p1));
            lemma_block_header_bounds(text, p1);
        }
        match literal_scan(text.skip(p1)) {
            Err(e) => (Seq::empty(), Some(FindStop::Lex((p1 + e) as nat))),
            Ok(Some(k)) => scan_macros(text, p1 + k, path, count, lex),
            Ok(None) => match block_header(text, p1) {
                Header::Skip(q) => scan_macros(text, q as int, path, count, lex),
                Header::Open(a, d) => {
                    proof {
                        lemma_find_delim_found(text.skip(a as int), d, Seq::empty());
                    }
                    match find_delim(text.skip(a as int), d, Seq::empty()) {
                        DelimScan::Lex(q) => (Seq::empty(), Some(FindStop::Lex(a + q))),
                        DelimScan::Split(q) => (Seq::empty(), Some(FindStop::Split(a + q))),
                        DelimScan::Found(q) => {
                            let b = (a + q) as int;
                            match handle_block(text, a as int, b, path, count, lex(a as int)) {
                                Ok(cv) => {
                                    let rest = scan_macros(text, b, path, count, lex);
                                    (seq![cv] + rest.0, rest.1)
                                },
                                Err(BlockStop::Line(l, msg)) => (
                                    Seq::empty(),
                                    Some(FindStop::Block(l, msg)),
                                ),
                                Err(BlockStop::Split(o)) => (Seq::empty(), Some(FindStop::Split(o))),
                                Err(BlockStop::Unlexed) => (Seq::empty(), Some(FindStop::Unlexed)),
                            }
                        },
                    }
                },
                Header::NoSymbol => if p1 >= text.len() {
                    (Seq::empty(), None)
                } else if utf8_width(text[p1]) != 1 {
                    (Seq::empty(), Some(FindStop::Split(p1 as nat)))
                } else {
                    scan_macros(text, p1 + 1, path, count, lex)
                },
            },
        }
    }
}


/// One step of `scan_macros`, at an offset inside the text.
pub proof fn lemma_scan_macros_unfold(text: Seq<char>, p: int, path: Seq<char>, count: u32, lex: spec_fn(int) -> Option<Lexing>)
    requires
        0 <= p < text.len(),
    ensures
        scan_macros(text, p, path, count, lex) == ({
            let p1 = p + ws_skip(text.skip(p));
            match literal_scan(text.skip(p1)) {
                Err(e) => (Seq::empty(), Some(FindStop::Lex((p1 + e) as nat))),
                Ok(Some(k)) => scan_macros(text, p1 + k, path, count, lex),
                Ok(None) => match block_header(text, p1) {
                    Header::Skip(q) => scan_macros(text, q as int, path, count, lex),
                    Header::Open(a, d) => match find_delim(text.skip(a as int), d, Seq::empty()) {
                        DelimScan::Lex(q) => (Seq::empty(), Some(FindStop::Lex(a + q))),
                        DelimScan::Split(q) => (Seq::empty(), Some(FindStop::Split(a + q))),
                        DelimScan::Found(q) => {
                            let b = (a + q) as int;
                            match handle_block(text, a as int, b, path, count, lex(a as int)) {
                                Ok(cv) => {
                                    let rest = scan_macros(text, b, path, count, lex);
                                    (seq![cv] + rest.0, rest.1)
                                },
                                Err(BlockStop::Line(l, msg)) => (
                                    Seq::empty(),
                                    Some(FindStop::Block(l, msg)),
                                ),
                                Err(BlockStop::Split(o)) => (Seq::empty(), Some(FindStop::Split(o))),
                                Err(BlockStop::Unlexed) => (Seq::empty(), Some(FindStop::Unlexed)),
                            }
                        },
                    },
                    Header::NoSymbol => if p1 >= text.len() {
                        (Seq::empty(), None)
                    } else if utf8_width(text[p1]) != 1 {
                        (Seq::empty(), Some(FindStop::Split(p1 as nat)))
                    } else {
                        scan_macros(text, p1 + 1, path, count, lex)
                    },
                },
            }
        }),
{
    reveal(scan_macros);
}

/// The scan is over at the end of the text.
pub proof fn lemma_scan_macros_end(text: Seq<char>, path: Seq<char>, count: u32, lex: spec_fn(int) -> Option<Lexing>)
    ensures
        scan_macros(text, text.len() as int, path, count, lex) == (Seq::<ClosureView>::empty(), None::<FindStop>),
{
    reveal(scan_macros);
}


/// `e` is the error for the stop `stop`.
pub open spec fn stop_error(stop: FindStop, path: Seq<char>, text: Seq<char>, e: Error) -> bool {
    match stop {
        FindStop::Lex(o) => e matches Error::LexError { src_path, line } && src_path@ == path
            && line == line_at(text, o as int),
        FindStop::Split(o) => e matches Error::SplitChar { src_path, line } && src_path@ == path
            && line == line_at(text, o as int),
        FindStop::Unlexed => false,
        FindStop::Block(l, m) => e matches Error::MacroError { src_path, error } && src_path@
            == path && error.0 == l && error.1@ == m,
    }
}

/// `r` is how the finder ends when the scan stops with `stop`.
pub open spec fn stop_result(stop: Option<FindStop>, path: Seq<char>, text: Seq<char>, r: Result<(), Error>) -> bool {
    match stop {
        None => r is Ok,
        Some(st) => r matches Err(e) && stop_error(st, path, text, e),
    }
}


impl Default for Parser {
    fn default() -> (p: Parser)
        ensures
            p.closures@ == Seq::<Closure>::empty(),
            p.callbacks_count == 0,
            p.current_path@ == Seq::<char>::empty(),
    {
        Parser::new()
    }
}

/// Parsing the file `path` with `contents` takes the parser from `before`
/// to `after` and gives `r`: an unreadable file changes nothing; otherwise
/// the file becomes the current one, its closures are recorded in order,
/// and the parse ends as the scan of its text does, with the contents of
/// each `ts_block!` lexed as `after.lexed()` records the lexer gave them.
pub open spec fn parsed(before: Parser, path: Seq<char>, contents: Option<String>, after: Parser, r: Result<(), Error>) -> bool {
    match contents {
        None => {
            &&& after == before
            &&& r matches Err(Error::ParseCannotOpenFile { src_path }) && src_path@ == path
        },
        Some(text) => {
            let scan = scan_macros(text@, 0, path, before.callbacks_count, lexing_of(after.lexed()));
            &&& after.current_path@ == path
            &&& after.callbacks_count == before.callbacks_count
            &&& after.closures_view() == before.closures_view() + scan.0
            &&& stop_result(scan.1, path, text@, r)
        },
    }
}

/// What the finder found at a position: no identifier, something else to
/// skip, or the contents of a `ts_block!` and their closing delimiter.
pub enum HeaderAt<'a> {
    NoSymbol,
    Skip(Cursor<'a>),
    Open(Cursor<'a>, char),
}

/// Whether the characters `j..m` at the cursor spell `ts_block`.
fn is_ts_block_word(cursor: &Cursor, j: usize, m: usize) -> (b: bool)
    requires
        cursor.wf(),
        j <= m <= cursor.rest().len(),
    ensures
        b == (cursor.rest().subrange(j as int, m as int) =~= ts_block_word()),
{
    let word = ['t', 's', '_', 'b', 'l', 'o', 'c', 'k'];
    assert(word@ == ts_block_word());
    if m - j != 8 {
        return false;
    }
    let mut i: usize = 0;
    while i < 8
        invariant
            cursor.wf(),
            m == j + 8,
            m <= cursor.rest().len(),
            word@ == ts_block_word(),
            i <= 8,
            forall|k: int| 0 <= k < i ==> cursor.rest()[j + k] == word@[k],
        decreases 8 - i,
    {
        if cursor.char_at(j + i) != word[i] {
            assert(cursor.rest().subrange(j as int, m as int)[i as int] != ts_block_word()[i as int]);
            return false;
        }
        i = i + 1;
    }
    assert(cursor.rest().subrange(j as int, m as int) =~= ts_block_word());
    true
}

/// Is a `ts_block!` starting at the cursor (where no literal starts)?
#[verifier::rlimit(40)]
#[verifier::spinoff_prover]
fn block_header_at<'a>(cursor: Cursor<'a>) -> (r: HeaderAt<'a>)
    requires
        cursor.wf(),
        cursor.end == cursor.text@.len(),
    ensures
        match block_header(cursor.text@, cursor.pos as int) {
            Header::NoSymbol => r is NoSymbol,
            Header::Skip(q) => r matches HeaderAt::Skip(c) && c == cursor.at(q - cursor.pos) && c.wf(),
            Header::Open(q, d) => r matches HeaderAt::Open(c, e) && c == cursor.at(q - cursor.pos)
                && e == d && c.wf(),
        },
{
    let ghost text = cursor.text@;
    let ghost p1 = cursor.pos as int;
    assert(cursor.rest() =~= text.skip(p1));
    let (after, m) = match symbol(cursor) {
        Err(_) => {
            return HeaderAt::NoSymbol;
        },
        Ok(v) => v,
    };
    proof {
        lemma_symbol_bounds(text.skip(p1));
        cursor.lemma_at(m as int);
    }
    let j: usize = if cursor.starts_with2('r', '#') { 2 } else { 0 };
    assert(j == raw_marker(text.skip(p1)));
    let is_ts = is_ts_block_word(&cursor, j, m);
    assert(cursor.rest().subrange(j as int, m as int) =~= text.subrange(p1 + j, p1 + m));
    if !is_ts {
        return HeaderAt::Skip(after);
    }
    let ghost p2 = p1 + m;
    assert(after.rest() =~= text.skip(p2));
    proof {
        lemma_ws_run_bounds(text.skip(p2));
        cursor.lemma_at_at(m as int, ws_skip(text.skip(p2)) as int);
    }
    let bang = skip_whitespace(after);
    let ghost p3 = p2 + ws_skip(text.skip(p2));
    proof {
        cursor.lemma_at(p3 - p1);
    }
    if !bang.starts_with('!') {
        return HeaderAt::Skip(bang);
    }
    assert(bang.rest()[0] == text[p3]);
    proof {
        cursor.lemma_at(p3 + 1 - p1);
        cursor.lemma_at_at(p3 - p1, 1);
    }
    let after_bang = bang.advance(1);
    assert(after_bang.rest() =~= text.skip(p3 + 1));
    proof {
        lemma_ws_run_bounds(text.skip(p3 + 1));
        cursor.lemma_at_at(p3 + 1 - p1, ws_skip(text.skip(p3 + 1)) as int);
    }
    let open = skip_whitespace(after_bang);
    let ghost p4 = p3 + 1 + ws_skip(text.skip(p3 + 1));
    proof {
        cursor.lemma_at(p4 - p1);
    }
    let d = if open.starts_with('(') {
        ')'
    } else if open.starts_with('[') {
        ']'
    } else if open.starts_with('{') {
        '}'
    } else {
        return HeaderAt::Skip(open);
    };
    assert(open.rest()[0] == text[p4]);
    proof {
        cursor.lemma_at(p4 + 1 - p1);
        cursor.lemma_at_at(p4 - p1, 1);
    }
    HeaderAt::Open(open.advance(1), d)
}

/// A `ts_block!` parser: the closures found so far, the callback count they
/// are registered with, and the file being read.
pub struct Parser {
    pub closures: Vec<Closure>,
    pub callbacks_count: u32,
    pub current_path: String,
    /// What the lexer gave for the `ts_block!` macros of the file parsed
    /// last (nothing at run time).
    pub lexings: Ghost<Lexings>,
}

impl Parser {
    pub open spec fn closures_view(&self) -> Seq<ClosureView> {
        closures_view(self.closures@)
    }

    /// What the lexer gave for the `ts_block!` macros of the file parsed
    /// last, by the offset at which each macro's contents start.
    pub open spec fn lexed(&self) -> Lexings {
        self.lexings@
    }

    /// Handle one `ts_block!` whose contents are the rest of `x`: record the
    /// closure it holds.
    fn handle_ts_block(&mut self, x: Cursor, re: &CompiledRegex) -> (r: Result<(), BlockError>)
        requires
            x.wf(),
            re.source() == raw_string_start_pattern(),
        ensures
            final(self).current_path == old(self).current_path,
            final(self).callbacks_count == old(self).callbacks_count,
            final(self).lexed() == old(self).lexed().insert(x.pos as int, final(self).lexed()[x.pos as int]),
            match handle_block(
                x.text@,
                x.pos as int,
                x.end as int,
                old(self).current_path@,
                old(self).callbacks_count,
                final(self).lexed()[x.pos as int],
            ) {
                Ok(cv) => r is Ok && final(self).closures_view() == old(self).closures_view().push(cv),
                Err(BlockStop::Line(l, m)) => r matches Err(BlockError::Line(e)) && e.0 == l && e.1@
                    == m && final(self).closures_view() == old(self).closures_view(),
                Err(BlockStop::Split(o)) => r matches Err(BlockError::SplitChar(l)) && l == line_at(
                    x.text@,
                    o as int,
                ) && final(self).closures_view() == old(self).closures_view(),
                Err(BlockStop::Unlexed) => false,
            },
    {
        let ghost text = x.text@;
        let ghost xs = x.rest();
        self.lexings = Ghost(self.lexings@.insert(x.pos as int, None));
        proof {
            lemma_find_delim_found(xs, '{', Seq::empty());
        }
        let open = match find_delimited(x, '{', re) {
            Ok(c) => c,
            Err(ScanError::Lex(e)) => {
                proof {
                    let q = find_delim(xs, '{', Seq::empty())->Lex_0;
                    x.lemma_at(q as int);
                }
                return Err(BlockError::Line(LineError::from(e)));
            },
            Err(ScanError::SplitChar { line }) => {
                proof {
                    let q = find_delim(xs, '{', Seq::empty())->Split_0;
                    x.lemma_at(q as int);
                }
                return Err(BlockError::SplitChar(line));
            },
        };
        let ghost q = find_delim(xs, '{', Seq::empty())->Found_0 as int;
        proof {
            x.lemma_at(q);
            x.lemma_at(q + 1);
        }
        let begin = open.advance(1);
        assert(begin == x.at(q + 1));
        let ghost bs = begin.rest();
        assert(bs =~= text.subrange(x.pos + q + 1, x.end as int));
        proof {
            lemma_find_delim_found(bs, '}', Seq::empty());
        }
        let close = match find_delimited(begin, '}', re) {
            Ok(c) => c,
            Err(ScanError::Lex(e)) => {
                proof {
                    let q2 = find_delim(bs, '}', Seq::empty())->Lex_0;
                    begin.lemma_at(q2 as int);
                    x.lemma_at_at(q + 1, q2 as int);
                }
                return Err(BlockError::Line(LineError::from(e)));
            },
            Err(ScanError::SplitChar { line }) => {
                proof {
                    let q2 = find_delim(bs, '}', Seq::empty())->Split_0;
                    begin.lemma_at(q2 as int);
                    x.lemma_at_at(q + 1, q2 as int);
                }
                return Err(BlockError::SplitChar(line));
            },
        };
        let ghost q2 = find_delim(bs, '}', Seq::empty())->Found_0 as int;
        proof {
            begin.lemma_at(q2);
        }
        let extracted = chars_to_string(x.text, begin.pos, close.pos);
        let source = chars_to_string(x.text, x.pos, x.end);
        assert(source@ == xs);
        let lexing = lex_token_trees(source.as_str());
        self.lexings = Ghost(self.lexings@.insert(x.pos as int, Some(lexing)));
        let trees = match lexing.into_trees() {
            Some(v) => v,
            None => {
                return Err(BlockError::Line(LineError(x.line, "TokenStream parse error".to_owned())));
            },
        };
        let ghost tv = lexed_view(trees@);
        let ghost ts = trees@;
        match Macro::parse(trees) {
            Ok(Macro::Closure(c)) => {
                let mut c = c;
                c.callback_offset = self.callbacks_count;
                let mut body = line_directive(self.current_path.as_str(), &begin);
                body.append(extracted.as_str());
                c.body_str = body;
                proof {
                    let i = closure_grammar(tv)->Ok_0;
                    assert(tv[i].1 == ts[i].text@);
                }
                self.closures.push(c);
                assert(self.closures_view() =~= old(self).closures_view().push(closure_view(c)));
                Ok(())
            },
            Err(m) => Err(BlockError::Line(LineError(x.line, m))),
        }
    }

    /// A parser with nothing found yet.
    pub fn new() -> (p: Parser)
        ensures
            p.closures@ == Seq::<Closure>::empty(),
            p.callbacks_count == 0,
            p.current_path@ == Seq::<char>::empty(),
    {
        Parser {
            closures: Vec::new(),
            callbacks_count: 0,
            current_path: String::new(),
            lexings: Ghost(Map::empty()),
        }
    }

    /// Parse the file at `source_file_path`, whose contents are `contents`
    /// (`None` when it could not be opened or read), recording the closure
    /// of each `ts_block!` in it.
    ///
    /// Two failures stop the build rather than being reported as a parse
    /// error: a `ts_block!` whose contents are not a closure (for instance
    /// `ts_block!(1)`, with no brace group), and a multi-byte character
    /// where the scan steps over one byte. The parser does not panic on
    /// them: it ends with `Error::MacroError` or `Error::SplitChar`, as
    /// `scan_macros` says, with the closures found before kept, and the
    /// build script that drives it stops there.
    pub fn parse_source(&mut self, source_file_path: String, contents: Option<String>) -> (r: Result<
        (),
        Error,
    >)
        requires
            contents matches Some(text) ==> byte_len(text@) <= u32::MAX,
        ensures
            parsed(*old(self), source_file_path@, contents, *final(self), r),
    {
        self.parse_ts_block(source_file_path, contents)
    }

    fn parse_ts_block(&mut self, mod_path: String, contents: Option<String>) -> (r: Result<(), Error>)
        requires
            contents matches Some(text) ==> byte_len(text@) <= u32::MAX,
        ensures
            parsed(*old(self), mod_path@, contents, *final(self), r),
    {
        let text = match contents {
            Some(text) => text,
            None => {
                return Err(Error::ParseCannotOpenFile { src_path: mod_path });
            },
        };
        self.current_path = mod_path;
        self.lexings = Ghost(Map::empty());
        self.find_ts_block_macros(text.as_str())
    }

    /// One step of the finder at `cursor`: the cursor to go on from
    /// (`Ok(None)` at the end of the text), having recorded the closure of a
    /// `ts_block!` if one starts there, and what the lexer made of it.
    #[verifier::rlimit(100)]
    #[verifier::spinoff_prover]
    fn find_step<'a>(&mut self, cursor: Cursor<'a>, re: &CompiledRegex) -> (r: Result<
        Option<Cursor<'a>>,
        Error,
    >)
        requires
            cursor.wf(),
            cursor.end == cursor.text@.len(),
            cursor.pos < cursor.end,
            re.source() == raw_string_start_pattern(),
            forall|k: int| old(self).lexed().dom().contains(k) ==> k <= cursor.pos,
        ensures
            final(self).current_path == old(self).current_path,
            final(self).callbacks_count == old(self).callbacks_count,
            forall|k: int|
                #[trigger] old(self).lexed().dom().contains(k) ==> final(self).lexed().dom().contains(k)
                    && final(self).lexed()[k] == old(self).lexed()[k],
            ({
                let text = cursor.text@;
                let path = old(self).current_path@;
                let count = old(self).callbacks_count;
                let p = cursor.pos as int;
                let before = old(self).closures_view();
                let after = final(self).closures_view();
                match r {
                    Ok(Some(c)) => {
                        &&& c.wf()
                        &&& c.text == cursor.text
                        &&& c.end == cursor.end
                        &&& c.pos > cursor.pos
                        &&& forall|k: int| final(self).lexed().dom().contains(k) ==> k <= c.pos
                        &&& after.take(before.len() as int) == before
                        &&& before.len() <= after.len()
                        &&& forall|lex: spec_fn(int) -> Option<Lexing>|
                            agrees(lex, final(self).lexed()) ==> #[trigger] scan_macros(text, p, path, count, lex)
                                == (after.skip(before.len() as int) + scan_macros(text, c.pos as int, path, count, lex).0,
                                scan_macros(text, c.pos as int, path, count, lex).1)
                    },
                    Ok(None) => {
                        &&& after == before
                        &&& final(self).lexed() == old(self).lexed()
                        &&& forall|lex: spec_fn(int) -> Option<Lexing>|
                            #[trigger] scan_macros(text, p, path, count, lex) == (Seq::<ClosureView>::empty(), None::<FindStop>)
                    },
                    Err(e) => forall|lex: spec_fn(int) -> Option<Lexing>|
                        agrees(lex, final(self).lexed()) ==> {
                            &&& after == before + (#[trigger] scan_macros(text, p, path, count, lex)).0
                            &&& scan_macros(text, p, path, count, lex).1 matches Some(st)
                            &&& stop_error(st, path, text, e)
                        },
                }
            }),
    {
        let ghost text = cursor.text@;
        let ghost path = self.current_path@;
        let ghost count = self.callbacks_count;
        let ghost p = cursor.pos as int;
        let ghost p1 = p + ws_skip(text.skip(p));
        let ghost before = self.closures_view();
        proof {
            lemma_ws_run_bounds(text.skip(p));
            assert(cursor.rest() =~= text.skip(p));
            cursor.lemma_at(p1 - p);
        }
        let ws = skip_whitespace(cursor);
        assert(ws.rest() =~= text.skip(p1));
        proof {
            lemma_literal_scan_bounds(text.skip(p1));
            lemma_block_header_bounds(text, p1);
        }
        let (lit, is_lit) = match skip_literal(ws, re) {
            Err(e) => {
                proof {
                    ws.lemma_at(literal_scan(text.skip(p1))->Err_0 as int);
                    assert(before + Seq::<ClosureView>::empty() =~= before);
                }
                let err = self.lex_error(e);
                assert forall|lex: spec_fn(int) -> Option<Lexing>| agrees(lex, self.lexed()) implies {
                    &&& self.closures_view() == before + (#[trigger] scan_macros(text, p, path, count, lex)).0
                    &&& scan_macros(text, p, path, count, lex).1 matches Some(st)
                    &&& stop_error(st, path, text, err)
                } by {
                    lemma_scan_macros_unfold(text, p, path, count, lex);
                }
                return Err(err);
            },
            Ok(v) => v,
        };
        if is_lit {
            proof {
                ws.lemma_at(literal_scan(text.skip(p1))->Ok_0->0 as int);
                assert(self.closures_view().skip(before.len() as int) =~= Seq::<ClosureView>::empty());
                assert(self.closures_view().take(before.len() as int) =~= before);
                assert forall|lex: spec_fn(int) -> Option<Lexing>| agrees(lex, self.lexed()) implies
                    #[trigger] scan_macros(text, p, path, count, lex) == (self.closures_view().skip(before.len() as int)
                    + scan_macros(text, lit.pos as int, path, count, lex).0, scan_macros(text, lit.pos as int, path, count, lex).1) by {
                    lemma_scan_macros_unfold(text, p, path, count, lex);
                    assert(Seq::<ClosureView>::empty() + scan_macros(text, lit.pos as int, path, count, lex).0
                        =~= scan_macros(text, lit.pos as int, path, count, lex).0);
                }
            }
            return Ok(Some(lit));
        }
        match block_header_at(ws) {
            HeaderAt::Skip(c) => {
                proof {
                    assert(self.closures_view().skip(before.len() as int) =~= Seq::<ClosureView>::empty());
                    assert(self.closures_view().take(before.len() as int) =~= before);
                    assert forall|lex: spec_fn(int) -> Option<Lexing>| agrees(lex, self.lexed()) implies
                        #[trigger] scan_macros(text, p, path, count, lex) == (self.closures_view().skip(before.len() as int)
                        + scan_macros(text, c.pos as int, path, count, lex).0, scan_macros(text, c.pos as int, path, count, lex).1) by {
                        lemma_scan_macros_unfold(text, p, path, count, lex);
                        assert(Seq::<ClosureView>::empty() + scan_macros(text, c.pos as int, path, count, lex).0
                            =~= scan_macros(text, c.pos as int, path, count, lex).0);
                    }
                }
                return Ok(Some(c));
            },
            HeaderAt::Open(c, d) => {
                let ghost a = c.pos as int;
                proof {
                    lemma_find_delim_found(text.skip(a), d, Seq::empty());
                }
                let ghost m0 = self.lexed();
                match self.take_block(c, d, re) {
                    Ok(b) => {
                        proof {
                            let q = find_delim(text.skip(a), d, Seq::empty())->Found_0;
                            let cv = handle_block(text, a, a + q, path, count, self.lexed()[a])->Ok_0;
                            assert(self.closures_view().skip(before.len() as int) =~= seq![cv]);
                            assert(self.closures_view().take(before.len() as int) =~= before);
                            assert forall|k: int| self.lexed().dom().contains(k) implies k <= b.pos by {
                                if k != a {
                                    assert(m0.dom().contains(k));
                                }
                            }
                            assert forall|lex: spec_fn(int) -> Option<Lexing>| agrees(lex, self.lexed()) implies
                                #[trigger] scan_macros(text, p, path, count, lex) == (self.closures_view().skip(before.len() as int)
                                + scan_macros(text, b.pos as int, path, count, lex).0, scan_macros(text, b.pos as int, path, count, lex).1) by {
                                lemma_scan_macros_unfold(text, p, path, count, lex);
                                assert(self.lexed().dom().contains(a));
                                assert(lex(a) == self.lexed()[a]);
                            }
                        }
                        return Ok(Some(b));
                    },
                    Err(e) => {
                        proof {
                            assert(before + Seq::<ClosureView>::empty() =~= before);
                            assert forall|lex: spec_fn(int) -> Option<Lexing>| agrees(lex, self.lexed()) implies {
                                &&& self.closures_view() == before + (#[trigger] scan_macros(text, p, path, count, lex)).0
                                &&& scan_macros(text, p, path, count, lex).1 matches Some(st)
                                &&& stop_error(st, path, text, e)
                            } by {
                                lemma_scan_macros_unfold(text, p, path, count, lex);
                                if find_delim(text.skip(a), d, Seq::empty()) is Found {
                                    assert(self.lexed().dom().contains(a));
                                    assert(lex(a) == self.lexed()[a]);
                                }
                            }
                        }
                        return Err(e);
                    },
                }
            },
            HeaderAt::NoSymbol => {},
        }
        if ws.is_empty() {
            assert forall|lex: spec_fn(int) -> Option<Lexing>|
                #[trigger] scan_macros(text, p, path, count, lex) == (Seq::<ClosureView>::empty(), None::<FindStop>) by {
                lemma_scan_macros_unfold(text, p, path, count, lex);
            }
            return Ok(None);
        }
        let ch = ws.char_at(0);
        assert(ch == text[p1]);
        assert(before + Seq::<ClosureView>::empty() =~= before);
        if char_width(ch) != 1 {
            let err = Error::SplitChar { src_path: self.current_path.clone(), line: ws.line };
            assert forall|lex: spec_fn(int) -> Option<Lexing>| agrees(lex, self.lexed()) implies {
                &&& self.closures_view() == before + (#[trigger] scan_macros(text, p, path, count, lex)).0
                &&& scan_macros(text, p, path, count, lex).1 matches Some(st)
                &&& stop_error(st, path, text, err)
            } by {
                lemma_scan_macros_unfold(text, p, path, count, lex);
            }
            return Err(err);
        }
        proof {
            ws.lemma_at(1);
            assert(self.closures_view().skip(before.len() as int) =~= Seq::<ClosureView>::empty());
            assert(self.closures_view().take(before.len() as int) =~= before);
        }
        let next = ws.advance(1);
        assert forall|lex: spec_fn(int) -> Option<Lexing>| agrees(lex, self.lexed()) implies
            #[trigger] scan_macros(text, p, path, count, lex) == (self.closures_view().skip(before.len() as int)
            + scan_macros(text, next.pos as int, path, count, lex).0, scan_macros(text, next.pos as int, path, count, lex).1) by {
            lemma_scan_macros_unfold(text, p, path, count, lex);
            assert(Seq::<ClosureView>::empty() + scan_macros(text, next.pos as int, path, count, lex).0
                =~= scan_macros(text, next.pos as int, path, count, lex).0);
        }
        Ok(Some(next))
    }

    /// Find the `ts_block!` macros of `source` and record their closures, in
    /// order, until the end of the source or the first failure.
    fn find_ts_block_macros(&mut self, source: &str) -> (r: Result<(), Error>)
        requires
            byte_len(source@) <= u32::MAX,
            old(self).lexed() == Map::<int, Option<Lexing>>::empty(),
        ensures
            final(self).current_path == old(self).current_path,
            final(self).callbacks_count == old(self).callbacks_count,
            ({
                let scan = scan_macros(
                    source@,
                    0,
                    old(self).current_path@,
                    old(self).callbacks_count,
                    lexing_of(final(self).lexed()),
                );
                &&& final(self).closures_view() == old(self).closures_view() + scan.0
                &&& stop_result(scan.1, old(self).current_path@, source@, r)
            }),
    {
        let chars = str_chars(source);
        let ghost text = chars@;
        let ghost path = self.current_path@;
        let ghost count = self.callbacks_count;
        let ghost start = self.closures_view();
        let re = match raw_string_start_regex() {
            Some(re) => re,
            None => {
                return Ok(());
            },
        };
        let mut cursor = new_cursor(chars.as_slice());
        let ghost mut done: Seq<ClosureView> = Seq::empty();
        assert(start + done =~= start);
        assert forall|lex: spec_fn(int) -> Option<Lexing>| agrees(lex, self.lexed()) implies
            #[trigger] scan_macros(text, 0, path, count, lex) == (done + scan_macros(text, 0, path, count, lex).0,
            scan_macros(text, 0, path, count, lex).1) by {
            assert(done + scan_macros(text, 0, path, count, lex).0 =~= scan_macros(text, 0, path, count, lex).0);
        }
        while !cursor.is_empty()
            invariant
                cursor.wf(),
                cursor.text@ == text,
                text == source@,
                cursor.end == text.len(),
                re.source() == raw_string_start_pattern(),
                self.current_path == old(self).current_path,
                self.current_path@ == path,
                self.callbacks_count == old(self).callbacks_count,
                self.callbacks_count == count,
                start == old(self).closures_view(),
                self.closures_view() == start + done,
                forall|k: int| self.lexed().dom().contains(k) ==> k <= cursor.pos,
                forall|lex: spec_fn(int) -> Option<Lexing>|
                    agrees(lex, self.lexed()) ==> #[trigger] scan_macros(text, 0, path, count, lex) == (done
                        + scan_macros(text, cursor.pos as int, path, count, lex).0, scan_macros(
                        text,
                        cursor.pos as int,
                        path,
                        count,
                        lex,
                    ).1),
            decreases text.len() - cursor.pos,
        {
            let ghost before = self.closures_view();
            let ghost m0 = self.lexed();
            let ghost p = cursor.pos as int;
            match self.find_step(cursor, &re) {
                Ok(Some(c)) => {
                    proof {
                        let added = self.closures_view().skip(before.len() as int);
                        assert(self.closures_view() =~= before + added);
                        assert forall|lex: spec_fn(int) -> Option<Lexing>| agrees(lex, self.lexed()) implies
                            #[trigger] scan_macros(text, 0, path, count, lex) == ((done + added)
                            + scan_macros(text, c.pos as int, path, count, lex).0, scan_macros(text, c.pos as int, path, count, lex).1) by {
                            assert forall|k: int| m0.dom().contains(k) implies lex(k) == m0[k] by {
                                assert(self.lexed().dom().contains(k));
                            }
                            assert(agrees(lex, m0));
                            assert(scan_macros(text, p, path, count, lex) == (added + scan_macros(text, c.pos as int, path, count, lex).0,
                                scan_macros(text, c.pos as int, path, count, lex).1));
                            assert(done + (added + scan_macros(text, c.pos as int, path, count, lex).0)
                                =~= (done + added) + scan_macros(text, c.pos as int, path, count, lex).0);
                        }
                        done = done + added;
                    }
                    cursor = c;
                },
                Ok(None) => {
                    proof {
                        let lex = lexing_of(self.lexed());
                        assert(agrees(lex, self.lexed()));
                        assert(scan_macros(text, p, path, count, lex) == (Seq::<ClosureView>::empty(), None::<FindStop>));
                        assert(scan_macros(text, 0, path, count, lex).0 =~= done);
                    }
                    return Ok(());
                },
                Err(e) => {
                    proof {
                        let lex = lexing_of(self.lexed());
                        assert(agrees(lex, self.lexed()));
                        assert forall|k: int| m0.dom().contains(k) implies lex(k) == m0[k] by {
                            assert(self.lexed().dom().contains(k));
                        }
                        assert(agrees(lex, m0));
                        assert(scan_macros(text, 0, path, count, lex) == (done + scan_macros(text, p, path, count, lex).0,
                            scan_macros(text, p, path, count, lex).1));
                        assert(self.closures_view() =~= start + scan_macros(text, 0, path, count, lex).0);
                    }
                    return Err(e);
                },
            }
        }
        proof {
            let lex = lexing_of(self.lexed());
            assert(agrees(lex, self.lexed()));
            lemma_scan_macros_end(text, path, count, lex);
            assert(scan_macros(text, 0, path, count, lex) == (done + scan_macros(text, cursor.pos as int, path, count, lex).0,
                scan_macros(text, cursor.pos as int, path, count, lex).1));
            assert(scan_macros(text, 0, path, count, lex).0 =~= done);
        }
        Ok(())
    }

    /// A lexing failure as an error of the current file.
    fn lex_error(&self, e: LexError) -> (r: Error)
        ensures
            r matches Error::LexError { src_path, line } && src_path@ == self.current_path@ && line
                == e.line,
    {
        Error::LexError { src_path: self.current_path.clone(), line: e.line }
    }

    /// Take the contents of the `ts_block!` that start at `open` and run to
    /// `delim`, and record the closure they hold: the cursor at the closing
    /// delimiter.
    fn take_block<'a>(&mut self, open: Cursor<'a>, delim: char, re: &CompiledRegex) -> (r: Result<
        Cursor<'a>,
        Error,
    >)
        requires
            open.wf(),
            open.end == open.text@.len(),
            re.source() == raw_string_start_pattern(),
        ensures
            final(self).current_path == old(self).current_path,
            final(self).callbacks_count == old(self).callbacks_count,
            ({
                let text = open.text@;
                let a = open.pos as int;
                let path = old(self).current_path@;
                match find_delim(text.skip(a), delim, Seq::empty()) {
                    DelimScan::Lex(q) => r matches Err(Error::LexError { src_path, line })
                        && src_path@ == path && line == line_at(text, a + q)
                        && final(self).closures_view() == old(self).closures_view()
                        && final(self).lexed() == old(self).lexed(),
                    DelimScan::Split(q) => r matches Err(Error::SplitChar { src_path, line })
                        && src_path@ == path && line == line_at(text, a + q)
                        && final(self).closures_view() == old(self).closures_view()
                        && final(self).lexed() == old(self).lexed(),
                    DelimScan::Found(q) => final(self).lexed() == old(self).lexed().insert(
                        a,
                        final(self).lexed()[a],
                    ) && match handle_block(
                        text,
                        a,
                        a + q,
                        path,
                        old(self).callbacks_count,
                        final(self).lexed()[a],
                    ) {
                        Ok(cv) => r matches Ok(c) && c == open.at(q as int) && c.wf()
                            && final(self).closures_view() == old(self).closures_view().push(cv),
                        Err(BlockStop::Line(l, m)) => r matches Err(Error::MacroError { src_path, error })
                            && src_path@ == path && error.0 == l && error.1@ == m
                            && final(self).closures_view() == old(self).closures_view(),
                        Err(BlockStop::Split(o)) => r matches Err(Error::SplitChar { src_path, line })
                            && src_path@ == path && line == line_at(text, o as int)
                            && final(self).closures_view() == old(self).closures_view(),
                        Err(BlockStop::Unlexed) => false,
                    },
                }
            }),
    {
        let ghost text = open.text@;
        let ghost a = open.pos as int;
        assert(open.rest() =~= text.skip(a));
        proof {
            lemma_find_delim_found(text.skip(a), delim, Seq::empty());
        }
        let close = match find_delimited(open, delim, re) {
            Ok(c) => c,
            Err(ScanError::Lex(e)) => {
                proof {
                    open.lemma_at(find_delim(text.skip(a), delim, Seq::empty())->Lex_0 as int);
                }
                return Err(self.lex_error(e));
            },
            Err(ScanError::SplitChar { line }) => {
                proof {
                    open.lemma_at(find_delim(text.skip(a), delim, Seq::empty())->Split_0 as int);
                }
                return Err(Error::SplitChar { src_path: self.current_path.clone(), line });
            },
        };
        let ghost q = find_delim(text.skip(a), delim, Seq::empty())->Found_0 as int;
        proof {
            open.lemma_at(q);
        }
        let block = open.up_to(&close);
        assert(block.rest() =~= text.subrange(a, a + q));
        match self.handle_ts_block(block, re) {
            Ok(()) => Ok(close),
            Err(BlockError::Line(e)) => Err(
                Error::MacroError { src_path: self.current_path.clone(), error: e },
            ),
            Err(BlockError::SplitChar(line)) => Err(
                Error::SplitChar { src_path: self.current_path.clone(), line },
            ),
        }
    }
}

} // verus!
