//! A small Rust lexer over a character buffer: cursors that keep byte offset,
//! line and column, whitespace and comments, identifiers, and the bodies of
//! string, byte-string, character, byte and raw-string literals.

use vstd::prelude::*;

use crate::outside::{push_char, regex_is_match, regex_new, CompiledRegex, xid_continue, xid_continue_property, xid_start, xid_start_property};
use crate::text::{byte_len, char_width, column_of, is_white_space, lemma_byte_len_prefix, lemma_counts_bounded, lemma_take_step, newline_count, white_space};

verus! {

/// A position in the source at which lexing failed; `line` counts from 0.
#[derive(Debug, Clone, Copy, PartialEq, Eq, Structural)]
pub struct LexError {
    pub line: u32,
}

/// A position in a character buffer, with the part of the buffer still to read
/// (`text[pos..end]`), and the byte offset, line and column of `pos`.
#[derive(Clone, Copy)]
pub struct Cursor<'a> {
    pub text: &'a [char],
    pub pos: usize,
    pub end: usize,
    pub off: u32,
    pub line: u32,
    pub column: u32,
}

/// What a lexing step gives back: the cursor after what it read, and a value.
pub type PResult<'a, O> = Result<(Cursor<'a>, O), LexError>;

impl<'a> Cursor<'a> {
    /// The characters still to read.
    pub open spec fn rest(self) -> Seq<char> {
        self.text@.subrange(self.pos as int, self.end as int)
    }

    /// Offset, line and column agree with the position in the buffer, and the
    /// buffer fits the 32-bit counters.
    pub open spec fn wf(self) -> bool {
        &&& self.pos <= self.end <= self.text@.len()
        &&& byte_len(self.text@) <= u32::MAX
        &&& self.off == byte_len(self.text@.take(self.pos as int))
        &&& self.line == newline_count(self.text@.take(self.pos as int))
        &&& self.column == column_of(self.text@.take(self.pos as int))
    }

    /// The cursor `k` characters further on.
    pub open spec fn at(self, k: int) -> Cursor<'a> {
        let p = self.pos + k;
        Cursor {
            text: self.text,
            pos: p as usize,
            end: self.end,
            off: byte_len(self.text@.take(p)) as u32,
            line: newline_count(self.text@.take(p)) as u32,
            column: column_of(self.text@.take(p)) as u32,
        }
    }

    pub proof fn lemma_at(self, k: int)
        requires
            self.wf(),
            0 <= k <= self.rest().len(),
        ensures
            self.at(k).wf(),
            self.at(k).rest() =~= self.rest().skip(k),
            self.at(0) == self,
            self.at(k).line <= self.at(k).off,
            k < self.rest().len() ==> self.at(k).off < byte_len(self.text@),
    {
        let p = self.pos + k;
        lemma_byte_len_prefix(self.text@, p);
        lemma_counts_bounded(self.text@.take(p));
    }

    pub proof fn lemma_at_at(self, j: int, k: int)
        requires
            self.wf(),
            0 <= j,
            0 <= k,
            j + k <= self.rest().len(),
        ensures
            self.at(j).at(k) == self.at(j + k),
    {
    }

    /// Number of characters still to read.
    pub fn len(&self) -> (n: usize)
        requires
            self.wf(),
        ensures
            n == self.rest().len(),
    {
        self.end - self.pos
    }

    pub fn is_empty(&self) -> (b: bool)
        requires
            self.wf(),
        ensures
            b == (self.rest().len() == 0),
    {
        self.pos == self.end
    }

    /// The character `k` places ahead.
    pub fn char_at(&self, k: usize) -> (c: char)
        requires
            self.wf(),
            k < self.rest().len(),
        ensures
            c == self.rest()[k as int],
    {
        self.text[self.pos + k]
    }

    /// Whether the character `k` places ahead exists and is `c`.
    pub fn has(&self, k: usize, c: char) -> (b: bool)
        requires
            self.wf(),
        ensures
            b == (k < self.rest().len() && self.rest()[k as int] == c),
    {
        k < self.end - self.pos && self.text[self.pos + k] == c
    }

    /// Whether the rest starts with `c`.
    pub fn starts_with(&self, c: char) -> (b: bool)
        requires
            self.wf(),
        ensures
            b == (self.rest().len() > 0 && self.rest()[0] == c),
    {
        self.has(0, c)
    }

    /// Whether the rest starts with `c0` followed by `c1`.
    pub fn starts_with2(&self, c0: char, c1: char) -> (b: bool)
        requires
            self.wf(),
        ensures
            b == (self.rest().len() > 1 && self.rest()[0] == c0 && self.rest()[1] == c1),
    {
        self.has(0, c0) && self.has(1, c1)
    }

    /// Move `amt` characters on, counting the bytes and lines passed.
    pub fn advance(&self, amt: usize) -> (c: Cursor<'a>)
        requires
            self.wf(),
            amt <= self.rest().len(),
        ensures
            c == self.at(amt as int),
            c.wf(),
    {
        let ghost t = self.text@;
        let mut off = self.off;
        let mut line = self.line;
        let mut column = self.column;
        let mut i: usize = 0;
        proof {
            self.lemma_at(amt as int);
        }
        while i < amt
            invariant
                self.wf(),
                t == self.text@,
                i <= amt <= self.rest().len(),
                off == byte_len(t.take(self.pos + i)),
                line == newline_count(t.take(self.pos + i)),
                column == column_of(t.take(self.pos + i)),
            decreases amt - i,
        {
            let p = self.pos + i;
            let ch = self.text[p];
            proof {
                lemma_take_step(t, p as int);
                lemma_byte_len_prefix(t, p + 1);
                lemma_counts_bounded(t.take(p + 1));
            }
            let w = char_width(ch);
            off = off + w;
            if ch == '\n' {
                line = line + 1;
                column = 0;
            } else {
                column = column + w;
            }
            i = i + 1;
        }
        Cursor { text: self.text, pos: self.pos + amt, end: self.end, off, line, column }
    }

    /// The same position, with the rest cut to end at `end`.
    pub fn up_to(&self, end: &Cursor<'a>) -> (c: Cursor<'a>)
        requires
            self.wf(),
            end.wf(),
            end.text == self.text,
            self.pos <= end.pos <= self.end,
        ensures
            c.wf(),
            c.text == self.text,
            c.pos == self.pos,
            c.end == end.pos,
            c.line == self.line,
            c.rest() =~= self.rest().take(end.pos - self.pos),
    {
        Cursor { end: end.pos, ..*self }
    }
}

/// A cursor at the start of `text`.
pub fn new_cursor<'a>(text: &'a [char]) -> (c: Cursor<'a>)
    requires
        byte_len(text@) <= u32::MAX,
    ensures
        c.wf(),
        c.text == text,
        c.pos == 0,
        c.end == text@.len(),
        c.rest() =~= text@,
{
    assert(text@.take(0) =~= Seq::<char>::empty());
    Cursor { text, pos: 0, end: text.len(), off: 0, line: 0, column: 0 }
}

/// `o` moved `d` further on.
pub open spec fn shift(o: Option<nat>, d: nat) -> Option<nat> {
    match o {
        Some(k) => Some(k + d),
        None => None,
    }
}

// ---------------------------------------------------------------------------
// Whitespace and comments
// ---------------------------------------------------------------------------

/// Characters the lexer skips as whitespace: Unicode `White_Space`, and the
/// left-to-right and right-to-left marks.
pub open spec fn is_lex_space(c: char) -> bool {
    is_white_space(c) || c as u32 == 0x200e || c as u32 == 0x200f
}

pub fn lex_space(c: char) -> (b: bool)
    ensures
        b == is_lex_space(c),
{
    let u = c as u32;
    white_space(c) || u == 0x200e || u == 0x200f
}

/// Offset of the first `c` in `s`.
pub open spec fn find_char(s: Seq<char>, c: char) -> Option<nat>
    decreases s.len(),
{
    if s.len() == 0 {
        None
    } else if s[0] == c {
        Some(0)
    } else {
        match find_char(s.skip(1), c) {
            Some(k) => Some(k + 1),
            None => None,
        }
    }
}

/// Scanning a block comment from index `i` at nesting `depth` (at least 1):
/// the index just past the `*/` that closes the outermost level.
pub open spec fn block_comment_scan(s: Seq<char>, i: int, depth: nat) -> Option<nat>
    decreases s.len() - i,
{
    if i < 0 || i + 1 >= s.len() {
        None
    } else if s[i] == '/' && s[i + 1] == '*' {
        block_comment_scan(s, i + 2, depth + 1)
    } else if s[i] == '*' && s[i + 1] == '/' {
        if depth <= 1 {
            Some((i + 2) as nat)
        } else {
            block_comment_scan(s, i + 2, (depth - 1) as nat)
        }
    } else {
        block_comment_scan(s, i + 1, depth)
    }
}

/// Length of the (nested) block comment that starts `s`.
pub open spec fn block_comment_len(s: Seq<char>) -> Option<nat> {
    if s.len() >= 2 && s[0] == '/' && s[1] == '*' {
        block_comment_scan(s, 2, 1)
    } else {
        None
    }
}

pub proof fn lemma_block_comment_scan_bounds(s: Seq<char>, i: int, depth: nat)
    requires
        i >= 0,
    ensures
        block_comment_scan(s, i, depth) matches Some(k) ==> i + 2 <= k <= s.len(),
    decreases s.len() - i,
{
    if i < 0 || i + 1 >= s.len() {
    } else if s[i] == '/' && s[i + 1] == '*' {
        lemma_block_comment_scan_bounds(s, i + 2, depth + 1);
    } else if s[i] == '*' && s[i + 1] == '/' {
        if depth > 1 {
            lemma_block_comment_scan_bounds(s, i + 2, (depth - 1) as nat);
        }
    } else {
        lemma_block_comment_scan_bounds(s, i + 1, depth);
    }
}

pub proof fn lemma_find_char_bounds(s: Seq<char>, c: char)
    ensures
        find_char(s, c) matches Some(k) ==> k < s.len() && s[k as int] == c,
    decreases s.len(),
{
    if s.len() > 0 && s[0] != c {
        lemma_find_char_bounds(s.skip(1), c);
    }
}

/// Length of the run of whitespace and comments at the start of `s`; `None`
/// when a block comment in it is not closed.
pub open spec fn ws_run(s: Seq<char>) -> Option<nat>
    decreases s.len(),
{
    if s.len() == 0 {
        Some(0)
    } else if s.len() >= 2 && s[0] == '/' && s[1] == '/' {
        match find_char(s, '\n') {
            Some(k) => {
                proof {
                    lemma_find_char_bounds(s, '\n');
                }
                match ws_run(s.skip(k as int + 1)) {
                    Some(n) => Some(n + k + 1),
                    None => None,
                }
            },
            None => Some(s.len()),
        }
    } else if s.len() >= 2 && s[0] == '/' && s[1] == '*' {
        match block_comment_len(s) {
            Some(k) => {
                proof {
                    lemma_block_comment_scan_bounds(s, 2, 1);
                }
                match ws_run(s.skip(k as int)) {
                    Some(n) => Some(n + k),
                    None => None,
                }
            },
            None => None,
        }
    } else if is_lex_space(s[0]) {
        match ws_run(s.skip(1)) {
            Some(n) => Some(n + 1),
            None => None,
        }
    } else {
        Some(0)
    }
}

/// How far `skip_whitespace` moves: the whitespace run, or nothing when the
/// run is broken by an unclosed block comment.
pub open spec fn ws_skip(s: Seq<char>) -> nat {
    match ws_run(s) {
        Some(n) => n,
        None => 0,
    }
}

pub proof fn lemma_ws_run_bounds(s: Seq<char>)
    ensures
        ws_run(s) matches Some(n) ==> n <= s.len(),
    decreases s.len(),
{
    if s.len() == 0 {
    } else if s.len() >= 2 && s[0] == '/' && s[1] == '/' {
        lemma_find_char_bounds(s, '\n');
        if let Some(k) = find_char(s, '\n') {
            lemma_ws_run_bounds(s.skip(k as int + 1));
        }
    } else if s.len() >= 2 && s[0] == '/' && s[1] == '*' {
        lemma_block_comment_scan_bounds(s, 2, 1);
        if let Some(k) = block_comment_len(s) {
            lemma_ws_run_bounds(s.skip(k as int));
        }
    } else if is_lex_space(s[0]) {
        lemma_ws_run_bounds(s.skip(1));
    }
}

/// The length of the nested block comment at the cursor.
pub fn block_comment(input: Cursor) -> (r: Option<usize>)
    requires
        input.wf(),
    ensures
        r == match block_comment_len(input.rest()) {
            Some(k) => Some(k as usize),
            None => None::<usize>,
        },
{
    let ghost s = input.rest();
    if !input.starts_with2('/', '*') {
        return None;
    }
    let n = input.len();
    let mut depth: usize = 1;
    let mut i: usize = 2;
    while n - i > 1
        invariant
            s == input.rest(),
            input.wf(),
            n == s.len(),
            2 <= i <= n,
            1 <= depth <= i,
            block_comment_len(s) == block_comment_scan(s, i as int, depth as nat),
        decreases n - i,
    {
        let c0 = input.char_at(i);
        let c1 = input.char_at(i + 1);
        if c0 == '/' && c1 == '*' {
            depth = depth + 1;
            i = i + 2;
        } else if c0 == '*' && c1 == '/' {
            if depth == 1 {
                return Some(i + 2);
            }
            depth = depth - 1;
            i = i + 2;
        } else {
            i = i + 1;
        }
    }
    None
}

/// At a `//` that starts at `i`: the length of the comment with its
/// newline, or `None` when no newline follows.
fn line_comment_len(input: &Cursor, i: usize) -> (r: Option<usize>)
    requires
        input.wf(),
        i + 1 < input.rest().len(),
        input.rest()[i as int] == '/',
        input.rest()[i + 1] == '/',
    ensures
        ({
            let t = input.rest().skip(i as int);
            match find_char(t, '\n') {
                Some(k) => r == Some((k + 1) as usize) && i + k + 1 <= input.rest().len(),
                None => r is None,
            }
        }),
{
    let ghost s = input.rest();
    let ghost t = s.skip(i as int);
    let n = input.len();
    proof {
        assert(t.skip(0) =~= t);
        assert(t.skip(1).skip(1) =~= t.skip(2));
        assert(t[0] == '/' && t[1] == '/');
        assert(t.skip(1)[0] == '/');
        assert(find_char(t.skip(1), '\n') == shift(find_char(t.skip(2), '\n'), 1));
        assert(find_char(t, '\n') == shift(find_char(t.skip(1), '\n'), 1));
    }
    let mut j = i + 2;
    while j < n && input.char_at(j) != '\n'
        invariant
            s == input.rest(),
            input.wf(),
            n == s.len(),
            i + 2 <= j <= n,
            t == s.skip(i as int),
            find_char(t, '\n') == shift(find_char(t.skip(j - i), '\n'), (j - i) as nat),
        decreases n - j,
    {
        assert(t.skip(j - i).skip(1) =~= t.skip(j + 1 - i));
        j = j + 1;
    }
    if j == n {
        assert(t.skip(j - i).len() == 0);
        return None;
    }
    assert(t.skip(j - i)[0] == '\n');
    Some(j + 1 - i)
}

/// Skip whitespace and comments; where that fails (an unclosed block
/// comment) the cursor stays where it is.
pub fn skip_whitespace<'a>(input: Cursor<'a>) -> (c: Cursor<'a>)
    requires
        input.wf(),
    ensures
        c.wf(),
        c == input.at(ws_skip(input.rest()) as int),
{
    let ghost s = input.rest();
    let n = input.len();
    let mut i: usize = 0;
    proof {
        lemma_ws_run_bounds(s);
        assert(s.skip(0) =~= s);
    }
    while i < n
        invariant
            s == input.rest(),
            input.wf(),
            n == s.len(),
            i <= n,
            ws_run(s) == shift(ws_run(s.skip(i as int)), i as nat),
        decreases n - i,
    {
        let ghost t = s.skip(i as int);
        let c = input.char_at(i);
        if c == '/' && input.has(i + 1, '/') {
            // a line comment runs up to and with the next newline
            match line_comment_len(&input, i) {
                Some(k) => {
                    assert(t.skip(k as int) =~= s.skip(i + k));
                    i = i + k;
                },
                None => {
                    proof {
                        input.lemma_at(n as int);
                    }
                    return input.advance(n);
                },
            }
        } else if c == '/' && input.has(i + 1, '*') {
            proof {
                input.lemma_at(i as int);
            }
            let after = input.advance(i);
            match block_comment(after) {
                Some(k) => {
                    proof {
                        lemma_block_comment_scan_bounds(t, 2, 1);
                        assert(t.skip(k as int) =~= s.skip(i + k));
                    }
                    i = i + k;
                },
                None => {
                    proof {
                        input.lemma_at(0);
                    }
                    return input;
                },
            }
        } else if lex_space(c) {
            assert(t.skip(1) =~= s.skip(i + 1));
            i = i + 1;
        } else {
            proof {
                input.lemma_at(i as int);
            }
            return input.advance(i);
        }
    }
    proof {
        input.lemma_at(i as int);
        assert(s.skip(i as int).len() == 0);
    }
    input.advance(i)
}


// ---------------------------------------------------------------------------
// Identifiers
// ---------------------------------------------------------------------------

pub open spec fn is_ident_start(c: char) -> bool {
    ||| 'a' <= c <= 'z'
    ||| 'A' <= c <= 'Z'
    ||| c == '_'
    ||| (c as u32 > 0x7f && xid_start_property(c))
}

pub open spec fn is_ident_continue(c: char) -> bool {
    ||| 'a' <= c <= 'z'
    ||| 'A' <= c <= 'Z'
    ||| c == '_'
    ||| '0' <= c <= '9'
    ||| (c as u32 > 0x7f && xid_continue_property(c))
}

pub fn ident_start(c: char) -> (b: bool)
    ensures
        b == is_ident_start(c),
{
    ('a' <= c && c <= 'z') || ('A' <= c && c <= 'Z') || c == '_' || (c as u32 > 0x7f && xid_start(c))
}

pub fn ident_continue(c: char) -> (b: bool)
    ensures
        b == is_ident_continue(c),
{
    ('a' <= c && c <= 'z') || ('A' <= c && c <= 'Z') || c == '_' || ('0' <= c && c <= '9') || (c
        as u32 > 0x7f && xid_continue(c))
}

/// Length of the run of identifier-continuing characters that starts `s`.
pub open spec fn ident_run(s: Seq<char>) -> nat
    decreases s.len(),
{
    if s.len() > 0 && is_ident_continue(s[0]) {
        ident_run(s.skip(1)) + 1
    } else {
        0
    }
}

/// Length of the raw-identifier marker `r#` at the start of `s` (2 or 0).
pub open spec fn raw_marker(s: Seq<char>) -> nat {
    if s.len() >= 2 && s[0] == 'r' && s[1] == '#' {
        2
    } else {
        0
    }
}

/// Length of the identifier (raw ones with their `r#`) that starts `s`;
/// `r#_` is not one.
pub open spec fn symbol_len(s: Seq<char>) -> Option<nat> {
    let j = raw_marker(s);
    if s.len() <= j || !is_ident_start(s[j as int]) {
        None
    } else {
        let e = j + 1 + ident_run(s.skip(j as int + 1));
        if j == 2 && e == 3 && s[2] == '_' {
            None
        } else {
            Some(e)
        }
    }
}

pub proof fn lemma_ident_run_bounds(s: Seq<char>)
    ensures
        ident_run(s) <= s.len(),
    decreases s.len(),
{
    if s.len() > 0 && is_ident_continue(s[0]) {
        lemma_ident_run_bounds(s.skip(1));
    }
}

pub proof fn lemma_symbol_bounds(s: Seq<char>)
    ensures
        symbol_len(s) matches Some(k) ==> 1 <= k <= s.len(),
{
    let j = raw_marker(s) as int;
    if s.len() > j {
        lemma_ident_run_bounds(s.skip(j + 1));
    }
}

/// The identifier at the cursor: the cursor after it, and its length.
pub fn symbol<'a>(input: Cursor<'a>) -> (r: PResult<'a, usize>)
    requires
        input.wf(),
    ensures
        match symbol_len(input.rest()) {
            Some(k) => r == Ok::<(Cursor<'a>, usize), LexError>((input.at(k as int), k as usize)),
            None => r == Err::<(Cursor<'a>, usize), LexError>(LexError { line: input.line }),
        },
        r matches Ok((c, _)) ==> c.wf(),
{
    let ghost s = input.rest();
    let n = input.len();
    let j: usize = if input.starts_with2('r', '#') { 2 } else { 0 };
    if j >= n || !ident_start(input.char_at(j)) {
        return Err(LexError { line: input.line });
    }
    let mut e = j + 1;
    proof {
        lemma_ident_run_bounds(s.skip(j + 1));
    }
    while e < n && ident_continue(input.char_at(e))
        invariant
            s == input.rest(),
            input.wf(),
            n == s.len(),
            j + 1 <= e <= n,
            ident_run(s.skip(j + 1)) == ident_run(s.skip(e as int)) + (e - j - 1),
        decreases n - e,
    {
        assert(s.skip(e as int).skip(1) =~= s.skip(e + 1));
        e = e + 1;
    }
    assert(ident_run(s.skip(e as int)) == 0);
    if j == 2 && e == 3 && input.char_at(2) == '_' {
        return Err(LexError { line: input.line });
    }
    proof {
        input.lemma_at(e as int);
    }
    Ok((input.advance(e), e))
}


// ---------------------------------------------------------------------------
// Escapes and literal bodies
// ---------------------------------------------------------------------------

/// `r` as an optional index agrees with `o`.
pub open spec fn same_index(r: Option<usize>, o: Option<nat>) -> bool {
    match (r, o) {
        (Some(a), Some(b)) => a as nat == b,
        (None, None) => true,
        _ => false,
    }
}

pub open spec fn is_hex(c: char) -> bool {
    ||| '0' <= c <= '9'
    ||| 'a' <= c <= 'f'
    ||| 'A' <= c <= 'F'
}

pub fn hex(c: char) -> (b: bool)
    ensures
        b == is_hex(c),
{
    ('0' <= c && c <= '9') || ('a' <= c && c <= 'f') || ('A' <= c && c <= 'F')
}

/// The escapes that stand for themselves after a backslash.
pub open spec fn is_simple_escape(c: char) -> bool {
    c == 'n' || c == 'r' || c == 't' || c == '\\' || c == '0' || c == '\'' || c == '"'
}

pub fn simple_escape(c: char) -> (b: bool)
    ensures
        b == is_simple_escape(c),
{
    c == 'n' || c == 'r' || c == 't' || c == '\\' || c == '0' || c == '\'' || c == '"'
}

/// After `\x` in a string or character: an octal digit, then a hex digit.
pub open spec fn x_char_ok(s: Seq<char>) -> bool {
    s.len() >= 2 && '0' <= s[0] <= '7' && is_hex(s[1])
}

/// After `\x` in a byte string or byte: two hex digits.
pub open spec fn x_byte_ok(s: Seq<char>) -> bool {
    s.len() >= 2 && is_hex(s[0]) && is_hex(s[1])
}

/// The part of `\u{...}` after its first digit: digits or `_` up to `}`.
pub open spec fn u_tail(s: Seq<char>) -> Option<nat>
    decreases s.len(),
{
    if s.len() == 0 {
        None
    } else if s[0] == '}' {
        Some(1)
    } else if is_hex(s[0]) || s[0] == '_' {
        shift(u_tail(s.skip(1)), 1)
    } else {
        None
    }
}

/// Length of `{...}` after `\u`: a brace, a hex digit, then digits or `_` up
/// to the closing brace.
pub open spec fn u_escape(s: Seq<char>) -> Option<nat> {
    if s.len() >= 2 && s[0] == '{' && is_hex(s[1]) {
        shift(u_tail(s.skip(2)), 2)
    } else {
        None
    }
}

/// Number of `char::is_whitespace` characters that start `s`.
pub open spec fn ws_chars(s: Seq<char>) -> nat
    decreases s.len(),
{
    if s.len() > 0 && is_white_space(s[0]) {
        ws_chars(s.skip(1)) + 1
    } else {
        0
    }
}

pub proof fn lemma_u_tail_bounds(s: Seq<char>)
    ensures
        u_tail(s) matches Some(k) ==> 1 <= k <= s.len(),
    decreases s.len(),
{
    if s.len() > 0 && s[0] != '}' && (is_hex(s[0]) || s[0] == '_') {
        lemma_u_tail_bounds(s.skip(1));
    }
}

pub proof fn lemma_u_escape_bounds(s: Seq<char>)
    ensures
        u_escape(s) matches Some(k) ==> 3 <= k <= s.len(),
{
    if s.len() >= 2 {
        lemma_u_tail_bounds(s.skip(2));
    }
}

pub proof fn lemma_ws_chars_bounds(s: Seq<char>)
    ensures
        ws_chars(s) <= s.len(),
    decreases s.len(),
{
    if s.len() > 0 && is_white_space(s[0]) {
        lemma_ws_chars_bounds(s.skip(1));
    }
}

/// Index of the `"` that ends the body of a string literal `s` starts.
pub open spec fn cooked_string_len(s: Seq<char>) -> Option<nat>
    decreases s.len(),
{
    if s.len() == 0 {
        None
    } else if s[0] == '"' {
        Some(0)
    } else if s[0] == '\r' {
        if s.len() >= 2 && s[1] == '\n' {
            shift(cooked_string_len(s.skip(2)), 2)
        } else {
            None
        }
    } else if s[0] == '\\' {
        if s.len() < 2 {
            None
        } else if s[1] == 'x' {
            if x_char_ok(s.skip(2)) {
                shift(cooked_string_len(s.skip(4)), 4)
            } else {
                None
            }
        } else if s[1] == 'u' {
            match u_escape(s.skip(2)) {
                Some(k) => {
                    proof {
                        lemma_u_escape_bounds(s.skip(2));
                    }
                    shift(cooked_string_len(s.skip(2 + k as int)), 2 + k)
                },
                None => None,
            }
        } else if is_simple_escape(s[1]) {
            shift(cooked_string_len(s.skip(2)), 2)
        } else if s[1] == '\n' || s[1] == '\r' {
            let w = ws_chars(s.skip(2));
            proof {
                lemma_ws_chars_bounds(s.skip(2));
            }
            shift(cooked_string_len(s.skip(2 + w as int)), 2 + w)
        } else {
            None
        }
    } else {
        shift(cooked_string_len(s.skip(1)), 1)
    }
}

/// Index of the `"` that ends the body of a byte-string literal `s` starts.
pub open spec fn cooked_byte_string_len(s: Seq<char>) -> Option<nat>
    decreases s.len(),
{
    if s.len() == 0 {
        None
    } else if s[0] == '"' {
        Some(0)
    } else if s[0] == '\r' {
        if s.len() >= 2 && s[1] == '\n' {
            shift(cooked_byte_string_len(s.skip(2)), 2)
        } else {
            None
        }
    } else if s[0] == '\\' {
        if s.len() < 2 {
            None
        } else if s[1] == 'x' {
            if x_byte_ok(s.skip(2)) {
                shift(cooked_byte_string_len(s.skip(4)), 4)
            } else {
                None
            }
        } else if is_simple_escape(s[1]) {
            shift(cooked_byte_string_len(s.skip(2)), 2)
        } else if s[1] == '\n' || s[1] == '\r' {
            let w = ws_chars(s.skip(2));
            proof {
                lemma_ws_chars_bounds(s.skip(2));
            }
            if 2 + w >= s.len() {
                None
            } else {
                shift(cooked_byte_string_len(s.skip(2 + w as int)), 2 + w)
            }
        } else {
            None
        }
    } else if (s[0] as u32) < 0x80 {
        shift(cooked_byte_string_len(s.skip(1)), 1)
    } else {
        None
    }
}

/// Length of the character (or escape) a character literal `s` starts with.
pub open spec fn cooked_char_len(s: Seq<char>) -> Option<nat> {
    if s.len() == 0 {
        None
    } else if s[0] == '\\' {
        if s.len() < 2 {
            None
        } else if s[1] == 'x' {
            if x_char_ok(s.skip(2)) {
                Some(4)
            } else {
                None
            }
        } else if s[1] == 'u' {
            shift(u_escape(s.skip(2)), 2)
        } else if is_simple_escape(s[1]) {
            Some(2)
        } else {
            None
        }
    } else {
        Some(1)
    }
}

/// Length of the byte (or escape) a byte literal `s` starts with.
pub open spec fn cooked_byte_len(s: Seq<char>) -> Option<nat> {
    if s.len() == 0 {
        None
    } else if s[0] == '\\' {
        if s.len() < 2 {
            None
        } else if s[1] == 'x' {
            if x_byte_ok(s.skip(2)) {
                Some(4)
            } else {
                None
            }
        } else if is_simple_escape(s[1]) {
            Some(2)
        } else {
            None
        }
    } else if (s[0] as u32) < 0x80 {
        Some(1)
    } else {
        None
    }
}

/// Number of `#` that start `s`.
pub open spec fn hash_run(s: Seq<char>) -> nat
    decreases s.len(),
{
    if s.len() > 0 && s[0] == '#' {
        hash_run(s.skip(1)) + 1
    } else {
        0
    }
}

/// `s` holds `n` `#` from index `q` on.
pub open spec fn hashes_at(s: Seq<char>, q: int, n: nat) -> bool {
    &&& 0 <= q
    &&& q + n <= s.len()
    &&& forall|i: int| q <= i < q + n ==> s[i] == '#'
}

/// From index `p` on, the end of the first `"` followed by `n` `#`.
pub open spec fn raw_close(s: Seq<char>, n: nat, p: int) -> Option<nat>
    decreases s.len() - p,
{
    if p < 0 || p >= s.len() {
        None
    } else if s[p] == '"' && hashes_at(s, p + 1, n) {
        Some((p + 1 + n) as nat)
    } else {
        raw_close(s, n, p + 1)
    }
}

/// Length of the rest of a raw string literal after its `r`: `#`s, a quote,
/// the body, and a quote with as many `#`s.
pub open spec fn raw_string_len(s: Seq<char>) -> Option<nat> {
    let n = hash_run(s);
    if n >= s.len() || s[n as int] != '"' {
        None
    } else {
        raw_close(s, n, n as int + 1)
    }
}

pub proof fn lemma_hash_run(s: Seq<char>)
    ensures
        hash_run(s) <= s.len(),
        forall|i: int| 0 <= i < hash_run(s) ==> s[i] == '#',
        hash_run(s) < s.len() ==> s[hash_run(s) as int] != '#',
    decreases s.len(),
{
    if s.len() > 0 && s[0] == '#' {
        lemma_hash_run(s.skip(1));
        assert forall|i: int| 0 <= i < hash_run(s) implies s[i] == '#' by {
            if i > 0 {
                assert(s[i] == s.skip(1)[i - 1]);
            }
        }
    }
}

pub proof fn lemma_raw_close_bounds(s: Seq<char>, n: nat, p: int)
    ensures
        raw_close(s, n, p) matches Some(k) ==> p < k <= s.len(),
    decreases s.len() - p,
{
    if p < 0 || p >= s.len() {
    } else if s[p] == '"' && hashes_at(s, p + 1, n) {
    } else {
        lemma_raw_close_bounds(s, n, p + 1);
    }
}

/// `u_escape` of the rest from `at` on.
fn u_escape_at(input: &Cursor, at: usize) -> (r: Option<usize>)
    requires
        input.wf(),
        at <= input.rest().len(),
    ensures
        same_index(r, u_escape(input.rest().skip(at as int))),
{
    let ghost s = input.rest().skip(at as int);
    let n = input.len();
    if !(input.has(at, '{') && at + 1 < n && hex(input.char_at(at + 1))) {
        return None;
    }
    let mut i = at + 2;
    proof {
        assert(s.skip(2) =~= input.rest().skip(i as int));
    }
    while i < n
        invariant
            input.wf(),
            n == input.rest().len(),
            at + 2 <= i <= n,
            s == input.rest().skip(at as int),
            u_escape(s) == shift(u_tail(input.rest().skip(i as int)), (i - at) as nat),
        decreases n - i,
    {
        let c = input.char_at(i);
        assert(input.rest().skip(i as int)[0] == c);
        if c == '}' {
            return Some(i + 1 - at);
        } else if hex(c) || c == '_' {
            assert(input.rest().skip(i as int).skip(1) =~= input.rest().skip(i + 1));
            i = i + 1;
        } else {
            return None;
        }
    }
    assert(input.rest().skip(i as int).len() == 0);
    None
}

/// `ws_chars` of the rest from `at` on.
fn ws_chars_at(input: &Cursor, at: usize) -> (w: usize)
    requires
        input.wf(),
        at <= input.rest().len(),
    ensures
        w == ws_chars(input.rest().skip(at as int)),
        at + w <= input.rest().len(),
{
    let n = input.len();
    let mut i = at;
    proof {
        assert(input.rest().skip(at as int) =~= input.rest().skip(i as int));
    }
    while i < n && white_space(input.char_at(i))
        invariant
            input.wf(),
            n == input.rest().len(),
            at <= i <= n,
            ws_chars(input.rest().skip(at as int)) == ws_chars(input.rest().skip(i as int)) + (i
                - at),
        decreases n - i,
    {
        assert(input.rest().skip(i as int).skip(1) =~= input.rest().skip(i + 1));
        i = i + 1;
    }
    if i < n {
        assert(input.rest().skip(i as int)[0] == input.rest()[i as int]);
    }
    i - at
}

/// The string body at the cursor (just after the opening quote): the cursor
/// at the closing quote.
pub fn cooked_string<'a>(input: Cursor<'a>) -> (r: PResult<'a, ()>)
    requires
        input.wf(),
    ensures
        match cooked_string_len(input.rest()) {
            Some(k) => r == Ok::<(Cursor<'a>, ()), LexError>((input.at(k as int), ())),
            None => r == Err::<(Cursor<'a>, ()), LexError>(LexError { line: input.line }),
        },
{
    let ghost s = input.rest();
    let n = input.len();
    let mut i: usize = 0;
    assert(s.skip(0) =~= s);
    while i < n
        invariant
            input.wf(),
            s == input.rest(),
            n == s.len(),
            i <= n,
            cooked_string_len(s) == shift(cooked_string_len(s.skip(i as int)), i as nat),
        decreases n - i,
    {
        let ghost t = s.skip(i as int);
        let c = input.char_at(i);
        assert(t[0] == c);
        if c == '"' {
            proof {
                input.lemma_at(i as int);
            }
            return Ok((input.advance(i), ()));
        } else if c == '\r' {
            if input.has(i + 1, '\n') {
                assert(t[1] == '\n');
                assert(t.skip(2) =~= s.skip(i + 2));
                i = i + 2;
            } else {
                return Err(LexError { line: input.line });
            }
        } else if c == '\\' {
            if i + 1 >= n {
                return Err(LexError { line: input.line });
            }
            let e = input.char_at(i + 1);
            assert(t[1] == e);
            if e == 'x' {
                if n - i > 3 && input.char_at(i + 2) <= '7' && input.char_at(i + 2) >= '0' && hex(
                    input.char_at(i + 3),
                ) {
                    assert(t.skip(2)[0] == t[2] && t.skip(2)[1] == t[3]);
                    assert(t.skip(4) =~= s.skip(i + 4));
                    i = i + 4;
                } else {
                    assert(!x_char_ok(t.skip(2)));
                    return Err(LexError { line: input.line });
                }
            } else if e == 'u' {
                assert(t.skip(2) =~= s.skip(i + 2));
                match u_escape_at(&input, i + 2) {
                    Some(k) => {
                        proof {
                            lemma_u_escape_bounds(t.skip(2));
                        }
                        assert(t.skip(2 + k) =~= s.skip(i + 2 + k));
                        i = i + 2 + k;
                    },
                    None => {
                        return Err(LexError { line: input.line });
                    },
                }
            } else if simple_escape(e) {
                assert(t.skip(2) =~= s.skip(i + 2));
                i = i + 2;
            } else if e == '\n' || e == '\r' {
                assert(t.skip(2) =~= s.skip(i + 2));
                let w = ws_chars_at(&input, i + 2);
                assert(t.skip(2 + w) =~= s.skip(i + 2 + w));
                i = i + 2 + w;
            } else {
                return Err(LexError { line: input.line });
            }
        } else {
            assert(t.skip(1) =~= s.skip(i + 1));
            i = i + 1;
        }
    }
    assert(s.skip(i as int).len() == 0);
    Err(LexError { line: input.line })
}

/// The byte-string body at the cursor (just after the opening quote): the
/// cursor at the closing quote.
pub fn cooked_byte_string<'a>(input: Cursor<'a>) -> (r: PResult<'a, ()>)
    requires
        input.wf(),
    ensures
        match cooked_byte_string_len(input.rest()) {
            Some(k) => r == Ok::<(Cursor<'a>, ()), LexError>((input.at(k as int), ())),
            None => r == Err::<(Cursor<'a>, ()), LexError>(LexError { line: input.line }),
        },
{
    let ghost s = input.rest();
    let n = input.len();
    let mut i: usize = 0;
    assert(s.skip(0) =~= s);
    while i < n
        invariant
            input.wf(),
            s == input.rest(),
            n == s.len(),
            i <= n,
            cooked_byte_string_len(s) == shift(cooked_byte_string_len(s.skip(i as int)), i as nat),
        decreases n - i,
    {
        let ghost t = s.skip(i as int);
        let c = input.char_at(i);
        assert(t[0] == c);
        if c == '"' {
            proof {
                input.lemma_at(i as int);
            }
            return Ok((input.advance(i), ()));
        } else if c == '\r' {
            if input.has(i + 1, '\n') {
                assert(t[1] == '\n');
                assert(t.skip(2) =~= s.skip(i + 2));
                i = i + 2;
            } else {
                return Err(LexError { line: input.line });
            }
        } else if c == '\\' {
            if i + 1 >= n {
                return Err(LexError { line: input.line });
            }
            let e = input.char_at(i + 1);
            assert(t[1] == e);
            if e == 'x' {
                if n - i > 3 && hex(input.char_at(i + 2)) && hex(input.char_at(i + 3)) {
                    assert(t.skip(2)[0] == t[2] && t.skip(2)[1] == t[3]);
                    assert(t.skip(4) =~= s.skip(i + 4));
                    i = i + 4;
                } else {
                    assert(!x_byte_ok(t.skip(2)));
                    return Err(LexError { line: input.line });
                }
            } else if simple_escape(e) {
                assert(t.skip(2) =~= s.skip(i + 2));
                i = i + 2;
            } else if e == '\n' || e == '\r' {
                assert(t.skip(2) =~= s.skip(i + 2));
                let w = ws_chars_at(&input, i + 2);
                if i + 2 + w >= n {
                    return Err(LexError { line: input.line });
                }
                assert(t.skip(2 + w) =~= s.skip(i + 2 + w));
                i = i + 2 + w;
            } else {
                return Err(LexError { line: input.line });
            }
        } else if (c as u32) < 0x80 {
            assert(t.skip(1) =~= s.skip(i + 1));
            i = i + 1;
        } else {
            return Err(LexError { line: input.line });
        }
    }
    assert(s.skip(i as int).len() == 0);
    Err(LexError { line: input.line })
}

/// The character (or escape) of a character literal, at the cursor just
/// after its opening quote: the cursor after it.
pub fn cooked_char<'a>(input: Cursor<'a>) -> (r: PResult<'a, ()>)
    requires
        input.wf(),
    ensures
        match cooked_char_len(input.rest()) {
            Some(k) => r == Ok::<(Cursor<'a>, ()), LexError>((input.at(k as int), ())),
            None => r == Err::<(Cursor<'a>, ()), LexError>(LexError { line: input.line }),
        },
{
    let ghost s = input.rest();
    let n = input.len();
    if n == 0 {
        return Err(LexError { line: input.line });
    }
    let k: usize;
    if input.char_at(0) == '\\' {
        if n < 2 {
            return Err(LexError { line: input.line });
        }
        let e = input.char_at(1);
        if e == 'x' {
            if n >= 4 && input.char_at(2) >= '0' && input.char_at(2) <= '7' && hex(input.char_at(3)) {
                k = 4;
            } else {
                assert(!x_char_ok(s.skip(2)));
                return Err(LexError { line: input.line });
            }
        } else if e == 'u' {
            assert(s.skip(2) =~= input.rest().skip(2));
            match u_escape_at(&input, 2) {
                Some(m) => {
                    proof {
                        lemma_u_escape_bounds(s.skip(2));
                    }
                    k = 2 + m;
                },
                None => {
                    return Err(LexError { line: input.line });
                },
            }
        } else if simple_escape(e) {
            k = 2;
        } else {
            return Err(LexError { line: input.line });
        }
    } else {
        k = 1;
    }
    proof {
        input.lemma_at(k as int);
    }
    Ok((input.advance(k), ()))
}

/// The byte (or escape) of a byte literal, at the cursor just after `b'`:
/// the cursor after it.
pub fn cooked_byte<'a>(input: Cursor<'a>) -> (r: PResult<'a, ()>)
    requires
        input.wf(),
    ensures
        match cooked_byte_len(input.rest()) {
            Some(k) => r == Ok::<(Cursor<'a>, ()), LexError>((input.at(k as int), ())),
            None => r == Err::<(Cursor<'a>, ()), LexError>(LexError { line: input.line }),
        },
{
    let ghost s = input.rest();
    let n = input.len();
    if n == 0 {
        return Err(LexError { line: input.line });
    }
    let c = input.char_at(0);
    let k: usize;
    if c == '\\' {
        if n < 2 {
            return Err(LexError { line: input.line });
        }
        let e = input.char_at(1);
        if e == 'x' {
            if n >= 4 && hex(input.char_at(2)) && hex(input.char_at(3)) {
                k = 4;
            } else {
                assert(!x_byte_ok(s.skip(2)));
                return Err(LexError { line: input.line });
            }
        } else if simple_escape(e) {
            k = 2;
        } else {
            return Err(LexError { line: input.line });
        }
    } else if (c as u32) < 0x80 {
        k = 1;
    } else {
        return Err(LexError { line: input.line });
    }
    proof {
        input.lemma_at(k as int);
    }
    Ok((input.advance(k), ()))
}

/// The rest of a raw string literal, at the cursor just after its `r`: the
/// cursor after the closing quote and its `#`s.
pub fn raw_string<'a>(input: Cursor<'a>) -> (r: PResult<'a, ()>)
    requires
        input.wf(),
    ensures
        match raw_string_len(input.rest()) {
            Some(k) => r == Ok::<(Cursor<'a>, ()), LexError>((input.at(k as int), ())),
            None => r == Err::<(Cursor<'a>, ()), LexError>(LexError { line: input.line }),
        },
{
    let ghost s = input.rest();
    let n = input.len();
    let mut h: usize = 0;
    assert(s.skip(0) =~= s);
    while h < n && input.char_at(h) == '#'
        invariant
            input.wf(),
            s == input.rest(),
            n == s.len(),
            h <= n,
            hash_run(s) == hash_run(s.skip(h as int)) + h,
        decreases n - h,
    {
        assert(s.skip(h as int).skip(1) =~= s.skip(h + 1));
        h = h + 1;
    }
    if h < n {
        assert(s.skip(h as int)[0] == s[h as int]);
    }
    assert(hash_run(s) == h);
    if h >= n || input.char_at(h) != '"' {
        return Err(LexError { line: input.line });
    }
    proof {
        lemma_hash_run(s);
    }
    let mut p = h + 1;
    while p < n
        invariant
            input.wf(),
            s == input.rest(),
            n == s.len(),
            h < p <= n,
            h == hash_run(s),
            raw_string_len(s) == raw_close(s, h as nat, p as int),
        decreases n - p,
    {
        if input.char_at(p) == '"' {
            // are there `h` hashes after this quote?
            let mut q: usize = 0;
            while q < h && n - (p + 1) > q && input.char_at(p + 1 + q) == '#'
                invariant
                    input.wf(),
                    s == input.rest(),
                    n == s.len(),
                    p < n,
                    q <= h,
                    forall|i: int| p + 1 <= i < p + 1 + q ==> s[i] == '#',
                decreases h - q,
            {
                q = q + 1;
            }
            if q == h && h <= n - (p + 1) {
                assert(hashes_at(s, p + 1, h as nat));
                proof {
                    input.lemma_at((p + 1 + h) as int);
                }
                return Ok((input.advance(p + 1 + h), ()));
            }
            assert(!hashes_at(s, p + 1, h as nat));
        }
        p = p + 1;
    }
    Err(LexError { line: input.line })
}


// ---------------------------------------------------------------------------
// Literals
// ---------------------------------------------------------------------------

/// The characters of the regular expression `^b?r#*"`.
pub open spec fn raw_string_start_pattern() -> Seq<char> {
    seq!['^', 'b', '?', 'r', '#', '*', '"']
}

/// The regular expression `^b?r#*"` that tells where a raw string starts.
pub fn raw_string_start_regex() -> (r: Option<CompiledRegex>)
    ensures
        r matches Some(re) && re.source() == raw_string_start_pattern(),
{
    let pattern = "^b?r#*\"";
    proof {
        reveal_strlit("^b?r#*\"");
        assert(pattern@ =~= raw_string_start_pattern());
    }
    regex_new(pattern)
}

/// Index of the `r` of a raw string start (after an optional `b`).
pub open spec fn raw_r_index(s: Seq<char>) -> nat {
    if s.len() > 0 && s[0] == 'b' {
        1
    } else {
        0
    }
}

/// `s` starts with an optional `b`, an `r`, any number of `#`, and a `"`.
pub open spec fn starts_raw_string(s: Seq<char>) -> bool {
    let j = raw_r_index(s) as int;
    let q = j + 1 + hash_run(s.skip(j + 1));
    &&& s.len() > j
    &&& s[j] == 'r'
    &&& q < s.len()
    &&& s[q] == '"'
}

/// A string literal at the start of `s` (which starts with `"`).
pub open spec fn string_lit(s: Seq<char>) -> Result<Option<nat>, nat> {
    match cooked_string_len(s.skip(1)) {
        Some(k) => Ok(Some(k + 2)),
        None => Err(1),
    }
}

/// A byte-string literal at the start of `s` (which starts with `b"`).
pub open spec fn byte_string_lit(s: Seq<char>) -> Result<Option<nat>, nat> {
    match cooked_byte_string_len(s.skip(2)) {
        Some(k) => Ok(Some(k + 3)),
        None => Err(2),
    }
}

/// A character literal, or failing that a lifetime, at the start of `s`
/// (which starts with `'`).
pub open spec fn char_lit(s: Seq<char>) -> Result<Option<nat>, nat> {
    let t = s.skip(1);
    match cooked_char_len(t) {
        None => Err(1),
        Some(k) => if k < t.len() && t[k as int] == '\'' {
            Ok(Some(k + 2))
        } else {
            match symbol_len(t) {
                Some(m) => Ok(Some(m + 1)),
                None => Err(1),
            }
        },
    }
}

/// A byte literal at the start of `s` (which starts with `b'`).
pub open spec fn byte_lit(s: Seq<char>) -> Result<Option<nat>, nat> {
    match cooked_byte_len(s.skip(2)) {
        None => Err(2),
        Some(k) => if 2 + k < s.len() && s[2 + k as int] == '\'' {
            Ok(Some(k + 3))
        } else {
            Err(2 + k)
        },
    }
}

/// A raw string literal at the start of `s` (where one starts).
pub open spec fn raw_lit(s: Seq<char>) -> Result<Option<nat>, nat> {
    let q = raw_r_index(s);
    match raw_string_len(s.skip(q as int + 1)) {
        Some(k) => Ok(Some(q + 1 + k)),
        None => Err(q + 1),
    }
}

/// The literal at the start of `s`: `Ok(Some(k))` for one of length `k`,
/// `Ok(None)` when no literal starts there, `Err(e)` when one starts but is
/// malformed, the error being reported at offset `e`.
pub open spec fn literal_scan(s: Seq<char>) -> Result<Option<nat>, nat> {
    if s.len() > 0 && s[0] == '"' {
        string_lit(s)
    } else if s.len() > 1 && s[0] == 'b' && s[1] == '"' {
        byte_string_lit(s)
    } else if s.len() > 0 && s[0] == '\'' {
        char_lit(s)
    } else if s.len() > 1 && s[0] == 'b' && s[1] == '\'' {
        byte_lit(s)
    } else if starts_raw_string(s) {
        raw_lit(s)
    } else {
        Ok(None)
    }
}

/// `r` is what skipping a literal gives back when the scan of it is `o`.
pub open spec fn lit_result<'a>(input: Cursor<'a>, o: Result<Option<nat>, nat>, r: PResult<'a, bool>) -> bool {
    match o {
        Ok(Some(k)) => r == Ok::<(Cursor<'a>, bool), LexError>((input.at(k as int), true)),
        Ok(None) => r == Ok::<(Cursor<'a>, bool), LexError>((input, false)),
        Err(e) => r == Err::<(Cursor<'a>, bool), LexError>(LexError { line: input.at(e as int).line }),
    }
}

pub proof fn lemma_cooked_string_bounds(s: Seq<char>)
    ensures
        cooked_string_len(s) matches Some(k) ==> k < s.len() && s[k as int] == '"',
    decreases s.len(),
{
    if s.len() == 0 || s[0] == '"' {
    } else if s[0] == '\r' {
        if s.len() >= 2 && s[1] == '\n' {
            lemma_cooked_string_bounds(s.skip(2));
        }
    } else if s[0] == '\\' {
        if s.len() < 2 {
        } else if s[1] == 'x' {
            if x_char_ok(s.skip(2)) {
                lemma_cooked_string_bounds(s.skip(4));
            }
        } else if s[1] == 'u' {
            lemma_u_escape_bounds(s.skip(2));
            if let Some(k) = u_escape(s.skip(2)) {
                lemma_cooked_string_bounds(s.skip(2 + k as int));
            }
        } else if is_simple_escape(s[1]) {
            lemma_cooked_string_bounds(s.skip(2));
        } else if s[1] == '\n' || s[1] == '\r' {
            lemma_ws_chars_bounds(s.skip(2));
            lemma_cooked_string_bounds(s.skip(2 + ws_chars(s.skip(2)) as int));
        }
    } else {
        lemma_cooked_string_bounds(s.skip(1));
    }
}

pub proof fn lemma_cooked_byte_string_bounds(s: Seq<char>)
    ensures
        cooked_byte_string_len(s) matches Some(k) ==> k < s.len() && s[k as int] == '"',
    decreases s.len(),
{
    if s.len() == 0 || s[0] == '"' {
    } else if s[0] == '\r' {
        if s.len() >= 2 && s[1] == '\n' {
            lemma_cooked_byte_string_bounds(s.skip(2));
        }
    } else if s[0] == '\\' {
        if s.len() < 2 {
        } else if s[1] == 'x' {
            if x_byte_ok(s.skip(2)) {
                lemma_cooked_byte_string_bounds(s.skip(4));
            }
        } else if is_simple_escape(s[1]) {
            lemma_cooked_byte_string_bounds(s.skip(2));
        } else if s[1] == '\n' || s[1] == '\r' {
            lemma_ws_chars_bounds(s.skip(2));
            let w = ws_chars(s.skip(2));
            if 2 + w < s.len() {
                lemma_cooked_byte_string_bounds(s.skip(2 + w as int));
            }
        }
    } else if (s[0] as u32) < 0x80 {
        lemma_cooked_byte_string_bounds(s.skip(1));
    }
}

pub proof fn lemma_literal_scan_bounds(s: Seq<char>)
    ensures
        literal_scan(s) matches Ok(Some(k)) ==> 1 <= k <= s.len(),
        literal_scan(s) matches Err(e) ==> e <= s.len(),
{
    lemma_cooked_string_bounds(s.skip(1));
    lemma_cooked_byte_string_bounds(s.skip(2));
    lemma_u_escape_bounds(s.skip(1).skip(2));
    lemma_u_escape_bounds(s.skip(2).skip(2));
    if s.len() > 0 {
        let j = raw_r_index(s) as int;
        if s.len() > j {
            let u = s.skip(j + 1);
            lemma_raw_close_bounds(u, hash_run(u), hash_run(u) as int + 1);
        }
    }
    if s.len() > 0 && s[0] == '\'' {
        let t = s.skip(1);
        if t.len() > raw_marker(t) {
            lemma_ident_run_bounds(t.skip(raw_marker(t) as int + 1));
        }
    }
}

/// A run of `#` in a prefix of `u` of length `l`.
pub proof fn lemma_hash_run_prefix(u: Seq<char>, l: int)
    requires
        0 <= l <= u.len(),
    ensures
        hash_run(u.take(l)) == if hash_run(u) < l { hash_run(u) } else { l as nat },
    decreases l,
{
    if l > 0 {
        assert(u.take(l)[0] == u[0]);
        if u[0] == '#' {
            assert(u.take(l).skip(1) =~= u.skip(1).take(l - 1));
            lemma_hash_run_prefix(u.skip(1), l - 1);
        }
    }
}

/// The raw-string start is decided by the characters up to and with the
/// first one that is not `b`, `r` or `#`.
pub proof fn lemma_raw_start_prefix(s: Seq<char>, k: int, m: int)
    requires
        0 <= k <= s.len(),
        forall|i: int| 0 <= i < k ==> s[i] == 'b' || s[i] == 'r' || s[i] == '#',
        k < s.len() ==> !(s[k] == 'b' || s[k] == 'r' || s[k] == '#'),
        m == if k + 1 < s.len() { k + 1 } else { s.len() as int },
    ensures
        starts_raw_string(s.take(m)) == starts_raw_string(s),
{
    let t = s.take(m);
    if s.len() == 0 {
        return;
    }
    assert(t[0] == s[0]);
    let j = raw_r_index(s) as int;
    assert(raw_r_index(t) == j);
    lemma_hash_run(s.skip(j + 1));
    if j + 1 <= m {
        assert(t.skip(j + 1) =~= s.skip(j + 1).take(m - j - 1));
        lemma_hash_run_prefix(s.skip(j + 1), m - j - 1);
    }
    if starts_raw_string(s) {
        let h = hash_run(s.skip(j + 1));
        let q = j + 1 + h;
        assert forall|i: int| 0 <= i < q implies s[i] == 'b' || s[i] == 'r' || s[i] == '#' by {
            if i > j {
                assert(s[i] == s.skip(j + 1)[i - j - 1]);
            }
        }
        assert(s[q as int] == '"');
        if k < q {
            assert(s[k] == 'b' || s[k] == 'r' || s[k] == '#');
        }
        if k > q {
            assert(s[q as int] == 'b' || s[q as int] == 'r' || s[q as int] == '#');
        }
        assert(k == q);
        assert(t[q as int] == s[q as int]);
    }
    if starts_raw_string(t) {
        assert(t[j as int] == s[j as int]);
        let ht = hash_run(t.skip(j + 1));
        assert(t[j + 1 + ht] == s[j + 1 + ht]);
    }
}

/// A `String` holding the characters `text[from..to]`.
pub fn chars_to_string(text: &[char], from: usize, to: usize) -> (r: String)
    requires
        from <= to <= text@.len(),
    ensures
        r@ =~= text@.subrange(from as int, to as int),
{
    let mut r = String::new();
    let mut i = from;
    while i < to
        invariant
            from <= i <= to <= text@.len(),
            r@ =~= text@.subrange(from as int, i as int),
        decreases to - i,
    {
        push_char(&mut r, text[i]);
        i = i + 1;
    }
    r
}

fn string_literal<'a>(input: Cursor<'a>) -> (r: PResult<'a, bool>)
    requires
        input.wf(),
        input.rest().len() > 0,
        input.rest()[0] == '"',
    ensures
        lit_result(input, string_lit(input.rest()), r),
{
    let ghost s = input.rest();
    proof {
        input.lemma_at(1);
    }
    let after = input.advance(1);
    match cooked_string(after) {
        Ok((c, _)) => {
            proof {
                lemma_cooked_string_bounds(s.skip(1));
                let k = cooked_string_len(s.skip(1))->0;
                after.lemma_at(k as int);
                input.lemma_at(k + 2int);
            }
            Ok((c.advance(1), true))
        },
        Err(e) => Err(e),
    }
}

fn byte_string_literal<'a>(input: Cursor<'a>) -> (r: PResult<'a, bool>)
    requires
        input.wf(),
        input.rest().len() > 1,
        input.rest()[0] == 'b',
        input.rest()[1] == '"',
    ensures
        lit_result(input, byte_string_lit(input.rest()), r),
{
    let ghost s = input.rest();
    proof {
        input.lemma_at(2);
    }
    let after = input.advance(2);
    match cooked_byte_string(after) {
        Ok((c, _)) => {
            proof {
                lemma_cooked_byte_string_bounds(s.skip(2));
                let k = cooked_byte_string_len(s.skip(2))->0;
                after.lemma_at(k as int);
                input.lemma_at(k + 3int);
            }
            Ok((c.advance(1), true))
        },
        Err(e) => Err(e),
    }
}

fn char_literal<'a>(input: Cursor<'a>) -> (r: PResult<'a, bool>)
    requires
        input.wf(),
        input.rest().len() > 0,
        input.rest()[0] == '\'',
    ensures
        lit_result(input, char_lit(input.rest()), r),
{
    let ghost s = input.rest();
    proof {
        input.lemma_at(1);
    }
    let after = input.advance(1);
    let cur = match cooked_char(after) {
        Ok((c, _)) => c,
        Err(e) => {
            return Err(e);
        },
    };
    proof {
        let k = cooked_char_len(s.skip(1))->0;
        lemma_u_escape_bounds(s.skip(1).skip(2));
        after.lemma_at(k as int);
        input.lemma_at(k + 1int);
    }
    if !cur.starts_with('\'') {
        proof {
            let t = s.skip(1);
            if t.len() > raw_marker(t) {
                lemma_ident_run_bounds(t.skip(raw_marker(t) as int + 1));
            }
        }
        match symbol(after) {
            Ok((c, _)) => {
                proof {
                    let m = symbol_len(s.skip(1))->0;
                    input.lemma_at(m + 1int);
                }
                return Ok((c, true));
            },
            Err(e) => {
                return Err(e);
            },
        }
    }
    proof {
        let k = cooked_char_len(s.skip(1))->0;
        input.lemma_at(k + 2int);
    }
    Ok((cur.advance(1), true))
}

fn byte_literal<'a>(input: Cursor<'a>) -> (r: PResult<'a, bool>)
    requires
        input.wf(),
        input.rest().len() > 1,
        input.rest()[0] == 'b',
        input.rest()[1] == '\'',
    ensures
        lit_result(input, byte_lit(input.rest()), r),
{
    let ghost s = input.rest();
    proof {
        input.lemma_at(2);
    }
    let after = input.advance(2);
    let cur = match cooked_byte(after) {
        Ok((c, _)) => c,
        Err(e) => {
            return Err(e);
        },
    };
    proof {
        let k = cooked_byte_len(s.skip(2))->0;
        after.lemma_at(k as int);
        input.lemma_at(k + 2int);
    }
    if !cur.starts_with('\'') {
        return Err(LexError { line: cur.line });
    }
    proof {
        let k = cooked_byte_len(s.skip(2))->0;
        input.lemma_at(k + 3int);
    }
    Ok((cur.advance(1), true))
}

fn raw_literal<'a>(input: Cursor<'a>) -> (r: PResult<'a, bool>)
    requires
        input.wf(),
        starts_raw_string(input.rest()),
    ensures
        lit_result(input, raw_lit(input.rest()), r),
{
    let ghost s = input.rest();
    let q: usize = if input.starts_with('b') { 1 } else { 0 };
    proof {
        input.lemma_at(q + 1);
    }
    let after = input.advance(q + 1);
    match raw_string(after) {
        Ok((c, _)) => {
            proof {
                let u = s.skip(q + 1);
                let t = raw_string_len(u)->0;
                lemma_raw_close_bounds(u, hash_run(u), hash_run(u) as int + 1);
                input.lemma_at(q + 1 + t);
            }
            Ok((c, true))
        },
        Err(e) => Err(e),
    }
}

/// Whether a raw string starts at the cursor, asked of `re`, the pattern
/// `^b?r#*"`. That pattern is decided by the characters up to and with the
/// first one that is not `b`, `r` or `#`; only those are handed to it.
fn raw_string_starts(input: &Cursor, re: &CompiledRegex) -> (b: bool)
    requires
        input.wf(),
        re.source() == raw_string_start_pattern(),
    ensures
        b == starts_raw_string(input.rest()),
{
    let ghost s = input.rest();
    let n = input.len();
    let mut k: usize = 0;
    while k < n && (input.char_at(k) == 'b' || input.char_at(k) == 'r' || input.char_at(k) == '#')
        invariant
            input.wf(),
            s == input.rest(),
            n == s.len(),
            k <= n,
            forall|i: int| 0 <= i < k ==> s[i] == 'b' || s[i] == 'r' || s[i] == '#',
        decreases n - k,
    {
        k = k + 1;
    }
    let m = if n - k > 1 { k + 1 } else { n };
    let prefix = chars_to_string(input.text, input.pos, input.pos + m);
    proof {
        assert(prefix@ =~= s.take(m as int));
        lemma_raw_start_prefix(s, k as int, m as int);
    }
    regex_is_match(re, prefix.as_str())
}

/// Skip the literal at the cursor, if one starts there: the cursor after it,
/// and whether there was one. `re` is the raw-string-start pattern.
pub fn skip_literal<'a>(input: Cursor<'a>, re: &CompiledRegex) -> (r: PResult<'a, bool>)
    requires
        input.wf(),
        re.source() == raw_string_start_pattern(),
    ensures
        lit_result(input, literal_scan(input.rest()), r),
{
    if input.starts_with('"') {
        return string_literal(input);
    }
    if input.starts_with2('b', '"') {
        return byte_string_literal(input);
    }
    if input.starts_with('\'') {
        return char_literal(input);
    }
    if input.starts_with2('b', '\'') {
        return byte_literal(input);
    }
    if raw_string_starts(&input, re) {
        return raw_literal(input);
    }
    proof {
        input.lemma_at(0);
    }
    Ok((input, false))
}

} // verus!
