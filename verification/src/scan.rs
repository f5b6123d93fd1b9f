//! Scanning Rust source for balanced delimiters, the way the `ts_block!`
//! finder walks over code it does not parse.

use vstd::prelude::*;

use crate::lexer::{
    literal_scan, lit_result, raw_string_start_pattern, skip_literal, skip_whitespace, ws_skip,
    Cursor, LexError, lemma_literal_scan_bounds, lemma_ws_run_bounds,
};
use crate::outside::CompiledRegex;
use crate::text::{char_width, utf8_width};

verus! {

/// How a scan for a closing delimiter ends, at an offset into what was
/// scanned.
pub ghost enum DelimScan {
    /// The delimiter is there, outside any bracket opened on the way.
    Found(nat),
    /// The text does not lex, a closer does not match, or the text ends.
    Lex(nat),
    /// A multi-byte character stands where the scan steps one byte.
    Split(nat),
}

/// Why a scan stopped.
#[derive(Debug)]
pub enum ScanError {
    /// Lexing failed (an unbalanced closer, a bad literal, or no delimiter).
    Lex(LexError),
    /// The scan met a multi-byte character where it steps over one byte;
    /// whoever drives the scan gives up there.
    SplitChar { line: u32 },
}

pub open spec fn shift_delim(d: DelimScan, k: nat) -> DelimScan {
    match d {
        DelimScan::Found(p) => DelimScan::Found(p + k),
        DelimScan::Lex(p) => DelimScan::Lex(p + k),
        DelimScan::Split(p) => DelimScan::Split(p + k),
    }
}

/// Where the next token starts: past whitespace and comments, and past a
/// literal if one starts there; `Err(e)` when that literal is malformed.
#[verifier::opaque]
pub open spec fn token_start(s: Seq<char>) -> Result<nat, nat> {
    let w = ws_skip(s);
    match literal_scan(s.skip(w as int)) {
        Err(e) => Err(w + e),
        Ok(Some(k)) => Ok(w + k),
        Ok(None) => Ok(w),
    }
}

pub proof fn lemma_token_start_bounds(s: Seq<char>)
    ensures
        token_start(s) matches Ok(p) ==> p <= s.len(),
        token_start(s) matches Err(p) ==> p <= s.len(),
{
    reveal(token_start);
    lemma_ws_run_bounds(s);
    lemma_literal_scan_bounds(s.skip(ws_skip(s) as int));
}

/// The bracket stack after the character `c`: `None` when `c` closes a
/// bracket that is not the innermost open one.
pub open spec fn bracket_step(stack: Seq<char>, c: char) -> Option<Seq<char>> {
    if stack.len() > 0 && c == stack.last() {
        Some(stack.drop_last())
    } else if c == '(' {
        Some(stack.push(')'))
    } else if c == '[' {
        Some(stack.push(']'))
    } else if c == '{' {
        Some(stack.push('}'))
    } else if c == ')' || c == ']' || c == '}' {
        None
    } else {
        Some(stack)
    }
}

/// Scan `s` for `needle` outside brackets, with the brackets in `stack`
/// (closers, innermost last) already open.
#[verifier::opaque]
pub open spec fn find_delim(s: Seq<char>, needle: char, stack: Seq<char>) -> DelimScan
    decreases s.len(),
{
    if s.len() == 0 {
        DelimScan::Lex(0)
    } else {
        match token_start(s) {
            Err(e) => DelimScan::Lex(e),
            Ok(p) => if p >= s.len() {
                DelimScan::Lex(p)
            } else if stack.len() == 0 && s[p as int] == needle {
                DelimScan::Found(p)
            } else {
                match bracket_step(stack, s[p as int]) {
                    None => DelimScan::Lex(p),
                    Some(st) => if utf8_width(s[p as int]) != 1 {
                        DelimScan::Split(p)
                    } else {
                        shift_delim(find_delim(s.skip(p as int + 1), needle, st), p + 1)
                    },
                }
            },
        }
    }
}

/// One step of `find_delim`.
pub proof fn lemma_find_delim_unfold(s: Seq<char>, needle: char, stack: Seq<char>)
    requires
        s.len() > 0,
    ensures
        find_delim(s, needle, stack) == match token_start(s) {
            Err(e) => DelimScan::Lex(e),
            Ok(p) => if p >= s.len() {
                DelimScan::Lex(p)
            } else if stack.len() == 0 && s[p as int] == needle {
                DelimScan::Found(p)
            } else {
                match bracket_step(stack, s[p as int]) {
                    None => DelimScan::Lex(p),
                    Some(st) => if utf8_width(s[p as int]) != 1 {
                        DelimScan::Split(p)
                    } else {
                        shift_delim(find_delim(s.skip(p as int + 1), needle, st), p + 1)
                    },
                }
            },
        },
{
    reveal(find_delim);
}


/// A delimiter that is found is there, inside what was scanned.
pub proof fn lemma_find_delim_found(s: Seq<char>, needle: char, stack: Seq<char>)
    ensures
        find_delim(s, needle, stack) matches DelimScan::Found(p) ==> p < s.len() && s[p as int]
            == needle,
        find_delim(s, needle, stack) matches DelimScan::Lex(p) ==> p <= s.len(),
        find_delim(s, needle, stack) matches DelimScan::Split(p) ==> p < s.len(),
    decreases s.len(),
{
    reveal(find_delim);
    if s.len() > 0 {
        lemma_token_start_bounds(s);
        if let Ok(p) = token_start(s) {
            if p < s.len() && !(stack.len() == 0 && s[p as int] == needle) {
                if let Some(st) = bracket_step(stack, s[p as int]) {
                    if utf8_width(s[p as int]) == 1 {
                        lemma_find_delim_found(s.skip(p as int + 1), needle, st);
                        let d = find_delim(s.skip(p as int + 1), needle, st);
                        if let DelimScan::Found(q) = d {
                            assert(s.skip(p as int + 1)[q as int] == s[(p + 1 + q) as int]);
                        }
                    }
                }
            }
        }
    }
}

/// `r` is what scanning from `input` gives back when the scan is `d`.
pub open spec fn delim_result<'a>(input: Cursor<'a>, d: DelimScan, r: Result<Cursor<'a>, ScanError>) -> bool {
    match d {
        DelimScan::Found(p) => r == Ok::<Cursor<'a>, ScanError>(input.at(p as int)),
        DelimScan::Lex(p) => r == Err::<Cursor<'a>, ScanError>(
            ScanError::Lex(LexError { line: input.at(p as int).line }),
        ),
        DelimScan::Split(p) => r == Err::<Cursor<'a>, ScanError>(
            ScanError::SplitChar { line: input.at(p as int).line },
        ),
    }
}

/// Move past whitespace, comments and a literal, to where the next token
/// starts.
pub fn next_token<'a>(cur: Cursor<'a>, re: &CompiledRegex) -> (r: Result<Cursor<'a>, LexError>)
    requires
        cur.wf(),
        re.source() == raw_string_start_pattern(),
    ensures
        match token_start(cur.rest()) {
            Ok(p) => r == Ok::<Cursor<'a>, LexError>(cur.at(p as int)),
            Err(e) => r == Err::<Cursor<'a>, LexError>(LexError { line: cur.at(e as int).line }),
        },
        r matches Ok(c) ==> c.wf(),
{
    let ghost s = cur.rest();
    let ghost w = ws_skip(s) as int;
    proof {
        reveal(token_start);
        lemma_ws_run_bounds(s);
        lemma_token_start_bounds(s);
        cur.lemma_at(w);
    }
    let ws = skip_whitespace(cur);
    assert(ws.rest() =~= s.skip(w));
    proof {
        lemma_literal_scan_bounds(ws.rest());
    }
    match skip_literal(ws, re) {
        Err(e) => {
            proof {
                cur.lemma_at_at(w, (literal_scan(ws.rest())->Err_0) as int);
            }
            Err(e)
        },
        Ok((c, b)) => {
            proof {
                if let Ok(Some(k)) = literal_scan(ws.rest()) {
                    cur.lemma_at_at(w, k as int);
                    cur.lemma_at(w + k);
                }
            }
            Ok(c)
        },
    }
}

/// Update the bracket stack for `c`; false when `c` closes a bracket that is
/// not the innermost open one.
fn bracket_update(stack: &mut Vec<char>, c: char) -> (ok: bool)
    ensures
        match bracket_step(old(stack)@, c) {
            Some(st) => ok && final(stack)@ == st,
            None => !ok,
        },
{
    let n = stack.len();
    if n > 0 && c == stack[n - 1] {
        stack.pop();
    } else if c == '(' {
        stack.push(')');
    } else if c == '[' {
        stack.push(']');
    } else if c == '{' {
        stack.push('}');
    } else if c == ')' || c == ']' || c == '}' {
        return false;
    }
    true
}

/// Move the cursor on until `needle` stands at it outside any bracket
/// opened on the way, skipping whitespace, comments and literals.
pub fn find_delimited<'a>(input: Cursor<'a>, needle: char, re: &CompiledRegex) -> (r: Result<
    Cursor<'a>,
    ScanError,
>)
    requires
        input.wf(),
        re.source() == raw_string_start_pattern(),
    ensures
        delim_result(input, find_delim(input.rest(), needle, Seq::empty()), r),
{
    let mut stack: Vec<char> = Vec::new();
    let mut cur = input;
    proof {
        input.lemma_at(0);
    }
    while !cur.is_empty()
        invariant
            input.wf(),
            cur.wf(),
            re.source() == raw_string_start_pattern(),
            input.pos <= cur.pos <= input.end,
            cur == input.at(cur.pos - input.pos),
            find_delim(input.rest(), needle, Seq::empty()) == shift_delim(
                find_delim(cur.rest(), needle, stack@),
                (cur.pos - input.pos) as nat,
            ),
        decreases input.end - cur.pos,
    {
        let ghost s = cur.rest();
        let ghost d = (cur.pos - input.pos) as int;
        proof {
            lemma_token_start_bounds(s);
            lemma_find_delim_unfold(s, needle, stack@);
            input.lemma_at(d);
        }
        let tok = match next_token(cur, re) {
            Err(e) => {
                proof {
                    input.lemma_at_at(d, token_start(s)->Err_0 as int);
                }
                return Err(ScanError::Lex(e));
            },
            Ok(c) => c,
        };
        let ghost p = token_start(s)->Ok_0 as int;
        proof {
            input.lemma_at_at(d, p);
        }
        if tok.is_empty() {
            return Err(ScanError::Lex(LexError { line: tok.line }));
        }
        let c = tok.char_at(0);
        assert(c == s[p]);
        if stack.len() == 0 && c == needle {
            return Ok(tok);
        }
        if !bracket_update(&mut stack, c) {
            return Err(ScanError::Lex(LexError { line: tok.line }));
        }
        if char_width(c) != 1 {
            return Err(ScanError::SplitChar { line: tok.line });
        }
        proof {
            input.lemma_at_at(d, p + 1);
            cur.lemma_at(p + 1);
            input.lemma_at(d + p + 1);
        }
        cur = tok.advance(1);
        proof {
            cur.lemma_at(0);
            cur.lemma_at_at(0, 0);
        }
        assert(cur.rest() =~= s.skip(p + 1));
    }
    proof {
        reveal(find_delim);
    }
    Err(ScanError::Lex(LexError { line: cur.line }))
}

} // verus!
