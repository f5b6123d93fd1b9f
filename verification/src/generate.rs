//! Text the build produces: the TypeScript module that holds every closure
//! and dispatches on its name, and the lines of a build-script warning.

use vstd::prelude::*;

use crate::closure::{closure_name, Closure, ClosureSig};
use crate::finder::{closure_view, closures_view, escape_backslashes, push_escaped, ClosureView};
use crate::lexer::{chars_to_string, find_char};
use crate::outside::push_char;
use crate::text::{decimal, push_decimal, str_chars, strip_white_space};

verus! {

/// The comment that tells where a piece of the module was generated.
pub open spec fn origin_comment(file: Seq<char>, line: u32) -> Seq<char> {
    "/*line "@ + decimal(line as nat) + " \""@ + escape_backslashes(file) + "\"*/\n"@
}

/// A closure as a TypeScript function.
pub open spec fn ts_definition(name: Seq<char>, body: Seq<char>) -> Seq<char> {
    "\nconst "@ + name + " = () => {\n    "@ + body + "\n}\n"@
}

/// The start of the dispatcher.
pub open spec fn ts_invoke_header() -> Seq<char> {
    "\nconst invoke = (func_name: string) => {\n"@
}

/// The dispatcher's case for one closure.
pub open spec fn ts_invoke_case(name: Seq<char>) -> Seq<char> {
    "\n    if(func_name === \""@ + name + "\") { return "@ + name + "(); }"@
}

/// The end of the dispatcher, and its call on the first script argument,
/// whose result is printed: the printed line is what `ts_block!` gives back.
pub open spec fn ts_invoke_footer() -> Seq<char> {
    "\n    return \"\";\n}\n\nimport { argv } from 'node:process';\nconsole.log(invoke(argv[2]));"@
}

/// Every closure as a function, in order, each after the origin comment.
pub open spec fn ts_definitions(cs: Seq<ClosureView>, origin: Seq<char>) -> Seq<char>
    decreases cs.len(),
{
    if cs.len() == 0 {
        Seq::empty()
    } else {
        ts_definitions(cs.drop_last(), origin) + origin + ts_definition(
            closure_name(cs.last().std_body),
            cs.last().body_str,
        )
    }
}

/// The dispatcher's cases, in order, each after the origin comment.
pub open spec fn ts_invoke_cases(cs: Seq<ClosureView>, origin: Seq<char>) -> Seq<char>
    decreases cs.len(),
{
    if cs.len() == 0 {
        Seq::empty()
    } else {
        ts_invoke_cases(cs.drop_last(), origin) + origin + ts_invoke_case(
            closure_name(cs.last().std_body),
        )
    }
}

/// Where each kind of piece of the module was generated: the comments put
/// before each function, before the dispatcher, before each of its cases,
/// and before its end.
pub ghost struct Origins {
    pub definition: Seq<char>,
    pub dispatcher: Seq<char>,
    pub case: Seq<char>,
    pub footer: Seq<char>,
}

/// The TypeScript module for the closures `cs`: their functions, then a
/// dispatcher that runs the one named by the first script argument, and the
/// printing of its result (an empty string for an unknown name).
pub open spec fn ts_module(cs: Seq<ClosureView>, o: Origins) -> Seq<char> {
    ts_definitions(cs, o.definition) + o.dispatcher + ts_invoke_header() + ts_invoke_cases(cs, o.case)
        + o.footer + ts_invoke_footer()
}

/// The origin comments for pieces generated at the lines `lines` (function,
/// dispatcher, case, end) of `file`.
pub open spec fn origins(file: Seq<char>, lines: [u32; 4]) -> Origins {
    Origins {
        definition: origin_comment(file, lines@[0]),
        dispatcher: origin_comment(file, lines@[1]),
        case: origin_comment(file, lines@[2]),
        footer: origin_comment(file, lines@[3]),
    }
}

/// Append the origin comment for `file` and `line`.
fn push_origin(out: &mut String, file: &str, line: u32)
    ensures
        final(out)@ == old(out)@ + origin_comment(file@, line),
{
    out.append("/*line ");
    push_decimal(out, line as u64);
    out.append(" \"");
    push_escaped(out, file);
    out.append("\"*/\n");
}

/// The TypeScript module that holds the `closures` and runs them by name;
/// each piece starts with a comment pointing at the line of `origin_file`
/// that generated it: `lines` holds those of a function, of the dispatcher,
/// of a case of the dispatcher and of its end.
pub fn ts_module_source(closures: &Vec<Closure>, origin_file: &str, lines: [u32; 4]) -> (s: String)
    ensures
        s@ == ts_module(closures_view(closures@), origins(origin_file@, lines)),
{
    let ghost cs = closures_view(closures@);
    let ghost o = origins(origin_file@, lines);
    let ghost origin = o.definition;
    let mut out = String::new();
    let mut i: usize = 0;
    while i < closures.len()
        invariant
            i <= closures@.len(),
            cs == closures_view(closures@),
            origin == origin_comment(origin_file@, lines@[0]),
            out@ == ts_definitions(cs.take(i as int), origin),
        decreases closures.len() - i,
    {
        let c = &closures[i];
        let name = c.sig.extern_name();
        push_origin(&mut out, origin_file, lines[0]);
        out.append("\nconst ");
        out.append(name.as_str());
        out.append(" = () => {\n    ");
        out.append(c.body_str.as_str());
        out.append("\n}\n");
        proof {
            assert(cs.take(i + 1).drop_last() =~= cs.take(i as int));
            assert(cs.take(i + 1).last() == closure_view(closures@[i as int]));
        }
        i = i + 1;
    }
    assert(cs.take(i as int) =~= cs);
    let ghost defs = out@;
    push_origin(&mut out, origin_file, lines[1]);
    out.append("\nconst invoke = (func_name: string) => {\n");
    let ghost head = out@;
    let mut j: usize = 0;
    while j < closures.len()
        invariant
            j <= closures@.len(),
            cs == closures_view(closures@),
            o == origins(origin_file@, lines),
            out@ == head + ts_invoke_cases(cs.take(j as int), o.case),
        decreases closures.len() - j,
    {
        let name = closures[j].sig.extern_name();
        push_origin(&mut out, origin_file, lines[2]);
        out.append("\n    if(func_name === \"");
        out.append(name.as_str());
        out.append("\") { return ");
        out.append(name.as_str());
        out.append("(); }");
        proof {
            assert(cs.take(j + 1).drop_last() =~= cs.take(j as int));
            assert(cs.take(j + 1).last() == closure_view(closures@[j as int]));
        }
        j = j + 1;
    }
    assert(cs.take(j as int) =~= cs);
    push_origin(&mut out, origin_file, lines[3]);
    out.append("\n    return \"\";\n}\n\nimport { argv } from 'node:process';\nconsole.log(invoke(argv[2]));");
    out
}


/// A line without the `'\r'` of a `"\r\n"` ending.
pub open spec fn strip_cr(l: Seq<char>) -> Seq<char> {
    if l.len() > 0 && l.last() == '\r' {
        l.drop_last()
    } else {
        l
    }
}

/// The lines of `s` as `str::lines` gives them: split at `"\n"` or
/// `"\r\n"`, with no empty line after a final line ending.
pub open spec fn lines_of(s: Seq<char>) -> Seq<Seq<char>>
    decreases s.len(),
{
    if s.len() == 0 {
        Seq::empty()
    } else {
        match find_char(s, '\n') {
            None => seq![s],
            Some(k) => {
                proof {
                    crate::lexer::lemma_find_char_bounds(s, '\n');
                }
                seq![strip_cr(s.take(k as int))] + lines_of(s.skip(k as int + 1))
            },
        }
    }
}

/// The prefix that makes cargo show a line of a build script's output as a
/// warning.
pub open spec fn warning_prefix() -> Seq<char> {
    "cargo:warning="@
}

pub open spec fn warning_lines_of(message: Seq<char>) -> Seq<Seq<char>> {
    lines_of(message).map_values(|l: Seq<char>| warning_prefix() + l)
}

pub open spec fn strings_view(v: Seq<String>) -> Seq<Seq<char>> {
    v.map_values(|x: String| x@)
}

/// The first line of `chars[i..]`: where its text ends, and where the next
/// line starts.
fn first_line(chars: &Vec<char>, i: usize) -> (r: (usize, usize))
    requires
        i < chars@.len(),
    ensures
        i <= r.0 <= r.1 <= chars@.len(),
        i < r.1,
        lines_of(chars@.skip(i as int)) == seq![chars@.subrange(i as int, r.0 as int)] + lines_of(
            chars@.skip(r.1 as int),
        ),
{
    let n = chars.len();
    let ghost t = chars@.skip(i as int);
    let mut j = i;
    assert(t.skip(0) =~= t);
    while j < n && chars[j] != '\n'
        invariant
            n == chars@.len(),
            i <= j <= n,
            t == chars@.skip(i as int),
            find_char(t, '\n') == crate::lexer::shift(find_char(t.skip(j - i), '\n'), (j - i) as nat),
        decreases n - j,
    {
        assert(t.skip(j - i).skip(1) =~= t.skip(j + 1 - i));
        j = j + 1;
    }
    if j < n {
        assert(t.skip(j - i)[0] == '\n');
        assert(t.take(j - i) =~= chars@.subrange(i as int, j as int));
        assert(t.skip(j - i + 1) =~= chars@.skip(j + 1));
        let end = if j > i && chars[j - 1] == '\r' { j - 1 } else { j };
        assert(strip_cr(t.take(j - i)) =~= chars@.subrange(i as int, end as int));
        (end, j + 1)
    } else {
        assert(t.skip(j - i).len() == 0);
        assert(t =~= chars@.subrange(i as int, n as int));
        assert(chars@.skip(n as int) =~= Seq::<char>::empty());
        assert(lines_of(chars@.skip(n as int)) =~= Seq::<Seq<char>>::empty());
        assert(seq![t] + Seq::<Seq<char>>::empty() =~= seq![t]);
        (n, n)
    }
}

/// The lines of `message`, each made a cargo warning.
pub fn cargo_warning_lines(message: &str) -> (v: Vec<String>)
    ensures
        strings_view(v@) == warning_lines_of(message@),
{
    let chars = str_chars(message);
    let n = chars.len();
    let mut out: Vec<String> = Vec::new();
    let mut i: usize = 0;
    let ghost mut done: Seq<Seq<char>> = Seq::empty();
    assert(chars@.skip(0) =~= chars@);
    while i < n
        invariant
            n == chars@.len(),
            chars@ == message@,
            i <= n,
            lines_of(chars@) == done + lines_of(chars@.skip(i as int)),
            strings_view(out@) == done.map_values(|l: Seq<char>| warning_prefix() + l),
        decreases n - i,
    {
        let (end, next) = first_line(&chars, i);
        let text = chars_to_string(chars.as_slice(), i, end);
        let mut line = String::new();
        line.append("cargo:warning=");
        line.append(text.as_str());
        let ghost l = chars@.subrange(i as int, end as int);
        let ghost before_out = out@;
        out.push(line);
        proof {
            assert(done + lines_of(chars@.skip(i as int)) =~= done.push(l) + lines_of(
                chars@.skip(next as int),
            ));
            assert(done.push(l).map_values(|x: Seq<char>| warning_prefix() + x) =~= done.map_values(
                |x: Seq<char>| warning_prefix() + x,
            ).push(warning_prefix() + l));
            assert(out@.drop_last() =~= before_out);
            assert(strings_view(out@) =~= strings_view(before_out).push(line@));
            done = done.push(l);
        }
        i = next;
    }
    assert(chars@.skip(i as int) =~= Seq::<char>::empty());
    assert(done + Seq::<Seq<char>>::empty() =~= done);
    out
}

} // verus!
