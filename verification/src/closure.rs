//! Closures of `ts_block!`: the signature that names one, and the small
//! grammar of a macro's contents (an optional `unsafe`, an optional capture
//! list, an optional return part, then the body).

use std::collections::hash_map::DefaultHasher;
use std::hash::Hasher;

use vstd::prelude::*;
use vstd::std_specs::hash::DefaultHasherAdditionalSpecFns;
use vstd::utf8::encode_utf8;

use crate::outside::{lexed_view, push_char, LexedTree};
use crate::text::{decimal, lemma_decimal_digits, push_decimal, push_stripped, str_chars, strip_white_space};

verus! {

/// The signature of a closure: its body with all whitespace taken out. Two
/// closures with the same signature share a name.
#[derive(Clone, Debug, Hash, PartialEq, Eq)]
pub struct ClosureSig {
    pub std_body: String,
}

/// The hash that names a closure: `DefaultHasher` fed the UTF-8 bytes of the
/// body and then the byte `0xff`, which is how a `str` hashes itself.
pub open spec fn body_hash(std_body: Seq<char>) -> u64 {
    DefaultHasher::spec_finish(seq![encode_utf8(std_body), seq![0xffu8]])
}

/// The prefix of every closure name.
pub open spec fn closure_name_prefix() -> Seq<char> {
    seq!['_', '_', 'c', 'p', 'p', '_', 'c', 'l', 'o', 's', 'u', 'r', 'e', '_']
}

/// The name of the closure whose signature body is `std_body`.
pub open spec fn closure_name(std_body: Seq<char>) -> Seq<char> {
    closure_name_prefix() + decimal(body_hash(std_body) as nat)
}

/// `name` is an identifier made of ASCII letters, digits and `_`, not
/// starting with a digit.
pub open spec fn is_ascii_identifier(name: Seq<char>) -> bool {
    &&& name.len() > 0
    &&& (name[0] == '_' || 'a' <= name[0] <= 'z' || 'A' <= name[0] <= 'Z')
    &&& forall|i: int|
        0 <= i < name.len() ==> (#[trigger] name[i] == '_' || 'a' <= name[i] <= 'z' || 'A'
            <= name[i] <= 'Z' || '0' <= name[i] <= '9')
}

impl ClosureSig {
    /// The hash of the signature (of its body), with the default hasher.
    pub fn name_hash(&self) -> (h: u64)
        ensures
            h == body_hash(self.std_body@),
    {
        let mut hasher = DefaultHasher::new();
        let body = self.std_body.as_str();
        let bytes = body.as_bytes();
        assert(bytes@ == encode_utf8(self.std_body@));
        hasher.write(bytes);
        let mut end: Vec<u8> = Vec::new();
        end.push(0xffu8);
        assert(end@ =~= seq![0xffu8]);
        hasher.write(end.as_slice());
        assert(hasher@ =~= seq![encode_utf8(self.std_body@), seq![0xffu8]]);
        hasher.finish()
    }

    /// The name of the closure: `__cpp_closure_` and the hash in decimal.
    /// It is a plain ASCII identifier, so an identifier token made of it
    /// prints as this text.
    pub fn extern_name(&self) -> (name: String)
        ensures
            name@ == closure_name(self.std_body@),
            is_ascii_identifier(name@),
    {
        let mut name = String::new();
        let prefix = ['_', '_', 'c', 'p', 'p', '_', 'c', 'l', 'o', 's', 'u', 'r', 'e', '_'];
        let mut i: usize = 0;
        while i < prefix.len()
            invariant
                i <= prefix@.len(),
                prefix@ == closure_name_prefix(),
                name@ =~= prefix@.take(i as int),
            decreases prefix.len() - i,
        {
            push_char(&mut name, prefix[i]);
            i = i + 1;
        }
        let h = self.name_hash();
        push_decimal(&mut name, h);
        proof {
            lemma_decimal_digits(h as nat);
            let n = name@;
            assert forall|i: int| 0 <= i < n.len() implies (#[trigger] n[i] == '_' || 'a' <= n[i]
                <= 'z' || 'A' <= n[i] <= 'Z' || '0' <= n[i] <= '9') by {
                if i >= 14 {
                    assert(n[i] == decimal(h as nat)[i - 14]);
                }
            }
        }
        name
    }

    /// The signature of the closure whose body, without its braces, was
    /// stringified as `tokens`.
    pub fn from_stringified(tokens: &str) -> (sig: ClosureSig)
        ensures
            sig.std_body@ == strip_white_space(seq!['{'] + tokens@ + seq!['}']),
    {
        let inner = str_chars(tokens);
        let mut chars: Vec<char> = Vec::new();
        chars.push('{');
        let mut i: usize = 0;
        while i < inner.len()
            invariant
                i <= inner@.len(),
                chars@ =~= seq!['{'] + inner@.take(i as int),
            decreases inner.len() - i,
        {
            chars.push(inner[i]);
            i = i + 1;
        }
        chars.push('}');
        assert(chars@ =~= seq!['{'] + tokens@ + seq!['}']);
        let mut std_body = String::new();
        push_stripped(&mut std_body, chars.as_slice());
        assert(std_body@ =~= strip_white_space(chars@));
        ClosureSig { std_body }
    }

    /// The signature of a closure whose body prints as `text`.
    pub fn from_body_text(text: &str) -> (sig: ClosureSig)
        ensures
            sig.std_body@ == strip_white_space(text@),
    {
        let chars = str_chars(text);
        let mut std_body = String::new();
        push_stripped(&mut std_body, chars.as_slice());
        assert(std_body@ =~= strip_white_space(text@));
        ClosureSig { std_body }
    }
}


/// A closure found in a `ts_block!`: its signature, its body as a token tree,
/// the TypeScript source of the body (with a line marker), and the callback
/// offset it was registered with.
#[derive(Clone, Debug)]
pub struct Closure {
    pub sig: ClosureSig,
    pub body: proc_macro2::TokenTree,
    pub body_str: String,
    pub callback_offset: u32,
}

/// The contents of a `ts_block!` macro.
#[derive(Debug)]
pub enum Macro {
    Closure(Closure),
}

/// The keyword a closure may start with.
pub open spec fn unsafe_keyword() -> Seq<char> {
    "unsafe"@
}

/// Error when the contents hold no body.
pub open spec fn missing_body_message() -> Seq<char> {
    "unexpected end of input, expected token tree"@
}

/// Error when something follows the body.
pub open spec fn trailing_token_message() -> Seq<char> {
    "unexpected token"@
}

/// Error when the body of a closure with captures or a return type is not
/// a brace group.
pub open spec fn braces_message() -> Seq<char> {
    "expected curly braces"@
}

/// Where what follows a leading `unsafe` starts among the top-level trees.
pub open spec fn body_index(trees: Seq<(bool, Seq<char>)>) -> int {
    if trees.len() > 0 && trees[0].0 && trees[0].1 == unsafe_keyword() {
        1
    } else {
        0
    }
}

/// The tree is the punctuation character `c`.
pub open spec fn is_punct(t: (bool, Seq<char>), c: char) -> bool {
    !t.0 && t.1 == seq![c]
}

/// The tree is not an identifier and its text opens with `c` (a group opens
/// with its delimiter).
pub open spec fn opens_with(t: (bool, Seq<char>), c: char) -> bool {
    !t.0 && t.1.len() > 0 && t.1[0] == c
}

/// The tree is a string literal, plain (`"..."`) or raw (`r"..."`,
/// `r#"..."#`).
pub open spec fn is_str_literal(t: (bool, Seq<char>)) -> bool {
    &&& !t.0
    &&& t.1.len() > 1
    &&& (t.1[0] == '"' || (t.1[0] == 'r' && (t.1[1] == '"' || t.1[1] == '#')))
}

/// Where what follows an optional `unsafe` and an optional capture list
/// (a bracket group) starts.
pub open spec fn after_captures(trees: Seq<(bool, Seq<char>)>) -> int {
    let i = body_index(trees);
    if i < trees.len() && opens_with(trees[i], '[') {
        i + 1
    } else {
        i
    }
}

/// A return part starts at `i`: the arrow `->`.
pub open spec fn has_return_part(trees: Seq<(bool, Seq<char>)>, i: int) -> bool {
    0 <= i && i + 1 < trees.len() && is_punct(trees[i], '-') && is_punct(trees[i + 1], '>')
}

/// The closure grammar over the top-level trees of a macro's contents:
///
/// `unsafe`? `[captures]`? (`->` type `as` "string")? body
///
/// With neither captures nor a return part the body is any one tree; with
/// either it is a brace group. The body is the last tree. `Ok(i)` gives the
/// index of the body, `Err` the message: input that ends before the body,
/// a tree that does not belong where it stands, or a body that is not a
/// brace group.
pub open spec fn closure_grammar(trees: Seq<(bool, Seq<char>)>) -> Result<int, Seq<char>> {
    let n = trees.len() as int;
    let j = after_captures(trees);
    if j >= n {
        Err(missing_body_message())
    } else if has_return_part(trees, j) {
        if n < j + 6 {
            Err(missing_body_message())
        } else if !(trees[n - 3].0 && trees[n - 3].1 == "as"@ && is_str_literal(trees[n - 2])) {
            Err(trailing_token_message())
        } else if !opens_with(trees[n - 1], '{') {
            Err(braces_message())
        } else {
            Ok(n - 1)
        }
    } else if j + 1 < n {
        Err(trailing_token_message())
    } else if j > body_index(trees) && !opens_with(trees[j], '{') {
        Err(braces_message())
    } else {
        Ok(j)
    }
}

/// The plain part of one lexed tree.
pub open spec fn tree_view(t: LexedTree) -> (bool, Seq<char>) {
    (t.is_ident, t.text@)
}

fn tree_opens_with(t: &LexedTree, c: char) -> (b: bool)
    ensures
        b == opens_with(tree_view(*t), c),
{
    let cs = str_chars(t.text.as_str());
    !t.is_ident && cs.len() > 0 && cs[0] == c
}

fn tree_is_punct(t: &LexedTree, c: char) -> (b: bool)
    ensures
        b == is_punct(tree_view(*t), c),
{
    let cs = str_chars(t.text.as_str());
    let b = !t.is_ident && cs.len() == 1 && cs[0] == c;
    proof {
        if cs@.len() == 1 && cs@[0] == c {
            assert(cs@ =~= seq![c]);
        }
    }
    b
}

fn tree_is_str_literal(t: &LexedTree) -> (b: bool)
    ensures
        b == is_str_literal(tree_view(*t)),
{
    let cs = str_chars(t.text.as_str());
    !t.is_ident && cs.len() > 1 && (cs[0] == '"' || (cs[0] == 'r' && (cs[1] == '"' || cs[1] == '#')))
}

impl Closure {
    /// Parse the contents of a `ts_block!` (its top-level token trees) as a
    /// closure: an optional `unsafe`, an optional capture list, an optional
    /// return part, then the body (see `closure_grammar`). The signature is
    /// made of the body alone.
    pub fn parse(trees: Vec<LexedTree>) -> (r: Result<Closure, String>)
        ensures
            match closure_grammar(lexed_view(trees@)) {
                Ok(i) => r matches Ok(c) && c.sig.std_body@ == strip_white_space(trees@[i].text@)
                    && c.body == trees@[i].tree && c.body_str@ == Seq::<char>::empty()
                    && c.callback_offset == 0,
                Err(m) => r matches Err(e) && e@ == m,
            },
    {
        let ghost view = lexed_view(trees@);
        proof {
            reveal_strlit("as");
            reveal_strlit("unsafe");
        }
        let n = trees.len();
        let keyword = "unsafe".to_owned();
        let u: usize = if n > 0 && trees[0].is_ident && trees[0].text == keyword {
            1
        } else {
            0
        };
        assert(u == body_index(view));
        let j: usize = if u < n && tree_opens_with(&trees[u], '[') {
            u + 1
        } else {
            u
        };
        assert(j == after_captures(view));
        if j >= n {
            return Err("unexpected end of input, expected token tree".to_owned());
        }
        let arrow = j + 1 < n && tree_is_punct(&trees[j], '-') && tree_is_punct(&trees[j + 1], '>');
        assert(arrow == has_return_part(view, j as int));
        if arrow {
            if n < j + 6 {
                return Err("unexpected end of input, expected token tree".to_owned());
            }
            let as_word = "as".to_owned();
            if !(trees[n - 3].is_ident && trees[n - 3].text == as_word && tree_is_str_literal(&trees[n - 2])) {
                return Err("unexpected token".to_owned());
            }
            if !tree_opens_with(&trees[n - 1], '{') {
                return Err("expected curly braces".to_owned());
            }
        } else {
            if j + 1 < n {
                return Err("unexpected token".to_owned());
            }
            if j > u && !tree_opens_with(&trees[j], '{') {
                return Err("expected curly braces".to_owned());
            }
        }
        assert(closure_grammar(view) == Ok::<int, Seq<char>>(n - 1));
        let mut trees = trees;
        let body = match trees.pop() {
            Some(t) => t,
            None => {
                return Err("unexpected end of input, expected token tree".to_owned());
            },
        };
        let sig = ClosureSig::from_body_text(body.text.as_str());
        Ok(Closure { sig, body: body.tree, body_str: String::new(), callback_offset: 0 })
    }
}

impl Macro {
    /// Parse the contents of a `ts_block!` macro.
    pub fn parse(trees: Vec<LexedTree>) -> (r: Result<Macro, String>)
        ensures
            match closure_grammar(lexed_view(trees@)) {
                Ok(i) => r matches Ok(Macro::Closure(c)) && c.sig.std_body@ == strip_white_space(
                    trees@[i].text@,
                ) && c.body == trees@[i].tree && c.body_str@ == Seq::<char>::empty()
                    && c.callback_offset == 0,
                Err(m) => r matches Err(e) && e@ == m,
            },
    {
        match Closure::parse(trees) {
            Ok(c) => Ok(Macro::Closure(c)),
            Err(e) => Err(e),
        }
    }
}


/// A macro path that is `stringify` alone.
pub open spec fn is_stringify_path(path: Seq<Seq<char>>) -> bool {
    path.len() == 1 && path[0] == "stringify"@
}

/// The index of the last `stringify` path among `paths`.
pub open spec fn last_stringify(paths: Seq<Seq<Seq<char>>>) -> Option<nat>
    decreases paths.len(),
{
    if paths.len() == 0 {
        None
    } else if is_stringify_path(paths.last()) {
        Some((paths.len() - 1) as nat)
    } else {
        last_stringify(paths.drop_last())
    }
}

pub open spec fn paths_view(paths: Seq<Vec<String>>) -> Seq<Seq<Seq<char>>> {
    paths.map_values(|p: Vec<String>| p@.map_values(|s: String| s@))
}

/// Among the macro invocations met in a derive input, given by their paths
/// in the order met, the one that carries the original macro input: the
/// last `stringify!`.
pub fn select_original_macro(paths: &Vec<Vec<String>>) -> (r: Option<usize>)
    ensures
        match last_stringify(paths_view(paths@)) {
            Some(k) => r == Some(k as usize),
            None => r is None,
        },
{
    let ghost ps = paths_view(paths@);
    let word = "stringify".to_owned();
    let mut i = paths.len();
    assert(ps.take(i as int) =~= ps);
    while i > 0
        invariant
            i <= paths@.len(),
            ps == paths_view(paths@),
            word@ == "stringify"@,
            last_stringify(ps) == last_stringify(ps.take(i as int)),
        decreases i,
    {
        let p = &paths[i - 1];
        assert(ps.take(i as int).last() == ps[i - 1]);
        if p.len() == 1 && p[0] == word {
            assert(is_stringify_path(ps[i - 1]));
            return Some(i - 1);
        }
        assert(!is_stringify_path(ps[i - 1]));
        assert(ps.take(i as int).drop_last() =~= ps.take(i - 1));
        i = i - 1;
    }
    None
}

} // verus!
