//! The calls this library makes into other crates, each with the contract
//! that the rest of the library relies on. Nothing here is proved: each item
//! says what it claims of the code it calls.

use vstd::prelude::*;

use unicode_xid::UnicodeXID;

use crate::lexer::{raw_string_start_pattern, starts_raw_string};

verus! {

/// Whether `c` has the Unicode `XID_Start` property, as the `unicode-xid`
/// tables have it.
pub uninterp spec fn xid_start_property(c: char) -> bool;

/// Whether `c` has the Unicode `XID_Continue` property, as the `unicode-xid`
/// tables have it.
pub uninterp spec fn xid_continue_property(c: char) -> bool;

/// `UnicodeXID::is_xid_start` of `unicode-xid`: claimed to be a function of
/// the character alone, named `xid_start_property`.
#[verifier::external_body]
pub(crate) fn xid_start(c: char) -> (b: bool)
    ensures
        b == xid_start_property(c),
{
    c.is_xid_start()
}

/// `UnicodeXID::is_xid_continue` of `unicode-xid`: claimed to be a function
/// of the character alone, named `xid_continue_property`.
#[verifier::external_body]
pub(crate) fn xid_continue(c: char) -> (b: bool)
    ensures
        b == xid_continue_property(c),
{
    c.is_xid_continue()
}


#[verifier::external_type_specification]
#[verifier::external_body]
pub struct ExRegex(regex::Regex);

/// A regular expression of the `regex` crate, with the pattern it was built
/// from.
pub struct CompiledRegex {
    re: regex::Regex,
    pattern: String,
}

impl CompiledRegex {
    /// The pattern the expression was built from.
    pub closed spec fn source(&self) -> Seq<char> {
        self.pattern@
    }
}

/// Whether `regex` accepts `pattern` as a regular expression.
pub uninterp spec fn regex_compiles(pattern: Seq<char>) -> bool;

/// Whether the regular expression `pattern` matches somewhere in `haystack`.
pub uninterp spec fn regex_matches(pattern: Seq<char>, haystack: Seq<char>) -> bool;

/// `regex::Regex::new`: claimed to succeed exactly when `regex_compiles`
/// holds of the pattern (a function of the pattern alone), and to succeed on
/// the pattern `^b?r#*"`, which is plain regex syntax.
#[verifier::external_body]
pub(crate) fn regex_new(pattern: &str) -> (r: Option<CompiledRegex>)
    ensures
        r is Some <==> regex_compiles(pattern@),
        r matches Some(c) ==> c.source() == pattern@,
        pattern@ == raw_string_start_pattern() ==> r is Some,
{
    match regex::Regex::new(pattern) {
        Ok(re) => Some(CompiledRegex { re, pattern: pattern.to_string() }),
        Err(_) => None,
    }
}

/// `regex::Regex::is_match`: claimed to be a function of the pattern and the
/// haystack, named `regex_matches`. For the pattern `^b?r#*"` the regex
/// documentation's syntax gives the answer: the haystack starts with an
/// optional `b`, an `r`, any number of `#`, and a `"`.
#[verifier::external_body]
pub(crate) fn regex_is_match(re: &CompiledRegex, haystack: &str) -> (b: bool)
    ensures
        b == regex_matches(re.source(), haystack@),
        re.source() == raw_string_start_pattern() ==> b == starts_raw_string(haystack@),
{
    re.re.is_match(haystack)
}

/// `String::push`: appends one character.
#[verifier::external_body]
pub(crate) fn push_char(s: &mut String, c: char)
    ensures
        final(s)@ == old(s)@.push(c),
{
    s.push(c)
}


#[verifier::external_type_specification]
#[verifier::external_body]
pub struct ExTokenTree(proc_macro2::TokenTree);

/// One top-level token tree of a token stream: whether it is an identifier,
/// how it prints, and the tree itself.
pub struct LexedTree {
    pub is_ident: bool,
    pub text: String,
    pub tree: proc_macro2::TokenTree,
}

/// The plain part of lexed trees: (is an identifier, printed text).
pub open spec fn lexed_view(v: Seq<LexedTree>) -> Seq<(bool, Seq<char>)> {
    v.map_values(|t: LexedTree| (t.is_ident, t.text@))
}

/// What lexing a text gave: the text, and its top-level trees (`None` when
/// it did not lex). Only `lex_token_trees` makes one, so a `Lexing` is
/// always the outcome of a call of the lexer on its `source`.
pub struct Lexing {
    trees: Option<Vec<LexedTree>>,
    source: String,
}

impl Lexing {
    /// The text that was lexed.
    pub closed spec fn source(&self) -> Seq<char> {
        self.source@
    }

    /// The top-level trees the lexer gave, `None` when the text did not lex.
    pub closed spec fn trees(&self) -> Option<Seq<LexedTree>> {
        match self.trees {
            Some(v) => Some(v@),
            None => None,
        }
    }

    /// The trees, taken out.
    pub fn into_trees(self) -> (r: Option<Vec<LexedTree>>)
        ensures
            match r {
                Some(v) => self.trees() == Some(v@),
                None => self.trees() is None,
            },
    {
        self.trees
    }
}

/// `proc_macro2::TokenStream::from_str` on `source`, then the stream's
/// top-level trees, each with `to_string` and whether it is a
/// `TokenTree::Ident`; no trees when the text does not lex. The result
/// records the text it was made of. What trees come back depends on more
/// than the text: `proc_macro2` lexes and prints with the compiler inside a
/// procedural macro and with its own code elsewhere, and the choice can be
/// switched at run time. So nothing is claimed of the trees; the callers
/// state what they do with whatever trees came back.
#[verifier::external_body]
pub(crate) fn lex_token_trees(source: &str) -> (r: Lexing)
    ensures
        r.source() == source@,
{
    let trees = match source.parse::<proc_macro2::TokenStream>() {
        Ok(stream) => {
            let mut v = Vec::new();
            for tree in stream {
                let is_ident = matches!(tree, proc_macro2::TokenTree::Ident(_));
                v.push(LexedTree { is_ident, text: tree.to_string(), tree });
            }
            Some(v)
        },
        Err(_) => None,
    };
    Lexing { trees, source: source.to_string() }
}

/// `Clone::clone` of `proc_macro2::TokenTree`: nothing is claimed of the
/// copy it gives back.
pub assume_specification[ <proc_macro2::TokenTree as Clone>::clone ](tree: &proc_macro2::TokenTree) -> proc_macro2::TokenTree;

} // verus!
