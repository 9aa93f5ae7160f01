//! The token types of proc_macro2 as this library sees them, and the few calls
//! into that crate that the builder makes.
use vstd::prelude::*;
use crate::split::Delim;
use proc_macro2::{Delimiter, Group, Ident, LexError, Literal, Punct, TokenStream, TokenTree};

verus! {

#[verifier::external_type_specification]
pub struct ExTokenTree(proc_macro2::TokenTree);

#[verifier::external_type_specification]
#[verifier::external_body]
pub struct ExTokenStream(proc_macro2::TokenStream);

#[verifier::external_type_specification]
#[verifier::external_body]
pub struct ExIdent(proc_macro2::Ident);

#[verifier::external_type_specification]
#[verifier::external_body]
pub struct ExLiteral(proc_macro2::Literal);

#[verifier::external_type_specification]
#[verifier::external_body]
pub struct ExPunct(proc_macro2::Punct);

#[verifier::external_type_specification]
#[verifier::external_body]
pub struct ExGroup(proc_macro2::Group);

#[verifier::external_type_specification]
#[verifier::external_body]
pub struct ExLexError(proc_macro2::LexError);

/// The trees that a token stream holds, in order.
pub uninterp spec fn trees_of(s: TokenStream) -> Seq<TokenTree>;

/// The delimiter of a group, as `Group::delimiter` gives it.
pub uninterp spec fn group_delim(g: Group) -> Delim;

/// The trees of a group's stream, as `Group::stream` gives it.
pub uninterp spec fn group_trees(g: Group) -> Seq<TokenTree>;

/// The text of a literal, as `Literal::to_string` gives it.
pub uninterp spec fn literal_text(l: Literal) -> Seq<char>;

/// A literal whose text starts with a minus sign.
pub open spec fn negative_literal(t: TokenTree) -> bool {
    match t {
        TokenTree::Literal(l) => literal_text(l).len() > 0 && literal_text(l)[0] == '-',
        _ => false,
    }
}

/// None of the trees is a negative literal.
pub open spec fn no_negative(ts: Seq<TokenTree>) -> bool {
    forall|j: int| 0 <= j < ts.len() ==> !negative_literal(#[trigger] ts[j])
}

/// The character of a decimal digit.
pub open spec fn digit_char(d: nat) -> char {
    if d == 0 { '0' } else if d == 1 { '1' } else if d == 2 { '2' } else if d == 3 { '3' }
    else if d == 4 { '4' } else if d == 5 { '5' } else if d == 6 { '6' } else if d == 7 { '7' }
    else if d == 8 { '8' } else { '9' }
}

/// A number written in decimal, without leading zeros.
pub open spec fn decimal(n: nat) -> Seq<char>
    decreases n,
{
    if n < 10 {
        seq![digit_char(n)]
    } else {
        decimal(n / 10).push(digit_char(n % 10))
    }
}

/// A number in decimal starts with a digit, never a minus sign.
pub proof fn lemma_decimal_unsigned(n: nat)
    ensures
        decimal(n).len() > 0,
        decimal(n)[0] != '-',
    decreases n,
{
    if n >= 10 {
        lemma_decimal_unsigned(n / 10);
    }
}

/// Relies on `<TokenStream as FromStr>::from_str` to lex the text. Which
/// backend lexes, and the spans it gives, are decided when it runs, so
/// nothing is stated of the result.
#[verifier::external_body]
pub(crate) fn parse_stream(text: &str) -> (r: Result<TokenStream, LexError>) {
    text.parse::<TokenStream>()
}

/// Relies on `TokenStream::clone` and its `IntoIterator`: the trees of the
/// stream, in order.
#[verifier::external_body]
pub(crate) fn trees_in(s: &TokenStream) -> (r: Vec<TokenTree>)
    ensures
        r@ == trees_of(*s),
{
    s.clone().into_iter().collect()
}

/// Relies on `<TokenStream as FromIterator<TokenTree>>::from_iter`: the
/// stream holds the trees in order, except that a negative literal is split
/// into a `-` and the literal, so only trees without one are stated.
#[verifier::external_body]
pub(crate) fn collect_stream(trees: Vec<TokenTree>) -> (r: TokenStream)
    ensures
        no_negative(trees@) ==> trees_of(r) == trees@,
{
    trees.into_iter().collect()
}

/// Relies on `Group::new` and `<TokenTree as From<Group>>::from`: one group
/// tree, whose `delimiter` is the given one and whose `stream` holds the trees
/// of the given stream. Its span is chosen when it runs, so no more is stated.
#[verifier::external_body]
pub(crate) fn new_group(d: Delim, s: TokenStream) -> (r: TokenTree)
    ensures
        match r {
            TokenTree::Group(g) => group_delim(g) == d && group_trees(g) == trees_of(s),
            _ => false,
        },
{
    let delimiter = match d {
        Delim::Invisible => Delimiter::None,
        Delim::Brace => Delimiter::Brace,
        Delim::Parenthesis => Delimiter::Parenthesis,
        Delim::Bracket => Delimiter::Bracket,
    };
    TokenTree::from(Group::new(delimiter, s))
}

/// Relies on `Ident::clone` and `<TokenTree as From<Ident>>::from`.
#[verifier::external_body]
pub(crate) fn ident_tree(i: &Ident) -> (r: TokenTree)
    ensures
        r == TokenTree::Ident(*i),
{
    TokenTree::from(i.clone())
}

/// Relies on `Literal::clone` and `<TokenTree as From<Literal>>::from`.
#[verifier::external_body]
pub(crate) fn literal_tree(l: &Literal) -> (r: TokenTree)
    ensures
        r == TokenTree::Literal(*l),
{
    TokenTree::from(l.clone())
}

/// Relies on `Punct::clone` and `<TokenTree as From<Punct>>::from`.
#[verifier::external_body]
pub(crate) fn punct_tree(p: &Punct) -> (r: TokenTree)
    ensures
        r == TokenTree::Punct(*p),
{
    TokenTree::from(p.clone())
}

/// Relies on `Group::clone` and `<TokenTree as From<Group>>::from`.
#[verifier::external_body]
pub(crate) fn group_tree(g: &Group) -> (r: TokenTree)
    ensures
        r == TokenTree::Group(*g),
{
    TokenTree::from(g.clone())
}

/// Relies on `TokenTree::clone`: the copy is the same tree.
#[verifier::external_body]
pub(crate) fn clone_tree(t: &TokenTree) -> (r: TokenTree)
    ensures
        r == *t,
{
    t.clone()
}

/// Relies on `Literal::usize_unsuffixed`: a literal whose text is the number
/// in decimal, without a type suffix.
#[verifier::external_body]
pub(crate) fn unsuffixed_usize(n: usize) -> (r: Literal)
    ensures
        literal_text(r) == decimal(n as nat),
{
    Literal::usize_unsuffixed(n)
}

} // verus!
