use proc_macro2::{Delimiter, Group, Ident, Literal, Punct, Spacing, Span, TokenStream, TokenTree};
use token_builder::{Bracket, BuildError, Delim, TokenBuilder, bracket_of, split_raw};

fn ident(s: &str) -> Ident {
    Ident::new(s, Span::call_site())
}

fn finish(tb: TokenBuilder) -> String {
    tb.end().unwrap().to_string()
}

fn trees(ts: TokenStream) -> Vec<TokenTree> {
    ts.into_iter().collect()
}

const KINDS: [Delim; 3] = [Delim::Brace, Delim::Parenthesis, Delim::Bracket];

#[test]
fn new_builder_has_one_empty_frame() {
    let tb = TokenBuilder::new();
    assert_eq!(tb.depth(), 1);
    assert_eq!(finish(tb), "");
}

#[test]
fn extend_tree_appends_to_innermost_frame() {
    let mut tb = TokenBuilder::new();
    tb.extend_tree(TokenTree::from(ident("a")));
    tb.push_group(Delim::Bracket);
    tb.extend_tree(TokenTree::from(ident("b")));
    tb.pop_group(Delim::Bracket).unwrap();
    assert_eq!(finish(tb), "a [b]");
}

#[test]
fn balanced_push_pop_wraps_one_group() {
    for k in KINDS {
        let mut tb = TokenBuilder::new();
        tb.extend(&ident("x")).unwrap();
        tb.push_group(k);
        tb.extend(&ident("y")).unwrap();
        tb.extend(&ident("z")).unwrap();
        tb.pop_group(k).unwrap();
        assert_eq!(tb.depth(), 1);
        let out = trees(tb.end().unwrap());
        assert_eq!(out.len(), 2);
        match &out[1] {
            TokenTree::Group(g) => {
                let want = match k {
                    Delim::Brace => Delimiter::Brace,
                    Delim::Parenthesis => Delimiter::Parenthesis,
                    _ => Delimiter::Bracket,
                };
                assert_eq!(g.delimiter(), want);
                assert_eq!(g.stream().to_string(), "y z");
            }
            _ => panic!("expected a group"),
        }
    }
}

#[test]
fn empty_scope_gives_empty_group() {
    let mut tb = TokenBuilder::new();
    tb.push_group(Delim::Parenthesis);
    tb.pop_group(Delim::Parenthesis).unwrap();
    assert_eq!(finish(tb), "()");
}

#[test]
fn pop_with_other_kind_is_mismatch() {
    for pushed in KINDS {
        for k in KINDS {
            if pushed == k {
                continue;
            }
            let mut tb = TokenBuilder::new();
            tb.push_group(pushed);
            let e = tb.pop_group(k).unwrap_err();
            assert!(matches!(e, BuildError::MismatchedBracket { requested, open } if requested == k && open == pushed));
            // nothing changed: the right kind still closes it
            assert_eq!(tb.depth(), 2);
            tb.pop_group(pushed).unwrap();
            assert_eq!(tb.depth(), 1);
        }
    }
}

#[test]
fn pop_at_root_is_empty_stack() {
    for k in KINDS {
        let mut tb = TokenBuilder::new();
        tb.extend(&ident("a")).unwrap();
        assert!(matches!(tb.pop_group(k), Err(BuildError::EmptyStack)));
        assert_eq!(finish(tb), "a");
    }
}

#[test]
fn end_with_open_scope_is_unbalanced() {
    let mut tb = TokenBuilder::new();
    tb.push_group(Delim::Brace);
    assert!(matches!(tb.end(), Err(BuildError::UnbalancedScope)));
}

#[test]
fn end_with_root_only_succeeds() {
    let mut tb = TokenBuilder::new();
    tb.push_group(Delim::Brace);
    tb.pop_group(Delim::Brace).unwrap();
    assert!(tb.end().is_ok());
}

#[test]
fn add_empty_text_appends_nothing() {
    let mut tb = TokenBuilder::new();
    tb.extend(&ident("a")).unwrap();
    tb.add("").unwrap();
    assert_eq!(tb.depth(), 1);
    assert_eq!(finish(tb), "a");
}

#[test]
fn add_text_with_braces() {
    let mut tb = TokenBuilder::new();
    tb.add("a{b}c").unwrap();
    let out = trees(tb.end().unwrap());
    assert_eq!(out.len(), 3);
    assert!(matches!(&out[0], TokenTree::Ident(i) if i.to_string() == "a"));
    match &out[1] {
        TokenTree::Group(g) => {
            assert_eq!(g.delimiter(), Delimiter::Brace);
            assert_eq!(g.stream().to_string(), "b");
        }
        _ => panic!("expected a group"),
    }
    assert!(matches!(&out[2], TokenTree::Ident(i) if i.to_string() == "c"));
}

#[test]
fn add_text_equals_explicit_steps() {
    let mut by_text = TokenBuilder::new();
    by_text.add("a{b}c").unwrap();
    let mut by_steps = TokenBuilder::new();
    by_steps.add("a").unwrap();
    by_steps.push_group(Delim::Brace);
    by_steps.add("b").unwrap();
    by_steps.pop_group(Delim::Brace).unwrap();
    by_steps.add("c").unwrap();
    assert_eq!(finish(by_text), finish(by_steps));
}

#[test]
fn add_text_sibling_groups() {
    let mut tb = TokenBuilder::new();
    tb.add("(x)(y)").unwrap();
    let out = trees(tb.end().unwrap());
    assert_eq!(out.len(), 2);
    for (t, want) in out.iter().zip(["x", "y"]) {
        match t {
            TokenTree::Group(g) => {
                assert_eq!(g.delimiter(), Delimiter::Parenthesis);
                assert_eq!(g.stream().to_string(), want);
            }
            _ => panic!("expected a group"),
        }
    }
}

#[test]
fn add_unbalanced_text_leaves_scope_open() {
    let mut tb = TokenBuilder::new();
    tb.add("fn f(").unwrap();
    assert_eq!(tb.depth(), 2);
    tb.add("x: u8").unwrap();
    tb.pop_group(Delim::Parenthesis).unwrap();
    assert_eq!(finish(tb), "fn f (x : u8)");
    let mut tb = TokenBuilder::new();
    tb.add("fn f(").unwrap();
    assert!(matches!(tb.end(), Err(BuildError::UnbalancedScope)));
}

#[test]
fn add_text_with_stray_close_fails() {
    let mut tb = TokenBuilder::new();
    assert!(matches!(tb.add("a)"), Err(BuildError::EmptyStack)));
    let mut tb = TokenBuilder::new();
    assert!(matches!(
        tb.add("[a)"),
        Err(BuildError::MismatchedBracket { requested: Delim::Parenthesis, open: Delim::Bracket })
    ));
}

#[test]
fn add_malformed_segment_is_parse_failure() {
    let mut tb = TokenBuilder::new();
    let e = tb.add("x \"y").unwrap_err();
    assert!(matches!(e, BuildError::ParseFailure(ref s) if s == "x \"y"));
    let mut tb = TokenBuilder::new();
    let e = tb.add("f(a, \"b)").unwrap_err();
    assert!(matches!(e, BuildError::ParseFailure(ref s) if s == "a, \"b"));
}

#[test]
fn absent_value_is_noop() {
    let mut tb = TokenBuilder::new();
    tb.add("a").unwrap();
    tb.extend(&None::<Ident>).unwrap();
    assert_eq!(tb.depth(), 1);
    assert_eq!(finish(tb), "a");
}

#[test]
fn present_value_appends_inner() {
    let mut tb = TokenBuilder::new();
    tb.extend(&Some(ident("a"))).unwrap();
    assert_eq!(finish(tb), "a");
}

#[test]
fn vector_equals_one_by_one() {
    let values = vec!["a".to_string(), "{".to_string(), "b".to_string(), "}".to_string()];
    let mut whole = TokenBuilder::new();
    whole.extend(&values).unwrap();
    let mut one_by_one = TokenBuilder::new();
    for v in &values {
        one_by_one.extend(v).unwrap();
    }
    let a = finish(whole);
    assert_eq!(a, finish(one_by_one));
    assert_eq!(a, "a { b }");
}

#[test]
fn vector_stops_at_first_fault() {
    let values = vec!["a", ")", "b"];
    let mut tb = TokenBuilder::new();
    assert!(matches!(tb.extend(&values), Err(BuildError::EmptyStack)));
}

#[test]
fn usize_is_unsuffixed_literal() {
    let mut tb = TokenBuilder::new();
    tb.extend(&42usize).unwrap();
    tb.extend(&0usize).unwrap();
    assert_eq!(finish(tb), "42 0");
}

#[test]
fn atomic_tokens_are_appended() {
    let mut tb = TokenBuilder::new();
    tb.extend(&ident("x")).unwrap();
    tb.extend(&Punct::new('=', Spacing::Alone)).unwrap();
    tb.extend(&Literal::string("s")).unwrap();
    tb.extend(&Group::new(Delimiter::Bracket, "1".parse().unwrap())).unwrap();
    tb.extend(&TokenTree::from(ident("y"))).unwrap();
    assert_eq!(finish(tb), "x = \"s\" [1] y");
}

#[test]
fn stream_appends_each_tree() {
    let mut tb = TokenBuilder::new();
    tb.push_group(Delim::Brace);
    tb.stream("let a = b ;".parse().unwrap());
    let ts: TokenStream = "c".parse().unwrap();
    tb.extend(&ts).unwrap();
    tb.pop_group(Delim::Brace).unwrap();
    assert_eq!(finish(tb), "{ let a = b ; c }");
}

#[test]
fn string_and_str_go_through_raw_text() {
    let mut tb = TokenBuilder::new();
    tb.extend(&"v[0]".to_string()).unwrap();
    tb.extend(&"+ w").unwrap();
    assert_eq!(finish(tb), "v [0] + w");
}

#[test]
fn nested_scopes_from_text() {
    let mut tb = TokenBuilder::new();
    tb.add("fn f() { g([1, 2]); }").unwrap();
    assert_eq!(tb.depth(), 1);
    assert_eq!(finish(tb), "fn f () { g ([1 , 2]) ; }");
}

#[test]
fn split_raw_cuts_at_brackets() {
    let (first, pairs) = split_raw("a{b}c");
    assert_eq!(first, "a");
    assert_eq!(pairs.len(), 2);
    assert_eq!(pairs[0].0, Bracket::Open(Delim::Brace));
    assert_eq!(pairs[0].1, "b");
    assert_eq!(pairs[1].0, Bracket::Close(Delim::Brace));
    assert_eq!(pairs[1].1, "c");
}

#[test]
fn split_raw_keeps_empty_segments() {
    let (first, pairs) = split_raw("(x)(y)");
    assert_eq!(first, "");
    let got: Vec<(Bracket, &str)> = pairs.iter().map(|(b, s)| (*b, s.as_str())).collect();
    assert_eq!(
        got,
        vec![
            (Bracket::Open(Delim::Parenthesis), "x"),
            (Bracket::Close(Delim::Parenthesis), ""),
            (Bracket::Open(Delim::Parenthesis), "y"),
            (Bracket::Close(Delim::Parenthesis), ""),
        ]
    );
    let (first, pairs) = split_raw("");
    assert_eq!(first, "");
    assert!(pairs.is_empty());
    let (first, pairs) = split_raw("é [ü");
    assert_eq!(first, "é ");
    assert_eq!(pairs.len(), 1);
    assert_eq!(pairs[0].1, "ü");
}

#[test]
fn bracket_of_each_character() {
    assert_eq!(bracket_of('{'), Some(Bracket::Open(Delim::Brace)));
    assert_eq!(bracket_of('('), Some(Bracket::Open(Delim::Parenthesis)));
    assert_eq!(bracket_of('['), Some(Bracket::Open(Delim::Bracket)));
    assert_eq!(bracket_of('}'), Some(Bracket::Close(Delim::Brace)));
    assert_eq!(bracket_of(')'), Some(Bracket::Close(Delim::Parenthesis)));
    assert_eq!(bracket_of(']'), Some(Bracket::Close(Delim::Bracket)));
    assert_eq!(bracket_of('<'), None);
    assert_eq!(bracket_of('"'), None);
}

#[test]
fn brackets_inside_quotes_still_split() {
    let mut tb = TokenBuilder::new();
    assert!(matches!(tb.add("\"a{\""), Err(BuildError::ParseFailure(ref s)) if s == "\"a"));
}

fn lexed(text: &str) -> Option<Vec<TokenTree>> {
    text.parse::<TokenStream>().ok().map(trees)
}

#[test]
fn replay_uses_given_lexes() {
    let (first, pairs) = split_raw("a{b}c");
    let lexes = vec![lexed("a"), lexed("x y"), lexed("c")];
    let mut tb = TokenBuilder::new();
    tb.replay(&first, &pairs, &lexes).unwrap();
    assert_eq!(finish(tb), "a { x y } c");
}

#[test]
fn replay_reports_first_fault_in_order() {
    let (first, pairs) = split_raw("a)b");
    let lexes = vec![lexed("a"), None];
    let mut tb = TokenBuilder::new();
    assert!(matches!(tb.replay(&first, &pairs, &lexes), Err(BuildError::EmptyStack)));
    let (first, pairs) = split_raw("a(b)c");
    let lexes = vec![lexed("a"), None, None];
    let mut tb = TokenBuilder::new();
    let e = tb.replay(&first, &pairs, &lexes).unwrap_err();
    assert!(matches!(e, BuildError::ParseFailure(ref s) if s == "b"));
}

#[test]
fn replay_skips_empty_segments() {
    let (first, pairs) = split_raw("()");
    let lexes = vec![None, None, None];
    let mut tb = TokenBuilder::new();
    tb.replay(&first, &pairs, &lexes).unwrap();
    assert_eq!(finish(tb), "()");
}

#[test]
fn repeated_empty_scopes_are_siblings() {
    let mut tb = TokenBuilder::new();
    tb.push_group(Delim::Brace);
    tb.add("x").unwrap();
    for k in KINDS {
        tb.push_group(k);
        tb.pop_group(k).unwrap();
    }
    tb.pop_group(Delim::Brace).unwrap();
    assert_eq!(finish(tb), "{ x { } () [] }");
}

#[test]
fn scope_opened_by_one_add_closed_by_another() {
    let mut tb = TokenBuilder::new();
    tb.add("fn f(").unwrap();
    tb.add("x)").unwrap();
    let out = trees(tb.end().unwrap());
    assert_eq!(out.len(), 3);
    assert!(matches!(&out[0], TokenTree::Ident(i) if i.to_string() == "fn"));
    assert!(matches!(&out[1], TokenTree::Ident(i) if i.to_string() == "f"));
    match &out[2] {
        TokenTree::Group(g) => {
            assert_eq!(g.delimiter(), Delimiter::Parenthesis);
            assert_eq!(g.stream().to_string(), "x");
        }
        _ => panic!("expected a group"),
    }
}

#[test]
fn end_returns_root_trees_in_order() {
    let mut tb = TokenBuilder::new();
    tb.extend(&ident("a")).unwrap();
    tb.extend(&7usize).unwrap();
    tb.extend(&Punct::new(';', Spacing::Alone)).unwrap();
    let out = trees(tb.end().unwrap());
    assert_eq!(out.len(), 3);
    assert!(matches!(&out[0], TokenTree::Ident(i) if i.to_string() == "a"));
    assert!(matches!(&out[1], TokenTree::Literal(l) if l.to_string() == "7"));
    assert!(matches!(&out[2], TokenTree::Punct(p) if p.as_char() == ';'));
}

#[test]
fn negative_literal_is_split_when_collected() {
    let mut tb = TokenBuilder::new();
    tb.extend(&Literal::i32_unsuffixed(-1)).unwrap();
    let out = trees(tb.end().unwrap());
    assert_eq!(out.len(), 2);
    assert!(matches!(&out[0], TokenTree::Punct(p) if p.as_char() == '-'));
    assert!(matches!(&out[1], TokenTree::Literal(l) if l.to_string() == "1"));
}

#[test]
fn new_builder_ends_empty() {
    let tb = TokenBuilder::new();
    assert!(tb.end().unwrap().is_empty());
    let mut tb = TokenBuilder::new();
    tb.add("").unwrap();
    assert!(tb.end().unwrap().is_empty());
}
