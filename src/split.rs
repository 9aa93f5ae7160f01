use vstd::prelude::*;

verus! {

/// The kind of a frame: the top level, or one of the three bracket pairs.
#[derive(Clone, Copy, Debug, PartialEq, Eq, Structural)]
pub enum Delim {
    /// No visible bracket: the kind of the root frame.
    Invisible,
    Brace,
    Parenthesis,
    Bracket,
}

/// A bracket character met in raw text: one that opens or one that closes a scope.
#[derive(Clone, Copy, Debug, PartialEq, Eq, Structural)]
pub enum Bracket {
    Open(Delim),
    Close(Delim),
}

/// The bracket that a character stands for, if it is one of `{ ( [ } ) ]`.
pub open spec fn bracket_spec(c: char) -> Option<Bracket> {
    if c == '{' {
        Some(Bracket::Open(Delim::Brace))
    } else if c == '(' {
        Some(Bracket::Open(Delim::Parenthesis))
    } else if c == '[' {
        Some(Bracket::Open(Delim::Bracket))
    } else if c == '}' {
        Some(Bracket::Close(Delim::Brace))
    } else if c == ')' {
        Some(Bracket::Close(Delim::Parenthesis))
    } else if c == ']' {
        Some(Bracket::Close(Delim::Bracket))
    } else {
        None
    }
}

/// Raw text cut at its bracket characters: the plain text before the first
/// bracket, then each bracket with the plain text that follows it.
pub open spec fn split_spec(s: Seq<char>) -> (Seq<char>, Seq<(Bracket, Seq<char>)>)
    decreases s.len(),
{
    if s.len() == 0 {
        (seq![], seq![])
    } else {
        let (first, pairs) = split_spec(s.drop_last());
        let c = s.last();
        match bracket_spec(c) {
            Some(b) => (first, pairs.push((b, seq![]))),
            None => if pairs.len() == 0 {
                (first.push(c), pairs)
            } else {
                let (b, seg) = pairs.last();
                (first, pairs.update(pairs.len() - 1, (b, seg.push(c))))
            },
        }
    }
}

pub fn bracket_of(c: char) -> (r: Option<Bracket>)
    ensures
        r == bracket_spec(c),
{
    match c {
        '{' => Some(Bracket::Open(Delim::Brace)),
        '(' => Some(Bracket::Open(Delim::Parenthesis)),
        '[' => Some(Bracket::Open(Delim::Bracket)),
        '}' => Some(Bracket::Close(Delim::Brace)),
        ')' => Some(Bracket::Close(Delim::Parenthesis)),
        ']' => Some(Bracket::Close(Delim::Bracket)),
        _ => None,
    }
}

/// Cuts `text` at each of the six bracket characters. Returns the plain text
/// before the first bracket, and in order each bracket with the plain text
/// up to the next bracket or the end.
pub fn split_raw(text: &str) -> (r: (String, Vec<(Bracket, String)>))
    ensures
        r.0@ == split_spec(text@).0,
        r.1@.len() == split_spec(text@).1.len(),
        forall|j: int|
            0 <= j < r.1@.len() ==> #[trigger] r.1@[j].0 == split_spec(text@).1[j].0
                && r.1@[j].1@ == split_spec(text@).1[j].1,
{
    let n = text.unicode_len();
    let mut first = String::new();
    let mut pairs: Vec<(Bracket, String)> = Vec::new();
    let mut start: usize = 0;
    let mut i: usize = 0;
    while i < n
        invariant
            n == text@.len(),
            start <= i <= n,
            pairs@.len() == 0 ==> start == 0,
            pairs@.len() == 0 ==> split_spec(text@.take(i as int)).0 == text@.subrange(0, i as int),
            pairs@.len() > 0 ==> split_spec(text@.take(i as int)).0 == first@,
            pairs@.len() > 0 ==> split_spec(text@.take(i as int)).1.last().1 == text@.subrange(start as int, i as int),
            split_spec(text@.take(i as int)).1.len() == pairs@.len(),
            forall|j: int|
                0 <= j < pairs@.len() ==> #[trigger] pairs@[j].0 == split_spec(text@.take(i as int)).1[j].0,
            forall|j: int|
                0 <= j < pairs@.len() - 1 ==> #[trigger] pairs@[j].1@ == split_spec(text@.take(i as int)).1[j].1,
        decreases n - i,
    {
        let c = text.get_char(i);
        let ghost pre = text@.take(i as int);
        assert(text@.take(i + 1).drop_last() == pre);
        match bracket_of(c) {
            Some(b) => {
                let seg = text.substring_char(start, i).to_owned();
                if pairs.len() == 0 {
                    first = seg;
                } else {
                    let last = pairs.len() - 1;
                    let bl = pairs[last].0;
                    pairs.set(last, (bl, seg));
                }
                pairs.push((b, String::new()));
                start = i + 1;
            },
            None => {
                assert(text@.subrange(start as int, i + 1) == text@.subrange(start as int, i as int).push(c));
            },
        }
        i = i + 1;
    }
    let seg = text.substring_char(start, n).to_owned();
    assert(text@.take(n as int) == text@);
    if pairs.len() == 0 {
        first = seg;
    } else {
        let last = pairs.len() - 1;
        let bl = pairs[last].0;
        pairs.set(last, (bl, seg));
    }
    (first, pairs)
}

} // verus!
