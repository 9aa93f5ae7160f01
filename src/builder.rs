//! The builder: a stack of frames, each a bracket kind with the trees appended
//! to it so far.
use vstd::prelude::*;
use crate::split::{Bracket, Delim, split_raw, split_spec};
use proc_macro2::{TokenStream, TokenTree};
use crate::tokens::{
    collect_stream, decimal, group_delim, group_trees, lemma_decimal_unsigned, literal_text,
    literal_tree, negative_literal, no_negative, new_group, parse_stream, trees_in, trees_of,
    unsuffixed_usize,
};
use crate::extend::TokenBuilderExtend;

verus! {

/// What a frame holds, as the builder sees it: a tree appended as it is, a
/// closed scope with the pieces it held, or an unsuffixed number.
pub enum Piece {
    Tree(TokenTree),
    Grouped(Delim, Seq<Piece>),
    Unsuffixed(usize),
}

/// The stack of frames, the root first, each with its kind and its pieces.
pub type Frames = Seq<(Delim, Seq<Piece>)>;

/// Why an operation of the builder failed.
#[derive(Debug)]
pub enum BuildError {
    /// `end` was called while a scope was still open.
    UnbalancedScope,
    /// `pop_group` was called with only the root frame left.
    EmptyStack,
    /// `pop_group` asked to close `requested`, but the innermost open scope is `open`.
    MismatchedBracket { requested: Delim, open: Delim },
    /// This plain text could not be lexed into tokens.
    ParseFailure(String),
}

/// A `BuildError` with its text seen as characters.
pub enum BuildFault {
    UnbalancedScope,
    EmptyStack,
    MismatchedBracket { requested: Delim, open: Delim },
    ParseFailure(Seq<char>),
}

impl View for BuildError {
    type V = BuildFault;

    open spec fn view(&self) -> BuildFault {
        match self {
            BuildError::UnbalancedScope => BuildFault::UnbalancedScope,
            BuildError::EmptyStack => BuildFault::EmptyStack,
            BuildError::MismatchedBracket { requested, open } => BuildFault::MismatchedBracket {
                requested: *requested,
                open: *open,
            },
            BuildError::ParseFailure(s) => BuildFault::ParseFailure(s@),
        }
    }
}

/// What an operation came to: the frames after it, or the fault it stopped on.
pub open spec fn outcome(r: Result<(), BuildError>, st: Frames) -> Result<Frames, BuildFault> {
    match r {
        Ok(_) => Ok(st),
        Err(e) => Err(e@),
    }
}

/// At least one frame, the root of kind `Invisible`.
pub open spec fn frames_wf(st: Frames) -> bool {
    st.len() >= 1 && st[0].0 == Delim::Invisible
}

/// Trees appended one by one, each a piece of its own.
pub open spec fn tree_pieces(ts: Seq<TokenTree>) -> Seq<Piece> {
    ts.map_values(|t: TokenTree| Piece::Tree(t))
}

/// The frames with `ps` appended to the innermost one.
pub open spec fn append_pieces(st: Frames, ps: Seq<Piece>) -> Frames {
    st.update(st.len() - 1, (st.last().0, st.last().1 + ps))
}

/// The frames with a new empty frame of kind `d` on top.
pub open spec fn open_frame(st: Frames, d: Delim) -> Frames {
    st.push((d, seq![]))
}

/// Closing the innermost frame as kind `d`: it must not be the root and must be
/// of kind `d`; its pieces then become one group appended to the frame below.
pub open spec fn close_frame(st: Frames, d: Delim) -> Result<Frames, BuildFault> {
    if st.len() < 2 {
        Err(BuildFault::EmptyStack)
    } else if st.last().0 != d {
        Err(BuildFault::MismatchedBracket { requested: d, open: st.last().0 })
    } else {
        Ok(append_pieces(st.drop_last(), seq![Piece::Grouped(d, st.last().1)]))
    }
}

/// Appending one plain text segment, given what the lexer made of it: nothing
/// if it is empty, else the lexed trees, or a parse failure that names it.
pub open spec fn segment_effect(st: Frames, seg: Seq<char>, lex: Option<Seq<TokenTree>>) -> Result<Frames, BuildFault> {
    if seg.len() == 0 {
        Ok(st)
    } else {
        match lex {
            Some(ts) => Ok(append_pieces(st, tree_pieces(ts))),
            None => Err(BuildFault::ParseFailure(seg)),
        }
    }
}

/// Opening or closing a scope for a bracket character.
pub open spec fn bracket_effect(st: Frames, b: Bracket) -> Result<Frames, BuildFault> {
    match b {
        Bracket::Open(d) => Ok(open_frame(st, d)),
        Bracket::Close(d) => close_frame(st, d),
    }
}

/// Each bracket in turn, then the plain text after it with its lexed trees at
/// the same index of `lexes`; the first fault stops.
pub open spec fn pairs_effect(
    st: Frames,
    pairs: Seq<(Bracket, Seq<char>)>,
    lexes: Seq<Option<Seq<TokenTree>>>,
) -> Result<Frames, BuildFault>
    decreases pairs.len(),
{
    if pairs.len() == 0 {
        Ok(st)
    } else {
        match pairs_effect(st, pairs.drop_last(), lexes) {
            Ok(s) => match bracket_effect(s, pairs.last().0) {
                Ok(s2) => segment_effect(s2, pairs.last().1, lexes[pairs.len() - 1]),
                Err(e) => Err(e),
            },
            Err(e) => Err(e),
        }
    }
}

/// Once a prefix of the pairs has stopped on a fault, so have all of them.
pub proof fn lemma_pairs_fault_stays(
    st: Frames,
    pairs: Seq<(Bracket, Seq<char>)>,
    lexes: Seq<Option<Seq<TokenTree>>>,
    k: int,
)
    requires
        0 <= k <= pairs.len(),
        pairs_effect(st, pairs.take(k), lexes) is Err,
    ensures
        pairs_effect(st, pairs, lexes) == pairs_effect(st, pairs.take(k), lexes),
    decreases pairs.len(),
{
    if k < pairs.len() {
        assert(pairs.drop_last().take(k) =~= pairs.take(k));
        lemma_pairs_fault_stays(st, pairs.drop_last(), lexes, k);
    } else {
        assert(pairs.take(k) =~= pairs);
    }
}

/// Replaying split text: the first segment with `lexes[0]`, then each bracket
/// and the segment after it, segment `i` of the pairs with `lexes[i + 1]`.
pub open spec fn replay_effect(
    st: Frames,
    first: Seq<char>,
    pairs: Seq<(Bracket, Seq<char>)>,
    lexes: Seq<Option<Seq<TokenTree>>>,
) -> Result<Frames, BuildFault> {
    match segment_effect(st, first, lexes[0]) {
        Ok(s) => pairs_effect(s, pairs, lexes.drop_first()),
        Err(e) => Err(e),
    }
}

/// Appending raw text, given what the lexer made of each of its segments.
pub open spec fn raw_effect(st: Frames, text: Seq<char>, lexes: Seq<Option<Seq<TokenTree>>>) -> Result<Frames, BuildFault> {
    replay_effect(st, split_spec(text).0, split_spec(text).1, lexes)
}

/// Appending raw text may end in `r`: for some answer of the lexer on each
/// segment, `r` is what replaying the text gives.
pub open spec fn text_appends(st: Frames, text: Seq<char>, r: Result<Frames, BuildFault>) -> bool {
    exists|lexes: Seq<Option<Seq<TokenTree>>>|
        lexes.len() == split_spec(text).1.len() + 1 && r == #[trigger] raw_effect(st, text, lexes)
}

/// The pairs of split text, with their segments as characters.
pub open spec fn pairs_view(pairs: Seq<(Bracket, String)>) -> Seq<(Bracket, Seq<char>)> {
    pairs.map_values(|p: (Bracket, String)| (p.0, p.1@))
}

/// Lexer answers, with their trees as sequences.
pub open spec fn lexes_view(lexes: Seq<Option<Vec<TokenTree>>>) -> Seq<Option<Seq<TokenTree>>> {
    lexes.map_values(|o: Option<Vec<TokenTree>>| match o {
        Some(v) => Some(v@),
        None => None,
    })
}

/// Whether a real tree stands for a piece: a tree for itself; a closed scope
/// for a group of its kind, whose trees stand for its pieces where none of
/// them is a negative literal (collecting splits those in two); a number for
/// the literal of its decimal text.
pub open spec fn denotes(t: TokenTree, p: Piece) -> bool
    decreases p,
{
    match p {
        Piece::Tree(x) => t == x,
        Piece::Grouped(d, ps) => match t {
            TokenTree::Group(g) => group_delim(g) == d && (plain(ps) ==> group_trees(g).len() == ps.len()
                && forall|j: int| 0 <= j < ps.len() ==> denotes(#[trigger] group_trees(g)[j], ps[j])),
            _ => false,
        },
        Piece::Unsuffixed(n) => match t {
            TokenTree::Literal(l) => literal_text(l) == decimal(n as nat),
            _ => false,
        },
    }
}

/// No piece is a negative literal appended as a tree.
pub open spec fn plain(ps: Seq<Piece>) -> bool {
    forall|j: int| 0 <= j < ps.len() ==> !(#[trigger] ps[j] is Tree && negative_literal(ps[j]->Tree_0))
}

/// The trees of a frame stand, one for one, for its pieces.
pub open spec fn frame_denotes(ts: Seq<TokenTree>, ps: Seq<Piece>) -> bool {
    ts.len() == ps.len() && forall|j: int| 0 <= j < ts.len() ==> denotes(#[trigger] ts[j], ps[j])
}

/// Trees that stand for plain pieces hold no negative literal.
pub proof fn lemma_plain_trees(ts: Seq<TokenTree>, ps: Seq<Piece>)
    requires
        frame_denotes(ts, ps),
        plain(ps),
    ensures
        no_negative(ts),
{
    assert forall|j: int| 0 <= j < ts.len() implies !negative_literal(#[trigger] ts[j]) by {
        assert(denotes(ts[j], ps[j]));
        match ps[j] {
            Piece::Unsuffixed(n) => lemma_decimal_unsigned(n as nat),
            _ => {},
        }
    };
}

/// The real frames and the frames of pieces have the same length, and each
/// real frame has the kind of its piece frame and stands for it.
pub open spec fn linked(groups: Seq<(Delim, Vec<TokenTree>)>, model: Frames) -> bool {
    &&& groups.len() == model.len()
    &&& forall|i: int|
        0 <= i < groups.len() ==> (#[trigger] groups[i]).0 == model[i].0
            && frame_denotes(groups[i].1@, model[i].1)
}

/// Linked frames stay linked when a linked frame is pushed on both.
pub proof fn lemma_linked_push(
    groups: Seq<(Delim, Vec<TokenTree>)>,
    model: Frames,
    f: (Delim, Vec<TokenTree>),
    pf: (Delim, Seq<Piece>),
)
    requires
        linked(groups, model),
        f.0 == pf.0,
        frame_denotes(f.1@, pf.1),
    ensures
        linked(groups.push(f), model.push(pf)),
{
    assert forall|i: int| 0 <= i < groups.len() + 1 implies (#[trigger] groups.push(f)[i]).0 == model.push(pf)[i].0
        && frame_denotes(groups.push(f)[i].1@, model.push(pf)[i].1) by {
        if i < groups.len() {
            assert(groups.push(f)[i] == groups[i]);
        }
    };
}

/// Linked frames stay linked when the top frame leaves both.
pub proof fn lemma_linked_drop_last(groups: Seq<(Delim, Vec<TokenTree>)>, model: Frames)
    requires
        linked(groups, model),
        groups.len() > 0,
    ensures
        linked(groups.drop_last(), model.drop_last()),
        frame_denotes(groups.last().1@, model.last().1),
        groups.last().0 == model.last().0,
{
    assert forall|i: int| 0 <= i < groups.len() - 1 implies (#[trigger] groups.drop_last()[i]).0
        == model.drop_last()[i].0 && frame_denotes(groups.drop_last()[i].1@, model.drop_last()[i].1) by {
        assert(groups.drop_last()[i] == groups[i]);
    };
    assert(groups.last() == groups[groups.len() - 1]);
}

/// Builds a token stream from appended pieces, with an explicit stack of
/// open bracket scopes.
pub struct TokenBuilder {
    groups: Vec<(Delim, Vec<TokenTree>)>,
    model: Ghost<Frames>,
}

impl View for TokenBuilder {
    type V = Frames;

    closed spec fn view(&self) -> Frames {
        self.model@
    }
}

impl TokenBuilder {
    /// The frames are well formed, and the real trees of each frame stand for
    /// its pieces.
    pub closed spec fn wf(&self) -> bool {
        frames_wf(self.model@) && linked(self.groups@, self.model@)
    }

    /// A well-formed builder has a root frame of kind `Invisible`.
    pub proof fn lemma_wf_frames(&self)
        requires
            self.wf(),
        ensures
            frames_wf(self@),
    {
    }

    /// A builder with only the root frame, which is empty.
    pub fn new() -> (r: Self)
        ensures
            r@ == seq![(Delim::Invisible, Seq::<Piece>::empty())],
            r.wf(),
    {
        let ghost root = seq![(Delim::Invisible, Seq::<Piece>::empty())];
        let r = TokenBuilder { groups: vec![(Delim::Invisible, Vec::new())], model: Ghost(root) };
        assert(frame_denotes(r.groups@[0].1@, r.model@[0].1));
        r
    }

    /// The number of frames, the root included.
    pub fn depth(&self) -> (r: usize)
        requires
            self.wf(),
        ensures
            r == self@.len(),
    {
        self.groups.len()
    }

    /// The stream of the root frame, once every scope is closed. Its trees
    /// stand for the root frame's pieces where none of them is a negative
    /// literal.
    pub fn end(self) -> (r: Result<TokenStream, BuildError>)
        requires
            self.wf(),
        ensures
            self@.len() == 1 <==> r is Ok,
            r is Err ==> r->Err_0@ == BuildFault::UnbalancedScope,
            r is Ok && plain(self@[0].1) ==> frame_denotes(trees_of(r->Ok_0), self@[0].1),
    {
        let ghost model = self.model@;
        let mut groups = self.groups;
        if groups.len() != 1 {
            return Err(BuildError::UnbalancedScope);
        }
        let ghost g = groups@;
        match groups.pop() {
            Some((_, trees)) => {
                proof {
                    assert(g[0] == g.last());
                    assert(frame_denotes(trees@, model[0].1));
                    if plain(model[0].1) {
                        lemma_plain_trees(trees@, model[0].1);
                    }
                }
                Ok(collect_stream(trees))
            },
            None => Err(BuildError::UnbalancedScope),
        }
    }

    /// Appends to the innermost frame a tree that stands for `p`.
    fn push_piece(&mut self, tt: TokenTree, Ghost(p): Ghost<Piece>)
        requires
            old(self).wf(),
            denotes(tt, p),
        ensures
            final(self).wf(),
            final(self)@ == append_pieces(old(self)@, seq![p]),
    {
        let ghost pre = self.model@;
        let ghost g = self.groups@;
        proof {
            lemma_linked_drop_last(g, pre);
        }
        match self.groups.pop() {
            Some((d, trees)) => {
                let mut trees = trees;
                let ghost old_trees = trees@;
                trees.push(tt);
                let ghost pf = (pre.last().0, pre.last().1.push(p));
                assert(frame_denotes(trees@, pf.1)) by {
                    assert forall|j: int| 0 <= j < trees@.len() implies denotes(#[trigger] trees@[j], pf.1[j]) by {
                        if j < old_trees.len() {
                            assert(trees@[j] == old_trees[j]);
                        }
                    };
                };
                proof {
                    lemma_linked_push(g.drop_last(), pre.drop_last(), (d, trees), pf);
                }
                self.groups.push((d, trees));
                self.model = Ghost(append_pieces(pre, seq![p]));
                assert(pre.last().1 + seq![p] =~= pre.last().1.push(p));
                assert(self.model@ =~= pre.drop_last().push(pf));
            },
            None => {},
        }
    }

    /// Appends one tree to the innermost frame.
    pub fn extend_tree(&mut self, tt: TokenTree)
        requires
            old(self).wf(),
        ensures
            final(self).wf(),
            final(self)@ == append_pieces(old(self)@, seq![Piece::Tree(tt)]),
    {
        self.push_piece(tt, Ghost(Piece::Tree(tt)));
    }

    /// Appends a number as an unsuffixed literal.
    pub(crate) fn extend_usize(&mut self, n: usize)
        requires
            old(self).wf(),
        ensures
            final(self).wf(),
            final(self)@ == append_pieces(old(self)@, seq![Piece::Unsuffixed(n)]),
    {
        let lit = unsuffixed_usize(n);
        let t = literal_tree(&lit);
        self.push_piece(t, Ghost(Piece::Unsuffixed(n)));
    }

    /// Appends a value by its own rule of appending.
    pub fn extend<T: TokenBuilderExtend>(&mut self, x: &T) -> (r: Result<(), BuildError>)
        requires
            old(self).wf(),
        ensures
            final(self).wf(),
            x.appends(old(self)@, outcome(r, final(self)@)),
    {
        x.add_to(self)
    }

    /// Appends each tree of a stream, in order.
    pub fn stream(&mut self, what: TokenStream)
        requires
            old(self).wf(),
        ensures
            final(self).wf(),
            final(self)@ == append_pieces(old(self)@, tree_pieces(trees_of(what))),
    {
        let trees = trees_in(&what);
        self.extend_trees(&trees);
    }

    /// Appends each of `trees` in order, each by its own rule of appending.
    pub(crate) fn extend_trees(&mut self, trees: &Vec<TokenTree>)
        requires
            old(self).wf(),
        ensures
            final(self).wf(),
            final(self)@ == append_pieces(old(self)@, tree_pieces(trees@)),
    {
        let ghost pre = self@;
        let mut i: usize = 0;
        while i < trees.len()
            invariant
                self.wf(),
                i <= trees@.len(),
                frames_wf(pre),
                self@ == append_pieces(pre, tree_pieces(trees@.take(i as int))),
            decreases trees@.len() - i,
        {
            let r = self.extend(&trees[i]);
            assert(r is Ok);
            assert(tree_pieces(trees@.take(i + 1)) =~= tree_pieces(trees@.take(i as int)).push(Piece::Tree(trees@[i as int])));
            assert(pre.last().1 + tree_pieces(trees@.take(i + 1)) =~= pre.last().1 + tree_pieces(trees@.take(i as int)) + seq![Piece::Tree(trees@[i as int])]);
            assert(self@ =~= append_pieces(pre, tree_pieces(trees@.take(i + 1))));
            i = i + 1;
        }
        assert(trees@.take(i as int) =~= trees@);
    }

    /// Opens a scope of kind `delim`.
    pub fn push_group(&mut self, delim: Delim)
        requires
            old(self).wf(),
        ensures
            final(self).wf(),
            final(self)@ == open_frame(old(self)@, delim),
    {
        let ghost g = self.groups@;
        let ghost m = self.model@;
        let empty: Vec<TokenTree> = Vec::new();
        proof {
            lemma_linked_push(g, m, (delim, empty), (delim, Seq::<Piece>::empty()));
        }
        self.groups.push((delim, empty));
        self.model = Ghost(open_frame(m, delim));
    }

    /// Closes the innermost scope, which must be of kind `delim` and not the
    /// root; its pieces become one group in the frame below. On failure
    /// nothing changes.
    pub fn pop_group(&mut self, delim: Delim) -> (r: Result<(), BuildError>)
        requires
            old(self).wf(),
        ensures
            final(self).wf(),
            outcome(r, final(self)@) == close_frame(old(self)@, delim),
            r is Err ==> final(self)@ == old(self)@,
    {
        let n = self.groups.len();
        if n < 2 {
            return Err(BuildError::EmptyStack);
        }
        let open = self.groups[n - 1].0;
        if open != delim {
            return Err(BuildError::MismatchedBracket { requested: delim, open });
        }
        let ghost pre = self.model@;
        let ghost g = self.groups@;
        proof {
            lemma_linked_drop_last(g, pre);
        }
        match self.groups.pop() {
            Some((_, trees)) => {
                self.model = Ghost(pre.drop_last());
                let ghost ps = pre.last().1;
                let ghost ts = trees@;
                proof {
                    if plain(ps) {
                        lemma_plain_trees(ts, ps);
                    }
                }
                let s = collect_stream(trees);
                let tree = new_group(delim, s);
                assert(denotes(tree, Piece::Grouped(delim, ps)));
                self.push_piece(tree, Ghost(Piece::Grouped(delim, ps)));
                Ok(())
            },
            None => Err(BuildError::EmptyStack),
        }
    }

    /// Appends one plain text segment with what the lexer made of it; an
    /// empty segment appends nothing.
    fn segment(&mut self, seg: &String, lex: &Option<Vec<TokenTree>>) -> (r: Result<(), BuildError>)
        requires
            old(self).wf(),
        ensures
            final(self).wf(),
            outcome(r, final(self)@) == segment_effect(
                old(self)@,
                seg@,
                match lex {
                    Some(v) => Some(v@),
                    None => None,
                },
            ),
    {
        if seg.as_str().is_empty() {
            return Ok(());
        }
        match lex {
            Some(trees) => {
                self.extend_trees(trees);
                Ok(())
            },
            None => Err(BuildError::ParseFailure(seg.clone())),
        }
    }

    /// Replays split raw text, given the lexer's answer on each segment
    /// (`lexes[0]` for `first`, `lexes[i + 1]` for the segment of `pairs[i]`):
    /// an opening bracket opens a scope, a closing one closes it, and each
    /// plain segment appends its trees. Stops at the first failure.
    pub fn replay(
        &mut self,
        first: &String,
        pairs: &Vec<(Bracket, String)>,
        lexes: &Vec<Option<Vec<TokenTree>>>,
    ) -> (r: Result<(), BuildError>)
        requires
            old(self).wf(),
            lexes@.len() == pairs@.len() + 1,
        ensures
            final(self).wf(),
            outcome(r, final(self)@) == replay_effect(
                old(self)@,
                first@,
                pairs_view(pairs@),
                lexes_view(lexes@),
            ),
    {
        let ghost pv = pairs_view(pairs@);
        let ghost lv = lexes_view(lexes@);
        let ghost pre = self@;
        match self.segment(first, &lexes[0]) {
            Ok(()) => {},
            Err(e) => return Err(e),
        }
        let ghost after_first = self@;
        let mut i: usize = 0;
        while i < pairs.len()
            invariant
                self.wf(),
                pre == old(self)@,
                pv == pairs_view(pairs@),
                lv == lexes_view(lexes@),
                lexes@.len() == pairs@.len() + 1,
                segment_effect(pre, first@, lv[0]) == Ok::<Frames, BuildFault>(after_first),
                i <= pairs@.len(),
                pairs_effect(after_first, pv.take(i as int), lv.drop_first()) == Ok::<Frames, BuildFault>(self@),
            decreases pairs@.len() - i,
        {
            let ghost prefix = pv.take(i as int);
            assert(pv.take(i + 1).drop_last() =~= prefix);
            assert(pv.take(i + 1).last() == pv[i as int]);
            assert(lv.drop_first()[i as int] == lv[i + 1]);
            let b = pairs[i].0;
            let step = match b {
                Bracket::Open(d) => {
                    self.push_group(d);
                    Ok(())
                },
                Bracket::Close(d) => self.pop_group(d),
            };
            match step {
                Ok(()) => {},
                Err(e) => {
                    proof {
                        lemma_pairs_fault_stays(after_first, pv, lv.drop_first(), i + 1);
                    }
                    return Err(e);
                },
            }
            match self.segment(&pairs[i].1, &lexes[i + 1]) {
                Ok(()) => {},
                Err(e) => {
                    proof {
                        lemma_pairs_fault_stays(after_first, pv, lv.drop_first(), i + 1);
                    }
                    return Err(e);
                },
            }
            i = i + 1;
        }
        assert(pv.take(i as int) =~= pv);
        Ok(())
    }

    /// Lexes one segment; an empty one is not lexed and gives no trees.
    fn lex_segment(seg: &String) -> (r: Option<Vec<TokenTree>>) {
        if seg.as_str().is_empty() {
            return Some(Vec::new());
        }
        match parse_stream(seg.as_str()) {
            Ok(ts) => Some(trees_in(&ts)),
            Err(_) => None,
        }
    }

    /// Appends raw text: it is cut at each of `{ ( [ } ) ]`, each plain
    /// segment is lexed, and the pieces are replayed in order. Whatever the
    /// lexer answers, the outcome is that of replaying the text with those
    /// answers.
    pub fn add(&mut self, what: &str) -> (r: Result<(), BuildError>)
        requires
            old(self).wf(),
        ensures
            final(self).wf(),
            text_appends(old(self)@, what@, outcome(r, final(self)@)),
    {
        let (first, pairs) = split_raw(what);
        let mut lexes: Vec<Option<Vec<TokenTree>>> = Vec::new();
        lexes.push(Self::lex_segment(&first));
        let mut i: usize = 0;
        while i < pairs.len()
            invariant
                i <= pairs@.len(),
                lexes@.len() == i + 1,
            decreases pairs@.len() - i,
        {
            lexes.push(Self::lex_segment(&pairs[i].1));
            i = i + 1;
        }
        assert(pairs_view(pairs@) =~= split_spec(what@).1);
        let r = self.replay(&first, &pairs, &lexes);
        assert(lexes_view(lexes@).len() == split_spec(what@).1.len() + 1);
        assert(outcome(r, self@) == raw_effect(old(self)@, what@, lexes_view(lexes@)));
        r
    }
}

} // verus!
