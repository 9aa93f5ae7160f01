//! Properties of the builder that relate several operations.
use vstd::prelude::*;
use proc_macro2::TokenTree;
use crate::builder::{
    BuildFault, Frames, Piece, append_pieces, bracket_effect, close_frame, frames_wf, open_frame,
    pairs_effect, raw_effect, replay_effect, segment_effect, text_appends, lemma_pairs_fault_stays, tree_pieces,
};
use crate::extend::{TokenBuilderExtend, each_appends};
use crate::split::{Bracket, Delim, bracket_spec, split_spec};

verus! {

/// Opening a scope of kind `k`, appending `inner` to it and closing it as `k`
/// succeeds, and leaves the frames as they were with one group of kind `k`
/// around `inner` appended.
pub proof fn law_balanced_scope(st: Frames, k: Delim, inner: Seq<Piece>)
    requires
        frames_wf(st),
    ensures
        close_frame(append_pieces(open_frame(st, k), inner), k) == Ok::<Frames, BuildFault>(
            append_pieces(st, seq![Piece::Grouped(k, inner)]),
        ),
{
    let opened = append_pieces(open_frame(st, k), inner);
    assert(opened.drop_last() =~= st);
    assert(opened.last().1 =~= inner);
}

/// Opening and at once closing a scope of each kind of `ks`, in order.
pub open spec fn open_close_each(st: Frames, ks: Seq<Delim>) -> Result<Frames, BuildFault>
    decreases ks.len(),
{
    if ks.len() == 0 {
        Ok(st)
    } else {
        match open_close_each(st, ks.drop_last()) {
            Ok(s) => close_frame(open_frame(s, ks.last()), ks.last()),
            Err(e) => Err(e),
        }
    }
}

/// Opening and closing scopes one pair after another succeeds, and appends
/// one empty group of each kind, in order, at the current level.
pub proof fn law_repeated_scopes(st: Frames, ks: Seq<Delim>)
    requires
        frames_wf(st),
    ensures
        open_close_each(st, ks) == Ok::<Frames, BuildFault>(
            append_pieces(st, ks.map_values(|k: Delim| Piece::Grouped(k, Seq::<Piece>::empty()))),
        ),
    decreases ks.len(),
{
    let groups = ks.map_values(|k: Delim| Piece::Grouped(k, Seq::<Piece>::empty()));
    if ks.len() == 0 {
        assert(st.last().1 + groups =~= st.last().1);
        assert(append_pieces(st, groups) =~= st);
    } else {
        law_repeated_scopes(st, ks.drop_last());
        let before = ks.drop_last().map_values(|k: Delim| Piece::Grouped(k, Seq::<Piece>::empty()));
        let s = append_pieces(st, before);
        law_balanced_scope(s, ks.last(), Seq::<Piece>::empty());
        assert(append_pieces(open_frame(s, ks.last()), Seq::<Piece>::empty()) =~= open_frame(s, ks.last()));
        assert(st.last().1 + before + seq![Piece::Grouped(ks.last(), Seq::<Piece>::empty())] =~= st.last().1 + groups);
        assert(append_pieces(s, seq![Piece::Grouped(ks.last(), Seq::<Piece>::empty())]) =~= append_pieces(st, groups));
    }
}

/// Closing as `k` a scope that was opened as another kind fails with a
/// mismatch that names both kinds.
pub proof fn law_mismatched_close(st: Frames, pushed: Delim, k: Delim, inner: Seq<Piece>)
    requires
        frames_wf(st),
        pushed != k,
    ensures
        close_frame(append_pieces(open_frame(st, pushed), inner), k) == Err::<Frames, BuildFault>(
            BuildFault::MismatchedBracket { requested: k, open: pushed },
        ),
{
}

/// With only the root frame left, closing a scope of any kind fails with an
/// empty stack.
pub proof fn law_close_at_root(st: Frames, k: Delim)
    requires
        frames_wf(st),
        st.len() == 1,
    ensures
        close_frame(st, k) == Err::<Frames, BuildFault>(BuildFault::EmptyStack),
{
}

/// Appending empty raw text changes nothing and does not fail, whatever the
/// lexer would answer.
pub proof fn law_empty_text(st: Frames, r: Result<Frames, BuildFault>)
    ensures
        text_appends(st, Seq::<char>::empty(), r) <==> r == Ok::<Frames, BuildFault>(st),
{
    let empty = Seq::<char>::empty();
    assert(split_spec(empty) == (empty, Seq::<(Bracket, Seq<char>)>::empty()));
    let lexes = seq![Option::<Seq<TokenTree>>::None];
    assert(raw_effect(st, empty, lexes) == Ok::<Frames, BuildFault>(st));
}

/// The first segment whose lexing fails, once the steps before it have all
/// succeeded, is the parse failure that replaying the text ends in.
pub proof fn law_first_parse_failure(
    st: Frames,
    first: Seq<char>,
    pairs: Seq<(Bracket, Seq<char>)>,
    lexes: Seq<Option<Seq<TokenTree>>>,
    j: int,
    s: Frames,
    s2: Frames,
)
    requires
        lexes.len() == pairs.len() + 1,
        0 <= j < pairs.len(),
        pairs_effect(
            segment_effect(st, first, lexes[0])->Ok_0,
            pairs.take(j),
            lexes.drop_first(),
        ) == Ok::<Frames, BuildFault>(s),
        segment_effect(st, first, lexes[0]) is Ok,
        bracket_effect(s, pairs[j].0) == Ok::<Frames, BuildFault>(s2),
        pairs[j].1.len() > 0,
        lexes[j + 1] is None,
    ensures
        replay_effect(st, first, pairs, lexes) == Err::<Frames, BuildFault>(
            BuildFault::ParseFailure(pairs[j].1),
        ),
{
    let s0 = segment_effect(st, first, lexes[0])->Ok_0;
    let lx = lexes.drop_first();
    assert(pairs.take(j + 1).drop_last() =~= pairs.take(j));
    assert(pairs.take(j + 1).last() == pairs[j]);
    assert(lx[j] == lexes[j + 1]);
    assert(pairs_effect(s0, pairs.take(j + 1), lx) == Err::<Frames, BuildFault>(
        BuildFault::ParseFailure(pairs[j].1),
    ));
    lemma_pairs_fault_stays(s0, pairs, lx, j + 1);
}

/// Appending the raw text `a{b}c` is, from any frames and for any answers of
/// the lexer, appending `a`, opening a brace scope, appending `b`, closing it
/// and appending `c`.
pub proof fn law_braced_text(st: Frames, lexes: Seq<Option<Seq<TokenTree>>>)
    requires
        lexes.len() == 3,
    ensures
        raw_effect(st, "a{b}c"@, lexes) == match segment_effect(st, seq!['a'], lexes[0]) {
            Ok(s1) => match segment_effect(open_frame(s1, Delim::Brace), seq!['b'], lexes[1]) {
                Ok(s2) => match close_frame(s2, Delim::Brace) {
                    Ok(s3) => segment_effect(s3, seq!['c'], lexes[2]),
                    Err(e) => Err(e),
                },
                Err(e) => Err(e),
            },
            Err(e) => Err(e),
        },
{
    reveal_strlit("a{b}c");
    let t = "a{b}c"@;
    assert(t =~= seq!['a', '{', 'b', '}', 'c']);
    let ob = Bracket::Open(Delim::Brace);
    let cb = Bracket::Close(Delim::Brace);
    let e = Seq::<char>::empty();
    assert(t.take(0) =~= e);
    assert(split_spec(e) == (e, Seq::<(Bracket, Seq<char>)>::empty()));
    assert(t.take(1).drop_last() =~= t.take(0));
    assert(t.take(1).last() == 'a');
    assert(e.push('a') =~= seq!['a']);
    assert(split_spec(t.take(1)) == (seq!['a'], Seq::<(Bracket, Seq<char>)>::empty()));
    assert(t.take(2).drop_last() =~= t.take(1));
    assert(t.take(2).last() == '{');
    assert(Seq::<(Bracket, Seq<char>)>::empty().push((ob, e)) =~= seq![(ob, e)]);
    assert(split_spec(t.take(2)) == (seq!['a'], seq![(ob, Seq::<char>::empty())]));
    assert(t.take(3).drop_last() =~= t.take(2));
    assert(t.take(3).last() == 'b');
    assert(e.push('b') =~= seq!['b']);
    assert(seq![(ob, Seq::<char>::empty())].update(0, (ob, Seq::<char>::empty().push('b'))) =~= seq![(ob, seq!['b'])]);
    assert(split_spec(t.take(3)) == (seq!['a'], seq![(ob, seq!['b'])]));
    assert(t.take(4).drop_last() =~= t.take(3));
    assert(t.take(4).last() == '}');
    assert(seq![(ob, seq!['b'])].push((cb, e)) =~= seq![(ob, seq!['b']), (cb, e)]);
    assert(split_spec(t.take(4)) == (seq!['a'], seq![(ob, seq!['b']), (cb, Seq::<char>::empty())]));
    assert(t.take(5).drop_last() =~= t.take(4));
    assert(t.take(5).last() == 'c');
    assert(e.push('c') =~= seq!['c']);
    assert(seq![(ob, seq!['b']), (cb, Seq::<char>::empty())].update(1, (cb, Seq::<char>::empty().push('c'))) =~= seq![(ob, seq!['b']), (cb, seq!['c'])]);
    assert(t.take(5) =~= t);
    let pairs = seq![(ob, seq!['b']), (cb, seq!['c'])];
    assert(split_spec(t) == (seq!['a'], pairs));
    let lx = lexes.drop_first();
    assert(pairs.drop_last().drop_last() =~= Seq::<(Bracket, Seq<char>)>::empty());
    assert(pairs.drop_last() =~= seq![(ob, seq!['b'])]);
    assert(lx[0] == lexes[1] && lx[1] == lexes[2]);
    match segment_effect(st, seq!['a'], lexes[0]) {
        Ok(s1) => {
            assert(pairs_effect(s1, pairs.drop_last().drop_last(), lx) == Ok::<Frames, BuildFault>(s1));
            assert(pairs_effect(s1, pairs.drop_last(), lx) == segment_effect(open_frame(s1, Delim::Brace), seq!['b'], lexes[1]));
        },
        Err(_) => {},
    }
}

/// Appending the raw text `(x)(y)`, where the lexer answers `tx` for `x` and
/// `ty` for `y`, succeeds and appends two sibling parenthesis groups at the
/// current level.
pub proof fn law_sibling_groups_text(
    st: Frames,
    lexes: Seq<Option<Seq<TokenTree>>>,
    tx: Seq<TokenTree>,
    ty: Seq<TokenTree>,
)
    requires
        frames_wf(st),
        lexes.len() == 5,
        lexes[1] == Some(tx),
        lexes[3] == Some(ty),
    ensures
        raw_effect(st, "(x)(y)"@, lexes) == Ok::<Frames, BuildFault>(
            append_pieces(
                st,
                seq![
                    Piece::Grouped(Delim::Parenthesis, tree_pieces(tx)),
                    Piece::Grouped(Delim::Parenthesis, tree_pieces(ty)),
                ],
            ),
        ),
{
    reveal_strlit("(x)(y)");
    let t = "(x)(y)"@;
    assert(t =~= seq!['(', 'x', ')', '(', 'y', ')']);
    let e = Seq::<char>::empty();
    let op = Bracket::Open(Delim::Parenthesis);
    let cp = Bracket::Close(Delim::Parenthesis);
    let none = Seq::<(Bracket, Seq<char>)>::empty();
    assert(t.take(0) =~= e);
    assert(split_spec(e) == (e, none));
    assert(t.take(1).drop_last() =~= t.take(0) && t.take(1).last() == '(');
    assert(none.push((op, e)) =~= seq![(op, e)]);
    assert(split_spec(t.take(1)) == (e, seq![(op, e)]));
    assert(t.take(2).drop_last() =~= t.take(1) && t.take(2).last() == 'x');
    assert(e.push('x') =~= seq!['x']);
    assert(seq![(op, e)].update(0, (op, e.push('x'))) =~= seq![(op, seq!['x'])]);
    assert(split_spec(t.take(2)) == (e, seq![(op, seq!['x'])]));
    assert(t.take(3).drop_last() =~= t.take(2) && t.take(3).last() == ')');
    assert(seq![(op, seq!['x'])].push((cp, e)) =~= seq![(op, seq!['x']), (cp, e)]);
    assert(split_spec(t.take(3)) == (e, seq![(op, seq!['x']), (cp, e)]));
    assert(t.take(4).drop_last() =~= t.take(3) && t.take(4).last() == '(');
    let p4 = seq![(op, seq!['x']), (cp, e), (op, e)];
    assert(seq![(op, seq!['x']), (cp, e)].push((op, e)) =~= p4);
    assert(split_spec(t.take(4)) == (e, p4));
    assert(t.take(5).drop_last() =~= t.take(4) && t.take(5).last() == 'y');
    assert(e.push('y') =~= seq!['y']);
    let p5 = seq![(op, seq!['x']), (cp, e), (op, seq!['y'])];
    assert(p4.update(2, (op, e.push('y'))) =~= p5);
    assert(split_spec(t.take(5)) == (e, p5));
    assert(t.take(6).drop_last() =~= t.take(5) && t.take(6).last() == ')');
    let pairs = seq![(op, seq!['x']), (cp, e), (op, seq!['y']), (cp, e)];
    assert(p5.push((cp, e)) =~= pairs);
    assert(t.take(6) =~= t);
    assert(split_spec(t) == (e, pairs));
    let lx = lexes.drop_first();
    assert(lx[0] == Some(tx) && lx[2] == Some(ty));
    let gx = Piece::Grouped(Delim::Parenthesis, tree_pieces(tx));
    let gy = Piece::Grouped(Delim::Parenthesis, tree_pieces(ty));
    assert(pairs.take(0) =~= none);
    assert(pairs.take(1).drop_last() =~= pairs.take(0) && pairs.take(1).last() == (op, seq!['x']));
    let s1 = append_pieces(open_frame(st, Delim::Parenthesis), tree_pieces(tx));
    assert(pairs_effect(st, pairs.take(0), lx) == Ok::<Frames, BuildFault>(st));
    assert(seq!['x'].len() == 1);
    assert(pairs_effect(st, pairs.take(1), lx) == Ok::<Frames, BuildFault>(s1));
    law_balanced_scope(st, Delim::Parenthesis, tree_pieces(tx));
    let s2 = append_pieces(st, seq![gx]);
    assert(pairs.take(2).drop_last() =~= pairs.take(1) && pairs.take(2).last() == (cp, e));
    assert(pairs_effect(st, pairs.take(2), lx) == Ok::<Frames, BuildFault>(s2));
    assert(frames_wf(s2));
    let s3 = append_pieces(open_frame(s2, Delim::Parenthesis), tree_pieces(ty));
    assert(pairs.take(3).drop_last() =~= pairs.take(2) && pairs.take(3).last() == (op, seq!['y']));
    assert(seq!['y'].len() == 1);
    assert(pairs_effect(st, pairs.take(3), lx) == Ok::<Frames, BuildFault>(s3));
    law_balanced_scope(s2, Delim::Parenthesis, tree_pieces(ty));
    assert(pairs.take(4).drop_last() =~= pairs.take(3) && pairs.take(4).last() == (cp, e));
    assert(pairs.take(4) =~= pairs);
    assert(st.last().1 + seq![gx] + seq![gy] =~= st.last().1 + seq![gx, gy]);
    assert(append_pieces(s2, seq![gy]) =~= append_pieces(st, seq![gx, gy]));
}

/// An opening bracket of a bracket kind.
pub open spec fn opens(b: Bracket) -> bool {
    match b {
        Bracket::Open(d) => d != Delim::Invisible,
        Bracket::Close(_) => false,
    }
}

/// Text with no closing bracket character splits into opening brackets only.
pub proof fn lemma_openers_only(s: Seq<char>)
    requires
        forall|i: int| 0 <= i < s.len() ==> !(bracket_spec(#[trigger] s[i]) matches Some(Bracket::Close(_))),
    ensures
        forall|j: int|
            0 <= j < split_spec(s).1.len() ==> opens((#[trigger] split_spec(s).1[j]).0),
    decreases s.len(),
{
    if s.len() > 0 {
        assert forall|i: int| 0 <= i < s.drop_last().len() implies !(bracket_spec(
            #[trigger] s.drop_last()[i],
        ) matches Some(Bracket::Close(_))) by {
            assert(s.drop_last()[i] == s[i]);
        };
        lemma_openers_only(s.drop_last());
        assert(s.last() == s[s.len() - 1]);
        let prev = split_spec(s.drop_last()).1;
        let cur = split_spec(s).1;
        assert forall|j: int| 0 <= j < cur.len() implies opens((#[trigger] cur[j]).0) by {
            if j < prev.len() {
                assert(cur[j].0 == prev[j].0);
            }
        };
    }
}

/// Each frame below the top keeps its kind and pieces, the top keeps its
/// kind, and every frame above it is of a bracket kind.
pub open spec fn grows_from(st: Frames, r: Frames) -> bool {
    &&& r.len() >= st.len()
    &&& forall|i: int| 0 <= i < st.len() - 1 ==> #[trigger] r[i] == st[i]
    &&& r[st.len() - 1].0 == st.last().0
    &&& forall|i: int| st.len() <= i < r.len() ==> (#[trigger] r[i]).0 != Delim::Invisible
}

/// Opening brackets with segments that all lex succeed, and leave one more
/// frame per bracket above the frames they started from.
pub proof fn lemma_openers_replay(st: Frames, pairs: Seq<(Bracket, Seq<char>)>, lexes: Seq<Option<Seq<TokenTree>>>)
    requires
        frames_wf(st),
        lexes.len() >= pairs.len(),
        forall|j: int| 0 <= j < pairs.len() ==> opens((#[trigger] pairs[j]).0),
        forall|j: int| 0 <= j < pairs.len() ==> #[trigger] lexes[j] is Some,
    ensures
        pairs_effect(st, pairs, lexes) is Ok,
        pairs_effect(st, pairs, lexes)->Ok_0.len() == st.len() + pairs.len(),
        grows_from(st, pairs_effect(st, pairs, lexes)->Ok_0),
    decreases pairs.len(),
{
    if pairs.len() > 0 {
        let k = pairs.len() - 1;
        assert forall|j: int| 0 <= j < pairs.drop_last().len() implies opens((#[trigger] pairs.drop_last()[j]).0) by {
            assert(pairs.drop_last()[j] == pairs[j]);
        };
        lemma_openers_replay(st, pairs.drop_last(), lexes);
        let s = pairs_effect(st, pairs.drop_last(), lexes)->Ok_0;
        assert(pairs[k] == pairs.last());
        assert(lexes[k] is Some);
        let d = pairs.last().0->Open_0;
        let o = open_frame(s, d);
        let r = pairs_effect(st, pairs, lexes)->Ok_0;
        assert(r.len() == o.len());
        assert forall|i: int| 0 <= i < st.len() - 1 implies #[trigger] r[i] == st[i] by {
            assert(r[i] == s[i]);
        };
        assert forall|i: int| st.len() <= i < r.len() implies (#[trigger] r[i]).0 != Delim::Invisible by {
            if i < s.len() {
                assert(r[i].0 == s[i].0);
            }
        };
    }
}

/// Raw text with no closing bracket, whose segments all lex, succeeds: it
/// opens one frame per opening bracket, each of a bracket kind, and leaves
/// the kinds of the frames it started from as they were.
pub proof fn law_opening_text(st: Frames, text: Seq<char>, lexes: Seq<Option<Seq<TokenTree>>>)
    requires
        frames_wf(st),
        forall|i: int| 0 <= i < text.len() ==> !(bracket_spec(#[trigger] text[i]) matches Some(Bracket::Close(_))),
        lexes.len() == split_spec(text).1.len() + 1,
        forall|j: int| 0 <= j < lexes.len() ==> #[trigger] lexes[j] is Some,
    ensures
        raw_effect(st, text, lexes) is Ok,
        raw_effect(st, text, lexes)->Ok_0.len() == st.len() + split_spec(text).1.len(),
        grows_from(st, raw_effect(st, text, lexes)->Ok_0),
{
    lemma_openers_only(text);
    let (first, pairs) = split_spec(text);
    let s0 = segment_effect(st, first, lexes[0])->Ok_0;
    assert(segment_effect(st, first, lexes[0]) is Ok);
    assert(s0.len() == st.len() && s0.last().0 == st.last().0);
    assert(frames_wf(s0));
    let lx = lexes.drop_first();
    assert forall|j: int| 0 <= j < pairs.len() implies #[trigger] lx[j] is Some by {
        assert(lx[j] == lexes[j + 1]);
    };
    lemma_openers_replay(s0, pairs, lx);
    let r = raw_effect(st, text, lexes)->Ok_0;
    assert forall|i: int| 0 <= i < st.len() - 1 implies #[trigger] r[i] == st[i] by {
        assert(r[i] == s0[i]);
    };
}

/// Text without a bracket character is one plain segment.
pub proof fn lemma_no_bracket_split(s: Seq<char>)
    requires
        forall|i: int| 0 <= i < s.len() ==> bracket_spec(#[trigger] s[i]) is None,
    ensures
        split_spec(s) == (s, Seq::<(Bracket, Seq<char>)>::empty()),
    decreases s.len(),
{
    if s.len() > 0 {
        lemma_no_bracket_split(s.drop_last());
        assert(s.drop_last().push(s.last()) =~= s);
    }
}

/// Raw text without bracket characters that the lexer rejects fails with a
/// parse failure that names exactly that text.
pub proof fn law_parse_failure_names_text(st: Frames, text: Seq<char>, lexes: Seq<Option<Seq<TokenTree>>>)
    requires
        text.len() > 0,
        forall|i: int| 0 <= i < text.len() ==> bracket_spec(#[trigger] text[i]) is None,
        lexes.len() == 1,
        lexes[0] is None,
    ensures
        raw_effect(st, text, lexes) == Err::<Frames, BuildFault>(BuildFault::ParseFailure(text)),
{
    lemma_no_bracket_split(text);
}

/// Appending an absent optional value changes nothing and does not fail.
pub proof fn law_absent_value<T: TokenBuilderExtend>(st: Frames, r: Result<Frames, BuildFault>)
    ensures
        Option::<T>::None.appends(st, r) <==> r == Ok::<Frames, BuildFault>(st),
{
}

/// Appending the values of `a` and then, from where they left the frames,
/// those of `b`, is one way appending `a + b` may go.
pub proof fn law_vector_in_order<T: TokenBuilderExtend>(
    a: Seq<T>,
    b: Seq<T>,
    st: Frames,
    mid: Frames,
    r: Result<Frames, BuildFault>,
)
    requires
        each_appends(a, st, Ok::<Frames, BuildFault>(mid)),
        each_appends(b, mid, r),
    ensures
        each_appends(a + b, st, r),
    decreases b.len(),
{
    if b.len() == 0 {
        assert(a + b =~= a);
    } else {
        assert((a + b).drop_last() =~= a + b.drop_last());
        assert((a + b).last() == b.last());
        if r is Err && each_appends(b.drop_last(), mid, r) {
            law_vector_in_order(a, b.drop_last(), st, mid, r);
        } else {
            let m2 = choose|m2: Frames|
                each_appends(b.drop_last(), mid, Ok::<Frames, BuildFault>(m2))
                    && #[trigger] b.last().appends(m2, r);
            law_vector_in_order(a, b.drop_last(), st, mid, Ok::<Frames, BuildFault>(m2));
        }
    }
}

/// A value whose appending has at most one outcome from any frames.
pub open spec fn single_outcome<T: TokenBuilderExtend>(x: T) -> bool {
    forall|st: Frames, r1: Result<Frames, BuildFault>, r2: Result<Frames, BuildFault>|
        #[trigger] x.appends(st, r1) && #[trigger] x.appends(st, r2) ==> r1 == r2
}

/// Where each value has at most one outcome, so has appending all of them in
/// order; with `law_vector_in_order`, appending `a` and then `b` ends exactly
/// as appending `a + b` does.
pub proof fn law_vector_single_outcome<T: TokenBuilderExtend>(
    xs: Seq<T>,
    st: Frames,
    r1: Result<Frames, BuildFault>,
    r2: Result<Frames, BuildFault>,
)
    requires
        forall|i: int| 0 <= i < xs.len() ==> single_outcome(#[trigger] xs[i]),
        each_appends(xs, st, r1),
        each_appends(xs, st, r2),
    ensures
        r1 == r2,
    decreases xs.len(),
{
    if xs.len() > 0 {
        let init = xs.drop_last();
        assert forall|i: int| 0 <= i < init.len() implies single_outcome(#[trigger] init[i]) by {
            assert(init[i] == xs[i]);
        };
        assert(single_outcome(xs[xs.len() - 1]));
        assert(xs.last() == xs[xs.len() - 1]);
        let ok1 = exists|m: Frames| each_appends(init, st, Ok::<Frames, BuildFault>(m)) && #[trigger] xs.last().appends(m, r1);
        let ok2 = exists|m: Frames| each_appends(init, st, Ok::<Frames, BuildFault>(m)) && #[trigger] xs.last().appends(m, r2);
        if ok1 && ok2 {
            let m1 = choose|m: Frames| each_appends(init, st, Ok::<Frames, BuildFault>(m)) && #[trigger] xs.last().appends(m, r1);
            let m2 = choose|m: Frames| each_appends(init, st, Ok::<Frames, BuildFault>(m)) && #[trigger] xs.last().appends(m, r2);
            law_vector_single_outcome(init, st, Ok::<Frames, BuildFault>(m1), Ok::<Frames, BuildFault>(m2));
            assert(xs.last().appends(m1, r1) && xs.last().appends(m1, r2));
        } else if ok1 {
            let m1 = choose|m: Frames| each_appends(init, st, Ok::<Frames, BuildFault>(m)) && #[trigger] xs.last().appends(m, r1);
            law_vector_single_outcome(init, st, Ok::<Frames, BuildFault>(m1), r2);
        } else if ok2 {
            let m2 = choose|m: Frames| each_appends(init, st, Ok::<Frames, BuildFault>(m)) && #[trigger] xs.last().appends(m, r2);
            law_vector_single_outcome(init, st, r1, Ok::<Frames, BuildFault>(m2));
        } else {
            law_vector_single_outcome(init, st, r1, r2);
        }
    }
}

} // verus!
