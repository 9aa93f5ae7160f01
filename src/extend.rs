//! The values that know how to append themselves to a builder.
use vstd::prelude::*;
use proc_macro2::{Group, Ident, Literal, Punct, TokenStream, TokenTree};
use crate::builder::{
    BuildError, BuildFault, Frames, Piece, TokenBuilder, append_pieces, outcome, text_appends,
    tree_pieces,
};
use crate::tokens::{clone_tree, group_tree, ident_tree, literal_tree, punct_tree, trees_in, trees_of};

verus! {

/// A value that can append itself to a `TokenBuilder`.
pub trait TokenBuilderExtend {
    /// Whether appending the value to frames `st` may end in `r`, the frames
    /// after it or the fault it stopped on.
    spec fn appends(&self, st: Frames, r: Result<Frames, BuildFault>) -> bool;

    fn add_to(&self, tb: &mut TokenBuilder) -> (r: Result<(), BuildError>)
        requires
            old(tb).wf(),
        ensures
            final(tb).wf(),
            self.appends(old(tb)@, outcome(r, final(tb)@)),
    ;
}

impl TokenBuilderExtend for TokenTree {
    open spec fn appends(&self, st: Frames, r: Result<Frames, BuildFault>) -> bool {
        r == Ok::<Frames, BuildFault>(append_pieces(st, seq![Piece::Tree(*self)]))
    }

    fn add_to(&self, tb: &mut TokenBuilder) -> (r: Result<(), BuildError>) {
        tb.extend_tree(clone_tree(self));
        Ok(())
    }
}

impl TokenBuilderExtend for Ident {
    open spec fn appends(&self, st: Frames, r: Result<Frames, BuildFault>) -> bool {
        r == Ok::<Frames, BuildFault>(append_pieces(st, seq![Piece::Tree(TokenTree::Ident(*self))]))
    }

    fn add_to(&self, tb: &mut TokenBuilder) -> (r: Result<(), BuildError>) {
        tb.extend_tree(ident_tree(self));
        Ok(())
    }
}

impl TokenBuilderExtend for Literal {
    open spec fn appends(&self, st: Frames, r: Result<Frames, BuildFault>) -> bool {
        r == Ok::<Frames, BuildFault>(append_pieces(st, seq![Piece::Tree(TokenTree::Literal(*self))]))
    }

    fn add_to(&self, tb: &mut TokenBuilder) -> (r: Result<(), BuildError>) {
        tb.extend_tree(literal_tree(self));
        Ok(())
    }
}

impl TokenBuilderExtend for Punct {
    open spec fn appends(&self, st: Frames, r: Result<Frames, BuildFault>) -> bool {
        r == Ok::<Frames, BuildFault>(append_pieces(st, seq![Piece::Tree(TokenTree::Punct(*self))]))
    }

    fn add_to(&self, tb: &mut TokenBuilder) -> (r: Result<(), BuildError>) {
        tb.extend_tree(punct_tree(self));
        Ok(())
    }
}

impl TokenBuilderExtend for Group {
    open spec fn appends(&self, st: Frames, r: Result<Frames, BuildFault>) -> bool {
        r == Ok::<Frames, BuildFault>(append_pieces(st, seq![Piece::Tree(TokenTree::Group(*self))]))
    }

    fn add_to(&self, tb: &mut TokenBuilder) -> (r: Result<(), BuildError>) {
        tb.extend_tree(group_tree(self));
        Ok(())
    }
}

impl TokenBuilderExtend for TokenStream {
    open spec fn appends(&self, st: Frames, r: Result<Frames, BuildFault>) -> bool {
        r == Ok::<Frames, BuildFault>(append_pieces(st, tree_pieces(trees_of(*self))))
    }

    fn add_to(&self, tb: &mut TokenBuilder) -> (r: Result<(), BuildError>) {
        let trees = trees_in(self);
        tb.extend_trees(&trees);
        Ok(())
    }
}

impl TokenBuilderExtend for usize {
    open spec fn appends(&self, st: Frames, r: Result<Frames, BuildFault>) -> bool {
        r == Ok::<Frames, BuildFault>(append_pieces(st, seq![Piece::Unsuffixed(*self)]))
    }

    fn add_to(&self, tb: &mut TokenBuilder) -> (r: Result<(), BuildError>) {
        tb.extend_usize(*self);
        Ok(())
    }
}

impl<T: TokenBuilderExtend> TokenBuilderExtend for Option<T> {
    open spec fn appends(&self, st: Frames, r: Result<Frames, BuildFault>) -> bool {
        match self {
            Some(x) => x.appends(st, r),
            None => r == Ok::<Frames, BuildFault>(st),
        }
    }

    fn add_to(&self, tb: &mut TokenBuilder) -> (r: Result<(), BuildError>) {
        match self {
            Some(x) => x.add_to(tb),
            None => Ok(()),
        }
    }
}

/// Appending each value in turn may end in `r`: either all but the last end
/// in some frames, from which the last ends in `r`, or they already stopped
/// on the fault `r`.
pub open spec fn each_appends<T: TokenBuilderExtend>(
    xs: Seq<T>,
    st: Frames,
    r: Result<Frames, BuildFault>,
) -> bool
    decreases xs.len(),
{
    if xs.len() == 0 {
        r == Ok::<Frames, BuildFault>(st)
    } else {
        ||| (exists|mid: Frames|
            each_appends(xs.drop_last(), st, Ok::<Frames, BuildFault>(mid))
                && #[trigger] xs.last().appends(mid, r))
        ||| (r is Err && each_appends(xs.drop_last(), st, r))
    }
}

/// Once a prefix of the values has stopped on a fault, so may the whole.
pub proof fn lemma_each_fault_stays<T: TokenBuilderExtend>(
    xs: Seq<T>,
    st: Frames,
    k: int,
    e: BuildFault,
)
    requires
        0 <= k <= xs.len(),
        each_appends(xs.take(k), st, Err::<Frames, BuildFault>(e)),
    ensures
        each_appends(xs, st, Err::<Frames, BuildFault>(e)),
    decreases xs.len(),
{
    if k < xs.len() {
        assert(xs.drop_last().take(k) =~= xs.take(k));
        lemma_each_fault_stays(xs.drop_last(), st, k, e);
    } else {
        assert(xs.take(k) =~= xs);
    }
}

impl<T: TokenBuilderExtend> TokenBuilderExtend for Vec<T> {
    open spec fn appends(&self, st: Frames, r: Result<Frames, BuildFault>) -> bool {
        each_appends(self@, st, r)
    }

    fn add_to(&self, tb: &mut TokenBuilder) -> (r: Result<(), BuildError>) {
        let ghost pre = (*tb)@;
        let mut i: usize = 0;
        assert(self@.take(0) =~= Seq::<T>::empty());
        while i < self.len()
            invariant
                tb.wf(),
                pre == old(tb)@,
                i <= self@.len(),
                each_appends(self@.take(i as int), pre, Ok::<Frames, BuildFault>((*tb)@)),
            decreases self@.len() - i,
        {
            let ghost mid = (*tb)@;
            assert(self@.take(i + 1).drop_last() =~= self@.take(i as int));
            assert(self@.take(i + 1).last() == self@[i as int]);
            let r = self[i].add_to(tb);
            assert(each_appends(self@.take(i + 1).drop_last(), pre, Ok::<Frames, BuildFault>(mid)));
            assert(self@.take(i + 1).last().appends(mid, outcome(r, (*tb)@)));
            match r {
                Ok(()) => {},
                Err(e) => {
                    assert(each_appends(self@.take(i + 1), pre, Err::<Frames, BuildFault>(e@)));
                    proof {
                        lemma_each_fault_stays(self@, pre, i + 1, e@);
                    }
                    return Err(e);
                },
            }
            assert(each_appends(self@.take(i + 1), pre, Ok::<Frames, BuildFault>((*tb)@)));
            i = i + 1;
        }
        assert(self@.take(i as int) =~= self@);
        Ok(())
    }
}

impl TokenBuilderExtend for String {
    open spec fn appends(&self, st: Frames, r: Result<Frames, BuildFault>) -> bool {
        text_appends(st, self@, r)
    }

    fn add_to(&self, tb: &mut TokenBuilder) -> (r: Result<(), BuildError>) {
        tb.add(self.as_str())
    }
}

impl<'a> TokenBuilderExtend for &'a str {
    open spec fn appends(&self, st: Frames, r: Result<Frames, BuildFault>) -> bool {
        text_appends(st, (*self)@, r)
    }

    fn add_to(&self, tb: &mut TokenBuilder) -> (r: Result<(), BuildError>) {
        tb.add(*self)
    }
}

} // verus!
