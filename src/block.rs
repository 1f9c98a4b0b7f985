//! Blocks: the formatting engine's mirror of a syntax tree, and traversals
//! over it.
use vstd::prelude::*;
use crate::syntax::{
    SyntaxElement, TextRange, is_whitespace_token, element_text, element_range, element_children,
    element_kind, seq_tokens, same_element, elements_equal, well_formed,
};
use crate::whitespace::{Whitespace, Indentation};

verus! {

/// One element of the syntax tree with the formatting state of the engine.
#[derive(Debug)]
pub struct Block<'a> {
    /// The element this block stands for; it is only read.
    pub element: &'a SyntaxElement,
    /// A block for each child of the element, whitespace tokens left out.
    pub children: Vec<Block<'a>>,
    pub text: String,
    pub range: TextRange,
    pub whitespace: Whitespace,
    pub indentation: Indentation,
}

/// Every block under the blocks of `s`, each before its children, in order.
pub open spec fn flat_seq<'a>(s: Seq<Block<'a>>) -> Seq<Block<'a>>
    decreases s,
{
    if s.len() == 0 {
        Seq::empty()
    } else {
        let last = s[s.len() - 1];
        flat_seq(s.drop_last()) + seq![last] + flat_seq(last.children@)
    }
}

/// The blocks that a list of references points at.
pub open spec fn blocks_of<'t, 'a>(r: Seq<&'t Block<'a>>) -> Seq<Block<'a>> {
    r.map_values(|b: &'t Block<'a>| *b)
}

/// Whether a block stands for a token.
pub open spec fn is_token_block<'a>(b: Block<'a>) -> bool {
    b.element is Token
}

/// Whether a block stands for a node.
pub open spec fn is_node_block<'a>(b: Block<'a>) -> bool {
    b.element is Node
}

/// The children of an element that get a block: all but whitespace tokens.
pub open spec fn kept(s: Seq<SyntaxElement>) -> Seq<SyntaxElement> {
    s.filter(|e: SyntaxElement| !is_whitespace_token(e))
}

impl<'a> PartialEq for Block<'a> {
    /// Blocks are equal when their ranges, texts and elements are.
    fn eq(&self, rhs: &Block<'a>) -> (r: bool) {
        self.range == rhs.range && self.text == rhs.text && elements_equal(self.element, rhs.element)
    }
}

impl<'a> vstd::std_specs::cmp::PartialEqSpecImpl for Block<'a> {
    open spec fn obeys_eq_spec() -> bool {
        true
    }

    open spec fn eq_spec(&self, rhs: &Block<'a>) -> bool {
        self.range == rhs.range && self.text@ == rhs.text@ && same_element(*self.element, *rhs.element)
    }
}

impl<'a> PartialOrd for Block<'a> {
    /// Blocks are ordered by where their ranges start.
    fn partial_cmp(&self, rhs: &Block<'a>) -> (r: Option<core::cmp::Ordering>) {
        if self.range.start < rhs.range.start {
            Some(core::cmp::Ordering::Less)
        } else if self.range.start == rhs.range.start {
            Some(core::cmp::Ordering::Equal)
        } else {
            Some(core::cmp::Ordering::Greater)
        }
    }
}

impl<'a> vstd::std_specs::cmp::PartialOrdSpecImpl for Block<'a> {
    open spec fn obeys_partial_cmp_spec() -> bool {
        true
    }

    open spec fn partial_cmp_spec(&self, rhs: &Block<'a>) -> Option<core::cmp::Ordering> {
        if self.range.start < rhs.range.start {
            Some(core::cmp::Ordering::Less)
        } else if self.range.start == rhs.range.start {
            Some(core::cmp::Ordering::Equal)
        } else {
            Some(core::cmp::Ordering::Greater)
        }
    }
}

/// A list of blocks, flattened once, handed out front to back.
#[derive(Debug)]
pub struct Traversal<'t, 'a> {
    pub blocks: Vec<&'t Block<'a>>,
    pub idx: usize,
}

impl<'t, 'a> Traversal<'t, 'a> {
    /// The blocks not handed out yet.
    pub open spec fn remaining(&self) -> Seq<Block<'a>> {
        if self.idx <= self.blocks@.len() {
            blocks_of(self.blocks@).skip(self.idx as int)
        } else {
            Seq::empty()
        }
    }

    /// Hands out the block at the position and moves past it; `None` once
    /// the position is past the end, where it still moves on.
    pub fn next(&mut self) -> (r: Option<&'t Block<'a>>)
        requires
            old(self).idx < usize::MAX,
        ensures
            final(self).blocks == old(self).blocks,
            final(self).idx == old(self).idx + 1,
            old(self).idx < old(self).blocks@.len() ==> r == Some(old(self).blocks@[old(self).idx as int]),
            old(self).idx >= old(self).blocks@.len() ==> r is None,
    {
        let i = self.idx;
        self.idx = self.idx + 1;
        if i < self.blocks.len() {
            Some(self.blocks[i])
        } else {
            None
        }
    }

    /// Consumes what is left into a list.
    pub fn collect_remaining(self) -> (r: Vec<&'t Block<'a>>)
        ensures
            blocks_of(r@) == self.remaining(),
    {
        let mut out: Vec<&'t Block<'a>> = Vec::new();
        if self.idx >= self.blocks.len() {
            assert(blocks_of(out@) =~= self.remaining());
            return out;
        }
        let mut i: usize = self.idx;
        while i < self.blocks.len()
            invariant
                self.idx <= i <= self.blocks@.len(),
                blocks_of(out@) == blocks_of(self.blocks@).subrange(self.idx as int, i as int),
            decreases self.blocks@.len() - i,
        {
            let ghost before = out@;
            out.push(self.blocks[i]);
            assert(blocks_of(out@) =~= blocks_of(before).push(*self.blocks@[i as int]));
            i = i + 1;
            assert(blocks_of(out@) =~= blocks_of(self.blocks@).subrange(self.idx as int, i as int));
        }
        assert(blocks_of(self.blocks@).subrange(self.idx as int, i as int) =~= self.remaining());
        out
    }
}

proof fn lemma_kept_push(s: Seq<SyntaxElement>, e: SyntaxElement)
    ensures
        kept(s.push(e)) == if is_whitespace_token(e) {
            kept(s)
        } else {
            kept(s).push(e)
        },
{
    s.lemma_filter_push(e, |e: SyntaxElement| !is_whitespace_token(e));
}

pub proof fn lemma_filter_single<A>(x: A, p: spec_fn(A) -> bool)
    ensures
        seq![x].filter(p) == if p(x) {
            seq![x]
        } else {
            Seq::<A>::empty()
        },
{
    reveal_with_fuel(Seq::filter, 2);
    assert(seq![x].drop_last() =~= Seq::<A>::empty());
}

/// The texts of a list of blocks.
pub open spec fn texts_of<'a>(bs: Seq<Block<'a>>) -> Seq<Seq<char>> {
    bs.map_values(|b: Block<'a>| b.text@)
}

proof fn lemma_kept_empty(s: Seq<SyntaxElement>)
    requires
        s.len() == 0,
    ensures
        kept(s).len() == 0,
{
    reveal_with_fuel(Seq::filter, 1);
}

/// Blocks that mirror the kept children of `es` hold, among them, the
/// non-whitespace tokens of `es` with their texts, in order.
pub proof fn lemma_tokens_mirror<'a>(bs: Seq<Block<'a>>, es: Seq<SyntaxElement>)
    requires
        bs.len() == kept(es).len(),
        forall|i: int|
            0 <= i < bs.len() ==> (#[trigger] bs[i]).element == kept(es)[i] && bs[i].mirrors(),
    ensures
        texts_of(flat_seq(bs).filter(|b: Block<'a>| is_token_block(b))) == seq_tokens(es),
    decreases es,
{
    let p = |b: Block<'a>| is_token_block(b);
    if es.len() == 0 {
        lemma_kept_empty(es);
        reveal_with_fuel(Seq::filter, 1);
        assert(texts_of(flat_seq(bs).filter(p)) =~= Seq::<Seq<char>>::empty());
    } else {
        let last = es[es.len() - 1];
        let rest = es.drop_last();
        assert(rest.push(last) =~= es);
        lemma_kept_push(rest, last);
        if is_whitespace_token(last) {
            lemma_tokens_mirror(bs, rest);
        } else {
            let b = bs[bs.len() - 1];
            let bs0 = bs.drop_last();
            assert(bs0.len() == kept(rest).len());
            assert forall|i: int| 0 <= i < bs0.len() implies (#[trigger] bs0[i]).element == kept(rest)[i]
                && bs0[i].mirrors() by {
                assert(bs0[i] == bs[i]);
            }
            lemma_tokens_mirror(bs0, rest);
            assert(b.element == last);
            assert(b.mirrors());
            Seq::filter_distributes_over_add(flat_seq(bs0) + seq![b], flat_seq(b.children@), p);
            Seq::filter_distributes_over_add(flat_seq(bs0), seq![b], p);
            lemma_filter_single(b, p);
            match last {
                SyntaxElement::Token { text, .. } => {
                    lemma_kept_empty(element_children(last));
                    assert(b.children@.len() == 0);
                    assert(flat_seq(b.children@) =~= Seq::<Block<'a>>::empty());
                    reveal_with_fuel(Seq::filter, 1);
                    assert(texts_of(flat_seq(bs).filter(p)) =~= seq_tokens(rest) + seq![text@]);
                },
                SyntaxElement::Node { children, .. } => {
                    assert(decreases_to!(es => es[es.len() - 1]));
                    assert(decreases_to!(last => last->Node_children));
                    assert(decreases_to!(last->Node_children => children@));
                    assert forall|i: int| 0 <= i < b.children@.len() implies
                        (#[trigger] b.children@[i]).element == kept(children@)[i]
                        && b.children@[i].mirrors() by {}
                    lemma_tokens_mirror(b.children@, children@);
                    assert(texts_of(flat_seq(bs).filter(p)) =~= seq_tokens(rest) + seq_tokens(children@));
                },
            }
        }
    }
}

/// The traversals of a block are one order filtered four ways: the walk
/// without the root is the full walk after its first block, the token walk
/// keeps its token blocks, and the node walk keeps its node blocks. So two
/// traversals never disagree on the order of blocks they both visit.
pub proof fn lemma_traversals_agree<'a>(b: Block<'a>)
    ensures
        b.flat_inc()[0] == b,
        b.flat_exc() == b.flat_inc().drop_first(),
        b.flat_tokens() == b.flat_inc().drop_first().filter(|x: Block<'a>| is_token_block(x)),
        b.flat_nodes() == b.flat_inc().filter(|x: Block<'a>| is_node_block(x)),
        is_node_block(b) ==> b.flat_tokens() == b.flat_inc().filter(
            |x: Block<'a>| is_token_block(x),
        ),
{
    let p = |x: Block<'a>| is_token_block(x);
    assert(b.flat_inc().drop_first() =~= b.flat_exc());
    Seq::filter_distributes_over_add(seq![b], b.flat_exc(), p);
    lemma_filter_single(b, p);
    if is_node_block(b) {
        assert(seq![b].filter(p) + b.flat_exc().filter(p) =~= b.flat_exc().filter(p));
    }
}

/// `x` comes before `y` in the source, or `y` lies inside the node `x`.
pub open spec fn precedes<'a>(x: Block<'a>, y: Block<'a>) -> bool {
    ||| x.range.end <= y.range.start
    ||| (x.element is Node && x.range.start <= y.range.start && y.range.end <= x.range.end)
}

proof fn lemma_flat_bounds<'a>(s: Seq<Block<'a>>, lo: u32, hi: u32)
    requires
        forall|i: int|
            0 <= i < s.len() ==> (#[trigger] s[i]).nested() && lo <= s[i].range.start && s[i].range.end
                <= hi,
    ensures
        forall|k: int|
            0 <= k < flat_seq(s).len() ==> {
                &&& lo <= (#[trigger] flat_seq(s)[k]).range.start
                &&& flat_seq(s)[k].range.start <= flat_seq(s)[k].range.end
                &&& flat_seq(s)[k].range.end <= hi
            },
    decreases s,
{
    if s.len() > 0 {
        let l = s[s.len() - 1];
        let s0 = s.drop_last();
        assert forall|i: int| 0 <= i < s0.len() implies (#[trigger] s0[i]).nested() && lo
            <= s0[i].range.start && s0[i].range.end <= hi by {
            assert(s0[i] == s[i]);
        }
        lemma_flat_bounds(s0, lo, hi);
        assert(l.nested());
        lemma_flat_bounds(l.children@, l.range.start, l.range.end);
        let a = flat_seq(s0);
        let c = flat_seq(l.children@);
        assert(flat_seq(s) == a + seq![l] + c);
        assert forall|k: int| 0 <= k < flat_seq(s).len() implies {
            &&& lo <= (#[trigger] flat_seq(s)[k]).range.start
            &&& flat_seq(s)[k].range.start <= flat_seq(s)[k].range.end
            &&& flat_seq(s)[k].range.end <= hi
        } by {
            if k < a.len() {
                assert(flat_seq(s)[k] == a[k]);
            } else if k == a.len() {
                assert(flat_seq(s)[k] == l);
            } else {
                assert(flat_seq(s)[k] == c[k - a.len() - 1]);
            }
        }
    }
}

proof fn lemma_flat_order<'a>(s: Seq<Block<'a>>)
    requires
        forall|i: int| 0 <= i < s.len() ==> (#[trigger] s[i]).nested(),
        forall|i: int, j: int| 0 <= i < j < s.len() ==> (#[trigger] s[i]).range.end <= (#[trigger] s[j]).range.start,
    ensures
        forall|i: int, j: int|
            0 <= i < j < flat_seq(s).len() ==> precedes(#[trigger] flat_seq(s)[i], #[trigger] flat_seq(s)[j]),
    decreases s,
{
    if s.len() > 0 {
        let l = s[s.len() - 1];
        let s0 = s.drop_last();
        assert forall|i: int| 0 <= i < s0.len() implies (#[trigger] s0[i]).nested() && 0
            <= s0[i].range.start && s0[i].range.end <= l.range.start by {
            assert(s0[i] == s[i]);
        }
        assert forall|i: int, j: int| 0 <= i < j < s0.len() implies (#[trigger] s0[i]).range.end
            <= (#[trigger] s0[j]).range.start by {
            assert(s0[i] == s[i] && s0[j] == s[j]);
        }
        lemma_flat_order(s0);
        lemma_flat_bounds(s0, 0, l.range.start);
        assert(l.nested());
        lemma_flat_order(l.children@);
        lemma_flat_bounds(l.children@, l.range.start, l.range.end);
        let a = flat_seq(s0);
        let c = flat_seq(l.children@);
        let f = flat_seq(s);
        assert(f == a + seq![l] + c);
        assert(c.len() > 0 ==> l.children@.len() > 0);
        assert forall|i: int, j: int| 0 <= i < j < f.len() implies precedes(
            #[trigger] f[i],
            #[trigger] f[j],
        ) by {
            if j < a.len() {
                assert(f[i] == a[i] && f[j] == a[j]);
            } else if i < a.len() {
                assert(f[i] == a[i]);
                if j == a.len() {
                    assert(f[j] == l);
                } else {
                    assert(f[j] == c[j - a.len() - 1]);
                }
            } else if i == a.len() {
                assert(f[i] == l);
                assert(f[j] == c[j - a.len() - 1]);
            } else {
                assert(f[i] == c[i - a.len() - 1] && f[j] == c[j - a.len() - 1]);
            }
        }
    }
}

proof fn lemma_filter_pairwise<A>(s: Seq<A>, p: spec_fn(A) -> bool, rel: spec_fn(A, A) -> bool)
    requires
        forall|i: int, j: int| 0 <= i < j < s.len() ==> rel(#[trigger] s[i], #[trigger] s[j]),
    ensures
        forall|i: int, j: int|
            0 <= i < j < s.filter(p).len() ==> rel(#[trigger] s.filter(p)[i], #[trigger] s.filter(p)[j]),
    decreases s.len(),
{
    reveal_with_fuel(Seq::filter, 1);
    if s.len() > 0 {
        let s0 = s.drop_last();
        assert forall|i: int, j: int| 0 <= i < j < s0.len() implies rel(#[trigger] s0[i], #[trigger] s0[j]) by {
            assert(s0[i] == s[i] && s0[j] == s[j]);
        }
        lemma_filter_pairwise(s0, p, rel);
        let f0 = s0.filter(p);
        if p(s.last()) {
            assert forall|i: int, j: int| 0 <= i < j < s.filter(p).len() implies rel(
                #[trigger] s.filter(p)[i],
                #[trigger] s.filter(p)[j],
            ) by {
                if j == f0.len() {
                    assert(f0.contains(f0[i]));
                    s0.lemma_filter_contains_rev(p, f0[i]);
                    let k = choose|k: int| 0 <= k < s0.len() && s0[k] == f0[i];
                    assert(s[k] == f0[i]);
                    assert(rel(s[k], s[s.len() - 1]));
                } else {
                    assert(s.filter(p)[i] == f0[i] && s.filter(p)[j] == f0[j]);
                }
            }
        }
    }
}

proof fn lemma_flat_no_whitespace<'a>(s: Seq<Block<'a>>)
    requires
        forall|i: int|
            0 <= i < s.len() ==> (#[trigger] s[i]).mirrors() && !is_whitespace_token(*s[i].element),
    ensures
        forall|k: int|
            0 <= k < flat_seq(s).len() ==> !is_whitespace_token(*(#[trigger] flat_seq(s)[k]).element),
    decreases s,
{
    if s.len() > 0 {
        let l = s[s.len() - 1];
        let s0 = s.drop_last();
        assert forall|i: int| 0 <= i < s0.len() implies (#[trigger] s0[i]).mirrors()
            && !is_whitespace_token(*s0[i].element) by {
            assert(s0[i] == s[i]);
        }
        lemma_flat_no_whitespace(s0);
        assert(l.mirrors());
        assert forall|i: int| 0 <= i < l.children@.len() implies (#[trigger] l.children@[i]).mirrors()
            && !is_whitespace_token(*l.children@[i].element) by {
            element_children(*l.element).lemma_filter_pred(
                |e: SyntaxElement| !is_whitespace_token(e),
                i,
            );
        }
        lemma_flat_no_whitespace(l.children@);
        let a = flat_seq(s0);
        let c = flat_seq(l.children@);
        assert(flat_seq(s) == a + seq![l] + c);
        assert forall|k: int| 0 <= k < flat_seq(s).len() implies !is_whitespace_token(
            *(#[trigger] flat_seq(s)[k]).element,
        ) by {
            if k < a.len() {
                assert(flat_seq(s)[k] == a[k]);
            } else if k > a.len() {
                assert(flat_seq(s)[k] == c[k - a.len() - 1]);
            }
        }
    }
}

/// A block that mirrors its element has no block for a whitespace token
/// under it: such a token is never part of a walk, and so never emitted.
pub proof fn lemma_no_whitespace_blocks<'a>(b: Block<'a>)
    requires
        b.mirrors(),
    ensures
        forall|k: int|
            0 <= k < b.flat_exc().len() ==> !is_whitespace_token(*(#[trigger] b.flat_exc()[k]).element),
{
    assert forall|i: int| 0 <= i < b.children@.len() implies (#[trigger] b.children@[i]).mirrors()
        && !is_whitespace_token(*b.children@[i].element) by {
        element_children(*b.element).lemma_filter_pred(|e: SyntaxElement| !is_whitespace_token(e), i);
    }
    lemma_flat_no_whitespace(b.children@);
}

/// In a nested tree, every walk follows the source: the full walk goes by
/// where ranges start, token ranges come one after the other without
/// overlap, and so the last token starts last.
pub proof fn lemma_walks_follow_source<'a>(b: Block<'a>)
    requires
        b.nested(),
    ensures
        forall|i: int, j: int|
            0 <= i < j < b.flat_inc().len() ==> (#[trigger] b.flat_inc()[i]).range.start
                <= (#[trigger] b.flat_inc()[j]).range.start,
        forall|i: int, j: int|
            0 <= i < j < b.flat_tokens().len() ==> (#[trigger] b.flat_tokens()[i]).range.end
                <= (#[trigger] b.flat_tokens()[j]).range.start,
        b.flat_tokens().len() > 0 ==> forall|i: int|
            0 <= i < b.flat_tokens().len() ==> (#[trigger] b.flat_tokens()[i]).range.start
                <= b.flat_tokens().last().range.start,
{
    let cs = b.children@;
    let f = flat_seq(cs);
    lemma_flat_order(cs);
    lemma_flat_bounds(cs, b.range.start, b.range.end);
    let inc = b.flat_inc();
    assert(inc == seq![b] + f);
    assert forall|i: int, j: int| 0 <= i < j < inc.len() implies (#[trigger] inc[i]).range.start
        <= (#[trigger] inc[j]).range.start by {
        assert(inc[j] == f[j - 1]);
        if i > 0 {
            assert(inc[i] == f[i - 1]);
            assert(precedes(f[i - 1], f[j - 1]));
        }
    }
    let p = |x: Block<'a>| is_token_block(x);
    let rel = |x: Block<'a>, y: Block<'a>| precedes(x, y) && x.range.start <= x.range.end;
    assert forall|i: int, j: int| 0 <= i < j < f.len() implies rel(#[trigger] f[i], #[trigger] f[j]) by {}
    lemma_filter_pairwise(f, p, rel);
    let t = b.flat_tokens();
    assert forall|i: int, j: int| 0 <= i < j < t.len() implies (#[trigger] t[i]).range.end
        <= (#[trigger] t[j]).range.start by {
        assert(rel(t[i], t[j]));
        f.lemma_filter_pred(p, i);
    }
    assert forall|i: int| 0 <= i < t.len() implies (#[trigger] t[i]).range.start <= t.last().range.start by {
        if i < t.len() - 1 {
            assert(rel(t[i], t[t.len() - 1]));
        }
    }
}

impl<'a> Block<'a> {
    /// Builds the block of `element` and, recursively, of its children that
    /// are not whitespace tokens. Every record starts unset.
    pub fn build_block(element: &'a SyntaxElement) -> (r: Block<'a>)
        ensures
            r.element == element,
            r.mirrors(),
            r.fresh(),
            well_formed(*element) ==> r.nested(),
        decreases *element,
    {
        let mut children: Vec<Block<'a>> = Vec::new();
        match element {
            SyntaxElement::Node { children: cs, .. } => {
                let mut i: usize = 0;
                while i < cs.len()
                    invariant
                        i <= cs@.len(),
                        *element is Node,
                        (*element)->Node_children == *cs,
                        children@.len() == kept(cs@.take(i as int)).len(),
                        forall|j: int|
                            0 <= j < children@.len() ==> {
                                &&& #[trigger] children@[j].element == kept(cs@.take(i as int))[j]
                                &&& children@[j].mirrors()
                            },
                        forall|j: int| 0 <= j < children@.len() ==> (#[trigger] children@[j]).fresh(),
                        well_formed(*element) ==> {
                            &&& forall|j: int|
                                0 <= j < children@.len() ==> {
                                    &&& element_range(*element).start <= (#[trigger] children@[j]).range.start
                                    &&& children@[j].range.end <= element_range(*element).end
                                    &&& children@[j].nested()
                                    &&& forall|m: int| i <= m < cs@.len() ==> children@[j].range.end
                                        <= element_range(#[trigger] cs@[m]).start
                                }
                            &&& forall|j: int, l: int|
                                0 <= j < l < children@.len() ==> (#[trigger] children@[j]).range.end
                                    <= (#[trigger] children@[l]).range.start
                        },
                    decreases cs@.len() - i,
                {
                    let c: &'a SyntaxElement = &cs[i];
                    proof {
                        lemma_kept_push(cs@.take(i as int), *c);
                        assert(cs@.take(i as int).push(*c) =~= cs@.take(i as int + 1));
                    }
                    if !c.is_whitespace() {
                        proof {
                            assert(decreases_to!(*element => (*element)->Node_children));
                            assert(decreases_to!(*cs => cs@));
                            assert(decreases_to!(cs@ => cs@[i as int]));
                        }
                        let b = Block::build_block(c);
                        let ghost before = children@;
                        children.push(b);
                        proof {
                            if well_formed(*element) {
                                assert(well_formed(cs@[i as int]));
                                assert(children@[children@.len() - 1] == b);
                                assert forall|j: int, l: int|
                                    0 <= j < l < children@.len() implies (#[trigger] children@[j]).range.end
                                    <= (#[trigger] children@[l]).range.start by {
                                    if l == children@.len() - 1 {
                                        assert(children@[j] == before[j]);
                                        assert(element_range(cs@[i as int]) == b.range);
                                    } else {
                                        assert(children@[j] == before[j] && children@[l] == before[l]);
                                    }
                                }
                                assert forall|j: int| 0 <= j < children@.len() implies {
                                    &&& element_range(*element).start <= (#[trigger] children@[j]).range.start
                                    &&& children@[j].range.end <= element_range(*element).end
                                    &&& children@[j].nested()
                                    &&& forall|m: int| i + 1 <= m < cs@.len() ==> children@[j].range.end
                                        <= element_range(#[trigger] cs@[m]).start
                                } by {
                                    if j < children@.len() - 1 {
                                        assert(children@[j] == before[j]);
                                    } else {
                                        assert forall|m: int| i + 1 <= m < cs@.len() implies children@[j].range.end
                                            <= element_range(#[trigger] cs@[m]).start by {
                                            assert(element_range(cs@[i as int]).end <= element_range(cs@[m]).start);
                                        }
                                    }
                                }
                            }
                        }
                    }
                    i = i + 1;
                }
                assert(cs@.take(i as int) =~= cs@);
            },
            SyntaxElement::Token { .. } => {},
        }
        let text = element.text();
        let range = element.text_range();
        let whitespace = Whitespace::new();
        let indentation = Indentation::new();
        Block { element, children, text, range, whitespace, indentation }
    }

    /// All blocks under this one, each before its children, in order.
    fn order_flatten_blocks_exc_root<'t>(&'t self) -> (r: Vec<&'t Block<'a>>)
        ensures
            blocks_of(r@) == self.flat_exc(),
        decreases *self,
    {
        let mut blocks: Vec<&'t Block<'a>> = Vec::new();
        let mut i: usize = 0;
        while i < self.children.len()
            invariant
                i <= self.children@.len(),
                blocks_of(blocks@) == flat_seq(self.children@.take(i as int)),
            decreases self.children@.len() - i,
        {
            let blk: &'t Block<'a> = &self.children[i];
            proof {
                assert(decreases_to!(*self => self.children));
                assert(decreases_to!(self.children => self.children@));
                assert(decreases_to!(self.children@ => self.children@[i as int]));
                assert(self.children@.take(i as int + 1).drop_last() =~= self.children@.take(i as int));
            }
            let ghost before = blocks@;
            blocks.push(blk);
            let mut kids = blk.order_flatten_blocks_exc_root();
            let ghost below = kids@;
            blocks.append(&mut kids);
            assert(blocks_of(blocks@) =~= blocks_of(before) + seq![*blk] + blocks_of(below));
            i = i + 1;
        }
        assert(self.children@.take(i as int) =~= self.children@);
        blocks
    }

    /// This block and all blocks under it, each before its children, in order.
    fn order_flatten_blocks_inc<'t>(&'t self) -> (r: Vec<&'t Block<'a>>)
        ensures
            blocks_of(r@) == self.flat_inc(),
    {
        let mut blocks: Vec<&'t Block<'a>> = Vec::new();
        blocks.push(self);
        let mut kids = self.order_flatten_blocks_exc_root();
        let ghost below = kids@;
        blocks.append(&mut kids);
        assert(blocks_of(blocks@) =~= seq![*self] + blocks_of(below));
        blocks
    }

    /// The token blocks under this one, in source order.
    fn order_flatten_blocks_tokens<'t>(&'t self) -> (r: Vec<&'t Block<'a>>)
        ensures
            blocks_of(r@) == self.flat_tokens(),
        decreases *self,
    {
        let mut blocks: Vec<&'t Block<'a>> = Vec::new();
        let mut i: usize = 0;
        while i < self.children.len()
            invariant
                i <= self.children@.len(),
                blocks_of(blocks@) == flat_seq(self.children@.take(i as int)).filter(
                    |b: Block<'a>| is_token_block(b),
                ),
            decreases self.children@.len() - i,
        {
            let blk: &'t Block<'a> = &self.children[i];
            let ghost pre = flat_seq(self.children@.take(i as int));
            proof {
                assert(decreases_to!(*self => self.children));
                assert(decreases_to!(self.children => self.children@));
                assert(decreases_to!(self.children@ => self.children@[i as int]));
                assert(self.children@.take(i as int + 1).drop_last() =~= self.children@.take(i as int));
                let p = |b: Block<'a>| is_token_block(b);
                Seq::filter_distributes_over_add(pre + seq![*blk], blk.flat_exc(), p);
                Seq::filter_distributes_over_add(pre, seq![*blk], p);
                lemma_filter_single(*blk, p);
            }
            let ghost before = blocks@;
            if blk.element.is_token() {
                blocks.push(blk);
            }
            let mut kids = blk.order_flatten_blocks_tokens();
            let ghost below = kids@;
            blocks.append(&mut kids);
            assert(blocks_of(blocks@) =~= blocks_of(before) + seq![*blk].filter(
                |b: Block<'a>| is_token_block(b),
            ) + blocks_of(below));
            i = i + 1;
        }
        assert(self.children@.take(i as int) =~= self.children@);
        blocks
    }

    /// This block, if it stands for a node, and the node blocks under it, each
    /// before its children, in order.
    fn order_flatten_blocks_nodes<'t>(&'t self) -> (r: Vec<&'t Block<'a>>)
        ensures
            blocks_of(r@) == self.flat_nodes(),
        decreases *self,
    {
        let mut blocks: Vec<&'t Block<'a>> = Vec::new();
        let ghost p = |b: Block<'a>| is_node_block(b);
        if self.element.is_token() {
            proof {
                lemma_filter_single(*self, p);
            }
        } else {
            blocks.push(self);
            proof {
                lemma_filter_single(*self, p);
            }
            assert(blocks_of(blocks@) =~= seq![*self]);
        }
        let mut i: usize = 0;
        while i < self.children.len()
            invariant
                i <= self.children@.len(),
                p == (|b: Block<'a>| is_node_block(b)),
                blocks_of(blocks@) == (seq![*self] + flat_seq(self.children@.take(i as int))).filter(p),
            decreases self.children@.len() - i,
        {
            let blk: &'t Block<'a> = &self.children[i];
            let ghost pre = seq![*self] + flat_seq(self.children@.take(i as int));
            proof {
                assert(decreases_to!(*self => self.children));
                assert(decreases_to!(self.children => self.children@));
                assert(decreases_to!(self.children@ => self.children@[i as int]));
                assert(self.children@.take(i as int + 1).drop_last() =~= self.children@.take(i as int));
                assert(seq![*self] + flat_seq(self.children@.take(i as int + 1))
                    =~= pre + blk.flat_inc());
                Seq::filter_distributes_over_add(pre, blk.flat_inc(), p);
            }
            let ghost before = blocks@;
            let mut kids = blk.order_flatten_blocks_nodes();
            let ghost below = kids@;
            blocks.append(&mut kids);
            assert(blocks_of(blocks@) =~= blocks_of(before) + blocks_of(below));
            i = i + 1;
        }
        assert(self.children@.take(i as int) =~= self.children@);
        blocks
    }

    /// The text range of the element.
    pub fn text_range(&self) -> (r: TextRange)
        ensures
            r == self.range,
    {
        self.range
    }

    /// The child blocks, in source order.
    pub fn children(&self) -> (r: &Vec<Block<'a>>)
        ensures
            r == self.children,
    {
        &self.children
    }

    /// The kind of the element.
    pub fn kind(&self) -> (r: u16)
        ensures
            r == element_kind(*self.element),
    {
        self.element.kind()
    }

    /// The element this block stands for.
    pub fn as_element(&self) -> (r: &'a SyntaxElement)
        ensures
            r == self.element,
    {
        self.element
    }

    /// The cached text of the element.
    pub fn as_str(&self) -> (r: &str)
        ensures
            r@ == self.text@,
    {
        self.text.as_str()
    }

    /// The spacing record of this block.
    pub fn get_spacing(&self) -> (r: Whitespace)
        ensures
            r == self.whitespace,
    {
        self.whitespace
    }

    /// The indentation record of this block.
    pub fn get_indent(&self) -> (r: Indentation)
        ensures
            r == self.indentation,
    {
        self.indentation
    }

    /// Replaces the spacing record; nothing else changes.
    pub fn set_spacing(&mut self, whitespace: Whitespace)
        ensures
            *final(self) == (Block { whitespace, ..*old(self) }),
    {
        self.whitespace = whitespace;
    }

    /// Replaces the indentation record; nothing else changes.
    pub fn set_indent(&mut self, indentation: Indentation)
        ensures
            *final(self) == (Block { indentation, ..*old(self) }),
    {
        self.indentation = indentation;
    }

    /// Spaces wanted before and after the token.
    pub fn space_value(&self) -> (r: (u32, u32))
        ensures
            r == self.whitespace.locations,
    {
        self.whitespace.locations
    }

    /// Whether line breaks are wanted before and after the token.
    pub fn eol_value(&self) -> (r: (bool, bool))
        ensures
            r == self.whitespace.new_line,
    {
        self.whitespace.new_line
    }

    /// Walks this block and every block under it.
    pub fn traverse_inc<'t>(&'t self) -> (r: Traversal<'t, 'a>)
        ensures
            r.remaining() == self.flat_inc(),
            r.idx == 0,
    {
        Traversal { blocks: self.order_flatten_blocks_inc(), idx: 0 }
    }

    /// Walks every block under this one.
    pub fn traverse_exc<'t>(&'t self) -> (r: Traversal<'t, 'a>)
        ensures
            r.remaining() == self.flat_exc(),
            r.idx == 0,
    {
        Traversal { blocks: self.order_flatten_blocks_exc_root(), idx: 0 }
    }

    /// Walks the token blocks under this one.
    pub fn traverse_tokens<'t>(&'t self) -> (r: Traversal<'t, 'a>)
        ensures
            r.remaining() == self.flat_tokens(),
            r.idx == 0,
    {
        Traversal { blocks: self.order_flatten_blocks_tokens(), idx: 0 }
    }

    /// Walks this block, if it is a node, and the node blocks under it.
    pub fn traverse_nodes<'t>(&'t self) -> (r: Traversal<'t, 'a>)
        ensures
            r.remaining() == self.flat_nodes(),
            r.idx == 0,
    {
        Traversal { blocks: self.order_flatten_blocks_nodes(), idx: 0 }
    }

    /// The block and every block under it, each before its children.
    pub open spec fn flat_inc(self) -> Seq<Block<'a>> {
        seq![self] + flat_seq(self.children@)
    }

    /// Every block under this one, each before its children.
    pub open spec fn flat_exc(self) -> Seq<Block<'a>> {
        flat_seq(self.children@)
    }

    /// The token blocks under this one, in source order.
    pub open spec fn flat_tokens(self) -> Seq<Block<'a>> {
        self.flat_exc().filter(|b: Block<'a>| is_token_block(b))
    }

    /// This block, if it stands for a node, and the node blocks under it.
    pub open spec fn flat_nodes(self) -> Seq<Block<'a>> {
        self.flat_inc().filter(|b: Block<'a>| is_node_block(b))
    }

    /// The block mirrors its element: range and text are the element's, and
    /// there is one child block, in order, for each child of the element that
    /// is not a whitespace token.
    pub open spec fn mirrors(self) -> bool
        decreases self,
    {
        let kids = kept(element_children(*self.element));
        &&& self.range == element_range(*self.element)
        &&& self.text@ == element_text(*self.element)
        &&& self.children@.len() == kids.len()
        &&& forall|i: int|
            0 <= i < kids.len() ==> {
                &&& #[trigger] self.children@[i].element == kids[i]
                &&& self.children@[i].mirrors()
            }
    }

    /// The range of the block is not reversed; a token block has no
    /// children; a node block's children lie inside it, in source order,
    /// without overlap, and are nested themselves.
    pub open spec fn nested(self) -> bool
        decreases self,
    {
        &&& self.range.start <= self.range.end
        &&& self.element is Token ==> self.children@.len() == 0
        &&& forall|i: int|
            0 <= i < self.children@.len() ==> {
                &&& self.range.start <= (#[trigger] self.children@[i]).range.start
                &&& self.children@[i].range.end <= self.range.end
                &&& self.children@[i].nested()
            }
        &&& forall|i: int, j: int|
            0 <= i < j < self.children@.len() ==> (#[trigger] self.children@[i]).range.end
                <= (#[trigger] self.children@[j]).range.start
    }

    /// No rule has touched the records of this block or of any under it.
    pub open spec fn fresh(self) -> bool
        decreases self,
    {
        &&& self.whitespace == Whitespace::unset()
        &&& self.indentation == Indentation::unset()
        &&& forall|i: int|
            0 <= i < self.children@.len() ==> (#[trigger] self.children@[i]).fresh()
    }
}

} // verus!
