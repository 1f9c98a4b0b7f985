//! The edit tree and the rendering of its tokens back into text.
use vstd::prelude::*;
use crate::syntax::{SyntaxElement, seq_tokens, element_children, well_formed};
use crate::block::{
    Block, Traversal, blocks_of, texts_of, kept, lemma_tokens_mirror, lemma_walks_follow_source,
};
use crate::text::{spaces, push_char, push_spaces};

verus! {

/// A line break followed by the indentation of the block that comes after it.
pub open spec fn line_break<'a>(b: Block<'a>) -> Seq<char> {
    seq!['\n'] + spaces(b.indentation.width())
}

/// What a token asks for before itself: a line break, or its leading spaces.
pub open spec fn leading<'a>(b: Block<'a>) -> Seq<char> {
    if b.whitespace.new_line.0 {
        line_break(b)
    } else {
        spaces(b.whitespace.locations.0 as nat)
    }
}

/// Whether the separator between `a` and the token `b` after it comes from
/// `a`'s trailing side: `a` asks for spaces where `b` asks for none, or `a`
/// asks for a line break that `b` does not.
pub open spec fn trailing_wins<'a>(a: Block<'a>, b: Block<'a>) -> bool {
    ||| (b.whitespace.locations.0 == 0 && a.whitespace.locations.1 > 0)
    ||| (a.whitespace.new_line.1 && !b.whitespace.new_line.0)
}

/// What `a`'s trailing side emits before `b`, where it wins.
pub open spec fn trailing<'a>(a: Block<'a>, b: Block<'a>) -> Seq<char> {
    if b.whitespace.locations.0 == 0 && a.whitespace.locations.1 > 0 {
        spaces(a.whitespace.locations.1 as nat)
    } else if a.whitespace.new_line.1 && !b.whitespace.new_line.0 {
        line_break(b)
    } else {
        Seq::empty()
    }
}

/// The one separator between adjacent tokens `a` and `b`.
pub open spec fn boundary<'a>(a: Block<'a>, b: Block<'a>) -> Seq<char> {
    if trailing_wins(a, b) {
        trailing(a, b)
    } else {
        leading(b)
    }
}

/// What the last token asks for after itself.
pub open spec fn closing<'a>(b: Block<'a>) -> Seq<char> {
    if b.whitespace.new_line.1 {
        seq!['\n']
    } else {
        spaces(b.whitespace.locations.1 as nat)
    }
}

/// The separator before token `i` of `toks`, or after the last one when
/// `i == toks.len()`.
pub open spec fn separator<'a>(toks: Seq<Block<'a>>, i: int) -> Seq<char> {
    if toks.len() == 0 {
        Seq::empty()
    } else if i == 0 {
        leading(toks[0])
    } else if i < toks.len() {
        boundary(toks[i - 1], toks[i])
    } else {
        closing(toks[toks.len() - 1])
    }
}

/// The first `k` tokens of `toks`, each after its separator.
pub open spec fn interleave<'a>(toks: Seq<Block<'a>>, k: nat) -> Seq<char>
    decreases k,
{
    if k == 0 {
        Seq::empty()
    } else {
        interleave(toks, (k - 1) as nat) + separator(toks, k - 1) + toks[k - 1].text@
    }
}

/// The text of a token sequence with every separator in place.
pub open spec fn render<'a>(toks: Seq<Block<'a>>) -> Seq<char> {
    interleave(toks, toks.len()) + separator(toks, toks.len() as int)
}

/// Whether a piece of text is made of spaces and line breaks only.
pub open spec fn is_blank(s: Seq<char>) -> bool {
    forall|k: int| 0 <= k < s.len() ==> #[trigger] s[k] == ' ' || s[k] == '\n'
}

/// The separators of a token sequence, one before each token and one after
/// the last.
pub open spec fn separators<'a>(toks: Seq<Block<'a>>) -> Seq<Seq<char>> {
    Seq::new(toks.len() + 1, |i: int| separator(toks, i))
}

/// `texts[0..k]`, each after its separator in `seps`.
pub open spec fn weave(seps: Seq<Seq<char>>, texts: Seq<Seq<char>>, k: nat) -> Seq<char>
    decreases k,
{
    if k == 0 {
        Seq::empty()
    } else {
        weave(seps, texts, (k - 1) as nat) + seps[k - 1] + texts[k - 1]
    }
}

proof fn lemma_separator_blank<'a>(toks: Seq<Block<'a>>, i: int)
    requires
        0 <= i <= toks.len(),
    ensures
        is_blank(separator(toks, i)),
{
}

proof fn lemma_interleave_weave<'a>(toks: Seq<Block<'a>>, k: nat)
    requires
        k <= toks.len(),
    ensures
        interleave(toks, k) == weave(separators(toks), texts_of(toks), k),
    decreases k,
{
    if k > 0 {
        lemma_interleave_weave(toks, (k - 1) as nat);
    }
}

/// Formatting keeps every token: the output is the texts of the tree's
/// non-whitespace tokens, unchanged and in order, with only spaces and line
/// breaks between them and after the last.
pub proof fn lemma_text_preserved<'a>(tree: EditTree<'a>)
    requires
        tree.wf(),
    ensures
        ({
            let seps = separators(tree.root.flat_tokens());
            let texts = seq_tokens(element_children(*tree.root.element));
            &&& seps.len() == texts.len() + 1
            &&& forall|i: int| 0 <= i < seps.len() ==> is_blank(#[trigger] seps[i])
            &&& tree.formatted() == weave(seps, texts, texts.len()) + seps[texts.len() as int]
        }),
{
    let toks = tree.root.flat_tokens();
    let root = tree.root;
    assert forall|i: int| 0 <= i < root.children@.len() implies
        (#[trigger] root.children@[i]).element == kept(element_children(*root.element))[i]
        && root.children@[i].mirrors() by {}
    lemma_tokens_mirror(root.children@, element_children(*root.element));
    assert forall|i: int| 0 <= i < separators(toks).len() implies is_blank(
        #[trigger] separators(toks)[i],
    ) by {
        lemma_separator_blank(toks, i);
    }
    lemma_interleave_weave(toks, toks.len());
}

/// Formatting depends only on the token sequence: two trees whose token
/// blocks agree in text and in their spacing and indentation records format
/// to the same text. A tree reparsed from formatted output with the same
/// token boundaries, under the same rules, thus formats the same again.
pub proof fn lemma_format_stable<'a, 'b>(t1: EditTree<'a>, t2: EditTree<'b>)
    requires
        t1.root.flat_tokens().len() == t2.root.flat_tokens().len(),
        forall|i: int|
            0 <= i < t1.root.flat_tokens().len() ==> {
                &&& (#[trigger] t1.root.flat_tokens()[i]).text@ == t2.root.flat_tokens()[i].text@
                &&& t1.root.flat_tokens()[i].whitespace == t2.root.flat_tokens()[i].whitespace
                &&& t1.root.flat_tokens()[i].indentation == t2.root.flat_tokens()[i].indentation
            },
    ensures
        t1.formatted() == t2.formatted(),
{
    let a = t1.root.flat_tokens();
    let b = t2.root.flat_tokens();
    assert(separators(a) =~= separators(b));
    assert(texts_of(a) =~= texts_of(b));
    lemma_interleave_weave(a, a.len());
    lemma_interleave_weave(b, b.len());
}

/// Between two adjacent tokens exactly one side supplies the separator: the
/// first token's trailing request where it wins by the precedence (spaces the
/// second does not ask for, then a line break the second does not ask for),
/// else the second token's leading request. A winning trailing side always
/// has something to emit, trailing spaces are emitted once, never added to
/// the other side's, and a boundary where either side asks for a space or a
/// line break is never left empty.
pub proof fn lemma_one_separator<'a>(toks: Seq<Block<'a>>, i: int)
    requires
        0 < i < toks.len(),
    ensures
        ({
            let a = toks[i - 1];
            let b = toks[i];
            &&& separator(toks, i) == boundary(a, b)
            &&& trailing_wins(a, b) ==> boundary(a, b) == trailing(a, b) && trailing(a, b).len() > 0
            &&& !trailing_wins(a, b) ==> boundary(a, b) == leading(b)
            &&& (b.whitespace.locations.0 == 0 && a.whitespace.locations.1 > 0) ==> boundary(a, b)
                == spaces(a.whitespace.locations.1 as nat)
            &&& (a.whitespace.locations.1 > 0 || a.whitespace.new_line.1 || b.whitespace.locations.0
                > 0 || b.whitespace.new_line.0) ==> boundary(a, b).len() > 0
        }),
{
}

/// Appends a line break and the indentation of `b`.
fn push_line_break<'a>(s: &mut String, b: &Block<'a>)
    ensures
        final(s)@ == old(s)@ + line_break(*b),
{
    let depth = b.indentation.depth as u64;
    let unit = b.indentation.unit as u64;
    assert(depth * unit <= 0xffff_ffff * 0xffff_ffff) by (nonlinear_arith)
        requires
            depth <= 0xffff_ffff,
            unit <= 0xffff_ffff,
    ;
    push_char(s, '\n');
    push_spaces(s, depth * unit);
    assert(s@ =~= old(s)@ + line_break(*b));
}

/// Appends `n` spaces, or a line break and the indentation of `b`.
fn push_leading<'a>(s: &mut String, b: &Block<'a>)
    ensures
        final(s)@ == old(s)@ + leading(*b),
{
    if b.whitespace.new_line.0 {
        push_line_break(s, b);
    } else {
        push_spaces(s, b.whitespace.locations.0 as u64);
    }
}

/// The text of one token after the separator that precedes it: its own
/// leading request for the first token, else the one that wins the boundary
/// with `prev`.
fn string_from_block<'a>(blk: &Block<'a>, prev: Option<&Block<'a>>) -> (r: String)
    ensures
        r@ == match prev {
            None => leading(*blk),
            Some(a) => boundary(*a, *blk),
        } + blk.text@,
{
    let mut ret = String::new();
    match prev {
        None => push_leading(&mut ret, blk),
        Some(a) => {
            let (_, a_next_space) = a.space_value();
            let (_, a_next_lf) = a.eol_value();
            let (blk_prev_space, _) = blk.space_value();
            let (blk_prev_lf, _) = blk.eol_value();
            if blk_prev_space == 0 && a_next_space > 0 {
                // the previous token asks for spaces and this one for none
                push_spaces(&mut ret, a_next_space as u64);
            } else if a_next_lf && !blk_prev_lf {
                // the previous token asks for a line break and this one does not
                push_line_break(&mut ret, blk);
            } else {
                push_leading(&mut ret, blk);
            }
        },
    }
    ret.append(blk.as_str());
    ret
}

/// The separator after the last token: its own trailing request.
fn string_after_last<'a>(blk: &Block<'a>) -> (r: String)
    ensures
        r@ == closing(*blk),
{
    let mut ret = String::new();
    if blk.whitespace.new_line.1 {
        push_char(&mut ret, '\n');
    } else {
        push_spaces(&mut ret, blk.whitespace.locations.1 as u64);
    }
    assert(ret@ =~= closing(*blk));
    ret
}

/// Renders a list of token blocks with their separators.
fn render_tokens<'t, 'a>(toks: &Vec<&'t Block<'a>>) -> (r: String)
    ensures
        r@ == render(blocks_of(toks@)),
{
    let ghost ts = blocks_of(toks@);
    let mut out = String::new();
    let mut i: usize = 0;
    while i < toks.len()
        invariant
            i <= toks@.len(),
            ts == blocks_of(toks@),
            out@ == interleave(ts, i as nat),
        decreases toks@.len() - i,
    {
        let prev = if i == 0 {
            None
        } else {
            Some(toks[i - 1])
        };
        let piece = string_from_block(toks[i], prev);
        out.append(piece.as_str());
        i = i + 1;
        assert(out@ =~= interleave(ts, i as nat));
    }
    if toks.len() > 0 {
        let last = string_after_last(toks[toks.len() - 1]);
        out.append(last.as_str());
    }
    assert(out@ =~= render(ts));
    out
}

/// The mirror of a whole syntax tree, whose blocks carry formatting state.
#[derive(Debug)]
pub struct EditTree<'a> {
    pub root: Block<'a>,
}

impl<'a> EditTree<'a> {
    /// The root stands for a node and mirrors it, all the way down.
    pub open spec fn wf(&self) -> bool {
        &&& self.root.element is Node
        &&& self.root.mirrors()
    }

    /// The text that `apply_edits` produces.
    pub open spec fn formatted(&self) -> Seq<char> {
        render(self.root.flat_tokens())
    }

    /// Builds the edit tree of the tree rooted at `root`, every record unset.
    pub fn new(root: &'a SyntaxElement) -> (r: EditTree<'a>)
        requires
            *root is Node,
        ensures
            r.root.element == root,
            r.wf(),
            r.root.fresh(),
            well_formed(*root) ==> r.root.nested(),
    {
        EditTree::build_tree(root)
    }

    fn build_tree(root: &'a SyntaxElement) -> (r: EditTree<'a>)
        requires
            *root is Node,
        ensures
            r.root.element == root,
            r.wf(),
            r.root.fresh(),
            well_formed(*root) ==> r.root.nested(),
    {
        let root = Block::build_block(root);
        EditTree { root }
    }

    /// The root block.
    pub fn root(&self) -> (r: &Block<'a>)
        ensures
            *r == self.root,
    {
        &self.root
    }

    /// The root block, for the pass that records spacing.
    pub fn root_mut(&mut self) -> (r: &mut Block<'a>)
        ensures
            *r == old(self).root,
            final(self).root == *final(r),
    {
        &mut self.root
    }

    /// The last token block, if there is a token.
    pub fn last_token<'t>(&'t self) -> (r: Option<&'t Block<'a>>)
        ensures
            self.root.flat_tokens().len() == 0 ==> r is None,
            self.root.flat_tokens().len() > 0 ==> r is Some && *r->0 == self.root.flat_tokens().last(),
            r is Some && self.root.nested() ==> forall|i: int|
                0 <= i < self.root.flat_tokens().len() ==> (#[trigger] self.root.flat_tokens()[i]).range.start
                    <= r->0.range.start,
    {
        proof {
            if self.root.nested() {
                lemma_walks_follow_source(self.root);
            }
        }
        let toks = self.walk_tokens().collect_remaining();
        if toks.len() == 0 {
            None
        } else {
            Some(toks[toks.len() - 1])
        }
    }

    /// Walks all blocks, the root first.
    pub fn walk<'t>(&'t self) -> (r: Traversal<'t, 'a>)
        ensures
            r.remaining() == self.root.flat_inc(),
            r.idx == 0,
    {
        self.root.traverse_inc()
    }

    /// Walks the token blocks.
    pub fn walk_tokens<'t>(&'t self) -> (r: Traversal<'t, 'a>)
        ensures
            r.remaining() == self.root.flat_tokens(),
            r.idx == 0,
    {
        self.root.traverse_tokens()
    }

    /// Walks the node blocks, the root first.
    pub fn walk_nodes<'t>(&'t self) -> (r: Traversal<'t, 'a>)
        ensures
            r.remaining() == self.root.flat_nodes(),
            r.idx == 0,
    {
        self.root.traverse_nodes()
    }

    /// Walks all blocks but the root.
    pub fn walk_exc_root<'t>(&'t self) -> (r: Traversal<'t, 'a>)
        ensures
            r.remaining() == self.root.flat_exc(),
            r.idx == 0,
    {
        self.root.traverse_exc()
    }

    /// The text of the whole tree as it was parsed.
    pub fn text(&self) -> (r: String)
        ensures
            r@ == self.root.text@,
    {
        self.root.text.clone()
    }

    /// Renders the tokens in source order, each with the one separator that
    /// wins at each boundary, and the last token's trailing request.
    pub fn apply_edits(&self) -> (r: String)
        requires
            self.wf(),
        ensures
            r@ == self.formatted(),
    {
        let toks = self.walk_tokens().collect_remaining();
        render_tokens(&toks)
    }
}

} // verus!
