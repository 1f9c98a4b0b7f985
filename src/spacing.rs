//! The pass that writes the rule resolver's decisions into the spacing
//! records of the token blocks.
use vstd::prelude::*;
use crate::block::{Block, is_token_block, flat_seq, lemma_traversals_agree};
use crate::edit_tree::EditTree;
use crate::whitespace::Whitespace;

verus! {

/// What the rules decide for the boundary between two adjacent tokens.
#[derive(Clone, Copy, Debug, PartialEq, Eq, Structural)]
pub enum SpaceValue {
    /// The tokens touch.
    NoSpace,
    /// This many spaces between them.
    Spaces(u32),
    /// A line break between them.
    Newline,
}

/// The spaces a decision asks for; where no rule matched, one.
pub open spec fn spaces_of(d: Option<SpaceValue>) -> u32 {
    match d {
        None => 1,
        Some(SpaceValue::NoSpace) => 0,
        Some(SpaceValue::Spaces(n)) => n,
        Some(SpaceValue::Newline) => 0,
    }
}

/// Whether a decision asks for a line break.
pub open spec fn breaks(d: Option<SpaceValue>) -> bool {
    d == Some(SpaceValue::Newline)
}

/// The record of token `k` once the decisions are in: its leading side takes
/// the decision for the boundary before it, its trailing side the one after
/// it; the first token's leading side and the last one's trailing side keep
/// what they held.
pub open spec fn spacing_at(w: Whitespace, dirs: Seq<Option<SpaceValue>>, k: int) -> Whitespace {
    Whitespace {
        locations: (
            if 0 < k { spaces_of(dirs[k - 1]) } else { w.locations.0 },
            if k < dirs.len() { spaces_of(dirs[k]) } else { w.locations.1 },
        ),
        new_line: (
            if 0 < k { breaks(dirs[k - 1]) } else { w.new_line.0 },
            if k < dirs.len() { breaks(dirs[k]) } else { w.new_line.1 },
        ),
    }
}

/// Token blocks `toks`, the first of them token number `t`, with the
/// decisions written into their records.
pub open spec fn respaced<'a>(toks: Seq<Block<'a>>, dirs: Seq<Option<SpaceValue>>, t: int) -> Seq<Block<'a>> {
    Seq::new(
        toks.len(),
        |i: int| Block { whitespace: spacing_at(toks[i].whitespace, dirs, t + i), ..toks[i] },
    )
}

/// The token blocks among a block and those under it.
pub open spec fn tokens_inc<'a>(b: Block<'a>) -> Seq<Block<'a>> {
    b.flat_inc().filter(|x: Block<'a>| is_token_block(x))
}

/// The decision for a boundary.
fn spaces_from(d: Option<SpaceValue>) -> (r: (u32, bool))
    ensures
        r == (spaces_of(d), breaks(d)),
{
    match d {
        None => (1, false),
        Some(SpaceValue::NoSpace) => (0, false),
        Some(SpaceValue::Spaces(n)) => (n, false),
        Some(SpaceValue::Newline) => (0, true),
    }
}

/// Writes the decisions into the record of token number `k`.
fn spacing_for(w: Whitespace, dirs: &Vec<Option<SpaceValue>>, k: usize) -> (r: Whitespace)
    requires
        k <= dirs@.len(),
    ensures
        r == spacing_at(w, dirs@, k as int),
{
    let mut r = w;
    if 0 < k {
        let (n, nl) = spaces_from(dirs[k - 1]);
        r.locations.0 = n;
        r.new_line.0 = nl;
    }
    if k < dirs.len() {
        let (n, nl) = spaces_from(dirs[k]);
        r.locations.1 = n;
        r.new_line.1 = nl;
    }
    r
}

proof fn lemma_flat_seq_add<'a>(a: Seq<Block<'a>>, b: Seq<Block<'a>>)
    ensures
        flat_seq(a + b) == flat_seq(a) + flat_seq(b),
    decreases b.len(),
{
    if b.len() == 0 {
        assert(a + b =~= a);
        assert(flat_seq(a) + flat_seq(b) =~= flat_seq(a));
    } else {
        let last = b[b.len() - 1];
        assert((a + b).drop_last() =~= a + b.drop_last());
        lemma_flat_seq_add(a, b.drop_last());
        assert(flat_seq(a + b) =~= flat_seq(a) + flat_seq(b));
    }
}

/// The tokens under the first `i + 1` of `cs` are those under the first `i`,
/// then those among `cs[i]` and the blocks under it.
proof fn lemma_tokens_step<'a>(cs: Seq<Block<'a>>, i: int)
    requires
        0 <= i < cs.len(),
    ensures
        flat_seq(cs.take(i + 1)).filter(|x: Block<'a>| is_token_block(x))
            == flat_seq(cs.take(i)).filter(|x: Block<'a>| is_token_block(x)) + tokens_inc(cs[i]),
        flat_seq(cs.take(i + 1)).filter(|x: Block<'a>| is_token_block(x)).len()
            <= flat_seq(cs).filter(|x: Block<'a>| is_token_block(x)).len(),
{
    let p = |x: Block<'a>| is_token_block(x);
    let c = cs[i];
    assert(cs.take(i + 1).drop_last() =~= cs.take(i));
    assert(flat_seq(cs.take(i + 1)) =~= flat_seq(cs.take(i)) + c.flat_inc());
    Seq::filter_distributes_over_add(flat_seq(cs.take(i)), c.flat_inc(), p);
    assert(cs =~= cs.take(i + 1) + cs.skip(i + 1));
    lemma_flat_seq_add(cs.take(i + 1), cs.skip(i + 1));
    Seq::filter_distributes_over_add(flat_seq(cs.take(i + 1)), flat_seq(cs.skip(i + 1)), p);
}

proof fn lemma_respaced_add<'a>(a: Seq<Block<'a>>, b: Seq<Block<'a>>, dirs: Seq<Option<SpaceValue>>, t: int)
    ensures
        respaced(a + b, dirs, t) == respaced(a, dirs, t) + respaced(b, dirs, t + a.len()),
{
    assert(respaced(a + b, dirs, t) =~= respaced(a, dirs, t) + respaced(b, dirs, t + a.len()));
}

/// Writes the decisions into the records of the token blocks among `b` and
/// the blocks under it, the first of them token number `t`; returns the
/// number of the token after them.
fn respace_block<'a>(b: &mut Block<'a>, dirs: &Vec<Option<SpaceValue>>, t: usize) -> (r: usize)
    requires
        old(b).mirrors(),
        t + tokens_inc(*old(b)).len() <= dirs@.len() + 1,
        dirs@.len() < usize::MAX,
    ensures
        final(b).mirrors(),
        final(b).element == old(b).element,
        r == t + tokens_inc(*old(b)).len(),
        tokens_inc(*final(b)) == respaced(tokens_inc(*old(b)), dirs@, t as int),
    decreases *old(b),
{
    let ghost p = |x: Block<'a>| is_token_block(x);
    proof {
        lemma_traversals_agree(*b);
    }
    if b.element.is_token() {
        assert(b.children@.len() == 0);
        assert(b.flat_inc() =~= seq![*b]);
        proof {
            crate::block::lemma_filter_single(*b, p);
        }
        let w = spacing_for(b.whitespace, dirs, t);
        b.whitespace = w;
        proof {
            assert(b.flat_inc() =~= seq![*b]);
            crate::block::lemma_filter_single(*b, p);
            assert(tokens_inc(*b) =~= respaced(tokens_inc(*old(b)), dirs@, t as int));
        }
        t + 1
    } else {
        let ghost cs = b.children@;
        let mut k: usize = t;
        let mut i: usize = 0;
        while i < b.children.len()
            invariant
                p == (|x: Block<'a>| is_token_block(x)),
                cs == old(b).children@,
                b.children@.len() == cs.len(),
                i <= cs.len(),
                b.element == old(b).element,
                b.text == old(b).text,
                b.range == old(b).range,
                b.whitespace == old(b).whitespace,
                b.indentation == old(b).indentation,
                old(b).mirrors(),
                t + tokens_inc(*old(b)).len() <= dirs@.len() + 1,
                dirs@.len() < usize::MAX,
                tokens_inc(*old(b)) == flat_seq(cs).filter(p),
                forall|j: int| i <= j < cs.len() ==> #[trigger] b.children@[j] == cs[j],
                forall|j: int|
                    0 <= j < i ==> (#[trigger] b.children@[j]).mirrors() && b.children@[j].element
                        == cs[j].element,
                k == t + flat_seq(cs.take(i as int)).filter(p).len(),
                flat_seq(b.children@.take(i as int)).filter(p) == respaced(
                    flat_seq(cs.take(i as int)).filter(p),
                    dirs@,
                    t as int,
                ),
            decreases cs.len() - i,
        {
            proof {
                lemma_tokens_step(cs, i as int);
                assert(decreases_to!(*old(b) => old(b).children));
                assert(decreases_to!(old(b).children => old(b).children@));
                assert(decreases_to!(old(b).children@ => old(b).children@[i as int]));
            }
            let ghost before = b.children@;
            let mut c = b.children.remove(i);
            assert(c == cs[i as int]);
            k = respace_block(&mut c, dirs, k);
            b.children.insert(i, c);
            proof {
                assert(b.children@ =~= before.update(i as int, c));
                lemma_tokens_step(b.children@, i as int);
                assert(b.children@.take(i as int) =~= before.take(i as int));
                lemma_respaced_add(
                    flat_seq(cs.take(i as int)).filter(p),
                    tokens_inc(cs[i as int]),
                    dirs@,
                    t as int,
                );
            }
            i = i + 1;
        }
        proof {
            assert(b.children@.take(i as int) =~= b.children@);
            assert(cs.take(i as int) =~= cs);
            lemma_traversals_agree(*b);
            assert forall|j: int| 0 <= j < b.children@.len() implies
                (#[trigger] b.children@[j]).element == crate::block::kept(
                    crate::syntax::element_children(*b.element),
                )[j] && b.children@[j].mirrors() by {
                assert(old(b).children@[j].element == crate::block::kept(
                    crate::syntax::element_children(*old(b).element),
                )[j]);
            }
        }
        k
    }
}

impl<'a> EditTree<'a> {
    /// Writes the rules' decisions into the token records: `dirs[i]` is the
    /// decision for the boundary between token `i` and token `i + 1`, `None`
    /// where no rule matched. Each token's leading side takes the decision
    /// before it and its trailing side the one after it.
    pub fn apply_spacing(&mut self, dirs: &Vec<Option<SpaceValue>>)
        requires
            old(self).wf(),
            old(self).root.flat_tokens().len() <= dirs@.len() + 1,
            dirs@.len() < usize::MAX,
        ensures
            final(self).wf(),
            final(self).root.element == old(self).root.element,
            final(self).root.flat_tokens() == respaced(old(self).root.flat_tokens(), dirs@, 0),
    {
        proof {
            lemma_traversals_agree(self.root);
        }
        respace_block(&mut self.root, dirs, 0);
        proof {
            lemma_traversals_agree(self.root);
        }
    }
}

} // verus!
