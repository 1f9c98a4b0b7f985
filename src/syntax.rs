//! The syntax tree that the engine formats: nodes and tokens with kinds,
//! text ranges and literal token text.
use vstd::prelude::*;

verus! {

/// The kind of a token that holds only whitespace.
pub const WHITESPACE: u16 = 1;

/// A half-open range `[start, end)` of offsets into the source text.
#[derive(Clone, Copy, Debug, PartialEq, Eq, Structural)]
pub struct TextRange {
    pub start: u32,
    pub end: u32,
}

impl TextRange {
    pub fn new(start: u32, end: u32) -> (r: TextRange)
        ensures
            r.start == start,
            r.end == end,
    {
        TextRange { start, end }
    }
}

/// One element of a syntax tree: an inner node with ordered children, or a
/// token with its literal text.
#[derive(Debug)]
pub enum SyntaxElement {
    Node { kind: u16, range: TextRange, children: Vec<SyntaxElement> },
    Token { kind: u16, range: TextRange, text: String },
}

/// Whether `e` is a token of the whitespace kind.
pub open spec fn is_whitespace_token(e: SyntaxElement) -> bool {
    e is Token && e->Token_kind == WHITESPACE
}

/// The text of one element when its children's text is `inner`.
pub open spec fn own_text(e: SyntaxElement, inner: Seq<char>) -> Seq<char> {
    match e {
        SyntaxElement::Token { text, .. } => text@,
        SyntaxElement::Node { .. } => inner,
    }
}

/// The source text that a sequence of elements covers: the text of every
/// token under them, in order.
pub open spec fn seq_text(s: Seq<SyntaxElement>) -> Seq<char>
    decreases s,
{
    if s.len() == 0 {
        Seq::empty()
    } else {
        let last = s[s.len() - 1];
        let inner = match last {
            SyntaxElement::Node { children, .. } => seq_text(children@),
            SyntaxElement::Token { .. } => Seq::empty(),
        };
        seq_text(s.drop_last()) + own_text(last, inner)
    }
}

/// The source text of one element.
pub open spec fn element_text(e: SyntaxElement) -> Seq<char> {
    match e {
        SyntaxElement::Token { text, .. } => text@,
        SyntaxElement::Node { children, .. } => seq_text(children@),
    }
}

/// The range of one element.
pub open spec fn element_range(e: SyntaxElement) -> TextRange {
    match e {
        SyntaxElement::Token { range, .. } => range,
        SyntaxElement::Node { range, .. } => range,
    }
}

/// The range of the element is not reversed; a node's children lie inside
/// it, in source order, without overlap, and are well formed themselves.
pub open spec fn well_formed(e: SyntaxElement) -> bool
    decreases e,
{
    match e {
        SyntaxElement::Token { range, .. } => range.start <= range.end,
        SyntaxElement::Node { range, children, .. } => {
            &&& range.start <= range.end
            &&& forall|i: int|
                0 <= i < children@.len() ==> {
                    &&& range.start <= element_range(#[trigger] children@[i]).start
                    &&& element_range(children@[i]).end <= range.end
                    &&& well_formed(children@[i])
                }
            &&& forall|i: int, j: int|
                0 <= i < j < children@.len() ==> element_range(#[trigger] children@[i]).end
                    <= element_range(#[trigger] children@[j]).start
        },
    }
}

/// The kind of one element.
pub open spec fn element_kind(e: SyntaxElement) -> u16 {
    match e {
        SyntaxElement::Token { kind, .. } => kind,
        SyntaxElement::Node { kind, .. } => kind,
    }
}

/// The children of one element; a token has none.
pub open spec fn element_children(e: SyntaxElement) -> Seq<SyntaxElement> {
    match e {
        SyntaxElement::Token { .. } => Seq::empty(),
        SyntaxElement::Node { children, .. } => children@,
    }
}

/// The texts of the tokens under a sequence of elements that are not
/// whitespace tokens, in order.
pub open spec fn seq_tokens(s: Seq<SyntaxElement>) -> Seq<Seq<char>>
    decreases s,
{
    if s.len() == 0 {
        Seq::empty()
    } else {
        let last = s[s.len() - 1];
        let own = match last {
            SyntaxElement::Node { children, .. } => seq_tokens(children@),
            SyntaxElement::Token { text, .. } => if is_whitespace_token(last) {
                Seq::empty()
            } else {
                seq![text@]
            },
        };
        seq_tokens(s.drop_last()) + own
    }
}

/// Two elements are the same: same kind, range and text, and the same
/// children in the same order.
pub open spec fn same_element(a: SyntaxElement, b: SyntaxElement) -> bool
    decreases a,
{
    match (a, b) {
        (
            SyntaxElement::Token { kind: k1, range: r1, text: t1 },
            SyntaxElement::Token { kind: k2, range: r2, text: t2 },
        ) => k1 == k2 && r1 == r2 && t1@ == t2@,
        (
            SyntaxElement::Node { kind: k1, range: r1, children: c1 },
            SyntaxElement::Node { kind: k2, range: r2, children: c2 },
        ) => k1 == k2 && r1 == r2 && c1@.len() == c2@.len() && forall|i: int|
            0 <= i < c1@.len() ==> same_element(#[trigger] c1@[i], c2@[i]),
        _ => false,
    }
}

/// Whether two elements are the same.
pub fn elements_equal(a: &SyntaxElement, b: &SyntaxElement) -> (r: bool)
    ensures
        r == same_element(*a, *b),
    decreases *a,
{
    match (a, b) {
        (
            SyntaxElement::Token { kind: k1, range: r1, text: t1 },
            SyntaxElement::Token { kind: k2, range: r2, text: t2 },
        ) => *k1 == *k2 && r1.start == r2.start && r1.end == r2.end && *t1 == *t2,
        (
            SyntaxElement::Node { kind: k1, range: r1, children: c1 },
            SyntaxElement::Node { kind: k2, range: r2, children: c2 },
        ) => {
            if *k1 != *k2 || r1.start != r2.start || r1.end != r2.end || c1.len() != c2.len() {
                return false;
            }
            let mut i: usize = 0;
            while i < c1.len()
                invariant
                    *a is Node,
                    *b is Node,
                    (*a)->Node_children == *c1,
                    (*b)->Node_children == *c2,
                    (*a)->Node_kind == (*b)->Node_kind,
                    (*a)->Node_range == (*b)->Node_range,
                    c1@.len() == c2@.len(),
                    i <= c1@.len(),
                    forall|j: int| 0 <= j < i ==> same_element(#[trigger] c1@[j], c2@[j]),
                decreases c1@.len() - i,
            {
                proof {
                    assert(decreases_to!(*a => (*a)->Node_children));
                    assert(decreases_to!(*c1 => c1@));
                    assert(decreases_to!(c1@ => c1@[i as int]));
                }
                if !elements_equal(&c1[i], &c2[i]) {
                    return false;
                }
                i = i + 1;
            }
            true
        },
        _ => false,
    }
}

proof fn lemma_seq_text_push(s: Seq<SyntaxElement>, e: SyntaxElement)
    ensures
        seq_text(s.push(e)) == seq_text(s) + element_text(e),
{
    assert(s.push(e).drop_last() =~= s);
}

impl SyntaxElement {
    /// The kind of this element.
    pub fn kind(&self) -> (r: u16)
        ensures
            r == element_kind(*self),
    {
        match self {
            SyntaxElement::Node { kind, .. } => *kind,
            SyntaxElement::Token { kind, .. } => *kind,
        }
    }

    /// The text range of this element.
    pub fn text_range(&self) -> (r: TextRange)
        ensures
            r == element_range(*self),
    {
        match self {
            SyntaxElement::Node { range, .. } => *range,
            SyntaxElement::Token { range, .. } => *range,
        }
    }

    /// Whether this element is a token.
    pub fn is_token(&self) -> (r: bool)
        ensures
            r == (*self is Token),
    {
        match self {
            SyntaxElement::Node { .. } => false,
            SyntaxElement::Token { .. } => true,
        }
    }

    /// Whether this element is a token of the whitespace kind.
    pub fn is_whitespace(&self) -> (r: bool)
        ensures
            r == is_whitespace_token(*self),
    {
        match self {
            SyntaxElement::Node { .. } => false,
            SyntaxElement::Token { kind, .. } => *kind == WHITESPACE,
        }
    }

    /// The source text of this element: a token's own text, or the text of
    /// every token under a node.
    pub fn text(&self) -> (r: String)
        ensures
            r@ == element_text(*self),
        decreases *self,
    {
        match self {
            SyntaxElement::Token { text, .. } => text.clone(),
            SyntaxElement::Node { children, .. } => {
                let mut r = String::new();
                let mut i: usize = 0;
                while i < children.len()
                    invariant
                        i <= children@.len(),
                        *self is Node,
                        (*self)->Node_children == *children,
                        r@ == seq_text(children@.take(i as int)),
                    decreases children@.len() - i,
                {
                    proof {
                        assert(decreases_to!(*self => (*self)->Node_children));
                        assert(decreases_to!(*children => children@));
                        assert(decreases_to!(children@ => children@[i as int]));
                    }
                    let t = children[i].text();
                    proof {
                        lemma_seq_text_push(children@.take(i as int), children@[i as int]);
                        assert(children@.take(i as int).push(children@[i as int])
                            =~= children@.take(i as int + 1));
                    }
                    r.append(t.as_str());
                    i = i + 1;
                }
                assert(children@.take(i as int) =~= children@);
                r
            }
        }
    }
}

} // verus!
