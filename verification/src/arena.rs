//! The AST store: every node lives by value in one growable arena and is
//! referred to only by its integer handle; parent-to-child edges are handle
//! lists kept inside the arena, never pointers inside a node. Handles are
//! meaningful only for the arena that produced them, and the whole arena is
//! handed to the caller (or dropped on error) as one unit.

use crate::token::{Loc, Number, NumberView, Operator};
use vstd::prelude::*;

verus! {

/// What an AST node is: the tagged value of the node, without its location
/// or its children.
#[derive(Debug, PartialEq, Clone)]
pub enum Item {
    Program,
    Block,
    Function,
    /// The parameter names of a function definition.
    ParameterList(Vec<String>),
    /// A call of the named function.
    Call(String),
    Assign,
    If,
    ElseIf,
    While,
    For,
    Expression,
    Operator(Operator),
    Identifier(String),
    Number(Number),
}

/// The view of an `Item`.
pub enum ItemView {
    Program,
    Block,
    Function,
    ParameterList(Seq<Seq<char>>),
    Call(Seq<char>),
    Assign,
    If,
    ElseIf,
    While,
    For,
    Expression,
    Operator(Operator),
    Identifier(Seq<char>),
    Number(NumberView),
}

/// The view of a sequence of strings.
pub open spec fn strings_view(v: Seq<String>) -> Seq<Seq<char>> {
    v.map(|k: int, s: String| s@)
}

impl View for Item {
    type V = ItemView;

    open spec fn view(&self) -> ItemView {
        match self {
            Item::Program => ItemView::Program,
            Item::Block => ItemView::Block,
            Item::Function => ItemView::Function,
            Item::ParameterList(ps) => ItemView::ParameterList(strings_view(ps@)),
            Item::Call(name) => ItemView::Call(name@),
            Item::Assign => ItemView::Assign,
            Item::If => ItemView::If,
            Item::ElseIf => ItemView::ElseIf,
            Item::While => ItemView::While,
            Item::For => ItemView::For,
            Item::Expression => ItemView::Expression,
            Item::Operator(o) => ItemView::Operator(*o),
            Item::Identifier(s) => ItemView::Identifier(s@),
            Item::Number(n) => ItemView::Number(n@),
        }
    }
}

/// An AST node: its tagged value and its source location. The children are
/// not here — they are handle lists inside the [`Arena`].
#[derive(Debug, PartialEq, Clone)]
pub struct Node {
    pub item: Item,
    pub loc: Loc,
}

/// The view of a `Node`.
pub struct NodeView {
    pub item: ItemView,
    pub loc: Loc,
}

impl View for Node {
    type V = NodeView;

    open spec fn view(&self) -> NodeView {
        NodeView { item: self.item@, loc: self.loc }
    }
}

impl Node {
    pub fn new(item: Item, loc: Loc) -> (r: Self)
        ensures
            r.item == item,
            r.loc == loc,
    {
        Self { item, loc }
    }
}

fn clone_strings(v: &Vec<String>) -> (r: Vec<String>)
    ensures
        strings_view(r@) == strings_view(v@),
{
    let mut r: Vec<String> = Vec::new();
    let mut i: usize = 0;
    while i < v.len()
        invariant
            i <= v@.len(),
            r@.len() == i,
            forall|j: int| 0 <= j < i ==> (#[trigger] r@[j])@ == v@[j]@,
        decreases v@.len() - i,
    {
        r.push(v[i].clone());
        i += 1;
    }
    proof {
        assert(strings_view(r@) =~= strings_view(v@));
    }
    r
}

/// A copy of an item with the same view.
pub fn clone_item(it: &Item) -> (r: Item)
    ensures
        r@ == it@,
{
    match it {
        Item::Program => Item::Program,
        Item::Block => Item::Block,
        Item::Function => Item::Function,
        Item::ParameterList(ps) => Item::ParameterList(clone_strings(ps)),
        Item::Call(s) => Item::Call(s.clone()),
        Item::Assign => Item::Assign,
        Item::If => Item::If,
        Item::ElseIf => Item::ElseIf,
        Item::While => Item::While,
        Item::For => Item::For,
        Item::Expression => Item::Expression,
        Item::Operator(o) => Item::Operator(*o),
        Item::Identifier(s) => Item::Identifier(s.clone()),
        Item::Number(n) => Item::Number(Number::from_values(&n.exponent, &n.decimal, &n.base)),
    }
}

/// The view of an [`Arena`]: the node values and, for each node, the list
/// of its children's handles, in order.
pub struct ArenaView {
    pub nodes: Seq<NodeView>,
    pub kids: Seq<Seq<int>>,
}

/// The store of all AST nodes of one parse.
#[derive(Debug)]
pub struct Arena {
    nodes: Vec<Node>,
    children: Vec<Vec<usize>>,
}

impl View for Arena {
    type V = ArenaView;

    closed spec fn view(&self) -> ArenaView {
        ArenaView {
            nodes: self.nodes@.map(|k: int, n: Node| n@),
            kids: self.children@.map(|k: int, c: Vec<usize>| c@.map(|j: int, u: usize| u as int)),
        }
    }
}

impl Arena {
    /// Every node has a child list, and every handle in a child list is a
    /// handle of this arena.
    pub open spec fn wf(&self) -> bool {
        &&& self@.kids.len() == self@.nodes.len()
        &&& forall|i: int, k: int|
            0 <= i < self@.kids.len() && 0 <= k < self@.kids[i].len() ==> 0 <= #[trigger] self@.kids[i][k]
                < self@.nodes.len()
    }

    /// An empty arena.
    pub fn new() -> (r: Self)
        ensures
            r.wf(),
            r@.nodes == Seq::<NodeView>::empty(),
            r@.kids == Seq::<Seq<int>>::empty(),
    {
        let r = Self { nodes: Vec::new(), children: Vec::new() };
        proof {
            assert(r@.nodes =~= Seq::<NodeView>::empty());
            assert(r@.kids =~= Seq::<Seq<int>>::empty());
        }
        r
    }

    /// The number of nodes created so far.
    pub fn len(&self) -> (n: usize)
        ensures
            n == self@.nodes.len(),
    {
        self.nodes.len()
    }

    /// Stores a node and returns its fresh handle; the node starts with no
    /// children.
    pub fn new_node(&mut self, node: Node) -> (id: usize)
        requires
            old(self).wf(),
        ensures
            final(self).wf(),
            id == old(self)@.nodes.len(),
            final(self)@.nodes == old(self)@.nodes.push(node@),
            final(self)@.kids == old(self)@.kids.push(Seq::<int>::empty()),
    {
        let id = self.nodes.len();
        self.nodes.push(node);
        self.children.push(Vec::new());
        proof {
            assert(self@.nodes =~= old(self)@.nodes.push(node@));
            assert(self@.kids =~~= old(self)@.kids.push(Seq::<int>::empty()));
        }
        id
    }

    /// Records `child` as the next (rightmost) child of `parent`.
    pub fn append(&mut self, parent: usize, child: usize)
        requires
            old(self).wf(),
            parent < old(self)@.nodes.len(),
            child < old(self)@.nodes.len(),
        ensures
            final(self).wf(),
            final(self)@.nodes == old(self)@.nodes,
            final(self)@.kids == old(self)@.kids.update(
                parent as int,
                old(self)@.kids[parent as int].push(child as int),
            ),
    {
        self.children[parent].push(child);
        proof {
            assert(self@.nodes =~= old(self)@.nodes);
            assert(self@.kids =~~= old(self)@.kids.update(
                parent as int,
                old(self)@.kids[parent as int].push(child as int),
            ));
        }
    }

    /// Reads a node by its handle.
    pub fn get(&self, id: usize) -> (r: &Node)
        requires
            id < self@.nodes.len(),
    ensures
            r@ == self@.nodes[id as int],
    {
        &self.nodes[id]
    }

    /// How many children a node has.
    pub fn child_count(&self, id: usize) -> (n: usize)
        requires
            self.wf(),
            id < self@.nodes.len(),
        ensures
            n == self@.kids[id as int].len(),
    {
        self.children[id].len()
    }

    /// The handle of the `k`-th child of a node.
    pub fn child(&self, id: usize, k: usize) -> (c: usize)
        requires
            self.wf(),
            id < self@.nodes.len(),
            k < self@.kids[id as int].len(),
        ensures
            c as int == self@.kids[id as int][k as int],
            c < self@.nodes.len(),
    {
        self.children[id][k]
    }

    /// The handle of a node's first child, if it has one.
    pub fn first_child(&self, id: usize) -> (r: Option<usize>)
        requires
            self.wf(),
            id < self@.nodes.len(),
        ensures
            match r {
                Some(c) => self@.kids[id as int].len() > 0 && c as int == self@.kids[id as int][0]
                    && c < self@.nodes.len(),
                None => self@.kids[id as int].len() == 0,
            },
    {
        if self.children[id].len() > 0 {
            Some(self.children[id][0])
        } else {
            None
        }
    }

    /// The handle of a node's last child, if it has one.
    pub fn last_child(&self, id: usize) -> (r: Option<usize>)
        requires
            self.wf(),
            id < self@.nodes.len(),
        ensures
            match r {
                Some(c) => self@.kids[id as int].len() > 0 && c as int
                    == self@.kids[id as int][self@.kids[id as int].len() - 1] && c
                    < self@.nodes.len(),
                None => self@.kids[id as int].len() == 0,
            },
    {
        let cnt = self.children[id].len();
        proof {
            assert(self@.kids[id as int].len() == cnt);
        }
        if cnt > 0 {
            let c = self.children[id][cnt - 1];
            proof {
                assert(self@.kids[id as int][cnt - 1] == c as int);
            }
            Some(c)
        } else {
            None
        }
    }
}

/// A whole AST subtree as one mathematical value: what the arena encodes
/// with handles.
pub struct Tree {
    pub item: ItemView,
    pub loc: Loc,
    pub children: Seq<Tree>,
}

/// Handle `i` of arena `a` represents the subtree `t`, using only handles
/// in `[lo, hi)`: the node's value and location match the root of `t`, and
/// its child handles represent the children of `t`, in order.
pub open spec fn reps(a: ArenaView, i: int, t: Tree, lo: int, hi: int) -> bool
    decreases t,
{
    &&& lo <= i < hi
    &&& i < a.nodes.len()
    &&& i < a.kids.len()
    &&& a.nodes[i].item == t.item
    &&& a.nodes[i].loc == t.loc
    &&& a.kids[i].len() == t.children.len()
    &&& forall|k: int|
        0 <= k < t.children.len() ==> reps(a, a.kids[i][k], #[trigger] t.children[k], lo, hi)
}

/// Representation only reads the handles in `[lo, hi)`, so it survives any
/// change outside that window (new nodes appended, or children added to a
/// node below `lo`).
pub proof fn lemma_reps_stable(a: ArenaView, b: ArenaView, i: int, t: Tree, lo: int, hi: int)
    requires
        reps(a, i, t, lo, hi),
        hi <= a.nodes.len(),
        hi <= a.kids.len(),
        hi <= b.nodes.len(),
        hi <= b.kids.len(),
        forall|j: int| lo <= j < hi ==> (#[trigger] b.nodes[j]) == a.nodes[j],
        forall|j: int| lo <= j < hi ==> (#[trigger] b.kids[j]) == a.kids[j],
    ensures
        reps(b, i, t, lo, hi),
    decreases t,
{
    assert(lo <= i < hi);
    assert(b.kids[i] == a.kids[i]);
    assert(b.nodes[i] == a.nodes[i]);
    assert forall|k: int| 0 <= k < t.children.len() implies reps(
        b,
        b.kids[i][k],
        #[trigger] t.children[k],
        lo,
        hi,
    ) by {
        assert(reps(a, a.kids[i][k], t.children[k], lo, hi));
        lemma_reps_stable(a, b, a.kids[i][k], t.children[k], lo, hi);
    }
}

/// One arena state extends another: nothing below the old length has
/// changed, neither a node nor a child list.
pub open spec fn extends(pre: ArenaView, post: ArenaView) -> bool {
    &&& pre.nodes.len() <= post.nodes.len()
    &&& forall|j: int| 0 <= j < pre.nodes.len() ==> (#[trigger] post.nodes[j]) == pre.nodes[j]
    &&& forall|j: int| 0 <= j < pre.nodes.len() ==> (#[trigger] post.kids[j]) == pre.kids[j]
}

/// Representation survives a step that only appends nodes and only
/// changes the child list of one handle outside the window.
pub proof fn lemma_reps_frame(
    a: ArenaView,
    b: ArenaView,
    i: int,
    t: Tree,
    lo: int,
    hi: int,
    skip: int,
)
    requires
        reps(a, i, t, lo, hi),
        0 <= lo,
        hi <= a.nodes.len(),
        hi <= a.kids.len(),
        b.nodes.len() >= a.nodes.len(),
        b.kids.len() >= a.kids.len(),
        forall|j: int| 0 <= j < a.nodes.len() ==> (#[trigger] b.nodes[j]) == a.nodes[j],
        forall|j: int| 0 <= j < a.nodes.len() && j != skip ==> (#[trigger] b.kids[j]) == a.kids[j],
        skip < lo || skip >= hi,
    ensures
        reps(b, i, t, lo, hi),
{
    assert forall|j: int| lo <= j < hi implies (#[trigger] b.kids[j]) == a.kids[j] by {}
    lemma_reps_stable(a, b, i, t, lo, hi);
}

/// A representation within a window also holds within any wider window.
pub proof fn lemma_reps_widen(a: ArenaView, i: int, t: Tree, lo: int, hi: int, lo2: int, hi2: int)
    requires
        reps(a, i, t, lo, hi),
        lo2 <= lo,
        hi <= hi2,
    ensures
        reps(a, i, t, lo2, hi2),
    decreases t,
{
    assert forall|k: int| 0 <= k < t.children.len() implies reps(
        a,
        a.kids[i][k],
        #[trigger] t.children[k],
        lo2,
        hi2,
    ) by {
        assert(reps(a, a.kids[i][k], t.children[k], lo, hi));
        lemma_reps_widen(a, a.kids[i][k], t.children[k], lo, hi, lo2, hi2);
    }
}

} // verus!
