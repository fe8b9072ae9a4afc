//! The parse tree that the parser records: the grammar symbols that each
//! sentence went through, with the names and areas read filled in.
use vstd::prelude::*;
use crate::text::{push_char, strings};

verus! {

/// A node of the parse tree: a symbol and the indices of its children in the
/// tree that holds it.
pub struct RuleNode {
    pub name: String,
    pub children: Vec<usize>,
}

/// The model of a parse tree node.
pub ghost struct RuleView {
    pub name: Seq<char>,
    pub children: Seq<usize>,
}

impl View for RuleNode {
    type V = RuleView;

    open spec fn view(&self) -> RuleView {
        RuleView { name: self.name@, children: self.children@ }
    }
}

/// A parse tree: its nodes, the root first. Each node is created after its
/// parent, so a child's index is greater than its parent's.
pub struct RuleTree {
    pub nodes: Vec<RuleNode>,
}

impl View for RuleTree {
    type V = Seq<RuleView>;

    open spec fn view(&self) -> Seq<RuleView> {
        Seq::new(self.nodes@.len(), |i: int| self.nodes@[i]@)
    }
}

/// Every child of a node comes after it and lies in the tree.
pub open spec fn rules_wf(t: Seq<RuleView>) -> bool {
    forall|i: int, j: int|
        0 <= i < t.len() && 0 <= j < t[i].children.len() ==> i < #[trigger] t[i].children[j] < t.len()
}

/// The tree with a new node named `name` added as the last child of `parent`.
pub open spec fn attach(t: Seq<RuleView>, parent: int, name: Seq<char>) -> Seq<RuleView> {
    t.update(parent, RuleView { name: t[parent].name, children: t[parent].children.push(t.len() as usize) })
        .push(RuleView { name, children: Seq::empty() })
}

/// The tree with node `i` renamed to `name`.
pub open spec fn rename(t: Seq<RuleView>, i: int, name: Seq<char>) -> Seq<RuleView> {
    t.update(i, RuleView { name, children: t[i].children })
}

impl RuleNode {
    /// A new node without children.
    pub fn new(name: &str) -> (r: RuleNode)
        ensures
            r@ == (RuleView { name: name@, children: Seq::empty() }),
    {
        RuleNode { name: name.to_owned(), children: Vec::new() }
    }

    /// Gives the node another name.
    pub fn change_name(&mut self, new_name: &str)
        ensures
            final(self)@ == (RuleView { name: new_name@, children: old(self)@.children }),
    {
        self.name = new_name.to_owned();
    }

    /// Adds `child` as the last child of the node.
    pub fn add_child(&mut self, child: usize)
        ensures
            final(self)@ == (RuleView { name: old(self)@.name, children: old(self)@.children.push(child) }),
    {
        self.children.push(child);
    }
}

impl RuleTree {
    /// A tree made of its root.
    pub fn new(root: &str) -> (r: RuleTree)
        ensures
            r@ == seq![RuleView { name: root@, children: Seq::empty() }],
    {
        let mut nodes: Vec<RuleNode> = Vec::new();
        nodes.push(RuleNode::new(root));
        let r = RuleTree { nodes };
        assert(r@ =~= seq![RuleView { name: root@, children: Seq::empty() }]);
        r
    }

    /// The number of nodes.
    pub fn len(&self) -> (n: usize)
        ensures
            n == self@.len(),
    {
        self.nodes.len()
    }

    /// Creates a node named `name` as the last child of `parent`; gives its index.
    pub fn attach(&mut self, parent: usize, name: &str) -> (idx: usize)
        requires
            parent < old(self)@.len(),
            old(self)@.len() < usize::MAX,
        ensures
            idx == old(self)@.len(),
            final(self)@ == attach(old(self)@, parent as int, name@),
            rules_wf(old(self)@) ==> rules_wf(final(self)@),
    {
        proof {
            if rules_wf(old(self)@) {
                lemma_attach_wf(old(self)@, parent as int, name@);
            }
        }
        let idx = self.nodes.len();
        self.nodes[parent].add_child(idx);
        self.nodes.push(RuleNode::new(name));
        assert(self@ =~= attach(old(self)@, parent as int, name@));
        idx
    }

    /// Renames node `i`.
    pub fn rename(&mut self, i: usize, name: &str)
        requires
            i < old(self)@.len(),
        ensures
            final(self)@ == rename(old(self)@, i as int, name@),
            rules_wf(old(self)@) ==> rules_wf(final(self)@),
    {
        proof {
            if rules_wf(old(self)@) {
                lemma_rename_wf(old(self)@, i as int, name@);
            }
        }
        self.nodes[i].change_name(name);
        assert(self@ =~= rename(old(self)@, i as int, name@));
    }
}

pub proof fn lemma_attach_wf(t: Seq<RuleView>, parent: int, name: Seq<char>)
    requires
        rules_wf(t),
        0 <= parent < t.len(),
        t.len() < usize::MAX,
    ensures
        rules_wf(attach(t, parent, name)),
{
    let u = attach(t, parent, name);
    assert forall|i: int, j: int| 0 <= i < u.len() && 0 <= j < u[i].children.len() implies i < #[trigger] u[i].children[j] < u.len() by {
        if i == t.len() {
            assert(u[i].children.len() == 0);
        } else if i == parent {
            if j == t[parent].children.len() {
                assert(u[i].children[j] == t.len() as usize);
            } else {
                assert(u[i].children[j] == t[i].children[j]);
            }
        } else {
            assert(u[i].children[j] == t[i].children[j]);
        }
    }
}

pub proof fn lemma_rename_wf(t: Seq<RuleView>, i: int, name: Seq<char>)
    requires
        rules_wf(t),
        0 <= i < t.len(),
    ensures
        rules_wf(rename(t, i, name)),
{
    let u = rename(t, i, name);
    assert forall|a: int, j: int| 0 <= a < u.len() && 0 <= j < u[a].children.len() implies a < #[trigger] u[a].children[j] < u.len() by {
        assert(u[a].children == t[a].children);
    }
}

/// `k` spaces.
pub open spec fn spaces(k: nat) -> Seq<char> {
    Seq::new(k, |i: int| ' ')
}

/// The line printed for a node at a depth: two spaces per level, "- ", the name.
pub open spec fn rule_line(name: Seq<char>, depth: nat) -> Seq<char> {
    spaces(2 * depth) + "- "@ + name
}

/// The lines that print the subtree of node `i` at depth `depth`: the node's
/// line, then its children's subtrees one level deeper, in order.
pub open spec fn render(t: Seq<RuleView>, i: int, depth: nat) -> Seq<Seq<char>>
    decreases t.len() - i, t[i].children.len() + 1,
{
    if 0 <= i < t.len() {
        seq![rule_line(t[i].name, depth)] + render_children(t, i, t[i].children.len() as int, depth + 1)
    } else {
        Seq::empty()
    }
}

/// The lines of the subtrees of the first `k` children of node `p`.
pub open spec fn render_children(t: Seq<RuleView>, p: int, k: int, depth: nat) -> Seq<Seq<char>>
    decreases t.len() - p, k,
{
    if 0 <= p < t.len() && 0 < k <= t[p].children.len() {
        let c = t[p].children[k - 1] as int;
        render_children(t, p, k - 1, depth)
            + (if p < c < t.len() { render(t, c, depth) } else { Seq::empty() })
    } else {
        Seq::empty()
    }
}

pub(crate) fn indent(depth: usize) -> (s: String)
    ensures
        s@ == spaces(2 * depth as nat),
{
    let mut s = String::new();
    let mut i: usize = 0;
    while i < depth
        invariant
            i <= depth,
            s@ == spaces(2 * i as nat),
        decreases depth - i,
    {
        push_char(&mut s, ' ');
        push_char(&mut s, ' ');
        i = i + 1;
        assert(s@ =~= spaces(2 * i as nat));
    }
    s
}

impl RuleNode {
    /// Adds to `out` the lines that print the subtree of node `node` of `tree`.
    pub fn parse_tree(tree: &RuleTree, node: usize, depth: usize, out: &mut Vec<String>)
        requires
            rules_wf(tree@),
            node < tree@.len(),
            depth + (tree@.len() - node) <= usize::MAX,
        ensures
            strings(final(out)@) == strings(old(out)@) + render(tree@, node as int, depth as nat),
        decreases tree@.len() - node,
    {
        let ghost t = tree@;
        let mut line = indent(depth);
        line.append("- ");
        line.append(tree.nodes[node].name.as_str());
        out.push(line);
        let ghost out1 = strings(out@);
        assert(out1 =~= strings(old(out)@) + seq![rule_line(t[node as int].name, depth as nat)]);
        let n = tree.nodes[node].children.len();
        let mut k: usize = 0;
        while k < n
            invariant
                t == tree@,
                rules_wf(t),
                node < t.len(),
                depth + (t.len() - node) <= usize::MAX,
                n == t[node as int].children.len(),
                k <= n,
                strings(out@) == out1 + render_children(t, node as int, k as int, (depth + 1) as nat),
            decreases n - k,
        {
            let child = tree.nodes[node].children[k];
            assert(child == t[node as int].children[k as int]);
            RuleNode::parse_tree(tree, child, depth + 1, out);
            k = k + 1;
        }
    }
}

} // verus!
