//! `ls`: entries filtered, grouped and rendered as a tree.
use vstd::prelude::*;
use crate::entry::{namespace_of, normalized_tags, opt_view, Entry, Kind, Priority, Status};
use crate::text::{
    concat, lemma_seq_lt_total, lemma_seq_lt_transitive, push_str,
    seq_lt, seq_view_of, sorted_distinct, split, split_str, starts_with, starts_with_str, str_eq,
    str_lt, strictly_sorted, to_lowercase, unicode_lower,
};
use crate::time::{read_date, read_date_str, Date};

verus! {

/// A node of the virtual tree that `ls` renders: whether an entry ends here,
/// and the named children, kept in the order of their names.
pub struct TreeNode {
    pub is_entry: bool,
    pub children: Vec<(String, TreeNode)>,
}

impl Default for TreeNode {
    fn default() -> (r: TreeNode)
        ensures
            !r.is_entry,
            r.children@.len() == 0,
            tree_wf(r),
    {
        let r = TreeNode { is_entry: false, children: Vec::new() };
        proof {
            assert forall|p: Seq<Seq<char>>| #[trigger] sorted_at(r, p) by {
                if p.len() > 0 {
                    lemma_find_child_none(r.children@, p[0]);
                } else {
                    assert(names(r.children@) =~= Seq::<Seq<char>>::empty());
                }
            }
        }
        r
    }
}

/// The names of some children.
pub open spec fn names(ch: Seq<(String, TreeNode)>) -> Seq<Seq<char>> {
    ch.map_values(|c: (String, TreeNode)| c.0@)
}

/// The first child of `ch` named `name`.
pub open spec fn find_child(ch: Seq<(String, TreeNode)>, name: Seq<char>) -> Option<TreeNode>
    decreases ch.len(),
{
    if ch.len() == 0 {
        None
    } else if ch[0].0@ == name {
        Some(ch[0].1)
    } else {
        find_child(ch.drop_first(), name)
    }
}

/// The node that `path` leads to from `node`, following names.
pub open spec fn lookup(node: TreeNode, path: Seq<Seq<char>>) -> Option<TreeNode>
    decreases path.len(),
{
    if path.len() == 0 {
        Some(node)
    } else {
        match find_child(node.children@, path[0]) {
            Some(c) => lookup(c, path.drop_first()),
            None => None,
        }
    }
}

/// `path` leads to a node.
pub open spec fn has_node(node: TreeNode, path: Seq<Seq<char>>) -> bool {
    lookup(node, path) is Some
}

/// `path` leads to a node where an entry ends.
pub open spec fn has_entry(node: TreeNode, path: Seq<Seq<char>>) -> bool {
    lookup(node, path) matches Some(n) && n.is_entry
}

/// The children of every node are in strictly increasing order of names.
pub open spec fn tree_wf(node: TreeNode) -> bool {
    forall|path: Seq<Seq<char>>| #[trigger] sorted_at(node, path)
}

/// The node that `path` leads to, if any, has its children in order.
pub open spec fn sorted_at(node: TreeNode, path: Seq<Seq<char>>) -> bool {
    match lookup(node, path) {
        Some(n) => strictly_sorted(names(n.children@)),
        None => true,
    }
}

proof fn lemma_find_child_at(ch: Seq<(String, TreeNode)>, i: int)
    requires
        0 <= i < ch.len(),
        strictly_sorted(names(ch)),
    ensures
        find_child(ch, ch[i].0@) == Some(ch[i].1),
    decreases ch.len(),
{
    if i > 0 {
        assert(names(ch)[0] == ch[0].0@);
        assert(names(ch)[i] == ch[i].0@);
        if ch[0].0@ == ch[i].0@ {
            crate::text::lemma_seq_lt_irreflexive(ch[0].0@);
        }
        assert(names(ch.drop_first()) =~= names(ch).drop_first());
        lemma_find_child_at(ch.drop_first(), i - 1);
    }
}

proof fn lemma_find_child_none(ch: Seq<(String, TreeNode)>, name: Seq<char>)
    requires
        forall|i: int| 0 <= i < ch.len() ==> ch[i].0@ != name,
    ensures
        find_child(ch, name) is None,
    decreases ch.len(),
{
    if ch.len() > 0 {
        lemma_find_child_none(ch.drop_first(), name);
    }
}

proof fn lemma_lookup_cons(node: TreeNode, a: Seq<char>, q: Seq<Seq<char>>)
    ensures
        lookup(node, seq![a] + q) == match find_child(node.children@, a) {
            Some(c) => lookup(c, q),
            None => None,
        },
{
    assert((seq![a] + q)[0] == a);
    assert((seq![a] + q).drop_first() =~= q);
}

/// Every prefix of a path that leads to a node leads to a node.
proof fn lemma_lookup_prefix(node: TreeNode, p: Seq<Seq<char>>, q: Seq<Seq<char>>)
    requires
        p.is_prefix_of(q),
        lookup(node, q) is Some,
    ensures
        lookup(node, p) is Some,
    decreases p.len(),
{
    if p.len() > 0 {
        assert(q[0] == p[0]);
        let c = find_child(node.children@, p[0])->Some_0;
        assert(p.drop_first().is_prefix_of(q.drop_first())) by {
            assert forall|i: int| 0 <= i < p.drop_first().len() implies p.drop_first()[i] == q.drop_first()[i] by {
                assert(p[i + 1] == q[i + 1]);
            }
        }
        lemma_lookup_prefix(c, p.drop_first(), q.drop_first());
    }
}

proof fn lemma_wf_child(node: TreeNode, a: Seq<char>, c: TreeNode)
    requires
        tree_wf(node),
        find_child(node.children@, a) == Some(c),
    ensures
        tree_wf(c),
{
    assert forall|q: Seq<Seq<char>>| #[trigger] sorted_at(c, q) by {
        lemma_lookup_cons(node, a, q);
        assert(lookup(node, seq![a] + q) == lookup(c, q));
        assert(sorted_at(node, seq![a] + q));
    }
}


/// Replacing (or adding) the child named `name` by one that has gained the
/// path `rest` gives a node that has gained `[name] + rest`.
proof fn lemma_replace_child(
    old_node: TreeNode,
    new_node: TreeNode,
    pos: int,
    found: bool,
    nm: String,
    old_child: TreeNode,
    new_child: TreeNode,
    rest: Seq<Seq<char>>,
)
    requires
        tree_wf(old_node),
        tree_wf(old_child),
        tree_wf(new_child),
        strictly_sorted(names(new_node.children@)),
        new_node.is_entry == old_node.is_entry,
        0 <= pos,
        found ==> pos < old_node.children@.len() && new_node.children@ == old_node.children@.update(pos, (nm, new_child))
            && old_node.children@[pos].0@ == nm@ && old_child == old_node.children@[pos].1,
        !found ==> pos <= old_node.children@.len() && new_node.children@ == old_node.children@.insert(pos, (nm, new_child))
            && !old_child.is_entry && old_child.children@.len() == 0
            && (forall|i: int| 0 <= i < old_node.children@.len() ==> old_node.children@[i].0@ != nm@),
        forall|q: Seq<Seq<char>>| #[trigger] has_node(new_child, q) <==> (has_node(old_child, q) || q.is_prefix_of(rest)),
        forall|q: Seq<Seq<char>>| #[trigger] has_entry(new_child, q) <==> (has_entry(old_child, q) || q == rest),
    ensures
        tree_wf(new_node),
        forall|p: Seq<Seq<char>>| #[trigger] has_node(new_node, p) <==> (has_node(old_node, p) || p.is_prefix_of(seq![nm@] + rest)),
        forall|p: Seq<Seq<char>>| #[trigger] has_entry(new_node, p) <==> (has_entry(old_node, p) || p == seq![nm@] + rest),
{
    let ch0 = old_node.children@;
    let ch1 = new_node.children@;
    let name = nm@;
    let comps = seq![name] + rest;
    assert(sorted_at(old_node, Seq::empty()));
    assert(strictly_sorted(names(ch0)));
    // The child named `name`.
    assert(ch1[pos].0@ == name);
    lemma_find_child_at(ch1, pos);
    if found {
        lemma_find_child_at(ch0, pos);
    } else {
        lemma_find_child_none(ch0, name);
    }
    // Other children are unchanged.
    assert forall|m: Seq<char>| m != name implies find_child(ch1, m) == #[trigger] find_child(ch0, m) by {
        if exists|i: int| 0 <= i < ch1.len() && ch1[i].0@ == m {
            let i = choose|i: int| 0 <= i < ch1.len() && ch1[i].0@ == m;
            lemma_find_child_at(ch1, i);
            let j = if found || i < pos { i } else { i - 1 };
            assert(ch0[j] == ch1[i]);
            lemma_find_child_at(ch0, j);
        } else {
            lemma_find_child_none(ch1, m);
            assert forall|j: int| 0 <= j < ch0.len() implies ch0[j].0@ != m by {
                if !(found && j == pos) {
                    let i = if found || j < pos { j } else { j + 1 };
                    assert(ch1[i] == ch0[j]);
                }
            }
            lemma_find_child_none(ch0, m);
        }
    }
    assert forall|p: Seq<Seq<char>>| #[trigger] sorted_at(new_node, p) by {
        if p.len() > 0 {
            let q = p.drop_first();
            assert(p =~= seq![p[0]] + q);
            lemma_lookup_cons(new_node, p[0], q);
            lemma_lookup_cons(old_node, p[0], q);
            if p[0] == name {
                assert(sorted_at(new_child, q));
            } else {
                assert(sorted_at(old_node, p));
            }
        }
    }
    assert forall|p: Seq<Seq<char>>| #[trigger] has_node(new_node, p) <==> (has_node(old_node, p) || p.is_prefix_of(comps)) by {
        if p.len() > 0 {
            let q = p.drop_first();
            assert(p =~= seq![p[0]] + q);
            lemma_lookup_cons(new_node, p[0], q);
            lemma_lookup_cons(old_node, p[0], q);
            if p[0] == name {
                assert(has_node(new_node, p) == has_node(new_child, q));
                assert((p.is_prefix_of(comps)) == (q.is_prefix_of(rest))) by {
                    if q.is_prefix_of(rest) {
                        assert(p =~= comps.take(p.len() as int));
                    }
                    if p.is_prefix_of(comps) {
                        assert(q =~= rest.take(q.len() as int));
                    }
                }
                if !found {
                    if q.len() > 0 {
                        lemma_find_child_none(old_child.children@, q[0]);
                        assert(q =~= seq![q[0]] + q.drop_first());
                        lemma_lookup_cons(old_child, q[0], q.drop_first());
                    }
                }
            } else {
                assert(p[0] != comps[0]);
                assert(!p.is_prefix_of(comps)) by {
                    if p.len() <= comps.len() {
                        assert(comps.take(p.len() as int)[0] == comps[0]);
                    }
                }
            }
        } else {
            assert(p =~= comps.take(0));
            assert(lookup(new_node, p) == Some(new_node));
            assert(lookup(old_node, p) == Some(old_node));
        }
    }
    assert forall|p: Seq<Seq<char>>| #[trigger] has_entry(new_node, p) <==> (has_entry(old_node, p) || p == comps) by {
        if p.len() > 0 {
            let q = p.drop_first();
            assert(p =~= seq![p[0]] + q);
            lemma_lookup_cons(new_node, p[0], q);
            lemma_lookup_cons(old_node, p[0], q);
            if p[0] == name {
                assert(has_entry(new_node, p) == has_entry(new_child, q));
                assert((p == comps) == (q == rest)) by {
                    if q == rest {
                        assert(p =~= comps);
                    }
                    if p == comps {
                        assert(q =~= rest);
                    }
                }
                if !found {
                    if q.len() > 0 {
                        lemma_find_child_none(old_child.children@, q[0]);
                        assert(q =~= seq![q[0]] + q.drop_first());
                        lemma_lookup_cons(old_child, q[0], q.drop_first());
                    }
                }
            } else {
                assert(p != comps) by {
                    assert(comps[0] == name);
                }
            }
        } else {
            assert(p != comps) by {
                assert(comps.len() >= 1);
            }
            assert(lookup(new_node, p) == Some(new_node));
            assert(lookup(old_node, p) == Some(old_node));
        }
    }
}

impl TreeNode {
    /// The child named `name`, if there is one.
    pub fn child(&self, name: &str) -> (r: Option<&TreeNode>)
        ensures
            match find_child(self.children@, name@) {
                Some(c) => r matches Some(x) && *x == c,
                None => r is None,
            },
    {
        let mut i: usize = 0;
        assert(self.children@.skip(0) =~= self.children@);
        while i < self.children.len()
            invariant
                i <= self.children@.len(),
                find_child(self.children@, name@) == find_child(self.children@.skip(i as int), name@),
            decreases self.children.len() - i,
        {
            let ghost rest = self.children@.skip(i as int);
            assert(rest[0] == self.children@[i as int]);
            if str_eq(self.children[i].0.as_str(), name) {
                return Some(&self.children[i].1);
            }
            assert(rest.drop_first() =~= self.children@.skip(i + 1));
            i = i + 1;
        }
        None
    }

    /// Where a child named `name` is or would go among the children.
    fn child_slot(&self, name: &String) -> (r: (usize, bool))
        requires
            strictly_sorted(names(self.children@)),
        ensures
            r.0 <= self.children@.len(),
            forall|k: int| 0 <= k < r.0 ==> seq_lt(#[trigger] self.children@[k].0@, name@),
            r.1 ==> r.0 < self.children@.len() && self.children@[r.0 as int].0@ == name@,
            !r.1 ==> r.0 == self.children@.len() || seq_lt(name@, self.children@[r.0 as int].0@),
    {
        let mut i: usize = 0;
        while i < self.children.len() && str_lt(self.children[i].0.as_str(), name.as_str())
            invariant
                i <= self.children@.len(),
                forall|k: int| 0 <= k < i ==> seq_lt(#[trigger] self.children@[k].0@, name@),
            decreases self.children.len() - i,
        {
            i = i + 1;
        }
        if i < self.children.len() {
            let found = str_eq(self.children[i].0.as_str(), name.as_str());
            proof {
                lemma_seq_lt_total(self.children@[i as int].0@, name@);
            }
            (i, found)
        } else {
            (i, false)
        }
    }

    /// Adds the path `components`, from `start` on, below this node: the
    /// nodes on it are made as needed, and the last one marked as an entry.
    fn insert_from(&mut self, components: &[String], start: usize)
        requires
            tree_wf(*old(self)),
            start <= components@.len(),
        ensures
            tree_wf(*final(self)),
            forall|p: Seq<Seq<char>>| #[trigger] has_node(*final(self), p) <==> (has_node(*old(self), p) || p.is_prefix_of(
                crate::text::seq_view_of(components@).skip(start as int))),
            forall|p: Seq<Seq<char>>| #[trigger] has_entry(*final(self), p) <==> (has_entry(*old(self), p) || (
            start < components@.len() && p == crate::text::seq_view_of(components@).skip(start as int))),
        decreases components@.len() - start,
    {
        let ghost comps = crate::text::seq_view_of(components@).skip(start as int);
        if start == components.len() {
            assert forall|p: Seq<Seq<char>>| p.is_prefix_of(comps) implies has_node(*old(self), p) by {
                assert(p.len() == 0);
                assert(lookup(*old(self), p) == Some(*old(self)));
            }
            return;
        }
        let ghost old_self = *self;
        let name = &components[start];
        assert(comps[0] == name@);
        proof {
            assert(lookup(old_self, Seq::empty()) == Some(old_self));
            assert(sorted_at(old_self, Seq::empty()));
        }
        let (pos, found) = self.child_slot(name);
        let ghost old_names = names(old_self.children@);
        if !found {
            proof {
                assert forall|k: int| pos <= k < old_names.len() implies seq_lt(name@, #[trigger] old_names[k]) by {
                    if k > pos {
                        lemma_seq_lt_transitive(name@, old_names[pos as int], old_names[k]);
                    }
                }
            }
            let fresh = TreeNode::default();
            self.children.insert(pos, (name.clone(), fresh));
            proof {
                crate::text::lemma_seq_lt_irreflexive(name@);
                assert forall|k: int| 0 <= k < old_names.len() implies #[trigger] old_self.children@[k].0@ != name@ by {
                    assert(old_names[k] == old_self.children@[k].0@);
                    if k >= pos {
                        assert(seq_lt(name@, old_names[k]));
                    } else {
                        assert(seq_lt(old_names[k], name@));
                    }
                }
            }
        }
        let ghost mid_children = self.children@;
        proof {
            let nn = names(mid_children);
            if !found {
                assert(nn =~= old_names.insert(pos as int, name@));
                assert forall|a: int, b: int| 0 <= a < b < nn.len() implies seq_lt(#[trigger] nn[a], #[trigger] nn[b]) by {
                    if b == pos {
                        assert(nn[a] == old_names[a]);
                    } else if a == pos {
                        assert(nn[b] == old_names[b - 1]);
                    } else if a < pos && b > pos {
                        assert(nn[a] == old_names[a]);
                        assert(nn[b] == old_names[b - 1]);
                        lemma_seq_lt_transitive(nn[a], name@, nn[b]);
                    } else if b < pos {
                        assert(nn[a] == old_names[a]);
                        assert(nn[b] == old_names[b]);
                    } else {
                        assert(nn[a] == old_names[a - 1]);
                        assert(nn[b] == old_names[b - 1]);
                    }
                }
            }
            assert(strictly_sorted(nn));
        }
        let (child_name, mut child) = self.children.remove(pos);
        let ghost old_child = child;
        proof {
            if found {
                lemma_find_child_at(old_self.children@, pos as int);
                lemma_wf_child(old_self, name@, old_child);
            } else {
                assert forall|q: Seq<Seq<char>>| #[trigger] sorted_at(old_child, q) by {
                    if q.len() > 0 {
                        lemma_find_child_none(old_child.children@, q[0]);
                    } else {
                        assert(names(old_child.children@) =~= Seq::<Seq<char>>::empty());
                    }
                }
            }
        }
        let ghost rest = comps.drop_first();
        assert(crate::text::seq_view_of(components@).skip(start + 1) =~= rest);
        if start + 1 == components.len() {
            child.is_entry = true;
            proof {
                assert(rest.len() == 0);
                assert forall|q: Seq<Seq<char>>| q.len() > 0 implies #[trigger] lookup(child, q) == lookup(old_child, q) by {
                    assert(child.children == old_child.children);
                }
                assert forall|q: Seq<Seq<char>>| #[trigger] sorted_at(child, q) by {
                    assert(sorted_at(old_child, q));
                }
                assert forall|q: Seq<Seq<char>>| #[trigger] has_node(child, q) <==> (has_node(old_child, q) || q.is_prefix_of(rest)) by {
                    if q.len() == 0 {
                        assert(q =~= rest.take(0));
                        assert(lookup(child, q) == Some(child));
                        assert(lookup(old_child, q) == Some(old_child));
                    } else {
                        assert(lookup(child, q) == lookup(old_child, q));
                    }
                }
                assert forall|q: Seq<Seq<char>>| #[trigger] has_entry(child, q) <==> (has_entry(old_child, q) || q == rest) by {
                    if q.len() == 0 {
                        assert(q =~= rest);
                        assert(lookup(child, q) == Some(child));
                    } else {
                        assert(lookup(child, q) == lookup(old_child, q));
                    }
                }
            }
        } else {
            child.insert_from(components, start + 1);
        }
        let ghost new_child = child;
        self.children.insert(pos, (child_name, child));
        proof {
            assert(self.children@ =~= mid_children.update(pos as int, (child_name, new_child)));
            if found {
                assert(self.children@ =~= old_self.children@.update(pos as int, (child_name, new_child)));
            } else {
                assert(self.children@ =~= old_self.children@.insert(pos as int, (child_name, new_child)));
                assert(!old_child.is_entry);
                assert(old_child.children@.len() == 0);
                assert(child_name@ == name@);
                assert(forall|i: int| 0 <= i < old_self.children@.len() ==> old_self.children@[i].0@ != name@);
            }
            assert(names(self.children@) =~= names(mid_children));
            lemma_replace_child(old_self, *self, pos as int, found, child_name, old_child, new_child, rest);
            assert(seq![child_name@] + rest =~= comps);
        }
    }

    /// Adds the path `components` below this node, the last one marked as
    /// an entry. An empty path, or one already marked, changes no node and
    /// no mark.
    pub fn insert_path(&mut self, components: &[String])
        requires
            tree_wf(*old(self)),
        ensures
            tree_wf(*final(self)),
            forall|p: Seq<Seq<char>>| #[trigger] has_node(*final(self), p) <==> (has_node(*old(self), p) || p.is_prefix_of(
                crate::text::seq_view_of(components@))),
            forall|p: Seq<Seq<char>>| #[trigger] has_entry(*final(self), p) <==> (has_entry(*old(self), p) || (
            components@.len() > 0 && p == crate::text::seq_view_of(components@))),
            components@.len() == 0 || has_entry(*old(self), crate::text::seq_view_of(components@)) ==> forall|p: Seq<Seq<char>>|
                (#[trigger] has_node(*final(self), p) == has_node(*old(self), p) && has_entry(*final(self), p) == has_entry(*old(self), p)),
    {
        self.insert_from(components, 0);
        let ghost comps = crate::text::seq_view_of(components@);
        assert(comps.skip(0) == comps);
        proof {
            assert(lookup(*old(self), Seq::empty()) == Some(*old(self)));
            if has_entry(*old(self), comps) {
                assert forall|p: Seq<Seq<char>>| p.is_prefix_of(comps) implies has_node(*old(self), p) by {
                    lemma_lookup_prefix(*old(self), p, comps);
                }
            }
            if components@.len() == 0 {
                assert forall|p: Seq<Seq<char>>| p.is_prefix_of(comps) implies has_node(*old(self), p) by {
                    assert(p =~= Seq::<Seq<char>>::empty());
                }
            }
        }
    }
}

pub open spec fn lit_ungrouped() -> Seq<char> {
    seq!['u', 'n', 'g', 'r', 'o', 'u', 'p', 'e', 'd']
}

pub open spec fn is_ungrouped(c: (String, TreeNode)) -> bool {
    c.0@ == lit_ungrouped()
}

/// The children in the order they are shown: by name, with `ungrouped`
/// after all others.
pub open spec fn display_order(ch: Seq<(String, TreeNode)>) -> Seq<(String, TreeNode)> {
    ch.filter(grouped_pred()) + ch.filter(ungrouped_pred())
}

pub open spec fn grouped_pred() -> spec_fn((String, TreeNode)) -> bool {
    |c: (String, TreeNode)| !is_ungrouped(c)
}

pub open spec fn ungrouped_pred() -> spec_fn((String, TreeNode)) -> bool {
    |c: (String, TreeNode)| is_ungrouped(c)
}

/// Borrowed children as owned pairs, for specifications.
pub open spec fn deref_pairs(v: Seq<(&String, &TreeNode)>) -> Seq<(String, TreeNode)> {
    v.map_values(|c: (&String, &TreeNode)| (*c.0, *c.1))
}

/// The children of `node` in the order they are shown.
pub fn sorted_children(node: &TreeNode) -> (r: Vec<(&String, &TreeNode)>)
    ensures
        deref_pairs(r@) == display_order(node.children@),
{
    proof {
        reveal_strlit("ungrouped");
        assert("ungrouped"@ =~= lit_ungrouped());
    }
    let ghost ch = node.children@;
    let mut others: Vec<(&String, &TreeNode)> = Vec::new();
    let mut last: Vec<(&String, &TreeNode)> = Vec::new();
    let mut i: usize = 0;
    while i < node.children.len()
        invariant
            i <= node.children@.len(),
            ch == node.children@,
            "ungrouped"@ == lit_ungrouped(),
            deref_pairs(others@) == ch.take(i as int).filter(grouped_pred()),
            deref_pairs(last@) == ch.take(i as int).filter(ungrouped_pred()),
        decreases node.children.len() - i,
    {
        assert(ch.take(i + 1).filter(grouped_pred()) == if grouped_pred()(ch[i as int]) {
            ch.take(i as int).filter(grouped_pred()).push(ch[i as int])
        } else {
            ch.take(i as int).filter(grouped_pred())
        }) by {
            reveal(Seq::filter);
            assert(ch.take(i + 1).drop_last() =~= ch.take(i as int));
            assert(ch.take(i + 1).last() == ch[i as int]);
        }
        assert(ch.take(i + 1).filter(ungrouped_pred()) == if ungrouped_pred()(ch[i as int]) {
            ch.take(i as int).filter(ungrouped_pred()).push(ch[i as int])
        } else {
            ch.take(i as int).filter(ungrouped_pred())
        }) by {
            reveal(Seq::filter);
            assert(ch.take(i + 1).drop_last() =~= ch.take(i as int));
            assert(ch.take(i + 1).last() == ch[i as int]);
        }
        let c = &node.children[i];
        let ghost prev_others = deref_pairs(others@);
        let ghost prev_last = deref_pairs(last@);
        if str_eq(c.0.as_str(), "ungrouped") {
            last.push((&c.0, &c.1));
            assert(ungrouped_pred()(ch[i as int]));
            assert(!grouped_pred()(ch[i as int]));
            assert(deref_pairs(last@) =~= prev_last.push(ch[i as int]));
            assert(deref_pairs(others@) == prev_others);
        } else {
            others.push((&c.0, &c.1));
            assert(deref_pairs(others@) =~= prev_others.push(ch[i as int]));
        }
        i = i + 1;
    }
    assert(ch.take(ch.len() as int) == ch);
    let ghost o = deref_pairs(others@);
    let mut k: usize = 0;
    while k < last.len()
        invariant
            k <= last.len(),
            deref_pairs(others@) == o + deref_pairs(last@).take(k as int),
        decreases last.len() - k,
    {
        let ghost prev = deref_pairs(others@);
        others.push(last[k]);
        assert(deref_pairs(others@) =~= prev.push(deref_pairs(last@)[k as int]));
        assert(deref_pairs(last@).take(k + 1) =~= deref_pairs(last@).take(k as int).push(deref_pairs(last@)[k as int]));
        k = k + 1;
    }
    assert(deref_pairs(last@).take(last.len() as int) == deref_pairs(last@));
    others
}

/// The children of a well-formed node are in name order.
pub proof fn lemma_wf_root_sorted(node: TreeNode)
    requires
        tree_wf(node),
    ensures
        strictly_sorted(names(node.children@)),
{
    assert(lookup(node, Seq::empty()) == Some(node));
    assert(sorted_at(node, Seq::empty()));
}

/// What is shown for each child in display order: its name and node, once
/// as an entry if an entry ends there, and once as a folder if it has
/// children.
pub open spec fn items_of(sorted: Seq<(String, TreeNode)>) -> Seq<(Seq<char>, TreeNode, bool)>
    decreases sorted.len(),
{
    if sorted.len() == 0 {
        Seq::empty()
    } else {
        let prev = items_of(sorted.drop_last());
        let c = sorted.last();
        let with_entry = if c.1.is_entry { prev.push((c.0@, c.1, false)) } else { prev };
        if c.1.children@.len() > 0 {
            with_entry.push((c.0@, c.1, true))
        } else {
            with_entry
        }
    }
}

/// The items shown for the children of `node`.
pub open spec fn render_spec(node: TreeNode) -> Seq<(Seq<char>, TreeNode, bool)> {
    items_of(display_order(node.children@))
}

/// One line of the rendering of a node's children.
pub struct RenderItem<'a> {
    pub name: &'a String,
    pub child: &'a TreeNode,
    pub as_folder: bool,
}

pub open spec fn item_view(it: RenderItem) -> (Seq<char>, TreeNode, bool) {
    (it.name@, *it.child, it.as_folder)
}

proof fn lemma_items_from(sorted: Seq<(String, TreeNode)>)
    ensures
        forall|k: int| 0 <= k < items_of(sorted).len() ==> exists|i: int| 0 <= i < sorted.len() && #[trigger] items_of(sorted)[k].1 == sorted[i].1,
    decreases sorted.len(),
{
    if sorted.len() > 0 {
        lemma_items_from(sorted.drop_last());
        let prev = items_of(sorted.drop_last());
        assert forall|k: int| 0 <= k < items_of(sorted).len() implies exists|i: int| 0 <= i < sorted.len() && #[trigger] items_of(sorted)[k].1 == sorted[i].1 by {
            if k < prev.len() {
                let i = choose|i: int| 0 <= i < sorted.drop_last().len() && prev[k].1 == sorted.drop_last()[i].1;
                assert(items_of(sorted)[k] == prev[k]);
                assert(sorted[i] == sorted.drop_last()[i]);
            } else {
                assert(items_of(sorted)[k].1 == sorted[sorted.len() - 1].1);
            }
        }
    }
}

proof fn lemma_filter_from(ch: Seq<(String, TreeNode)>, p: spec_fn((String, TreeNode)) -> bool)
    ensures
        forall|k: int| 0 <= k < ch.filter(p).len() ==> ch.contains(#[trigger] ch.filter(p)[k]),
{
    assert forall|k: int| 0 <= k < ch.filter(p).len() implies ch.contains(#[trigger] ch.filter(p)[k]) by {
        assert(ch.filter(p).contains(ch.filter(p)[k]));
        ch.lemma_filter_contains_rev(p, ch.filter(p)[k]);
    }
}

/// Every node shown below `node` is one of its children.
pub proof fn lemma_render_children(node: TreeNode)
    ensures
        forall|k: int| 0 <= k < render_spec(node).len() ==> exists|i: int| 0 <= i < node.children@.len() && #[trigger] render_spec(node)[k].1 == node.children@[i].1,
{
    let ch = node.children@;
    let d = display_order(ch);
    lemma_items_from(d);
    lemma_filter_from(ch, grouped_pred());
    lemma_filter_from(ch, ungrouped_pred());
    assert forall|k: int| 0 <= k < render_spec(node).len() implies exists|i: int| 0 <= i < ch.len() && #[trigger] render_spec(node)[k].1 == ch[i].1 by {
        let j = choose|j: int| 0 <= j < d.len() && render_spec(node)[k].1 == d[j].1;
        let a = ch.filter(grouped_pred());
        if j < a.len() {
            assert(ch.contains(a[j]));
            let i = choose|i: int| 0 <= i < ch.len() && ch[i] == a[j];
            assert(d[j] == a[j]);
            assert(render_spec(node)[k].1 == ch[i].1);
        } else {
            let b = ch.filter(ungrouped_pred());
            assert(ch.contains(b[j - a.len()]));
            let i = choose|i: int| 0 <= i < ch.len() && ch[i] == b[j - a.len()];
            assert(d[j] == b[j - a.len()]);
            assert(render_spec(node)[k].1 == ch[i].1);
        }
    }
}

/// The items shown for the children of `node`.
pub fn render_items<'a>(node: &'a TreeNode) -> (r: Vec<RenderItem<'a>>)
    ensures
        r@.map_values(|it: RenderItem<'a>| item_view(it)) == render_spec(*node),
{
    let sorted = sorted_children(node);
    let ghost d = deref_pairs(sorted@);
    let mut items: Vec<RenderItem<'a>> = Vec::new();
    let mut i: usize = 0;
    while i < sorted.len()
        invariant
            i <= sorted.len(),
            d == deref_pairs(sorted@),
            items@.map_values(|it: RenderItem<'a>| item_view(it)) == items_of(d.take(i as int)),
        decreases sorted.len() - i,
    {
        let (name, child) = sorted[i];
        assert(d.take(i + 1).drop_last() =~= d.take(i as int));
        assert(d.take(i + 1).last() == (*name, *child));
        let ghost before = items@.map_values(|it: RenderItem<'a>| item_view(it));
        if child.is_entry {
            items.push(RenderItem { name, child, as_folder: false });
        }
        let ghost mid = items@.map_values(|it: RenderItem<'a>| item_view(it));
        assert(mid =~= if child.is_entry { before.push((name@, *child, false)) } else { before });
        if child.children.len() > 0 {
            items.push(RenderItem { name, child, as_folder: true });
            assert(items@.map_values(|it: RenderItem<'a>| item_view(it)) =~= mid.push((name@, *child, true)));
        }
        i = i + 1;
    }
    assert(d.take(sorted.len() as int) == d);
    items
}

/// The JSON form of a node of the tree.
pub struct JsonNode {
    pub name: String,
    pub kind: String,
    pub children: Vec<JsonNode>,
}

/// The node reached from `node` by following, at each level, the item at
/// the given position among those shown (which must be a folder).
pub open spec fn tree_at(node: TreeNode, ip: Seq<int>) -> Option<TreeNode>
    decreases ip.len(),
{
    if ip.len() == 0 {
        Some(node)
    } else {
        let items = render_spec(node);
        if 0 <= ip[0] < items.len() && items[ip[0]].2 {
            tree_at(items[ip[0]].1, ip.drop_first())
        } else {
            None
        }
    }
}

/// The JSON list reached by following the children of the given positions.
pub open spec fn json_level(js: Seq<JsonNode>, ip: Seq<int>) -> Option<Seq<JsonNode>>
    decreases ip.len(),
{
    if ip.len() == 0 {
        Some(js)
    } else if 0 <= ip[0] < js.len() {
        json_level(js[ip[0]].children@, ip.drop_first())
    } else {
        None
    }
}

/// `l` lists the items shown for `t`: names, `folder` or `entry`, and no
/// children for an entry.
pub open spec fn level_ok(t: TreeNode, l: Seq<JsonNode>) -> bool {
    let items = render_spec(t);
    &&& l.len() == items.len()
    &&& forall|k: int| 0 <= k < l.len() ==> #[trigger] json_item_ok(items[k], l[k])
}

pub open spec fn json_item_ok(item: (Seq<char>, TreeNode, bool), j: JsonNode) -> bool {
    &&& j.name@ == item.0
    &&& if item.2 {
        j.kind@ == "folder"@
    } else {
        j.kind@ == "entry"@ && j.children@.len() == 0
    }
}

pub open spec fn json_ok_at(node: TreeNode, js: Seq<JsonNode>, ip: Seq<int>) -> bool {
    match tree_at(node, ip) {
        Some(t) => match json_level(js, ip) {
            Some(l) => level_ok(t, l),
            None => false,
        },
        None => true,
    }
}

/// `js` is the JSON form of the children of `node`, at every depth.
pub open spec fn json_matches(node: TreeNode, js: Seq<JsonNode>) -> bool {
    forall|ip: Seq<int>| #[trigger] json_ok_at(node, js, ip)
}

/// The JSON form of the children of `node`.
pub fn node_children_to_json(node: &TreeNode) -> (r: Vec<JsonNode>)
    ensures
        json_matches(*node, r@),
    decreases *node,
{
    let items = render_items(node);
    let ghost spec_items = render_spec(*node);
    let mut out: Vec<JsonNode> = Vec::new();
    let mut i: usize = 0;
    while i < items.len()
        invariant
            i <= items.len(),
            items@.map_values(|it: RenderItem| item_view(it)) == spec_items,
            spec_items == render_spec(*node),
            out.len() == i,
            forall|k: int| 0 <= k < i ==> #[trigger] json_item_ok(spec_items[k], out@[k]),
            forall|k: int| 0 <= k < i && spec_items[k].2 ==> json_matches(spec_items[k].1, #[trigger] out@[k].children@),
        decreases items.len() - i,
    {
        let item = &items[i];
        assert(item_view(*item) == spec_items[i as int]);
        if item.as_folder {
            proof {
                lemma_render_children(*node);
                let j = choose|j: int| 0 <= j < node.children@.len() && #[trigger] render_spec(*node)[i as int].1 == node.children@[j].1;
                assert(decreases_to!(*node => node.children@[j].1)) by {
                    assert(decreases_to!(*node => node.children));
                    assert(decreases_to!(node.children => node.children@));
                    assert(decreases_to!(node.children@ => node.children@[j]));
                    assert(decreases_to!(node.children@[j] => node.children@[j].1));
                }
            }
            let sub = node_children_to_json(item.child);
            out.push(JsonNode { name: item.name.clone(), kind: "folder".to_owned(), children: sub });
        } else {
            out.push(JsonNode { name: item.name.clone(), kind: "entry".to_owned(), children: Vec::new() });
        }
        i = i + 1;
    }
    proof {
        assert forall|ip: Seq<int>| #[trigger] json_ok_at(*node, out@, ip) by {
            if ip.len() > 0 {
                let k = ip[0];
                if 0 <= k < spec_items.len() && spec_items[k].2 {
                    assert(json_ok_at(spec_items[k].1, out@[k].children@, ip.drop_first()));
                }
            }
        }
    }
    out
}

/// The JSON form of the tree below the root.
pub fn root_children_to_json(root: &TreeNode) -> (r: Vec<JsonNode>)
    ensures
        json_matches(*root, r@),
{
    node_children_to_json(root)
}

pub open spec fn lit_tee() -> Seq<char> {
    "├── "@
}

pub open spec fn lit_elbow() -> Seq<char> {
    "└── "@
}

pub open spec fn lit_pipe_indent() -> Seq<char> {
    "│   "@
}

pub open spec fn lit_blank_indent() -> Seq<char> {
    "    "@
}

/// A line of the printed tree: what goes before the branch, the branch,
/// the name, and whether the name is a folder (printed with a `/`).
pub struct TreeLine {
    pub lead: String,
    pub branch: String,
    pub name: String,
    pub folder: bool,
}

pub open spec fn line_view(l: TreeLine) -> (Seq<char>, Seq<char>, Seq<char>, bool) {
    (l.lead@, l.branch@, l.name@, l.folder)
}

/// The lines printed for the items of `node` from the `k`-th on, each
/// followed by the lines of its own children when it is a folder.
pub open spec fn lines_from(node: TreeNode, prefix: Seq<char>, at_root: bool, k: int) -> Seq<(Seq<char>, Seq<char>, Seq<char>, bool)>
    decreases node, render_spec(node).len() - k,
{
    let items = render_spec(node);
    if k < 0 || k >= items.len() {
        Seq::empty()
    } else {
        let item = items[k];
        let is_last = k + 1 == items.len();
        let branch = if is_last { lit_elbow() } else { lit_tee() };
        let lead = if at_root { Seq::empty() } else { prefix };
        let line = (lead, branch, item.0, item.2);
        let indent = if is_last { lit_blank_indent() } else { lit_pipe_indent() };
        let next = if at_root { indent } else { prefix + indent };
        let sub = if item.2 {
            proof {
                lemma_render_children(node);
                let j = choose|j: int| 0 <= j < node.children@.len() && #[trigger] render_spec(node)[k].1 == node.children@[j].1;
                assert(decreases_to!(node => node.children@[j].1)) by {
                    assert(decreases_to!(node => node.children));
                    assert(decreases_to!(node.children => node.children@));
                    assert(decreases_to!(node.children@ => node.children@[j]));
                    assert(decreases_to!(node.children@[j] => node.children@[j].1));
                }
            }
            lines_from(item.1, next, false, 0)
        } else {
            Seq::empty()
        };
        seq![line] + sub + lines_from(node, prefix, at_root, k + 1)
    }
}

/// Appends the lines printed for the children of `node` to `out`.
pub fn print_tree(node: &TreeNode, prefix: &str, at_root: bool, out: &mut Vec<TreeLine>)
    ensures
        final(out)@.map_values(|l: TreeLine| line_view(l)) == old(out)@.map_values(|l: TreeLine| line_view(l))
            + lines_from(*node, prefix@, at_root, 0),
    decreases *node,
{
    let items = render_items(node);
    let ghost spec_items = render_spec(*node);
    let ghost start = old(out)@.map_values(|l: TreeLine| line_view(l));
    let ghost mut acc: Seq<(Seq<char>, Seq<char>, Seq<char>, bool)> = Seq::empty();
    let mut idx: usize = 0;
    assert(lines_from(*node, prefix@, at_root, 0) == acc + lines_from(*node, prefix@, at_root, 0));
    while idx < items.len()
        invariant
            idx <= items.len(),
            items@.map_values(|it: RenderItem| item_view(it)) == spec_items,
            spec_items == render_spec(*node),
            out@.map_values(|l: TreeLine| line_view(l)) == start + acc,
            lines_from(*node, prefix@, at_root, 0) == acc + lines_from(*node, prefix@, at_root, idx as int),
        decreases items.len() - idx,
    {
        let item = &items[idx];
        assert(item_view(*item) == spec_items[idx as int]);
        let is_last = idx + 1 == items.len();
        let branch = if is_last { "└── ".to_owned() } else { "├── ".to_owned() };
        let lead = if at_root { String::new() } else { prefix.to_owned() };
        let ghost before = out@.map_values(|l: TreeLine| line_view(l));
        out.push(TreeLine { lead, branch, name: item.name.clone(), folder: item.as_folder });
        let ghost line = (lead@, branch@, item.name@, item.as_folder);
        assert(out@.map_values(|l: TreeLine| line_view(l)) =~= before.push(line));
        let ghost sub: Seq<(Seq<char>, Seq<char>, Seq<char>, bool)> = Seq::empty();
        if item.as_folder {
            let indent = if is_last { "    " } else { "│   " };
            let next = if at_root { indent.to_owned() } else { crate::text::concat(prefix, indent) };
            proof {
                lemma_render_children(*node);
                let j = choose|j: int| 0 <= j < node.children@.len() && #[trigger] render_spec(*node)[idx as int].1 == node.children@[j].1;
                assert(decreases_to!(*node => node.children@[j].1)) by {
                    assert(decreases_to!(*node => node.children));
                    assert(decreases_to!(node.children => node.children@));
                    assert(decreases_to!(node.children@ => node.children@[j]));
                    assert(decreases_to!(node.children@[j] => node.children@[j].1));
                }
            }
            let ghost mid = out@.map_values(|l: TreeLine| line_view(l));
            print_tree(item.child, next.as_str(), false, out);
            proof {
                sub = lines_from(*item.child, next@, false, 0);
            }
            assert(out@.map_values(|l: TreeLine| line_view(l)) == mid + sub);
        }
        proof {
            assert(lines_from(*node, prefix@, at_root, idx as int) == seq![line] + sub + lines_from(*node, prefix@, at_root, idx + 1));
            assert(start + acc.push(line) + sub =~= start + (acc + (seq![line] + sub)));
            assert(acc + lines_from(*node, prefix@, at_root, idx as int) =~= (acc + (seq![line] + sub)) + lines_from(*node, prefix@, at_root, idx + 1));
            acc = acc + (seq![line] + sub);
            assert(out@.map_values(|l: TreeLine| line_view(l)) =~= start + acc);
        }
        idx = idx + 1;
    }
    assert(lines_from(*node, prefix@, at_root, idx as int) == Seq::<(Seq<char>, Seq<char>, Seq<char>, bool)>::empty());
    assert(acc + Seq::<(Seq<char>, Seq<char>, Seq<char>, bool)>::empty() =~= acc);
}

/// What `ls` groups entries by.
#[derive(Debug, Clone, Copy, PartialEq, Eq, Structural)]
pub enum GroupBy {
    Namespace,
    Kind,
    Priority,
    Status,
    Tags,
}

pub open spec fn group_named(lowered: Seq<char>) -> Option<GroupBy> {
    if lowered == seq!['n', 'a', 'm', 'e', 's', 'p', 'a', 'c', 'e'] {
        Some(GroupBy::Namespace)
    } else if lowered == seq!['k', 'i', 'n', 'd'] {
        Some(GroupBy::Kind)
    } else if lowered == seq!['p', 'r', 'i', 'o', 'r', 'i', 't', 'y'] {
        Some(GroupBy::Priority)
    } else if lowered == seq!['s', 't', 'a', 't', 'u', 's'] {
        Some(GroupBy::Status)
    } else if lowered == seq!['t', 'a', 'g', 's'] {
        Some(GroupBy::Tags)
    } else {
        None
    }
}

impl GroupBy {
    /// Reads a grouping, whatever the case of its letters.
    pub fn parse(input: &str) -> (r: Result<GroupBy, String>)
        ensures
            match group_named(unicode_lower(input@)) {
                Some(g) => r == Ok::<GroupBy, String>(g),
                None => r matches Err(e) && e@ == "unknown group '"@ + input@
                    + "', expected one of: namespace, kind, priority, status, tags"@,
            },
    {
        let lowered = to_lowercase(input);
        let l = lowered.as_str();
        proof {
            reveal_strlit("namespace");
            reveal_strlit("kind");
            reveal_strlit("priority");
            reveal_strlit("status");
            reveal_strlit("tags");
            assert("namespace"@ =~= seq!['n', 'a', 'm', 'e', 's', 'p', 'a', 'c', 'e']);
            assert("kind"@ =~= seq!['k', 'i', 'n', 'd']);
            assert("priority"@ =~= seq!['p', 'r', 'i', 'o', 'r', 'i', 't', 'y']);
            assert("status"@ =~= seq!['s', 't', 'a', 't', 'u', 's']);
            assert("tags"@ =~= seq!['t', 'a', 'g', 's']);
        }
        if str_eq(l, "namespace") {
            Ok(GroupBy::Namespace)
        } else if str_eq(l, "kind") {
            Ok(GroupBy::Kind)
        } else if str_eq(l, "priority") {
            Ok(GroupBy::Priority)
        } else if str_eq(l, "status") {
            Ok(GroupBy::Status)
        } else if str_eq(l, "tags") {
            Ok(GroupBy::Tags)
        } else {
            let mut msg = concat("unknown group '", input);
            push_str(&mut msg, "', expected one of: namespace, kind, priority, status, tags");
            Err(msg)
        }
    }
}

/// The filters of `ls`; the tags are lowercased.
pub struct LsFilters {
    pub kind: Option<Kind>,
    pub priority: Option<Priority>,
    pub status: Option<Status>,
    pub tags: Vec<String>,
    pub deadline: Option<Date>,
    pub before: Option<Date>,
    pub after: Option<Date>,
}

/// An entry with the slug it is stored under.
pub struct StoredEntry {
    pub slug: String,
    pub entry: Entry,
}

/// The message for a date that cannot be read.
pub open spec fn date_error(label: Seq<char>, e: Seq<char>) -> Seq<char> {
    "invalid "@ + label + " date format: "@ + e
}

/// Reads an optional `YYYY-MM-DD` date given for the option `label`.
pub fn parse_date(input: Option<&str>, label: &str) -> (r: Result<Option<Date>, String>)
    ensures
        match input {
            None => r matches Ok(None),
            Some(s) => match read_date(s@) {
                Ok(d) => r == Ok::<Option<Date>, String>(Some(d)),
                Err(e) => r matches Err(m) && m@ == date_error(label@, e),
            },
        },
{
    match input {
        None => Ok(None),
        Some(s) => match read_date_str(s) {
            Ok(d) => Ok(Some(d)),
            Err(e) => {
                let mut msg = concat("invalid ", label);
                push_str(&mut msg, " date format: ");
                push_str(&mut msg, e.as_str());
                Err(msg)
            },
        },
    }
}

/// Reads an optional kind.
fn parse_kind_opt(s: Option<&str>) -> (r: Result<Option<Kind>, String>)
    ensures
        match s {
            None => r matches Ok(None),
            Some(x) => match Kind::named(unicode_lower(x@)) {
                Some(k) => r == Ok::<Option<Kind>, String>(Some(k)),
                None => r matches Err(e) && e@ == "unknown kind: "@ + x@,
            },
        },
{
    match s {
        None => Ok(None),
        Some(x) => Ok(Some(Kind::from_str(x)?)),
    }
}

/// Reads an optional priority.
fn parse_priority_opt(s: Option<&str>) -> (r: Result<Option<Priority>, String>)
    ensures
        match s {
            None => r matches Ok(None),
            Some(x) => match Priority::named(unicode_lower(x@)) {
                Some(p) => r == Ok::<Option<Priority>, String>(Some(p)),
                None => r matches Err(e) && e@ == "unknown priority: "@ + x@,
            },
        },
{
    match s {
        None => Ok(None),
        Some(x) => Ok(Some(Priority::from_str(x)?)),
    }
}

/// Reads an optional status.
fn parse_status_opt(s: Option<&str>) -> (r: Result<Option<Status>, String>)
    ensures
        match s {
            None => r matches Ok(None),
            Some(x) => match Status::named(unicode_lower(x@)) {
                Some(st) => r == Ok::<Option<Status>, String>(Some(st)),
                None => r matches Err(e) && e@ == "unknown status: "@ + x@,
            },
        },
{
    match s {
        None => Ok(None),
        Some(x) => Ok(Some(Status::from_str(x)?)),
    }
}

/// The lowercase form of each string.
pub fn lowercase_all(v: &[String]) -> (r: Vec<String>)
    ensures
        seq_view_of(r@) == seq_view_of(v@).map_values(|t: Seq<char>| unicode_lower(t)),
{
    let mut out: Vec<String> = Vec::new();
    let mut i: usize = 0;
    while i < v.len()
        invariant
            i <= v.len(),
            seq_view_of(out@) == seq_view_of(v@.take(i as int)).map_values(|t: Seq<char>| unicode_lower(t)),
        decreases v.len() - i,
    {
        let ghost prev = seq_view_of(out@);
        let low = to_lowercase(v[i].as_str());
        assert(low@ == unicode_lower(v@[i as int]@));
        out.push(low);
        assert(seq_view_of(out@) =~= prev.push(low@));
        assert(seq_view_of(v@.take(i + 1)) =~= seq_view_of(v@.take(i as int)).push(v@[i as int]@));
        assert(seq_view_of(v@.take(i as int)).push(v@[i as int]@).map_values(|t: Seq<char>| unicode_lower(t))
            =~= seq_view_of(v@.take(i as int)).map_values(|t: Seq<char>| unicode_lower(t)).push(unicode_lower(v@[i as int]@)));
        assert(seq_view_of(out@) =~= seq_view_of(v@.take(i + 1)).map_values(|t: Seq<char>| unicode_lower(t)));
        i = i + 1;
    }
    assert(v@.take(v.len() as int) == v@);
    out
}

/// The characters of an optional string slice.
pub open spec fn opt_str(o: Option<&str>) -> Option<Seq<char>> {
    match o {
        Some(s) => Some(s@),
        None => None,
    }
}

pub open spec fn kind_error(k: Option<Seq<char>>) -> Option<Seq<char>> {
    match k {
        Some(x) => if Kind::named(unicode_lower(x)) is None { Some("unknown kind: "@ + x) } else { None },
        None => None,
    }
}

pub open spec fn priority_error(p: Option<Seq<char>>) -> Option<Seq<char>> {
    match p {
        Some(x) => if Priority::named(unicode_lower(x)) is None { Some("unknown priority: "@ + x) } else { None },
        None => None,
    }
}

pub open spec fn status_error(st: Option<Seq<char>>) -> Option<Seq<char>> {
    match st {
        Some(x) => if Status::named(unicode_lower(x)) is None { Some("unknown status: "@ + x) } else { None },
        None => None,
    }
}

pub open spec fn date_option_error(d: Option<Seq<char>>, label: Seq<char>) -> Option<Seq<char>> {
    match d {
        Some(x) => match read_date(x) {
            Err(e) => Some(date_error(label, e)),
            Ok(_) => None,
        },
        None => None,
    }
}

/// The first of the errors, in the order given.
pub open spec fn first_error(errors: Seq<Option<Seq<char>>>) -> Option<Seq<char>>
    decreases errors.len(),
{
    if errors.len() == 0 {
        None
    } else if errors[0] is Some {
        errors[0]
    } else {
        first_error(errors.drop_first())
    }
}

/// The value an optional date option stands for, once it has been read.
pub open spec fn date_value(d: Option<Seq<char>>) -> Option<Date> {
    match d {
        Some(x) => match read_date(x) {
            Ok(v) => Some(v),
            Err(_) => None,
        },
        None => None,
    }
}

/// Reads the filters of `ls`; the first option that cannot be read is
/// reported, in the order kind, priority, status, deadline, before, after.
pub fn parse_filters(
    kind: Option<&str>,
    priority: Option<&str>,
    status: Option<&str>,
    tags: &[String],
    deadline: Option<&str>,
    before: Option<&str>,
    after: Option<&str>,
) -> (r: Result<LsFilters, String>)
    ensures
        match first_error(seq![
            kind_error(opt_str(kind)),
            priority_error(opt_str(priority)),
            status_error(opt_str(status)),
            date_option_error(opt_str(deadline), "--deadline"@),
            date_option_error(opt_str(before), "--before"@),
            date_option_error(opt_str(after), "--after"@),
        ]) {
            Some(e) => r matches Err(m) && m@ == e,
            None => r matches Ok(f) && {
                &&& f.kind == (match kind { Some(x) => Kind::named(unicode_lower(x@)), None => None })
                &&& f.priority == (match priority { Some(x) => Priority::named(unicode_lower(x@)), None => None })
                &&& f.status == (match status { Some(x) => Status::named(unicode_lower(x@)), None => None })
                &&& seq_view_of(f.tags@) == seq_view_of(tags@).map_values(|t: Seq<char>| unicode_lower(t))
                &&& f.deadline == date_value(opt_str(deadline))
                &&& f.before == date_value(opt_str(before))
                &&& f.after == date_value(opt_str(after))
            },
        },
{
    let ghost errs = seq![
        kind_error(opt_str(kind)),
        priority_error(opt_str(priority)),
        status_error(opt_str(status)),
        date_option_error(opt_str(deadline), "--deadline"@),
        date_option_error(opt_str(before), "--before"@),
        date_option_error(opt_str(after), "--after"@),
    ];
    assert(errs.drop_first()[0] == errs[1]);
    assert(errs.drop_first().drop_first()[0] == errs[2]);
    assert(errs.drop_first().drop_first().drop_first()[0] == errs[3]);
    assert(errs.drop_first().drop_first().drop_first().drop_first()[0] == errs[4]);
    assert(errs.drop_first().drop_first().drop_first().drop_first().drop_first()[0] == errs[5]);
    assert(errs.drop_first().drop_first().drop_first().drop_first().drop_first().drop_first().len() == 0);
    proof {
        reveal_with_fuel(first_error, 7);
    }
    let kind = parse_kind_opt(kind)?;
    let priority = parse_priority_opt(priority)?;
    let status = parse_status_opt(status)?;
    let deadline = parse_date(deadline, "--deadline")?;
    let before = parse_date(before, "--before")?;
    let after = parse_date(after, "--after")?;
    Ok(LsFilters { kind, priority, status, tags: lowercase_all(tags), deadline, before, after })
}

/// Whether an entry with these values passes the filters: each given
/// filter must hold; of the requested tags one is enough.
pub open spec fn passes(
    kind: Kind,
    priority: Priority,
    status: Status,
    tags: Seq<Seq<char>>,
    deadline: Option<Date>,
    f: LsFilters,
) -> bool {
    &&& (f.kind matches Some(k) ==> kind == k)
    &&& (f.priority matches Some(p) ==> priority == p)
    &&& (f.status matches Some(st) ==> status == st)
    &&& (f.tags@.len() > 0 ==> exists|i: int, j: int|
        0 <= i < f.tags@.len() && 0 <= j < tags.len() && #[trigger] f.tags@[i]@ == unicode_lower(#[trigger] tags[j]))
    &&& (f.deadline matches Some(d) ==> deadline == Some(d))
    &&& (f.before matches Some(b) ==> (deadline matches Some(d) && d.before(b)))
    &&& (f.after matches Some(a) ==> (deadline matches Some(d) && a.before(d)))
}

/// Whether `entry` passes the filters.
pub fn matches_filters(entry: &Entry, filters: &LsFilters) -> (b: bool)
    ensures
        b == passes(entry.kind, entry.priority, entry.status, seq_view_of(entry.tags@), entry.deadline, *filters),
{
    if let Some(kind) = &filters.kind {
        if entry.kind != *kind {
            return false;
        }
    }
    if let Some(priority) = &filters.priority {
        if entry.priority != *priority {
            return false;
        }
    }
    if let Some(status) = &filters.status {
        if entry.status != *status {
            return false;
        }
    }
    if filters.tags.len() > 0 {
        let tags = lowercase_all(entry.tags.as_slice());
        let ghost tv = seq_view_of(entry.tags@);
        assert(tags@.len() == seq_view_of(tags@).len());
        let mut found = false;
        let mut i: usize = 0;
        while i < filters.tags.len() && !found
            invariant
                i <= filters.tags@.len(),
                seq_view_of(tags@) == tv.map_values(|t: Seq<char>| unicode_lower(t)),
                tags@.len() == tv.len(),
                found ==> exists|a: int, c: int| 0 <= a < filters.tags@.len() && 0 <= c < tv.len() && #[trigger] filters.tags@[a]@ == unicode_lower(#[trigger] tv[c]),
                !found ==> forall|a: int, c: int| 0 <= a < i && 0 <= c < tv.len() ==> #[trigger] filters.tags@[a]@ != unicode_lower(#[trigger] tv[c]),
            decreases filters.tags.len() - i,
        {
            let mut j: usize = 0;
            while j < tags.len() && !found
                invariant
                    i < filters.tags@.len(),
                    j <= tags@.len(),
                    seq_view_of(tags@) == tv.map_values(|t: Seq<char>| unicode_lower(t)),
                    tags@.len() == tv.len(),
                    found ==> exists|a: int, c: int| 0 <= a < filters.tags@.len() && 0 <= c < tv.len() && #[trigger] filters.tags@[a]@ == unicode_lower(#[trigger] tv[c]),
                    !found ==> forall|a: int, c: int| 0 <= a < i && 0 <= c < tv.len() ==> #[trigger] filters.tags@[a]@ != unicode_lower(#[trigger] tv[c]),
                    !found ==> forall|c: int| 0 <= c < j ==> filters.tags@[i as int]@ != unicode_lower(#[trigger] tv[c]),
                decreases tags.len() - j,
            {
                assert(seq_view_of(tags@)[j as int] == tags@[j as int]@);
                if str_eq(tags[j].as_str(), filters.tags[i].as_str()) {
                    found = true;
                    assert(filters.tags@[i as int]@ == unicode_lower(tv[j as int]));
                }
                j = j + 1;
            }
            i = i + 1;
        }
        if !found {
            return false;
        }
    }
    if let Some(deadline) = &filters.deadline {
        match &entry.deadline {
            Some(d) => if *d != *deadline {
                return false;
            },
            None => return false,
        }
    }
    if let Some(before) = &filters.before {
        match &entry.deadline {
            Some(d) => if !d.is_before(before) {
                return false;
            },
            None => return false,
        }
    }
    if let Some(after) = &filters.after {
        match &entry.deadline {
            Some(d) => if !after.is_before(d) {
                return false;
            },
            None => return false,
        }
    }
    true
}

/// Whether an entry in namespace `ns` is listed under the prefix: the
/// namespace itself or any namespace below it.
pub open spec fn under_prefix(ns: Option<Seq<char>>, prefix: Option<Seq<char>>) -> bool {
    match prefix {
        None => true,
        Some(p) => match ns {
            Some(n) => n == p || starts_with(n, p + seq!['/']),
            None => false,
        },
    }
}

/// Whether the namespace `entry_namespace` is `prefix` or lies below it.
pub fn namespace_matches(entry_namespace: Option<&str>, prefix: Option<&str>) -> (b: bool)
    ensures
        b == under_prefix(opt_str(entry_namespace), opt_str(prefix)),
{
    match prefix {
        None => true,
        Some(p) => match entry_namespace {
            Some(n) => {
                let with_slash = concat(p, "/");
                proof {
                    reveal_strlit("/");
                    assert("/"@ =~= seq!['/']);
                }
                str_eq(n, p) || starts_with_str(n, with_slash.as_str())
            },
            None => false,
        },
    }
}

/// The segments of a namespace; none without a namespace.
pub open spec fn components_of(ns: Option<Seq<char>>) -> Seq<Seq<char>> {
    match ns {
        Some(n) => split(n, '/'),
        None => Seq::empty(),
    }
}

/// The segments of a namespace.
pub fn namespace_components(namespace: Option<&str>) -> (r: Vec<String>)
    ensures
        seq_view_of(r@) == components_of(opt_str(namespace)),
{
    match namespace {
        Some(n) => split_str(n, '/'),
        None => Vec::new(),
    }
}

/// The groups (each a path of folder names) that an entry with these
/// values is listed under.
pub open spec fn group_paths(
    kind: Kind,
    priority: Priority,
    status: Status,
    tags: Seq<Seq<char>>,
    ns: Option<Seq<char>>,
    g: GroupBy,
) -> Set<Seq<Seq<char>>> {
    match g {
        GroupBy::Namespace => set![
            if components_of(ns).len() == 0 { seq![lit_ungrouped()] } else { components_of(ns) },
        ],
        GroupBy::Kind => set![seq![kind.name()]],
        GroupBy::Priority => set![seq![priority.name()]],
        GroupBy::Status => set![seq![status.name()]],
        GroupBy::Tags => if tags.len() == 0 {
            set![seq![lit_ungrouped()]]
        } else {
            Set::new(|p: Seq<Seq<char>>| exists|i: int| 0 <= i < tags.len() && p == seq![#[trigger] tags[i]])
        },
    }
}

/// The views of a list of groups.
pub open spec fn groups_view(r: Seq<Vec<String>>) -> Seq<Seq<Seq<char>>> {
    r.map_values(|g: Vec<String>| seq_view_of(g@))
}

/// A list of groups holding one group of one name.
fn single_group(name: String) -> (r: Vec<Vec<String>>)
    ensures
        groups_view(r@) == seq![seq![name@]],
        r@.len() == 1,
        r@[0]@.len() == 1,
{
    let mut inner: Vec<String> = Vec::new();
    inner.push(name);
    let mut r: Vec<Vec<String>> = Vec::new();
    r.push(inner);
    assert(seq_view_of(r@[0]@) =~= seq![name@]);
    assert(groups_view(r@) =~= seq![seq![name@]]);
    r
}

proof fn lemma_single_contains<A>(s: Seq<A>, x: A)
    requires
        s == seq![x],
    ensures
        forall|p: A| s.contains(p) <==> p == x,
{
    assert forall|p: A| s.contains(p) <==> p == x by {
        if p == x {
            assert(s[0] == p);
        }
    }
}

/// The groups an entry is listed under: one for a namespace (its segments,
/// or `ungrouped`), kind, priority or status; for tags, one per distinct
/// tag in increasing order, or `ungrouped` when it has none.
pub fn groups_for_entry(stored: &StoredEntry, group: GroupBy) -> (r: Vec<Vec<String>>)
    ensures
        forall|p: Seq<Seq<char>>| groups_view(r@).contains(p) <==> group_paths(
            stored.entry.kind,
            stored.entry.priority,
            stored.entry.status,
            seq_view_of(stored.entry.tags@),
            opt_view(stored.entry.namespace),
            group,
        ).contains(p),
        group != GroupBy::Tags || stored.entry.tags@.len() == 0 ==> r@.len() == 1,
        group == GroupBy::Tags && stored.entry.tags@.len() > 0 ==> {
            &&& forall|k: int| 0 <= k < r@.len() ==> (#[trigger] r@[k])@.len() == 1
            &&& strictly_sorted(r@.map_values(|g: Vec<String>| g@[0]@))
        },
{
    proof {
        reveal_strlit("ungrouped");
        assert("ungrouped"@ =~= lit_ungrouped());
    }
    let e = &stored.entry;
    let ghost gp = group_paths(e.kind, e.priority, e.status, seq_view_of(e.tags@), opt_view(e.namespace), group);
    match group {
        GroupBy::Namespace => {
            let ns = match &e.namespace {
                Some(n) => Some(n.as_str()),
                None => None,
            };
            assert(opt_str(ns) == opt_view(e.namespace));
            let mut components = namespace_components(ns);
            if components.len() == 0 {
                components.push("ungrouped".to_owned());
                assert(seq_view_of(components@) =~= seq![lit_ungrouped()]);
            }
            let ghost cv = seq_view_of(components@);
            let mut r: Vec<Vec<String>> = Vec::new();
            r.push(components);
            assert(groups_view(r@) =~= seq![cv]);
            proof {
                lemma_single_contains(groups_view(r@), cv);
            }
            r
        },
        GroupBy::Kind => {
            let r = single_group(e.kind.to_string());
            proof {
                lemma_single_contains(groups_view(r@), seq![e.kind.name()]);
            }
            r
        },
        GroupBy::Priority => {
            let r = single_group(e.priority.to_string());
            proof {
                lemma_single_contains(groups_view(r@), seq![e.priority.name()]);
            }
            r
        },
        GroupBy::Status => {
            let r = single_group(e.status.to_string());
            proof {
                lemma_single_contains(groups_view(r@), seq![e.status.name()]);
            }
            r
        },
        GroupBy::Tags => {
            if e.tags.len() == 0 {
                let r = single_group("ungrouped".to_owned());
                proof {
                    lemma_single_contains(groups_view(r@), seq![lit_ungrouped()]);
                }
                r
            } else {
                let set = sorted_distinct(&e.tags);
                let ghost sv = seq_view_of(set@);
                let mut r: Vec<Vec<String>> = Vec::new();
                let mut i: usize = 0;
                while i < set.len()
                    invariant
                        i <= set@.len(),
                        sv == seq_view_of(set@),
                        r@.len() == i,
                        forall|k: int| 0 <= k < i ==> groups_view(r@)[k] == seq![#[trigger] sv[k]],
                        forall|k: int| 0 <= k < i ==> (#[trigger] r@[k])@.len() == 1 && r@[k]@[0]@ == sv[k],
                    decreases set.len() - i,
                {
                    r.push(vec![set[i].clone()]);
                    i = i + 1;
                }
                assert(r@.map_values(|g: Vec<String>| g@[0]@) =~= sv);
                assert forall|p: Seq<Seq<char>>| groups_view(r@).contains(p) <==> gp.contains(p) by {
                    let tv = seq_view_of(e.tags@);
                    if groups_view(r@).contains(p) {
                        let k = choose|k: int| 0 <= k < groups_view(r@).len() && groups_view(r@)[k] == p;
                        assert(sv.contains(sv[k]));
                        let i = choose|i: int| 0 <= i < tv.len() && tv[i] == sv[k];
                        assert(p == seq![tv[i]]);
                    }
                    if gp.contains(p) {
                        let i = choose|i: int| 0 <= i < tv.len() && p == seq![#[trigger] tv[i]];
                        assert(tv.contains(tv[i]));
                        let k = choose|k: int| 0 <= k < sv.len() && sv[k] == tv[i];
                        assert(groups_view(r@)[k] == p);
                    }
                }
                r
            }
        },
    }
}

/// What the namespace of an entry becomes once normalised.
pub open spec fn normalized_namespace(ns: Option<Seq<char>>) -> Result<Option<Seq<char>>, Seq<char>> {
    match ns {
        None => Ok(None),
        Some(n) => namespace_of(n),
    }
}

/// `p` is the path of the entry `slug` below one of the first `n` groups.
pub open spec fn entry_below(gv: Seq<Seq<Seq<char>>>, n: int, slug: Seq<char>, p: Seq<Seq<char>>) -> bool {
    exists|k: int| 0 <= k < n && p == (#[trigger] gv[k]).push(slug)
}

/// `p` leads towards the entry `slug` below one of the first `n` groups.
pub open spec fn node_below(gv: Seq<Seq<Seq<char>>>, n: int, slug: Seq<char>, p: Seq<Seq<char>>) -> bool {
    exists|k: int| 0 <= k < n && p.is_prefix_of((#[trigger] gv[k]).push(slug))
}

/// `p` is the path of the entry `slug` below one of the groups.
pub open spec fn entry_in(paths: Set<Seq<Seq<char>>>, slug: Seq<char>, p: Seq<Seq<char>>) -> bool {
    exists|g: Seq<Seq<char>>| #[trigger] paths.contains(g) && p == g.push(slug)
}

/// `p` leads towards the entry `slug` below one of the groups.
pub open spec fn node_in(paths: Set<Seq<Seq<char>>>, slug: Seq<char>, p: Seq<Seq<char>>) -> bool {
    exists|g: Seq<Seq<char>>| #[trigger] paths.contains(g) && p.is_prefix_of(g.push(slug))
}

/// Files the entry stored under `slug` in the tree of `ls`: the entry is
/// normalised (an error if its namespace cannot be read); if it passes the
/// filters and lies under the namespace prefix, it is added below each of
/// its groups.
pub fn add_entry(
    root: &mut TreeNode,
    slug: String,
    entry: Entry,
    group: GroupBy,
    prefix: Option<&str>,
    filters: &LsFilters,
) -> (r: Result<(), String>)
    requires
        tree_wf(*old(root)),
    ensures
        tree_wf(*final(root)),
        match normalized_namespace(opt_view(entry.namespace)) {
            Err(e) => r matches Err(m) && m@ == e && *final(root) == *old(root),
            Ok(ns) => r is Ok && {
                let tags = normalized_tags(seq_view_of(entry.tags@));
                let listed = passes(entry.kind, entry.priority, entry.status, tags, entry.deadline, *filters)
                    && under_prefix(ns, opt_str(prefix));
                let paths = group_paths(entry.kind, entry.priority, entry.status, tags, ns, group);
                &&& forall|p: Seq<Seq<char>>| #[trigger] has_entry(*final(root), p) <==> (has_entry(*old(root), p) || (listed
                    && entry_in(paths, slug@, p)))
                &&& forall|p: Seq<Seq<char>>| #[trigger] has_node(*final(root), p) <==> (has_node(*old(root), p) || (listed
                    && node_in(paths, slug@, p)))
            },
        },
{
    let mut entry = entry;
    entry.normalize()?;
    let ns = match &entry.namespace {
        Some(n) => Some(n.as_str()),
        None => None,
    };
    assert(opt_str(ns) == opt_view(entry.namespace));
    if !matches_filters(&entry, filters) || !namespace_matches(ns, prefix) {
        return Ok(());
    }
    let stored = StoredEntry { slug, entry };
    let groups = groups_for_entry(&stored, group);
    let ghost gv = groups_view(groups@);
    let ghost old_root = *root;
    let ghost sl = stored.slug@;
    let mut i: usize = 0;
    while i < groups.len()
        invariant
            i <= groups@.len(),
            gv == groups_view(groups@),
            sl == stored.slug@,
            tree_wf(*root),
            forall|p: Seq<Seq<char>>| #[trigger] has_entry(*root, p) <==> (has_entry(old_root, p) || entry_below(gv, i as int, sl, p)),
            forall|p: Seq<Seq<char>>| #[trigger] has_node(*root, p) <==> (has_node(old_root, p) || node_below(gv, i as int, sl, p)),
        decreases groups.len() - i,
    {
        let mut components = groups[i].clone();
        components.push(stored.slug.clone());
        assert(seq_view_of(components@) =~= gv[i as int].push(sl));
        root.insert_path(components.as_slice());
        proof {
            assert forall|p: Seq<Seq<char>>| #[trigger] has_entry(*root, p) <==> (has_entry(old_root, p)
                || entry_below(gv, i + 1, sl, p)) by {
                if p == gv[i as int].push(sl) {
                    assert(has_entry(*root, p));
                }
                if entry_below(gv, i + 1, sl, p) && !entry_below(gv, i as int, sl, p) {
                    let k = choose|k: int| 0 <= k < i + 1 && p == (#[trigger] gv[k]).push(sl);
                    assert(k == i);
                }
            }
            assert forall|p: Seq<Seq<char>>| #[trigger] has_node(*root, p) <==> (has_node(old_root, p)
                || node_below(gv, i + 1, sl, p)) by {
                if p.is_prefix_of(gv[i as int].push(sl)) {
                    assert(has_node(*root, p));
                }
                if node_below(gv, i + 1, sl, p) && !node_below(gv, i as int, sl, p) {
                    let k = choose|k: int| 0 <= k < i + 1 && p.is_prefix_of((#[trigger] gv[k]).push(sl));
                    assert(k == i);
                }
            }
        }
        i = i + 1;
    }
    proof {
        let tags = seq_view_of(stored.entry.tags@);
        let paths = group_paths(stored.entry.kind, stored.entry.priority, stored.entry.status, tags,
            opt_view(stored.entry.namespace), group);
        assert forall|p: Seq<Seq<char>>| entry_below(gv, gv.len() as int, sl, p) <==> #[trigger] entry_in(paths, sl, p) by {
            if entry_below(gv, gv.len() as int, sl, p) {
                let k = choose|k: int| 0 <= k < gv.len() && p == (#[trigger] gv[k]).push(sl);
                assert(gv.contains(gv[k]));
                assert(paths.contains(gv[k]));
            }
            if entry_in(paths, sl, p) {
                let g = choose|g: Seq<Seq<char>>| #[trigger] paths.contains(g) && p == g.push(sl);
                assert(gv.contains(g));
                let k = choose|k: int| 0 <= k < gv.len() && gv[k] == g;
                assert(p == gv[k].push(sl));
            }
        }
        assert forall|p: Seq<Seq<char>>| node_below(gv, gv.len() as int, sl, p) <==> #[trigger] node_in(paths, sl, p) by {
            if node_below(gv, gv.len() as int, sl, p) {
                let k = choose|k: int| 0 <= k < gv.len() && p.is_prefix_of((#[trigger] gv[k]).push(sl));
                assert(gv.contains(gv[k]));
                assert(paths.contains(gv[k]));
            }
            if node_in(paths, sl, p) {
                let g = choose|g: Seq<Seq<char>>| #[trigger] paths.contains(g) && p.is_prefix_of(g.push(sl));
                assert(gv.contains(g));
                let k = choose|k: int| 0 <= k < gv.len() && gv[k] == g;
                assert(p.is_prefix_of(gv[k].push(sl)));
            }
        }
    }
    Ok(())
}

/// Filtering twice with the same predicate is filtering once.
proof fn lemma_filter_twice(s: Seq<(String, TreeNode)>, p: spec_fn((String, TreeNode)) -> bool)
    ensures
        s.filter(p).filter(p) == s.filter(p),
    decreases s.len(),
{
    reveal(Seq::filter);
    if s.len() > 0 {
        lemma_filter_twice(s.drop_last(), p);
        let f = s.drop_last().filter(p);
        if p(s.last()) {
            assert(f.push(s.last()).drop_last() =~= f);
        }
    }
}

/// Of a sequence filtered by `p`, nothing passes a predicate that refuses
/// whatever `p` accepts.
proof fn lemma_filter_disjoint(
    s: Seq<(String, TreeNode)>,
    p: spec_fn((String, TreeNode)) -> bool,
    q: spec_fn((String, TreeNode)) -> bool,
)
    requires
        forall|c: (String, TreeNode)| #[trigger] p(c) ==> !q(c),
    ensures
        s.filter(p).filter(q) == Seq::<(String, TreeNode)>::empty(),
{
    let f = s.filter(p);
    assert forall|i: int| 0 <= i < f.len() implies !q(f[i]) by {
        s.lemma_filter_pred(p, i);
    }
    assert(f.all(|x: (String, TreeNode)| !q(x)));
    f.lemma_all_neg_filter_empty(q);
    assert(f.filter(q) =~= Seq::<(String, TreeNode)>::empty());
}

/// Filtering children in name order keeps them in name order.
proof fn lemma_filter_sorted(ch: Seq<(String, TreeNode)>, p: spec_fn((String, TreeNode)) -> bool)
    requires
        strictly_sorted(names(ch)),
    ensures
        strictly_sorted(names(ch.filter(p))),
    decreases ch.len(),
{
    reveal(Seq::filter);
    if ch.len() > 0 {
        let init = ch.drop_last();
        assert(strictly_sorted(names(init))) by {
            assert forall|i: int, j: int| 0 <= i < j < names(init).len() implies seq_lt(#[trigger] names(init)[i], #[trigger] names(init)[j]) by {
                assert(names(init)[i] == names(ch)[i]);
                assert(names(init)[j] == names(ch)[j]);
            }
        }
        lemma_filter_sorted(init, p);
        let f = init.filter(p);
        if p(ch.last()) {
            let g = f.push(ch.last());
            assert forall|i: int, j: int| 0 <= i < j < names(g).len() implies seq_lt(#[trigger] names(g)[i], #[trigger] names(g)[j]) by {
                if j == names(g).len() - 1 {
                    assert(f.contains(f[i]));
                    init.lemma_filter_contains_rev(p, f[i]);
                    let k = choose|k: int| 0 <= k < init.len() && init[k] == f[i];
                    assert(names(ch)[k] == f[i].0@);
                    assert(names(ch)[ch.len() - 1] == ch.last().0@);
                } else {
                    assert(names(g)[i] == names(f)[i]);
                    assert(names(g)[j] == names(f)[j]);
                }
            }
        }
    }
}

/// In the order shown, no child comes after `ungrouped`; every child is
/// shown, the others in their order and the `ungrouped` one after them.
/// Children kept in name order are shown with strictly increasing names,
/// but for `ungrouped`, which comes last.
pub proof fn law_ungrouped_last(ch: Seq<(String, TreeNode)>)
    ensures
        forall|i: int, j: int| 0 <= i < j < display_order(ch).len() && is_ungrouped(#[trigger] display_order(ch)[i])
            ==> is_ungrouped(#[trigger] display_order(ch)[j]),
        display_order(ch).len() == ch.len(),
        display_order(ch).filter(grouped_pred()) == ch.filter(grouped_pred()),
        display_order(ch).filter(ungrouped_pred()) == ch.filter(ungrouped_pred()),
        strictly_sorted(names(ch)) ==> forall|i: int, j: int| 0 <= i < j < display_order(ch).len()
            && !is_ungrouped(#[trigger] display_order(ch)[j])
            ==> seq_lt((#[trigger] display_order(ch)[i]).0@, display_order(ch)[j].0@),
{
    if strictly_sorted(names(ch)) {
        let a = ch.filter(grouped_pred());
        let b = ch.filter(ungrouped_pred());
        let d = display_order(ch);
        lemma_filter_sorted(ch, grouped_pred());
        assert forall|i: int, j: int| 0 <= i < j < d.len() && !is_ungrouped(#[trigger] d[j])
            implies seq_lt((#[trigger] d[i]).0@, d[j].0@) by {
            if j >= a.len() {
                ch.lemma_filter_pred(ungrouped_pred(), j - a.len());
                assert(d[j] == b[j - a.len()]);
            }
            assert(d[i] == a[i]);
            assert(d[j] == a[j]);
            assert(names(a)[i] == a[i].0@);
            assert(names(a)[j] == a[j].0@);
        }
    }
    let a = ch.filter(grouped_pred());
    let b = ch.filter(ungrouped_pred());
    let d = display_order(ch);
    Seq::filter_distributes_over_add(a, b, grouped_pred());
    Seq::filter_distributes_over_add(a, b, ungrouped_pred());
    lemma_filter_twice(ch, grouped_pred());
    lemma_filter_twice(ch, ungrouped_pred());
    lemma_filter_disjoint(ch, grouped_pred(), ungrouped_pred());
    lemma_filter_disjoint(ch, ungrouped_pred(), grouped_pred());
    assert(a + Seq::<(String, TreeNode)>::empty() =~= a);
    assert(Seq::<(String, TreeNode)>::empty() + b =~= b);
    assert forall|i: int, j: int| 0 <= i < j < d.len() && is_ungrouped(#[trigger] d[i]) implies is_ungrouped(#[trigger] d[j]) by {
        if i < a.len() {
            ch.lemma_filter_pred(grouped_pred(), i);
            assert(d[i] == a[i]);
        }
        assert(j >= a.len());
        ch.lemma_filter_pred(ungrouped_pred(), j - a.len());
        assert(d[j] == b[j - a.len()]);
    }
    lemma_filter_split_len(ch);
}

proof fn lemma_filter_split_len(ch: Seq<(String, TreeNode)>)
    ensures
        ch.filter(grouped_pred()).len() + ch.filter(ungrouped_pred()).len() == ch.len(),
    decreases ch.len(),
{
    reveal(Seq::filter);
    if ch.len() > 0 {
        lemma_filter_split_len(ch.drop_last());
    }
}

/// Every line drawn below a lead, for the items of `node` from the `k`-th
/// on, starts with that lead, at every depth.
pub proof fn law_lines_keep_lead(node: TreeNode, prefix: Seq<char>, k: int)
    ensures
        forall|j: int| 0 <= j < lines_from(node, prefix, false, k).len() ==> prefix.is_prefix_of(
            #[trigger] lines_from(node, prefix, false, k)[j].0,
        ),
    decreases node, render_spec(node).len() - k,
{
    let items = render_spec(node);
    if 0 <= k < items.len() {
        let item = items[k];
        let is_last = k + 1 == items.len();
        let indent = if is_last { lit_blank_indent() } else { lit_pipe_indent() };
        let next = prefix + indent;
        let line = (prefix, if is_last { lit_elbow() } else { lit_tee() }, item.0, item.2);
        law_lines_keep_lead(node, prefix, k + 1);
        let rest = lines_from(node, prefix, false, k + 1);
        let sub = if item.2 {
            lemma_render_children(node);
            let i = choose|i: int| 0 <= i < node.children@.len() && #[trigger] render_spec(node)[k].1 == node.children@[i].1;
            assert(decreases_to!(node => node.children@[i].1)) by {
                assert(decreases_to!(node => node.children));
                assert(decreases_to!(node.children => node.children@));
                assert(decreases_to!(node.children@ => node.children@[i]));
                assert(decreases_to!(node.children@[i] => node.children@[i].1));
            }
            law_lines_keep_lead(item.1, next, 0);
            lines_from(item.1, next, false, 0)
        } else {
            Seq::empty()
        };
        let all = lines_from(node, prefix, false, k);
        assert(all == seq![line] + sub + rest);
        assert forall|j: int| 0 <= j < all.len() implies prefix.is_prefix_of(#[trigger] all[j].0) by {
            if j == 0 {
                assert(all[j] == line);
                assert(prefix.is_prefix_of(prefix)) by {
                    assert(prefix.take(prefix.len() as int) =~= prefix);
                }
            } else if j < 1 + sub.len() {
                assert(all[j] == sub[j - 1]);
                let l = sub[j - 1].0;
                assert(next.is_prefix_of(l));
                assert(prefix.is_prefix_of(l)) by {
                    assert forall|m: int| 0 <= m < prefix.len() implies prefix[m] == l[m] by {
                        assert(next[m] == prefix[m]);
                    }
                }
            } else {
                assert(all[j] == rest[j - 1 - sub.len()]);
            }
        }
    }
}

/// A folder's line is followed by the lines of its own children, drawn
/// below the folder line's lead followed by one indent (`│   `, or blank
/// spaces below the last item), and then by the lines of the items after
/// it. The lead of an item's line is the prefix, except at the root, where
/// there is none.
pub proof fn law_folder_children_indented(node: TreeNode, prefix: Seq<char>, at_root: bool, k: int)
    requires
        0 <= k < render_spec(node).len(),
        render_spec(node)[k].2,
    ensures
        ({
            let lines = lines_from(node, prefix, at_root, k);
            let item = render_spec(node)[k];
            let lead = if at_root { Seq::empty() } else { prefix };
            let indent = if k + 1 == render_spec(node).len() { "    "@ } else { "│   "@ };
            &&& lines[0].0 == lead
            &&& lines[0].2 == item.0
            &&& lines[0].3
            &&& lines == seq![lines[0]] + lines_from(item.1, lead + indent, false, 0) + lines_from(node, prefix, at_root, k + 1)
        }),
{
    let lines = lines_from(node, prefix, at_root, k);
    let item = render_spec(node)[k];
    let lead: Seq<char> = if at_root { Seq::empty() } else { prefix };
    let indent = if k + 1 == render_spec(node).len() { lit_blank_indent() } else { lit_pipe_indent() };
    assert(lead + indent == if at_root { indent } else { prefix + indent }) by {
        if at_root {
            assert(Seq::<char>::empty() + indent =~= indent);
        }
    }
}

/// No filter set.
pub open spec fn no_filter(f: LsFilters) -> bool {
    &&& f.kind is None
    &&& f.priority is None
    &&& f.status is None
    &&& f.tags@.len() == 0
    &&& f.deadline is None
    &&& f.before is None
    &&& f.after is None
}

/// What the filters of `ls` keep: with none set every entry is listed; each
/// filter keeps only entries whose field matches it (`--before` and
/// `--after` only entries with a deadline strictly before or after the
/// date, `--tag` only entries with a tag whose lowercase form was asked
/// for); an entry is listed only if it passes each filter set.
pub proof fn law_filters(
    kind: Kind,
    priority: Priority,
    status: Status,
    tags: Seq<Seq<char>>,
    deadline: Option<Date>,
    f: LsFilters,
)
    ensures
        no_filter(f) ==> passes(kind, priority, status, tags, deadline, f),
        passes(kind, priority, status, tags, deadline, f) ==> {
            &&& f.kind matches Some(k) ==> kind == k
            &&& f.priority matches Some(p) ==> priority == p
            &&& f.status matches Some(st) ==> status == st
            &&& f.deadline matches Some(d) ==> deadline == Some(d)
            &&& f.before matches Some(b) ==> (deadline matches Some(d) && d.before(b))
            &&& f.after matches Some(a) ==> (deadline matches Some(d) && a.before(d))
            &&& f.tags@.len() > 0 ==> exists|j: int| 0 <= j < tags.len() && seq_view_of(f.tags@).contains(
                unicode_lower(#[trigger] tags[j]),
            )
        },
        deadline is None && (f.deadline is Some || f.before is Some || f.after is Some) ==> !passes(
            kind,
            priority,
            status,
            tags,
            deadline,
            f,
        ),
        f.tags@.len() > 0 && tags.len() == 0 ==> !passes(kind, priority, status, tags, deadline, f),
{
    if passes(kind, priority, status, tags, deadline, f) && f.tags@.len() > 0 {
        let (i, j) = choose|i: int, j: int|
            0 <= i < f.tags@.len() && 0 <= j < tags.len() && #[trigger] f.tags@[i]@ == unicode_lower(#[trigger] tags[j]);
        assert(seq_view_of(f.tags@)[i] == f.tags@[i]@);
        assert(seq_view_of(f.tags@).contains(unicode_lower(tags[j])));
    }
}

/// A namespace lies under a prefix when it is the prefix or continues it
/// after a `/`: `personal/garage` lies under `personal`, `personalx` does
/// not. With no prefix every entry is listed; with one, no entry without a
/// namespace.
pub proof fn law_namespace_prefix(n: Seq<char>, p: Seq<char>)
    ensures
        under_prefix(Some(n), Some(p)) <==> (p.is_prefix_of(n) && (n.len() == p.len() || n[p.len() as int] == '/')),
        under_prefix(Some(n), None),
        under_prefix(None, None),
        !under_prefix(None, Some(p)),
{
    if p.is_prefix_of(n) && n.len() > p.len() && n[p.len() as int] == '/' {
        assert(n.subrange(0, p.len() as int + 1) =~= p + seq!['/']);
    }
    if p.is_prefix_of(n) && n.len() == p.len() {
        assert(n =~= p);
    }
    if starts_with(n, p + seq!['/']) {
        assert(n.subrange(0, p.len() as int + 1)[p.len() as int] == '/');
        assert forall|i: int| 0 <= i < p.len() implies p[i] == n[i] by {
            assert(n.subrange(0, p.len() as int + 1)[i] == (p + seq!['/'])[i]);
        }
    }
}

/// Where an entry is listed: grouped by namespace, under the one path
/// whose folder names, joined with `/`, spell its namespace (`ungrouped`
/// without one); grouped by tags, under each of its tags and nothing else
/// (`ungrouped` without any); grouped by kind, priority or status, under
/// the name of its value alone.
pub proof fn law_groups(kind: Kind, priority: Priority, status: Status, tags: Seq<Seq<char>>, ns: Option<Seq<char>>)
    ensures
        ns matches Some(n) ==> ({
            let g = group_paths(kind, priority, status, tags, ns, GroupBy::Namespace);
            &&& g.contains(split(n, '/'))
            &&& forall|p: Seq<Seq<char>>| #[trigger] g.contains(p) ==> p == split(n, '/') && crate::text::join(p, seq!['/']) == n
        }),
        ns is None ==> group_paths(kind, priority, status, tags, ns, GroupBy::Namespace) == set![seq![lit_ungrouped()]],
        tags.len() > 0 ==> ({
            let g = group_paths(kind, priority, status, tags, ns, GroupBy::Tags);
            &&& forall|j: int| 0 <= j < tags.len() ==> g.contains(seq![#[trigger] tags[j]])
            &&& forall|p: Seq<Seq<char>>| #[trigger] g.contains(p) ==> p.len() == 1 && tags.contains(p[0])
        }),
        tags.len() == 0 ==> group_paths(kind, priority, status, tags, ns, GroupBy::Tags) == set![seq![lit_ungrouped()]],
        group_paths(kind, priority, status, tags, ns, GroupBy::Kind) == set![seq![kind.name()]],
        group_paths(kind, priority, status, tags, ns, GroupBy::Priority) == set![seq![priority.name()]],
        group_paths(kind, priority, status, tags, ns, GroupBy::Status) == set![seq![status.name()]],
{
    if let Some(n) = ns {
        crate::entry::lemma_join_split(n, '/');
        assert(components_of(ns) == split(n, '/'));
    }
    if tags.len() > 0 {
        let g = group_paths(kind, priority, status, tags, ns, GroupBy::Tags);
        assert forall|j: int| 0 <= j < tags.len() implies g.contains(seq![#[trigger] tags[j]]) by {
            assert(seq![tags[j]] == seq![tags[j]]);
        }
        assert forall|p: Seq<Seq<char>>| #[trigger] g.contains(p) implies p.len() == 1 && tags.contains(p[0]) by {
            let i = choose|i: int| 0 <= i < tags.len() && p == seq![#[trigger] tags[i]];
            assert(p[0] == tags[i]);
        }
    }
}

} // verus!
