//! A navigable view over a shared node graph: a reference-counted root node
//! together with a scope path, offering fallback-aware reads, scoped
//! subtree and sequence-of-subtree navigation, and exclusive-owner writes.

use std::rc::Rc;

use vstd::prelude::*;

use crate::node::{Kind, Node, NodeV, Item, ItemV};
use crate::node::{lemma_node_get_kind, node_get, node_set};
use crate::path::{dec_str, split_path};
use crate::path::{index_segment, split_segments};

verus! {

/// The mathematical model of a tree view: the root node and the scope path.
#[verifier::ext_equal]
pub struct TreeV {
    pub root: NodeV,
    pub path: Seq<Seq<char>>,
}

/// A tree view: a shared root node plus the dot-separated path of the scope
/// the view is focused on. Many views may share one root; they copy only
/// the path and a counted reference, never the nodes.
#[derive(Debug)]
pub struct Tree {
    root: Rc<Node>,
    path: Vec<String>,
}

impl View for Tree {
    type V = TreeV;

    closed spec fn view(&self) -> TreeV {
        TreeV { root: self.root@, path: self.path.deep_view() }
    }
}

/// Fallback resolution of `key` under a scope prefix: the key is looked up
/// beneath the whole prefix first; as long as nothing is found the prefix
/// loses its last segment, until the key is looked up at the root itself.
/// The first value found on this walk, from the most specific scope to the
/// least, is the result.
pub open spec fn fallback_get(root: NodeV, prefix: Seq<Seq<char>>, key: Seq<char>, kind: Kind) -> Option<ItemV>
    decreases prefix.len(),
{
    if prefix.len() == 0 {
        node_get(root, seq![key], kind)
    } else {
        match node_get(root, prefix.push(key), kind) {
            Some(v) => Some(v),
            None => fallback_get(root, prefix.drop_last(), key, kind),
        }
    }
}

/// What a read of a (split) path means on a tree view: all but the last
/// segment of the path extend the view's scope, and the last segment is the
/// key resolved with scope fallback.
pub open spec fn tree_get(t: TreeV, parts: Seq<Seq<char>>, kind: Kind) -> Option<ItemV>
    recommends
        parts.len() >= 1,
{
    fallback_get(t.root, t.path + parts.drop_last(), parts.last(), kind)
}

/// Fallback monotonicity: a value stored under `key` at the root, with no
/// value under `key` at any scope on the chain from the root down to
/// `scope`, is returned by a fallback lookup from `scope` — an ancestor
/// value acts as a default for every descendant scope that does not
/// override it.
pub proof fn lemma_fallback_reaches_root(
    root: NodeV,
    scope: Seq<Seq<char>>,
    key: Seq<char>,
    kind: Kind,
    v: ItemV,
)
    requires
        node_get(root, seq![key], kind) == Some(v),
        forall|i: int|
            1 <= i <= scope.len() ==> node_get(root, #[trigger] scope.take(i).push(key), kind)
                is None,
    ensures
        fallback_get(root, scope, key, kind) == Some(v),
    decreases scope.len(),
{
    if scope.len() > 0 {
        assert(scope.take(scope.len() as int) =~= scope);
        assert(node_get(root, scope.push(key), kind) is None);
        assert forall|i: int| 1 <= i <= scope.drop_last().len() implies node_get(
            root,
            #[trigger] scope.drop_last().take(i).push(key),
            kind,
        ) is None by {
            assert(scope.drop_last().take(i) =~= scope.take(i));
        }
        lemma_fallback_reaches_root(root, scope.drop_last(), key, kind, v);
    }
}

/// Shadowing: when `key` is present, with the requested tag, directly
/// beneath the view's own scope, the fallback lookup returns that value —
/// no broader scope is ever consulted.
pub proof fn lemma_shadowing(
    root: NodeV,
    scope: Seq<Seq<char>>,
    key: Seq<char>,
    kind: Kind,
    v: ItemV,
)
    requires
        node_get(root, scope.push(key), kind) == Some(v),
    ensures
        fallback_get(root, scope, key, kind) == Some(v),
{
    if scope.len() == 0 {
        assert(scope.push(key) =~= seq![key]);
    }
}

/// No sibling leakage: whatever a fallback lookup returns was found under
/// one of the scopes on the chain from the view's own scope up to the root
/// — never under any other scope, in particular never under a sibling
/// scope. When no scope on the chain holds the key, the lookup returns
/// nothing.
pub proof fn lemma_fallback_from_ancestors(
    root: NodeV,
    scope: Seq<Seq<char>>,
    key: Seq<char>,
    kind: Kind,
)
    ensures
        match fallback_get(root, scope, key, kind) {
            Some(v) => exists|i: int|
                0 <= i <= scope.len() && node_get(root, #[trigger] scope.take(i).push(key), kind)
                    == Some(v),
            None => forall|i: int|
                0 <= i <= scope.len() ==> node_get(root, #[trigger] scope.take(i).push(key), kind)
                    is None,
        },
    decreases scope.len(),
{
    if scope.len() == 0 {
        assert(scope.take(0).push(key) =~= seq![key]);
    } else {
        assert(scope.take(scope.len() as int) =~= scope);
        match node_get(root, scope.push(key), kind) {
            Some(v) => {
                assert(node_get(root, scope.take(scope.len() as int).push(key), kind) == Some(v));
            },
            None => {
                lemma_fallback_from_ancestors(root, scope.drop_last(), key, kind);
                assert forall|i: int| 0 <= i <= scope.drop_last().len() implies scope.drop_last()
                    .take(i).push(key) =~= scope.take(i).push(key) by {
                    assert(scope.drop_last().take(i) =~= scope.take(i));
                }
                match fallback_get(root, scope.drop_last(), key, kind) {
                    Some(v) => {
                        let i = choose|i: int|
                            0 <= i <= scope.drop_last().len() && node_get(
                                root,
                                #[trigger] scope.drop_last().take(i).push(key),
                                kind,
                            ) == Some(v);
                        assert(node_get(root, scope.take(i).push(key), kind) == Some(v));
                    },
                    None => {
                        assert forall|i: int| 0 <= i <= scope.len() implies node_get(
                            root,
                            #[trigger] scope.take(i).push(key),
                            kind,
                        ) is None by {
                            if i < scope.len() {
                                assert(node_get(
                                    root,
                                    scope.drop_last().take(i).push(key),
                                    kind,
                                ) is None);
                            }
                        }
                    },
                }
            },
        }
    }
}

/// Round trip for sequences of nodes: a view returned by `forest` exposes
/// its own element's fields. When a well-formed root holds a sequence
/// under `segs`, whose element `i` is a node carrying `key` with the
/// requested tag, then a read of `key` on the view whose scope is `segs`
/// extended by the index `i` returns that element's own value.
pub proof fn lemma_forest_view_get(
    root: NodeV,
    segs: Seq<Seq<char>>,
    arr: Seq<ItemV>,
    i: int,
    key: Seq<char>,
    kind: Kind,
    v: ItemV,
)
    requires
        crate::node::wf_node(root),
        segs.len() >= 1,
        node_get(root, segs, Kind::Sequence) == Some(ItemV::Sequence(arr)),
        0 <= i < arr.len(),
        arr[i] matches ItemV::Node(m) && node_get(m, seq![key], kind) == Some(v),
    ensures
        tree_get(TreeV { root: root, path: segs.push(dec_str(i)) }, seq![key], kind) == Some(v),
{
    crate::path::lemma_dec_str_value(i);
    crate::node::lemma_node_get_through_sequence(
        root,
        segs,
        arr,
        dec_str(i),
        i,
        seq![key],
        kind,
    );
    assert(segs + seq![dec_str(i)] + seq![key] =~= segs.push(dec_str(i)).push(key));
    lemma_shadowing(root, segs.push(dec_str(i)), key, kind, v);
    assert(seq![key].drop_last() =~= Seq::<Seq<char>>::empty());
    assert(segs.push(dec_str(i)) + seq![key].drop_last() =~= segs.push(dec_str(i)));
}

/// Copy a list of path segments.
#[verifier::loop_isolation(false)]
fn copy_segments(v: &Vec<String>) -> (r: Vec<String>)
    ensures
        r.deep_view() == v.deep_view(),
{
    let n = v.len();
    let mut r: Vec<String> = Vec::new();
    let mut i: usize = 0;
    while i < n
        invariant
            n == v@.len(),
            0 <= i <= n,
            r.deep_view() =~= v.deep_view().take(i as int),
        decreases n - i,
    {
        r.push(v[i].clone());
        proof {
            assert(r.deep_view() =~= v.deep_view().take(i + 1));
        }
        i += 1;
    }
    proof {
        assert(v.deep_view().take(n as int) =~= v.deep_view());
    }
    r
}

impl Tree {
    /// Wrap a node graph as a tree view focused on the root scope.
    pub fn new(root: Node) -> (r: Tree)
        ensures
            r@.root == root@,
            r@.path == Seq::<Seq<char>>::empty(),
    {
        let r = Tree { root: Rc::new(root), path: Vec::new() };
        proof {
            assert(r@.path =~= Seq::<Seq<char>>::empty());
        }
        r
    }

    /// The view's scope path extended by a relative path: plain
    /// concatenation of the segments.
    fn chain(&self, path: &str) -> (r: Vec<String>)
        ensures
            r.deep_view() == self@.path + split_path(path@),
            r@.len() >= 1,
    {
        let mut r = copy_segments(&self.path);
        let mut tail = split_segments(path);
        r.append(&mut tail);
        proof {
            assert(r.deep_view() =~= self@.path + split_path(path@));
        }
        r
    }

    /// Return the subtree view under `path`, relative to this view's scope.
    /// The check is an exact one — the nested node must exist at the
    /// concatenation of the scope and `path`, without fallback — and the
    /// returned view shares this view's root.
    pub fn branch(&self, path: &str) -> (r: Option<Tree>)
        ensures
            match r {
                Some(t) => {
                    &&& node_get(self@.root, self@.path + split_path(path@), Kind::Node) is Some
                    &&& t@.root == self@.root
                    &&& t@.path == self@.path + split_path(path@)
                },
                None => node_get(self@.root, self@.path + split_path(path@), Kind::Node) is None,
            },
    {
        let segs = self.chain(path);
        proof {
            assert(segs.deep_view().skip(0) =~= segs.deep_view());
        }
        match self.root.get_at(&segs, 0, Kind::Node) {
            Some(_) => Some(Tree { root: Rc::clone(&self.root), path: segs }),
            None => None,
        }
    }

    /// Return one subtree view per element of the sequence of nodes under
    /// `path`, relative to this view's scope: an exact check like the one
    /// `branch` makes, yielding views in the sequence's order whose scope
    /// paths append each element's index. An empty sequence yields an empty
    /// collection of views.
    #[verifier::loop_isolation(false)]
    pub fn forest(&self, path: &str) -> (r: Option<Vec<Tree>>)
        ensures
            match r {
                Some(ts) => match node_get(
                    self@.root,
                    self@.path + split_path(path@),
                    Kind::Sequence,
                ) {
                    Some(ItemV::Sequence(arr)) => {
                        &&& ts@.len() == arr.len()
                        &&& forall|i: int|
                            0 <= i < arr.len() ==> (#[trigger] ts@[i])@.root == self@.root
                                && ts@[i]@.path == (self@.path + split_path(path@)).push(
                                dec_str(i),
                            )
                    },
                    _ => false,
                },
                None => node_get(self@.root, self@.path + split_path(path@), Kind::Sequence)
                    is None,
            },
    {
        let segs = self.chain(path);
        proof {
            assert(segs.deep_view().skip(0) =~= segs.deep_view());
        }
        match self.root.get_at(&segs, 0, Kind::Sequence) {
            Some(v) => {
                proof {
                    lemma_node_get_kind(self@.root, segs.deep_view(), Kind::Sequence);
                }
                match v {
                    Item::Sequence(arr) => {
                        proof {
                            crate::node::lemma_view_of_items(arr@);
                        }
                        let n = arr.len();
                        let mut ts: Vec<Tree> = Vec::new();
                        let mut i: usize = 0;
                        while i < n
                            invariant
                                0 <= i <= n,
                                ts@.len() == i,
                                forall|j: int|
                                    0 <= j < i ==> (#[trigger] ts@[j])@.root == self@.root
                                        && ts@[j]@.path == segs.deep_view().push(dec_str(j)),
                            decreases n - i,
                        {
                            let mut p = copy_segments(&segs);
                            p.push(index_segment(i));
                            let t = Tree { root: Rc::clone(&self.root), path: p };
                            proof {
                                assert(t@.path =~= segs.deep_view().push(dec_str(i as int)));
                            }
                            ts.push(t);
                            i += 1;
                        }
                        Some(ts)
                    },
                    _ => {
                        proof {
                            assert(false);
                        }
                        None
                    },
                }
            },
            None => None,
        }
    }

    /// Read the value with tag `kind` under `path`: all but the last
    /// segment of `path` extend this view's scope, and the last segment is
    /// resolved with scope fallback, from the most specific scope towards
    /// the root, as `fallback_get` describes.
    #[verifier::loop_isolation(false)]
    pub fn get<'a>(&'a self, path: &str, kind: Kind) -> (r: Option<&'a Item>)
        ensures
            match r {
                Some(v) => tree_get(self@, split_path(path@), kind) == Some(v@),
                None => tree_get(self@, split_path(path@), kind) is None,
            },
    {
        let parts = split_segments(path);
        let mut prefix = copy_segments(&self.path);
        let n = parts.len();
        let mut i: usize = 0;
        while i < n - 1
            invariant
                n == parts@.len(),
                1 <= n,
                0 <= i <= n - 1,
                prefix.deep_view() =~= self@.path + parts.deep_view().take(i as int),
            decreases n - 1 - i,
        {
            prefix.push(parts[i].clone());
            proof {
                assert(prefix.deep_view() =~= (self@.path + parts.deep_view().take(i as int)).push(
                    parts@[i as int]@,
                ));
                assert((self@.path + parts.deep_view().take(i as int)).push(parts@[i as int]@)
                    =~= self@.path + parts.deep_view().take(i + 1));
            }
            i += 1;
        }
        let key = &parts[n - 1];
        let ghost goal: Option<ItemV> = tree_get(self@, split_path(path@), kind);
        proof {
            assert(parts.deep_view().take(n - 1) =~= split_path(path@).drop_last());
            assert(key@ == split_path(path@).last());
            assert(goal == fallback_get(self@.root, prefix.deep_view(), key@, kind));
        }
        loop
            invariant
                goal == fallback_get(self@.root, prefix.deep_view(), key@, kind),
            decreases prefix@.len(),
        {
            if prefix.len() == 0 {
                let mut single: Vec<String> = Vec::new();
                single.push(key.clone());
                proof {
                    assert(single.deep_view().skip(0) =~= seq![key@]);
                }
                return self.root.get_at(&single, 0, kind);
            }
            let mut cand = copy_segments(&prefix);
            cand.push(key.clone());
            proof {
                assert(cand.deep_view().skip(0) =~= prefix.deep_view().push(key@));
            }
            match self.root.get_at(&cand, 0, kind) {
                Some(v) => {
                    return Some(v);
                },
                None => {
                    let ghost before = prefix.deep_view();
                    prefix.pop();
                    proof {
                        assert(prefix.deep_view() =~= before.drop_last());
                    }
                },
            }
        }
    }

    /// Write `value` under `path`, relative to this view's scope — plain
    /// concatenation, no fallback — as `node_set` describes. The write
    /// requires this view to be the only holder of the node graph: while
    /// other views share the root, the graph is left untouched and nothing
    /// is reported written.
    pub fn set(&mut self, path: &str, value: Item) -> (r: Option<()>)
        ensures
            match r {
                Some(_) => final(self)@.path == old(self)@.path && final(self)@.root == node_set(
                    old(self)@.root,
                    old(self)@.path + split_path(path@),
                    value@,
                ),
                None => final(self)@ == old(self)@,
            },
    {
        let segs = self.chain(path);
        let mut tmp: Rc<Node> = Rc::new(Node::new());
        core::mem::swap(&mut self.root, &mut tmp);
        match Rc::try_unwrap(tmp) {
            Ok(mut node) => {
                proof {
                    assert(segs.deep_view().skip(0) =~= segs.deep_view());
                }
                node.set_at(&segs, 0, value);
                self.root = Rc::new(node);
                Some(())
            },
            Err(rc) => {
                self.root = rc;
                proof {
                    assert(self@ =~= old(self)@);
                }
                None
            },
        }
    }
}

} // verus!

