//! One level of the configuration tree: named scalar values, nested nodes,
//! and ordered sequences of nodes, with path-based lookup and mutation.

use vstd::prelude::*;

use crate::path::{index_of_segment, split_path};
use crate::path::{parse_index_below, split_segments};

verus! {

/// The tag of a stored value, used to request a value of one particular
/// shape during lookup: a lookup yields a value only when the value under
/// the resolved path has exactly the requested tag.
#[derive(Clone, Copy, Debug, PartialEq, Eq, Structural)]
pub enum Kind {
    Boolean,
    Integer,
    Float,
    Text,
    Datetime,
    Node,
    Sequence,
}

/// A value stored under a field name: a scalar, a nested node, or an ordered
/// sequence. A floating-point scalar is carried as its raw bit pattern; a
/// timestamp is carried in its textual form. A sequence built by document
/// conversion holds only nodes.
#[derive(Debug, PartialEq)]
pub enum Item {
    Boolean(bool),
    Integer(i64),
    Float(u64),
    Text(String),
    Datetime(String),
    Node(Node),
    Sequence(Vec<Item>),
}

/// One scope level: an ordered list of (field name, value) entries.
#[derive(Debug, PartialEq)]
pub struct Node {
    entries: Vec<(String, Item)>,
}

/// The mathematical model of an `Item`.
#[verifier::ext_equal]
pub enum ItemV {
    Boolean(bool),
    Integer(int),
    Float(u64),
    Text(Seq<char>),
    Datetime(Seq<char>),
    Node(NodeV),
    Sequence(Seq<ItemV>),
}

/// The mathematical model of a `Node`.
#[verifier::ext_equal]
pub struct NodeV {
    pub entries: Seq<(Seq<char>, ItemV)>,
}

pub open spec fn view_of_item(v: Item) -> ItemV
    decreases v,
{
    match v {
        Item::Boolean(b) => ItemV::Boolean(b),
        Item::Integer(i) => ItemV::Integer(i as int),
        Item::Float(f) => ItemV::Float(f),
        Item::Text(s) => ItemV::Text(s@),
        Item::Datetime(s) => ItemV::Datetime(s@),
        Item::Node(n) => ItemV::Node(view_of_node(n)),
        Item::Sequence(vs) => ItemV::Sequence(view_of_items(vs@)),
    }
}

pub open spec fn view_of_items(vs: Seq<Item>) -> Seq<ItemV>
    decreases vs,
{
    if vs.len() == 0 {
        Seq::empty()
    } else {
        view_of_items(vs.drop_last()).push(view_of_item(vs.last()))
    }
}

pub open spec fn view_of_entries(s: Seq<(String, Item)>) -> Seq<(Seq<char>, ItemV)>
    decreases s,
{
    if s.len() == 0 {
        Seq::empty()
    } else {
        view_of_entries(s.drop_last()).push((s.last().0@, view_of_item(s.last().1)))
    }
}

pub closed spec fn view_of_node(n: Node) -> NodeV
    decreases n,
{
    NodeV { entries: view_of_entries(n.entries@) }
}

impl View for Item {
    type V = ItemV;

    open spec fn view(&self) -> ItemV {
        view_of_item(*self)
    }
}

impl View for Node {
    type V = NodeV;

    open spec fn view(&self) -> NodeV {
        view_of_node(*self)
    }
}

pub proof fn lemma_view_of_items(vs: Seq<Item>)
    ensures
        view_of_items(vs).len() == vs.len(),
        forall|i: int| 0 <= i < vs.len() ==> #[trigger] view_of_items(vs)[i] == view_of_item(vs[i]),
    decreases vs.len(),
{
    if vs.len() > 0 {
        lemma_view_of_items(vs.drop_last());
        assert(forall|i: int| 0 <= i < vs.len() - 1 ==> vs.drop_last()[i] == vs[i]);
    }
}

pub proof fn lemma_view_of_entries(s: Seq<(String, Item)>)
    ensures
        view_of_entries(s).len() == s.len(),
        forall|i: int| 0 <= i < s.len() ==> #[trigger] view_of_entries(s)[i] == (s[i].0@, view_of_item(s[i].1)),
    decreases s.len(),
{
    if s.len() > 0 {
        lemma_view_of_entries(s.drop_last());
        assert(forall|i: int| 0 <= i < s.len() - 1 ==> s.drop_last()[i] == s[i]);
    }
}

/// The tag of a modelled value.
pub open spec fn kind_of(v: ItemV) -> Kind {
    match v {
        ItemV::Boolean(_) => Kind::Boolean,
        ItemV::Integer(_) => Kind::Integer,
        ItemV::Float(_) => Kind::Float,
        ItemV::Text(_) => Kind::Text,
        ItemV::Datetime(_) => Kind::Datetime,
        ItemV::Node(_) => Kind::Node,
        ItemV::Sequence(_) => Kind::Sequence,
    }
}

/// The position of the first entry named `key`, if any.
pub open spec fn find_idx(s: Seq<(Seq<char>, ItemV)>, key: Seq<char>) -> Option<int>
    decreases s.len(),
{
    if s.len() == 0 {
        None
    } else if s[0].0 == key {
        Some(0)
    } else {
        match find_idx(s.drop_first(), key) {
            Some(i) => Some(i + 1),
            None => None,
        }
    }
}

/// The value of the first entry named `key`, if any.
pub open spec fn find_entry(s: Seq<(Seq<char>, ItemV)>, key: Seq<char>) -> Option<ItemV> {
    match find_idx(s, key) {
        Some(i) => Some(s[i].1),
        None => None,
    }
}

pub proof fn lemma_find_idx(s: Seq<(Seq<char>, ItemV)>, key: Seq<char>)
    ensures
        match find_idx(s, key) {
            Some(i) => 0 <= i < s.len() && s[i].0 == key && (forall|j: int|
                0 <= j < i ==> (#[trigger] s[j]).0 != key),
            None => forall|j: int| 0 <= j < s.len() ==> (#[trigger] s[j]).0 != key,
        },
    decreases s.len(),
{
    if s.len() > 0 && s[0].0 != key {
        lemma_find_idx(s.drop_first(), key);
        assert(forall|j: int| 1 <= j < s.len() ==> s[j] == s.drop_first()[j - 1]);
    }
}

/// Resolution of a segment path against a node, requesting a value with tag
/// `kind`. Segments name entries; a nested node consumes one segment and the
/// walk continues inside it; a sequence consumes two segments, the second
/// being a base-10 index into it. The walk never fails abruptly: any absent
/// name, malformed or out-of-range index, mismatched tag, or attempt to
/// descend into a scalar yields nothing.
pub open spec fn node_get(n: NodeV, segs: Seq<Seq<char>>, kind: Kind) -> Option<ItemV>
    decreases segs.len(),
{
    if segs.len() == 0 {
        None
    } else if segs.len() == 1 {
        match find_entry(n.entries, segs[0]) {
            Some(v) => if kind_of(v) == kind {
                Some(v)
            } else {
                None
            },
            None => None,
        }
    } else {
        match find_entry(n.entries, segs[0]) {
            Some(ItemV::Node(m)) => node_get(m, segs.drop_first(), kind),
            Some(ItemV::Sequence(arr)) => match index_of_segment(segs[1]) {
                Some(i) => if 0 <= i < arr.len() {
                    if segs.len() == 2 {
                        if kind_of(arr[i]) == kind {
                            Some(arr[i])
                        } else {
                            None
                        }
                    } else {
                        match arr[i] {
                            ItemV::Node(m) => node_get(m, segs.skip(2), kind),
                            _ => None,
                        }
                    }
                } else {
                    None
                },
                None => None,
            },
            _ => None,
        }
    }
}

/// A resolved value always carries the requested tag.
pub proof fn lemma_node_get_kind(n: NodeV, segs: Seq<Seq<char>>, kind: Kind)
    ensures
        node_get(n, segs, kind) matches Some(v) ==> kind_of(v) == kind,
    decreases segs.len(),
{
    if segs.len() > 1 {
        match find_entry(n.entries, segs[0]) {
            Some(ItemV::Node(m)) => {
                lemma_node_get_kind(m, segs.drop_first(), kind);
            },
            Some(ItemV::Sequence(arr)) => {
                match index_of_segment(segs[1]) {
                    Some(i) => {
                        if 0 <= i < arr.len() && segs.len() > 2 {
                            match arr[i] {
                                ItemV::Node(m) => {
                                    lemma_node_get_kind(m, segs.skip(2), kind);
                                },
                                _ => {},
                            }
                        }
                    },
                    None => {},
                }
            },
            _ => {},
        }
    }
}

/// The entry list with the first entry named `key` overwritten by `v`, the
/// entry keeping its position, or with `(key, v)` appended when no entry is
/// named `key`.
pub open spec fn put_entry(s: Seq<(Seq<char>, ItemV)>, key: Seq<char>, v: ItemV) -> Seq<
    (Seq<char>, ItemV),
> {
    match find_idx(s, key) {
        Some(i) => s.update(i, (key, v)),
        None => s.push((key, v)),
    }
}

/// A fresh chain of single-entry nodes carrying `v` at the end of `segs`.
pub open spec fn chain_node(segs: Seq<Seq<char>>, v: ItemV) -> NodeV
    decreases segs.len(),
{
    if segs.len() <= 1 {
        NodeV { entries: seq![(segs[0], v)] }
    } else {
        NodeV { entries: seq![(segs[0], ItemV::Node(chain_node(segs.drop_first(), v)))] }
    }
}

/// Mutation of a node along a segment path: the final segment stores `v`
/// under that name; an intermediate segment descends into an existing nested
/// node, and otherwise replaces whatever is there — nothing, a scalar, or a
/// sequence — by a fresh chain of nodes. Mutation always succeeds.
pub open spec fn node_set(n: NodeV, segs: Seq<Seq<char>>, v: ItemV) -> NodeV
    decreases segs.len(),
{
    if segs.len() <= 1 {
        NodeV { entries: put_entry(n.entries, segs[0], v) }
    } else {
        match find_entry(n.entries, segs[0]) {
            Some(ItemV::Node(m)) => NodeV {
                entries: put_entry(
                    n.entries,
                    segs[0],
                    ItemV::Node(node_set(m, segs.drop_first(), v)),
                ),
            },
            _ => NodeV {
                entries: put_entry(
                    n.entries,
                    segs[0],
                    ItemV::Node(chain_node(segs.drop_first(), v)),
                ),
            },
        }
    }
}

/// A well-formed value: every sequence anywhere inside it holds only
/// nodes, as document conversion guarantees.
pub open spec fn wf_item(v: ItemV) -> bool
    decreases v,
{
    match v {
        ItemV::Node(m) => wf_node(m),
        ItemV::Sequence(a) => wf_elements(a),
        _ => true,
    }
}

/// Well-formed sequence contents: every element is a node, and well-formed.
pub open spec fn wf_elements(a: Seq<ItemV>) -> bool
    decreases a,
{
    if a.len() == 0 {
        true
    } else {
        (a[0] is Node) && wf_item(a[0]) && wf_elements(a.drop_first())
    }
}

/// A well-formed node: every sequence anywhere beneath it holds only nodes.
pub open spec fn wf_node(n: NodeV) -> bool
    decreases n,
{
    wf_entries(n.entries)
}

/// Well-formed entry lists: every entry's value is well-formed.
pub open spec fn wf_entries(s: Seq<(Seq<char>, ItemV)>) -> bool
    decreases s,
{
    if s.len() == 0 {
        true
    } else {
        wf_item(s[0].1) && wf_entries(s.drop_first())
    }
}

/// Well-formed entry lists are exactly those whose every value is
/// well-formed.
pub proof fn lemma_wf_entries_iff(s: Seq<(Seq<char>, ItemV)>)
    ensures
        wf_entries(s) <==> (forall|i: int| 0 <= i < s.len() ==> wf_item((#[trigger] s[i]).1)),
    decreases s.len(),
{
    if s.len() > 0 {
        lemma_wf_entries_iff(s.drop_first());
        assert(forall|i: int| 1 <= i < s.len() ==> s[i] == s.drop_first()[i - 1]);
    }
}

/// Well-formed sequence contents are exactly those whose every element is
/// a well-formed node.
pub proof fn lemma_wf_elements_iff(a: Seq<ItemV>)
    ensures
        wf_elements(a) <==> (forall|i: int|
            0 <= i < a.len() ==> (#[trigger] a[i]) is Node && wf_item(a[i])),
    decreases a.len(),
{
    if a.len() > 0 {
        lemma_wf_elements_iff(a.drop_first());
        assert(forall|i: int| 1 <= i < a.len() ==> a[i] == a.drop_first()[i - 1]);
    }
}

pub proof fn lemma_wf_elements_index(a: Seq<ItemV>, j: int)
    requires
        wf_elements(a),
        0 <= j < a.len(),
    ensures
        a[j] is Node,
        wf_item(a[j]),
    decreases a.len(),
{
    if j > 0 {
        lemma_wf_elements_index(a.drop_first(), j - 1);
    }
}

pub proof fn lemma_wf_entries_index(s: Seq<(Seq<char>, ItemV)>, j: int)
    requires
        wf_entries(s),
        0 <= j < s.len(),
    ensures
        wf_item(s[j].1),
    decreases s.len(),
{
    if j > 0 {
        lemma_wf_entries_index(s.drop_first(), j - 1);
    }
}

/// In a well-formed node, whatever `find_entry` yields is well-formed.
pub proof fn lemma_wf_find(n: NodeV, key: Seq<char>)
    requires
        wf_node(n),
    ensures
        find_entry(n.entries, key) matches Some(v) ==> wf_item(v),
{
    lemma_find_idx(n.entries, key);
    match find_idx(n.entries, key) {
        Some(i) => {
            lemma_wf_entries_index(n.entries, i);
        },
        None => {},
    }
}

/// A mismatched tag and an absent key are indistinguishable: whether the
/// key holds a value of another tag or no value at all, the lookup yields
/// the same bare nothing.
pub proof fn lemma_mismatch_and_absence_agree(n: NodeV, key: Seq<char>, kind: Kind)
    requires
        match find_entry(n.entries, key) {
            Some(v) => kind_of(v) != kind,
            None => true,
        },
    ensures
        node_get(n, seq![key], kind) is None,
{
}

/// Storing a well-formed value in a well-formed entry list leaves it
/// well-formed.
pub proof fn lemma_put_entry_wf(s: Seq<(Seq<char>, ItemV)>, key: Seq<char>, v: ItemV)
    requires
        wf_entries(s),
        wf_item(v),
    ensures
        wf_entries(put_entry(s, key, v)),
{
    lemma_find_idx(s, key);
    lemma_wf_entries_iff(s);
    match find_idx(s, key) {
        Some(i) => {
            lemma_wf_entries_iff(s.update(i, (key, v)));
        },
        None => {
            lemma_wf_entries_iff(s.push((key, v)));
        },
    }
}

/// A fresh chain of nodes around a well-formed value is well-formed.
pub proof fn lemma_chain_node_wf(segs: Seq<Seq<char>>, v: ItemV)
    requires
        wf_item(v),
    ensures
        wf_node(chain_node(segs, v)),
    decreases segs.len(),
{
    if segs.len() > 1 {
        lemma_chain_node_wf(segs.drop_first(), v);
    }
}

/// Mutation preserves well-formedness: storing a well-formed value along
/// any path in a well-formed node leaves the node well-formed.
pub proof fn lemma_node_set_wf(n: NodeV, segs: Seq<Seq<char>>, v: ItemV)
    requires
        wf_node(n),
        wf_item(v),
    ensures
        wf_node(node_set(n, segs, v)),
    decreases segs.len(),
{
    if segs.len() <= 1 {
        lemma_put_entry_wf(n.entries, segs[0], v);
    } else {
        lemma_wf_find(n, segs[0]);
        match find_entry(n.entries, segs[0]) {
            Some(ItemV::Node(m)) => {
                lemma_node_set_wf(m, segs.drop_first(), v);
                lemma_put_entry_wf(
                    n.entries,
                    segs[0],
                    ItemV::Node(node_set(m, segs.drop_first(), v)),
                );
            },
            _ => {
                lemma_chain_node_wf(segs.drop_first(), v);
                lemma_put_entry_wf(
                    n.entries,
                    segs[0],
                    ItemV::Node(chain_node(segs.drop_first(), v)),
                );
            },
        }
    }
}

/// Looking on through a sequence: when a well-formed tree holds a sequence
/// under `segs`, its elements are all nodes, and the walk of `segs`
/// extended by a valid index segment and any further segments resolves
/// those further segments inside the indexed element.
pub proof fn lemma_node_get_through_sequence(
    n: NodeV,
    segs: Seq<Seq<char>>,
    arr: Seq<ItemV>,
    iseg: Seq<char>,
    i: int,
    rest: Seq<Seq<char>>,
    kind: Kind,
)
    requires
        wf_node(n),
        segs.len() >= 1,
        rest.len() >= 1,
        node_get(n, segs, Kind::Sequence) == Some(ItemV::Sequence(arr)),
        index_of_segment(iseg) == Some(i),
        0 <= i < arr.len(),
    ensures
        wf_elements(arr),
        arr[i] is Node,
        node_get(n, segs + seq![iseg] + rest, kind) == (match arr[i] {
            ItemV::Node(m) => node_get(m, rest, kind),
            _ => None,
        }),
    decreases segs.len(),
{
    let full = segs + seq![iseg] + rest;
    assert(full.len() == segs.len() + 1 + rest.len());
    assert(full[0] == segs[0]);
    lemma_wf_find(n, segs[0]);
    if segs.len() == 1 {
        assert(find_entry(n.entries, segs[0]) == Some(ItemV::Sequence(arr)));
        assert(wf_elements(arr));
        lemma_wf_elements_index(arr, i);
        assert(full[1] == iseg);
        assert(full.skip(2) =~= rest);
        assert(full.len() > 2);
    } else {
        match find_entry(n.entries, segs[0]) {
            Some(ItemV::Node(m)) => {
                assert(full.drop_first() =~= segs.drop_first() + seq![iseg] + rest);
                lemma_node_get_through_sequence(m, segs.drop_first(), arr, iseg, i, rest, kind);
            },
            Some(ItemV::Sequence(arr2)) => {
                assert(full[1] == segs[1]);
                match index_of_segment(segs[1]) {
                    Some(j) => {
                        assert(0 <= j < arr2.len());
                        lemma_wf_elements_index(arr2, j);
                        if segs.len() == 2 {
                            assert(kind_of(arr2[j]) == Kind::Sequence);
                            assert(false);
                        } else {
                            match arr2[j] {
                                ItemV::Node(m2) => {
                                    assert(full.skip(2) =~= segs.skip(2) + seq![iseg] + rest);
                                    lemma_node_get_through_sequence(
                                        m2,
                                        segs.skip(2),
                                        arr,
                                        iseg,
                                        i,
                                        rest,
                                        kind,
                                    );
                                },
                                _ => {
                                    assert(false);
                                },
                            }
                        }
                    },
                    None => {
                        assert(false);
                    },
                }
            },
            _ => {
                assert(false);
            },
        }
    }
}

/// Whether the stored value carries the requested tag.
fn matches_kind(v: &Item, kind: Kind) -> (r: bool)
    ensures
        r == (kind_of(v@) == kind),
{
    match v {
        Item::Boolean(_) => kind == Kind::Boolean,
        Item::Integer(_) => kind == Kind::Integer,
        Item::Float(_) => kind == Kind::Float,
        Item::Text(_) => kind == Kind::Text,
        Item::Datetime(_) => kind == Kind::Datetime,
        Item::Node(_) => kind == Kind::Node,
        Item::Sequence(_) => kind == Kind::Sequence,
    }
}

impl Node {
    /// Create an empty node.
    pub fn new() -> (r: Node)
        ensures
            r@.entries == Seq::<(Seq<char>, ItemV)>::empty(),
    {
        let r = Node { entries: Vec::new() };
        proof {
            assert(r@.entries =~= Seq::<(Seq<char>, ItemV)>::empty());
        }
        r
    }

    /// Append an entry at the end; document conversion builds nodes with
    /// it.
    pub(crate) fn push_entry(&mut self, key: String, value: Item)
        ensures
            final(self)@.entries == old(self)@.entries.push((key@, value@)),
    {
        let ghost before = self.entries@;
        self.entries.push((key, value));
        proof {
            lemma_view_of_entries(before);
            lemma_view_of_entries(self.entries@);
            assert(view_of_entries(self.entries@) =~= view_of_entries(before).push(
                (key@, value@),
            ));
        }
    }

    /// The position of the entry named `key`, if any.
    #[verifier::loop_isolation(false)]
    fn find(&self, key: &String) -> (r: Option<usize>)
        ensures
            match r {
                Some(i) => find_idx(self@.entries, key@) == Some(i as int) && i
                    < self.entries.len(),
                None => find_idx(self@.entries, key@) is None,
            },
    {
        proof {
            lemma_view_of_entries(self.entries@);
        }
        let n = self.entries.len();
        let mut i: usize = 0;
        while i < n
            invariant
                0 <= i <= n,
                forall|j: int| 0 <= j < i ==> (#[trigger] self@.entries[j]).0 != key@,
            decreases n - i,
        {
            if self.entries[i].0 == *key {
                proof {
                    assert(self@.entries[i as int].0 == key@);
                    lemma_find_idx(self@.entries, key@);
                    match find_idx(self@.entries, key@) {
                        Some(k) => {
                            if k < i {
                                assert(self@.entries[k].0 != key@);
                            } else if k > i {
                                assert(self@.entries[i as int].0 != key@);
                            }
                        },
                        None => {
                            assert(self@.entries[i as int].0 != key@);
                        },
                    }
                }
                return Some(i);
            }
            i += 1;
        }
        proof {
            lemma_find_idx(self@.entries, key@);
        }
        None
    }

    /// Read the value with tag `kind` under a dot-separated path, resolved
    /// exactly at this node as `node_get` describes.
    pub fn get<'a>(&'a self, path: &str, kind: Kind) -> (r: Option<&'a Item>)
        ensures
            match r {
                Some(v) => node_get(self@, split_path(path@), kind) == Some(v@),
                None => node_get(self@, split_path(path@), kind) is None,
            },
    {
        let segs = split_segments(path);
        proof {
            assert(segs.deep_view().skip(0) =~= split_path(path@));
        }
        self.get_at(&segs, 0, kind)
    }

    /// Read the value with tag `kind` under the segments of `segs` from
    /// position `from` on.
    pub(crate) fn get_at<'a>(&'a self, segs: &Vec<String>, from: usize, kind: Kind) -> (r: Option<
        &'a Item,
    >)
        requires
            from < segs@.len(),
        ensures
            match r {
                Some(v) => node_get(self@, segs.deep_view().skip(from as int), kind) == Some(v@),
                None => node_get(self@, segs.deep_view().skip(from as int), kind) is None,
            },
        decreases segs@.len() - from,
    {
        let ghost tail: Seq<Seq<char>> = segs.deep_view().skip(from as int);
        proof {
            lemma_view_of_entries(self.entries@);
            lemma_find_idx(self@.entries, segs@[from as int]@);
            assert(tail[0] == segs@[from as int]@);
        }
        let key = &segs[from];
        let found = self.find(key);
        if from == segs.len() - 1 {
            proof {
                assert(tail.len() == 1);
            }
            match found {
                Some(i) => {
                    let v = &self.entries[i].1;
                    if matches_kind(v, kind) {
                        Some(v)
                    } else {
                        None
                    }
                },
                None => None,
            }
        } else {
            proof {
                assert(tail.len() >= 2);
                assert(tail[1] == segs@[from + 1]@);
            }
            match found {
                Some(i) => {
                    match &self.entries[i].1 {
                        Item::Node(m) => {
                            proof {
                                assert(tail.drop_first() =~= segs.deep_view().skip(from + 1));
                            }
                            m.get_at(segs, from + 1, kind)
                        },
                        Item::Sequence(arr) => {
                            proof {
                                lemma_view_of_items(arr@);
                            }
                            let idx = &segs[from + 1];
                            match parse_index_below(idx, arr.len()) {
                                Some(j) => {
                                    if from + 2 == segs.len() {
                                        let v = &arr[j];
                                        if matches_kind(v, kind) {
                                            Some(v)
                                        } else {
                                            None
                                        }
                                    } else {
                                        proof {
                                            assert(tail.skip(2) =~= segs.deep_view().skip(
                                                from + 2,
                                            ));
                                        }
                                        match &arr[j] {
                                            Item::Node(m) => m.get_at(segs, from + 2, kind),
                                            _ => None,
                                        }
                                    }
                                },
                                None => None,
                            }
                        },
                        _ => None,
                    }
                },
                None => None,
            }
        }
    }
    /// Store `value` under `key` in this node alone: an existing entry is
    /// overwritten in place, a new one is appended.
    fn put(&mut self, key: &String, value: Item)
        ensures
            final(self)@.entries == put_entry(old(self)@.entries, key@, value@),
    {
        proof {
            lemma_view_of_entries(self.entries@);
        }
        let found = self.find(key);
        let ghost before = self.entries@;
        match found {
            Some(i) => {
                let (k, _) = self.entries.remove(i);
                self.entries.insert(i, (k, value));
                proof {
                    assert(self.entries@ =~= before.update(i as int, (before[i as int].0, value)));
                    lemma_view_of_entries(before);
                    lemma_view_of_entries(self.entries@);
                    lemma_find_idx(view_of_entries(before), key@);
                    assert(view_of_entries(before)[i as int].0 == key@);
                    assert(view_of_entries(self.entries@) =~= put_entry(
                        view_of_entries(before),
                        key@,
                        value@,
                    ));
                }
            },
            None => {
                self.entries.push((key.clone(), value));
                proof {
                    lemma_view_of_entries(before);
                    lemma_view_of_entries(self.entries@);
                    assert(find_idx(view_of_entries(before), key@) is None);
                    assert(self.entries@.len() == before.len() + 1);
                    assert(view_of_entries(self.entries@).last() == (key@, value@));
                    assert(view_of_entries(self.entries@) =~= put_entry(
                        view_of_entries(before),
                        key@,
                        value@,
                    ));
                }
            },
        }
    }

    /// Store `value` under the segments of `segs` from position `from` on,
    /// as `node_set` describes: intermediate segments descend into existing
    /// nested nodes and replace anything else by fresh ones.
    pub(crate) fn set_at(&mut self, segs: &Vec<String>, from: usize, value: Item)
        requires
            from < segs@.len(),
        ensures
            final(self)@ == node_set(old(self)@, segs.deep_view().skip(from as int), value@),
        decreases segs@.len() - from,
    {
        let ghost tail: Seq<Seq<char>> = segs.deep_view().skip(from as int);
        proof {
            assert(tail[0] == segs@[from as int]@);
            lemma_view_of_entries(self.entries@);
            lemma_find_idx(self@.entries, segs@[from as int]@);
        }
        let key = &segs[from];
        if from == segs.len() - 1 {
            self.put(key, value);
            proof {
                assert(tail.len() == 1);
                assert(self@ =~= node_set(old(self)@, tail, value@));
            }
        } else {
            let found = self.find(key);
            let descend: Option<usize> = match found {
                Some(i) => {
                    if matches!(&self.entries[i].1, Item::Node(_)) {
                        Some(i)
                    } else {
                        None
                    }
                },
                None => None,
            };
            match descend {
                Some(i) => {
                    let ghost before = self.entries@;
                    let (k, v) = self.entries.remove(i);
                    match v {
                        Item::Node(mut m) => {
                            proof {
                                assert(tail.drop_first() =~= segs.deep_view().skip(from + 1));
                            }
                            m.set_at(segs, from + 1, value);
                            self.entries.insert(i, (k, Item::Node(m)));
                            proof {
                                assert(self.entries@ =~= before.update(
                                    i as int,
                                    (before[i as int].0, Item::Node(m)),
                                ));
                                lemma_view_of_entries(before);
                                lemma_view_of_entries(self.entries@);
                                assert(view_of_entries(self.entries@) =~= put_entry(
                                    view_of_entries(before),
                                    key@,
                                    ItemV::Node(m@),
                                ));
                                assert(self@ =~= node_set(old(self)@, tail, value@));
                            }
                        },
                        _ => {
                            proof {
                                assert(false);
                            }
                        },
                    }
                },
                None => {
                    proof {
                        assert(tail.drop_first() =~= segs.deep_view().skip(from + 1));
                    }
                    let chain = build_chain(segs, from + 1, value);
                    self.put(key, Item::Node(chain));
                    proof {
                        assert(self@ =~= node_set(old(self)@, tail, value@));
                    }
                },
            }
        }
    }

    /// Write a value under a dot-separated path, as `node_set` describes.
    /// Writing never fails at this level.
    pub fn set(&mut self, path: &str, value: Item) -> (r: Option<()>)
        ensures
            r is Some,
            final(self)@ == node_set(old(self)@, split_path(path@), value@),
    {
        let segs = split_segments(path);
        proof {
            assert(segs.deep_view().skip(0) =~= split_path(path@));
        }
        self.set_at(&segs, 0, value);
        Some(())
    }
}

/// A fresh chain of single-entry nodes that carries `value` at the end of
/// the segments of `segs` from position `from` on.
fn build_chain(segs: &Vec<String>, from: usize, value: Item) -> (r: Node)
    requires
        from < segs@.len(),
    ensures
        r@ == chain_node(segs.deep_view().skip(from as int), value@),
    decreases segs@.len() - from,
{
    let ghost tail: Seq<Seq<char>> = segs.deep_view().skip(from as int);
    proof {
        assert(tail[0] == segs@[from as int]@);
    }
    let key = segs[from].clone();
    if from == segs.len() - 1 {
        let mut entries: Vec<(String, Item)> = Vec::new();
        entries.push((key, value));
        let r = Node { entries };
        proof {
            assert(r@.entries =~= seq![(tail[0], value@)]);
            assert(r@ =~= chain_node(tail, value@));
        }
        r
    } else {
        proof {
            assert(tail.drop_first() =~= segs.deep_view().skip(from + 1));
        }
        let inner = build_chain(segs, from + 1, value);
        let mut entries: Vec<(String, Item)> = Vec::new();
        entries.push((key, Item::Node(inner)));
        let r = Node { entries };
        proof {
            assert(r@.entries =~= seq![(tail[0], ItemV::Node(chain_node(tail.drop_first(), value@)))]);
            assert(r@ =~= chain_node(tail, value@));
        }
        r
    }
}

} // verus!
