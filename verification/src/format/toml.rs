//! The TOML format: parse a TOML text into a configuration tree. The
//! textual parser is an outside collaborator; its output — a generic
//! document of scalars, nested tables, and arrays — is converted here, and
//! the conversion rejects any array element that is not a table.

use vstd::prelude::*;
use vstd::string::StringExecFns;

use crate::node::{Node, NodeV, Item, ItemV};
use crate::node::{lemma_wf_elements_iff, lemma_wf_entries_iff, wf_elements, wf_node, wf_item};
use crate::format::parser::parse_toml;
use crate::result::Error;
use crate::tree::Tree;

verus! {

/// The input document model handed over by the parser: a table is an
/// ordered list of (key, value) pairs; a value is a scalar, a nested
/// table, or an array of values. A float is carried as its raw bit
/// pattern; a timestamp in its textual form.
pub enum Datum {
    Boolean(bool),
    Integer(i64),
    Float(u64),
    Text(String),
    Datetime(String),
    Table(Vec<(String, Datum)>),
    Array(Vec<Datum>),
}

/// The mathematical model of a `Datum`.
pub enum DatumV {
    Boolean(bool),
    Integer(int),
    Float(u64),
    Text(Seq<char>),
    Datetime(Seq<char>),
    Table(Seq<(Seq<char>, DatumV)>),
    Array(Seq<DatumV>),
}

pub open spec fn view_of_datum(d: Datum) -> DatumV
    decreases d,
{
    match d {
        Datum::Boolean(b) => DatumV::Boolean(b),
        Datum::Integer(i) => DatumV::Integer(i as int),
        Datum::Float(f) => DatumV::Float(f),
        Datum::Text(s) => DatumV::Text(s@),
        Datum::Datetime(s) => DatumV::Datetime(s@),
        Datum::Table(t) => DatumV::Table(view_of_table(t@)),
        Datum::Array(a) => DatumV::Array(view_of_array(a@)),
    }
}

pub open spec fn view_of_table(s: Seq<(String, Datum)>) -> Seq<(Seq<char>, DatumV)>
    decreases s,
{
    if s.len() == 0 {
        Seq::empty()
    } else {
        view_of_table(s.drop_last()).push((s.last().0@, view_of_datum(s.last().1)))
    }
}

pub open spec fn view_of_array(a: Seq<Datum>) -> Seq<DatumV>
    decreases a,
{
    if a.len() == 0 {
        Seq::empty()
    } else {
        view_of_array(a.drop_last()).push(view_of_datum(a.last()))
    }
}

impl DeepView for Datum {
    type V = DatumV;

    open spec fn deep_view(&self) -> DatumV {
        view_of_datum(*self)
    }
}

pub proof fn lemma_view_of_table(s: Seq<(String, Datum)>)
    ensures
        view_of_table(s).len() == s.len(),
        forall|i: int| 0 <= i < s.len() ==> #[trigger] view_of_table(s)[i] == (
            s[i].0@,
            view_of_datum(s[i].1),
        ),
    decreases s.len(),
{
    if s.len() > 0 {
        lemma_view_of_table(s.drop_last());
        assert(forall|i: int| 0 <= i < s.len() - 1 ==> s.drop_last()[i] == s[i]);
    }
}

pub proof fn lemma_view_of_array(a: Seq<Datum>)
    ensures
        view_of_array(a).len() == a.len(),
        forall|i: int| 0 <= i < a.len() ==> #[trigger] view_of_array(a)[i] == view_of_datum(a[i]),
    decreases a.len(),
{
    if a.len() > 0 {
        lemma_view_of_array(a.drop_last());
        assert(forall|i: int| 0 <= i < a.len() - 1 ==> a.drop_last()[i] == a[i]);
    }
}

/// Structural acceptance of a document value: inside it, every array
/// element is a table.
pub open spec fn datum_ok(d: DatumV) -> bool
    decreases d,
{
    match d {
        DatumV::Table(t) => table_ok(t),
        DatumV::Array(a) => array_ok(a),
        _ => true,
    }
}

/// Structural acceptance of a table: every value in it is accepted.
pub open spec fn table_ok(t: Seq<(Seq<char>, DatumV)>) -> bool
    decreases t,
{
    if t.len() == 0 {
        true
    } else {
        datum_ok(t.last().1) && table_ok(t.drop_last())
    }
}

/// Structural acceptance of an array: every element is a table, and
/// accepted.
pub open spec fn array_ok(a: Seq<DatumV>) -> bool
    decreases a,
{
    if a.len() == 0 {
        true
    } else {
        (a.last() is Table) && datum_ok(a.last()) && array_ok(a.drop_last())
    }
}

pub proof fn lemma_table_ok_iff(t: Seq<(Seq<char>, DatumV)>)
    ensures
        table_ok(t) <==> (forall|i: int| 0 <= i < t.len() ==> datum_ok((#[trigger] t[i]).1)),
    decreases t.len(),
{
    if t.len() > 0 {
        lemma_table_ok_iff(t.drop_last());
        assert(forall|i: int| 0 <= i < t.len() - 1 ==> t[i] == t.drop_last()[i]);
    }
}

pub proof fn lemma_array_ok_iff(a: Seq<DatumV>)
    ensures
        array_ok(a) <==> (forall|i: int|
            0 <= i < a.len() ==> (#[trigger] a[i]) is Table && datum_ok(a[i])),
    decreases a.len(),
{
    if a.len() > 0 {
        lemma_array_ok_iff(a.drop_last());
        assert(forall|i: int| 0 <= i < a.len() - 1 ==> a[i] == a.drop_last()[i]);
    }
}

/// What an accepted document value converts to.
pub open spec fn item_of_datum(d: DatumV) -> ItemV
    decreases d,
{
    match d {
        DatumV::Boolean(b) => ItemV::Boolean(b),
        DatumV::Integer(i) => ItemV::Integer(i),
        DatumV::Float(f) => ItemV::Float(f),
        DatumV::Text(s) => ItemV::Text(s),
        DatumV::Datetime(s) => ItemV::Datetime(s),
        DatumV::Table(t) => ItemV::Node(node_of_table(t)),
        DatumV::Array(a) => ItemV::Sequence(items_of_array(a)),
    }
}

/// What an accepted table converts to: a node with one entry per pair, in
/// the table's order.
pub open spec fn node_of_table(t: Seq<(Seq<char>, DatumV)>) -> NodeV
    decreases t,
{
    if t.len() == 0 {
        NodeV { entries: Seq::empty() }
    } else {
        NodeV {
            entries: node_of_table(t.drop_last()).entries.push(
                (t.last().0, item_of_datum(t.last().1)),
            ),
        }
    }
}

/// What an accepted array converts to: one node per element, in order.
pub open spec fn items_of_array(a: Seq<DatumV>) -> Seq<ItemV>
    decreases a,
{
    if a.len() == 0 {
        Seq::empty()
    } else {
        items_of_array(a.drop_last()).push(item_of_datum(a.last()))
    }
}

/// The comma-joined concatenation of diagnostic messages.
pub open spec fn join_errors(es: Seq<Seq<char>>) -> Seq<char>
    decreases es.len(),
{
    if es.len() == 0 {
        Seq::empty()
    } else if es.len() == 1 {
        es[0]
    } else {
        join_errors(es.drop_last()) + ", "@ + es.last()
    }
}

/// Join the parser's diagnostic messages into one, separated by commas.
#[verifier::loop_isolation(false)]
pub fn collect_errors(errors: &Vec<String>) -> (r: String)
    ensures
        r@ == join_errors(errors.deep_view()),
{
    let n = errors.len();
    let mut r = String::new();
    let mut i: usize = 0;
    while i < n
        invariant
            0 <= i <= n,
            r@ == join_errors(errors.deep_view().take(i as int)),
        decreases n - i,
    {
        if i > 0 {
            r.append(", ");
        }
        r.append(errors[i].as_str());
        proof {
            assert(errors.deep_view().take(i + 1).drop_last() =~= errors.deep_view().take(
                i as int,
            ));
            assert(errors.deep_view().take(i + 1).last() == errors@[i as int]@);
            if i == 0 {
                assert(r@ =~= join_errors(errors.deep_view().take(1)));
            }
        }
        i += 1;
    }
    proof {
        assert(errors.deep_view().take(n as int) =~= errors.deep_view());
    }
    r
}

/// What the parse of a TOML text denotes: the parsed table of document
/// values, or the parser's diagnostic messages. The outcome depends on the
/// text alone.
pub uninterp spec fn toml_table_of(s: Seq<char>) -> Result<Seq<(Seq<char>, DatumV)>, Seq<Seq<char>>>;

/// Convert one document value; any array element that is not a table,
/// anywhere inside it, fails the conversion.
fn convert_datum(d: &Datum) -> (r: Result<Item, Error>)
    ensures
        match r {
            Ok(v) => datum_ok(d.deep_view()) && v@ == item_of_datum(d.deep_view()) && wf_item(
                v@,
            ),
            Err(e) => !datum_ok(d.deep_view()) && e.0@ == "expected a table"@,
        },
    decreases *d,
{
    match d {
        Datum::Boolean(b) => Ok(Item::Boolean(*b)),
        Datum::Integer(i) => Ok(Item::Integer(*i)),
        Datum::Float(f) => Ok(Item::Float(*f)),
        Datum::Text(s) => Ok(Item::Text(s.clone())),
        Datum::Datetime(s) => Ok(Item::Datetime(s.clone())),
        Datum::Table(t) => {
            proof {
                lemma_view_of_table(t@);
                assert(t.deep_view() =~= view_of_table(t@));
            }
            match convert_table(t) {
                Ok(n) => Ok(Item::Node(n)),
                Err(e) => Err(e),
            }
        },
        Datum::Array(a) => {
            proof {
                lemma_view_of_array(a@);
                assert(a.deep_view() =~= view_of_array(a@));
            }
            match convert_array(a) {
                Ok(vs) => Ok(Item::Sequence(vs)),
                Err(e) => Err(e),
            }
        },
    }
}

/// Convert a parsed table into a node, entry by entry, in order.
#[verifier::loop_isolation(false)]
fn convert_table(t: &Vec<(String, Datum)>) -> (r: Result<Node, Error>)
    ensures
        match r {
            Ok(n) => table_ok(t.deep_view()) && n@ == node_of_table(t.deep_view()) && wf_node(n@),
            Err(e) => !table_ok(t.deep_view()) && e.0@ == "expected a table"@,
        },
    decreases t@,
{
    proof {
        lemma_view_of_table(t@);
    }
    let n = t.len();
    let mut node = Node::new();
    let mut i: usize = 0;
    while i < n
        invariant
            0 <= i <= n,
            table_ok(t.deep_view().take(i as int)),
            node@ == node_of_table(t.deep_view().take(i as int)),
            wf_node(node@),
        decreases n - i,
    {
        let key = t[i].0.clone();
        let ghost dv = t.deep_view()[i as int].1;
        match convert_datum(&t[i].1) {
            Ok(v) => {
                let ghost entries_before = node@.entries;
                node.push_entry(key, v);
                proof {
                    lemma_wf_entries_iff(entries_before);
                    lemma_wf_entries_iff(node@.entries);
                    assert(t.deep_view().take(i + 1).drop_last() =~= t.deep_view().take(i as int));
                    assert(t.deep_view().take(i + 1).last() == t.deep_view()[i as int]);
                    assert(node@ =~= node_of_table(t.deep_view().take(i + 1)));
                    assert(table_ok(t.deep_view().take(i + 1)));
                }
            },
            Err(e) => {
                proof {
                    lemma_table_ok_iff(t.deep_view());
                    assert(!datum_ok(t.deep_view()[i as int].1));
                }
                return Err(e);
            },
        }
        i += 1;
    }
    proof {
        assert(t.deep_view().take(n as int) =~= t.deep_view());
    }
    Ok(node)
}

/// Convert a parsed array into a sequence of nodes: every element must
/// itself be a table.
#[verifier::loop_isolation(false)]
fn convert_array(a: &Vec<Datum>) -> (r: Result<Vec<Item>, Error>)
    ensures
        match r {
            Ok(vs) => array_ok(a.deep_view()) && crate::node::view_of_items(vs@)
                == items_of_array(a.deep_view()) && wf_elements(crate::node::view_of_items(vs@)),
            Err(e) => !array_ok(a.deep_view()) && e.0@ == "expected a table"@,
        },
    decreases a@,
{
    proof {
        lemma_view_of_array(a@);
    }
    let n = a.len();
    let mut vs: Vec<Item> = Vec::new();
    let mut i: usize = 0;
    while i < n
        invariant
            0 <= i <= n,
            array_ok(a.deep_view().take(i as int)),
            crate::node::view_of_items(vs@) == items_of_array(a.deep_view().take(i as int)),
            wf_elements(crate::node::view_of_items(vs@)),
        decreases n - i,
    {
        let ghost dv = a.deep_view()[i as int];
        match &a[i] {
            Datum::Table(t) => {
                proof {
                    lemma_view_of_table(t@);
                    assert(t.deep_view() =~= view_of_table(t@));
                    assert(dv == DatumV::Table(view_of_table(t@)));
                }
                match convert_table(t) {
                    Ok(node) => {
                        let ghost values_before = crate::node::view_of_items(vs@);
                        let ghost vs_before = vs@;
                        vs.push(Item::Node(node));
                        proof {
                            crate::node::lemma_view_of_items(vs_before);
                            crate::node::lemma_view_of_items(vs@);
                            lemma_wf_elements_iff(values_before);
                            lemma_wf_elements_iff(crate::node::view_of_items(vs@));
                            assert(crate::node::view_of_items(vs@) =~= values_before.push(
                                ItemV::Node(node@),
                            ));
                            assert(a.deep_view().take(i + 1).drop_last() =~= a.deep_view().take(
                                i as int,
                            ));
                            assert(a.deep_view().take(i + 1).last() == dv);
                            assert(a.deep_view().take(i + 1).len() == i + 1);
                            assert(item_of_datum(dv) == ItemV::Node(node_of_table(t.deep_view())));
                            assert(items_of_array(a.deep_view().take(i + 1)) == items_of_array(
                                a.deep_view().take(i + 1).drop_last(),
                            ).push(item_of_datum(a.deep_view().take(i + 1).last())));
                            assert(crate::node::view_of_items(vs@) =~= items_of_array(
                                a.deep_view().take(i + 1),
                            ));
                            assert(datum_ok(dv));
                            assert(array_ok(a.deep_view().take(i + 1)));
                        }
                    },
                    Err(e) => {
                        proof {
                            lemma_array_ok_iff(a.deep_view());
                            assert(!datum_ok(dv));
                        }
                        return Err(e);
                    },
                }
            },
            _ => {
                proof {
                    lemma_array_ok_iff(a.deep_view());
                    assert(!(dv is Table));
                }
                return Err(Error(("expected a table").to_owned()));
            },
        }
        i += 1;
    }
    proof {
        assert(a.deep_view().take(n as int) =~= a.deep_view());
    }
    Ok(vs)
}

/// The TOML format: the adapter from TOML text to a configuration tree.
pub struct TOML;

impl TOML {
    /// Parse a TOML text into a configuration tree. The text's parse is
    /// decided by the parser; a parsed document is converted, rejecting
    /// any array element that is not a table, and yields a tree focused on
    /// the root scope, whose every sequence holds only nodes. No tree
    /// comes out of a failure.
    pub fn parse(content: &str) -> (r: Result<Tree, Error>)
        ensures
            match toml_table_of(content@) {
                Ok(tv) => {
                    if table_ok(tv) {
                        r matches Ok(t) && t@.root == node_of_table(tv) && t@.path
                            == Seq::<Seq<char>>::empty() && wf_node(t@.root)
                    } else {
                        r matches Err(e) && e.0@ == "expected a table"@
                    }
                },
                Err(ev) => r matches Err(e) && e.0@ == "failed to parse ("@ + join_errors(ev)
                    + ")"@,
            },
    {
        match parse_toml(content) {
            Ok(table) => match convert_table(&table) {
                Ok(node) => Ok(Tree::new(node)),
                Err(e) => Err(e),
            },
            Err(errors) => {
                let joined = collect_errors(&errors);
                let mut msg = ("failed to parse (").to_owned();
                msg.append(joined.as_str());
                msg.append(")");
                Err(Error(msg))
            },
        }
    }
}

} // verus!
