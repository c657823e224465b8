//! The document model: a tree of text and element nodes, and the attribute
//! map carried by each element.
//!
//! An `AttrMap` stores its bindings as a vector of pairs with pairwise
//! distinct names; its abstract value is the finite map `map_of_pairs` folds
//! those pairs into, so insertion order is irrelevant at the specification
//! level while `pairs()` still exposes the stored order to the serializer.
//! A `Node`'s abstract value is a `NodeView`, where attribute maps appear as
//! maps and child lists as sequences.

use vstd::prelude::*;

use crate::cursor::str_eq;

verus! {

/// One stored attribute binding: a name and its value.
#[derive(Debug)]
pub struct Attr {
    pub name: String,
    pub value: String,
}

/// Mapping from attribute name to attribute value; names are unique and a
/// later insert of an existing name overwrites the earlier value.
#[derive(Debug)]
pub struct AttrMap {
    entries: Vec<Attr>,
}

/// The finite map that a pair list denotes: later pairs win.
pub open spec fn map_of_pairs(ps: Seq<(Seq<char>, Seq<char>)>) -> Map<Seq<char>, Seq<char>>
    decreases ps.len(),
{
    if ps.len() == 0 {
        Map::empty()
    } else {
        map_of_pairs(ps.drop_last()).insert(ps.last().0, ps.last().1)
    }
}

/// A key is in `map_of_pairs(ps)` exactly when some pair carries it.
pub proof fn lemma_map_of_pairs_contains(ps: Seq<(Seq<char>, Seq<char>)>, k: Seq<char>)
    ensures
        map_of_pairs(ps).dom().contains(k) <==> exists|i: int|
            0 <= i < ps.len() && (#[trigger] ps[i]).0 == k,
    decreases ps.len(),
{
    if ps.len() > 0 {
        lemma_map_of_pairs_contains(ps.drop_last(), k);
        if map_of_pairs(ps).dom().contains(k) {
            if k == ps.last().0 {
                assert(ps[ps.len() - 1].0 == k);
            } else {
                let i = choose|i: int|
                    0 <= i < ps.drop_last().len() && (#[trigger] ps.drop_last()[i]).0 == k;
                assert(ps[i].0 == k);
            }
        }
        if exists|i: int| 0 <= i < ps.len() && (#[trigger] ps[i]).0 == k {
            let i = choose|i: int| 0 <= i < ps.len() && (#[trigger] ps[i]).0 == k;
            if i < ps.len() - 1 {
                assert(ps.drop_last()[i].0 == k);
            }
        }
    }
}

/// Distinct names are kept by dropping the last pair.
proof fn lemma_pairs_distinct_drop_last(ps: Seq<(Seq<char>, Seq<char>)>)
    requires
        pairs_distinct(ps),
        ps.len() > 0,
    ensures
        pairs_distinct(ps.drop_last()),
{
    assert forall|i: int, j: int| 0 <= i < j < ps.drop_last().len()
        implies (#[trigger] ps.drop_last()[i]).0 != (#[trigger] ps.drop_last()[j]).0 by {
        assert(ps[i].0 != ps[j].0);
    }
}

/// In a pair list with pairwise distinct names, the pair at `i` gives its
/// name's binding.
pub proof fn lemma_map_of_pairs_at(ps: Seq<(Seq<char>, Seq<char>)>, i: int)
    requires
        pairs_distinct(ps),
        0 <= i < ps.len(),
    ensures
        map_of_pairs(ps).dom().contains(ps[i].0),
        map_of_pairs(ps)[ps[i].0] == ps[i].1,
    decreases ps.len(),
{
    if i < ps.len() - 1 {
        lemma_pairs_distinct_drop_last(ps);
        lemma_map_of_pairs_at(ps.drop_last(), i);
        assert(ps.drop_last()[i] == ps[i]);
        assert(ps[i].0 != ps[ps.len() - 1].0);
    }
}

/// Pairwise distinct names.
pub open spec fn pairs_distinct(ps: Seq<(Seq<char>, Seq<char>)>) -> bool {
    forall|i: int, j: int| 0 <= i < j < ps.len() ==> (#[trigger] ps[i]).0 != (#[trigger] ps[j]).0
}

impl View for AttrMap {
    type V = Map<Seq<char>, Seq<char>>;

    /// The abstract value: the map the stored pairs denote.
    closed spec fn view(&self) -> Map<Seq<char>, Seq<char>> {
        map_of_pairs(self.pairs())
    }
}

impl AttrMap {
    /// The stored bindings, in storage order.
    pub closed spec fn pairs(self) -> Seq<(Seq<char>, Seq<char>)> {
        Seq::new(self.entries@.len(), |i: int| (self.entries@[i].name@, self.entries@[i].value@))
    }

    /// Names are pairwise distinct; every map built by `new` and `insert`
    /// satisfies this.
    pub open spec fn wf(self) -> bool {
        pairs_distinct(self.pairs())
    }

    /// The abstract value is the map the stored pairs denote.
    pub proof fn lemma_view_is_pairs(self)
        ensures
            self@ == map_of_pairs(self.pairs()),
    {
    }

    /// An empty attribute map.
    pub fn new() -> (m: AttrMap)
        ensures
            m.wf(),
            m@ == Map::<Seq<char>, Seq<char>>::empty(),
            m.pairs() == Seq::<(Seq<char>, Seq<char>)>::empty(),
    {
        let m = AttrMap { entries: Vec::new() };
        proof {
            assert(m.pairs() =~= Seq::<(Seq<char>, Seq<char>)>::empty());
        }
        m
    }

    /// Bind `name` to `value`; an existing binding of `name` is overwritten
    /// in place, otherwise the pair is appended.
    pub fn insert(&mut self, name: String, value: String)
        requires
            old(self).wf(),
        ensures
            final(self).wf(),
            final(self)@ == old(self)@.insert(name@, value@),
            final(self).pairs().len() >= old(self).pairs().len(),
    {
        let ghost ops = old(self).pairs();
        let mut i: usize = 0;
        while i < self.entries.len()
            invariant
                ops == old(self).pairs(),
                self.pairs() == ops,
                pairs_distinct(ops),
                i <= ops.len(),
                self.entries@.len() == ops.len(),
                forall|k: int| 0 <= k < i ==> (#[trigger] ops[k]).0 != name@,
            decreases self.entries.len() - i,
        {
            if str_eq(self.entries[i].name.as_str(), name.as_str()) {
                self.entries[i].value = value;
                proof {
                    assert(self.pairs() =~= ops.update(i as int, (name@, value@)));
                    lemma_map_of_update(ops, i as int, name@, value@);
                }
                return;
            }
            i = i + 1;
        }
        self.entries.push(Attr { name, value });
        proof {
            assert(self.pairs() =~= ops.push((name@, value@)));
            assert(self.pairs().drop_last() =~= ops);
            assert forall|a: int, b: int| 0 <= a < b < self.pairs().len()
                implies (#[trigger] self.pairs()[a]).0 != (#[trigger] self.pairs()[b]).0 by {
                if b < ops.len() {
                    assert(ops[a].0 != ops[b].0);
                }
            }
        }
    }

    /// How many bindings are stored.
    pub fn len(&self) -> (n: usize)
        ensures
            n == self.pairs().len(),
    {
        self.entries.len()
    }

    /// The name of the binding stored at `i`.
    pub fn name_at(&self, i: usize) -> (r: &String)
        requires
            i < self.pairs().len(),
        ensures
            r@ == self.pairs()[i as int].0,
    {
        &self.entries[i].name
    }

    /// The value of the binding stored at `i`.
    pub fn value_at(&self, i: usize) -> (r: &String)
        requires
            i < self.pairs().len(),
        ensures
            r@ == self.pairs()[i as int].1,
    {
        &self.entries[i].value
    }

    /// Look a name up; `Some` exactly when the name is bound, and then to
    /// the bound value.
    pub fn get(&self, name: &str) -> (r: Option<&String>)
        requires
            self.wf(),
        ensures
            match r {
                Some(v) => self@.dom().contains(name@) && v@ == self@[name@],
                None => !self@.dom().contains(name@),
            },
    {
        let mut i: usize = 0;
        while i < self.entries.len()
            invariant
                self.wf(),
                self.entries@.len() == self.pairs().len(),
                i <= self.pairs().len(),
                forall|k: int| 0 <= k < i ==> (#[trigger] self.pairs()[k]).0 != name@,
            decreases self.entries.len() - i,
        {
            if str_eq(self.entries[i].name.as_str(), name) {
                proof {
                    assert(self.pairs()[i as int].0 == name@);
                    lemma_map_of_pairs_at(self.pairs(), i as int);
                }
                return Some(&self.entries[i].value);
            }
            i = i + 1;
        }
        proof {
            lemma_map_of_pairs_contains(self.pairs(), name@);
        }
        None
    }
}

/// Updating the (unique) pair that carries `k` changes just that binding.
proof fn lemma_map_of_update(ps: Seq<(Seq<char>, Seq<char>)>, j: int, k: Seq<char>, v: Seq<char>)
    requires
        pairs_distinct(ps),
        0 <= j < ps.len(),
        ps[j].0 == k,
    ensures
        map_of_pairs(ps.update(j, (k, v))) == map_of_pairs(ps).insert(k, v),
        pairs_distinct(ps.update(j, (k, v))),
    decreases ps.len(),
{
    let qs = ps.update(j, (k, v));
    assert forall|a: int, b: int| 0 <= a < b < qs.len()
        implies (#[trigger] qs[a]).0 != (#[trigger] qs[b]).0 by {
        assert(ps[a].0 != ps[b].0);
    }
    if j == ps.len() - 1 {
        assert(qs.drop_last() =~= ps.drop_last());
        assert(map_of_pairs(qs) =~= map_of_pairs(ps).insert(k, v));
    } else {
        lemma_pairs_distinct_drop_last(ps);
        assert(ps.drop_last()[j] == ps[j]);
        lemma_map_of_update(ps.drop_last(), j, k, v);
        assert(qs.drop_last() =~= ps.drop_last().update(j, (k, v)));
        assert(qs.last() == ps.last());
        assert(ps.last().0 != k) by {
            assert(ps[j].0 != ps[ps.len() - 1].0);
        }
        assert(map_of_pairs(qs) =~= map_of_pairs(ps).insert(k, v));
    }
}

/// A document node: a text run or an element with attributes and children.
/// A text node has no children.
#[derive(Debug)]
pub struct Node {
    /// children of a node; empty for a text node
    pub children: Vec<Node>,

    /// what kind of node this is
    pub node_type: NodeType,
}

/// The two kinds of node.
#[derive(Debug)]
pub enum NodeType {
    /// a run of text
    Text(String),
    /// an element with a tag name and attributes
    Element(ElementData),
}

/// What an element node carries besides its children.
#[derive(Debug)]
pub struct ElementData {
    /// tag name of the element, like `div` or `p`
    pub tag_name: String,

    /// attributes of the element
    pub attributes: AttrMap,
}

/// The abstract value of a node: attribute maps become maps, child lists
/// become sequences.
pub enum NodeView {
    Text(Seq<char>),
    Element { tag: Seq<char>, attrs: Map<Seq<char>, Seq<char>>, kids: Seq<NodeView> },
}

/// The abstract values of the nodes in `ns`, in order.
pub open spec fn views_of(ns: Seq<Node>) -> Seq<NodeView>
    decreases ns,
{
    if ns.len() == 0 {
        Seq::empty()
    } else {
        views_of(ns.drop_last()).push(ns.last()@)
    }
}

/// `views_of` maps the sequence elementwise.
pub proof fn lemma_views_of(ns: Seq<Node>)
    ensures
        views_of(ns).len() == ns.len(),
        forall|i: int| 0 <= i < ns.len() ==> views_of(ns)[i] == (#[trigger] ns[i])@,
    decreases ns.len(),
{
    if ns.len() > 0 {
        lemma_views_of(ns.drop_last());
        assert(views_of(ns) == views_of(ns.drop_last()).push(ns.last()@));
        assert(views_of(ns).len() == ns.len());
        assert forall|i: int| 0 <= i < ns.len() implies views_of(ns)[i] == (#[trigger] ns[i])@ by {
            if i < ns.len() - 1 {
                assert(ns.drop_last()[i] == ns[i]);
                assert(views_of(ns)[i] == views_of(ns.drop_last())[i]);
                assert(views_of(ns.drop_last())[i] == ns.drop_last()[i]@);
            } else {
                assert(views_of(ns)[i] == ns.last()@);
            }
        }
    }
}

/// `views_of` distributes over `push`.
pub proof fn lemma_views_of_push(ns: Seq<Node>, n: Node)
    ensures
        views_of(ns.push(n)) == views_of(ns).push(n@),
{
    assert(ns.push(n).drop_last() =~= ns);
    assert(ns.push(n).last() == n);
}

/// Every node in `ns` is well-formed.
pub open spec fn nodes_wf(ns: Seq<Node>) -> bool
    decreases ns,
{
    forall|i: int| 0 <= i < ns.len() ==> (#[trigger] ns[i]).wf()
}

impl View for Node {
    type V = NodeView;

    open spec fn view(&self) -> NodeView
        decreases self,
    {
        match self.node_type {
            NodeType::Text(s) => NodeView::Text(s@),
            NodeType::Element(ed) => NodeView::Element {
                tag: ed.tag_name@,
                attrs: ed.attributes@,
                kids: views_of(self.children@),
            },
        }
    }
}

impl Node {
    /// Attribute maps are well-formed throughout the tree, and a text node
    /// has no children.
    pub open spec fn wf(self) -> bool
        decreases self,
    {
        match self.node_type {
            NodeType::Text(_) => self.children@.len() == 0,
            NodeType::Element(ed) => ed.attributes.wf() && nodes_wf(self.children@),
        }
    }

    /// create text node
    pub fn text(data: String) -> (n: Node)
        ensures
            n@ == NodeView::Text(data@),
            n.wf(),
    {
        Node { children: Vec::new(), node_type: NodeType::Text(data) }
    }

    /// create element node
    pub fn element(name: String, attrs: AttrMap, children: Vec<Node>) -> (n: Node)
        ensures
            n@ == (NodeView::Element { tag: name@, attrs: attrs@, kids: views_of(children@) }),
            attrs.wf() && nodes_wf(children@) ==> n.wf(),
            n.children == children,
    {
        Node { children, node_type: NodeType::Element(ElementData { tag_name: name, attributes: attrs }) }
    }
}

} // verus!
