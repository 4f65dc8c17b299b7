//! The node model: a document tree of text and element nodes, with an
//! attribute map whose keys are unique and whose inserts overwrite.

use vstd::prelude::*;

verus! {

broadcast use vstd::seq::group_seq_axioms, vstd::std_specs::vec::group_vec_axioms;

/// Mathematical model of an element's payload: its tag name and its
/// attribute mapping (keys unique, so a `Map`).
pub struct SpecElementData {
    pub tag_name: Seq<char>,
    pub attributes: Map<Seq<char>, Seq<char>>,
}

/// Mathematical model of a node's payload.
pub enum SpecNodeType {
    Text(Seq<char>),
    Element(SpecElementData),
}

/// Mathematical model of a node: its payload and its children in document order.
pub struct SpecNode {
    pub node_type: SpecNodeType,
    pub children: Seq<SpecNode>,
}

/// An attribute mapping from name to value. Keys are unique; inserting an
/// existing name overwrites its value. Its view `@` is the order-free `Map`
/// it denotes; the derived equality compares the stored entries and so also
/// their insertion order.
#[derive(Debug, PartialEq, Eq)]
pub struct AttributeMap {
    entries: Vec<(String, String)>,
}

/// The map that a sequence of (name, value) entries denotes, later entries
/// overwriting earlier ones.
spec fn entry_map(s: Seq<(String, String)>) -> Map<Seq<char>, Seq<char>>
    decreases s.len(),
{
    if s.len() == 0 {
        Map::empty()
    } else {
        entry_map(s.drop_last()).insert(s.last().0@, s.last().1@)
    }
}

impl View for AttributeMap {
    type V = Map<Seq<char>, Seq<char>>;

    closed spec fn view(&self) -> Map<Seq<char>, Seq<char>> {
        entry_map(self.entries@)
    }
}

proof fn lemma_entry_map_contains(s: Seq<(String, String)>, k: Seq<char>)
    ensures
        entry_map(s).contains_key(k) <==> (exists|j: int| 0 <= j < s.len() && s[j].0@ == k),
    decreases s.len(),
{
    if s.len() > 0 {
        lemma_entry_map_contains(s.drop_last(), k);
        if s.last().0@ == k {
            assert(s[s.len() - 1].0@ == k);
        } else if entry_map(s).contains_key(k) {
            let j = choose|j: int| 0 <= j < s.drop_last().len() && s.drop_last()[j].0@ == k;
            assert(s[j].0@ == k);
        } else if exists|j: int| 0 <= j < s.len() && s[j].0@ == k {
            let j = choose|j: int| 0 <= j < s.len() && s[j].0@ == k;
            assert(s.drop_last()[j].0@ == k);
        }
    }
}

impl AttributeMap {
    /// Keys are unique among the stored entries.
    pub closed spec fn wf(&self) -> bool {
        forall|i: int, j: int|
            0 <= i < j < self.entries@.len() ==> self.entries@[i].0@ != self.entries@[j].0@
    }

    /// The empty attribute map.
    pub fn new() -> (r: AttributeMap)
        ensures
            r@ == Map::<Seq<char>, Seq<char>>::empty(),
            r.wf(),
    {
        AttributeMap { entries: Vec::new() }
    }

    /// Bind `name` to `value`; a later insert of the same name overwrites.
    pub fn insert(&mut self, name: String, value: String)
        requires
            old(self).wf(),
        ensures
            final(self)@ == old(self)@.insert(name@, value@),
            final(self).wf(),
    {
        let n = self.entries.len();
        let mut i: usize = 0;
        while i < n
            invariant
                n == self.entries@.len(),
                i <= n,
                *self == *old(self),
                old(self).wf(),
                forall|j: int| 0 <= j < i ==> self.entries@[j].0@ != name@,
            decreases n - i,
        {
            if self.entries[i].0 == name {
                let ghost pre = self.entries@;
                self.entries[i] = (name, value);
                proof {
                    let e = self.entries@[i as int];
                    assert(forall|a: int, b: int|
                        0 <= a < b < pre.len() ==> pre[a].0@ != pre[b].0@);
                    lemma_entry_map_update(pre, i as int, e);
                    assert(forall|j: int|
                        0 <= j < self.entries@.len() ==> self.entries@[j].0@ == pre[j].0@);
                    assert(self@ == old(self)@.insert(name@, value@));
                }
                return;
            }
            i += 1;
        }
        let ghost pre = self.entries@;
        self.entries.push((name, value));
        proof {
            assert(self.entries@.drop_last() =~= pre);
        }
    }

    /// Look `name` up; the result is exactly what the map binds it to.
    pub fn get(&self, name: &String) -> (r: Option<&String>)
        ensures
            match r {
                Some(v) => self@.contains_key(name@) && v@ == self@[name@],
                None => !self@.contains_key(name@),
            },
    {
        let mut i = self.entries.len();
        while i > 0
            invariant
                i <= self.entries@.len(),
                forall|j: int| i <= j < self.entries@.len() ==> self.entries@[j].0@ != name@,
            decreases i,
        {
            i = i - 1;
            if self.entries[i].0 == *name {
                proof {
                    lemma_entry_map_prefix(self.entries@, name@, i + 1);
                    assert(self.entries@.take(i + 1).drop_last() =~= self.entries@.take(i as int));
                    assert(self.entries@.take(i + 1).last() == self.entries@[i as int]);
                }
                return Some(&self.entries[i].1);
            }
        }
        proof {
            lemma_entry_map_prefix(self.entries@, name@, 0);
            assert(self.entries@.take(0) =~= Seq::<(String, String)>::empty());
        }
        None
    }

    /// How many attributes the map holds.
    pub fn len(&self) -> (r: usize)
        requires
            self.wf(),
        ensures
            self@.dom().finite(),
            r == self@.dom().len(),
    {
        proof {
            lemma_entry_map_len(self.entries@);
        }
        self.entries.len()
    }
}

/// Replacing the value of the (unique) entry that holds key `e.0@` denotes
/// inserting into the map.
proof fn lemma_entry_map_update(s: Seq<(String, String)>, i: int, e: (String, String))
    requires
        0 <= i < s.len(),
        s[i].0@ == e.0@,
        forall|a: int, b: int| 0 <= a < b < s.len() ==> s[a].0@ != s[b].0@,
    ensures
        entry_map(s.update(i, e)) == entry_map(s).insert(e.0@, e.1@),
    decreases s.len(),
{
    let t = s.update(i, e);
    if i == s.len() - 1 {
        assert(t.drop_last() =~= s.drop_last());
        assert(entry_map(t) =~= entry_map(s).insert(e.0@, e.1@));
    } else {
        assert(s.update(i, e).drop_last() =~= s.drop_last().update(i, e));
        lemma_entry_map_update(s.drop_last(), i, e);
        assert(s.last().0@ != e.0@);
        assert(entry_map(t) =~= entry_map(s).insert(e.0@, e.1@));
    }
}

/// Entries at positions `i` and beyond do not hold key `k`, so the map's
/// verdict on `k` is already settled by the first `i` entries.
proof fn lemma_entry_map_prefix(s: Seq<(String, String)>, k: Seq<char>, i: int)
    requires
        0 <= i <= s.len(),
        forall|j: int| i <= j < s.len() ==> s[j].0@ != k,
    ensures
        entry_map(s).contains_key(k) == entry_map(s.take(i)).contains_key(k),
        entry_map(s).contains_key(k) ==> entry_map(s)[k] == entry_map(s.take(i))[k],
    decreases s.len() - i,
{
    if i == s.len() {
        assert(s.take(i) =~= s);
    } else {
        lemma_entry_map_prefix(s, k, i + 1);
        assert(s.take(i + 1).drop_last() =~= s.take(i));
        assert(s.take(i + 1).last() == s[i]);
    }
}

/// With unique keys, the map holds exactly one binding per entry.
proof fn lemma_entry_map_len(s: Seq<(String, String)>)
    requires
        forall|a: int, b: int| 0 <= a < b < s.len() ==> s[a].0@ != s[b].0@,
    ensures
        entry_map(s).dom().finite(),
        entry_map(s).dom().len() == s.len(),
    decreases s.len(),
{
    if s.len() > 0 {
        lemma_entry_map_len(s.drop_last());
        lemma_entry_map_contains(s.drop_last(), s.last().0@);
        assert(forall|j: int|
            0 <= j < s.drop_last().len() ==> s.drop_last()[j].0@ != s.last().0@);
        assert(!entry_map(s.drop_last()).contains_key(s.last().0@));
        assert(entry_map(s).dom() =~= entry_map(s.drop_last()).dom().insert(s.last().0@));
    }
}

/// Payload of an element node: tag name and attributes.
#[derive(Debug, PartialEq, Eq)]
pub struct ElementData {
    tag_name: String,
    attributes: AttributeMap,
}

/// What a node is: a text leaf, or an element.
#[derive(Debug, PartialEq, Eq)]
pub enum NodeType {
    Text(String),
    Element(ElementData),
}

/// A unit of the document tree; children are in document order and are owned
/// exclusively by their parent.
#[derive(Debug, PartialEq, Eq)]
pub struct Node {
    children: Vec<Node>,
    node_type: NodeType,
}

impl View for ElementData {
    type V = SpecElementData;

    closed spec fn view(&self) -> SpecElementData {
        SpecElementData { tag_name: self.tag_name@, attributes: self.attributes@ }
    }
}

impl View for NodeType {
    type V = SpecNodeType;

    closed spec fn view(&self) -> SpecNodeType {
        match self {
            NodeType::Text(t) => SpecNodeType::Text(t@),
            NodeType::Element(ed) => SpecNodeType::Element(ed@),
        }
    }
}

/// The model of a node, children included.
pub closed spec fn node_view(n: Node) -> SpecNode
    decreases n,
{
    SpecNode { node_type: n.node_type@, children: nodes_view(n.children@) }
}

/// The model of a sequence of nodes, element by element.
pub closed spec fn nodes_view(s: Seq<Node>) -> Seq<SpecNode>
    decreases s,
{
    if s.len() == 0 {
        Seq::empty()
    } else {
        nodes_view(s.drop_last()).push(node_view(s.last()))
    }
}

impl View for Node {
    type V = SpecNode;

    open spec fn view(&self) -> SpecNode {
        node_view(*self)
    }
}

/// `nodes_view` maps `node_view` over the sequence.
pub proof fn lemma_nodes_view(s: Seq<Node>)
    ensures
        nodes_view(s).len() == s.len(),
        forall|i: int| 0 <= i < s.len() ==> nodes_view(s)[i] == node_view(#[trigger] s[i]),
    decreases s,
{
    if s.len() > 0 {
        lemma_nodes_view(s.drop_last());
        assert forall|i: int| 0 <= i < s.len() implies nodes_view(s)[i] == node_view(s[i]) by {
            if i < s.len() - 1 {
                assert(s.drop_last()[i] == s[i]);
                assert(nodes_view(s.drop_last())[i] == node_view(s.drop_last()[i]));
            } else {
                assert(s[i] == s.last());
            }
        }
    }
}

/// Appending a node appends its model.
pub proof fn lemma_nodes_view_push(s: Seq<Node>, n: Node)
    ensures
        nodes_view(s.push(n)) == nodes_view(s).push(node_view(n)),
{
    assert(s.push(n).drop_last() =~= s);
    assert(s.push(n).last() == n);
}

/// Produce a text node holding `text`, with no children.
pub fn text(content: String) -> (r: Node)
    ensures
        r@.node_type == SpecNodeType::Text(content@),
        r@.children == Seq::<SpecNode>::empty(),
{
    let r = Node { children: Vec::new(), node_type: NodeType::Text(content) };
    proof {
        assert(nodes_view(r.children@) =~= Seq::<SpecNode>::empty());
    }
    r
}

/// Produce an element node with the given tag name, attributes and children;
/// nothing is validated here.
pub fn element(name: String, attrs: AttributeMap, children: Vec<Node>) -> (r: Node)
    ensures
        r@.node_type matches SpecNodeType::Element(ed) && ed.tag_name == name@ && ed.attributes
            == attrs@,
        r@.children == nodes_view(children@),
{
    Node {
        children,
        node_type: NodeType::Element(ElementData { tag_name: name, attributes: attrs }),
    }
}

impl Node {
    /// The node's payload.
    pub fn node_type(&self) -> (r: &NodeType)
        ensures
            r@ == self@.node_type,
    {
        &self.node_type
    }

    /// The node's children, in document order.
    pub fn children(&self) -> (r: &Vec<Node>)
        ensures
            nodes_view(r@) == self@.children,
    {
        &self.children
    }
}

impl ElementData {
    /// The element's tag name.
    pub fn tag_name(&self) -> (r: &String)
        ensures
            r@ == self@.tag_name,
    {
        &self.tag_name
    }

    /// The element's attribute map.
    pub fn attributes(&self) -> (r: &AttributeMap)
        ensures
            r@ == self@.attributes,
    {
        &self.attributes
    }
}

} // verus!
