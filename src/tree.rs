//! The document tree and its mathematical model.
use vstd::prelude::*;

verus! {

broadcast use vstd::std_specs::vec::group_vec_axioms, vstd::seq::group_seq_axioms;

/// A document node: the generic tree form of a configuration document.
#[derive(Debug)]
pub enum Node {
    Null,
    Bool(bool),
    /// A number, held as the text that the document writes for it.
    Number(String),
    Str(String),
    Array(Vec<Node>),
    /// Members in document order.
    Object(Vec<(String, Node)>),
}

/// The mathematical model of a `Node`.
pub enum Json {
    Null,
    Bool(bool),
    Number(Seq<char>),
    Str(Seq<char>),
    Array(Seq<Json>),
    Object(Seq<(Seq<char>, Json)>),
}

pub open spec fn view_items(v: Seq<Node>) -> Seq<Json>
    decreases v,
{
    Seq::new(v.len(), |i: int| if 0 <= i < v.len() { view_node(v[i]) } else { Json::Null })
}

pub open spec fn view_members(v: Seq<(String, Node)>) -> Seq<(Seq<char>, Json)>
    decreases v,
{
    Seq::new(
        v.len(),
        |i: int| if 0 <= i < v.len() { (v[i].0@, view_node(v[i].1)) } else { (Seq::empty(), Json::Null) },
    )
}

pub open spec fn view_node(n: Node) -> Json
    decreases n,
{
    match n {
        Node::Null => Json::Null,
        Node::Bool(b) => Json::Bool(b),
        Node::Number(t) => Json::Number(t@),
        Node::Str(s) => Json::Str(s@),
        Node::Array(v) => Json::Array(view_items(v@)),
        Node::Object(v) => Json::Object(view_members(v@)),
    }
}

impl View for Node {
    type V = Json;

    open spec fn view(&self) -> Json {
        view_node(*self)
    }
}

} // verus!

verus! {

/// The value of the first member under `key`, looking from position `i` on.
pub open spec fn find_member(ms: Seq<(Seq<char>, Json)>, key: Seq<char>, i: int) -> Option<Json>
    decreases ms.len() - i,
{
    if i < 0 || i >= ms.len() {
        None
    } else if ms[i].0 == key {
        Some(ms[i].1)
    } else {
        find_member(ms, key, i + 1)
    }
}

/// The position of the first member under `key`, or the number of members.
pub fn member_position(ms: &Vec<(String, Node)>, key: &str) -> (r: usize)
    ensures
        r <= ms@.len(),
        r < ms@.len() ==> ms@[r as int].0@ == key@ && find_member(view_members(ms@), key@, 0)
            == Some(view_node(ms@[r as int].1)),
        r == ms@.len() ==> find_member(view_members(ms@), key@, 0) is None,
{
    let ghost vm = view_members(ms@);
    let key_text = String::from_str(key);
    let mut i: usize = 0;
    while i < ms.len()
        invariant
            vm == view_members(ms@),
            key_text@ == key@,
            i <= ms@.len(),
            find_member(vm, key@, 0) == find_member(vm, key@, i as int),
        decreases ms@.len() - i,
    {
        if ms[i].0 == key_text {
            return i;
        }
        i = i + 1;
    }
    i
}

/// The items of `v` in reverse order.
pub fn reversed<T>(v: Vec<T>) -> (r: Vec<T>)
    ensures
        r@.len() == v@.len(),
        forall|j: int| 0 <= j < v@.len() ==> r@[j] == v@[v@.len() - 1 - j],
{
    let ghost v0 = v@;
    let mut v = v;
    let mut r: Vec<T> = Vec::new();
    while v.len() > 0
        invariant
            r@.len() + v@.len() == v0.len(),
            v@ == v0.subrange(0, v@.len() as int),
            forall|j: int| 0 <= j < r@.len() ==> r@[j] == v0[v0.len() - 1 - j],
        decreases v@.len(),
    {
        let x = v.pop().unwrap();
        r.push(x);
    }
    r
}

} // verus!
