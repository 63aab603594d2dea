//! Stripping of default-valued fields from a document.
use vstd::prelude::*;
use vstd::string::*;
use crate::text::is_text;
use crate::tree::{reversed, view_items, view_members, Json, Node};

verus! {

broadcast use vstd::std_specs::vec::group_vec_axioms, vstd::seq::group_seq_axioms;

/// A default value: null, `false`, zero, an empty string, array or object.
pub open spec fn is_default_value(n: Json) -> bool {
    match n {
        Json::Null => true,
        Json::Bool(b) => !b,
        Json::Number(t) => t == "0"@,
        Json::Str(s) => s.len() == 0,
        Json::Array(items) => items.len() == 0,
        Json::Object(ms) => ms.len() == 0,
    }
}

/// A node with its default-valued members and items removed, level by level:
/// what is removed is decided before the node's children are stripped.
pub open spec fn without_defaults(n: Json) -> Json
    decreases n, 0int,
{
    match n {
        Json::Object(ms) => Json::Object(strip_members(ms, 0, Seq::empty())),
        Json::Array(items) => Json::Array(strip_items(items, 0, Seq::empty())),
        _ => n,
    }
}

pub open spec fn strip_members(ms: Seq<(Seq<char>, Json)>, i: int, done: Seq<(Seq<char>, Json)>) -> Seq<
    (Seq<char>, Json),
>
    decreases ms, ms.len() - i,
{
    if i < 0 || i >= ms.len() {
        done
    } else if is_default_value(ms[i].1) {
        strip_members(ms, i + 1, done)
    } else {
        strip_members(ms, i + 1, done.push((ms[i].0, without_defaults(ms[i].1))))
    }
}

pub open spec fn strip_items(items: Seq<Json>, i: int, done: Seq<Json>) -> Seq<Json>
    decreases items, items.len() - i,
{
    if i < 0 || i >= items.len() {
        done
    } else if is_default_value(items[i]) {
        strip_items(items, i + 1, done)
    } else {
        strip_items(items, i + 1, done.push(without_defaults(items[i])))
    }
}

/// Whether a node holds a default value.
pub fn is_default(value: &Node) -> (r: bool)
    ensures
        r == is_default_value(value@),
{
    match value {
        Node::Null => true,
        Node::Bool(b) => !*b,
        Node::Number(t) => is_text(t, "0"),
        Node::Str(s) => s.as_str().unicode_len() == 0,
        Node::Array(items) => items.len() == 0,
        Node::Object(ms) => ms.len() == 0,
    }
}

fn stripped(node: Node) -> (r: Node)
    ensures
        r@ == without_defaults(node@),
    decreases node, 0int,
{
    match node {
        Node::Object(ms) => Node::Object(stripped_members(ms)),
        Node::Array(items) => Node::Array(stripped_items(items)),
        _ => node,
    }
}

fn stripped_members(ms: Vec<(String, Node)>) -> (r: Vec<(String, Node)>)
    ensures
        view_members(r@) == strip_members(view_members(ms@), 0, Seq::empty()),
    decreases ms, 1int,
{
    let ghost vm = view_members(ms@);
    let ghost ms0 = ms@;
    let ghost whole = ms;
    let n = ms.len();
    let mut rev = reversed(ms);
    let mut out: Vec<(String, Node)> = Vec::new();
    assert(view_members(out@) =~= Seq::empty());
    let mut i: usize = 0;
    while i < n
        invariant
            whole@ == ms0,
            whole == ms,
            vm == view_members(ms@),
            n == ms0.len(),
            vm == view_members(ms0),
            rev@.len() + i == n,
            forall|j: int| 0 <= j < rev@.len() ==> rev@[j] == ms0[n - 1 - j],
            strip_members(vm, 0, Seq::empty()) == strip_members(vm, i as int, view_members(out@)),
        decreases n - i,
    {
        let ghost before = out@;
        let (key, v) = rev.pop().unwrap();
        assert((key, v) == ms0[i as int]);
        assert(decreases_to!(whole => v)) by {
            assert(decreases_to!(whole => whole[i as int]));
        }
        if !is_default(&v) {
            let v2 = stripped(v);
            out.push((key, v2));
            assert(view_members(out@) =~= view_members(before).push((key@, v2@)));
        }
        i = i + 1;
    }
    out
}

fn stripped_items(items: Vec<Node>) -> (r: Vec<Node>)
    ensures
        view_items(r@) == strip_items(view_items(items@), 0, Seq::empty()),
    decreases items, 1int,
{
    let ghost vi = view_items(items@);
    let ghost items0 = items@;
    let ghost whole = items;
    let n = items.len();
    let mut rev = reversed(items);
    let mut out: Vec<Node> = Vec::new();
    assert(view_items(out@) =~= Seq::empty());
    let mut i: usize = 0;
    while i < n
        invariant
            whole@ == items0,
            whole == items,
            vi == view_items(items@),
            n == items0.len(),
            vi == view_items(items0),
            rev@.len() + i == n,
            forall|j: int| 0 <= j < rev@.len() ==> rev@[j] == items0[n - 1 - j],
            strip_items(vi, 0, Seq::empty()) == strip_items(vi, i as int, view_items(out@)),
        decreases n - i,
    {
        let ghost before = out@;
        let item = rev.pop().unwrap();
        assert(item == items0[i as int]);
        assert(decreases_to!(whole => item)) by {
            assert(decreases_to!(whole => whole[i as int]));
        }
        if !is_default(&item) {
            let item2 = stripped(item);
            out.push(item2);
            assert(view_items(out@) =~= view_items(before).push(item2@));
        }
        i = i + 1;
    }
    out
}

/// Removes default-valued members and items throughout a document.
pub fn remove_default_values(value: &mut Node)
    ensures
        final(value)@ == without_defaults(old(value)@),
{
    let mut taken = Node::Null;
    std::mem::swap(value, &mut taken);
    *value = stripped(taken);
}

} // verus!
