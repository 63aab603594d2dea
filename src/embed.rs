//! The embedding walker: placeholders out of the document, inline content in.
use vstd::prelude::*;
use vstd::string::*;
use crate::codec::{decode_placeholder, encode_inline, inline_text, is_placeholder, placeholder_media_type, placeholder_ref};
use crate::error::{ConvertError, Failure};
use crate::extract::{files_model, ContentFile, Files};
use crate::location::{resolve, resolve_ref};
use crate::text::is_text;
use crate::tree::{reversed, view_items, view_members, Json, Node};

verus! {

broadcast use vstd::std_specs::vec::group_vec_axioms, vstd::seq::group_seq_axioms;

/// The bytes of the first content at `location`, looking from position `i` on.
pub open spec fn find_content(contents: Files, location: Seq<char>, i: int) -> Option<Seq<u8>>
    decreases contents.len() - i,
{
    if i < 0 || i >= contents.len() {
        None
    } else if contents[i].0 == location {
        Some(contents[i].1)
    } else {
        find_content(contents, location, i + 1)
    }
}

/// Every content's size is one that base64 can encode.
pub open spec fn encodable(contents: Files) -> bool {
    forall|i: int| 0 <= i < contents.len() ==> #[trigger] contents[i].1.len() <= usize::MAX / 2
}

/// One content field's value after embedding.
pub open spec fn embed_value(s: Seq<char>, contents: Files) -> Result<Seq<char>, Failure> {
    if !is_placeholder(s) {
        Ok(s)
    } else {
        match resolve_ref(placeholder_ref(s)) {
            Err(e) => Err(e),
            Ok(loc) => match find_content(contents, loc, 0) {
                None => Err(Failure::MissingContent(loc)),
                Some(b) => Ok(inline_text(placeholder_media_type(s), b)),
            },
        }
    }
}

/// Embedding into a node: every content field is visited, whatever the path.
pub open spec fn embed(n: Json, contents: Files) -> Result<Json, Failure>
    decreases n, 0int,
{
    match n {
        Json::Object(ms) => match embed_members(ms, 0, Seq::empty(), contents) {
            Ok(ms2) => Ok(Json::Object(ms2)),
            Err(e) => Err(e),
        },
        Json::Array(items) => match embed_items(items, 0, Seq::empty(), contents) {
            Ok(items2) => Ok(Json::Array(items2)),
            Err(e) => Err(e),
        },
        _ => Ok(n),
    }
}

/// Embedding into the members of an object from position `i` on.
pub open spec fn embed_members(
    ms: Seq<(Seq<char>, Json)>,
    i: int,
    done: Seq<(Seq<char>, Json)>,
    contents: Files,
) -> Result<Seq<(Seq<char>, Json)>, Failure>
    decreases ms, ms.len() - i,
{
    if i < 0 || i >= ms.len() {
        Ok(done)
    } else {
        match embed_member(ms[i].0, ms[i].1, contents) {
            Ok(v) => embed_members(ms, i + 1, done.push((ms[i].0, v)), contents),
            Err(e) => Err(e),
        }
    }
}

pub open spec fn embed_member(key: Seq<char>, v: Json, contents: Files) -> Result<Json, Failure>
    decreases v, 1int,
{
    if key == "source"@ {
        match v {
            Json::Str(s) => match embed_value(s, contents) {
                Ok(s2) => Ok(Json::Str(s2)),
                Err(e) => Err(e),
            },
            _ => Ok(v),
        }
    } else {
        embed(v, contents)
    }
}

/// Embedding into the items of an array from position `i` on.
pub open spec fn embed_items(items: Seq<Json>, i: int, done: Seq<Json>, contents: Files) -> Result<
    Seq<Json>,
    Failure,
>
    decreases items, items.len() - i,
{
    if i < 0 || i >= items.len() {
        Ok(done)
    } else {
        match embed(items[i], contents) {
            Ok(v) => embed_items(items, i + 1, done.push(v), contents),
            Err(e) => Err(e),
        }
    }
}

/// The position of the first content at `location`, or the number of contents.
fn content_position(contents: &Vec<ContentFile>, location: &String) -> (r: usize)
    ensures
        r <= contents@.len(),
        r < contents@.len() ==> find_content(files_model(contents@), location@, 0) == Some(
            contents@[r as int].bytes@,
        ),
        r == contents@.len() ==> find_content(files_model(contents@), location@, 0) is None,
{
    let ghost fm = files_model(contents@);
    let mut i: usize = 0;
    while i < contents.len()
        invariant
            fm == files_model(contents@),
            i <= contents@.len(),
            find_content(fm, location@, 0) == find_content(fm, location@, i as int),
        decreases contents@.len() - i,
    {
        if contents[i].location == *location {
            return i;
        }
        i = i + 1;
    }
    i
}

/// Converts one content field's value: a placeholder is replaced by the inline
/// form of the content it refers to.
pub fn embed_source(s: String, contents: &Vec<ContentFile>) -> (r: Result<String, ConvertError>)
    requires
        encodable(files_model(contents@)),
    ensures
        match embed_value(s@, files_model(contents@)) {
            Ok(s2) => r matches Ok(t) && t@ == s2,
            Err(e) => r matches Err(e2) && e2@ == e,
        },
{
    match decode_placeholder(s.as_str()) {
        None => Ok(s),
        Some((media_type, reference)) => match resolve(&reference) {
            Err(e) => Err(e),
            Ok(location) => {
                let k = content_position(contents, &location);
                if k == contents.len() {
                    Err(ConvertError::MissingContent(location))
                } else {
                    let bytes = &contents[k].bytes;
                    assert(files_model(contents@)[k as int].1.len() <= usize::MAX / 2);
                    assert(bytes@.len() / 3 * 4 + 4 <= usize::MAX) by (nonlinear_arith)
                        requires
                            bytes@.len() <= usize::MAX / 2,
                    ;
                    Ok(encode_inline(bytes.as_slice(), media_type.as_str()))
                }
            },
        },
    }
}

/// The embedding walker on one node.
pub fn embed_node(node: Node, contents: &Vec<ContentFile>) -> (r: Result<Node, ConvertError>)
    requires
        encodable(files_model(contents@)),
    ensures
        match embed(node@, files_model(contents@)) {
            Ok(j) => r matches Ok(n2) && n2@ == j,
            Err(e) => r matches Err(e2) && e2@ == e,
        },
    decreases node, 0int,
{
    match node {
        Node::Object(ms) => match embed_object_members(ms, contents) {
            Ok(ms2) => Ok(Node::Object(ms2)),
            Err(e) => Err(e),
        },
        Node::Array(items) => match embed_array_items(items, contents) {
            Ok(items2) => Ok(Node::Array(items2)),
            Err(e) => Err(e),
        },
        _ => Ok(node),
    }
}

fn embed_field(key: &String, v: Node, contents: &Vec<ContentFile>) -> (r: Result<Node, ConvertError>)
    requires
        encodable(files_model(contents@)),
    ensures
        match embed_member(key@, v@, files_model(contents@)) {
            Ok(j) => r matches Ok(n2) && n2@ == j,
            Err(e) => r matches Err(e2) && e2@ == e,
        },
    decreases v, 1int,
{
    if is_text(key, "source") {
        match v {
            Node::Str(s) => match embed_source(s, contents) {
                Ok(t) => Ok(Node::Str(t)),
                Err(e) => Err(e),
            },
            _ => Ok(v),
        }
    } else {
        embed_node(v, contents)
    }
}

fn embed_object_members(ms: Vec<(String, Node)>, contents: &Vec<ContentFile>) -> (r: Result<
    Vec<(String, Node)>,
    ConvertError,
>)
    requires
        encodable(files_model(contents@)),
    ensures
        match embed_members(view_members(ms@), 0, Seq::empty(), files_model(contents@)) {
            Ok(j) => r matches Ok(ms2) && view_members(ms2@) == j,
            Err(e) => r matches Err(e2) && e2@ == e,
        },
    decreases ms, 1int,
{
    let ghost vm = view_members(ms@);
    let ghost ms0 = ms@;
    let ghost whole = ms;
    let ghost c = files_model(contents@);
    let n = ms.len();
    let mut rev = reversed(ms);
    let mut out: Vec<(String, Node)> = Vec::new();
    assert(view_members(out@) =~= Seq::empty());
    let mut i: usize = 0;
    while i < n
        invariant
            whole@ == ms0,
            whole == ms,
            c == files_model(contents@),
            encodable(c),
            n == ms0.len(),
            vm == view_members(ms0),
            rev@.len() + i == n,
            forall|j: int| 0 <= j < rev@.len() ==> rev@[j] == ms0[n - 1 - j],
            embed_members(vm, 0, Seq::empty(), c) == embed_members(vm, i as int, view_members(out@), c),
        decreases n - i,
    {
        let ghost before = out@;
        let (key, v) = rev.pop().unwrap();
        assert((key, v) == ms0[i as int]);
        assert(decreases_to!(whole => v)) by {
            assert(decreases_to!(whole => whole[i as int]));
        }
        let converted = embed_field(&key, v, contents);
        match converted {
            Ok(v2) => {
                out.push((key, v2));
                assert(view_members(out@) =~= view_members(before).push((key@, v2@)));
            },
            Err(e) => {
                assert(embed_members(vm, i as int, view_members(before), c) == Err::<
                    Seq<(Seq<char>, Json)>,
                    Failure,
                >(e@));
                return Err(e);
            },
        }
        i = i + 1;
    }
    Ok(out)
}

fn embed_array_items(items: Vec<Node>, contents: &Vec<ContentFile>) -> (r: Result<
    Vec<Node>,
    ConvertError,
>)
    requires
        encodable(files_model(contents@)),
    ensures
        match embed_items(view_items(items@), 0, Seq::empty(), files_model(contents@)) {
            Ok(j) => r matches Ok(items2) && view_items(items2@) == j,
            Err(e) => r matches Err(e2) && e2@ == e,
        },
    decreases items, 1int,
{
    let ghost vi = view_items(items@);
    let ghost items0 = items@;
    let ghost whole = items;
    let ghost c = files_model(contents@);
    let n = items.len();
    let mut rev = reversed(items);
    let mut out: Vec<Node> = Vec::new();
    assert(view_items(out@) =~= Seq::empty());
    let mut i: usize = 0;
    while i < n
        invariant
            whole@ == items0,
            whole == items,
            c == files_model(contents@),
            encodable(c),
            n == items0.len(),
            vi == view_items(items0),
            rev@.len() + i == n,
            forall|j: int| 0 <= j < rev@.len() ==> rev@[j] == items0[n - 1 - j],
            embed_items(vi, 0, Seq::empty(), c) == embed_items(vi, i as int, view_items(out@), c),
        decreases n - i,
    {
        let ghost before = out@;
        let item = rev.pop().unwrap();
        assert(item == items0[i as int]);
        assert(decreases_to!(whole => item)) by {
            assert(decreases_to!(whole => whole[i as int]));
        }
        match embed_node(item, contents) {
            Ok(item2) => {
                out.push(item2);
                assert(view_items(out@) =~= view_items(before).push(item2@));
            },
            Err(e) => {
                assert(embed_items(vi, i as int, view_items(before), c) == Err::<Seq<Json>, Failure>(
                    e@,
                ));
                return Err(e);
            },
        }
        i = i + 1;
    }
    Ok(out)
}

/// Assembles a document: every placeholder in a content field is replaced by
/// the inline form of the content supplied for its location.
pub fn assemble(doc: Node, contents: &Vec<ContentFile>) -> (r: Result<Node, ConvertError>)
    requires
        forall|i: int| 0 <= i < contents@.len() ==> #[trigger] contents@[i].bytes@.len() <= usize::MAX / 2,
    ensures
        match embed(doc@, files_model(contents@)) {
            Ok(j) => r matches Ok(d) && d@ == j,
            Err(e) => r matches Err(e2) && e2@ == e,
        },
{
    assert(encodable(files_model(contents@))) by {
        assert forall|i: int| 0 <= i < files_model(contents@).len() implies #[trigger] files_model(
            contents@,
        )[i].1.len() <= usize::MAX / 2 by {
            assert(contents@[i].bytes@.len() <= usize::MAX / 2);
        }
    }
    embed_node(doc, contents)
}

/// The references of the placeholders in content fields, in document order.
pub open spec fn references(n: Json) -> Seq<Seq<char>>
    decreases n, 0int,
{
    match n {
        Json::Object(ms) => member_references(ms, 0),
        Json::Array(items) => item_references(items, 0),
        _ => Seq::empty(),
    }
}

pub open spec fn member_references(ms: Seq<(Seq<char>, Json)>, i: int) -> Seq<Seq<char>>
    decreases ms, ms.len() - i,
{
    if i < 0 || i >= ms.len() {
        Seq::empty()
    } else {
        field_references(ms[i].0, ms[i].1) + member_references(ms, i + 1)
    }
}

pub open spec fn field_references(key: Seq<char>, v: Json) -> Seq<Seq<char>>
    decreases v, 1int,
{
    if key == "source"@ {
        match v {
            Json::Str(s) => if is_placeholder(s) {
                seq![placeholder_ref(s)]
            } else {
                Seq::empty()
            },
            _ => Seq::empty(),
        }
    } else {
        references(v)
    }
}

pub open spec fn item_references(items: Seq<Json>, i: int) -> Seq<Seq<char>>
    decreases items, items.len() - i,
{
    if i < 0 || i >= items.len() {
        Seq::empty()
    } else {
        references(items[i]) + item_references(items, i + 1)
    }
}

/// Appends to `out` the references of the placeholders under `node`.
fn collect_references(node: &Node, out: &mut Vec<String>)
    ensures
        final(out)@.map_values(|s: String| s@) == old(out)@.map_values(|s: String| s@) + references(node@),
    decreases node, 0int,
{
    match node {
        Node::Object(ms) => {
            let ghost vm = view_members(ms@);
            let ghost start = out@.map_values(|s: String| s@);
            let mut i: usize = 0;
            while i < ms.len()
                invariant
                    vm == view_members(ms@),
                    node@ == Json::Object(vm),
                    *node == Node::Object(*ms),
                    i <= ms@.len(),
                    start == old(out)@.map_values(|s: String| s@),
                    out@.map_values(|s: String| s@) + member_references(vm, i as int) == start
                        + member_references(vm, 0),
                decreases ms@.len() - i,
            {
                let ghost before = out@.map_values(|s: String| s@);
                assert(decreases_to!(*node => ms@[i as int].1)) by {
                    assert(decreases_to!(*ms => ms[i as int]));
                }
                collect_field_references(&ms[i].0, &ms[i].1, out);
                assert(member_references(vm, i as int) == field_references(vm[i as int].0, vm[i as int].1)
                    + member_references(vm, i + 1));
                assert(out@.map_values(|s: String| s@) + member_references(vm, i + 1) =~= before
                    + member_references(vm, i as int));
                i = i + 1;
            }
            assert(out@.map_values(|s: String| s@) =~= out@.map_values(|s: String| s@)
                + member_references(vm, i as int));
        },
        Node::Array(items) => {
            let ghost vi = view_items(items@);
            let ghost start = out@.map_values(|s: String| s@);
            let mut i: usize = 0;
            while i < items.len()
                invariant
                    vi == view_items(items@),
                    node@ == Json::Array(vi),
                    *node == Node::Array(*items),
                    i <= items@.len(),
                    start == old(out)@.map_values(|s: String| s@),
                    out@.map_values(|s: String| s@) + item_references(vi, i as int) == start
                        + item_references(vi, 0),
                decreases items@.len() - i,
            {
                let ghost before = out@.map_values(|s: String| s@);
                assert(decreases_to!(*node => items@[i as int])) by {
                    assert(decreases_to!(*items => items[i as int]));
                }
                collect_references(&items[i], out);
                assert(out@.map_values(|s: String| s@) + item_references(vi, i + 1) =~= before
                    + item_references(vi, i as int));
                i = i + 1;
            }
            assert(out@.map_values(|s: String| s@) =~= out@.map_values(|s: String| s@)
                + item_references(vi, i as int));
        },
        _ => {
            assert(out@.map_values(|s: String| s@) =~= out@.map_values(|s: String| s@) + references(node@));
        },
    }
}

fn collect_field_references(key: &String, v: &Node, out: &mut Vec<String>)
    ensures
        final(out)@.map_values(|s: String| s@) == old(out)@.map_values(|s: String| s@) + field_references(
            key@,
            v@,
        ),
    decreases v, 1int,
{
    if is_text(key, "source") {
        match v {
            Node::Str(s) => match decode_placeholder(s.as_str()) {
                Some((_, reference)) => {
                    let ghost before = out@.map_values(|s: String| s@);
                    out.push(reference);
                    assert(out@.map_values(|s: String| s@) =~= before + field_references(key@, v@));
                },
                None => {
                    assert(out@.map_values(|s: String| s@) =~= out@.map_values(|s: String| s@)
                        + field_references(key@, v@));
                },
            },
            _ => {
                assert(out@.map_values(|s: String| s@) =~= out@.map_values(|s: String| s@)
                    + field_references(key@, v@));
            },
        }
    } else {
        collect_references(v, out);
    }
}

/// The references of all placeholders in the document's content fields, in
/// document order: the external contents that assembly will look up.
pub fn placeholder_references(doc: &Node) -> (r: Vec<String>)
    ensures
        r@.map_values(|s: String| s@) == references(doc@),
{
    let mut out: Vec<String> = Vec::new();
    assert(out@.map_values(|s: String| s@) =~= Seq::empty());
    collect_references(doc, &mut out);
    assert(Seq::<Seq<char>>::empty() + references(doc@) =~= references(doc@));
    out
}

} // verus!
