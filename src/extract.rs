//! The extraction walker: inline content out of the document, placeholders in.
use vstd::prelude::*;
use vstd::string::*;
use crate::codec::{decode, encode_placeholder, inline_body, inline_media_type, is_inline, placeholder_text, Decoded};
use crate::error::{ConvertError, Failure};
use crate::location::{content_location, location_for};
use crate::text::is_text;
use crate::tree::{find_member, member_position, reversed, view_items, view_members, Json, Node};

verus! {

broadcast use vstd::std_specs::vec::group_vec_axioms, vstd::seq::group_seq_axioms;

/// External content: its location under the root and its bytes.
#[derive(Debug)]
pub struct ContentFile {
    pub location: String,
    pub bytes: Vec<u8>,
}

/// External contents as (location, bytes), in order.
pub type Files = Seq<(Seq<char>, Seq<u8>)>;

pub open spec fn files_model(v: Seq<ContentFile>) -> Files {
    Seq::new(v.len(), |i: int| (v[i].location@, v[i].bytes@))
}

/// The logical path in force inside an object: its own `path` where that is a
/// string, else the inherited one.
pub open spec fn logical_path(ms: Seq<(Seq<char>, Json)>, inherited: Seq<char>) -> Seq<char> {
    match find_member(ms, "path"@, 0) {
        Some(Json::Str(p)) => p,
        _ => inherited,
    }
}

pub open spec fn declares_path(ms: Seq<(Seq<char>, Json)>) -> bool {
    find_member(ms, "path"@, 0) is Some
}

/// An object with a content field.
pub open spec fn carries_content(item: Json) -> bool {
    match item {
        Json::Object(ms) => find_member(ms, "source"@, 0) is Some,
        _ => false,
    }
}

/// Whether some item carries content.
pub open spec fn has_carrier(items: Seq<Json>) -> bool {
    exists|i: int| 0 <= i < items.len() && carries_content(#[trigger] items[i])
}

/// An array with at least one element that carries content.
pub open spec fn is_content_array(v: Json) -> bool {
    match v {
        Json::Array(items) => has_carrier(items),
        _ => false,
    }
}

/// Whether an object's content-bearing arrays are disambiguated by index: it
/// declares a path and holds at least one such array.
pub open spec fn fans_out(ms: Seq<(Seq<char>, Json)>) -> bool {
    declares_path(ms) && exists|i: int| 0 <= i < ms.len() && is_content_array(ms[i].1)
}

/// One content field's value after extraction, and the contents extracted so far.
pub open spec fn convert_value(s: Seq<char>, path: Seq<char>, index: Option<usize>, files: Files) -> Result<
    (Seq<char>, Files),
    Failure,
> {
    if !is_inline(s) {
        Ok((s, files))
    } else {
        match inline_body(s) {
            None => Err(Failure::Decode(path)),
            Some(bytes) => match content_location(path, index, files.len(), inline_media_type(s)) {
                Ok(loc) => Ok((placeholder_text(inline_media_type(s), loc), files.push((loc, bytes)))),
                Err(e) => Err(e),
            },
        }
    }
}

/// Extraction from a node under a logical path. `index` is the array index of
/// the content-bearing element that the node lies in, if any; inside such an
/// element the path is no longer redefined.
pub open spec fn walk(n: Json, path: Seq<char>, index: Option<usize>, files: Files) -> Result<
    (Json, Files),
    Failure,
>
    decreases n, 0int,
{
    match n {
        Json::Object(ms) => {
            let p = if index is None {
                logical_path(ms, path)
            } else {
                path
            };
            let fan = index is None && fans_out(ms);
            match walk_members(ms, 0, Seq::empty(), p, index, fan, files) {
                Ok((ms2, f)) => Ok((Json::Object(ms2), f)),
                Err(e) => Err(e),
            }
        },
        Json::Array(items) => match walk_items(items, 0, Seq::empty(), path, index, files) {
            Ok((items2, f)) => Ok((Json::Array(items2), f)),
            Err(e) => Err(e),
        },
        _ => Ok((n, files)),
    }
}

/// Extraction from the members of an object from position `i` on, after
/// `done` holds those before it.
pub open spec fn walk_members(
    ms: Seq<(Seq<char>, Json)>,
    i: int,
    done: Seq<(Seq<char>, Json)>,
    p: Seq<char>,
    index: Option<usize>,
    fan: bool,
    files: Files,
) -> Result<(Seq<(Seq<char>, Json)>, Files), Failure>
    decreases ms, ms.len() - i,
{
    if i < 0 || i >= ms.len() {
        Ok((done, files))
    } else {
        match walk_member(ms[i].0, ms[i].1, p, index, fan, files) {
            Ok((v, f)) => walk_members(ms, i + 1, done.push((ms[i].0, v)), p, index, fan, f),
            Err(e) => Err(e),
        }
    }
}

/// Extraction from one member of an object.
pub open spec fn walk_member(
    key: Seq<char>,
    v: Json,
    p: Seq<char>,
    index: Option<usize>,
    fan: bool,
    files: Files,
) -> Result<(Json, Files), Failure>
    decreases v, 1int,
{
    if key == "source"@ {
        match v {
            Json::Str(s) => match convert_value(s, p, index, files) {
                Ok((s2, f)) => Ok((Json::Str(s2), f)),
                Err(e) => Err(e),
            },
            _ => Ok((v, files)),
        }
    } else if fan && key != "path"@ && is_content_array(v) {
        match v {
            Json::Array(items) => match walk_fan(items, 0, Seq::empty(), p, files) {
                Ok((items2, f)) => Ok((Json::Array(items2), f)),
                Err(e) => Err(e),
            },
            _ => Ok((v, files)),
        }
    } else {
        walk(v, p, index, files)
    }
}

/// Extraction from the items of an array from position `i` on.
pub open spec fn walk_items(
    items: Seq<Json>,
    i: int,
    done: Seq<Json>,
    p: Seq<char>,
    index: Option<usize>,
    files: Files,
) -> Result<(Seq<Json>, Files), Failure>
    decreases items, items.len() - i,
{
    if i < 0 || i >= items.len() {
        Ok((done, files))
    } else {
        match walk(items[i], p, index, files) {
            Ok((v, f)) => walk_items(items, i + 1, done.push(v), p, index, f),
            Err(e) => Err(e),
        }
    }
}

/// Extraction from the items of a content-bearing array from position `i` on:
/// each object item under its own index, other items left as they are.
pub open spec fn walk_fan(items: Seq<Json>, i: int, done: Seq<Json>, p: Seq<char>, files: Files) -> Result<
    (Seq<Json>, Files),
    Failure,
>
    decreases items, items.len() - i,
{
    if i < 0 || i >= items.len() {
        Ok((done, files))
    } else {
        match items[i] {
            Json::Object(_) => match walk(items[i], p, Some(i as usize), files) {
                Ok((v, f)) => walk_fan(items, i + 1, done.push(v), p, f),
                Err(e) => Err(e),
            },
            _ => walk_fan(items, i + 1, done.push(items[i]), p, files),
        }
    }
}

/// Disassembly of a whole document: the document with placeholders, and the
/// contents to store, in order.
pub open spec fn extraction(doc: Json) -> Result<(Json, Files), Failure> {
    walk(doc, Seq::empty(), None, Seq::empty())
}

/// The logical path in force inside an object.
pub fn logical_path_of(ms: &Vec<(String, Node)>, inherited: &String) -> (r: String)
    ensures
        r@ == logical_path(view_members(ms@), inherited@),
{
    let k = member_position(ms, "path");
    if k < ms.len() {
        match &ms[k].1 {
            Node::Str(p) => {
                return String::from_str(p.as_str());
            },
            _ => {},
        }
    }
    String::from_str(inherited.as_str())
}

/// Whether a node is an object with a content field.
pub fn carries_content_node(item: &Node) -> (r: bool)
    ensures
        r == carries_content(item@),
{
    match item {
        Node::Object(ms) => member_position(ms, "source") < ms.len(),
        _ => false,
    }
}

/// Whether a node is an array with an element that carries content.
pub fn is_content_array_node(v: &Node) -> (r: bool)
    ensures
        r == is_content_array(v@),
{
    match v {
        Node::Array(items) => {
            let ghost vi = view_items(items@);
            assert(v@ == Json::Array(vi));
            let mut i: usize = 0;
            while i < items.len()
                invariant
                    vi == view_items(items@),
                    v@ == Json::Array(vi),
                    i <= items@.len(),
                    forall|j: int| 0 <= j < i ==> !carries_content(#[trigger] vi[j]),
                decreases items@.len() - i,
            {
                if carries_content_node(&items[i]) {
                    assert(0 <= i < vi.len() && carries_content(vi[i as int]));
                    assert(has_carrier(vi));
                    return true;
                }
                i = i + 1;
            }
            false
        },
        _ => false,
    }
}

/// Whether an object's content-bearing arrays are disambiguated by index.
pub fn fans_out_of(ms: &Vec<(String, Node)>) -> (r: bool)
    ensures
        r == fans_out(view_members(ms@)),
{
    let ghost vm = view_members(ms@);
    if member_position(ms, "path") == ms.len() {
        return false;
    }
    let mut i: usize = 0;
    while i < ms.len()
        invariant
            vm == view_members(ms@),
            declares_path(vm),
            i <= ms@.len(),
            forall|j: int| 0 <= j < i ==> !is_content_array(#[trigger] vm[j].1),
        decreases ms@.len() - i,
    {
        if is_content_array_node(&ms[i].1) {
            assert(0 <= i < vm.len() && is_content_array(vm[i as int].1));
            return true;
        }
        i = i + 1;
    }
    false
}

/// Converts one content field's value: inline content is recorded in `files`
/// and replaced by its placeholder.
pub fn convert_source(s: String, p: &String, index: Option<usize>, files: &mut Vec<ContentFile>) -> (r:
    Result<String, ConvertError>)
    ensures
        match convert_value(s@, p@, index, files_model(old(files)@)) {
            Ok((s2, fs)) => r matches Ok(t) && t@ == s2 && files_model(final(files)@) == fs,
            Err(e) => r matches Err(e2) && e2@ == e,
        },
{
    match decode(s.as_str()) {
        Decoded::NotInline => Ok(s),
        Decoded::Malformed => Err(ConvertError::Decode(String::from_str(p.as_str()))),
        Decoded::Inline { bytes, media_type } => {
            let n = files.len();
            match location_for(p, index, n, &media_type) {
                Err(e) => Err(e),
                Ok(location) => {
                    let placeholder = encode_placeholder(media_type.as_str(), location.as_str());
                    let ghost before = files@;
                    files.push(ContentFile { location, bytes });
                    assert(files_model(files@) =~= files_model(before).push(
                        (files@.last().location@, files@.last().bytes@),
                    ));
                    Ok(placeholder)
                },
            }
        },
    }
}

/// The extraction walker on one node.
pub fn extract_node(node: Node, path: &String, index: Option<usize>, files: &mut Vec<ContentFile>) -> (r:
    Result<Node, ConvertError>)
    ensures
        match walk(node@, path@, index, files_model(old(files)@)) {
            Ok((j, fs)) => r matches Ok(n2) && n2@ == j && files_model(final(files)@) == fs,
            Err(e) => r matches Err(e2) && e2@ == e,
        },
    decreases node, 0int,
{
    match node {
        Node::Object(ms) => {
            let p = if index.is_none() {
                logical_path_of(&ms, path)
            } else {
                String::from_str(path.as_str())
            };
            let fan = index.is_none() && fans_out_of(&ms);
            match extract_members(ms, &p, index, fan, files) {
                Ok(ms2) => Ok(Node::Object(ms2)),
                Err(e) => Err(e),
            }
        },
        Node::Array(items) => match extract_items(items, path, index, files) {
            Ok(items2) => Ok(Node::Array(items2)),
            Err(e) => Err(e),
        },
        _ => Ok(node),
    }
}

fn extract_members(
    ms: Vec<(String, Node)>,
    p: &String,
    index: Option<usize>,
    fan: bool,
    files: &mut Vec<ContentFile>,
) -> (r: Result<Vec<(String, Node)>, ConvertError>)
    ensures
        match walk_members(view_members(ms@), 0, Seq::empty(), p@, index, fan, files_model(old(files)@)) {
            Ok((j, fs)) => r matches Ok(ms2) && view_members(ms2@) == j && files_model(final(files)@) == fs,
            Err(e) => r matches Err(e2) && e2@ == e,
        },
    decreases ms, 1int,
{
    let ghost vm = view_members(ms@);
    let ghost ms0 = ms@;
    let ghost whole = ms;
    let ghost goal = walk_members(vm, 0, Seq::empty(), p@, index, fan, files_model(files@));
    let n = ms.len();
    let mut rev = reversed(ms);
    let mut out: Vec<(String, Node)> = Vec::new();
    assert(view_members(out@) =~= Seq::empty());
    let mut i: usize = 0;
    while i < n
        invariant
            whole@ == ms0,
            whole == ms,
            goal == walk_members(view_members(ms@), 0, Seq::empty(), p@, index, fan, files_model(old(files)@)),
            n == ms0.len(),
            vm == view_members(ms0),
            rev@.len() + i == n,
            forall|j: int| 0 <= j < rev@.len() ==> rev@[j] == ms0[n - 1 - j],
            goal == walk_members(vm, i as int, view_members(out@), p@, index, fan, files_model(files@)),
        decreases n - i,
    {
        let ghost before = out@;
        let ghost fbefore = files_model(files@);
        let (key, v) = rev.pop().unwrap();
        assert((key, v) == ms0[i as int]);
        assert(decreases_to!(whole => v)) by {
            assert(decreases_to!(whole => whole[i as int]));
        }
        match extract_member(&key, v, p, index, fan, files) {
            Ok(v2) => {
                out.push((key, v2));
                assert(view_members(out@) =~= view_members(before).push((key@, v2@)));
            },
            Err(e) => {
                assert(walk_members(vm, i as int, view_members(before), p@, index, fan, fbefore)
                    == Err::<(Seq<(Seq<char>, Json)>, Files), Failure>(e@));
                return Err(e);
            },
        }
        i = i + 1;
    }
    Ok(out)
}

fn extract_member(
    key: &String,
    v: Node,
    p: &String,
    index: Option<usize>,
    fan: bool,
    files: &mut Vec<ContentFile>,
) -> (r: Result<Node, ConvertError>)
    ensures
        match walk_member(key@, v@, p@, index, fan, files_model(old(files)@)) {
            Ok((j, fs)) => r matches Ok(n2) && n2@ == j && files_model(final(files)@) == fs,
            Err(e) => r matches Err(e2) && e2@ == e,
        },
    decreases v, 1int,
{
    if is_text(key, "source") {
        match v {
            Node::Str(s) => match convert_source(s, p, index, files) {
                Ok(t) => Ok(Node::Str(t)),
                Err(e) => Err(e),
            },
            _ => Ok(v),
        }
    } else if fan && !is_text(key, "path") && is_content_array_node(&v) {
        match v {
            Node::Array(items) => match extract_fan(items, p, files) {
                Ok(items2) => Ok(Node::Array(items2)),
                Err(e) => Err(e),
            },
            _ => Ok(v),
        }
    } else {
        extract_node(v, p, index, files)
    }
}

fn extract_items(items: Vec<Node>, p: &String, index: Option<usize>, files: &mut Vec<ContentFile>) -> (r:
    Result<Vec<Node>, ConvertError>)
    ensures
        match walk_items(view_items(items@), 0, Seq::empty(), p@, index, files_model(old(files)@)) {
            Ok((j, fs)) => r matches Ok(items2) && view_items(items2@) == j && files_model(final(files)@)
                == fs,
            Err(e) => r matches Err(e2) && e2@ == e,
        },
    decreases items, 1int,
{
    let ghost vi = view_items(items@);
    let ghost items0 = items@;
    let ghost whole = items;
    let ghost goal = walk_items(vi, 0, Seq::empty(), p@, index, files_model(files@));
    let n = items.len();
    let mut rev = reversed(items);
    let mut out: Vec<Node> = Vec::new();
    assert(view_items(out@) =~= Seq::empty());
    let mut i: usize = 0;
    while i < n
        invariant
            whole@ == items0,
            whole == items,
            goal == walk_items(view_items(items@), 0, Seq::empty(), p@, index, files_model(old(files)@)),
            n == items0.len(),
            vi == view_items(items0),
            rev@.len() + i == n,
            forall|j: int| 0 <= j < rev@.len() ==> rev@[j] == items0[n - 1 - j],
            goal == walk_items(vi, i as int, view_items(out@), p@, index, files_model(files@)),
        decreases n - i,
    {
        let ghost before = out@;
        let ghost fbefore = files_model(files@);
        let item = rev.pop().unwrap();
        assert(item == items0[i as int]);
        assert(decreases_to!(whole => item)) by {
            assert(decreases_to!(whole => whole[i as int]));
        }
        match extract_node(item, p, index, files) {
            Ok(item2) => {
                out.push(item2);
                assert(view_items(out@) =~= view_items(before).push(item2@));
            },
            Err(e) => {
                assert(walk_items(vi, i as int, view_items(before), p@, index, fbefore)
                    == Err::<(Seq<Json>, Files), Failure>(e@));
                return Err(e);
            },
        }
        i = i + 1;
    }
    Ok(out)
}

fn extract_fan(items: Vec<Node>, p: &String, files: &mut Vec<ContentFile>) -> (r: Result<
    Vec<Node>,
    ConvertError,
>)
    ensures
        match walk_fan(view_items(items@), 0, Seq::empty(), p@, files_model(old(files)@)) {
            Ok((j, fs)) => r matches Ok(items2) && view_items(items2@) == j && files_model(final(files)@)
                == fs,
            Err(e) => r matches Err(e2) && e2@ == e,
        },
    decreases items, 1int,
{
    let ghost vi = view_items(items@);
    let ghost items0 = items@;
    let ghost whole = items;
    let ghost goal = walk_fan(vi, 0, Seq::empty(), p@, files_model(files@));
    let n = items.len();
    let mut rev = reversed(items);
    let mut out: Vec<Node> = Vec::new();
    assert(view_items(out@) =~= Seq::empty());
    let mut i: usize = 0;
    while i < n
        invariant
            whole@ == items0,
            whole == items,
            goal == walk_fan(view_items(items@), 0, Seq::empty(), p@, files_model(old(files)@)),
            n == items0.len(),
            vi == view_items(items0),
            rev@.len() + i == n,
            forall|j: int| 0 <= j < rev@.len() ==> rev@[j] == items0[n - 1 - j],
            goal == walk_fan(vi, i as int, view_items(out@), p@, files_model(files@)),
        decreases n - i,
    {
        let ghost before = out@;
        let ghost fbefore = files_model(files@);
        let item = rev.pop().unwrap();
        assert(item == items0[i as int]);
        assert(decreases_to!(whole => item)) by {
            assert(decreases_to!(whole => whole[i as int]));
        }
        let is_object = match &item {
            Node::Object(_) => true,
            _ => false,
        };
        if is_object {
            match extract_node(item, p, Some(i), files) {
                Ok(item2) => {
                    out.push(item2);
                    assert(view_items(out@) =~= view_items(before).push(item2@));
                },
                Err(e) => {
                    assert(walk_fan(vi, i as int, view_items(before), p@, fbefore)
                        == Err::<(Seq<Json>, Files), Failure>(e@));
                    return Err(e);
                },
            }
        } else {
            out.push(item);
            assert(view_items(out@) =~= view_items(before).push(vi[i as int]));
        }
        i = i + 1;
    }
    Ok(out)
}

/// Disassembles a document: every inline content field that the walk reaches
/// is replaced by a placeholder, and its bytes are returned with their
/// location, in the order of the fields in the document.
pub fn disassemble(doc: Node) -> (r: Result<(Node, Vec<ContentFile>), ConvertError>)
    ensures
        match extraction(doc@) {
            Ok((j, fs)) => r matches Ok((d, files)) && d@ == j && files_model(files@) == fs,
            Err(e) => r matches Err(e2) && e2@ == e,
        },
{
    let mut files: Vec<ContentFile> = Vec::new();
    let root = String::new();
    assert(files_model(files@) =~= Seq::empty());
    match extract_node(doc, &root, None, &mut files) {
        Ok(d) => Ok((d, files)),
        Err(e) => Err(e),
    }
}

} // verus!
