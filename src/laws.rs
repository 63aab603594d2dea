//! Laws of the transform, proved over the models.
use vstd::prelude::*;
use crate::codec::{
    has_scheme, header, inline_body, inline_media_type, inline_text, is_inline,
    is_placeholder, placeholder_mark, placeholder_media_type, placeholder_ref, placeholder_text, scheme,
};
use crate::codec::extension_of;
use crate::embed::{embed, embed_items, embed_member, embed_members, embed_value, find_content};
use crate::extract::{
    carries_content, convert_value, declares_path, extraction, fans_out, has_carrier, is_content_array, logical_path,
    walk, walk_fan, walk_items, walk_member, walk_members, Files,
};
use crate::tree::{find_member, Json};
use crate::error::Failure;
use crate::location::{
    base_location, content_location, escapes_root, parent_segment_at, resolve_ref, strip_root, synthesized_name,
};
use crate::text::{decimal_text, lemma_decimal_digits, lemma_find_char, lemma_find_char_at};

verus! {

broadcast use vstd::seq::group_seq_axioms;

/// Text without commas.
pub open spec fn comma_free(s: Seq<char>) -> bool {
    forall|j: int| 0 <= j < s.len() ==> s[j] != ','
}

/// A placeholder built from a comma-free media type reads back as that media
/// type and location, and is not inline content.
pub proof fn lemma_placeholder_reads_back(media: Seq<char>, location: Seq<char>)
    requires
        comma_free(media),
    ensures
        is_placeholder(placeholder_text(media, location)),
        !is_inline(placeholder_text(media, location)),
        placeholder_media_type(placeholder_text(media, location)) == media,
        placeholder_ref(placeholder_text(media, location)) == location,
{
    reveal_strlit("data:");
    reveal_strlit(";base64-placeholder,");
    reveal_strlit(";base64-placeholder");
    let t = placeholder_text(media, location);
    let k: int = 5 + media.len() as int + 19;
    assert(t.subrange(0, 5) =~= scheme());
    assert(t[k] == ',');
    assert forall|j: int| 5 <= j < k implies t[j] != ',' by {
        if j < 5 + media.len() {
            assert(t[j] == media[j - 5]);
        }
    }
    lemma_find_char_at(t, ',', 5, k);
    assert(header(t) =~= media + placeholder_mark());
    assert(header(t).subrange(header(t).len() - placeholder_mark().len(), header(t).len() as int)
        =~= placeholder_mark());
    assert(placeholder_media_type(t) =~= media);
    assert(placeholder_ref(t) =~= location);
}

/// The media type of inline content holds no comma.
pub proof fn lemma_media_type_comma_free(s: Seq<char>)
    requires
        has_scheme(s),
    ensures
        comma_free(inline_media_type(s)),
{
    reveal_strlit("data:");
    lemma_find_char(s, ',', 5);
    let h = header(s);
    assert(comma_free(h));
}

/// A location inside the root resolves to itself.
pub open spec fn stays_inside(loc: Seq<char>) -> bool {
    loc.len() > 0 && resolve_ref(loc) == Ok::<Seq<char>, Failure>(loc)
}

proof fn lemma_extension_has_no_dot(media: Seq<char>)
    ensures
        forall|j: int| 0 <= j < extension_of(media).len() ==> extension_of(media)[j] != '.',
{
    reveal_strlit("json");
    reveal_strlit("yaml");
    reveal_strlit("xml");
    reveal_strlit("html");
    reveal_strlit("js");
    reveal_strlit("css");
    reveal_strlit("data");
}

proof fn lemma_synthesized_inside(n: nat, media: Seq<char>)
    ensures
        stays_inside(synthesized_name(n, media)),
{
    reveal_strlit("extracted_file_");
    reveal_strlit(".");
    lemma_decimal_digits(n);
    lemma_extension_has_no_dot(media);
    let d = decimal_text(n);
    let e = extension_of(media);
    let name = synthesized_name(n, media);
    let dot: int = 15 + d.len() as int;
    assert(name[0] == 'e');
    assert forall|j: int| 0 <= j < name.len() && j != dot implies name[j] != '.' by {
        if j < 15 {
        } else if j < dot {
            assert(name[j] == d[j - 15]);
        } else {
            assert(name[j] == e[j - dot - 1]);
        }
    }
    assert forall|i: int| !parent_segment_at(name, i) by {
        if parent_segment_at(name, i) {
            assert(name[i] == '.' && name[i + 1] == '.');
        }
    }
    assert(strip_root(name) == name);
}

proof fn lemma_indexed_inside(b: Seq<char>, i: nat)
    requires
        stays_inside(b),
    ensures
        stays_inside(b + "/"@ + decimal_text(i)),
{
    reveal_strlit("/");
    lemma_decimal_digits(i);
    let d = decimal_text(i);
    let loc = b + "/"@ + d;
    assert(strip_root(b) == b);
    assert(!escapes_root(b));
    assert(b[0] != '/');
    assert(loc[0] == b[0]);
    assert forall|k: int| !parent_segment_at(loc, k) by {
        if parent_segment_at(loc, k) {
            if k + 2 <= b.len() {
                assert(loc[k] == b[k] && loc[k + 1] == b[k + 1]);
                if k > 0 {
                    assert(loc[k - 1] == b[k - 1]);
                }
                if k + 2 < b.len() {
                    assert(loc[k + 2] == b[k + 2]);
                }
                assert(parent_segment_at(b, k));
            } else if k + 1 == b.len() {
                assert(loc[k + 1] == '/');
            } else if k == b.len() {
                assert(loc[k] == '/');
            } else {
                assert(loc[k] == d[k - b.len() - 1]);
            }
        }
    }
    assert(strip_root(loc) == loc);
}

/// Every location that extraction computes lies inside the root.
pub proof fn lemma_location_inside(path: Seq<char>, index: Option<usize>, n: nat, media: Seq<char>)
    requires
        content_location(path, index, n, media) is Ok,
    ensures
        stays_inside(content_location(path, index, n, media)->Ok_0),
{
    let r = strip_root(path);
    if r.len() == 0 {
        lemma_synthesized_inside(n, media);
    } else {
        assert(!escapes_root(r));
        assert(r[0] != '/');
        assert(strip_root(r) == r);
    }
    let b = base_location(path, n, media)->Ok_0;
    assert(stays_inside(b));
    if let Some(i) = index {
        lemma_indexed_inside(b, i as nat);
    }
}

/// A logical path that climbs through a parent-directory segment is refused.
pub proof fn lemma_parent_segment_refused(path: Seq<char>, index: Option<usize>, n: nat, media: Seq<char>, k: int)
    requires
        parent_segment_at(strip_root(path), k),
    ensures
        content_location(path, index, n, media) == Err::<Seq<char>, Failure>(Failure::PathEscape(path)),
{
}

/// A reference that climbs through a parent-directory segment is refused.
pub proof fn lemma_parent_reference_refused(reference: Seq<char>, k: int)
    requires
        parent_segment_at(strip_root(reference), k),
    ensures
        resolve_ref(reference) == Err::<Seq<char>, Failure>(Failure::PathEscape(reference)),
{
}

/// The location at position `k` was computed with `k` as the counter.
pub open spec fn counted_at(f: Files, k: int) -> bool {
    exists|p: Seq<char>, index: Option<usize>, media: Seq<char>|
        #[trigger] content_location(p, index, k as nat, media) == Ok::<Seq<char>, Failure>(f[k].0)
}

/// `f2` extends `f`, and every location added lies inside the root and was
/// computed with its own position as the counter.
pub open spec fn grows_inside(f: Files, f2: Files) -> bool {
    &&& f.len() <= f2.len()
    &&& f2.subrange(0, f.len() as int) == f
    &&& forall|k: int| f.len() <= k < f2.len() ==> stays_inside(#[trigger] f2[k].0)
    &&& forall|k: int| f.len() <= k < f2.len() ==> #[trigger] counted_at(f2, k)
}

proof fn lemma_grows_trans(f: Files, f1: Files, f2: Files)
    requires
        grows_inside(f, f1),
        grows_inside(f1, f2),
    ensures
        grows_inside(f, f2),
{
    assert(f2.subrange(0, f.len() as int) =~= f1.subrange(0, f.len() as int));
    assert forall|k: int| f.len() <= k < f2.len() implies stays_inside(#[trigger] f2[k].0) by {
        if k < f1.len() {
            assert(f2[k] == f1[k]);
        }
    }
    assert forall|k: int| f.len() <= k < f2.len() implies #[trigger] counted_at(f2, k) by {
        if k < f1.len() {
            assert(f2[k] == f1[k]);
            assert(counted_at(f1, k));
            let (p, index, media) = choose|p: Seq<char>, index: Option<usize>, media: Seq<char>|
                #[trigger] content_location(p, index, k as nat, media) == Ok::<Seq<char>, Failure>(f1[k].0);
            assert(content_location(p, index, k as nat, media) == Ok::<Seq<char>, Failure>(f2[k].0));
        }
    }
}

proof fn lemma_grows_refl(f: Files)
    ensures
        grows_inside(f, f),
{
    assert(f.subrange(0, f.len() as int) =~= f);
}

proof fn lemma_convert_grows(s: Seq<char>, p: Seq<char>, index: Option<usize>, f: Files)
    requires
        convert_value(s, p, index, f) is Ok,
    ensures
        grows_inside(f, convert_value(s, p, index, f)->Ok_0.1),
{
    if !is_inline(s) {
        lemma_grows_refl(f);
    } else {
        let loc = content_location(p, index, f.len(), inline_media_type(s))->Ok_0;
        lemma_location_inside(p, index, f.len(), inline_media_type(s));
        let f2 = convert_value(s, p, index, f)->Ok_0.1;
        assert(f2.subrange(0, f.len() as int) =~= f);
        assert(counted_at(f2, f.len() as int)) by {
            assert(content_location(p, index, f.len(), inline_media_type(s)) == Ok::<Seq<char>, Failure>(
                f2[f.len() as int].0,
            ));
        }
    }
}

proof fn lemma_walk_grows(n: Json, p: Seq<char>, index: Option<usize>, f: Files)
    requires
        walk(n, p, index, f) is Ok,
    ensures
        grows_inside(f, walk(n, p, index, f)->Ok_0.1),
    decreases n, 0int,
{
    match n {
        Json::Object(ms) => {
            let q = if index is None {
                logical_path(ms, p)
            } else {
                p
            };
            let fan = index is None && fans_out(ms);
            lemma_members_grows(ms, 0, Seq::empty(), q, index, fan, f);
        },
        Json::Array(items) => {
            lemma_items_grows(items, 0, Seq::empty(), p, index, f);
        },
        _ => {
            lemma_grows_refl(f);
        },
    }
}

proof fn lemma_members_grows(
    ms: Seq<(Seq<char>, Json)>,
    i: int,
    done: Seq<(Seq<char>, Json)>,
    p: Seq<char>,
    index: Option<usize>,
    fan: bool,
    f: Files,
)
    requires
        walk_members(ms, i, done, p, index, fan, f) is Ok,
    ensures
        grows_inside(f, walk_members(ms, i, done, p, index, fan, f)->Ok_0.1),
    decreases ms, ms.len() - i,
{
    if i < 0 || i >= ms.len() {
        lemma_grows_refl(f);
    } else {
        let (v, f1) = walk_member(ms[i].0, ms[i].1, p, index, fan, f)->Ok_0;
        lemma_member_grows(ms[i].0, ms[i].1, p, index, fan, f);
        lemma_members_grows(ms, i + 1, done.push((ms[i].0, v)), p, index, fan, f1);
        lemma_grows_trans(f, f1, walk_members(ms, i, done, p, index, fan, f)->Ok_0.1);
    }
}

proof fn lemma_member_grows(
    key: Seq<char>,
    v: Json,
    p: Seq<char>,
    index: Option<usize>,
    fan: bool,
    f: Files,
)
    requires
        walk_member(key, v, p, index, fan, f) is Ok,
    ensures
        grows_inside(f, walk_member(key, v, p, index, fan, f)->Ok_0.1),
    decreases v, 1int,
{
    if key == "source"@ {
        match v {
            Json::Str(s) => lemma_convert_grows(s, p, index, f),
            _ => lemma_grows_refl(f),
        }
    } else if fan && key != "path"@ && crate::extract::is_content_array(v) {
        match v {
            Json::Array(items) => lemma_fan_grows(items, 0, Seq::empty(), p, f),
            _ => lemma_grows_refl(f),
        }
    } else {
        lemma_walk_grows(v, p, index, f);
    }
}

proof fn lemma_items_grows(
    items: Seq<Json>,
    i: int,
    done: Seq<Json>,
    p: Seq<char>,
    index: Option<usize>,
    f: Files,
)
    requires
        walk_items(items, i, done, p, index, f) is Ok,
    ensures
        grows_inside(f, walk_items(items, i, done, p, index, f)->Ok_0.1),
    decreases items, items.len() - i,
{
    if i < 0 || i >= items.len() {
        lemma_grows_refl(f);
    } else {
        let (v, f1) = walk(items[i], p, index, f)->Ok_0;
        lemma_walk_grows(items[i], p, index, f);
        lemma_items_grows(items, i + 1, done.push(v), p, index, f1);
        lemma_grows_trans(f, f1, walk_items(items, i, done, p, index, f)->Ok_0.1);
    }
}

proof fn lemma_fan_grows(items: Seq<Json>, i: int, done: Seq<Json>, p: Seq<char>, f: Files)
    requires
        walk_fan(items, i, done, p, f) is Ok,
    ensures
        grows_inside(f, walk_fan(items, i, done, p, f)->Ok_0.1),
    decreases items, items.len() - i,
{
    if i < 0 || i >= items.len() {
        lemma_grows_refl(f);
    } else {
        match items[i] {
            Json::Object(_) => {
                let (v, f1) = walk(items[i], p, Some(i as usize), f)->Ok_0;
                lemma_walk_grows(items[i], p, Some(i as usize), f);
                lemma_fan_grows(items, i + 1, done.push(v), p, f1);
                lemma_grows_trans(f, f1, walk_fan(items, i, done, p, f)->Ok_0.1);
            },
            _ => {
                lemma_fan_grows(items, i + 1, done.push(items[i]), p, f);
            },
        }
    }
}

/// Disassembly never places content outside the root: every location it
/// returns is relative, free of parent-directory segments, and resolves to
/// itself. Each was computed with its position among the returned contents as
/// the counter, so the counter grows by one for each content extracted.
pub proof fn extraction_stays_inside(doc: Json)
    requires
        extraction(doc) is Ok,
    ensures
        forall|k: int|
            0 <= k < extraction(doc)->Ok_0.1.len() ==> stays_inside(#[trigger] extraction(doc)->Ok_0.1[k].0),
        forall|k: int| 0 <= k < extraction(doc)->Ok_0.1.len() ==> #[trigger] counted_at(extraction(doc)->Ok_0.1, k),
{
    lemma_walk_grows(doc, Seq::empty(), None, Seq::empty());
}

/// A content value that a round trip restores: no placeholder, and inline
/// content written in the canonical form that assembly produces.
pub open spec fn clean_source(s: Seq<char>) -> bool {
    &&& !is_placeholder(s)
    &&& (is_inline(s) && inline_body(s) is Some ==> s == inline_text(
        inline_media_type(s),
        inline_body(s)->Some_0,
    ))
}

pub open spec fn clean_member(key: Seq<char>, v: Json) -> bool {
    &&& (key == "source"@ ==> (v matches Json::Str(s) ==> clean_source(s)))
    &&& clean(v)
}

/// A document whose content fields are all clean.
pub open spec fn clean(n: Json) -> bool
    decreases n, 1int,
{
    match n {
        Json::Object(ms) => clean_members(ms),
        Json::Array(items) => clean_items(items),
        _ => true,
    }
}

pub open spec fn clean_members(ms: Seq<(Seq<char>, Json)>) -> bool
    decreases ms, 0int,
{
    forall|i: int|
        0 <= i < ms.len() ==> {
            &&& (ms[i].0 == "source"@ ==> (ms[i].1 matches Json::Str(s) ==> clean_source(s)))
            &&& clean(#[trigger] ms[i].1)
        }
}

pub open spec fn clean_items(items: Seq<Json>) -> bool
    decreases items, 0int,
{
    forall|i: int| 0 <= i < items.len() ==> clean(#[trigger] items[i])
}

/// `c` supplies the contents of `f2` from position `from` on.
pub open spec fn covers(c: Files, f2: Files, from: int) -> bool {
    forall|k: int| from <= k < f2.len() ==> find_content(c, #[trigger] f2[k].0, 0) == Some(f2[k].1)
}

proof fn lemma_embed_clean(n: Json, c: Files)
    requires
        clean(n),
    ensures
        embed(n, c) == Ok::<Json, Failure>(n),
    decreases n, 0int,
{
    match n {
        Json::Object(ms) => {
            lemma_embed_clean_members(ms, 0, Seq::empty(), c);
            assert(Seq::<(Seq<char>, Json)>::empty() + ms.subrange(0, ms.len() as int) =~= ms);
        },
        Json::Array(items) => {
            lemma_embed_clean_items(items, 0, Seq::empty(), c);
            assert(Seq::<Json>::empty() + items.subrange(0, items.len() as int) =~= items);
        },
        _ => {},
    }
}

proof fn lemma_embed_clean_members(ms: Seq<(Seq<char>, Json)>, i: int, done: Seq<(Seq<char>, Json)>, c: Files)
    requires
        0 <= i <= ms.len(),
        clean(Json::Object(ms)),
    ensures
        embed_members(ms, i, done, c) == Ok::<Seq<(Seq<char>, Json)>, Failure>(done + ms.subrange(i, ms.len() as int)),
    decreases ms, ms.len() - i,
{
    if i == ms.len() {
        assert(done + ms.subrange(i, ms.len() as int) =~= done);
    } else {
        assert(clean(ms[i].1));
        lemma_embed_clean(ms[i].1, c);
        assert(embed_member(ms[i].0, ms[i].1, c) == Ok::<Json, Failure>(ms[i].1));
        lemma_embed_clean_members(ms, i + 1, done.push((ms[i].0, ms[i].1)), c);
        assert(done.push((ms[i].0, ms[i].1)) + ms.subrange(i + 1, ms.len() as int) =~= done + ms.subrange(
            i,
            ms.len() as int,
        ));
    }
}

proof fn lemma_embed_clean_items(items: Seq<Json>, i: int, done: Seq<Json>, c: Files)
    requires
        0 <= i <= items.len(),
        clean(Json::Array(items)),
    ensures
        embed_items(items, i, done, c) == Ok::<Seq<Json>, Failure>(done + items.subrange(i, items.len() as int)),
    decreases items, items.len() - i,
{
    if i == items.len() {
        assert(done + items.subrange(i, items.len() as int) =~= done);
    } else {
        assert(clean(items[i]));
        lemma_embed_clean(items[i], c);
        lemma_embed_clean_items(items, i + 1, done.push(items[i]), c);
        assert(done.push(items[i]) + items.subrange(i + 1, items.len() as int) =~= done + items.subrange(
            i,
            items.len() as int,
        ));
    }
}

proof fn lemma_covers_prefix(c: Files, f1: Files, f2: Files, from: int)
    requires
        0 <= from,
        covers(c, f2, from),
        f1.len() <= f2.len(),
        f2.subrange(0, f1.len() as int) == f1,
    ensures
        covers(c, f1, from),
{
    assert forall|k: int| from <= k < f1.len() implies find_content(c, #[trigger] f1[k].0, 0) == Some(f1[k].1) by {
        assert(f2.subrange(0, f1.len() as int)[k] == f2[k]);
        assert(f1[k] == f2[k]);
        assert(find_content(c, f2[k].0, 0) == Some(f2[k].1));
    }
}

proof fn lemma_convert_round_trip(s: Seq<char>, p: Seq<char>, index: Option<usize>, f: Files, c: Files)
    requires
        clean_source(s),
        convert_value(s, p, index, f) is Ok,
        covers(c, convert_value(s, p, index, f)->Ok_0.1, f.len() as int),
    ensures
        embed_value(convert_value(s, p, index, f)->Ok_0.0, c) == Ok::<Seq<char>, Failure>(s),
{
    if is_inline(s) {
        let media = inline_media_type(s);
        let loc = content_location(p, index, f.len(), media)->Ok_0;
        let f2 = convert_value(s, p, index, f)->Ok_0.1;
        lemma_media_type_comma_free(s);
        lemma_placeholder_reads_back(media, loc);
        lemma_location_inside(p, index, f.len(), media);
        let k = f.len() as int;
        assert(f2[k] == (loc, inline_body(s)->Some_0));
        assert(find_content(c, f2[k].0, 0) == Some(f2[k].1));
        assert(resolve_ref(loc) == Ok::<Seq<char>, Failure>(loc));
        let s2 = placeholder_text(media, loc);
        assert(convert_value(s, p, index, f)->Ok_0.0 == s2);
        assert(embed_value(s2, c) == Ok::<Seq<char>, Failure>(inline_text(media, inline_body(s)->Some_0)));
    }
}

proof fn lemma_walk_round_trip(n: Json, p: Seq<char>, index: Option<usize>, f: Files, c: Files)
    requires
        clean(n),
        walk(n, p, index, f) is Ok,
        covers(c, walk(n, p, index, f)->Ok_0.1, f.len() as int),
    ensures
        embed(walk(n, p, index, f)->Ok_0.0, c) == Ok::<Json, Failure>(n),
    decreases n, 0int,
{
    match n {
        Json::Object(ms) => {
            let q = if index is None {
                logical_path(ms, p)
            } else {
                p
            };
            let fan = index is None && fans_out(ms);
            lemma_members_round_trip(ms, 0, Seq::empty(), q, index, fan, f, c, Seq::empty());
            assert(Seq::<(Seq<char>, Json)>::empty() + ms.subrange(0, ms.len() as int) =~= ms);
        },
        Json::Array(items) => {
            lemma_items_round_trip(items, 0, Seq::empty(), p, index, f, c, Seq::empty());
            assert(Seq::<Json>::empty() + items.subrange(0, items.len() as int) =~= items);
        },
        _ => {},
    }
}

proof fn lemma_members_round_trip(
    ms: Seq<(Seq<char>, Json)>,
    i: int,
    done: Seq<(Seq<char>, Json)>,
    p: Seq<char>,
    index: Option<usize>,
    fan: bool,
    f: Files,
    c: Files,
    edone: Seq<(Seq<char>, Json)>,
)
    requires
        0 <= i <= ms.len(),
        clean_members(ms),
        walk_members(ms, i, done, p, index, fan, f) is Ok,
        covers(c, walk_members(ms, i, done, p, index, fan, f)->Ok_0.1, f.len() as int),
    ensures
        ({
            let res = walk_members(ms, i, done, p, index, fan, f)->Ok_0.0;
            &&& res.len() == done.len() + ms.len() - i
            &&& res.subrange(0, done.len() as int) == done
            &&& embed_members(res, done.len() as int, edone, c) == Ok::<Seq<(Seq<char>, Json)>, Failure>(
                edone + ms.subrange(i, ms.len() as int),
            )
        }),
    decreases ms, ms.len() - i,
{
    if i == ms.len() {
        assert(done.subrange(0, done.len() as int) =~= done);
        assert(edone + ms.subrange(i, ms.len() as int) =~= edone);
    } else {
        let key = ms[i].0;
        let (v, f1) = walk_member(key, ms[i].1, p, index, fan, f)->Ok_0;
        let f2 = walk_members(ms, i, done, p, index, fan, f)->Ok_0.1;
        let res = walk_members(ms, i, done, p, index, fan, f)->Ok_0.0;
        lemma_members_grows(ms, i + 1, done.push((key, v)), p, index, fan, f1);
        lemma_member_grows(key, ms[i].1, p, index, fan, f);
        lemma_covers_prefix(c, f1, f2, f.len() as int);
        assert(clean(ms[i].1));
        lemma_member_round_trip(key, ms[i].1, p, index, fan, f, c);
        lemma_members_round_trip(ms, i + 1, done.push((key, v)), p, index, fan, f1, c, edone.push(ms[i]));
        assert(res.subrange(0, done.len() as int + 1) == done.push((key, v)));
        assert(res[done.len() as int] == done.push((key, v))[done.len() as int]);
        assert(res.subrange(0, done.len() as int) =~= done.push((key, v)).subrange(0, done.len() as int));
        assert(embed_member(res[done.len() as int].0, res[done.len() as int].1, c) == Ok::<Json, Failure>(
            ms[i].1,
        ));
        assert(edone.push(ms[i]) + ms.subrange(i + 1, ms.len() as int) =~= edone + ms.subrange(i, ms.len() as int));
        assert((res[done.len() as int].0, ms[i].1) == ms[i]);
    }
}

proof fn lemma_member_round_trip(
    key: Seq<char>,
    v: Json,
    p: Seq<char>,
    index: Option<usize>,
    fan: bool,
    f: Files,
    c: Files,
)
    requires
        key == "source"@ ==> (v matches Json::Str(s) ==> clean_source(s)),
        clean(v),
        walk_member(key, v, p, index, fan, f) is Ok,
        covers(c, walk_member(key, v, p, index, fan, f)->Ok_0.1, f.len() as int),
    ensures
        embed_member(key, walk_member(key, v, p, index, fan, f)->Ok_0.0, c) == Ok::<Json, Failure>(v),
    decreases v, 1int,
{
    if key == "source"@ {
        match v {
            Json::Str(s) => lemma_convert_round_trip(s, p, index, f, c),
            _ => {},
        }
    } else if fan && key != "path"@ && crate::extract::is_content_array(v) {
        match v {
            Json::Array(items) => {
                lemma_fan_round_trip(items, 0, Seq::empty(), p, f, c, Seq::empty());
                assert(Seq::<Json>::empty() + items.subrange(0, items.len() as int) =~= items);
            },
            _ => {},
        }
    } else {
        lemma_walk_round_trip(v, p, index, f, c);
    }
}

proof fn lemma_items_round_trip(
    items: Seq<Json>,
    i: int,
    done: Seq<Json>,
    p: Seq<char>,
    index: Option<usize>,
    f: Files,
    c: Files,
    edone: Seq<Json>,
)
    requires
        0 <= i <= items.len(),
        clean_items(items),
        walk_items(items, i, done, p, index, f) is Ok,
        covers(c, walk_items(items, i, done, p, index, f)->Ok_0.1, f.len() as int),
    ensures
        ({
            let res = walk_items(items, i, done, p, index, f)->Ok_0.0;
            &&& res.len() == done.len() + items.len() - i
            &&& res.subrange(0, done.len() as int) == done
            &&& embed_items(res, done.len() as int, edone, c) == Ok::<Seq<Json>, Failure>(
                edone + items.subrange(i, items.len() as int),
            )
        }),
    decreases items, items.len() - i,
{
    if i == items.len() {
        assert(done.subrange(0, done.len() as int) =~= done);
        assert(edone + items.subrange(i, items.len() as int) =~= edone);
    } else {
        let (v, f1) = walk(items[i], p, index, f)->Ok_0;
        let f2 = walk_items(items, i, done, p, index, f)->Ok_0.1;
        let res = walk_items(items, i, done, p, index, f)->Ok_0.0;
        lemma_items_grows(items, i + 1, done.push(v), p, index, f1);
        lemma_walk_grows(items[i], p, index, f);
        lemma_covers_prefix(c, f1, f2, f.len() as int);
        assert(clean(items[i]));
        lemma_walk_round_trip(items[i], p, index, f, c);
        lemma_items_round_trip(items, i + 1, done.push(v), p, index, f1, c, edone.push(items[i]));
        assert(res.subrange(0, done.len() as int + 1) == done.push(v));
        assert(res[done.len() as int] == done.push(v)[done.len() as int]);
        assert(res.subrange(0, done.len() as int) =~= done.push(v).subrange(0, done.len() as int));
        assert(edone.push(items[i]) + items.subrange(i + 1, items.len() as int) =~= edone + items.subrange(
            i,
            items.len() as int,
        ));
    }
}

proof fn lemma_fan_round_trip(
    items: Seq<Json>,
    i: int,
    done: Seq<Json>,
    p: Seq<char>,
    f: Files,
    c: Files,
    edone: Seq<Json>,
)
    requires
        0 <= i <= items.len(),
        clean_items(items),
        walk_fan(items, i, done, p, f) is Ok,
        covers(c, walk_fan(items, i, done, p, f)->Ok_0.1, f.len() as int),
    ensures
        ({
            let res = walk_fan(items, i, done, p, f)->Ok_0.0;
            &&& res.len() == done.len() + items.len() - i
            &&& res.subrange(0, done.len() as int) == done
            &&& embed_items(res, done.len() as int, edone, c) == Ok::<Seq<Json>, Failure>(
                edone + items.subrange(i, items.len() as int),
            )
        }),
    decreases items, items.len() - i,
{
    if i == items.len() {
        assert(done.subrange(0, done.len() as int) =~= done);
        assert(edone + items.subrange(i, items.len() as int) =~= edone);
    } else {
        assert(clean(items[i]));
        let res = walk_fan(items, i, done, p, f)->Ok_0.0;
        let f2 = walk_fan(items, i, done, p, f)->Ok_0.1;
        let v = match items[i] {
            Json::Object(_) => walk(items[i], p, Some(i as usize), f)->Ok_0.0,
            _ => items[i],
        };
        let f1 = match items[i] {
            Json::Object(_) => walk(items[i], p, Some(i as usize), f)->Ok_0.1,
            _ => f,
        };
        match items[i] {
            Json::Object(_) => {
                lemma_walk_grows(items[i], p, Some(i as usize), f);
                lemma_fan_grows(items, i + 1, done.push(v), p, f1);
                lemma_covers_prefix(c, f1, f2, f.len() as int);
                lemma_walk_round_trip(items[i], p, Some(i as usize), f, c);
            },
            _ => {
                lemma_embed_clean(items[i], c);
            },
        }
        lemma_fan_round_trip(items, i + 1, done.push(v), p, f1, c, edone.push(items[i]));
        assert(res.subrange(0, done.len() as int + 1) == done.push(v));
        assert(res[done.len() as int] == done.push(v)[done.len() as int]);
        assert(res.subrange(0, done.len() as int) =~= done.push(v).subrange(0, done.len() as int));
        assert(edone.push(items[i]) + items.subrange(i + 1, items.len() as int) =~= edone + items.subrange(
            i,
            items.len() as int,
        ));
    }
}

/// No two contents share a location.
pub open spec fn distinct_locations(f: Files) -> bool {
    forall|a: int, b: int| 0 <= a < b < f.len() ==> f[a].0 != f[b].0
}

proof fn lemma_find_content_at(c: Files, k: int, from: int)
    requires
        0 <= from <= k < c.len(),
        forall|j: int| from <= j < k ==> c[j].0 != c[k].0,
    ensures
        find_content(c, c[k].0, from) == Some(c[k].1),
    decreases k - from,
{
    if from < k {
        lemma_find_content_at(c, k, from + 1);
    }
}

/// Round trip: assembling what disassembly returns, with the extracted
/// contents, gives back the original document. This holds where every content
/// field is clean (no placeholder, inline content in the canonical form) and
/// no two extracted contents share a location.
pub proof fn round_trip(doc: Json)
    requires
        clean(doc),
        extraction(doc) is Ok,
        distinct_locations(extraction(doc)->Ok_0.1),
    ensures
        embed(extraction(doc)->Ok_0.0, extraction(doc)->Ok_0.1) == Ok::<Json, Failure>(doc),
{
    let fs = extraction(doc)->Ok_0.1;
    assert forall|k: int| 0 <= k < fs.len() implies find_content(fs, #[trigger] fs[k].0, 0) == Some(fs[k].1) by {
        lemma_find_content_at(fs, k, 0);
    }
    lemma_walk_round_trip(doc, Seq::empty(), None, Seq::empty(), fs);
}

/// Content under no logical path is named from the counter, with the
/// extension of its media type; different counter values give different
/// names, whatever the media types.
pub proof fn synthesized_names(path: Seq<char>, n1: nat, m1: Seq<char>, n2: nat, m2: Seq<char>)
    requires
        strip_root(path).len() == 0,
    ensures
        content_location(path, None, n1, m1) == Ok::<Seq<char>, Failure>(synthesized_name(n1, m1)),
        synthesized_name(n1, m1) == "extracted_file_"@ + decimal_text(n1) + "."@ + extension_of(m1),
        n1 != n2 ==> synthesized_name(n1, m1) != synthesized_name(n2, m2),
{
    if n1 != n2 && synthesized_name(n1, m1) == synthesized_name(n2, m2) {
        reveal_strlit("extracted_file_");
        reveal_strlit(".");
        lemma_decimal_digits(n1);
        lemma_decimal_digits(n2);
        let a = synthesized_name(n1, m1);
        let d1 = decimal_text(n1);
        let d2 = decimal_text(n2);
        // The first dot after the prefix ends the counter's digits.
        if d1.len() < d2.len() {
            assert(a[15 + d1.len() as int] == '.');
            assert(a[15 + d1.len() as int] == d2[d1.len() as int]);
        } else if d2.len() < d1.len() {
            assert(a[15 + d2.len() as int] == '.');
            assert(a[15 + d2.len() as int] == d1[d2.len() as int]);
        } else {
            assert forall|j: int| 0 <= j < d1.len() implies d1[j] == d2[j] by {
                assert(a[15 + j] == d1[j]);
                assert(synthesized_name(n2, m2)[15 + j] == d2[j]);
            }
            assert(d1 =~= d2);
            crate::text::lemma_decimal_injective(n1, n2);
        }
    }
}

/// The position of the first member under `key` from `i` on, or the number of members.
pub open spec fn first_key(ms: Seq<(Seq<char>, Json)>, key: Seq<char>, i: int) -> int
    decreases ms.len() - i,
{
    if i < 0 || i >= ms.len() {
        ms.len() as int
    } else if ms[i].0 == key {
        i
    } else {
        first_key(ms, key, i + 1)
    }
}

proof fn lemma_first_key(ms: Seq<(Seq<char>, Json)>, key: Seq<char>, i: int)
    requires
        0 <= i <= ms.len(),
    ensures
        i <= first_key(ms, key, i) <= ms.len(),
        first_key(ms, key, i) < ms.len() ==> ms[first_key(ms, key, i)].0 == key && find_member(ms, key, i)
            == Some(ms[first_key(ms, key, i)].1),
        first_key(ms, key, i) == ms.len() ==> find_member(ms, key, i) is None,
    decreases ms.len() - i,
{
    if i < ms.len() && ms[i].0 != key {
        lemma_first_key(ms, key, i + 1);
    }
}

/// Two member lists with the same keys, position by position.
pub open spec fn same_keys(ms: Seq<(Seq<char>, Json)>, ms2: Seq<(Seq<char>, Json)>) -> bool {
    ms.len() == ms2.len() && forall|j: int| 0 <= j < ms.len() ==> #[trigger] ms[j].0 == ms2[j].0
}

proof fn lemma_first_key_same(ms: Seq<(Seq<char>, Json)>, ms2: Seq<(Seq<char>, Json)>, key: Seq<char>, i: int)
    requires
        same_keys(ms, ms2),
        0 <= i <= ms.len(),
    ensures
        first_key(ms, key, i) == first_key(ms2, key, i),
    decreases ms.len() - i,
{
    if i < ms.len() {
        assert(ms[i].0 == ms2[i].0);
        lemma_first_key_same(ms, ms2, key, i + 1);
    }
}

/// What extraction keeps of a node: strings stay as they are, and whether it
/// is an object, a string, an object with a content field, or a
/// content-bearing array.
pub open spec fn kept_node(a: Json, b: Json) -> bool {
    &&& (a is Str ==> b == a)
    &&& (a is Str <==> b is Str)
    &&& (a is Object <==> b is Object)
    &&& carries_content(a) == carries_content(b)
    &&& is_content_array(a) == is_content_array(b)
}

/// What extraction keeps of a member's value.
pub open spec fn kept_member(key: Seq<char>, a: Json, b: Json) -> bool {
    &&& (a is Str <==> b is Str)
    &&& (key != "source"@ && a is Str ==> b == a)
    &&& is_content_array(a) == is_content_array(b)
}

proof fn lemma_carriers_kept(items: Seq<Json>, items2: Seq<Json>)
    requires
        items.len() == items2.len(),
        forall|j: int| 0 <= j < items.len() ==> carries_content(#[trigger] items[j]) == carries_content(items2[j]),
    ensures
        has_carrier(items) == has_carrier(items2),
{
    if has_carrier(items) {
        let j = choose|j: int| 0 <= j < items.len() && carries_content(#[trigger] items[j]);
        assert(carries_content(items2[j]));
    }
    if has_carrier(items2) {
        let j = choose|j: int| 0 <= j < items2.len() && carries_content(#[trigger] items2[j]);
        assert(carries_content(items[j]));
    }
}

proof fn lemma_walk_fixed(n: Json, p: Seq<char>, index: Option<usize>, f: Files)
    requires
        walk(n, p, index, f) is Ok,
    ensures
        kept_node(n, walk(n, p, index, f)->Ok_0.0),
        forall|g: Files|
            walk(walk(n, p, index, f)->Ok_0.0, p, index, g) == Ok::<(Json, Files), Failure>(
                (walk(n, p, index, f)->Ok_0.0, g),
            ),
    decreases n, 0int,
{
    match n {
        Json::Object(ms) => {
            let q = if index is None {
                logical_path(ms, p)
            } else {
                p
            };
            let fan = index is None && fans_out(ms);
            lemma_members_fixed(ms, 0, Seq::empty(), q, index, fan, f);
            let ms2 = walk_members(ms, 0, Seq::empty(), q, index, fan, f)->Ok_0.0;
            assert(same_keys(ms, ms2));
            reveal_strlit("path");
            reveal_strlit("source");
            lemma_first_key(ms, "path"@, 0);
            lemma_first_key(ms2, "path"@, 0);
            lemma_first_key_same(ms, ms2, "path"@, 0);
            lemma_first_key(ms, "source"@, 0);
            lemma_first_key(ms2, "source"@, 0);
            lemma_first_key_same(ms, ms2, "source"@, 0);
            let k = first_key(ms, "path"@, 0);
            if k < ms.len() {
                assert(kept_member(ms[k].0, ms[k].1, ms2[k].1));
                assert("path"@.len() != "source"@.len());
            }
            assert(logical_path(ms2, p) == logical_path(ms, p));
            assert(declares_path(ms2) == declares_path(ms));
            if fans_out(ms) {
                let j = choose|j: int| 0 <= j < ms.len() && is_content_array(#[trigger] ms[j].1);
                assert(kept_member(ms[j].0, ms[j].1, ms2[j].1));
                assert(is_content_array(ms2[j].1));
            }
            if fans_out(ms2) {
                let j = choose|j: int| 0 <= j < ms2.len() && is_content_array(#[trigger] ms2[j].1);
                assert(kept_member(ms[j].0, ms[j].1, ms2[j].1));
                assert(is_content_array(ms[j].1));
            }
            assert(fans_out(ms2) == fans_out(ms));
            assert forall|g: Files|
                walk(Json::Object(ms2), p, index, g) == Ok::<(Json, Files), Failure>((Json::Object(ms2), g)) by {
                lemma_members_run_fixed(ms2, 0, Seq::empty(), q, index, fan, g);
                assert(Seq::<(Seq<char>, Json)>::empty() + ms2.subrange(0, ms2.len() as int) =~= ms2);
            }
        },
        Json::Array(items) => {
            lemma_items_fixed(items, 0, Seq::empty(), p, index, f);
            let items2 = walk_items(items, 0, Seq::empty(), p, index, f)->Ok_0.0;
            lemma_carriers_kept(items, items2);
            assert forall|g: Files|
                walk(Json::Array(items2), p, index, g) == Ok::<(Json, Files), Failure>((Json::Array(items2), g)) by {
                lemma_items_run_fixed(items2, 0, Seq::empty(), p, index, g);
                assert(Seq::<Json>::empty() + items2.subrange(0, items2.len() as int) =~= items2);
            }
        },
        _ => {},
    }
}

proof fn lemma_members_fixed(
    ms: Seq<(Seq<char>, Json)>,
    i: int,
    done: Seq<(Seq<char>, Json)>,
    p: Seq<char>,
    index: Option<usize>,
    fan: bool,
    f: Files,
)
    requires
        0 <= i <= ms.len(),
        done.len() == i,
        walk_members(ms, i, done, p, index, fan, f) is Ok,
    ensures
        ({
            let res = walk_members(ms, i, done, p, index, fan, f)->Ok_0.0;
            &&& res.len() == ms.len()
            &&& res.subrange(0, i) == done
            &&& forall|j: int| i <= j < ms.len() ==> #[trigger] res[j].0 == ms[j].0
            &&& forall|j: int| i <= j < ms.len() ==> kept_member(ms[j].0, ms[j].1, #[trigger] res[j].1)
            &&& forall|j: int, g: Files|
                i <= j < ms.len() ==> #[trigger] walk_member(res[j].0, res[j].1, p, index, fan, g) == Ok::<
                    (Json, Files),
                    Failure,
                >((res[j].1, g))
        }),
    decreases ms, ms.len() - i,
{
    if i == ms.len() {
        assert(done.subrange(0, i) =~= done);
    } else {
        let (v, f1) = walk_member(ms[i].0, ms[i].1, p, index, fan, f)->Ok_0;
        lemma_member_fixed(ms[i].0, ms[i].1, p, index, fan, f);
        lemma_members_fixed(ms, i + 1, done.push((ms[i].0, v)), p, index, fan, f1);
        let res = walk_members(ms, i, done, p, index, fan, f)->Ok_0.0;
        assert(res.subrange(0, i + 1) == done.push((ms[i].0, v)));
        assert(res[i] == res.subrange(0, i + 1)[i]);
        assert(res.subrange(0, i) =~= res.subrange(0, i + 1).subrange(0, i));
        assert(res.subrange(0, i) =~= done);
    }
}

proof fn lemma_members_run_fixed(
    res: Seq<(Seq<char>, Json)>,
    i: int,
    edone: Seq<(Seq<char>, Json)>,
    p: Seq<char>,
    index: Option<usize>,
    fan: bool,
    g: Files,
)
    requires
        0 <= i <= res.len(),
        forall|j: int, g2: Files|
            i <= j < res.len() ==> #[trigger] walk_member(res[j].0, res[j].1, p, index, fan, g2) == Ok::<
                (Json, Files),
                Failure,
            >((res[j].1, g2)),
    ensures
        walk_members(res, i, edone, p, index, fan, g) == Ok::<(Seq<(Seq<char>, Json)>, Files), Failure>(
            (edone + res.subrange(i, res.len() as int), g),
        ),
    decreases res.len() - i,
{
    if i == res.len() {
        assert(edone + res.subrange(i, res.len() as int) =~= edone);
    } else {
        assert(walk_member(res[i].0, res[i].1, p, index, fan, g) == Ok::<(Json, Files), Failure>((res[i].1, g)));
        lemma_members_run_fixed(res, i + 1, edone.push((res[i].0, res[i].1)), p, index, fan, g);
        assert(edone.push((res[i].0, res[i].1)) + res.subrange(i + 1, res.len() as int) =~= edone + res.subrange(
            i,
            res.len() as int,
        ));
    }
}

proof fn lemma_member_fixed(key: Seq<char>, v: Json, p: Seq<char>, index: Option<usize>, fan: bool, f: Files)
    requires
        walk_member(key, v, p, index, fan, f) is Ok,
    ensures
        kept_member(key, v, walk_member(key, v, p, index, fan, f)->Ok_0.0),
        forall|g: Files|
            walk_member(key, walk_member(key, v, p, index, fan, f)->Ok_0.0, p, index, fan, g) == Ok::<
                (Json, Files),
                Failure,
            >((walk_member(key, v, p, index, fan, f)->Ok_0.0, g)),
    decreases v, 1int,
{
    if key == "source"@ {
        match v {
            Json::Str(s) => {
                if is_inline(s) {
                    lemma_media_type_comma_free(s);
                    let loc = content_location(p, index, f.len(), inline_media_type(s))->Ok_0;
                    lemma_placeholder_reads_back(inline_media_type(s), loc);
                }
                let s2 = convert_value(s, p, index, f)->Ok_0.0;
                assert(!is_inline(s2));
                assert forall|g: Files|
                    walk_member(key, Json::Str(s2), p, index, fan, g) == Ok::<(Json, Files), Failure>(
                        (Json::Str(s2), g),
                    ) by {
                    assert(convert_value(s2, p, index, g) == Ok::<(Seq<char>, Files), Failure>((s2, g)));
                }
            },
            _ => {},
        }
    } else if fan && key != "path"@ && is_content_array(v) {
        match v {
            Json::Array(items) => {
                lemma_fan_fixed(items, 0, Seq::empty(), p, f);
                let items2 = walk_fan(items, 0, Seq::empty(), p, f)->Ok_0.0;
                assert forall|j: int| 0 <= j < items.len() implies carries_content(#[trigger] items[j])
                    == carries_content(items2[j]) by {
                    assert(kept_node(items[j], items2[j]));
                }
                lemma_carriers_kept(items, items2);
                assert(is_content_array(Json::Array(items2)));
                assert forall|g: Files|
                    walk_member(key, Json::Array(items2), p, index, fan, g) == Ok::<(Json, Files), Failure>(
                        (Json::Array(items2), g),
                    ) by {
                    lemma_fan_run_fixed(items2, 0, Seq::empty(), p, g);
                    assert(Seq::<Json>::empty() + items2.subrange(0, items2.len() as int) =~= items2);
                }
            },
            _ => {},
        }
    } else {
        lemma_walk_fixed(v, p, index, f);
        let v2 = walk(v, p, index, f)->Ok_0.0;
        assert forall|g: Files|
            walk_member(key, v2, p, index, fan, g) == Ok::<(Json, Files), Failure>((v2, g)) by {
            assert(walk(v2, p, index, g) == Ok::<(Json, Files), Failure>((v2, g)));
        }
    }
}

proof fn lemma_items_fixed(items: Seq<Json>, i: int, done: Seq<Json>, p: Seq<char>, index: Option<usize>, f: Files)
    requires
        0 <= i <= items.len(),
        done.len() == i,
        walk_items(items, i, done, p, index, f) is Ok,
    ensures
        ({
            let res = walk_items(items, i, done, p, index, f)->Ok_0.0;
            &&& res.len() == items.len()
            &&& res.subrange(0, i) == done
            &&& forall|j: int| i <= j < items.len() ==> kept_node(items[j], #[trigger] res[j])
            &&& forall|j: int, g: Files|
                i <= j < items.len() ==> #[trigger] walk(res[j], p, index, g) == Ok::<(Json, Files), Failure>(
                    (res[j], g),
                )
        }),
    decreases items, items.len() - i,
{
    if i == items.len() {
        assert(done.subrange(0, i) =~= done);
    } else {
        let (v, f1) = walk(items[i], p, index, f)->Ok_0;
        lemma_walk_fixed(items[i], p, index, f);
        lemma_items_fixed(items, i + 1, done.push(v), p, index, f1);
        let res = walk_items(items, i, done, p, index, f)->Ok_0.0;
        assert(res.subrange(0, i + 1) == done.push(v));
        assert(res[i] == res.subrange(0, i + 1)[i]);
        assert(res.subrange(0, i) =~= res.subrange(0, i + 1).subrange(0, i));
        assert(res.subrange(0, i) =~= done);
    }
}

proof fn lemma_items_run_fixed(res: Seq<Json>, i: int, edone: Seq<Json>, p: Seq<char>, index: Option<usize>, g: Files)
    requires
        0 <= i <= res.len(),
        forall|j: int, g2: Files|
            i <= j < res.len() ==> #[trigger] walk(res[j], p, index, g2) == Ok::<(Json, Files), Failure>((res[j], g2)),
    ensures
        walk_items(res, i, edone, p, index, g) == Ok::<(Seq<Json>, Files), Failure>(
            (edone + res.subrange(i, res.len() as int), g),
        ),
    decreases res.len() - i,
{
    if i == res.len() {
        assert(edone + res.subrange(i, res.len() as int) =~= edone);
    } else {
        assert(walk(res[i], p, index, g) == Ok::<(Json, Files), Failure>((res[i], g)));
        lemma_items_run_fixed(res, i + 1, edone.push(res[i]), p, index, g);
        assert(edone.push(res[i]) + res.subrange(i + 1, res.len() as int) =~= edone + res.subrange(
            i,
            res.len() as int,
        ));
    }
}

proof fn lemma_fan_fixed(items: Seq<Json>, i: int, done: Seq<Json>, p: Seq<char>, f: Files)
    requires
        0 <= i <= items.len(),
        done.len() == i,
        walk_fan(items, i, done, p, f) is Ok,
    ensures
        ({
            let res = walk_fan(items, i, done, p, f)->Ok_0.0;
            &&& res.len() == items.len()
            &&& res.subrange(0, i) == done
            &&& forall|j: int| i <= j < items.len() ==> kept_node(items[j], #[trigger] res[j])
            &&& forall|j: int| i <= j < items.len() && !(items[j] is Object) ==> #[trigger] res[j] == items[j]
            &&& forall|j: int, g: Files|
                i <= j < items.len() && res[j] is Object ==> #[trigger] walk(res[j], p, Some(j as usize), g)
                    == Ok::<(Json, Files), Failure>((res[j], g))
        }),
    decreases items, items.len() - i,
{
    if i == items.len() {
        assert(done.subrange(0, i) =~= done);
    } else {
        let res = walk_fan(items, i, done, p, f)->Ok_0.0;
        match items[i] {
            Json::Object(_) => {
                let (v, f1) = walk(items[i], p, Some(i as usize), f)->Ok_0;
                lemma_walk_fixed(items[i], p, Some(i as usize), f);
                lemma_fan_fixed(items, i + 1, done.push(v), p, f1);
                assert(res.subrange(0, i + 1) == done.push(v));
                assert(res[i] == res.subrange(0, i + 1)[i]);
                assert(res.subrange(0, i) =~= res.subrange(0, i + 1).subrange(0, i));
            },
            _ => {
                lemma_fan_fixed(items, i + 1, done.push(items[i]), p, f);
                assert(res.subrange(0, i + 1) == done.push(items[i]));
                assert(res[i] == res.subrange(0, i + 1)[i]);
                assert(res.subrange(0, i) =~= res.subrange(0, i + 1).subrange(0, i));
            },
        }
        assert(res.subrange(0, i) =~= done);
    }
}

proof fn lemma_fan_run_fixed(res: Seq<Json>, i: int, edone: Seq<Json>, p: Seq<char>, g: Files)
    requires
        0 <= i <= res.len(),
        forall|j: int, g2: Files|
            i <= j < res.len() && res[j] is Object ==> #[trigger] walk(res[j], p, Some(j as usize), g2) == Ok::<
                (Json, Files),
                Failure,
            >((res[j], g2)),
    ensures
        walk_fan(res, i, edone, p, g) == Ok::<(Seq<Json>, Files), Failure>((edone + res.subrange(i, res.len() as int), g)),
    decreases res.len() - i,
{
    if i == res.len() {
        assert(edone + res.subrange(i, res.len() as int) =~= edone);
    } else {
        if res[i] is Object {
            assert(walk(res[i], p, Some(i as usize), g) == Ok::<(Json, Files), Failure>((res[i], g)));
        }
        lemma_fan_run_fixed(res, i + 1, edone.push(res[i]), p, g);
        assert(edone.push(res[i]) + res.subrange(i + 1, res.len() as int) =~= edone + res.subrange(
            i,
            res.len() as int,
        ));
    }
}

/// Idempotence: disassembling what disassembly returned extracts nothing
/// further and leaves that document as it is.
pub proof fn disassembly_idempotent(doc: Json)
    requires
        extraction(doc) is Ok,
    ensures
        extraction(extraction(doc)->Ok_0.0) == Ok::<(Json, Files), Failure>(
            (extraction(doc)->Ok_0.0, Seq::empty()),
        ),
{
    lemma_walk_fixed(doc, Seq::empty(), None, Seq::empty());
}

/// An object whose one member is a content field holding decodable inline content.
pub open spec fn single_content(item: Json) -> bool {
    &&& item is Object
    &&& item->Object_0.len() == 1
    &&& item->Object_0[0].0 == "source"@
    &&& item->Object_0[0].1 is Str
    &&& is_inline(item->Object_0[0].1->Str_0)
    &&& inline_body(item->Object_0[0].1->Str_0) is Some
}

pub open spec fn content_of(item: Json) -> Seq<char> {
    item->Object_0[0].1->Str_0
}

proof fn lemma_fan_items(items: Seq<Json>, i: int, done: Seq<Json>, p: Seq<char>, f: Files)
    requires
        0 <= i <= items.len(),
        items.len() <= usize::MAX,
        forall|j: int| 0 <= j < items.len() ==> single_content(#[trigger] items[j]),
        strip_root(p).len() > 0,
        !escapes_root(strip_root(p)),
    ensures
        walk_fan(items, i, done, p, f) is Ok,
        ({
            let f2 = walk_fan(items, i, done, p, f)->Ok_0.1;
            &&& f2.len() == f.len() + items.len() - i
            &&& f2.subrange(0, f.len() as int) == f
            &&& forall|j: int|
                i <= j < items.len() ==> #[trigger] f2[f.len() + j - i] == (
                    strip_root(p) + "/"@ + decimal_text(j as nat),
                    inline_body(content_of(items[j]))->Some_0,
                )
        }),
    decreases items.len() - i,
{
    if i < items.len() {
        let item = items[i];
        assert(single_content(item));
        let ms1 = item->Object_0;
        let s = content_of(item);
        let media = inline_media_type(s);
        let loc = strip_root(p) + "/"@ + decimal_text(i as nat);
        assert(content_location(p, Some(i as usize), f.len(), media) == Ok::<Seq<char>, Failure>(loc));
        let f1 = f.push((loc, inline_body(s)->Some_0));
        let v = Json::Str(placeholder_text(media, loc));
        assert(convert_value(s, p, Some(i as usize), f) == Ok::<(Seq<char>, Files), Failure>(
            (placeholder_text(media, loc), f1),
        ));
        assert(walk_member(ms1[0].0, ms1[0].1, p, Some(i as usize), false, f) == Ok::<(Json, Files), Failure>(
            (v, f1),
        ));
        assert(walk_members(ms1, 1, seq![(ms1[0].0, v)], p, Some(i as usize), false, f1) == Ok::<
            (Seq<(Seq<char>, Json)>, Files),
            Failure,
        >((seq![(ms1[0].0, v)], f1)));
        assert(walk_members(ms1, 0, Seq::empty(), p, Some(i as usize), false, f) == Ok::<
            (Seq<(Seq<char>, Json)>, Files),
            Failure,
        >((seq![(ms1[0].0, v)], f1))) by {
            assert(Seq::<(Seq<char>, Json)>::empty().push((ms1[0].0, v)) =~= seq![(ms1[0].0, v)]);
        }
        let w = Json::Object(seq![(ms1[0].0, v)]);
        assert(walk(item, p, Some(i as usize), f) == Ok::<(Json, Files), Failure>((w, f1)));
        lemma_fan_items(items, i + 1, done.push(w), p, f1);
        let f2 = walk_fan(items, i, done, p, f)->Ok_0.1;
        assert(f2 == walk_fan(items, i + 1, done.push(w), p, f1)->Ok_0.1);
        assert(f2.subrange(0, f.len() as int) =~= f1.subrange(0, f.len() as int));
        assert(f2.subrange(0, f.len() as int) =~= f);
        assert forall|j: int|
            i <= j < items.len() implies #[trigger] f2[f.len() + j - i] == (
                strip_root(p) + "/"@ + decimal_text(j as nat),
                inline_body(content_of(items[j]))->Some_0,
            ) by {
            if j == i {
                assert(f2[f.len() as int] == f2.subrange(0, f1.len() as int)[f.len() as int]);
            } else {
                assert(f2[f1.len() + j - (i + 1)] == f2[f.len() + j - i]);
            }
        }
    }
}

/// Array fan-out: under an object that declares the path `p`, a member array
/// of N objects that each hold one inline content field yields exactly N
/// contents, the i-th at `p` (one leading separator stripped) followed by
/// `/i`, holding the i-th element's bytes; with the contents written in
/// canonical form, assembly gives the array back, element by element.
pub proof fn array_fan_out(p: Seq<char>, key: Seq<char>, items: Seq<Json>)
    requires
        key != "path"@,
        key != "source"@,
        0 < items.len() <= usize::MAX,
        forall|j: int| 0 <= j < items.len() ==> single_content(#[trigger] items[j]),
        strip_root(p).len() > 0,
        !escapes_root(strip_root(p)),
    ensures
        ({
            let doc = Json::Object(seq![("path"@, Json::Str(p)), (key, Json::Array(items))]);
            &&& extraction(doc) is Ok
            &&& extraction(doc)->Ok_0.1.len() == items.len()
            &&& forall|j: int|
                0 <= j < items.len() ==> #[trigger] extraction(doc)->Ok_0.1[j] == (
                    strip_root(p) + "/"@ + decimal_text(j as nat),
                    inline_body(content_of(items[j]))->Some_0,
                )
            &&& (forall|j: int| 0 <= j < items.len() ==> clean_source(#[trigger] content_of(items[j])))
                ==> embed(extraction(doc)->Ok_0.0, extraction(doc)->Ok_0.1) == Ok::<Json, Failure>(doc)
        }),
{
    reveal_strlit("path");
    reveal_strlit("source");
    let arr = Json::Array(items);
    let ms = seq![("path"@, Json::Str(p)), (key, arr)];
    let doc = Json::Object(ms);
    let e: Files = Seq::empty();
    assert(carries_content(items[0])) by {
        let ms0 = items[0]->Object_0;
        assert(ms0[0].0 == "source"@);
    }
    assert(has_carrier(items));
    assert(is_content_array(ms[1].1));
    assert(find_member(ms, "path"@, 0) == Some(Json::Str(p)));
    assert(fans_out(ms));
    assert(logical_path(ms, Seq::empty()) == p);
    lemma_fan_items(items, 0, Seq::empty(), p, e);
    let (items2, f2) = walk_fan(items, 0, Seq::empty(), p, e)->Ok_0;
    assert("path"@.len() != "source"@.len());
    assert(walk_member("path"@, Json::Str(p), p, None, true, e) == Ok::<(Json, Files), Failure>((Json::Str(p), e)));
    assert(walk_member(key, arr, p, None, true, e) == Ok::<(Json, Files), Failure>((Json::Array(items2), f2)));
    let d1 = seq![("path"@, Json::Str(p))];
    assert(walk_members(ms, 2, d1.push((key, Json::Array(items2))), p, None, true, f2) == Ok::<
        (Seq<(Seq<char>, Json)>, Files),
        Failure,
    >((d1.push((key, Json::Array(items2))), f2)));
    assert(walk_members(ms, 1, d1, p, None, true, e) == Ok::<(Seq<(Seq<char>, Json)>, Files), Failure>(
        (d1.push((key, Json::Array(items2))), f2),
    ));
    assert(Seq::<(Seq<char>, Json)>::empty().push(("path"@, Json::Str(p))) =~= d1);
    assert(walk_members(ms, 0, Seq::empty(), p, None, true, e) == Ok::<(Seq<(Seq<char>, Json)>, Files), Failure>(
        (d1.push((key, Json::Array(items2))), f2),
    ));
    assert(extraction(doc)->Ok_0.1 == f2);
    assert forall|j: int|
        0 <= j < items.len() implies #[trigger] extraction(doc)->Ok_0.1[j] == (
            strip_root(p) + "/"@ + decimal_text(j as nat),
            inline_body(content_of(items[j]))->Some_0,
        ) by {
        assert(f2[0 + j - 0] == f2[j]);
    }
    if forall|j: int| 0 <= j < items.len() ==> clean_source(#[trigger] content_of(items[j])) {
        assert(clean(doc)) by {
            assert forall|j: int| 0 <= j < items.len() implies clean(#[trigger] items[j]) by {
                let mj = items[j]->Object_0;
                assert(clean_source(content_of(items[j])));
                assert(clean(mj[0].1));
                assert(clean_members(mj));
            }
            assert(clean_items(items));
            assert(clean(ms[0].1));
            assert(clean(ms[1].1));
            assert(clean_members(ms));
        }
        assert(distinct_locations(f2)) by {
            assert forall|a: int, b: int| 0 <= a < b < f2.len() implies f2[a].0 != f2[b].0 by {
                let base = strip_root(p) + "/"@;
                assert(f2[a] == (strip_root(p) + "/"@ + decimal_text(a as nat), inline_body(content_of(items[a]))->Some_0));
                assert(f2[b] == (strip_root(p) + "/"@ + decimal_text(b as nat), inline_body(content_of(items[b]))->Some_0));
                if f2[a].0 == f2[b].0 {
                    assert((base + decimal_text(a as nat)).subrange(base.len() as int, f2[a].0.len() as int)
                        =~= decimal_text(a as nat));
                    assert((base + decimal_text(b as nat)).subrange(base.len() as int, f2[b].0.len() as int)
                        =~= decimal_text(b as nat));
                    crate::text::lemma_decimal_injective(a as nat, b as nat);
                }
            }
        }
        round_trip(doc);
    }
}

} // verus!
