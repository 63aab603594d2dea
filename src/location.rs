//! Where extracted content lives, relative to the operation's root.
use vstd::prelude::*;
use vstd::string::*;
use crate::codec::{extension_for, extension_of};
use crate::error::{ConvertError, Failure};
use crate::text::{chars_of, decimal, decimal_text};

verus! {

/// A path with one leading separator removed.
pub open spec fn strip_root(p: Seq<char>) -> Seq<char> {
    if p.len() > 0 && p[0] == '/' {
        p.subrange(1, p.len() as int)
    } else {
        p
    }
}

/// Whether a `..` segment starts at `i`.
pub open spec fn parent_segment_at(r: Seq<char>, i: int) -> bool {
    &&& 0 <= i
    &&& i + 2 <= r.len()
    &&& r[i] == '.'
    &&& r[i + 1] == '.'
    &&& (i == 0 || r[i - 1] == '/')
    &&& (i + 2 == r.len() || r[i + 2] == '/')
}

/// Whether a relative location would resolve outside the root: it is
/// absolute, or it climbs through a parent-directory segment.
pub open spec fn escapes_root(r: Seq<char>) -> bool {
    (r.len() > 0 && r[0] == '/') || exists|i: int| parent_segment_at(r, i)
}

pub fn strip_leading_separator(p: &String) -> (r: String)
    ensures
        r@ == strip_root(p@),
{
    let cs = chars_of(p.as_str());
    if cs.len() > 0 && cs[0] == '/' {
        String::from_str(p.as_str().substring_char(1, cs.len()))
    } else {
        String::from_str(p.as_str())
    }
}

pub fn escapes(r: &String) -> (b: bool)
    ensures
        b == escapes_root(r@),
{
    let cs = chars_of(r.as_str());
    let n = cs.len();
    if n > 0 && cs[0] == '/' {
        return true;
    }
    let mut i: usize = 0;
    while i < n
        invariant
            n == cs@.len(),
            cs@ == r@,
            i <= n,
            forall|j: int| 0 <= j < i ==> !parent_segment_at(cs@, j),
        decreases n - i,
    {
        if cs[i] == '.' && i + 1 < n && cs[i + 1] == '.' && (i == 0 || cs[i - 1] == '/') && (i + 2
            == n || cs[i + 2] == '/') {
            assert(parent_segment_at(cs@, i as int));
            return true;
        }
        i = i + 1;
    }
    false
}

/// How an external reference resolves against the root.
pub open spec fn resolve_ref(reference: Seq<char>) -> Result<Seq<char>, Failure> {
    if escapes_root(strip_root(reference)) {
        Err(Failure::PathEscape(reference))
    } else {
        Ok(strip_root(reference))
    }
}

pub fn resolve(reference: &String) -> (r: Result<String, ConvertError>)
    ensures
        r matches Ok(l) ==> resolve_ref(reference@) == Ok::<Seq<char>, Failure>(l@),
        r matches Err(e) ==> resolve_ref(reference@) == Err::<Seq<char>, Failure>(e@),
{
    let stripped = strip_leading_separator(reference);
    if escapes(&stripped) {
        Err(ConvertError::PathEscape(String::from_str(reference.as_str())))
    } else {
        Ok(stripped)
    }
}

/// The name given to content found under no logical path: from the number of
/// contents extracted before it and its media type.
pub open spec fn synthesized_name(n: nat, media: Seq<char>) -> Seq<char> {
    "extracted_file_"@ + decimal_text(n) + "."@ + extension_of(media)
}

/// The location of content under a logical path, before any array index.
pub open spec fn base_location(path: Seq<char>, n: nat, media: Seq<char>) -> Result<
    Seq<char>,
    Failure,
> {
    if strip_root(path).len() == 0 {
        Ok(synthesized_name(n, media))
    } else if escapes_root(strip_root(path)) {
        Err(Failure::PathEscape(path))
    } else {
        Ok(strip_root(path))
    }
}

/// The location of content under a logical path, at an array index or none.
pub open spec fn content_location(
    path: Seq<char>,
    index: Option<usize>,
    n: nat,
    media: Seq<char>,
) -> Result<Seq<char>, Failure> {
    match base_location(path, n, media) {
        Ok(b) => match index {
            Some(i) => Ok(b + "/"@ + decimal_text(i as nat)),
            None => Ok(b),
        },
        Err(e) => Err(e),
    }
}

pub fn location_for(path: &String, index: Option<usize>, n: usize, media: &String) -> (r: Result<
    String,
    ConvertError,
>)
    ensures
        r matches Ok(l) ==> content_location(path@, index, n as nat, media@) == Ok::<
            Seq<char>,
            Failure,
        >(l@),
        r matches Err(e) ==> content_location(path@, index, n as nat, media@) == Err::<
            Seq<char>,
            Failure,
        >(e@),
{
    let stripped = strip_leading_separator(path);
    let mut base = if stripped.as_str().unicode_len() == 0 {
        let mut name = String::from_str("extracted_file_");
        let digits = decimal(n);
        name.append(digits.as_str());
        name.append(".");
        name.append(extension_for(media));
        name
    } else if escapes(&stripped) {
        return Err(ConvertError::PathEscape(String::from_str(path.as_str())));
    } else {
        stripped
    };
    match index {
        Some(i) => {
            base.append("/");
            let digits = decimal(i);
            base.append(digits.as_str());
            Ok(base)
        },
        None => Ok(base),
    }
}

} // verus!
