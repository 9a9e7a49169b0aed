//! Path syntax: what the platform's paths say about the texts that name files.

use std::path::Path;
use vstd::prelude::*;
use crate::text::{chars_of, text_between, text_option};

verus! {

/// What remains of a path below a base path, or `None` where the base is not
/// a leading part of it.
pub uninterp spec fn path_below(path: Seq<char>, base: Seq<char>) -> Option<Seq<char>>;

/// The last component of a path, or `None` where that is not a name.
pub uninterp spec fn path_file_name(path: Seq<char>) -> Option<Seq<char>>;

/// `Path::strip_prefix` of the standard library, on paths given as text. The
/// result is a function of the two texts under the path syntax that the
/// library is compiled for, and a path stripped of itself is empty.
#[verifier::external_body]
pub(crate) fn strip_base(path: &str, base: &str) -> (rest: Option<String>)
    ensures
        text_option(rest) == path_below(path@, base@),
        path@ == base@ ==> text_option(rest) == Some(Seq::<char>::empty()),
{
    Path::new(path).strip_prefix(base).ok().map(|rest| rest.to_string_lossy().to_string())
}

/// `Path::file_name` of the standard library, on a path given as text. The
/// result is a function of the text under the path syntax that the library is
/// compiled for.
#[verifier::external_body]
pub(crate) fn file_name(path: &str) -> (name: Option<String>)
    ensures
        text_option(name) == path_file_name(path@),
{
    Path::new(path).file_name().map(|name| name.to_string_lossy().to_string())
}

/// The part of a file name after its last dot, or `None` where it has no dot
/// but perhaps at its start.
pub open spec fn name_extension(name: Seq<char>) -> Option<Seq<char>> {
    match name.index_of_last('.') {
        Some(dot) => if dot > 0 {
            Some(name.skip(dot + 1))
        } else {
            None
        },
        None => None,
    }
}

/// The extension of a path: that of its file name, and empty where there is none.
pub open spec fn path_extension(path: Seq<char>) -> Seq<char> {
    match path_file_name(path) {
        Some(name) => match name_extension(name) {
            Some(extension) => extension,
            None => Seq::empty(),
        },
        None => Seq::empty(),
    }
}

/// The part of a file name after its last dot, or `None` where it has no dot
/// but perhaps at its start.
pub fn extension_of_name(name: &str) -> (extension: Option<String>)
    ensures
        text_option(extension) == name_extension(name@),
{
    let chars = chars_of(name);
    let mut end: usize = chars.len();
    proof {
        name@.index_of_last_ensures('.');
    }
    while end > 0
        invariant
            end <= chars.len(),
            chars@ == name@,
            forall|j: int| end <= j < chars.len() ==> #[trigger] chars@[j] != '.',
        decreases end,
    {
        let dot: usize = end - 1;
        if chars[dot] == '.' {
            proof {
                name@.index_of_last_ensures('.');
                assert(name@.contains(name@[dot as int]));
                assert(name@.index_of_last('.') == Some(dot as int));
                assert(name@.skip(dot + 1) =~= name@.subrange(dot + 1, name@.len() as int));
            }
            if dot == 0 {
                return None;
            }
            return Some(text_between(&chars, end, chars.len()));
        }
        end = dot;
    }
    assert(!name@.contains('.'));
    None
}

/// The extension of a path, empty where it has none.
pub fn extension(path: &str) -> (extension: String)
    ensures
        extension@ == path_extension(path@),
{
    match file_name(path) {
        Some(name) => match extension_of_name(name.as_str()) {
            Some(extension) => extension,
            None => String::new(),
        },
        None => String::new(),
    }
}

/// The path of a file relative to a base, or its name where it is not below the base.
pub open spec fn relative_path(path: Seq<char>, base: Seq<char>, name: Seq<char>) -> Seq<char> {
    match path_below(path, base) {
        Some(rest) => rest,
        None => name,
    }
}

/// A file name that goes on after its first character with a dot, and has no
/// other dot behind it, has the rest as its extension.
pub proof fn law_extension_after_last_dot(stem: Seq<char>, rest: Seq<char>)
    requires
        stem.len() > 0,
        !rest.contains('.'),
    ensures
        name_extension(stem + seq!['.'] + rest) == Some(rest),
{
    let name = stem + seq!['.'] + rest;
    let dot = stem.len() as int;
    name.index_of_last_ensures('.');
    assert(name[dot] == '.');
    assert(name.contains('.'));
    let last = name.index_of_last('.')->0;
    assert(last == dot) by {
        if last > dot {
            assert(rest[last - dot - 1] == '.');
        }
    }
    assert(name.skip(dot + 1) =~= rest);
}

/// A file name without a dot but perhaps at its start has no extension.
pub proof fn law_no_extension(name: Seq<char>)
    requires
        forall|i: int| 0 < i < name.len() ==> #[trigger] name[i] != '.',
    ensures
        name_extension(name) is None,
{
    name.index_of_last_ensures('.');
}

/// The extension of a path is that of its file name, and empty where the path
/// has no file name or the name has no extension.
pub proof fn law_path_extension(path: Seq<char>)
    ensures
        path_file_name(path) is None ==> path_extension(path).len() == 0,
        path_file_name(path) matches Some(name) ==> (name_extension(name) is None
            ==> path_extension(path).len() == 0),
        path_file_name(path) matches Some(name) ==> (name_extension(name) matches Some(extension)
            ==> path_extension(path) == extension),
{
}

/// A path below a base is written relative to it, and any other by its name.
pub proof fn law_relative_path(path: Seq<char>, base: Seq<char>, name: Seq<char>)
    ensures
        path_below(path, base) matches Some(rest) ==> relative_path(path, base, name) == rest,
        path_below(path, base) is None ==> relative_path(path, base, name) == name,
{
}

} // verus!
