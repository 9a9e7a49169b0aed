//! The filter: which nodes a search, a file type and a size limit leave.

use vstd::prelude::*;
use crate::node::{Node, NodeView};
use crate::paths::{extension, path_extension};
use crate::text::{
    contains_text, law_occurrence, law_trimmed_start, lowercase, occurs_in, text_eq, to_lowercase,
    trim_start, trimmed_start,
};

verus! {

/// The largest file that the filter lets through at first, in bytes: the
/// largest size that, rounded to a 32-bit float, is not above 500 MiB.
pub const DEFAULT_MAX_SIZE: u64 = 524_288_016;

/// What the filter reads of a node, in lower case.
pub struct FilterSubject {
    pub name: String,
    pub hash_hex: String,
    pub extension: String,
    pub size_bytes: u64,
    pub is_dir: bool,
}

/// What the filter asks for, in lower case: what the name or the hash holds,
/// the extension, and the largest size.
pub struct FilterCriteria {
    pub query: Option<String>,
    pub extension: Option<String>,
    pub max_size: u64,
}

/// Whether a node passes a filter.
pub open spec fn meets(subject: FilterSubject, criteria: FilterCriteria) -> bool {
    &&& criteria.query matches Some(query) ==> {
        ||| occurs_in(subject.name@, query@)
        ||| occurs_in(subject.hash_hex@, query@)
    }
    &&& !subject.is_dir ==> {
        &&& criteria.extension matches Some(extension) ==> subject.extension@ == extension@
        &&& subject.size_bytes <= criteria.max_size
    }
}

/// Whether a node passes a filter. The type and the size are asked of files only.
pub fn meets_criteria(subject: &FilterSubject, criteria: &FilterCriteria) -> (passes: bool)
    ensures
        passes == meets(*subject, *criteria),
        passes <==> ((criteria.query matches Some(query) ==> (exists|
            head: Seq<char>,
            rest: Seq<char>,
        |
            subject.name@ == #[trigger] (head + query@ + rest)) || (exists|
            head: Seq<char>,
            rest: Seq<char>,
        |
            subject.hash_hex@ == #[trigger] (head + query@ + rest))) && (subject.is_dir || ((
        criteria.extension matches Some(extension) ==> subject.extension@ == extension@)
            && subject.size_bytes <= criteria.max_size))),
{
    proof {
        if let Some(query) = &criteria.query {
            law_occurrence(subject.name@, query@);
            law_occurrence(subject.hash_hex@, query@);
        }
    }
    if let Some(query) = &criteria.query {
        if !contains_text(subject.name.as_str(), query.as_str()) && !contains_text(
            subject.hash_hex.as_str(),
            query.as_str(),
        ) {
            return false;
        }
    }
    if let Some(extension) = &criteria.extension {
        if !subject.is_dir && !text_eq(subject.extension.as_str(), extension.as_str()) {
            return false;
        }
    }
    subject.is_dir || subject.size_bytes <= criteria.max_size
}

/// Whether a node passes a search, a file type and a size limit. An empty
/// search or type asks for nothing; letters count alike in either case, and
/// the type may be written with leading dots.
pub open spec fn passes_filter(
    node: NodeView,
    search_query: Seq<char>,
    filter_extension: Seq<char>,
    max_size: u64,
) -> bool {
    &&& search_query.len() > 0 ==> {
        ||| occurs_in(lowercase(node.name), lowercase(search_query))
        ||| occurs_in(lowercase(node.hash_hex), lowercase(search_query))
    }
    &&& !node.is_dir ==> {
        &&& filter_extension.len() > 0 ==> lowercase(path_extension(node.path)) == lowercase(
            trimmed_start(filter_extension, '.'),
        )
        &&& node.size_bytes <= max_size
    }
}

/// Whether a node passes a search, a file type and a size limit.
pub fn matches_filter(
    node: &Node,
    search_query: &str,
    filter_extension: &str,
    max_size: u64,
) -> (passes: bool)
    ensures
        passes == passes_filter(node@, search_query@, filter_extension@, max_size),
{
    let written = extension(node.path.as_str());
    let subject = FilterSubject {
        name: to_lowercase(node.name.as_str()),
        hash_hex: to_lowercase(node.hash_hex.as_str()),
        extension: to_lowercase(written.as_str()),
        size_bytes: node.size_bytes,
        is_dir: node.is_dir,
    };
    let query = if search_query.is_empty() {
        None
    } else {
        Some(to_lowercase(search_query))
    };
    let wanted = if filter_extension.is_empty() {
        None
    } else {
        let bare = trim_start(filter_extension, '.');
        Some(to_lowercase(bare.as_str()))
    };
    let criteria = FilterCriteria { query, extension: wanted, max_size };
    meets_criteria(&subject, &criteria)
}

/// Whether there is a filter that marks nodes.
pub fn has_active_filter(search_query: &str, filter_extension: &str) -> (active: bool)
    ensures
        active == (search_query@.len() > 0 || filter_extension@.len() > 0),
{
    !search_query.is_empty() || !filter_extension.is_empty()
}

/// An empty search and an empty type leave every folder, and every file up to
/// the size limit.
pub proof fn law_empty_filter(node: NodeView, max_size: u64)
    ensures
        passes_filter(node, Seq::empty(), Seq::empty(), max_size) <==> (node.is_dir
            || node.size_bytes <= max_size),
{
}

/// A node passes the filter exactly where its name or its hash holds the
/// search, where there is one, and, unless it is a folder, its extension is the
/// wanted one without its leading dots, where there is one, and it is not
/// larger than the limit. Letters count alike in either case.
pub proof fn law_filter(
    node: NodeView,
    search_query: Seq<char>,
    dots: Seq<char>,
    bare: Seq<char>,
    max_size: u64,
)
    requires
        forall|i: int| 0 <= i < dots.len() ==> #[trigger] dots[i] == '.',
        bare.len() > 0 ==> bare[0] != '.',
    ensures
        passes_filter(node, search_query, dots + bare, max_size) <==> (search_query.len() == 0 || (
        exists|head: Seq<char>, rest: Seq<char>|
            lowercase(node.name) == #[trigger] (head + lowercase(search_query) + rest)) || (exists|
            head: Seq<char>,
            rest: Seq<char>,
        |
            lowercase(node.hash_hex) == #[trigger] (head + lowercase(search_query) + rest))) && (
        node.is_dir || (node.size_bytes <= max_size && ((dots + bare).len() == 0 || lowercase(
            path_extension(node.path),
        ) == lowercase(bare)))),
{
    law_occurrence(lowercase(node.name), lowercase(search_query));
    law_occurrence(lowercase(node.hash_hex), lowercase(search_query));
    law_trimmed_start(dots, bare, '.');
}

/// A smaller size limit lets no more through, and folders pass any limit.
pub proof fn law_size_limit(
    node: NodeView,
    search_query: Seq<char>,
    filter_extension: Seq<char>,
    small: u64,
    large: u64,
)
    requires
        small <= large,
    ensures
        passes_filter(node, search_query, filter_extension, small) ==> passes_filter(
            node,
            search_query,
            filter_extension,
            large,
        ),
        passes_filter(node, search_query, filter_extension, small) ==> node.is_dir
            || node.size_bytes <= small,
        node.is_dir ==> passes_filter(node, search_query, filter_extension, small)
            == passes_filter(node, search_query, filter_extension, large),
{
}

} // verus!
