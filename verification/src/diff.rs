//! Comparison of two audits.

use vstd::prelude::*;
use crate::export::{ExportedAuditReport, ExportedNodeView, ReportView};
use crate::paths::{path_below, relative_path, strip_base};
use crate::sort::{
    before, is_order, key_less, key_views, lemma_lex_irreflexive, lemma_lex_total,
    law_lex_first_difference, lemma_lex_transitive, lex_less, sorted_order,
};
use crate::text::{chars_of, text_eq};

verus! {

/// What became of a path between two audits.
#[derive(Debug, Clone, PartialEq, Eq)]
pub enum DiffStatus {
    Added,
    Removed,
    Modified { old_hash: String, new_hash: String },
    Unchanged,
}

/// The contents of a `DiffStatus`.
pub enum StatusView {
    Added,
    Removed,
    Modified { old_hash: Seq<char>, new_hash: Seq<char> },
    Unchanged,
}

impl View for DiffStatus {
    type V = StatusView;

    open spec fn view(&self) -> StatusView {
        match self {
            DiffStatus::Added => StatusView::Added,
            DiffStatus::Removed => StatusView::Removed,
            DiffStatus::Modified { old_hash, new_hash } => StatusView::Modified {
                old_hash: old_hash@,
                new_hash: new_hash@,
            },
            DiffStatus::Unchanged => StatusView::Unchanged,
        }
    }
}

/// A path and what became of it.
#[derive(Debug, Clone)]
pub struct DiffItem {
    pub relative_path: String,
    pub status: DiffStatus,
    pub is_dir: bool,
}

/// The contents of a `DiffItem`.
pub struct ItemView {
    pub relative_path: Seq<char>,
    pub status: StatusView,
    pub is_dir: bool,
}

impl View for DiffItem {
    type V = ItemView;

    open spec fn view(&self) -> ItemView {
        ItemView {
            relative_path: self.relative_path@,
            status: self.status@,
            is_dir: self.is_dir,
        }
    }
}

/// The outcome of a comparison: an item for every path, ordered by path, and
/// how many items there are of each status.
#[derive(Debug, Clone)]
pub struct TreeDiffResult {
    pub items: Vec<DiffItem>,
    pub total_added: usize,
    pub total_removed: usize,
    pub total_modified: usize,
    pub total_unchanged: usize,
}

impl Default for TreeDiffResult {
    fn default() -> (result: Self)
        ensures
            result.items@ == Seq::<DiffItem>::empty(),
            result.total_added == 0,
            result.total_removed == 0,
            result.total_modified == 0,
            result.total_unchanged == 0,
    {
        TreeDiffResult {
            items: Vec::new(),
            total_added: 0,
            total_removed: 0,
            total_modified: 0,
            total_unchanged: 0,
        }
    }
}

/// A file or directory of one of the compared audits, under its path
/// relative to the audited directory.
#[derive(Debug)]
pub struct DiffEntry {
    pub relative_path: String,
    pub hash_hex: String,
    pub is_dir: bool,
}

/// The contents of a `DiffEntry`.
pub struct EntryView {
    pub relative_path: Seq<char>,
    pub hash_hex: Seq<char>,
    pub is_dir: bool,
}

impl View for DiffEntry {
    type V = EntryView;

    open spec fn view(&self) -> EntryView {
        EntryView {
            relative_path: self.relative_path@,
            hash_hex: self.hash_hex@,
            is_dir: self.is_dir,
        }
    }
}

/// The contents of a list of entries.
pub open spec fn entry_views(entries: Seq<DiffEntry>) -> Seq<EntryView> {
    entries.map_values(|entry: DiffEntry| entry@)
}

/// The contents of a list of items.
pub open spec fn item_views(items: Seq<DiffItem>) -> Seq<ItemView> {
    items.map_values(|item: DiffItem| item@)
}

/// What an audit says of each path: its hash, and whether it is a directory.
/// Of several entries with one path the last counts.
pub open spec fn listing(entries: Seq<EntryView>) -> Map<Seq<char>, (Seq<char>, bool)>
    decreases entries.len(),
{
    if entries.len() == 0 {
        Map::empty()
    } else {
        let entry = entries.last();
        listing(entries.drop_last()).insert(entry.relative_path, (entry.hash_hex, entry.is_dir))
    }
}

/// The item for a path that one of two listings holds.
pub open spec fn item_for(
    old_listing: Map<Seq<char>, (Seq<char>, bool)>,
    new_listing: Map<Seq<char>, (Seq<char>, bool)>,
    path: Seq<char>,
) -> ItemView {
    if !new_listing.contains_key(path) {
        ItemView {
            relative_path: path,
            status: StatusView::Removed,
            is_dir: old_listing[path].1,
        }
    } else {
        let status = if !old_listing.contains_key(path) {
            StatusView::Added
        } else if old_listing[path].0 == new_listing[path].0 {
            StatusView::Unchanged
        } else {
            StatusView::Modified { old_hash: old_listing[path].0, new_hash: new_listing[path].0 }
        };
        ItemView { relative_path: path, status, is_dir: new_listing[path].1 }
    }
}

/// The code points of a text.
pub open spec fn code_points(text: Seq<char>) -> Seq<u32> {
    text.map_values(|c: char| c as u32)
}

/// The order of texts: by the code points of their characters.
pub open spec fn text_less(a: Seq<char>, b: Seq<char>) -> bool {
    lex_less(code_points(a), code_points(b))
}

/// How many items have a status of some kind.
pub open spec fn count_items(items: Seq<ItemView>, kind: spec_fn(StatusView) -> bool) -> nat
    decreases items.len(),
{
    if items.len() == 0 {
        0
    } else {
        count_items(items.drop_last(), kind) + if kind(items.last().status) {
            1nat
        } else {
            0nat
        }
    }
}

/// The items are those of the comparison of two listings: one for every path
/// of either, in ascending order of the paths.
pub open spec fn items_of(
    old_listing: Map<Seq<char>, (Seq<char>, bool)>,
    new_listing: Map<Seq<char>, (Seq<char>, bool)>,
    items: Seq<ItemView>,
) -> bool {
    &&& forall|i: int|
        0 <= i < items.len() ==> {
            let path = (#[trigger] items[i]).relative_path;
            &&& old_listing.contains_key(path) || new_listing.contains_key(path)
            &&& items[i] == item_for(old_listing, new_listing, path)
        }
    &&& forall|path: Seq<char>|
        old_listing.contains_key(path) || new_listing.contains_key(path) ==> has_item(items, path)
    &&& forall|i: int, j: int|
        0 <= i < j < items.len() ==> text_less(
            (#[trigger] items[i]).relative_path,
            (#[trigger] items[j]).relative_path,
        )
}

/// There is an item for a path.
pub open spec fn has_item(items: Seq<ItemView>, path: Seq<char>) -> bool {
    exists|i: int| 0 <= i < items.len() && (#[trigger] items[i]).relative_path == path
}

/// The totals count the items of each status.
pub open spec fn totals_of(result: TreeDiffResult) -> bool {
    let items = item_views(result.items@);
    &&& result.total_added == count_items(items, |s: StatusView| s is Added)
    &&& result.total_removed == count_items(items, |s: StatusView| s is Removed)
    &&& result.total_modified == count_items(items, |s: StatusView| s is Modified)
    &&& result.total_unchanged == count_items(items, |s: StatusView| s is Unchanged)
}

/// The result is that of comparing two audits.
pub open spec fn compares(
    old_entries: Seq<EntryView>,
    new_entries: Seq<EntryView>,
    result: TreeDiffResult,
) -> bool {
    &&& items_of(listing(old_entries), listing(new_entries), item_views(result.items@))
    &&& totals_of(result)
}

proof fn lemma_code_points_injective(a: Seq<char>, b: Seq<char>)
    requires
        code_points(a) == code_points(b),
    ensures
        a == b,
{
    assert(a.len() == code_points(a).len());
    assert(b.len() == code_points(b).len());
    assert forall|i: int| 0 <= i < a.len() implies a[i] == b[i] by {
        assert(code_points(a)[i] == a[i] as u32);
        assert(code_points(b)[i] == b[i] as u32);
        vstd::utf8::char_u32_cast(a[i], a[i] as u32);
        vstd::utf8::char_u32_cast(b[i], b[i] as u32);
    }
    assert(a =~= b);
}

/// The code points of a text, by which it is ordered.
fn text_key(text: &str) -> (key: Vec<u32>)
    ensures
        key@ == code_points(text@),
{
    let chars = chars_of(text);
    let mut key: Vec<u32> = Vec::new();
    let mut i: usize = 0;
    while i < chars.len()
        invariant
            chars@ == text@,
            i <= chars.len(),
            key@ == code_points(text@).take(i as int),
        decreases chars.len() - i,
    {
        key.push(chars[i] as u32);
        i = i + 1;
        assert(code_points(text@).take(i as int) =~= code_points(text@).take(i - 1).push(
            code_points(text@)[i - 1],
        ));
    }
    assert(code_points(text@).take(i as int) =~= code_points(text@));
    key
}

/// Whether a text comes before another.
pub fn text_before(a: &str, b: &str) -> (less: bool)
    ensures
        less == text_less(a@, b@),
{
    key_less(&text_key(a), &text_key(b))
}

/// A path is listed where an entry has it.
proof fn lemma_listing_domain(entries: Seq<EntryView>, path: Seq<char>)
    ensures
        listing(entries).contains_key(path) <==> exists|i: int|
            0 <= i < entries.len() && (#[trigger] entries[i]).relative_path == path,
    decreases entries.len(),
{
    if entries.len() > 0 {
        let rest = entries.drop_last();
        lemma_listing_domain(rest, path);
        if listing(rest).contains_key(path) {
            let i = choose|i: int| 0 <= i < rest.len() && (#[trigger] rest[i]).relative_path == path;
            assert(entries[i].relative_path == path);
        }
        if exists|i: int| 0 <= i < entries.len() && (#[trigger] entries[i]).relative_path == path {
            let i = choose|i: int|
                0 <= i < entries.len() && (#[trigger] entries[i]).relative_path == path;
            if i < rest.len() {
                assert(rest[i].relative_path == path);
            }
        }
        if entries.last().relative_path == path {
            assert(entries[entries.len() - 1].relative_path == path);
        }
    }
}

/// The last entry with a path is the one that counts.
proof fn lemma_listing_last(entries: Seq<EntryView>, i: int)
    requires
        0 <= i < entries.len(),
        forall|j: int|
            i < j < entries.len() ==> (#[trigger] entries[j]).relative_path
                != entries[i].relative_path,
    ensures
        listing(entries).contains_key(entries[i].relative_path),
        listing(entries)[entries[i].relative_path] == (entries[i].hash_hex, entries[i].is_dir),
    decreases entries.len(),
{
    if i < entries.len() - 1 {
        let rest = entries.drop_last();
        assert(entries[entries.len() - 1].relative_path != entries[i].relative_path);
        assert forall|j: int| i < j < rest.len() implies (#[trigger] rest[j]).relative_path
            != rest[i].relative_path by {
            assert(entries[j].relative_path != entries[i].relative_path);
        }
        lemma_listing_last(rest, i);
    }
}

/// The entries at some positions.
spec fn picked(entries: Seq<EntryView>, positions: Seq<usize>) -> Seq<EntryView> {
    positions.map_values(|i: usize| entries[i as int])
}

/// The entries hold each path of a listing once, with what the listing says
/// of it, in ascending order.
spec fn lists(
    entries: Seq<EntryView>,
    what: Map<Seq<char>, (Seq<char>, bool)>,
) -> bool {
    &&& forall|a: int, b: int|
        0 <= a < b < entries.len() ==> text_less(
            (#[trigger] entries[a]).relative_path,
            (#[trigger] entries[b]).relative_path,
        )
    &&& forall|a: int|
        0 <= a < entries.len() ==> what.contains_key((#[trigger] entries[a]).relative_path)
            && what[entries[a].relative_path] == (entries[a].hash_hex, entries[a].is_dir)
    &&& forall|path: Seq<char>|
        what.contains_key(path) ==> exists|a: int|
            0 <= a < entries.len() && (#[trigger] entries[a]).relative_path == path
}

/// The ordered item at `b` is the last one with its key.
spec fn ends_run(key_seq: Seq<Seq<u32>>, order: Seq<usize>, b: int) -> bool {
    b + 1 < order.len() ==> key_seq[order[b + 1] as int] != key_seq[order[b] as int]
}

/// The item `x` is one of the first `upto` ordered ones, and the last one with its key.
spec fn is_run_end(key_seq: Seq<Seq<u32>>, order: Seq<usize>, upto: int, x: usize) -> bool {
    exists|b: int| 0 <= b < upto && #[trigger] order[b] == x && ends_run(key_seq, order, b)
}

/// The positions of the entries that count, in ascending order of their paths.
fn sorted_listing(entries: &Vec<DiffEntry>) -> (positions: Vec<usize>)
    ensures
        forall|a: int| 0 <= a < positions.len() ==> #[trigger] positions@[a] < entries.len(),
        lists(picked(entry_views(entries@), positions@), listing(entry_views(entries@))),
{
    let ghost views = entry_views(entries@);
    let mut keys: Vec<Vec<u32>> = Vec::new();
    let mut i: usize = 0;
    while i < entries.len()
        invariant
            views == entry_views(entries@),
            i <= entries.len(),
            keys.len() == i,
            forall|k: int|
                0 <= k < i ==> (#[trigger] keys@[k])@ == code_points(views[k].relative_path),
        decreases entries.len() - i,
    {
        keys.push(text_key(entries[i].relative_path.as_str()));
        i = i + 1;
    }
    let ghost key_seq = key_views(keys@);
    assert forall|k: int| 0 <= k < views.len() implies #[trigger] key_seq[k] == code_points(
        views[k].relative_path,
    ) by {
        assert(keys@[k]@ == code_points(views[k].relative_path));
    }
    let order = sorted_order(&keys);
    let mut positions: Vec<usize> = Vec::new();
    let mut a: usize = 0;
    while a < order.len()
        invariant
            views == entry_views(entries@),
            key_seq == key_views(keys@),
            key_seq.len() == views.len(),
            keys.len() == entries.len(),
            forall|k: int|
                0 <= k < views.len() ==> #[trigger] key_seq[k] == code_points(
                    views[k].relative_path,
                ),
            is_order(key_seq, order@),
            a <= order.len(),
            forall|k: int| 0 <= k < positions.len() ==> #[trigger] positions@[k] < entries.len(),
            // what stands in `positions` are the last of their runs of equal keys
            forall|k: int|
                0 <= k < positions.len() ==> is_run_end(
                    key_seq,
                    order@,
                    a as int,
                    #[trigger] positions@[k],
                ),
            forall|b: int|
                0 <= b < a && ends_run(key_seq, order@, b) ==> positions@.contains(
                    #[trigger] order@[b],
                ),
            forall|k: int, m: int|
                0 <= k < m < positions.len() ==> lex_less(
                    key_seq[#[trigger] positions@[k] as int],
                    key_seq[#[trigger] positions@[m] as int],
                ),
        decreases order.len() - a,
    {
        let ghost old_positions = positions@;
        let here = order[a];
        assert(0 <= order@[a as int] < key_seq.len());
        let last_of_run = if a + 1 < order.len() {
            let next = order[a + 1];
            assert(0 <= order@[a + 1] < key_seq.len());
            assert(before(key_seq, order@[a as int], order@[a + 1]));
            assert(key_seq[here as int] == keys@[here as int]@);
            assert(key_seq[next as int] == keys@[next as int]@);
            proof {
                lemma_lex_irreflexive(key_seq[here as int]);
            }
            key_less(&keys[here], &keys[next])
        } else {
            true
        };
        if last_of_run {
            positions.push(here);
            proof {
                assert(positions@[positions@.len() - 1] == here);
                assert forall|k: int, m: int|
                    0 <= k < m < positions@.len() implies lex_less(
                    key_seq[#[trigger] positions@[k] as int],
                    key_seq[#[trigger] positions@[m] as int],
                ) by {
                    if m == positions@.len() - 1 {
                        assert(positions@[k] == old_positions[k]);
                        assert(is_run_end(key_seq, order@, a as int, old_positions[k]));
                        let b = choose|b: int|
                            0 <= b < a && #[trigger] order@[b] == old_positions[k] && ends_run(
                                key_seq,
                                order@,
                                b,
                            );
                        assert(before(key_seq, order@[b], order@[b + 1]));
                        assert(lex_less(
                            key_seq[order@[b] as int],
                            key_seq[order@[b + 1] as int],
                        ));
                        if b + 1 < a {
                            assert(before(key_seq, order@[b + 1], order@[a as int]));
                            if lex_less(
                                key_seq[order@[b + 1] as int],
                                key_seq[order@[a as int] as int],
                            ) {
                                lemma_lex_transitive(
                                    key_seq[order@[b] as int],
                                    key_seq[order@[b + 1] as int],
                                    key_seq[order@[a as int] as int],
                                );
                            }
                        }
                    } else {
                        assert(positions@[k] == old_positions[k]);
                        assert(positions@[m] == old_positions[m]);
                    }
                }
                assert(ends_run(key_seq, order@, a as int));
            }
        }
        proof {
            assert forall|k: int| 0 <= k < positions@.len() implies is_run_end(
                key_seq,
                order@,
                a + 1,
                #[trigger] positions@[k],
            ) by {
                if k < old_positions.len() {
                    assert(is_run_end(key_seq, order@, a as int, old_positions[k]));
                } else {
                    assert(order@[a as int] == positions@[k]);
                }
            }
            assert forall|b: int|
                0 <= b < a + 1 && ends_run(key_seq, order@, b) implies positions@.contains(
                #[trigger] order@[b],
            ) by {
                if b < a {
                    assert(old_positions.contains(order@[b]));
                    let k = old_positions.index_of(order@[b]);
                    assert(positions@[k] == order@[b]);
                }
            }
        }
        a = a + 1;
    }
    proof {
        lemma_runs_list(views, key_seq, order@, positions@);
    }
    positions
}

/// No later entry has the path of the last entry of a run.
proof fn lemma_run_end_is_last(
    views: Seq<EntryView>,
    key_seq: Seq<Seq<u32>>,
    order: Seq<usize>,
    b: int,
)
    requires
        key_seq.len() == views.len(),
        views.len() <= usize::MAX,
        forall|k: int|
            0 <= k < views.len() ==> #[trigger] key_seq[k] == code_points(views[k].relative_path),
        is_order(key_seq, order),
        0 <= b < order.len(),
        ends_run(key_seq, order, b),
    ensures
        forall|j: int|
            order[b] < j < views.len() ==> (#[trigger] views[j]).relative_path
                != views[order[b] as int].relative_path,
{
    let i = order[b] as int;
    assert(0 <= order[b] < key_seq.len());
    lemma_lex_irreflexive(key_seq[i]);
    assert forall|j: int| i < j < views.len() implies (#[trigger] views[j]).relative_path
        != views[i].relative_path by {
        if views[j].relative_path == views[i].relative_path {
            assert(key_seq[j] == key_seq[i]);
            assert(order.contains(j as usize));
            let c = order.index_of(j as usize);
            assert(order[c] == j);
            if c < b {
                assert(before(key_seq, order[c], order[b]));
            } else {
                assert(before(key_seq, order[b], order[b + 1]));
                if c > b + 1 {
                    assert(before(key_seq, order[b + 1], order[c]));
                    if lex_less(key_seq[order[b + 1] as int], key_seq[j]) {
                        lemma_lex_transitive(key_seq[i], key_seq[order[b + 1] as int], key_seq[j]);
                    }
                }
            }
        }
    }
}

/// The entries that count hold every listed path.
proof fn lemma_runs_cover(
    views: Seq<EntryView>,
    key_seq: Seq<Seq<u32>>,
    order: Seq<usize>,
    positions: Seq<usize>,
    path: Seq<char>,
) -> (a: int)
    requires
        key_seq.len() == views.len(),
        views.len() <= usize::MAX,
        forall|k: int|
            0 <= k < views.len() ==> #[trigger] key_seq[k] == code_points(views[k].relative_path),
        is_order(key_seq, order),
        forall|b: int|
            0 <= b < order.len() && ends_run(key_seq, order, b) ==> positions.contains(
                #[trigger] order[b],
            ),
        listing(views).contains_key(path),
    ensures
        0 <= a < positions.len(),
        picked(views, positions)[a].relative_path == path,
{
    lemma_listing_domain(views, path);
    let i = choose|i: int| 0 <= i < views.len() && (#[trigger] views[i]).relative_path == path;
    assert(order.contains(i as usize));
    let b = order.index_of(i as usize);
    let c = run_end(key_seq, order, b);
    lemma_run_end(key_seq, order, b);
    assert(positions.contains(order[c]));
    let a = positions.index_of(order[c]);
    assert(positions[a] == order[c]);
    assert(0 <= order[c] < key_seq.len());
    assert(0 <= order[b] < key_seq.len());
    lemma_code_points_injective(views[order[c] as int].relative_path, path);
    a
}

/// The last entries of the runs of equal keys are the entries that count.
proof fn lemma_runs_list(
    views: Seq<EntryView>,
    key_seq: Seq<Seq<u32>>,
    order: Seq<usize>,
    positions: Seq<usize>,
)
    requires
        key_seq.len() == views.len(),
        views.len() <= usize::MAX,
        forall|k: int|
            0 <= k < views.len() ==> #[trigger] key_seq[k] == code_points(views[k].relative_path),
        is_order(key_seq, order),
        forall|k: int| 0 <= k < positions.len() ==> #[trigger] positions[k] < views.len(),
        forall|k: int|
            0 <= k < positions.len() ==> is_run_end(
                key_seq,
                order,
                order.len() as int,
                #[trigger] positions[k],
            ),
        forall|b: int|
            0 <= b < order.len() && ends_run(key_seq, order, b) ==> positions.contains(
                #[trigger] order[b],
            ),
        forall|k: int, m: int|
            0 <= k < m < positions.len() ==> lex_less(
                key_seq[#[trigger] positions[k] as int],
                key_seq[#[trigger] positions[m] as int],
            ),
    ensures
        lists(picked(views, positions), listing(views)),
{
    let list = picked(views, positions);
    let what = listing(views);
    assert forall|a: int, b: int| 0 <= a < b < list.len() implies text_less(
        (#[trigger] list[a]).relative_path,
        (#[trigger] list[b]).relative_path,
    ) by {
        assert(lex_less(key_seq[positions[a] as int], key_seq[positions[b] as int]));
        assert(positions[a] < views.len() && positions[b] < views.len());
    }
    assert forall|a: int| 0 <= a < list.len() implies what.contains_key(
        (#[trigger] list[a]).relative_path,
    ) && what[list[a].relative_path] == (list[a].hash_hex, list[a].is_dir) by {
        let i = positions[a] as int;
        assert(positions[a] < views.len());
        assert(is_run_end(key_seq, order, order.len() as int, positions[a]));
        let b = choose|b: int|
            0 <= b < order.len() && #[trigger] order[b] == positions[a] && ends_run(
                key_seq,
                order,
                b,
            );
        lemma_run_end_is_last(views, key_seq, order, b);
        lemma_listing_last(views, i);
    }
    assert forall|path: Seq<char>| what.contains_key(path) implies exists|a: int|
        0 <= a < list.len() && (#[trigger] list[a]).relative_path == path by {
        let a = lemma_runs_cover(views, key_seq, order, positions, path);
        assert(list[a].relative_path == path);
    }
}

/// The end of the run of equal keys that an ordered item belongs to.
spec fn run_end(key_seq: Seq<Seq<u32>>, order: Seq<usize>, b: int) -> int
    decreases order.len() - b,
{
    if b + 1 < order.len() && key_seq[order[b + 1] as int] == key_seq[order[b] as int] {
        run_end(key_seq, order, b + 1)
    } else {
        b
    }
}

proof fn lemma_run_end(key_seq: Seq<Seq<u32>>, order: Seq<usize>, b: int)
    requires
        0 <= b < order.len(),
    ensures
        b <= run_end(key_seq, order, b) < order.len(),
        key_seq[order[run_end(key_seq, order, b)] as int] == key_seq[order[b] as int],
        ends_run(key_seq, order, run_end(key_seq, order, b)),
    decreases order.len() - b,
{
    if b + 1 < order.len() && key_seq[order[b + 1] as int] == key_seq[order[b] as int] {
        lemma_run_end(key_seq, order, b + 1);
    }
}

/// The entries of a listing that come before a position, and the items made so far.
spec fn merged_upto(entries: Seq<EntryView>, upto: int, items: Seq<ItemView>) -> bool {
    &&& forall|a: int|
        0 <= a < upto ==> has_item(items, (#[trigger] entries[a]).relative_path)
    &&& forall|k: int, a: int|
        0 <= k < items.len() && upto <= a < entries.len() ==> text_less(
            (#[trigger] items[k]).relative_path,
            (#[trigger] entries[a]).relative_path,
        )
}

/// An item made from the next entry keeps the state of the merge.
proof fn lemma_merged_push(
    entries: Seq<EntryView>,
    upto: int,
    next: int,
    items: Seq<ItemView>,
    item: ItemView,
)
    requires
        0 <= upto <= next <= entries.len(),
        next <= upto + 1,
        forall|a: int, b: int|
            0 <= a < b < entries.len() ==> text_less(
                (#[trigger] entries[a]).relative_path,
                (#[trigger] entries[b]).relative_path,
            ),
        merged_upto(entries, upto, items),
        next == upto + 1 ==> entries[upto].relative_path == item.relative_path,
        next == upto && upto < entries.len() ==> text_less(
            item.relative_path,
            entries[upto].relative_path,
        ),
    ensures
        merged_upto(entries, next, items.push(item)),
{
    let all = items.push(item);
    assert forall|a: int| 0 <= a < next implies has_item(
        all,
        (#[trigger] entries[a]).relative_path,
    ) by {
        if a < upto {
            assert(has_item(items, entries[a].relative_path));
            let i = choose|i: int|
                0 <= i < items.len() && (#[trigger] items[i]).relative_path
                    == entries[a].relative_path;
            assert(all[i] == items[i]);
        } else {
            assert(all[items.len() as int] == item);
        }
    }
    assert forall|k: int, a: int| 0 <= k < all.len() && next <= a < entries.len() implies text_less(
        (#[trigger] all[k]).relative_path,
        (#[trigger] entries[a]).relative_path,
    ) by {
        if k < items.len() {
            assert(all[k] == items[k]);
        } else if next == upto && a > upto {
            assert(text_less(entries[upto].relative_path, entries[a].relative_path));
            lemma_lex_transitive(
                code_points(item.relative_path),
                code_points(entries[upto].relative_path),
                code_points(entries[a].relative_path),
            );
        }
    }
}

/// A path that is listed is that of an entry that is still to come, unless
/// it has an item already.
proof fn lemma_listed_ahead(
    entries: Seq<EntryView>,
    what: Map<Seq<char>, (Seq<char>, bool)>,
    upto: int,
    items: Seq<ItemView>,
    path: Seq<char>,
) -> (a: int)
    requires
        lists(entries, what),
        merged_upto(entries, upto, items),
        what.contains_key(path),
        forall|k: int| 0 <= k < items.len() ==> (#[trigger] items[k]).relative_path != path,
    ensures
        upto <= a < entries.len(),
        entries[a].relative_path == path,
{
    let a = choose|a: int| 0 <= a < entries.len() && (#[trigger] entries[a]).relative_path == path;
    if a < upto {
        assert(has_item(items, entries[a].relative_path));
    }
    a
}

/// Pushing an item adds to the count of its kind.
proof fn lemma_count_push(items: Seq<ItemView>, item: ItemView, kind: spec_fn(StatusView) -> bool)
    ensures
        count_items(items.push(item), kind) == count_items(items, kind) + (if kind(item.status) {
            1nat
        } else {
            0nat
        }),
        count_items(items, kind) <= items.len(),
    decreases items.len(),
{
    assert(items.push(item).drop_last() =~= items);
    if items.len() > 0 {
        lemma_count_push(items.drop_last(), items.last(), kind);
        assert(items.drop_last().push(items.last()) =~= items);
    }
}

/// Adds an item to a result and counts it.
fn push_item(result: &mut TreeDiffResult, item: DiffItem)
    requires
        totals_of(*old(result)),
    ensures
        totals_of(*final(result)),
        item_views(final(result).items@) == item_views(old(result).items@).push(item@),
{
    let ghost items = item_views(result.items@);
    proof {
        lemma_count_push(items, item@, |s: StatusView| s is Added);
        lemma_count_push(items, item@, |s: StatusView| s is Removed);
        lemma_count_push(items, item@, |s: StatusView| s is Modified);
        lemma_count_push(items, item@, |s: StatusView| s is Unchanged);
    }
    let ghost view = item@;
    let kind: u8 = match &item.status {
        DiffStatus::Added => 0,
        DiffStatus::Removed => 1,
        DiffStatus::Modified { .. } => 2,
        DiffStatus::Unchanged => 3,
    };
    result.items.push(item);
    assert(item_views(result.items@) =~= items.push(view));
    let length = result.items.len();
    assert(length == items.len() + 1);
    if kind == 0 {
        result.total_added = result.total_added + 1;
    } else if kind == 1 {
        result.total_removed = result.total_removed + 1;
    } else if kind == 2 {
        result.total_modified = result.total_modified + 1;
    } else {
        result.total_unchanged = result.total_unchanged + 1;
    }
}

/// The items made so far are those of the comparison, in order.
spec fn partial_items(
    old_listing: Map<Seq<char>, (Seq<char>, bool)>,
    new_listing: Map<Seq<char>, (Seq<char>, bool)>,
    items: Seq<ItemView>,
) -> bool {
    &&& forall|i: int|
        0 <= i < items.len() ==> {
            let path = (#[trigger] items[i]).relative_path;
            &&& old_listing.contains_key(path) || new_listing.contains_key(path)
            &&& items[i] == item_for(old_listing, new_listing, path)
        }
    &&& forall|i: int, j: int|
        0 <= i < j < items.len() ==> text_less(
            (#[trigger] items[i]).relative_path,
            (#[trigger] items[j]).relative_path,
        )
}

proof fn lemma_partial_push(
    old_listing: Map<Seq<char>, (Seq<char>, bool)>,
    new_listing: Map<Seq<char>, (Seq<char>, bool)>,
    items: Seq<ItemView>,
    path: Seq<char>,
)
    requires
        partial_items(old_listing, new_listing, items),
        old_listing.contains_key(path) || new_listing.contains_key(path),
        forall|k: int|
            0 <= k < items.len() ==> text_less((#[trigger] items[k]).relative_path, path),
    ensures
        partial_items(
            old_listing,
            new_listing,
            items.push(item_for(old_listing, new_listing, path)),
        ),
{
}

/// A path that comes before everything still to come from a listing, and
/// after the items made so far, is not listed.
proof fn lemma_not_listed(
    entries: Seq<EntryView>,
    what: Map<Seq<char>, (Seq<char>, bool)>,
    upto: int,
    items: Seq<ItemView>,
    path: Seq<char>,
)
    requires
        lists(entries, what),
        merged_upto(entries, upto, items),
        0 <= upto <= entries.len(),
        forall|k: int|
            0 <= k < items.len() ==> text_less((#[trigger] items[k]).relative_path, path),
        upto < entries.len() ==> text_less(path, entries[upto].relative_path),
    ensures
        !what.contains_key(path),
{
    if what.contains_key(path) {
        lemma_lex_irreflexive(code_points(path));
        let a = lemma_listed_ahead(entries, what, upto, items, path);
        if a > upto {
            assert(text_less(entries[upto].relative_path, entries[a].relative_path));
            lemma_lex_transitive(
                code_points(path),
                code_points(entries[upto].relative_path),
                code_points(path),
            );
        }
    }
}

/// Compares two audits, given as the entries of their trees.
#[verifier::rlimit(40)]
pub fn compare_entries(
    old_entries: &Vec<DiffEntry>,
    new_entries: &Vec<DiffEntry>,
) -> (result: TreeDiffResult)
    ensures
        compares(entry_views(old_entries@), entry_views(new_entries@), result),
        forall|a: int, b: int, k: int|
            0 <= a < old_entries.len() && 0 <= b < new_entries.len() && 0 <= k < result.items.len()
                && (#[trigger] result.items@[k]).relative_path@ == (
            #[trigger] old_entries@[a]).relative_path@ && result.items@[k].relative_path@ == (
            #[trigger] new_entries@[b]).relative_path@ && (forall|j: int|
                a < j < old_entries.len() ==> (#[trigger] old_entries@[j]).relative_path@
                    != old_entries@[a].relative_path@) && (forall|j: int|
                b < j < new_entries.len() ==> (#[trigger] new_entries@[j]).relative_path@
                    != new_entries@[b].relative_path@) ==> {
                let item = result.items@[k];
                &&& item.is_dir == new_entries@[b].is_dir
                &&& item.status is Unchanged <==> old_entries@[a].hash_hex@
                    == new_entries@[b].hash_hex@
                &&& old_entries@[a].hash_hex@ != new_entries@[b].hash_hex@ ==> (item.status matches
                    DiffStatus::Modified { old_hash, new_hash } && old_hash@
                    == old_entries@[a].hash_hex@ && new_hash@ == new_entries@[b].hash_hex@)
            },
{
    let ghost old_listing = listing(entry_views(old_entries@));
    let ghost new_listing = listing(entry_views(new_entries@));
    let old_order = sorted_listing(old_entries);
    let new_order = sorted_listing(new_entries);
    let ghost olds = picked(entry_views(old_entries@), old_order@);
    let ghost news = picked(entry_views(new_entries@), new_order@);
    let mut result = TreeDiffResult::default();
    assert(item_views(result.items@) =~= Seq::empty());
    let mut i: usize = 0;
    let mut j: usize = 0;
    while i < old_order.len() || j < new_order.len()
        invariant
            old_listing == listing(entry_views(old_entries@)),
            new_listing == listing(entry_views(new_entries@)),
            olds == picked(entry_views(old_entries@), old_order@),
            news == picked(entry_views(new_entries@), new_order@),
            lists(olds, old_listing),
            lists(news, new_listing),
            forall|a: int| 0 <= a < old_order.len() ==> #[trigger] old_order@[a] < old_entries.len(),
            forall|a: int| 0 <= a < new_order.len() ==> #[trigger] new_order@[a] < new_entries.len(),
            i <= old_order.len(),
            j <= new_order.len(),
            totals_of(result),
            partial_items(old_listing, new_listing, item_views(result.items@)),
            merged_upto(olds, i as int, item_views(result.items@)),
            merged_upto(news, j as int, item_views(result.items@)),
        decreases old_order.len() - i + (new_order.len() - j),
    {
        let ghost items = item_views(result.items@);
        if i < old_order.len() {
            assert(old_order@[i as int] < old_entries.len());
            assert(olds[i as int] == old_entries@[old_order@[i as int] as int]@);
        }
        if j < new_order.len() {
            assert(new_order@[j as int] < new_entries.len());
            assert(news[j as int] == new_entries@[new_order@[j as int] as int]@);
        }
        let old_first = i < old_order.len() && (j == new_order.len() || text_before(
            old_entries[old_order[i]].relative_path.as_str(),
            new_entries[new_order[j]].relative_path.as_str(),
        ));
        if old_first {
            let entry = &old_entries[old_order[i]];
            let ghost path = entry.relative_path@;
            let item = DiffItem {
                relative_path: entry.relative_path.clone(),
                status: DiffStatus::Removed,
                is_dir: entry.is_dir,
            };
            proof {
                assert(olds[i as int].relative_path == path);
                lemma_not_listed(news, new_listing, j as int, items, path);
                assert(item@ == item_for(old_listing, new_listing, path));
                lemma_partial_push(old_listing, new_listing, items, path);
                lemma_merged_push(olds, i as int, i + 1, items, item@);
                lemma_merged_push(news, j as int, j as int, items, item@);
            }
            push_item(&mut result, item);
            i = i + 1;
        } else if i == old_order.len() || text_before(
            new_entries[new_order[j]].relative_path.as_str(),
            old_entries[old_order[i]].relative_path.as_str(),
        ) {
            let entry = &new_entries[new_order[j]];
            let ghost path = entry.relative_path@;
            let item = DiffItem {
                relative_path: entry.relative_path.clone(),
                status: DiffStatus::Added,
                is_dir: entry.is_dir,
            };
            proof {
                assert(news[j as int].relative_path == path);
                lemma_not_listed(olds, old_listing, i as int, items, path);
                assert(item@ == item_for(old_listing, new_listing, path));
                lemma_partial_push(old_listing, new_listing, items, path);
                lemma_merged_push(olds, i as int, i as int, items, item@);
                lemma_merged_push(news, j as int, j + 1, items, item@);
            }
            push_item(&mut result, item);
            j = j + 1;
        } else {
            let old_entry = &old_entries[old_order[i]];
            let new_entry = &new_entries[new_order[j]];
            let ghost path = new_entry.relative_path@;
            proof {
                lemma_lex_total(
                    code_points(old_entry.relative_path@),
                    code_points(new_entry.relative_path@),
                );
                lemma_code_points_injective(old_entry.relative_path@, new_entry.relative_path@);
                assert(olds[i as int].relative_path == path);
                assert(news[j as int].relative_path == path);
            }
            let status = if text_eq(old_entry.hash_hex.as_str(), new_entry.hash_hex.as_str()) {
                DiffStatus::Unchanged
            } else {
                DiffStatus::Modified {
                    old_hash: old_entry.hash_hex.clone(),
                    new_hash: new_entry.hash_hex.clone(),
                }
            };
            let item = DiffItem {
                relative_path: new_entry.relative_path.clone(),
                status,
                is_dir: new_entry.is_dir,
            };
            proof {
                assert(item@ == item_for(old_listing, new_listing, path));
                lemma_partial_push(old_listing, new_listing, items, path);
                lemma_merged_push(olds, i as int, i + 1, items, item@);
                lemma_merged_push(news, j as int, j + 1, items, item@);
            }
            push_item(&mut result, item);
            i = i + 1;
            j = j + 1;
        }
    }
    proof {
        let items = item_views(result.items@);
        assert forall|path: Seq<char>|
            old_listing.contains_key(path) || new_listing.contains_key(path) implies has_item(
            items,
            path,
        ) by {
            if old_listing.contains_key(path) {
                let a = choose|a: int|
                    0 <= a < olds.len() && (#[trigger] olds[a]).relative_path == path;
                assert(has_item(items, olds[a].relative_path));
            } else {
                let a = choose|a: int|
                    0 <= a < news.len() && (#[trigger] news[a]).relative_path == path;
                assert(has_item(items, news[a].relative_path));
            }
        }
        let old_views = entry_views(old_entries@);
        let new_views = entry_views(new_entries@);
        assert(compares(old_views, new_views, result));
        assert forall|a: int, b: int, k: int|
            0 <= a < old_entries.len() && 0 <= b < new_entries.len() && 0 <= k < result.items.len()
                && (#[trigger] result.items@[k]).relative_path@ == (
            #[trigger] old_entries@[a]).relative_path@ && result.items@[k].relative_path@ == (
            #[trigger] new_entries@[b]).relative_path@ && (forall|j: int|
                a < j < old_entries.len() ==> (#[trigger] old_entries@[j]).relative_path@
                    != old_entries@[a].relative_path@) && (forall|j: int|
                b < j < new_entries.len() ==> (#[trigger] new_entries@[j]).relative_path@
                    != new_entries@[b].relative_path@) implies {
            let item = result.items@[k];
            &&& item.is_dir == new_entries@[b].is_dir
            &&& item.status is Unchanged <==> old_entries@[a].hash_hex@
                == new_entries@[b].hash_hex@
            &&& old_entries@[a].hash_hex@ != new_entries@[b].hash_hex@ ==> (item.status matches
                DiffStatus::Modified { old_hash, new_hash } && old_hash@
                == old_entries@[a].hash_hex@ && new_hash@ == new_entries@[b].hash_hex@)
        } by {
            assert(old_views[a] == old_entries@[a]@);
            assert(new_views[b] == new_entries@[b]@);
            assert forall|j: int| a < j < old_views.len() implies (
            #[trigger] old_views[j]).relative_path != old_views[a].relative_path by {
                assert(old_entries@[j].relative_path@ != old_entries@[a].relative_path@);
            }
            assert forall|j: int| b < j < new_views.len() implies (
            #[trigger] new_views[j]).relative_path != new_views[b].relative_path by {
                assert(new_entries@[j].relative_path@ != new_entries@[b].relative_path@);
            }
            law_path_in_both(old_views, new_views, result, a, b);
        }
    }
    result
}

/// A node of a report as an entry of a comparison.
pub open spec fn report_entry(node: ExportedNodeView, base: Seq<char>) -> EntryView {
    EntryView {
        relative_path: relative_path(node.path, base, node.name),
        hash_hex: node.hash_hex,
        is_dir: node.is_dir,
    }
}

/// The nodes of a report as entries of a comparison, under their paths
/// relative to the report's audited directory.
pub open spec fn report_entries(report: ReportView) -> Seq<EntryView> {
    report.nodes.map_values(|node: ExportedNodeView| report_entry(node, report.target_path))
}

/// The nodes of a report as entries of a comparison, under their paths
/// relative to the report's audited directory.
pub fn entries_of(report: &ExportedAuditReport) -> (entries: Vec<DiffEntry>)
    ensures
        entry_views(entries@) == report_entries(report@),
{
    let mut entries: Vec<DiffEntry> = Vec::new();
    let mut i: usize = 0;
    while i < report.nodes.len()
        invariant
            i <= report.nodes.len(),
            entry_views(entries@) == report_entries(report@).take(i as int),
        decreases report.nodes.len() - i,
    {
        let node = &report.nodes[i];
        let rest = strip_base(node.path.as_str(), report.target_path.as_str());
        let relative = match rest {
            Some(rest) => rest,
            None => node.name.clone(),
        };
        let ghost before = entries@;
        let entry = DiffEntry {
            relative_path: relative,
            hash_hex: node.hash_hex.clone(),
            is_dir: node.is_dir,
        };
        assert(report@.nodes[i as int] == node@);
        assert(entry@ == report_entries(report@)[i as int]);
        entries.push(entry);
        i = i + 1;
        assert(entry_views(entries@) =~= entry_views(before).push(entry@));
        assert(report_entries(report@).take(i as int) =~= report_entries(report@).take(
            i - 1,
        ).push(report_entries(report@)[i - 1]));
    }
    assert(report_entries(report@).take(i as int) =~= report_entries(report@));
    entries
}

/// Compares two audits: which paths, relative to the audited directories,
/// were added, removed, modified or left unchanged from the old one to the
/// new one.
pub fn compare_reports(
    old_report: &ExportedAuditReport,
    new_report: &ExportedAuditReport,
) -> (result: TreeDiffResult)
    ensures
        compares(report_entries(old_report@), report_entries(new_report@), result),
{
    let old_entries = entries_of(old_report);
    let new_entries = entries_of(new_report);
    compare_entries(&old_entries, &new_entries)
}

/// The items stand in ascending order of their paths.
pub open spec fn ordered(items: Seq<ItemView>) -> bool {
    forall|i: int, j: int|
        0 <= i < j < items.len() ==> text_less(
            (#[trigger] items[i]).relative_path,
            (#[trigger] items[j]).relative_path,
        )
}

/// Ordered items for the same paths stand at the same positions.
proof fn lemma_same_paths(a: Seq<ItemView>, b: Seq<ItemView>)
    requires
        ordered(a),
        ordered(b),
        forall|path: Seq<char>| has_item(a, path) <==> has_item(b, path),
    ensures
        a.len() == b.len(),
        forall|i: int| 0 <= i < a.len() ==> (#[trigger] a[i]).relative_path == b[i].relative_path,
    decreases a.len(),
{
    if a.len() == 0 {
        if b.len() > 0 {
            assert(has_item(b, b[0].relative_path));
            assert(has_item(a, b[0].relative_path));
        }
    } else {
        assert(has_item(a, a[0].relative_path));
        assert(has_item(b, a[0].relative_path));
        let j = choose|j: int|
            0 <= j < b.len() && (#[trigger] b[j]).relative_path == a[0].relative_path;
        assert(has_item(b, b[0].relative_path));
        assert(has_item(a, b[0].relative_path));
        let i = choose|i: int|
            0 <= i < a.len() && (#[trigger] a[i]).relative_path == b[0].relative_path;
        assert(a[0].relative_path == b[0].relative_path) by {
            if i > 0 && j > 0 {
                assert(text_less(a[0].relative_path, a[i].relative_path));
                assert(text_less(b[0].relative_path, b[j].relative_path));
                lemma_lex_transitive(
                    code_points(a[0].relative_path),
                    code_points(b[0].relative_path),
                    code_points(a[0].relative_path),
                );
                lemma_lex_irreflexive(code_points(a[0].relative_path));
            }
        }
        let x = a.drop_first();
        let y = b.drop_first();
        lemma_tail_items(a);
        lemma_tail_items(b);
        assert forall|path: Seq<char>| has_item(x, path) <==> has_item(y, path) by {
            assert(has_item(a, path) <==> has_item(b, path));
        }
        lemma_same_paths(x, y);
        assert forall|k: int| 0 <= k < a.len() implies (#[trigger] a[k]).relative_path
            == b[k].relative_path by {
            if k > 0 {
                assert(x[k - 1].relative_path == y[k - 1].relative_path);
            }
        }
    }
}

/// All paths but the first are those of the remaining items.
proof fn lemma_tail_items(a: Seq<ItemView>)
    requires
        ordered(a),
        a.len() > 0,
    ensures
        ordered(a.drop_first()),
        forall|path: Seq<char>|
            has_item(a.drop_first(), path) <==> has_item(a, path) && path != a[0].relative_path,
{
    let x = a.drop_first();
    assert forall|path: Seq<char>|
        has_item(x, path) <==> has_item(a, path) && path != a[0].relative_path by {
        if has_item(x, path) {
            let k = choose|k: int| 0 <= k < x.len() && (#[trigger] x[k]).relative_path == path;
            assert(a[k + 1].relative_path == path);
            assert(text_less(a[0].relative_path, a[k + 1].relative_path));
            lemma_lex_irreflexive(code_points(path));
        }
        if has_item(a, path) && path != a[0].relative_path {
            let k = choose|k: int| 0 <= k < a.len() && (#[trigger] a[k]).relative_path == path;
            assert(x[k - 1].relative_path == path);
        }
    }
}

proof fn lemma_has_item_listed(
    old_listing: Map<Seq<char>, (Seq<char>, bool)>,
    new_listing: Map<Seq<char>, (Seq<char>, bool)>,
    items: Seq<ItemView>,
)
    requires
        items_of(old_listing, new_listing, items),
    ensures
        ordered(items),
        forall|path: Seq<char>|
            has_item(items, path) <==> old_listing.contains_key(path) || new_listing.contains_key(
                path,
            ),
{
}

/// A comparison has one outcome.
pub proof fn law_comparison_is_unique(
    old_entries: Seq<EntryView>,
    new_entries: Seq<EntryView>,
    a: TreeDiffResult,
    b: TreeDiffResult,
)
    requires
        compares(old_entries, new_entries, a),
        compares(old_entries, new_entries, b),
    ensures
        item_views(a.items@) == item_views(b.items@),
        a.total_added == b.total_added,
        a.total_removed == b.total_removed,
        a.total_modified == b.total_modified,
        a.total_unchanged == b.total_unchanged,
{
    let x = item_views(a.items@);
    let y = item_views(b.items@);
    lemma_has_item_listed(listing(old_entries), listing(new_entries), x);
    lemma_has_item_listed(listing(old_entries), listing(new_entries), y);
    lemma_same_paths(x, y);
    assert forall|i: int| 0 <= i < x.len() implies x[i] == y[i] by {
        assert(x[i].relative_path == y[i].relative_path);
    }
    assert(x =~= y);
}

proof fn lemma_count_all(items: Seq<ItemView>, kind: spec_fn(StatusView) -> bool, all: bool)
    requires
        forall|i: int| 0 <= i < items.len() ==> kind((#[trigger] items[i]).status) == all,
    ensures
        count_items(items, kind) == (if all {
            items.len()
        } else {
            0
        }),
    decreases items.len(),
{
    if items.len() > 0 {
        assert forall|i: int| 0 <= i < items.drop_last().len() implies kind(
            (#[trigger] items.drop_last()[i]).status,
        ) == all by {
            assert(kind(items[i].status) == all);
        }
        lemma_count_all(items.drop_last(), kind, all);
        assert(kind(items[items.len() - 1].status) == all);
    }
}

/// An audit compared with itself shows every path unchanged.
pub proof fn law_same_audit_unchanged(entries: Seq<EntryView>, result: TreeDiffResult)
    requires
        compares(entries, entries, result),
    ensures
        forall|i: int|
            0 <= i < result.items.len() ==> (#[trigger] item_views(result.items@)[i]).status
                == StatusView::Unchanged,
        result.total_added == 0,
        result.total_removed == 0,
        result.total_modified == 0,
        result.total_unchanged == result.items.len(),
{
    let items = item_views(result.items@);
    assert forall|i: int| 0 <= i < items.len() implies (#[trigger] items[i]).status
        == StatusView::Unchanged by {
        assert(items[i] == item_for(
            listing(entries),
            listing(entries),
            items[i].relative_path,
        ));
    }
    lemma_count_all(items, |s: StatusView| s is Added, false);
    lemma_count_all(items, |s: StatusView| s is Removed, false);
    lemma_count_all(items, |s: StatusView| s is Modified, false);
    lemma_count_all(items, |s: StatusView| s is Unchanged, true);
}

/// The status of a path when the comparison is turned round.
pub open spec fn reversed_status(status: StatusView) -> StatusView {
    match status {
        StatusView::Added => StatusView::Removed,
        StatusView::Removed => StatusView::Added,
        StatusView::Modified { old_hash, new_hash } => StatusView::Modified {
            old_hash: new_hash,
            new_hash: old_hash,
        },
        StatusView::Unchanged => StatusView::Unchanged,
    }
}

proof fn lemma_count_reversed(
    x: Seq<ItemView>,
    y: Seq<ItemView>,
    kind: spec_fn(StatusView) -> bool,
    mirror: spec_fn(StatusView) -> bool,
)
    requires
        x.len() == y.len(),
        forall|i: int|
            0 <= i < x.len() ==> kind((#[trigger] x[i]).status) == mirror(y[i].status),
    ensures
        count_items(x, kind) == count_items(y, mirror),
    decreases x.len(),
{
    if x.len() > 0 {
        assert forall|i: int| 0 <= i < x.drop_last().len() implies kind(
            (#[trigger] x.drop_last()[i]).status,
        ) == mirror(y.drop_last()[i].status) by {
            assert(kind(x[i].status) == mirror(y[i].status));
        }
        lemma_count_reversed(x.drop_last(), y.drop_last(), kind, mirror);
        assert(kind(x[x.len() - 1].status) == mirror(y[y.len() - 1].status));
    }
}

/// Turning a comparison round swaps what was added with what was removed,
/// and the two hashes of what was modified.
pub proof fn law_reversed_comparison(
    old_entries: Seq<EntryView>,
    new_entries: Seq<EntryView>,
    forth: TreeDiffResult,
    back: TreeDiffResult,
)
    requires
        compares(old_entries, new_entries, forth),
        compares(new_entries, old_entries, back),
    ensures
        forth.items.len() == back.items.len(),
        forall|i: int|
            0 <= i < forth.items.len() ==> {
                let x = #[trigger] item_views(forth.items@)[i];
                let y = item_views(back.items@)[i];
                y.relative_path == x.relative_path && y.status == reversed_status(x.status)
            },
        forth.total_added == back.total_removed,
        forth.total_removed == back.total_added,
        forth.total_modified == back.total_modified,
        forth.total_unchanged == back.total_unchanged,
{
    let x = item_views(forth.items@);
    let y = item_views(back.items@);
    lemma_has_item_listed(listing(old_entries), listing(new_entries), x);
    lemma_has_item_listed(listing(new_entries), listing(old_entries), y);
    lemma_same_paths(x, y);
    assert forall|i: int| 0 <= i < x.len() implies (#[trigger] y[i]).relative_path
        == x[i].relative_path && y[i].status == reversed_status(x[i].status) by {
        assert(x[i].relative_path == y[i].relative_path);
        assert(x[i] == item_for(
            listing(old_entries),
            listing(new_entries),
            x[i].relative_path,
        ));
        assert(y[i] == item_for(
            listing(new_entries),
            listing(old_entries),
            y[i].relative_path,
        ));
    }
    lemma_count_reversed(x, y, |s: StatusView| s is Added, |s: StatusView| s is Removed);
    lemma_count_reversed(x, y, |s: StatusView| s is Removed, |s: StatusView| s is Added);
    lemma_count_reversed(x, y, |s: StatusView| s is Modified, |s: StatusView| s is Modified);
    lemma_count_reversed(x, y, |s: StatusView| s is Unchanged, |s: StatusView| s is Unchanged);
}

proof fn lemma_count_partition(items: Seq<ItemView>)
    ensures
        count_items(items, |s: StatusView| s is Added) + count_items(
            items,
            |s: StatusView| s is Removed,
        ) + count_items(items, |s: StatusView| s is Modified) + count_items(
            items,
            |s: StatusView| s is Unchanged,
        ) == items.len(),
    decreases items.len(),
{
    if items.len() > 0 {
        lemma_count_partition(items.drop_last());
    }
}

/// The four totals add up to the number of items.
pub proof fn law_totals_partition_items(result: TreeDiffResult)
    requires
        totals_of(result),
    ensures
        result.total_added + result.total_removed + result.total_modified + result.total_unchanged
            == result.items.len(),
{
    lemma_count_partition(item_views(result.items@));
}

/// A path that entries of both audits have is compared, whether it is a file
/// or a directory: its one item is unchanged exactly where the two hashes
/// listed for it are equal, and otherwise modified from the one to the other.
/// The last entry with a path is the one that counts.
pub proof fn law_path_in_both(
    old_entries: Seq<EntryView>,
    new_entries: Seq<EntryView>,
    result: TreeDiffResult,
    a: int,
    b: int,
)
    requires
        compares(old_entries, new_entries, result),
        0 <= a < old_entries.len(),
        0 <= b < new_entries.len(),
        old_entries[a].relative_path == new_entries[b].relative_path,
        forall|j: int|
            a < j < old_entries.len() ==> (#[trigger] old_entries[j]).relative_path
                != old_entries[a].relative_path,
        forall|j: int|
            b < j < new_entries.len() ==> (#[trigger] new_entries[j]).relative_path
                != new_entries[b].relative_path,
    ensures
        exists|k: int|
            0 <= k < result.items.len() && (#[trigger] result.items@[k]).relative_path@
                == new_entries[b].relative_path,
        forall|k: int|
            0 <= k < result.items.len() && (#[trigger] result.items@[k]).relative_path@
                == new_entries[b].relative_path ==> {
                let item = result.items@[k];
                &&& item.is_dir == new_entries[b].is_dir
                &&& item.status is Unchanged <==> old_entries[a].hash_hex
                    == new_entries[b].hash_hex
                &&& old_entries[a].hash_hex != new_entries[b].hash_hex ==> (item.status matches
                    DiffStatus::Modified { old_hash, new_hash } && old_hash@
                    == old_entries[a].hash_hex && new_hash@ == new_entries[b].hash_hex)
            },
{
    let path = new_entries[b].relative_path;
    lemma_listing_last(old_entries, a);
    lemma_listing_last(new_entries, b);
    lemma_item_at(old_entries, new_entries, result, path);
}

/// A path that only entries of the old audit have is removed, and stands for a
/// directory where it did in the old audit.
pub proof fn law_path_in_old_only(
    old_entries: Seq<EntryView>,
    new_entries: Seq<EntryView>,
    result: TreeDiffResult,
    a: int,
)
    requires
        compares(old_entries, new_entries, result),
        0 <= a < old_entries.len(),
        forall|j: int|
            a < j < old_entries.len() ==> (#[trigger] old_entries[j]).relative_path
                != old_entries[a].relative_path,
        forall|j: int|
            0 <= j < new_entries.len() ==> (#[trigger] new_entries[j]).relative_path
                != old_entries[a].relative_path,
    ensures
        exists|k: int|
            0 <= k < result.items.len() && (#[trigger] result.items@[k]).relative_path@
                == old_entries[a].relative_path,
        forall|k: int|
            0 <= k < result.items.len() && (#[trigger] result.items@[k]).relative_path@
                == old_entries[a].relative_path ==> result.items@[k].status is Removed
                && result.items@[k].is_dir == old_entries[a].is_dir,
{
    let path = old_entries[a].relative_path;
    lemma_listing_last(old_entries, a);
    lemma_listing_domain(new_entries, path);
    lemma_item_at(old_entries, new_entries, result, path);
}

/// A path that only entries of the new audit have is added, and stands for a
/// directory where it does in the new audit.
pub proof fn law_path_in_new_only(
    old_entries: Seq<EntryView>,
    new_entries: Seq<EntryView>,
    result: TreeDiffResult,
    b: int,
)
    requires
        compares(old_entries, new_entries, result),
        0 <= b < new_entries.len(),
        forall|j: int|
            b < j < new_entries.len() ==> (#[trigger] new_entries[j]).relative_path
                != new_entries[b].relative_path,
        forall|j: int|
            0 <= j < old_entries.len() ==> (#[trigger] old_entries[j]).relative_path
                != new_entries[b].relative_path,
    ensures
        exists|k: int|
            0 <= k < result.items.len() && (#[trigger] result.items@[k]).relative_path@
                == new_entries[b].relative_path,
        forall|k: int|
            0 <= k < result.items.len() && (#[trigger] result.items@[k]).relative_path@
                == new_entries[b].relative_path ==> result.items@[k].status is Added
                && result.items@[k].is_dir == new_entries[b].is_dir,
{
    let path = new_entries[b].relative_path;
    lemma_listing_last(new_entries, b);
    lemma_listing_domain(old_entries, path);
    lemma_item_at(old_entries, new_entries, result, path);
}

/// The items for a path that is listed.
proof fn lemma_item_at(
    old_entries: Seq<EntryView>,
    new_entries: Seq<EntryView>,
    result: TreeDiffResult,
    path: Seq<char>,
)
    requires
        compares(old_entries, new_entries, result),
        listing(old_entries).contains_key(path) || listing(new_entries).contains_key(path),
    ensures
        exists|k: int|
            0 <= k < result.items.len() && (#[trigger] result.items@[k]).relative_path@ == path,
        forall|k: int|
            0 <= k < result.items.len() && (#[trigger] result.items@[k]).relative_path@ == path
                ==> result.items@[k]@ == item_for(
                listing(old_entries),
                listing(new_entries),
                path,
            ),
{
    let items = item_views(result.items@);
    assert(has_item(items, path));
    let k = choose|k: int| 0 <= k < items.len() && (#[trigger] items[k]).relative_path == path;
    assert(items[k] == result.items@[k]@);
    assert(result.items@[k].relative_path@ == path);
    assert forall|k: int|
        0 <= k < result.items.len() && (#[trigger] result.items@[k]).relative_path@
            == path implies result.items@[k]@ == item_for(
        listing(old_entries),
        listing(new_entries),
        path,
    ) by {
        assert(items[k] == result.items@[k]@);
    }
}

/// Every item is for a path that an entry of one of the two audits has.
pub proof fn law_items_are_listed(
    old_entries: Seq<EntryView>,
    new_entries: Seq<EntryView>,
    result: TreeDiffResult,
    k: int,
)
    requires
        compares(old_entries, new_entries, result),
        0 <= k < result.items.len(),
    ensures
        (exists|j: int|
            0 <= j < old_entries.len() && (#[trigger] old_entries[j]).relative_path
                == result.items@[k].relative_path@) || (exists|j: int|
            0 <= j < new_entries.len() && (#[trigger] new_entries[j]).relative_path
                == result.items@[k].relative_path@),
{
    let items = item_views(result.items@);
    assert(items[k] == result.items@[k]@);
    lemma_listing_domain(old_entries, items[k].relative_path);
    lemma_listing_domain(new_entries, items[k].relative_path);
}

/// Characters are ordered as their code points are.
proof fn lemma_char_order(a: char, b: char)
    ensures
        a < b <==> (a as u32) < (b as u32),
{
}

/// One text comes before another exactly where, after all the characters that
/// they have in common, it ends first or goes on with the smaller character.
pub proof fn law_text_order(a: Seq<char>, b: Seq<char>)
    ensures
        text_less(a, b) <==> exists|d: int|
            0 <= d <= a.len() && d < b.len() && #[trigger] a.take(d) == b.take(d) && (d == a.len()
                || a[d] < b[d]),
{
    let x = code_points(a);
    let y = code_points(b);
    law_lex_first_difference(x, y);
    assert forall|d: int| 0 <= d <= a.len() && d <= b.len() implies (x.take(d) == y.take(d)
        <==> #[trigger] a.take(d) == b.take(d)) by {
        assert(x.take(d) =~= code_points(a.take(d)));
        assert(y.take(d) =~= code_points(b.take(d)));
        if x.take(d) == y.take(d) {
            lemma_code_points_injective(a.take(d), b.take(d));
        }
    }
    if text_less(a, b) {
        let d = choose|d: int|
            0 <= d <= x.len() && d < y.len() && #[trigger] x.take(d) == y.take(d) && (d == x.len()
                || x[d] < y[d]);
        assert(a.take(d) == b.take(d));
        lemma_char_order(a[d], b[d]);
    }
    if exists|d: int|
        0 <= d <= a.len() && d < b.len() && #[trigger] a.take(d) == b.take(d) && (d == a.len()
            || a[d] < b[d]) {
        let d = choose|d: int|
            0 <= d <= a.len() && d < b.len() && #[trigger] a.take(d) == b.take(d) && (d == a.len()
                || a[d] < b[d]);
        assert(x.take(d) == y.take(d));
        lemma_char_order(a[d], b[d]);
        assert(lex_less(x, y));
    }
}

/// The items of a comparison stand in the order of all the characters of their
/// paths, and no two of them have the same path.
pub proof fn law_items_in_order(
    old_entries: Seq<EntryView>,
    new_entries: Seq<EntryView>,
    result: TreeDiffResult,
    i: int,
    j: int,
)
    requires
        compares(old_entries, new_entries, result),
        0 <= i < j < result.items.len(),
    ensures
        result.items@[i].relative_path@ != result.items@[j].relative_path@,
        exists|d: int|
            0 <= d <= result.items@[i].relative_path@.len() && d
                < result.items@[j].relative_path@.len()
                && #[trigger] result.items@[i].relative_path@.take(d)
                == result.items@[j].relative_path@.take(d) && (d
                == result.items@[i].relative_path@.len() || result.items@[i].relative_path@[d]
                < result.items@[j].relative_path@[d]),
{
    let items = item_views(result.items@);
    assert(items[i] == result.items@[i]@);
    assert(items[j] == result.items@[j]@);
    let a = result.items@[i].relative_path@;
    let b = result.items@[j].relative_path@;
    assert(text_less(a, b));
    law_text_order(a, b);
    lemma_lex_irreflexive(code_points(a));
}

proof fn lemma_count_filtered(items: Seq<DiffItem>, kind: spec_fn(StatusView) -> bool)
    ensures
        count_items(item_views(items), kind) == items.filter(
            |item: DiffItem| kind(item.status@),
        ).len(),
    decreases items.len(),
{
    reveal(Seq::filter);
    if items.len() > 0 {
        lemma_count_filtered(items.drop_last(), kind);
        assert(item_views(items).drop_last() =~= item_views(items.drop_last()));
        assert(item_views(items).last() == items.last()@);
    }
}

/// The totals of a comparison are the numbers of its items of each status.
pub proof fn law_totals_count_items(
    old_entries: Seq<EntryView>,
    new_entries: Seq<EntryView>,
    result: TreeDiffResult,
)
    requires
        compares(old_entries, new_entries, result),
    ensures
        result.total_added == result.items@.filter(|item: DiffItem| item.status is Added).len(),
        result.total_removed == result.items@.filter(|item: DiffItem| item.status is Removed).len(),
        result.total_modified == result.items@.filter(
            |item: DiffItem| item.status is Modified,
        ).len(),
        result.total_unchanged == result.items@.filter(
            |item: DiffItem| item.status is Unchanged,
        ).len(),
{
    let items = result.items@;
    lemma_count_filtered(items, |s: StatusView| s is Added);
    lemma_count_filtered(items, |s: StatusView| s is Removed);
    lemma_count_filtered(items, |s: StatusView| s is Modified);
    lemma_count_filtered(items, |s: StatusView| s is Unchanged);
    lemma_filter_same(
        items,
        |item: DiffItem| (|s: StatusView| s is Added)(item.status@),
        |item: DiffItem| item.status is Added,
    );
    lemma_filter_same(
        items,
        |item: DiffItem| (|s: StatusView| s is Removed)(item.status@),
        |item: DiffItem| item.status is Removed,
    );
    lemma_filter_same(
        items,
        |item: DiffItem| (|s: StatusView| s is Modified)(item.status@),
        |item: DiffItem| item.status is Modified,
    );
    lemma_filter_same(
        items,
        |item: DiffItem| (|s: StatusView| s is Unchanged)(item.status@),
        |item: DiffItem| item.status is Unchanged,
    );
}

/// Two conditions that agree select the same items.
proof fn lemma_filter_same(
    items: Seq<DiffItem>,
    f: spec_fn(DiffItem) -> bool,
    g: spec_fn(DiffItem) -> bool,
)
    requires
        forall|item: DiffItem| #[trigger] f(item) == g(item),
    ensures
        items.filter(f) == items.filter(g),
    decreases items.len(),
{
    reveal(Seq::filter);
    if items.len() > 0 {
        lemma_filter_same(items.drop_last(), f, g);
    }
}

/// A report's node is compared under its path below the report's audited
/// directory, or under its name where it does not lie below it, with the hash
/// and the kind that the report holds for it.
pub proof fn law_reports_are_compared_by_relative_path(report: ReportView, i: int)
    requires
        0 <= i < report.nodes.len(),
    ensures
        report_entries(report).len() == report.nodes.len(),
        path_below(report.nodes[i].path, report.target_path) matches Some(rest)
            ==> report_entries(report)[i].relative_path == rest,
        path_below(report.nodes[i].path, report.target_path) is None
            ==> report_entries(report)[i].relative_path == report.nodes[i].name,
        report_entries(report)[i].hash_hex == report.nodes[i].hash_hex,
        report_entries(report)[i].is_dir == report.nodes[i].is_dir,
{
}

/// Two reports on the same directory: where a node of each lies at the same
/// path below it, and no other node of its report does, the comparison holds
/// one item for that path, unchanged exactly where the hashes of the two nodes
/// are equal, and otherwise modified from the old hash to the new one.
pub proof fn law_report_nodes_are_compared(
    old_report: ReportView,
    new_report: ReportView,
    result: TreeDiffResult,
    a: int,
    b: int,
    path: Seq<char>,
)
    requires
        compares(report_entries(old_report), report_entries(new_report), result),
        0 <= a < old_report.nodes.len(),
        0 <= b < new_report.nodes.len(),
        forall|j: int|
            0 <= j < old_report.nodes.len() ==> #[trigger] path_below(
                old_report.nodes[j].path,
                old_report.target_path,
            ) is Some,
        forall|j: int|
            0 <= j < new_report.nodes.len() ==> #[trigger] path_below(
                new_report.nodes[j].path,
                new_report.target_path,
            ) is Some,
        forall|j: int|
            0 <= j < old_report.nodes.len() ==> (#[trigger] path_below(
                old_report.nodes[j].path,
                old_report.target_path,
            ) == Some(path) <==> j == a),
        forall|j: int|
            0 <= j < new_report.nodes.len() ==> (#[trigger] path_below(
                new_report.nodes[j].path,
                new_report.target_path,
            ) == Some(path) <==> j == b),
    ensures
        exists|k: int|
            0 <= k < result.items.len() && (#[trigger] result.items@[k]).relative_path@ == path,
        forall|k: int|
            0 <= k < result.items.len() && (#[trigger] result.items@[k]).relative_path@ == path
                ==> {
                let item = result.items@[k];
                &&& item.is_dir == new_report.nodes[b].is_dir
                &&& item.status is Unchanged <==> old_report.nodes[a].hash_hex
                    == new_report.nodes[b].hash_hex
                &&& old_report.nodes[a].hash_hex != new_report.nodes[b].hash_hex ==> (
                item.status matches DiffStatus::Modified { old_hash, new_hash } && old_hash@
                    == old_report.nodes[a].hash_hex && new_hash@ == new_report.nodes[b].hash_hex)
            },
{
    let olds = report_entries(old_report);
    let news = report_entries(new_report);
    law_reports_are_compared_by_relative_path(old_report, a);
    law_reports_are_compared_by_relative_path(new_report, b);
    assert(path_below(old_report.nodes[a].path, old_report.target_path) == Some(path));
    assert(path_below(new_report.nodes[b].path, new_report.target_path) == Some(path));
    assert forall|j: int| a < j < olds.len() implies (#[trigger] olds[j]).relative_path
        != olds[a].relative_path by {
        law_reports_are_compared_by_relative_path(old_report, j);
        assert(path_below(old_report.nodes[j].path, old_report.target_path) != Some(path));
    }
    assert forall|j: int| b < j < news.len() implies (#[trigger] news[j]).relative_path
        != news[b].relative_path by {
        law_reports_are_compared_by_relative_path(new_report, j);
        assert(path_below(new_report.nodes[j].path, new_report.target_path) != Some(path));
    }
    law_path_in_both(olds, news, result, a, b);
}

} // verus!
