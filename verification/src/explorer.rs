//! The cards of a session: their states and colours, and the files in use.

use std::collections::HashMap;
use vstd::prelude::*;
use vstd::std_specs::hash::*;
use vstd::std_specs::iter::IteratorSpec;
use crate::cards::{
    age_after, age_colors, get_extension_card_colors, get_node_age_card_colors, node_colors,
    seconds_since, shows_count, AgeThresholds, CardColors, CardState,
};
use crate::filter::{has_active_filter, matches_filter, passes_filter};
use crate::node::{consistent, Node, NodeView};
use crate::session::{MerkleApp, NodeColorMode};
use crate::visible::collapsed;

verus! {

broadcast use vstd::std_specs::hash::group_hash_axioms;

/// The times of the thresholds, in seconds, are numbers of 64 bits.
pub open spec fn in_seconds(thresholds: AgeThresholds) -> bool {
    &&& thresholds.red_hours * 3600 <= u64::MAX
    &&& thresholds.yellow_hours * 3600 <= u64::MAX
    &&& thresholds.green_days * 86400 <= u64::MAX
}

/// Whether the times of the thresholds, in seconds, are numbers of 64 bits.
pub fn fit_in_seconds(thresholds: &AgeThresholds) -> (fit: bool)
    ensures
        fit == in_seconds(*thresholds),
        fit <==> thresholds.red_hours * 3600 <= u64::MAX && thresholds.yellow_hours * 3600
            <= u64::MAX && thresholds.green_days * 86400 <= u64::MAX,
{
    thresholds.red_hours <= u64::MAX / 3600 && thresholds.yellow_hours <= u64::MAX / 3600
        && thresholds.green_days <= u64::MAX / 86400
}

/// The files that are marked as open.
pub open spec fn open_files(cache: Map<usize, bool>) -> Set<usize> {
    cache.dom().filter(|id: usize| cache[id])
}

impl MerkleApp {
    /// Whether a node passes the session's filter.
    pub open spec fn passes(&self, node: NodeView) -> bool {
        passes_filter(
            node,
            self.search_query@,
            self.filter_extension@,
            self.filter_max_size,
        )
    }

    /// Whether a node passes the session's filter.
    pub fn matches_filter(&self, node: &Node) -> (passes: bool)
        ensures
            passes == self.passes(node@),
            passes == passes_filter(
                node@,
                self.search_query@,
                self.filter_extension@,
                self.filter_max_size,
            ),
    {
        matches_filter(
            node,
            self.search_query.as_str(),
            self.filter_extension.as_str(),
            self.filter_max_size,
        )
    }

    /// The colours of a node's card, by type or by age as the session has it.
    /// `now` is in seconds since the epoch.
    pub fn card_colors(&self, node: &Node, now: u64) -> (colors: CardColors)
        requires
            in_seconds(self.thresholds),
        ensures
            colors == (match self.color_mode {
                NodeColorMode::ByExtension => node_colors(node@, self.dark_mode),
                NodeColorMode::ByAge => age_colors(
                    age_after(seconds_since(node.modified_timestamp, now), self.thresholds),
                    self.dark_mode,
                ),
            }),
    {
        match self.color_mode {
            NodeColorMode::ByExtension => get_extension_card_colors(node, self.dark_mode),
            NodeColorMode::ByAge => get_node_age_card_colors(
                node,
                now,
                &self.thresholds,
                self.dark_mode,
            ),
        }
    }

    /// Whether a process has the file of a node open, as far as the session
    /// looks for it.
    pub open spec fn open_by_process(&self, id: usize) -> bool {
        self.forensic_mode && open_files(self.open_files_cache@).contains(id)
    }

    /// What is special about a node's card, given the folder that a dragged
    /// node would be dropped into.
    pub fn card_state(&self, node: &Node, drop_target: Option<usize>) -> (state: CardState)
        ensures
            state == (CardState {
                is_drop_target: drop_target == Some(node.id) && node.is_dir,
                is_open: self.open_by_process(node.id),
                is_focused: self.focused_root_id == Some(node.id),
                is_selected: self.selected_node_id == Some(node.id),
                is_match: self.passes(node@),
                has_filter: self.search_query@.len() > 0 || self.filter_extension@.len() > 0,
            }),
            state.is_open <==> self.forensic_mode && self.open_files_cache@.contains_key(node.id)
                && self.open_files_cache@[node.id],
            state.is_match == passes_filter(
                node@,
                self.search_query@,
                self.filter_extension@,
                self.filter_max_size,
            ),
    {
        let marked = match self.open_files_cache.get(&node.id) {
            Some(open) => *open,
            None => false,
        };
        CardState {
            is_drop_target: drop_target == Some(node.id) && node.is_dir,
            is_open: self.forensic_mode && marked,
            is_focused: self.focused_root_id == Some(node.id),
            is_selected: self.selected_node_id == Some(node.id),
            is_match: self.matches_filter(node),
            has_filter: has_active_filter(
                self.search_query.as_str(),
                self.filter_extension.as_str(),
            ),
        }
    }

    /// How many files processes have open, as far as the session looks for it.
    pub fn open_file_count(&self) -> (count: usize)
        ensures
            count == (if self.forensic_mode {
                open_files(self.open_files_cache@).len()
            } else {
                0
            }),
    {
        if self.forensic_mode {
            count_open(&self.open_files_cache)
        } else {
            0
        }
    }
}

/// How many files are marked as open.
fn count_open(cache: &HashMap<usize, bool>) -> (count: usize)
    ensures
        count == open_files(cache@).len(),
{
    let ghost open = |id: usize| cache@[id];
    let total: usize = cache.len();
    let mut count: usize = 0;
    let ghost all = spec_keys_iter(cache).remaining().unref();
    assert(all.take(0).to_set().filter(open) =~= Set::empty());
    for id in it: cache.keys()
        invariant
            total == cache@.len(),
            it.seq().len() == total,
            it.seq().unref() == all,
            all.to_set() == cache@.dom(),
            it.seq().no_duplicates(),
            open == (|id: usize| cache@[id]),
            count <= it.index(),
            count == all.take(it.index() as int).to_set().filter(open).len(),
    {
        let ghost i = it.index() as int;
        proof {
            assert(all[i] == *id);
            assert(all.to_set().contains(*id));
            assert(!all.take(i).to_set().contains(*id)) by {
                if all.take(i).contains(*id) {
                    let j = choose|j: int| 0 <= j < i && all[j] == *id;
                    assert(it.seq()[j] == it.seq()[i]);
                }
            }
            assert(all.take(i + 1) =~= all.take(i).push(*id));
            all.take(i).lemma_push_to_set_commute(*id);
            vstd::seq_lib::seq_to_set_is_finite(all.take(i));
        }
        let ghost before = all.take(i).to_set().filter(open);
        let ghost after = all.take(i + 1).to_set().filter(open);
        if let Some(marked) = cache.get(id) {
            if *marked {
                assert(after =~= before.insert(*id));
                count = count + 1;
            } else {
                assert(after =~= before);
            }
        }
    }
    assert(all.take(all.len() as int) =~= all);
    assert(all.to_set().filter(open) =~= open_files(cache@));
    count
}

/// A card says how many children it hides exactly where the node is shown
/// without its children.
pub proof fn law_counts_stand_on_collapsed(
    t: Seq<NodeView>,
    root: usize,
    zoomed_in: bool,
    id: usize,
)
    requires
        consistent(t),
        id < t.len(),
    ensures
        shows_count(t[id as int], root, zoomed_in) <==> collapsed(t, root, zoomed_in, id),
{
}

/// The files that are marked as open are those that the cache holds a yes for.
pub proof fn law_open_files(cache: Map<usize, bool>, id: usize)
    ensures
        open_files(cache).contains(id) <==> cache.contains_key(id) && cache[id],
{
}

} // verus!
