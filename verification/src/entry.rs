//! What is reported of a run.
use crate::descent::{views, Position, PositionView};
use vstd::prelude::*;

verus! {

/// The positions at which one component was found.
#[derive(Clone, Debug, PartialEq, Eq)]
pub struct MatchEntry {
    pub component: String,
    pub count: usize,
    pub positions: Vec<Position>,
}

/// A match entry with its text as sequences of characters.
pub struct EntryView {
    pub component: Seq<char>,
    pub count: usize,
    pub positions: Seq<PositionView>,
}

impl View for MatchEntry {
    type V = EntryView;

    open spec fn view(&self) -> EntryView {
        EntryView {
            component: self.component@,
            count: self.count,
            positions: views(self.positions@),
        }
    }
}

/// The views of a list of entries.
pub open spec fn entry_views(entries: Seq<MatchEntry>) -> Seq<EntryView> {
    entries.map_values(|e: MatchEntry| e@)
}

/// The picture that components were looked for in.
#[derive(Clone, Debug, PartialEq, Eq)]
pub struct DesignInfo {
    pub file: String,
    pub width: i32,
    pub height: i32,
}

/// All that a run found.
#[derive(Clone, Debug, PartialEq, Eq)]
pub struct MatchResult {
    pub design: DesignInfo,
    pub matches: Vec<MatchEntry>,
}

/// The entry of a component found at the given positions.
pub open spec fn entry_of(component: Seq<char>, positions: Seq<PositionView>) -> EntryView {
    EntryView { component, count: positions.len() as usize, positions }
}

/// The entry of a component found at the given positions.
pub fn make_entry(component: &str, positions: Vec<Position>) -> (entry: MatchEntry)
    ensures
        entry@ == entry_of(component@, views(positions@)),
        entry.positions == positions,
        entry.count == positions@.len(),
{
    MatchEntry { component: String::from_str(component), count: positions.len(), positions }
}

} // verus!
