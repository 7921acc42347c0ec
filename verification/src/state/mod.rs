//! The state the editor keeps besides the map itself.
use vstd::prelude::*;

mod error;
mod history;
mod interaction;
mod map;

pub use error::{
    lemma_shown_error,
    shown_after,
    ErrorState,
};
pub use history::{
    after_push,
    after_redo,
    after_undo,
    bounded_push,
    lemma_history_stays_bounded,
    lemma_nothing_to_redo_after_push,
    lemma_pop_undoes_push,
    lemma_redo_undoes_undo,
    lemma_undo_after_push,
    lemma_undo_undoes_redo,
    lemma_undo_without_past,
    BoundedStack,
    HISTORY_DEPTH,
    HistoryState,
    HistoryView,
};
pub use interaction::InteractionState;
pub use map::{
    action_done,
    afters_of,
    all_cleared,
    arrives,
    ascending,
    befores_of,
    box_selection,
    carries_selected_lines,
    edge_on,
    edge_picked,
    edges_list_lines,
    ends_list_edges,
    ends_of_selected,
    grab_fits,
    grabbed,
    grabbed_in_box,
    grown,
    has_moved,
    in_box,
    key_command,
    lemma_befores_afters_of_edges,
    lemma_dropped_keeps_edges,
    lemma_edges_marked,
    lemma_grabbed_neighbors,
    lemma_lock_then_unlock,
    lemma_nothing_selected_after_clear,
    lemma_on_selected_object,
    lemma_partial_station_locking,
    lemma_selected_parts,
    lemma_stations_dropped_each,
    limits_fit,
    line_let_go,
    line_or_empty,
    line_picked,
    lines_of_selected,
    lines_visit_ends,
    must_lock,
    occupancy,
    occupant_fits,
    on_selected_object,
    one_edge_per_pair,
    partial_station,
    put_on_line,
    represented,
    same_but_edges,
    selected_ends_attached,
    selected_ids,
    stands_for,
    station_edges_listed,
    station_on,
    station_picked,
    station_placed,
    stations_dropped,
    stations_inside_limits,
    up_clicks_station,
    up_drops,
    up_passes_line,
    with_edges_locked,
    with_edges_selected,
    with_line_present,
    with_stations_locked,
    ActionType,
    KeyCommand,
    MapState,
    MapStateView,
    MouseDownEffect,
    MouseUpEffect,
    Occupant,
};

verus! {

} // verus!
