//! The structs that represent a metro map.
use vstd::prelude::*;

mod check;
mod ids;
mod grid_node;
mod edge;
mod grid_node_text;
mod line;
mod map;
pub mod route;
mod selected;
mod station;
mod util;

pub use ids::{
    counter_after_update,
    lemma_fresh_station_ids,
    lemma_update_then_next_is_larger,
    successor,
    EdgeID,
    IDManager,
    LineID,
    StationID,
};
pub use edge::{
    lemma_opposite_involution,
    insertion_point,
    lemma_add_then_remove_line,
    lemma_insertion_point_pub,
    lemma_lines_with_members,
    lemma_lines_without_members,
    lemma_remove_line_undoes_add,
    lemma_split_point_exists_pub,
    lines_with,
    lines_without,
    sorted_ids,
    splits_at,
    strictly_sorted_ids,
    Edge,
    EdgeView,
};
pub use grid_node::{
    adjacent_or_same,
    has_all_neighbors,
    lemma_manhattan_symmetric,
    lemma_neighbor_symmetric,
    lemma_neighbors_are_adjacent,
    lemma_neighbors_distinct,
    manhattan,
    neighbors_of,
    GridNode,
};
pub use line::{
    attach_effect,
    avoiding,
    detach_effect,
    edge_runs,
    edges_avoiding,
    ends_around,
    ends_kept,
    far_end,
    first_pair,
    first_run,
    joined,
    lemma_edges_around_station,
    lemma_ends_around_same,
    lemma_ordered_pairs_hold_each_pair,
    lemma_push_all_once_contains,
    lemma_stations_after_same,
    line_edges_in,
    line_rejoined,
    line_with_edge,
    line_with_station,
    ordered_pairs,
    other_end,
    push_all_once,
    rejoined_stations,
    same_but_lines,
    split_done,
    station_added,
    touches,
    meets,
    Line,
    LineView,
};
pub use check::editable;
pub use util::contains_edge_id;
pub use map::{
    connects,
    edge_taken_off,
    edge_visits,
    emptied_edges,
    empty_line_view,
    first_missing,
    fresh_edge_ids,
    lemma_edge_around_node,
    lemma_edge_in_use,
    lemma_finitely_many_lines,
    lemma_push_contains,
    lemma_push_once_contains,
    lemma_rejoined_same_edges,
    lemma_remove_undoes_add_edge,
    lemma_station_read_after_write,
    lemma_without_absent,
    line_taken_off,
    lines_using,
    neighboring_stations,
    new_edge_view,
    nodes_updated,
    push_once,
    station_places_kept,
    station_with_edge,
    station_without_edge,
    stations_inside_grid,
    touching,
    with_edge,
    with_line,
    with_station,
    without_all,
    without_edge,
    without_line,
    MetroMap,
    MetroMapView,
};
pub use selected::{
    SelectedLine,
    SelectedLineView,
    SelectedStation,
    SelectedStationView,
};
pub use station::{
    lemma_add_edge_idempotent,
    lemma_remove_edge_removes,
    seq_without,
    Station,
    StationView,
};
pub use grid_node_text::{
    digits_value,
    encode_grid_node,
    first_non_digit,
    first_sep_from,
    int_text,
    is_digit,
    is_paren,
    leading_parens,
    lemma_grid_node_text_roundtrip,
    nat_digits,
    node_text,
    parse_grid_node,
    parse_i32_spec,
    parse_node_spec,
    trailing_parens,
    trim_parens,
    GridNodeParseError,
    IntErrorKind,
};

verus! {

} // verus!
