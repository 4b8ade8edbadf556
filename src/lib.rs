//! A tree of tasks with nested subtasks, and the operations that read and
//! change it: lookup, insertion, renaming, toggling, removal, moving and
//! reordering, together with the sibling numbering used when the tree is saved
//! and the sort by that numbering used when it is loaded.

mod model;
mod tree;
mod reorder;
mod order;
mod store;
mod laws;

pub use model::{Task, TaskError, TaskPath, TaskView, views_of};
pub use tree::{
    find_by_id, edit_first, remove_all, extract, Edit, EditView, applied, has_id, find, all_ids,
    unique_ids, edited, removed, extracted, extracted_below,
};
pub use reorder::{reorder_level, reordered, reorder_from, first_with, id_seq};
pub use order::{
    assign_order, sort_by_order, numbered_from, dense_from, insert_by_order, sort_level,
    sorted_tree, sorted_below,
};
pub use store::{
    load_root_tasks, get_task, load_subtasks, add_task, add_task_with_id, update_task,
    toggle_complete, remove_task, move_task, reorder_children, new_task_view, added, moved,
    reordered_under, opt_id,
};
pub use laws::{
    shape, has_id_outside, has_id_under, holds_subtree, law_order_dense, law_round_trip,
    law_reorder_ignores_unknown, law_add_keeps_ids_unique, law_remove_takes_subtree,
    law_remove_takes_descendants, law_move_keeps_subtree, lemma_find_edited, lemma_unique_sub,
    law_edit_keeps_ids_unique, law_reorder_keeps_ids_unique, law_remove_keeps_ids_unique,
    law_move_keeps_ids_unique,
};
