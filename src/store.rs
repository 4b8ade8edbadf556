use vstd::prelude::*;
use crate::model::{Task, TaskError, TaskView, views_of, lemma_views_of_push};
use crate::laws::{law_add_keeps_ids_unique, law_edit_keeps_ids_unique, law_remove_keeps_ids_unique, law_move_keeps_ids_unique, law_reorder_keeps_ids_unique};
use crate::tree::{unique_ids, Edit, EditView, applied, edited, has_id, find, removed, extracted, edit_first, extract, find_by_id, remove_all, lemma_edited_absent};
use crate::reorder::{reordered, reorder_level, id_seq};
use crate::order::{sorted_tree, sort_by_order};

verus! {

/// A task just created: not completed, no children, `order` 0.
pub open spec fn new_task_view(id: Seq<char>, title: Seq<char>) -> TaskView {
    TaskView { id, title, completed: false, children: Seq::empty(), order: 0 }
}

/// The forest with `t` appended under the first task with id `parent` (depth
/// first), or at the top level where no parent is given. Where the parent is
/// absent the forest stays as it is.
pub open spec fn added(f: Seq<TaskView>, t: TaskView, parent: Option<Seq<char>>) -> Seq<TaskView> {
    match parent {
        Some(p) => edited(f, p, EditView::AddChild(t)),
        None => f.push(t),
    }
}

/// The forest with the first task of id `id` taken out (see `extracted`) and
/// appended under the first task with id `parent`, or at the top level where no
/// parent is given. Where there is no such task the forest stays as it is;
/// where the new parent is not found after extraction the task is dropped.
pub open spec fn moved(f: Seq<TaskView>, id: Seq<char>, parent: Option<Seq<char>>) -> Seq<TaskView> {
    let (rest, r) = extracted(f, id);
    match r {
        None => f,
        Some(t) => added(rest, t, parent),
    }
}

/// The forest with the children of the first task of id `parent` (or the top
/// level, where no parent is given) reordered after `order`.
pub open spec fn reordered_under(f: Seq<TaskView>, parent: Option<Seq<char>>, order: Seq<Seq<char>>) -> Seq<TaskView> {
    match parent {
        Some(p) => edited(f, p, EditView::Reorder(order)),
        None => reordered(f, order),
    }
}

/// The view of an optional id.
pub open spec fn opt_id(o: Option<String>) -> Option<Seq<char>> {
    match o {
        Some(s) => Some(s@),
        None => None,
    }
}

/// Relies on uuid's `Uuid::new_v4` and its `Display`: a random version 4 UUID in
/// its hyphenated form, which is 36 characters long.
#[verifier::external_body]
fn fresh_id() -> (r: String)
    ensures
        r@.len() == 36,
{
    uuid::Uuid::new_v4().to_string()
}

/// The loaded forest in the sequence it was saved in: every sibling group
/// sorted by `order`, ascending, stably.
pub fn load_root_tasks(tasks: Vec<Task>) -> (r: Vec<Task>)
    ensures
        views_of(r@) == sorted_tree(views_of(tasks@)),
{
    let mut tasks = tasks;
    sort_by_order(&mut tasks);
    tasks
}

/// A copy of the first task with the given id, searching depth first.
pub fn get_task(tasks: &Vec<Task>, id: String) -> (r: Result<Task, TaskError>)
    ensures
        r is Ok <==> has_id(views_of(tasks@), id@),
        r is Ok ==> find(views_of(tasks@), id@) == Some(r->Ok_0.view()),
        r is Err ==> r->Err_0 == TaskError::NotFound(id),
{
    match find_by_id(tasks, &id) {
        Some(t) => Ok(t),
        None => Err(TaskError::NotFound(id)),
    }
}

/// Copies of the children of the first task with the given id.
pub fn load_subtasks(tasks: &Vec<Task>, parent_id: String) -> (r: Result<Vec<Task>, TaskError>)
    ensures
        r is Ok <==> has_id(views_of(tasks@), parent_id@),
        r is Ok ==> views_of(r->Ok_0@) == find(views_of(tasks@), parent_id@)->0.children,
        r is Err ==> r->Err_0 == TaskError::NotFound(parent_id),
{
    match get_task(tasks, parent_id) {
        Ok(t) => Ok(t.children),
        Err(e) => Err(e),
    }
}

/// Adds a task with the given id and title, not completed and with no
/// children, under the first task with id `parent_id`, or at the top level.
/// Where the id is already in use nothing changes and `DuplicateId` comes back.
pub fn add_task_with_id(tasks: &mut Vec<Task>, id: String, title: String, parent_id: Option<String>) -> (r: Result<Task, TaskError>)
    ensures
        r is Ok <==> !has_id(views_of(old(tasks)@), id@),
        r is Ok ==> r->Ok_0.view() == new_task_view(id@, title@),
        r is Ok ==> views_of(final(tasks)@) == added(views_of(old(tasks)@), new_task_view(id@, title@), opt_id(parent_id)),
        r is Err ==> r->Err_0 == TaskError::DuplicateId(id),
        r is Err ==> views_of(final(tasks)@) == views_of(old(tasks)@),
        unique_ids(views_of(old(tasks)@)) ==> unique_ids(views_of(final(tasks)@)),
{
    if find_by_id(tasks, &id).is_some() {
        return Err(TaskError::DuplicateId(id));
    }
    let t = Task { id, title, completed: false, children: Vec::new(), order: 0 };
    let ghost tv = t.view();
    proof {
        assert(views_of(t.children@) =~= Seq::<TaskView>::empty());
        assert(tv == new_task_view(t.id@, t.title@));
    }
    let copy = t.duplicate();
    proof {
        if unique_ids(views_of(tasks@)) {
            law_add_keeps_ids_unique(views_of(tasks@), tv, opt_id(parent_id));
        }
    }
    match parent_id {
        Some(p) => {
            let mut all: Vec<Task> = Vec::new();
            std::mem::swap(&mut all, tasks);
            let (next, _found) = edit_first(all, &p, &Edit::AddChild(t));
            *tasks = next;
        },
        None => {
            proof {
                lemma_views_of_push(tasks@, t);
            }
            tasks.push(t);
        },
    }
    Ok(copy)
}

/// Adds a task with a fresh random id and the given title, not completed and
/// with no children, under the first task with id `parent_id`, or at the top
/// level; where no task has that id the forest stays as it is. Where the drawn
/// id is already in use nothing changes and `DuplicateId` comes back.
pub fn add_task(tasks: &mut Vec<Task>, title: String, parent_id: Option<String>) -> (r: Result<Task, TaskError>)
    ensures
        match r {
            Ok(t) => {
                &&& !has_id(views_of(old(tasks)@), t.id@)
                &&& t.view() == new_task_view(t.id@, title@)
                &&& t.id@.len() == 36
                &&& views_of(final(tasks)@) == added(views_of(old(tasks)@), t.view(), opt_id(parent_id))
            },
            Err(e) => {
                &&& e is DuplicateId
                &&& has_id(views_of(old(tasks)@), e->DuplicateId_0@)
                &&& views_of(final(tasks)@) == views_of(old(tasks)@)
            },
        },
        unique_ids(views_of(old(tasks)@)) ==> unique_ids(views_of(final(tasks)@)),
{
    let id = fresh_id();
    add_task_with_id(tasks, id, title, parent_id)
}

/// Makes the change to the first task with id `id`, or reports `NotFound`.
fn edit_or_not_found(tasks: &mut Vec<Task>, id: String, e: &Edit) -> (r: Result<Task, TaskError>)
    ensures
        r is Ok <==> has_id(views_of(old(tasks)@), id@),
        r is Ok ==> r->Ok_0.view() == applied(find(views_of(old(tasks)@), id@)->0, e.view()),
        r is Ok ==> views_of(final(tasks)@) == edited(views_of(old(tasks)@), id@, e.view()),
        r is Err ==> r->Err_0 == TaskError::NotFound(id),
        r is Err ==> views_of(final(tasks)@) == views_of(old(tasks)@),
{
    let mut all: Vec<Task> = Vec::new();
    std::mem::swap(&mut all, tasks);
    let (next, found) = edit_first(all, &id, e);
    *tasks = next;
    match found {
        Some(t) => Ok(t),
        None => {
            proof {
                lemma_edited_absent(views_of(old(tasks)@), id@, e.view());
            }
            Err(TaskError::NotFound(id))
        },
    }
}

/// Gives the first task with id `id` a new title and returns a copy of it.
pub fn update_task(tasks: &mut Vec<Task>, id: String, new_title: String) -> (r: Result<Task, TaskError>)
    ensures
        r is Ok <==> has_id(views_of(old(tasks)@), id@),
        r is Ok ==> r->Ok_0.view() == applied(find(views_of(old(tasks)@), id@)->0, EditView::Retitle(new_title@)),
        r is Ok ==> views_of(final(tasks)@) == edited(views_of(old(tasks)@), id@, EditView::Retitle(new_title@)),
        r is Err ==> r->Err_0 == TaskError::NotFound(id),
        r is Err ==> views_of(final(tasks)@) == views_of(old(tasks)@),
        unique_ids(views_of(old(tasks)@)) ==> unique_ids(views_of(final(tasks)@)),
{
    let ghost e = EditView::Retitle(new_title@);
    let r = edit_or_not_found(tasks, id, &Edit::Retitle(new_title));
    proof {
        if unique_ids(views_of(old(tasks)@)) {
            law_edit_keeps_ids_unique(views_of(old(tasks)@), id@, e);
        }
    }
    r
}

/// Flips the completion flag of the first task with id `id` and returns a copy
/// of it.
pub fn toggle_complete(tasks: &mut Vec<Task>, id: String) -> (r: Result<Task, TaskError>)
    ensures
        r is Ok <==> has_id(views_of(old(tasks)@), id@),
        r is Ok ==> r->Ok_0.view() == applied(find(views_of(old(tasks)@), id@)->0, EditView::Toggle),
        r is Ok ==> views_of(final(tasks)@) == edited(views_of(old(tasks)@), id@, EditView::Toggle),
        r is Err ==> r->Err_0 == TaskError::NotFound(id),
        r is Err ==> views_of(final(tasks)@) == views_of(old(tasks)@),
        unique_ids(views_of(old(tasks)@)) ==> unique_ids(views_of(final(tasks)@)),
{
    let ghost i = id@;
    let r = edit_or_not_found(tasks, id, &Edit::Toggle);
    proof {
        if unique_ids(views_of(old(tasks)@)) {
            law_edit_keeps_ids_unique(views_of(old(tasks)@), i, EditView::Toggle);
        }
    }
    r
}

/// Removes every task with id `id`, with its subtree; nothing happens where
/// there is none.
pub fn remove_task(tasks: &mut Vec<Task>, id: String)
    ensures
        views_of(final(tasks)@) == removed(views_of(old(tasks)@), id@),
        unique_ids(views_of(old(tasks)@)) ==> unique_ids(views_of(final(tasks)@)),
{
    proof {
        if unique_ids(views_of(tasks@)) {
            law_remove_keeps_ids_unique(views_of(tasks@), id@);
        }
    }
    let mut all: Vec<Task> = Vec::new();
    std::mem::swap(&mut all, tasks);
    *tasks = remove_all(all, &id);
}

/// Moves the task with id `id`, with its subtree, under the task with id
/// `new_parent_id`, or to the end of the top level (see `moved`).
pub fn move_task(tasks: &mut Vec<Task>, id: String, new_parent_id: Option<String>)
    ensures
        views_of(final(tasks)@) == moved(views_of(old(tasks)@), id@, opt_id(new_parent_id)),
        unique_ids(views_of(old(tasks)@)) ==> unique_ids(views_of(final(tasks)@)),
{
    proof {
        if unique_ids(views_of(tasks@)) {
            law_move_keeps_ids_unique(views_of(tasks@), id@, opt_id(new_parent_id));
        }
    }
    let mut all: Vec<Task> = Vec::new();
    std::mem::swap(&mut all, tasks);
    let (mut rest, found) = extract(all, &id);
    match found {
        Some(t) => {
            match new_parent_id {
                Some(p) => {
                    let (next, _found) = edit_first(rest, &p, &Edit::AddChild(t));
                    *tasks = next;
                },
                None => {
                    proof {
                        lemma_views_of_push(rest@, t);
                    }
                    rest.push(t);
                    *tasks = rest;
                },
            }
        },
        None => {
            *tasks = rest;
        },
    }
}

/// Reorders the children of the first task with id `parent_id`, or the top
/// level, after `new_order` (see `reordered`).
pub fn reorder_children(tasks: &mut Vec<Task>, parent_id: Option<String>, new_order: Vec<String>)
    ensures
        views_of(final(tasks)@) == reordered_under(views_of(old(tasks)@), opt_id(parent_id), id_seq(new_order@)),
        unique_ids(views_of(old(tasks)@)) ==> unique_ids(views_of(final(tasks)@)),
{
    proof {
        if unique_ids(views_of(tasks@)) {
            if parent_id is Some {
                law_edit_keeps_ids_unique(views_of(tasks@), parent_id->0@, EditView::Reorder(id_seq(new_order@)));
            } else {
                law_reorder_keeps_ids_unique(views_of(tasks@), id_seq(new_order@));
            }
        }
    }
    let mut all: Vec<Task> = Vec::new();
    std::mem::swap(&mut all, tasks);
    match parent_id {
        Some(p) => {
            let (next, _found) = edit_first(all, &p, &Edit::Reorder(new_order));
            *tasks = next;
        },
        None => {
            *tasks = reorder_level(all, &new_order);
        },
    }
}

} // verus!
