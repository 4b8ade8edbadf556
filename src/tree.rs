use vstd::prelude::*;
use crate::reorder::{reordered, reorder_level, id_seq, first_with, lemma_first_with, position_of};
use crate::model::{Task, TaskView, views_of, lemma_views_of, lemma_views_of_add, lemma_views_of_push, lemma_views_of_drop_first, lemma_views_of_remove};

verus! {

/// Whether a task with the given id stands anywhere in the forest.
pub open spec fn has_id(f: Seq<TaskView>, id: Seq<char>) -> bool
    decreases f,
{
    if f.len() == 0 {
        false
    } else {
        f[0].id == id || has_id(f[0].children, id) || has_id(f.drop_first(), id)
    }
}

/// The first task with the given id, searching depth first: a task before its
/// children, siblings left to right.
pub open spec fn find(f: Seq<TaskView>, id: Seq<char>) -> Option<TaskView>
    decreases f,
{
    if f.len() == 0 {
        None
    } else if f[0].id == id {
        Some(f[0])
    } else if has_id(f[0].children, id) {
        find(f[0].children, id)
    } else {
        find(f.drop_first(), id)
    }
}

/// The ids of the forest, each task before its children, siblings left to right.
pub open spec fn all_ids(f: Seq<TaskView>) -> Seq<Seq<char>>
    decreases f,
{
    if f.len() == 0 {
        Seq::empty()
    } else {
        seq![f[0].id] + all_ids(f[0].children) + all_ids(f.drop_first())
    }
}

/// No two tasks anywhere in the forest share an id.
pub open spec fn unique_ids(f: Seq<TaskView>) -> bool {
    all_ids(f).no_duplicates()
}

/// A change made to a single task.
pub enum Edit {
    /// Give the task this title.
    Retitle(String),
    /// Flip the completion flag.
    Toggle,
    /// Add the given task after the existing children.
    AddChild(Task),
    /// Reorder the children after these ids.
    Reorder(Vec<String>),
}

/// The mathematical value of a change.
pub enum EditView {
    Retitle(Seq<char>),
    Toggle,
    AddChild(TaskView),
    Reorder(Seq<Seq<char>>),
}

impl Edit {
    /// The change's value.
    pub open spec fn view(self) -> EditView {
        match self {
            Edit::Retitle(s) => EditView::Retitle(s@),
            Edit::Toggle => EditView::Toggle,
            Edit::AddChild(c) => EditView::AddChild(c.view()),
            Edit::Reorder(o) => EditView::Reorder(id_seq(o@)),
        }
    }
}

/// The task after the change.
pub open spec fn applied(t: TaskView, e: EditView) -> TaskView {
    match e {
        EditView::Retitle(s) => TaskView { title: s, ..t },
        EditView::Toggle => TaskView { completed: !t.completed, ..t },
        EditView::AddChild(c) => TaskView { children: t.children.push(c), ..t },
        EditView::Reorder(o) => TaskView { children: reordered(t.children, o), ..t },
    }
}

/// The forest with the change made to the first task with the given id (depth
/// first); unchanged where there is none.
pub open spec fn edited(f: Seq<TaskView>, id: Seq<char>, e: EditView) -> Seq<TaskView>
    decreases f,
{
    if f.len() == 0 {
        f
    } else if f[0].id == id {
        seq![applied(f[0], e)] + f.drop_first()
    } else if has_id(f[0].children, id) {
        seq![TaskView { children: edited(f[0].children, id, e), ..f[0] }] + f.drop_first()
    } else {
        seq![f[0]] + edited(f.drop_first(), id, e)
    }
}

/// Where no task carries the id, editing leaves the forest as it is.
pub proof fn lemma_edited_absent(f: Seq<TaskView>, id: Seq<char>, e: EditView)
    requires
        !has_id(f, id),
    ensures
        edited(f, id, e) == f,
    decreases f.len(),
{
    if f.len() > 0 {
        lemma_edited_absent(f.drop_first(), id, e);
        assert(f =~= seq![f[0]] + f.drop_first());
    }
}

/// Makes the change to one task.
fn apply_edit(t: &mut Task, e: &Edit)
    ensures
        final(t).view() == applied(old(t).view(), e.view()),
{
    match e {
        Edit::Retitle(s) => {
            t.title = s.clone();
        },
        Edit::Toggle => {
            t.completed = !t.completed;
        },
        Edit::AddChild(c) => {
            let c2 = c.duplicate();
            proof {
                lemma_views_of_push(t.children@, c2);
            }
            t.children.push(c2);
        },
        Edit::Reorder(o) => {
            let mut kids: Vec<Task> = Vec::new();
            std::mem::swap(&mut kids, &mut t.children);
            t.children = reorder_level(kids, o);
        },
    }
}

/// Makes the change to the first task with the given id (depth first), and
/// returns the forest and a copy of the changed task, if there was one.
pub fn edit_first(tasks: Vec<Task>, id: &String, e: &Edit) -> (r: (Vec<Task>, Option<Task>))
    ensures
        views_of(r.0@) == edited(views_of(tasks@), id@, e.view()),
        r.1 is Some <==> has_id(views_of(tasks@), id@),
        r.1 is Some ==> r.1->0.view() == applied(find(views_of(tasks@), id@)->0, e.view()),
    decreases tasks@,
{
    let ghost orig = views_of(tasks@);
    let ghost mut consumed: int = 0;
    let mut rest = tasks;
    let mut out: Vec<Task> = Vec::new();
    proof {
        assert(tasks@.subrange(0, tasks@.len() as int) =~= tasks@);
        assert(views_of(out@) + edited(orig, id@, e.view()) =~= edited(orig, id@, e.view()));
    }
    while rest.len() > 0
        invariant
            0 <= consumed <= tasks@.len(),
            rest@ == tasks@.subrange(consumed, tasks@.len() as int),
            orig == views_of(tasks@),
            has_id(orig, id@) == has_id(views_of(rest@), id@),
            find(orig, id@) == find(views_of(rest@), id@),
            edited(orig, id@, e.view()) == views_of(out@) + edited(views_of(rest@), id@, e.view()),
        decreases rest@.len(),
    {
        let ghost before = rest@;
        let ghost vb = views_of(before);
        proof {
            lemma_views_of(before);
            lemma_views_of_drop_first(before);
            assert(before.remove(0) =~= before.drop_first());
            assert(before[0] == tasks@[consumed]);
        }
        let mut t = rest.remove(0);
        assert(vb[0] == t.view());
        if t.id == *id {
            apply_edit(&mut t, e);
            let c = t.duplicate();
            proof {
                lemma_views_of_push(out@, t);
                lemma_views_of_add(out@.push(t), rest@);
                assert(views_of(out@).push(t.view()) + views_of(rest@)
                    =~= views_of(out@) + (seq![t.view()] + views_of(rest@)));
            }
            out.push(t);
            out.append(&mut rest);
            return (out, Some(c));
        }
        proof {
            assert(decreases_to!(tasks@ => tasks@[consumed]));
            assert(decreases_to!(tasks@[consumed] => tasks@[consumed].children));
            assert(decreases_to!(tasks@[consumed].children => tasks@[consumed].children@));
        }
        let ghost tv = t.view();
        let mut kids: Vec<Task> = Vec::new();
        std::mem::swap(&mut kids, &mut t.children);
        let (new_kids, found) = edit_first(kids, id, e);
        t.children = new_kids;
        proof {
            if found is None {
                lemma_edited_absent(tv.children, id@, e.view());
            }
            assert(t.view() == (if found is Some {
                TaskView { children: edited(tv.children, id@, e.view()), ..tv }
            } else {
                tv
            }));
            lemma_views_of_push(out@, t);
            assert(views_of(out@).push(t.view()) + views_of(rest@)
                =~= views_of(out@) + (seq![t.view()] + views_of(rest@)));
            assert(views_of(out@).push(t.view()) + edited(views_of(rest@), id@, e.view())
                =~= views_of(out@) + (seq![t.view()] + edited(views_of(rest@), id@, e.view())));
        }
        out.push(t);
        if found.is_some() {
            proof {
                lemma_views_of_add(out@, rest@);
            }
            out.append(&mut rest);
            return (out, found);
        }
        proof {
            consumed = consumed + 1;
            assert(rest@ =~= tasks@.subrange(consumed, tasks@.len() as int));
        }
    }
    proof {
        assert(views_of(out@) + edited(views_of(rest@), id@, e.view()) =~= views_of(out@));
    }
    (out, None)
}

/// The first task with the given id, searching depth first, as a copy.
pub fn find_by_id(tasks: &Vec<Task>, id: &String) -> (r: Option<Task>)
    ensures
        r is Some <==> has_id(views_of(tasks@), id@),
        r is Some ==> find(views_of(tasks@), id@) == Some(r->0.view()),
        r is None ==> find(views_of(tasks@), id@) is None,
    decreases tasks@,
{
    let ghost all = views_of(tasks@);
    proof {
        lemma_views_of(tasks@);
        assert(all.subrange(0, all.len() as int) =~= all);
    }
    let mut i: usize = 0;
    while i < tasks.len()
        invariant
            0 <= i <= tasks@.len(),
            all == views_of(tasks@),
            all.len() == tasks@.len(),
            has_id(all, id@) == has_id(all.subrange(i as int, all.len() as int), id@),
            find(all, id@) == find(all.subrange(i as int, all.len() as int), id@),
        decreases tasks@.len() - i,
    {
        let ghost rest = all.subrange(i as int, all.len() as int);
        proof {
            lemma_views_of(tasks@);
            assert(rest[0] == all[i as int]);
            assert(rest.drop_first() =~= all.subrange(i + 1, all.len() as int));
        }
        if tasks[i].id == *id {
            return Some(tasks[i].duplicate());
        }
        proof {
            assert(decreases_to!(tasks@ => tasks@[i as int]));
        }
        let found = find_by_id(&tasks[i].children, id);
        if found.is_some() {
            return found;
        }
        i = i + 1;
    }
    None
}

/// The forest with every task of the given id taken out, with its subtree.
pub open spec fn removed(f: Seq<TaskView>, id: Seq<char>) -> Seq<TaskView>
    decreases f,
{
    if f.len() == 0 {
        f
    } else if f[0].id == id {
        removed(f.drop_first(), id)
    } else {
        seq![TaskView { children: removed(f[0].children, id), ..f[0] }] + removed(f.drop_first(), id)
    }
}

/// Takes every task of the given id out of the forest, at every level, with
/// its subtree.
pub fn remove_all(tasks: Vec<Task>, id: &String) -> (r: Vec<Task>)
    ensures
        views_of(r@) == removed(views_of(tasks@), id@),
    decreases tasks@,
{
    let ghost orig = views_of(tasks@);
    let ghost mut consumed: int = 0;
    let mut rest = tasks;
    let mut out: Vec<Task> = Vec::new();
    proof {
        assert(tasks@.subrange(0, tasks@.len() as int) =~= tasks@);
        assert(views_of(out@) + removed(orig, id@) =~= removed(orig, id@));
    }
    while rest.len() > 0
        invariant
            0 <= consumed <= tasks@.len(),
            rest@ == tasks@.subrange(consumed, tasks@.len() as int),
            orig == views_of(tasks@),
            removed(orig, id@) == views_of(out@) + removed(views_of(rest@), id@),
        decreases rest@.len(),
    {
        let ghost before = rest@;
        let ghost vb = views_of(before);
        proof {
            lemma_views_of(before);
            lemma_views_of_drop_first(before);
            assert(before.remove(0) =~= before.drop_first());
            assert(before[0] == tasks@[consumed]);
        }
        let mut t = rest.remove(0);
        assert(vb[0] == t.view());
        if t.id != *id {
            proof {
                assert(decreases_to!(tasks@ => tasks@[consumed]));
                assert(decreases_to!(tasks@[consumed] => tasks@[consumed].children));
                assert(decreases_to!(tasks@[consumed].children => tasks@[consumed].children@));
            }
            let mut kids: Vec<Task> = Vec::new();
            std::mem::swap(&mut kids, &mut t.children);
            t.children = remove_all(kids, id);
            proof {
                lemma_views_of_push(out@, t);
                assert(views_of(out@).push(t.view()) + removed(views_of(rest@), id@)
                    =~= views_of(out@) + (seq![t.view()] + removed(views_of(rest@), id@)));
            }
            out.push(t);
        }
        proof {
            consumed = consumed + 1;
            assert(rest@ =~= tasks@.subrange(consumed, tasks@.len() as int));
        }
    }
    proof {
        assert(views_of(out@) + removed(views_of(rest@), id@) =~= views_of(out@));
    }
    out
}

/// Takes out the first task with the given id and returns it with the rest:
/// this level is searched first, then the subtrees left to right.
pub open spec fn extracted(f: Seq<TaskView>, id: Seq<char>) -> (Seq<TaskView>, Option<TaskView>)
    decreases f, 1nat,
{
    match first_with(f, id) {
        Some(j) => if 0 <= j < f.len() {
            (f.remove(j), Some(f[j]))
        } else {
            (f, None)
        },
        None => extracted_below(f, id),
    }
}

/// Extraction from the subtrees of `f`, left to right.
pub open spec fn extracted_below(f: Seq<TaskView>, id: Seq<char>) -> (Seq<TaskView>, Option<TaskView>)
    decreases f, 0nat,
{
    if f.len() == 0 {
        (f, None)
    } else {
        let (c, r) = extracted(f[0].children, id);
        if r is Some {
            (seq![TaskView { children: c, ..f[0] }] + f.drop_first(), r)
        } else {
            let (rest, r2) = extracted_below(f.drop_first(), id);
            (seq![f[0]] + rest, r2)
        }
    }
}

/// Takes out the first task with the given id (see `extracted`).
pub fn extract(tasks: Vec<Task>, id: &String) -> (r: (Vec<Task>, Option<Task>))
    ensures
        views_of(r.0@) == extracted(views_of(tasks@), id@).0,
        r.1 is Some <==> extracted(views_of(tasks@), id@).1 is Some,
        r.1 is Some ==> extracted(views_of(tasks@), id@).1 == Some(r.1->0.view()),
        r.1 is None ==> views_of(r.0@) == views_of(tasks@),
    decreases tasks@, 1nat,
{
    let mut tasks = tasks;
    match position_of(&tasks, id) {
        Some(j) => {
            proof {
                lemma_first_with(views_of(tasks@), id@);
                lemma_views_of(tasks@);
                lemma_views_of_remove(tasks@, j as int);
            }
            let t = tasks.remove(j);
            (tasks, Some(t))
        },
        None => extract_below(tasks, id),
    }
}

/// Extraction from the subtrees, left to right (see `extracted_below`).
fn extract_below(tasks: Vec<Task>, id: &String) -> (r: (Vec<Task>, Option<Task>))
    ensures
        views_of(r.0@) == extracted_below(views_of(tasks@), id@).0,
        r.1 is Some <==> extracted_below(views_of(tasks@), id@).1 is Some,
        r.1 is Some ==> extracted_below(views_of(tasks@), id@).1 == Some(r.1->0.view()),
        r.1 is None ==> views_of(r.0@) == views_of(tasks@),
    decreases tasks@, 0nat,
{
    let ghost orig = views_of(tasks@);
    let ghost mut consumed: int = 0;
    let mut rest = tasks;
    let mut out: Vec<Task> = Vec::new();
    proof {
        assert(tasks@.subrange(0, tasks@.len() as int) =~= tasks@);
        lemma_views_of(out@);
    }
    while rest.len() > 0
        invariant
            0 <= consumed <= tasks@.len(),
            rest@ == tasks@.subrange(consumed, tasks@.len() as int),
            orig == views_of(tasks@),
            orig == views_of(out@) + views_of(rest@),
            extracted_below(orig, id@).1 == extracted_below(views_of(rest@), id@).1,
            extracted_below(orig, id@).0 == views_of(out@) + extracted_below(views_of(rest@), id@).0,
        decreases rest@.len(),
    {
        let ghost before = rest@;
        let ghost vb = views_of(before);
        proof {
            lemma_views_of(before);
            lemma_views_of_drop_first(before);
            assert(before.remove(0) =~= before.drop_first());
            assert(before[0] == tasks@[consumed]);
            assert(decreases_to!(tasks@ => tasks@[consumed]));
            assert(decreases_to!(tasks@[consumed] => tasks@[consumed].children));
            assert(decreases_to!(tasks@[consumed].children => tasks@[consumed].children@));
        }
        let mut t = rest.remove(0);
        assert(vb[0] == t.view());
        let ghost tv = t.view();
        let mut kids: Vec<Task> = Vec::new();
        std::mem::swap(&mut kids, &mut t.children);
        let (new_kids, found) = extract(kids, id);
        t.children = new_kids;
        proof {
            lemma_views_of_push(out@, t);
            assert(views_of(out@).push(t.view()) + views_of(rest@)
                =~= views_of(out@) + (seq![t.view()] + views_of(rest@)));
            assert(views_of(out@).push(t.view()) + extracted_below(views_of(rest@), id@).0
                =~= views_of(out@) + (seq![t.view()] + extracted_below(views_of(rest@), id@).0));
        }
        out.push(t);
        if found.is_some() {
            proof {
                lemma_views_of_add(out@, rest@);
            }
            out.append(&mut rest);
            return (out, found);
        }
        proof {
            consumed = consumed + 1;
            assert(rest@ =~= tasks@.subrange(consumed, tasks@.len() as int));
        }
    }
    proof {
        assert(views_of(out@) + views_of(rest@) =~= views_of(out@));
        assert(views_of(out@) + extracted_below(views_of(rest@), id@).0 =~= views_of(out@));
    }
    (out, None)
}

} // verus!
