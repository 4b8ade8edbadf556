use vstd::prelude::*;
use crate::model::{Task, TaskView, views_of, lemma_views_of, lemma_views_of_add, lemma_views_of_push, lemma_views_of_drop_first};

verus! {

/// The forest with each task's `order` set to its position among its siblings,
/// the first sibling of the top level counting from `k`.
pub open spec fn numbered_from(f: Seq<TaskView>, k: nat) -> Seq<TaskView>
    decreases f,
{
    if f.len() == 0 {
        f
    } else {
        seq![TaskView { order: k, children: numbered_from(f[0].children, 0), ..f[0] }]
            + numbered_from(f.drop_first(), k + 1)
    }
}

/// Every sibling group's `order` values are its positions, the top level
/// counting from `k`.
pub open spec fn dense_from(f: Seq<TaskView>, k: nat) -> bool
    decreases f,
{
    f.len() == 0 || (f[0].order == k && dense_from(f[0].children, 0) && dense_from(f.drop_first(), k + 1))
}

/// Places `t` into the sequence `s` after every task whose `order` is at most
/// that of `t`, counting from the end.
pub open spec fn insert_by_order(s: Seq<TaskView>, t: TaskView) -> Seq<TaskView>
    decreases s.len(),
{
    if s.len() == 0 {
        seq![t]
    } else if s.last().order <= t.order {
        s.push(t)
    } else {
        insert_by_order(s.drop_last(), t).push(s.last())
    }
}

/// The siblings `s` sorted by `order`, ascending; equal ones keep their sequence.
pub open spec fn sort_level(s: Seq<TaskView>) -> Seq<TaskView>
    decreases s.len(),
{
    if s.len() == 0 {
        s
    } else {
        insert_by_order(sort_level(s.drop_last()), s.last())
    }
}

/// The forest with every sibling group sorted by `order`.
pub open spec fn sorted_tree(f: Seq<TaskView>) -> Seq<TaskView>
    decreases f, 1nat,
{
    sort_level(sorted_below(f))
}

/// The forest with the groups below the top level sorted by `order`.
pub open spec fn sorted_below(f: Seq<TaskView>) -> Seq<TaskView>
    decreases f, 0nat,
{
    if f.len() == 0 {
        f
    } else {
        seq![TaskView { children: sorted_tree(f[0].children), ..f[0] }] + sorted_below(f.drop_first())
    }
}

/// Sets each task's `order` to its position among its siblings, at every level.
fn number_level(tasks: Vec<Task>) -> (r: Vec<Task>)
    ensures
        views_of(r@) == numbered_from(views_of(tasks@), 0),
    decreases tasks@,
{
    let ghost orig = views_of(tasks@);
    let mut rest = tasks;
    let mut out: Vec<Task> = Vec::new();
    proof {
        assert(tasks@.subrange(0, tasks@.len() as int) =~= tasks@);
        assert(views_of(out@) + numbered_from(orig, 0) =~= numbered_from(orig, 0));
    }
    while rest.len() > 0
        invariant
            out@.len() <= tasks@.len(),
            rest@ == tasks@.subrange(out@.len() as int, tasks@.len() as int),
            orig == views_of(tasks@),
            numbered_from(orig, 0) == views_of(out@) + numbered_from(views_of(rest@), out@.len() as nat),
        decreases rest@.len(),
    {
        let ghost before = rest@;
        let ghost k = out@.len() as int;
        proof {
            lemma_views_of(before);
            lemma_views_of_drop_first(before);
            assert(before.remove(0) =~= before.drop_first());
            assert(before[0] == tasks@[k]);
            assert(decreases_to!(tasks@ => tasks@[k]));
            assert(decreases_to!(tasks@[k] => tasks@[k].children));
            assert(decreases_to!(tasks@[k].children => tasks@[k].children@));
        }
        let mut t = rest.remove(0);
        let mut kids: Vec<Task> = Vec::new();
        std::mem::swap(&mut kids, &mut t.children);
        t.children = number_level(kids);
        t.order = out.len();
        proof {
            lemma_views_of_push(out@, t);
            assert(views_of(out@).push(t.view()) + numbered_from(views_of(rest@), (k + 1) as nat)
                =~= views_of(out@) + (seq![t.view()] + numbered_from(views_of(rest@), (k + 1) as nat)));
        }
        out.push(t);
        proof {
            assert(rest@ =~= tasks@.subrange(out@.len() as int, tasks@.len() as int));
        }
    }
    proof {
        assert(views_of(out@) + numbered_from(views_of(rest@), out@.len() as nat) =~= views_of(out@));
    }
    out
}

/// Sets each task's `order` to its zero-based position among its siblings, at
/// every level: the numbering that is saved.
pub fn assign_order(tasks: &mut Vec<Task>)
    ensures
        views_of(final(tasks)@) == numbered_from(views_of(old(tasks)@), 0),
{
    let mut all: Vec<Task> = Vec::new();
    std::mem::swap(&mut all, tasks);
    *tasks = number_level(all);
}

/// Inserts `t` into `s` as `insert_by_order` says.
fn insert_by_order_exec(s: Vec<Task>, t: Task) -> (r: Vec<Task>)
    ensures
        views_of(r@) == insert_by_order(views_of(s@), t.view()),
{
    let ghost target = insert_by_order(views_of(s@), t.view());
    let mut cur = s;
    let mut tail: Vec<Task> = Vec::new();
    proof {
        lemma_views_of(tail@);
        assert(target + views_of(tail@) =~= target);
    }
    while cur.len() > 0 && cur[cur.len() - 1].order > t.order
        invariant
            target == insert_by_order(views_of(cur@), t.view()) + views_of(tail@),
        decreases cur@.len(),
    {
        let ghost c0 = cur@;
        proof {
            lemma_views_of(c0);
            lemma_views_of(c0.drop_last());
            assert(views_of(c0.drop_last()) =~= views_of(c0).drop_last());
        }
        let last = cur.pop().unwrap();
        proof {
            assert(cur@ =~= c0.drop_last());
            assert(views_of(c0).last() == last.view());
            lemma_views_of(tail@);
            lemma_views_of(tail@.insert(0, last));
            assert(views_of(tail@.insert(0, last)) =~= seq![last.view()] + views_of(tail@));
            assert(insert_by_order(views_of(cur@), t.view()).push(last.view()) + views_of(tail@)
                =~= insert_by_order(views_of(cur@), t.view()) + (seq![last.view()] + views_of(tail@)));
        }
        tail.insert(0, last);
    }
    proof {
        lemma_views_of(cur@);
        if cur@.len() > 0 {
            assert(views_of(cur@).last() == cur@[cur@.len() - 1].view());
        }
        lemma_views_of_push(cur@, t);
    }
    cur.push(t);
    proof {
        lemma_views_of_add(cur@, tail@);
    }
    cur.append(&mut tail);
    cur
}

/// Sorts one sibling group by `order`, stably.
fn sort_level_exec(s: Vec<Task>) -> (r: Vec<Task>)
    ensures
        views_of(r@) == sort_level(views_of(s@)),
{
    let ghost vs = views_of(s@);
    let mut rest = s;
    let mut out: Vec<Task> = Vec::new();
    proof {
        lemma_views_of(s@);
        assert(vs.subrange(0, 0) =~= Seq::<TaskView>::empty());
        assert(s@.subrange(0, s@.len() as int) =~= s@);
    }
    let ghost mut i: int = 0;
    while rest.len() > 0
        invariant
            0 <= i <= s@.len(),
            vs == views_of(s@),
            vs.len() == s@.len(),
            rest@ == s@.subrange(i, s@.len() as int),
            views_of(out@) == sort_level(vs.subrange(0, i)),
        decreases rest@.len(),
    {
        let ghost before = rest@;
        proof {
            assert(before.remove(0) =~= before.drop_first());
            assert(before[0] == s@[i]);
            lemma_views_of(s@);
            let p = vs.subrange(0, i + 1);
            assert(p.drop_last() =~= vs.subrange(0, i));
            assert(p.last() == s@[i].view());
        }
        let t = rest.remove(0);
        out = insert_by_order_exec(out, t);
        proof {
            i = i + 1;
            assert(rest@ =~= s@.subrange(i, s@.len() as int));
        }
    }
    proof {
        assert(vs.subrange(0, i) =~= vs);
    }
    out
}

/// Sorts every level below the top one, then returns the forest.
fn sort_below(tasks: Vec<Task>) -> (r: Vec<Task>)
    ensures
        views_of(r@) == sorted_below(views_of(tasks@)),
    decreases tasks@, 0nat,
{
    let ghost orig = views_of(tasks@);
    let ghost mut consumed: int = 0;
    let mut rest = tasks;
    let mut out: Vec<Task> = Vec::new();
    proof {
        assert(tasks@.subrange(0, tasks@.len() as int) =~= tasks@);
        assert(views_of(out@) + sorted_below(orig) =~= sorted_below(orig));
    }
    while rest.len() > 0
        invariant
            0 <= consumed <= tasks@.len(),
            rest@ == tasks@.subrange(consumed, tasks@.len() as int),
            orig == views_of(tasks@),
            sorted_below(orig) == views_of(out@) + sorted_below(views_of(rest@)),
        decreases rest@.len(),
    {
        let ghost before = rest@;
        proof {
            lemma_views_of(before);
            lemma_views_of_drop_first(before);
            assert(before.remove(0) =~= before.drop_first());
            assert(before[0] == tasks@[consumed]);
            assert(decreases_to!(tasks@ => tasks@[consumed]));
            assert(decreases_to!(tasks@[consumed] => tasks@[consumed].children));
            assert(decreases_to!(tasks@[consumed].children => tasks@[consumed].children@));
        }
        let mut t = rest.remove(0);
        let mut kids: Vec<Task> = Vec::new();
        std::mem::swap(&mut kids, &mut t.children);
        t.children = sort_tree(kids);
        proof {
            lemma_views_of_push(out@, t);
            assert(views_of(out@).push(t.view()) + sorted_below(views_of(rest@))
                =~= views_of(out@) + (seq![t.view()] + sorted_below(views_of(rest@))));
        }
        out.push(t);
        proof {
            consumed = consumed + 1;
            assert(rest@ =~= tasks@.subrange(consumed, tasks@.len() as int));
        }
    }
    proof {
        assert(views_of(out@) + sorted_below(views_of(rest@)) =~= views_of(out@));
    }
    out
}

/// Sorts every sibling group of the forest by `order`.
fn sort_tree(tasks: Vec<Task>) -> (r: Vec<Task>)
    ensures
        views_of(r@) == sorted_tree(views_of(tasks@)),
    decreases tasks@, 1nat,
{
    let below = sort_below(tasks);
    sort_level_exec(below)
}

/// Sorts every sibling group of the forest by its saved `order`, ascending;
/// tasks with equal `order` keep their sequence.
pub fn sort_by_order(tasks: &mut Vec<Task>)
    ensures
        views_of(final(tasks)@) == sorted_tree(views_of(old(tasks)@)),
{
    let mut all: Vec<Task> = Vec::new();
    std::mem::swap(&mut all, tasks);
    *tasks = sort_tree(all);
}

} // verus!
