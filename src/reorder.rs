use vstd::prelude::*;
use crate::model::{Task, TaskView, views_of, lemma_views_of, lemma_views_of_add, lemma_views_of_push, lemma_views_of_remove};

verus! {

/// The ids held by a sequence of strings.
pub open spec fn id_seq(s: Seq<String>) -> Seq<Seq<char>> {
    s.map_values(|x: String| x@)
}

/// The index of the first task of `s` (one level, no descent) with the given id.
pub open spec fn first_with(s: Seq<TaskView>, id: Seq<char>) -> Option<int>
    decreases s.len(),
{
    if s.len() == 0 {
        None
    } else if s[0].id == id {
        Some(0)
    } else {
        match first_with(s.drop_first(), id) {
            Some(j) => Some(j + 1),
            None => None,
        }
    }
}

/// `first_with` gives the least index whose task has the id, if there is one.
pub proof fn lemma_first_with(s: Seq<TaskView>, id: Seq<char>)
    ensures
        first_with(s, id) is Some ==> {
            let j = first_with(s, id)->0;
            &&& 0 <= j < s.len()
            &&& s[j].id == id
            &&& forall|k: int| 0 <= k < j ==> s[k].id != id
        },
        first_with(s, id) is None ==> forall|k: int| 0 <= k < s.len() ==> s[k].id != id,
    decreases s.len(),
{
    if s.len() > 0 {
        lemma_first_with(s.drop_first(), id);
        if s[0].id != id {
            assert forall|k: int| 1 <= k < s.len() implies s[k].id == s.drop_first()[k - 1].id by {}
        }
    }
}

/// Places the tasks of `rest` whose ids `order` names, in that sequence, after
/// `placed`; an id with no task left is passed over; what remains follows in its
/// prior sequence.
pub open spec fn reorder_from(rest: Seq<TaskView>, placed: Seq<TaskView>, order: Seq<Seq<char>>) -> Seq<TaskView>
    decreases order.len(),
{
    if order.len() == 0 {
        placed + rest
    } else {
        match first_with(rest, order[0]) {
            Some(j) => reorder_from(rest.remove(j), placed.push(rest[j]), order.drop_first()),
            None => reorder_from(rest, placed, order.drop_first()),
        }
    }
}

/// The siblings `kids` reordered after `order`: named ones first, in the
/// sequence of `order`, then the others in their prior sequence.
pub open spec fn reordered(kids: Seq<TaskView>, order: Seq<Seq<char>>) -> Seq<TaskView> {
    reorder_from(kids, Seq::empty(), order)
}

/// The index of the first task of `tasks` with the given id, on this level only.
pub(crate) fn position_of(tasks: &Vec<Task>, id: &String) -> (r: Option<usize>)
    ensures
        match r {
            Some(j) => first_with(views_of(tasks@), id@) == Some(j as int),
            None => first_with(views_of(tasks@), id@) is None,
        },
{
    proof {
        lemma_views_of(tasks@);
        lemma_first_with(views_of(tasks@), id@);
    }
    let mut i: usize = 0;
    while i < tasks.len()
        invariant
            i <= tasks@.len(),
            views_of(tasks@).len() == tasks@.len(),
            forall|k: int| 0 <= k < tasks@.len() ==> #[trigger] views_of(tasks@)[k] == tasks@[k].view(),
            forall|k: int| 0 <= k < i ==> views_of(tasks@)[k].id != id@,
        decreases tasks@.len() - i,
    {
        if tasks[i].id == *id {
            proof {
                let s = views_of(tasks@);
                lemma_first_with(s, id@);
                assert(s[i as int].id == id@);
                if first_with(s, id@) is Some {
                    let j = first_with(s, id@)->0;
                    assert(!(j < i));
                    assert(!(j > i));
                }
            }
            return Some(i);
        }
        i = i + 1;
    }
    None
}

/// Reorders the siblings `kids` after the ids in `order` (see `reordered`).
pub fn reorder_level(kids: Vec<Task>, order: &Vec<String>) -> (r: Vec<Task>)
    ensures
        views_of(r@) == reordered(views_of(kids@), id_seq(order@)),
{
    let ghost ids = id_seq(order@);
    let mut rest = kids;
    let mut placed: Vec<Task> = Vec::new();
    let mut k: usize = 0;
    proof {
        assert(ids.subrange(0, ids.len() as int) =~= ids);
    }
    while k < order.len()
        invariant
            k <= order@.len(),
            ids == id_seq(order@),
            ids.len() == order@.len(),
            reorder_from(views_of(rest@), views_of(placed@), ids.subrange(k as int, ids.len() as int))
                == reordered(views_of(kids@), ids),
        decreases order@.len() - k,
    {
        let ghost tail = ids.subrange(k as int, ids.len() as int);
        proof {
            assert(tail[0] == order@[k as int]@);
            assert(tail.drop_first() =~= ids.subrange(k + 1, ids.len() as int));
        }
        match position_of(&rest, &order[k]) {
            Some(j) => {
                proof {
                    lemma_first_with(views_of(rest@), order@[k as int]@);
                    lemma_views_of(rest@);
                    lemma_views_of_remove(rest@, j as int);
                    lemma_views_of_push(placed@, rest@[j as int]);
                }
                let t = rest.remove(j);
                placed.push(t);
            },
            None => {},
        }
        k = k + 1;
    }
    proof {
        lemma_views_of_add(placed@, rest@);
    }
    placed.append(&mut rest);
    placed
}

} // verus!
