use vstd::prelude::*;
use vstd::multiset::Multiset;
use crate::model::TaskView;
use crate::order::{numbered_from, dense_from, sort_level, sorted_tree, sorted_below};
use crate::reorder::{first_with, lemma_first_with, reorder_from, reordered};
use crate::tree::{EditView, applied, edited, has_id, find, all_ids, unique_ids, removed, extracted, extracted_below};
use crate::store::{added, moved};

verus! {

/// The forest with every `order` set to 0: what remains when sibling numbering
/// is ignored (ids, titles, flags and the shape of the tree).
pub open spec fn shape(f: Seq<TaskView>) -> Seq<TaskView>
    decreases f,
{
    if f.len() == 0 {
        f
    } else {
        seq![TaskView { order: 0, children: shape(f[0].children), ..f[0] }] + shape(f.drop_first())
    }
}

proof fn lemma_numbered_orders(f: Seq<TaskView>, k: nat)
    ensures
        numbered_from(f, k).len() == f.len(),
        forall|i: int| 0 <= i < f.len() ==> #[trigger] numbered_from(f, k)[i].order == k + i,
    decreases f.len(),
{
    if f.len() > 0 {
        lemma_numbered_orders(f.drop_first(), k + 1);
        let g = numbered_from(f, k);
        assert forall|i: int| 0 <= i < f.len() implies #[trigger] g[i].order == k + i by {
            if i > 0 {
                assert(g[i] == numbered_from(f.drop_first(), k + 1)[i - 1]);
            }
        }
    }
}

/// After the numbering that precedes every save, each sibling group's `order`
/// values are exactly 0, 1, ..., n - 1 in sequence.
pub proof fn law_order_dense(f: Seq<TaskView>)
    ensures
        dense_from(numbered_from(f, 0), 0),
{
    lemma_dense_from(f, 0);
}

proof fn lemma_dense_from(f: Seq<TaskView>, k: nat)
    ensures
        dense_from(numbered_from(f, k), k),
    decreases f,
{
    if f.len() > 0 {
        lemma_dense_from(f[0].children, 0);
        lemma_dense_from(f.drop_first(), k + 1);
        let g = numbered_from(f, k);
        assert(g.drop_first() =~= numbered_from(f.drop_first(), k + 1));
    }
}

proof fn lemma_sort_level_ascending(s: Seq<TaskView>)
    requires
        forall|i: int| 0 <= i < s.len() - 1 ==> #[trigger] s[i].order <= s[i + 1].order,
    ensures
        sort_level(s) == s,
    decreases s.len(),
{
    if s.len() > 0 {
        let d = s.drop_last();
        assert forall|i: int| 0 <= i < d.len() - 1 implies #[trigger] d[i].order <= d[i + 1].order by {
            assert(d[i] == s[i] && d[i + 1] == s[i + 1]);
        }
        lemma_sort_level_ascending(d);
        if d.len() > 0 {
            assert(d.last() == s[s.len() - 2]);
        }
        assert(d.push(s.last()) =~= s);
    }
}

proof fn lemma_sorted_numbered(f: Seq<TaskView>, k: nat)
    ensures
        sorted_below(numbered_from(f, k)) == numbered_from(f, k),
        sorted_tree(numbered_from(f, k)) == numbered_from(f, k),
    decreases f,
{
    let g = numbered_from(f, k);
    lemma_numbered_orders(f, k);
    if f.len() > 0 {
        lemma_sorted_numbered(f[0].children, 0);
        lemma_sorted_numbered(f.drop_first(), k + 1);
        assert(g.drop_first() =~= numbered_from(f.drop_first(), k + 1));
        assert(g =~= seq![g[0]] + g.drop_first());
    }
    assert forall|i: int| 0 <= i < g.len() - 1 implies #[trigger] g[i].order <= g[i + 1].order by {}
    lemma_sort_level_ascending(g);
}

proof fn lemma_shape_numbered(f: Seq<TaskView>, k: nat)
    ensures
        shape(numbered_from(f, k)) == shape(f),
    decreases f,
{
    if f.len() > 0 {
        lemma_shape_numbered(f[0].children, 0);
        lemma_shape_numbered(f.drop_first(), k + 1);
        let g = numbered_from(f, k);
        assert(g.drop_first() =~= numbered_from(f.drop_first(), k + 1));
    }
}

/// Saving a forest and loading it back gives the forest as it was saved: the
/// sort done on loading keeps the saved numbering as it is, and the numbering
/// changes nothing but `order` (ids, titles, flags and the parent/child shape
/// stay).
pub proof fn law_round_trip(f: Seq<TaskView>)
    ensures
        sorted_tree(numbered_from(f, 0)) == numbered_from(f, 0),
        shape(numbered_from(f, 0)) == shape(f),
{
    lemma_sorted_numbered(f, 0);
    lemma_shape_numbered(f, 0);
}

proof fn lemma_reorder_skip(rest: Seq<TaskView>, placed: Seq<TaskView>, o1: Seq<Seq<char>>, x: Seq<char>, o2: Seq<Seq<char>>)
    requires
        forall|i: int| 0 <= i < rest.len() ==> #[trigger] rest[i].id != x,
    ensures
        reorder_from(rest, placed, o1 + seq![x] + o2) == reorder_from(rest, placed, o1 + o2),
    decreases o1.len(),
{
    let a = o1 + seq![x] + o2;
    let b = o1 + o2;
    if o1.len() == 0 {
        lemma_first_with(rest, x);
        assert(a.drop_first() =~= o2);
        assert(b =~= o2);
    } else {
        assert(a[0] == o1[0] && b[0] == o1[0]);
        assert(a.drop_first() =~= o1.drop_first() + seq![x] + o2);
        assert(b.drop_first() =~= o1.drop_first() + o2);
        lemma_first_with(rest, o1[0]);
        match first_with(rest, o1[0]) {
            Some(j) => {
                let r2 = rest.remove(j);
                assert forall|i: int| 0 <= i < r2.len() implies #[trigger] r2[i].id != x by {
                    if i < j {
                        assert(r2[i] == rest[i]);
                    } else {
                        assert(r2[i] == rest[i + 1]);
                    }
                }
                lemma_reorder_skip(r2, placed.push(rest[j]), o1.drop_first(), x, o2);
            },
            None => {
                lemma_reorder_skip(rest, placed, o1.drop_first(), x, o2);
            },
        }
    }
}

/// An id in the new order that no sibling carries is passed over: the result is
/// the same as without it.
pub proof fn law_reorder_ignores_unknown(kids: Seq<TaskView>, o1: Seq<Seq<char>>, x: Seq<char>, o2: Seq<Seq<char>>)
    requires
        forall|i: int| 0 <= i < kids.len() ==> #[trigger] kids[i].id != x,
    ensures
        reordered(kids, o1 + seq![x] + o2) == reordered(kids, o1 + o2),
{
    lemma_reorder_skip(kids, Seq::empty(), o1, x, o2);
}

proof fn lemma_contains_concat(a: Seq<Seq<char>>, b: Seq<Seq<char>>, x: Seq<char>)
    ensures
        (a + b).contains(x) <==> a.contains(x) || b.contains(x),
{
    if (a + b).contains(x) {
        let i = choose|i: int| 0 <= i < (a + b).len() && (a + b)[i] == x;
        if i < a.len() {
            assert(a[i] == x);
        } else {
            assert(b[i - a.len()] == x);
        }
    }
    if a.contains(x) {
        let i = choose|i: int| 0 <= i < a.len() && a[i] == x;
        assert((a + b)[i] == x);
    }
    if b.contains(x) {
        let i = choose|i: int| 0 <= i < b.len() && b[i] == x;
        assert((a + b)[a.len() + i] == x);
    }
}

proof fn lemma_all_ids_add(a: Seq<TaskView>, b: Seq<TaskView>)
    ensures
        all_ids(a + b) == all_ids(a) + all_ids(b),
    decreases a.len(),
{
    if a.len() == 0 {
        assert(a + b =~= b);
        assert(all_ids(a) + all_ids(b) =~= all_ids(b));
    } else {
        lemma_all_ids_add(a.drop_first(), b);
        assert((a + b)[0] == a[0]);
        assert((a + b).drop_first() =~= a.drop_first() + b);
        assert(all_ids(a + b) =~= all_ids(a) + all_ids(b));
    }
}

proof fn lemma_all_ids_cons(t: TaskView, rest: Seq<TaskView>)
    ensures
        all_ids(seq![t] + rest) == seq![t.id] + all_ids(t.children) + all_ids(rest),
{
    let s = seq![t] + rest;
    assert(s[0] == t);
    assert(s.drop_first() =~= rest);
}

proof fn lemma_has_id_all_ids(f: Seq<TaskView>, x: Seq<char>)
    ensures
        has_id(f, x) <==> all_ids(f).contains(x),
    decreases f,
{
    if f.len() > 0 {
        lemma_has_id_all_ids(f[0].children, x);
        lemma_has_id_all_ids(f.drop_first(), x);
        lemma_contains_concat(seq![f[0].id] + all_ids(f[0].children), all_ids(f.drop_first()), x);
        lemma_contains_concat(seq![f[0].id], all_ids(f[0].children), x);
        assert(seq![f[0].id][0] == f[0].id);
    }
}

proof fn lemma_ids_add_child(f: Seq<TaskView>, p: Seq<char>, c: TaskView)
    ensures
        all_ids(edited(f, p, EditView::AddChild(c))).to_multiset() == (if has_id(f, p) {
            all_ids(f).to_multiset().add(all_ids(seq![c]).to_multiset())
        } else {
            all_ids(f).to_multiset()
        }),
    decreases f,
{
    broadcast use vstd::seq_lib::lemma_multiset_commutative;

    if f.len() > 0 {
        let e = EditView::AddChild(c);
        let f0 = f[0];
        let tail = f.drop_first();
        assert(f =~= seq![f0] + tail);
        lemma_all_ids_cons(f0, tail);
        if f0.id == p {
            let g = applied(f0, e);
            lemma_all_ids_cons(g, tail);
            lemma_all_ids_add(f0.children, seq![c]);
            assert(g.children =~= f0.children + seq![c]);
            assert(all_ids(edited(f, p, e)).to_multiset() =~= all_ids(f).to_multiset().add(
                all_ids(seq![c]).to_multiset()));
        } else if has_id(f0.children, p) {
            lemma_ids_add_child(f0.children, p, c);
            let g = TaskView { children: edited(f0.children, p, e), ..f0 };
            lemma_all_ids_cons(g, tail);
            assert(all_ids(edited(f, p, e)).to_multiset() =~= all_ids(f).to_multiset().add(
                all_ids(seq![c]).to_multiset()));
        } else {
            lemma_ids_add_child(tail, p, c);
            lemma_all_ids_cons(f0, edited(tail, p, e));
            if has_id(f, p) {
                assert(all_ids(edited(f, p, e)).to_multiset() =~= all_ids(f).to_multiset().add(
                    all_ids(seq![c]).to_multiset()));
            } else {
                assert(all_ids(edited(f, p, e)).to_multiset() =~= all_ids(f).to_multiset());
            }
        }
    }
}

/// Adding a new task, with a fresh id and no children, keeps the ids of the
/// forest pairwise distinct; so does any sequence of such additions, starting
/// from an empty forest.
pub proof fn law_add_keeps_ids_unique(f: Seq<TaskView>, t: TaskView, parent: Option<Seq<char>>)
    requires
        unique_ids(f),
        !has_id(f, t.id),
        t.children.len() == 0,
    ensures
        unique_ids(added(f, t, parent)),
{
    broadcast use vstd::seq_lib::lemma_multiset_commutative;
    broadcast use vstd::seq_lib::group_to_multiset_ensures;

    let a = all_ids(f);
    lemma_has_id_all_ids(f, t.id);
    a.lemma_multiset_has_no_duplicates();
    lemma_all_ids_cons(t, Seq::empty());
    assert(seq![t] + Seq::<TaskView>::empty() =~= seq![t]);
    assert(all_ids(t.children) =~= Seq::<Seq<char>>::empty());
    assert(all_ids(seq![t]) =~= seq![t.id]);
    let n = all_ids(added(f, t, parent));
    let m = a.to_multiset();
    assert(!m.contains(t.id));
    assert(seq![t.id].to_multiset() =~= Multiset::empty().insert(t.id)) by {
        assert(seq![t.id] =~= Seq::<Seq<char>>::empty().push(t.id));
    }
    let m2 = if parent is Some && !has_id(f, parent->0) {
        m
    } else {
        m.insert(t.id)
    };
    assert(m.add(Multiset::empty().insert(t.id)) =~= m.insert(t.id));
    match parent {
        Some(p) => {
            lemma_ids_add_child(f, p, t);
            if has_id(f, p) {
                assert(n.to_multiset() == m.add(seq![t.id].to_multiset()));
            }
        },
        None => {
            lemma_all_ids_add(f, seq![t]);
            assert(f.push(t) =~= f + seq![t]);
            assert(n == a + seq![t.id]);
            assert(n.to_multiset() == m.add(seq![t.id].to_multiset()));
        },
    }
    assert(n.to_multiset() =~= m2);
    assert forall|x: Seq<char>| n.to_multiset().contains(x) implies n.to_multiset().count(x) == 1 by {
        if x != t.id {
            assert(m2.count(x) == m.count(x));
            assert(m.contains(x));
        } else {
            assert(m.count(x) == 0);
        }
    }
    n.lemma_multiset_has_no_duplicates_conv();
}

/// Whether a task with id `x` stands in the forest outside every subtree whose
/// root has id `id`.
pub open spec fn has_id_outside(f: Seq<TaskView>, id: Seq<char>, x: Seq<char>) -> bool
    decreases f,
{
    f.len() > 0 && ((f[0].id != id && (f[0].id == x || has_id_outside(f[0].children, id, x)))
        || has_id_outside(f.drop_first(), id, x))
}

proof fn lemma_has_id_cons(t: TaskView, rest: Seq<TaskView>, x: Seq<char>)
    ensures
        has_id(seq![t] + rest, x) == (t.id == x || has_id(t.children, x) || has_id(rest, x)),
{
    let s = seq![t] + rest;
    assert(s[0] == t);
    assert(s.drop_first() =~= rest);
}

/// Removal takes out each task with the given id together with its whole
/// subtree: afterwards an id is found exactly where it stood outside those
/// subtrees, and the removed id is found nowhere.
pub proof fn law_remove_takes_subtree(f: Seq<TaskView>, id: Seq<char>, x: Seq<char>)
    ensures
        has_id(removed(f, id), x) <==> has_id_outside(f, id, x),
        !has_id(removed(f, id), id),
    decreases f,
{
    if f.len() > 0 {
        law_remove_takes_subtree(f[0].children, id, x);
        law_remove_takes_subtree(f.drop_first(), id, x);
        if f[0].id != id {
            lemma_has_id_cons(TaskView { children: removed(f[0].children, id), ..f[0] },
                removed(f.drop_first(), id), x);
            lemma_has_id_cons(TaskView { children: removed(f[0].children, id), ..f[0] },
                removed(f.drop_first(), id), id);
        }
    }
}

/// Whether a task with id `x` stands in the forest below a task with id `id`.
pub open spec fn has_id_under(f: Seq<TaskView>, id: Seq<char>, x: Seq<char>) -> bool
    decreases f,
{
    f.len() > 0 && ((f[0].id == id && has_id(f[0].children, x))
        || (f[0].id != id && has_id_under(f[0].children, id, x))
        || has_id_under(f.drop_first(), id, x))
}

proof fn lemma_count_cons(f: Seq<TaskView>, x: Seq<char>)
    requires
        f.len() > 0,
    ensures
        all_ids(f).to_multiset().count(x) == (if f[0].id == x { 1int } else { 0int })
            + all_ids(f[0].children).to_multiset().count(x)
            + all_ids(f.drop_first()).to_multiset().count(x),
{
    broadcast use vstd::seq_lib::lemma_multiset_commutative;
    broadcast use vstd::seq_lib::group_to_multiset_ensures;

    assert(seq![f[0].id] =~= Seq::<Seq<char>>::empty().push(f[0].id));
}

proof fn lemma_has_id_count(f: Seq<TaskView>, x: Seq<char>)
    ensures
        has_id(f, x) <==> all_ids(f).to_multiset().count(x) >= 1,
{
    broadcast use vstd::seq_lib::group_to_multiset_ensures;

    lemma_has_id_all_ids(f, x);
}

proof fn lemma_outside_has(f: Seq<TaskView>, id: Seq<char>, x: Seq<char>)
    ensures
        has_id_outside(f, id, x) ==> has_id(f, x),
        has_id_under(f, id, x) ==> has_id(f, x),
    decreases f,
{
    if f.len() > 0 {
        lemma_outside_has(f[0].children, id, x);
        lemma_outside_has(f.drop_first(), id, x);
    }
}

proof fn lemma_outside_under_count(f: Seq<TaskView>, id: Seq<char>, x: Seq<char>)
    requires
        has_id_outside(f, id, x),
        has_id_under(f, id, x),
    ensures
        all_ids(f).to_multiset().count(x) >= 2,
    decreases f,
{
    let ch = f[0].children;
    let tail = f.drop_first();
    lemma_count_cons(f, x);
    lemma_outside_has(ch, id, x);
    lemma_outside_has(tail, id, x);
    lemma_has_id_count(ch, x);
    lemma_has_id_count(tail, x);
    if has_id_outside(ch, id, x) && has_id_under(ch, id, x) && f[0].id != id {
        lemma_outside_under_count(ch, id, x);
    }
    if has_id_outside(tail, id, x) && has_id_under(tail, id, x) {
        lemma_outside_under_count(tail, id, x);
    }
}

proof fn lemma_find_under(f: Seq<TaskView>, id: Seq<char>, x: Seq<char>)
    requires
        find(f, id) is Some,
        has_id(find(f, id)->0.children, x),
    ensures
        has_id_under(f, id, x),
    decreases f,
{
    if f.len() > 0 && f[0].id != id {
        if has_id(f[0].children, id) {
            lemma_find_under(f[0].children, id, x);
        } else {
            lemma_find_under(f.drop_first(), id, x);
        }
    }
}

/// Where ids are unique, removing a task also removes every descendant of it:
/// none of them can be found afterwards.
pub proof fn law_remove_takes_descendants(f: Seq<TaskView>, id: Seq<char>, x: Seq<char>)
    requires
        unique_ids(f),
        find(f, id) is Some,
        has_id(find(f, id)->0.children, x),
    ensures
        !has_id(removed(f, id), x),
{
    broadcast use vstd::seq_lib::group_to_multiset_ensures;

    lemma_find_under(f, id, x);
    law_remove_takes_subtree(f, id, x);
    if has_id_outside(f, id, x) {
        lemma_outside_under_count(f, id, x);
        all_ids(f).lemma_multiset_has_no_duplicates();
    }
}

/// Whether the forest holds `t` as one of its tasks, at any level, with the
/// same subtree.
pub open spec fn holds_subtree(f: Seq<TaskView>, t: TaskView) -> bool
    decreases f,
{
    f.len() > 0 && (f[0] == t || holds_subtree(f[0].children, t) || holds_subtree(f.drop_first(), t))
}

proof fn lemma_holds_index(f: Seq<TaskView>, j: int)
    requires
        0 <= j < f.len(),
    ensures
        holds_subtree(f, f[j]),
    decreases f.len(),
{
    if j > 0 {
        lemma_holds_index(f.drop_first(), j - 1);
    }
}

proof fn lemma_extracted(f: Seq<TaskView>, id: Seq<char>)
    ensures
        extracted(f, id).1 is Some ==> {
            let t = extracted(f, id).1->0;
            &&& t.id == id
            &&& holds_subtree(f, t)
            &&& all_ids(extracted(f, id).0).to_multiset().add(all_ids(seq![t]).to_multiset())
                == all_ids(f).to_multiset()
        },
        extracted(f, id).1 is None ==> extracted(f, id).0 == f,
    decreases f, 1nat,
{
    broadcast use vstd::seq_lib::lemma_multiset_commutative;

    lemma_first_with(f, id);
    match first_with(f, id) {
        Some(j) => {
            lemma_holds_index(f, j);
            let l = f.subrange(0, j);
            let r = f.subrange(j + 1, f.len() as int);
            assert(f =~= l + seq![f[j]] + r);
            assert(f.remove(j) =~= l + r);
            lemma_all_ids_add(l, r);
            lemma_all_ids_add(l + seq![f[j]], r);
            lemma_all_ids_add(l, seq![f[j]]);
            assert(all_ids(f.remove(j)).to_multiset().add(all_ids(seq![f[j]]).to_multiset())
                =~= all_ids(f).to_multiset());
        },
        None => {
            lemma_extracted_below(f, id);
        },
    }
}

proof fn lemma_extracted_below(f: Seq<TaskView>, id: Seq<char>)
    ensures
        extracted_below(f, id).1 is Some ==> {
            let t = extracted_below(f, id).1->0;
            &&& t.id == id
            &&& holds_subtree(f, t)
            &&& all_ids(extracted_below(f, id).0).to_multiset().add(all_ids(seq![t]).to_multiset())
                == all_ids(f).to_multiset()
        },
        extracted_below(f, id).1 is None ==> extracted_below(f, id).0 == f,
    decreases f, 0nat,
{
    broadcast use vstd::seq_lib::lemma_multiset_commutative;

    if f.len() > 0 {
        let f0 = f[0];
        let tail = f.drop_first();
        assert(f =~= seq![f0] + tail);
        lemma_all_ids_cons(f0, tail);
        lemma_extracted(f0.children, id);
        let (c, r) = extracted(f0.children, id);
        if r is Some {
            let g = TaskView { children: c, ..f0 };
            lemma_all_ids_cons(g, tail);
            assert(all_ids(extracted_below(f, id).0).to_multiset().add(all_ids(seq![r->0]).to_multiset())
                =~= all_ids(f).to_multiset());
        } else {
            lemma_extracted_below(tail, id);
            let (rest, r2) = extracted_below(tail, id);
            lemma_all_ids_cons(f0, rest);
            if r2 is Some {
                assert(all_ids(extracted_below(f, id).0).to_multiset().add(all_ids(seq![r2->0]).to_multiset())
                    =~= all_ids(f).to_multiset());
            } else {
                assert(seq![f0] + rest =~= f);
            }
        }
    }
}

/// Moving a task carries it with its subtree unchanged: the task taken out is
/// one that stood in the forest, with its children; it is appended at the end
/// of the new parent's children, or of the top level where no parent is given;
/// and where ids are unique it stands nowhere else any more.
pub proof fn law_move_keeps_subtree(f: Seq<TaskView>, id: Seq<char>, parent: Option<Seq<char>>)
    requires
        has_id(f, id),
    ensures
        ({
            let (rest, r) = extracted(f, id);
            &&& r is Some
            &&& r->0.id == id
            &&& holds_subtree(f, r->0)
            &&& unique_ids(f) ==> !has_id(rest, id)
            &&& parent is None ==> moved(f, id, parent) == rest.push(r->0)
            &&& (parent is Some && has_id(rest, parent->0)) ==> find(moved(f, id, parent), parent->0)
                == Some(applied(find(rest, parent->0)->0, EditView::AddChild(r->0)))
        }),
{
    broadcast use vstd::seq_lib::group_to_multiset_ensures;

    lemma_extract_finds(f, id);
    lemma_extracted(f, id);
    let (rest, r) = extracted(f, id);
    let t = r->0;
    if unique_ids(f) {
        all_ids(f).lemma_multiset_has_no_duplicates();
        lemma_all_ids_cons(t, Seq::empty());
        assert(seq![t] + Seq::<TaskView>::empty() =~= seq![t]);
        assert(all_ids(seq![t])[0] == id);
        assert(all_ids(seq![t]).to_multiset().count(id) >= 1);
        let total = all_ids(f).to_multiset();
        assert(total.count(id) == all_ids(rest).to_multiset().count(id) + all_ids(seq![t]).to_multiset().count(id));
        assert(total.contains(id));
        assert(total.count(id) == 1);
        assert(!all_ids(rest).to_multiset().contains(id));
        lemma_has_id_all_ids(rest, id);
    }
    if parent is Some && has_id(rest, parent->0) {
        lemma_find_edited(rest, parent->0, EditView::AddChild(t));
        assert(moved(f, id, parent) == edited(rest, parent->0, EditView::AddChild(t)));
    }
    assert(r is Some);
    assert(t.id == id);
    assert(holds_subtree(f, t));
    assert(unique_ids(f) ==> !has_id(rest, id));
    assert(parent is None ==> moved(f, id, parent) == rest.push(t));
}

proof fn lemma_extract_finds(f: Seq<TaskView>, id: Seq<char>)
    requires
        has_id(f, id),
    ensures
        extracted(f, id).1 is Some,
    decreases f, 1nat,
{
    lemma_first_with(f, id);
    if first_with(f, id) is None {
        lemma_extract_below_finds(f, id);
    }
}

proof fn lemma_extract_below_finds(f: Seq<TaskView>, id: Seq<char>)
    requires
        has_id(f, id),
        forall|k: int| 0 <= k < f.len() ==> f[k].id != id,
    ensures
        extracted_below(f, id).1 is Some,
    decreases f, 0nat,
{
    if f.len() > 0 {
        if has_id(f[0].children, id) {
            lemma_extract_finds(f[0].children, id);
        } else {
            lemma_extracted(f[0].children, id);
            let tail = f.drop_first();
            assert forall|k: int| 0 <= k < tail.len() implies tail[k].id != id by {
                assert(tail[k] == f[k + 1]);
            }
            lemma_extract_below_finds(tail, id);
        }
    }
}

proof fn lemma_has_id_edited(f: Seq<TaskView>, id: Seq<char>, e: EditView)
    requires
        has_id(f, id),
    ensures
        has_id(edited(f, id, e), id),
    decreases f,
{
    if f.len() > 0 {
        if f[0].id == id {
            lemma_has_id_cons(applied(f[0], e), f.drop_first(), id);
        } else if has_id(f[0].children, id) {
            lemma_has_id_edited(f[0].children, id, e);
            lemma_has_id_cons(TaskView { children: edited(f[0].children, id, e), ..f[0] }, f.drop_first(), id);
        } else {
            lemma_has_id_edited(f.drop_first(), id, e);
            lemma_has_id_cons(f[0], edited(f.drop_first(), id, e), id);
        }
    }
}

/// After a change to the first task with an id, that task is found changed
/// where it stood.
pub proof fn lemma_find_edited(f: Seq<TaskView>, id: Seq<char>, e: EditView)
    requires
        has_id(f, id),
    ensures
        find(edited(f, id, e), id) == Some(applied(find(f, id)->0, e)),
    decreases f,
{
    if f.len() > 0 {
        let tail = f.drop_first();
        if f[0].id == id {
            let s = seq![applied(f[0], e)] + tail;
            assert(s[0] == applied(f[0], e));
        } else if has_id(f[0].children, id) {
            lemma_find_edited(f[0].children, id, e);
            lemma_has_id_edited(f[0].children, id, e);
            let g = TaskView { children: edited(f[0].children, id, e), ..f[0] };
            let s = seq![g] + tail;
            assert(s[0] == g);
        } else {
            lemma_find_edited(tail, id, e);
            let s = seq![f[0]] + edited(tail, id, e);
            assert(s[0] == f[0]);
            assert(s.drop_first() =~= edited(tail, id, e));
        }
    }
}

proof fn lemma_empty_ids_multiset()
    ensures
        all_ids(Seq::<TaskView>::empty()).to_multiset() == Multiset::<Seq<char>>::empty(),
{
    broadcast use vstd::seq_lib::group_to_multiset_ensures;
    broadcast use vstd::multiset::lemma_multiset_empty_len;

    assert(all_ids(Seq::<TaskView>::empty()) =~= Seq::<Seq<char>>::empty());
    assert(all_ids(Seq::<TaskView>::empty()).to_multiset().len() == 0);
}

/// A forest whose ids, counted with repeats, are among those of a forest with
/// unique ids has unique ids too.
pub proof fn lemma_unique_sub(f: Seq<TaskView>, g: Seq<TaskView>)
    requires
        unique_ids(f),
        all_ids(g).to_multiset().subset_of(all_ids(f).to_multiset()),
    ensures
        unique_ids(g),
{
    broadcast use vstd::seq_lib::group_to_multiset_ensures;

    all_ids(f).lemma_multiset_has_no_duplicates();
    assert forall|x: Seq<char>| all_ids(g).to_multiset().contains(x) implies all_ids(g).to_multiset().count(x) == 1 by {
        assert(all_ids(f).to_multiset().contains(x));
    }
    all_ids(g).lemma_multiset_has_no_duplicates_conv();
}

proof fn lemma_ids_reorder_from(rest: Seq<TaskView>, placed: Seq<TaskView>, o: Seq<Seq<char>>)
    ensures
        all_ids(reorder_from(rest, placed, o)).to_multiset()
            == all_ids(placed).to_multiset().add(all_ids(rest).to_multiset()),
    decreases o.len(),
{
    broadcast use vstd::seq_lib::lemma_multiset_commutative;

    if o.len() == 0 {
        lemma_all_ids_add(placed, rest);
    } else {
        lemma_first_with(rest, o[0]);
        match first_with(rest, o[0]) {
            Some(j) => {
                lemma_ids_reorder_from(rest.remove(j), placed.push(rest[j]), o.drop_first());
                let l = rest.subrange(0, j);
                let r = rest.subrange(j + 1, rest.len() as int);
                assert(rest =~= l + seq![rest[j]] + r);
                assert(rest.remove(j) =~= l + r);
                assert(placed.push(rest[j]) =~= placed + seq![rest[j]]);
                lemma_all_ids_add(l, r);
                lemma_all_ids_add(l + seq![rest[j]], r);
                lemma_all_ids_add(l, seq![rest[j]]);
                lemma_all_ids_add(placed, seq![rest[j]]);
                assert(all_ids(reorder_from(rest, placed, o)).to_multiset()
                    =~= all_ids(placed).to_multiset().add(all_ids(rest).to_multiset()));
            },
            None => {
                lemma_ids_reorder_from(rest, placed, o.drop_first());
            },
        }
    }
}

/// Retitling, toggling or reordering children changes no id, counted with repeats.
proof fn lemma_ids_edited_same(f: Seq<TaskView>, p: Seq<char>, e: EditView)
    requires
        !(e is AddChild),
    ensures
        all_ids(edited(f, p, e)).to_multiset() == all_ids(f).to_multiset(),
    decreases f,
{
    broadcast use vstd::seq_lib::lemma_multiset_commutative;

    if f.len() > 0 {
        let f0 = f[0];
        let tail = f.drop_first();
        lemma_all_ids_cons(f0, tail);
        if f0.id == p {
            let g = applied(f0, e);
            lemma_all_ids_cons(g, tail);
            if let EditView::Reorder(o) = e {
                lemma_ids_reorder_from(f0.children, Seq::empty(), o);
                lemma_empty_ids_multiset();
                assert(all_ids(g.children).to_multiset() =~= all_ids(f0.children).to_multiset());
            }
            assert(all_ids(edited(f, p, e)).to_multiset() =~= all_ids(f).to_multiset());
        } else if has_id(f0.children, p) {
            lemma_ids_edited_same(f0.children, p, e);
            let g = TaskView { children: edited(f0.children, p, e), ..f0 };
            lemma_all_ids_cons(g, tail);
            assert(all_ids(edited(f, p, e)).to_multiset() =~= all_ids(f).to_multiset());
        } else {
            lemma_ids_edited_same(tail, p, e);
            lemma_all_ids_cons(f0, edited(tail, p, e));
            assert(all_ids(edited(f, p, e)).to_multiset() =~= all_ids(f).to_multiset());
        }
    }
}

proof fn lemma_ids_removed(f: Seq<TaskView>, id: Seq<char>)
    ensures
        all_ids(removed(f, id)).to_multiset().subset_of(all_ids(f).to_multiset()),
    decreases f,
{
    broadcast use vstd::seq_lib::lemma_multiset_commutative;

    if f.len() > 0 {
        let f0 = f[0];
        let tail = f.drop_first();
        lemma_all_ids_cons(f0, tail);
        lemma_ids_removed(f0.children, id);
        lemma_ids_removed(tail, id);
        if f0.id != id {
            lemma_all_ids_cons(TaskView { children: removed(f0.children, id), ..f0 }, removed(tail, id));
        }
    }
}

/// Renaming, toggling and reordering keep the ids of the forest pairwise
/// distinct.
pub proof fn law_edit_keeps_ids_unique(f: Seq<TaskView>, p: Seq<char>, e: EditView)
    requires
        unique_ids(f),
        !(e is AddChild),
    ensures
        unique_ids(edited(f, p, e)),
{
    lemma_ids_edited_same(f, p, e);
    lemma_unique_sub(f, edited(f, p, e));
}

/// Reordering the top level keeps the ids of the forest pairwise distinct.
pub proof fn law_reorder_keeps_ids_unique(f: Seq<TaskView>, o: Seq<Seq<char>>)
    requires
        unique_ids(f),
    ensures
        unique_ids(reordered(f, o)),
{
    lemma_ids_reorder_from(f, Seq::empty(), o);
    lemma_empty_ids_multiset();
    assert(all_ids(reordered(f, o)).to_multiset() =~= all_ids(f).to_multiset());
    lemma_unique_sub(f, reordered(f, o));
}

/// Removal keeps the ids of the forest pairwise distinct.
pub proof fn law_remove_keeps_ids_unique(f: Seq<TaskView>, id: Seq<char>)
    requires
        unique_ids(f),
    ensures
        unique_ids(removed(f, id)),
{
    lemma_ids_removed(f, id);
    lemma_unique_sub(f, removed(f, id));
}

/// Moving keeps the ids of the forest pairwise distinct.
pub proof fn law_move_keeps_ids_unique(f: Seq<TaskView>, id: Seq<char>, parent: Option<Seq<char>>)
    requires
        unique_ids(f),
    ensures
        unique_ids(moved(f, id, parent)),
{
    broadcast use vstd::seq_lib::lemma_multiset_commutative;

    lemma_extracted(f, id);
    let (rest, r) = extracted(f, id);
    if let Some(t) = r {
        let total = all_ids(f).to_multiset();
        match parent {
            Some(p) => {
                lemma_ids_add_child(rest, p, t);
            },
            None => {
                lemma_all_ids_add(rest, seq![t]);
                assert(rest.push(t) =~= rest + seq![t]);
            },
        }
        assert(all_ids(moved(f, id, parent)).to_multiset().subset_of(total));
        lemma_unique_sub(f, moved(f, id, parent));
    }
}

} // verus!
