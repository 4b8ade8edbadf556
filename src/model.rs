use vstd::prelude::*;

verus! {

/// Declares `std::path::PathBuf` so that the store's location can be held.
#[verifier::external_type_specification]
#[verifier::external_body]
pub struct ExPathBuf(std::path::PathBuf);

/// A task with its owned subtasks.
#[derive(Debug)]
pub struct Task {
    pub id: String,
    pub title: String,
    pub completed: bool,
    pub children: Vec<Task>,
    pub order: usize,
}

/// The mathematical value of a task.
pub struct TaskView {
    pub id: Seq<char>,
    pub title: Seq<char>,
    pub completed: bool,
    pub children: Seq<TaskView>,
    pub order: nat,
}

/// The location of the file that holds the tree.
pub struct TaskPath(pub std::path::PathBuf);

/// What an operation on the tree can fail with.
#[derive(Debug, PartialEq, Eq)]
pub enum TaskError {
    /// No task carries the given id.
    NotFound(String),
    /// The id meant for a new task is already in use.
    DuplicateId(String),
}

impl Task {
    /// The task's value, with the values of its whole subtree.
    pub open spec fn view(self) -> TaskView
        decreases self,
    {
        TaskView {
            id: self.id@,
            title: self.title@,
            completed: self.completed,
            children: views_of(self.children@),
            order: self.order as nat,
        }
    }
}

/// The values of a sequence of tasks, one for one.
pub open spec fn views_of(s: Seq<Task>) -> Seq<TaskView>
    decreases s,
{
    if s.len() == 0 {
        Seq::empty()
    } else {
        seq![s[0].view()] + views_of(s.drop_first())
    }
}


/// `views_of` keeps the length and takes the value of each task in place.
pub proof fn lemma_views_of(s: Seq<Task>)
    ensures
        views_of(s).len() == s.len(),
        forall|i: int| 0 <= i < s.len() ==> #[trigger] views_of(s)[i] == s[i].view(),
    decreases s.len(),
{
    if s.len() > 0 {
        lemma_views_of(s.drop_first());
        assert forall|i: int| 0 <= i < s.len() implies #[trigger] views_of(s)[i] == s[i].view() by {
            if i > 0 {
                assert(s.drop_first()[i - 1] == s[i]);
            }
        }
    }
}

/// Two sequences of tasks with the same values, one for one, have the same views.
pub proof fn lemma_views_of_ext(a: Seq<Task>, b: Seq<Task>)
    requires
        a.len() == b.len(),
        forall|i: int| 0 <= i < a.len() ==> #[trigger] a[i].view() == b[i].view(),
    ensures
        views_of(a) == views_of(b),
{
    lemma_views_of(a);
    lemma_views_of(b);
    assert(views_of(a) =~= views_of(b));
}

/// The views of a concatenation are the concatenation of the views.
pub proof fn lemma_views_of_add(a: Seq<Task>, b: Seq<Task>)
    ensures
        views_of(a + b) == views_of(a) + views_of(b),
{
    lemma_views_of(a);
    lemma_views_of(b);
    lemma_views_of(a + b);
    assert(views_of(a + b) =~= views_of(a) + views_of(b));
}

/// The views of a sequence with one more task.
pub proof fn lemma_views_of_push(a: Seq<Task>, t: Task)
    ensures
        views_of(a.push(t)) == views_of(a).push(t.view()),
{
    lemma_views_of(a);
    lemma_views_of(a.push(t));
    assert(views_of(a.push(t)) =~= views_of(a).push(t.view()));
}

/// The views of a sequence without its first task.
pub proof fn lemma_views_of_drop_first(a: Seq<Task>)
    requires
        a.len() > 0,
    ensures
        views_of(a.drop_first()) == views_of(a).drop_first(),
{
    lemma_views_of(a);
    lemma_views_of(a.drop_first());
    assert(views_of(a.drop_first()) =~= views_of(a).drop_first());
}

/// The views of a sequence without the task at index `j`.
pub proof fn lemma_views_of_remove(a: Seq<Task>, j: int)
    requires
        0 <= j < a.len(),
    ensures
        views_of(a.remove(j)) == views_of(a).remove(j),
{
    lemma_views_of(a);
    lemma_views_of(a.remove(j));
    assert(views_of(a.remove(j)) =~= views_of(a).remove(j));
}

impl Clone for Task {
    fn clone(&self) -> (r: Task)
        ensures
            r.view() == self.view(),
    {
        self.duplicate()
    }
}

impl Task {
    /// A deep copy of the task and its whole subtree.
    pub fn duplicate(&self) -> (r: Task)
        ensures
            r.view() == self.view(),
        decreases self,
    {
        let mut kids: Vec<Task> = Vec::new();
        let mut i: usize = 0;
        while i < self.children.len()
            invariant
                i <= self.children@.len(),
                kids@.len() == i,
                forall|j: int| 0 <= j < i ==> #[trigger] kids@[j].view() == self.children@[j].view(),
            decreases self.children@.len() - i,
        {
            proof {
                assert(decreases_to!(self.children@ => self.children@[i as int]));
            }
            let c = self.children[i].duplicate();
            kids.push(c);
            i = i + 1;
        }
        proof {
            lemma_views_of_ext(kids@, self.children@);
        }
        Task {
            id: self.id.clone(),
            title: self.title.clone(),
            completed: self.completed,
            children: kids,
            order: self.order,
        }
    }
}

} // verus!
