//! Projects and nested todos: nesting order, depth, completion rules over the tree, and the
//! project a new todo belongs to.
use vstd::prelude::*;

use crate::calendar::{in_time_range, minute_at, minute_text, zone_offset};
use crate::text::{push_str, signed_decimal, signed_decimal_string, str_eq};

verus! {

/// How deep todos may nest (a todo, its subtask, and the subtask's subtask).
pub const MAX_DEPTH: usize = 3;

/// A project tab.
#[derive(Clone, Debug, PartialEq)]
pub struct Project {
    pub id: i64,
    pub name: String,
    pub position: i64,
}

/// A todo: its text, creation time (Unix seconds), completion, parent, folding, order within
/// its siblings, and project.
#[derive(Clone, Debug)]
pub struct Todo {
    pub id: i64,
    pub text: String,
    pub created_at: i64,
    pub done: bool,
    pub parent_id: Option<i64>,
    pub collapsed: bool,
    pub position: i64,
    pub project_id: i64,
}

/// A copy of a todo.
pub fn copy_todo(t: &Todo) -> (res: Todo)
    ensures
        res == *t,
{
    Todo {
        id: t.id,
        text: t.text.clone(),
        created_at: t.created_at,
        done: t.done,
        parent_id: t.parent_id,
        collapsed: t.collapsed,
        position: t.position,
        project_id: t.project_id,
    }
}

impl Todo {
    /// The creation time as local `YYYY-MM-DD HH:MM`, or `"?"` when chrono cannot represent
    /// it (see [`minute_text`]).
    pub fn created_at_string(&self) -> (res: String)
        ensures
            !in_time_range(self.created_at) ==> res@ == "?"@,
            in_time_range(self.created_at) ==> exists|offset: int|
                zone_offset(offset) && res@ == #[trigger] minute_at(self.created_at, offset),
    {
        minute_text(self.created_at)
    }
}

/// Why a todo command cannot proceed.
#[derive(Clone, Debug, PartialEq)]
pub enum TodoError {
    /// No todo has this id.
    NotFound(i64),
    /// A parent on the way to the root is missing.
    ParentNotFound(i64),
    /// A subtask would go deeper than [`MAX_DEPTH`].
    TooDeep,
    /// A subtask was asked for in another project than its parent's.
    ProjectMismatch,
    /// No project has this name.
    ProjectNotFound(String),
    /// There is no project at all.
    NoProjects,
}

/// The message of a todo error.
pub open spec fn todo_error_message(e: TodoError) -> Seq<char> {
    match e {
        TodoError::NotFound(id) => "#"@ + signed_decimal(id as int) + " 할 일을 찾을 수 없습니다"@,
        TodoError::ParentNotFound(id) => "#"@ + signed_decimal(id as int)
            + " 상위 할 일을 찾을 수 없습니다"@,
        TodoError::TooDeep => "하위 목표는 3단계까지만 넣을 수 있습니다"@,
        TodoError::ProjectMismatch => "상위 할 일과 같은 프로젝트에만 하위 목표를 추가할 수 있습니다"@,
        TodoError::ProjectNotFound(name) => "프로젝트 '"@ + name@ + "'을(를) 찾을 수 없습니다"@,
        TodoError::NoProjects => "프로젝트가 없습니다"@,
    }
}

impl TodoError {
    /// The message shown to the user.
    pub fn message(&self) -> (res: String)
        ensures
            res@ == todo_error_message(*self),
    {
        match self {
            TodoError::NotFound(id) => {
                let mut s = String::from_str("#");
                push_str(&mut s, signed_decimal_string(*id).as_str());
                push_str(&mut s, " 할 일을 찾을 수 없습니다");
                s
            },
            TodoError::ParentNotFound(id) => {
                let mut s = String::from_str("#");
                push_str(&mut s, signed_decimal_string(*id).as_str());
                push_str(&mut s, " 상위 할 일을 찾을 수 없습니다");
                s
            },
            TodoError::TooDeep => String::from_str("하위 목표는 3단계까지만 넣을 수 있습니다"),
            TodoError::ProjectMismatch => String::from_str(
                "상위 할 일과 같은 프로젝트에만 하위 목표를 추가할 수 있습니다",
            ),
            TodoError::ProjectNotFound(name) => {
                let mut s = String::from_str("프로젝트 '");
                push_str(&mut s, name.as_str());
                push_str(&mut s, "'을(를) 찾을 수 없습니다");
                s
            },
            TodoError::NoProjects => String::from_str("프로젝트가 없습니다"),
        }
    }
}

// ---------------------------------------------------------------------------
// Lookup
/// The first index of a todo with this id in `t`, or -1.
pub open spec fn index_of_id(t: Seq<Todo>, id: i64) -> int
    decreases t.len(),
{
    if t.len() == 0 {
        -1
    } else if t.last().id == id && index_of_id(t.drop_last(), id) < 0 {
        t.len() - 1
    } else {
        index_of_id(t.drop_last(), id)
    }
}

pub proof fn lemma_index_of_id(t: Seq<Todo>, id: i64)
    ensures
        -1 <= index_of_id(t, id) < t.len(),
        index_of_id(t, id) >= 0 ==> t[index_of_id(t, id)].id == id,
        forall|j: int|
            0 <= j < t.len() && (index_of_id(t, id) < 0 || j < index_of_id(t, id)) ==> t[j].id
                != id,
    decreases t.len(),
{
    if t.len() > 0 {
        lemma_index_of_id(t.drop_last(), id);
        assert forall|j: int|
            0 <= j < t.len() && (index_of_id(t, id) < 0 || j < index_of_id(t, id)) implies t[j].id
            != id by {
            if j < t.len() - 1 {
                assert(t[j] == t.drop_last()[j]);
            }
        }
    }
}

/// The first index of a todo with this id (see [`index_of_id`]).
pub fn find_todo(todos: &Vec<Todo>, id: i64) -> (res: Option<usize>)
    ensures
        match res {
            Some(i) => index_of_id(todos@, id) == i && i < todos.len(),
            None => index_of_id(todos@, id) < 0,
        },
{
    proof {
        lemma_index_of_id(todos@, id);
    }
    let mut i: usize = 0;
    while i < todos.len()
        invariant
            i <= todos.len(),
            forall|j: int| 0 <= j < i ==> todos@[j].id != id,
        decreases todos.len() - i,
    {
        if todos[i].id == id {
            proof {
                lemma_index_of_id(todos@, id);
                let k = index_of_id(todos@, id);
                if k < 0 || k > i {
                    assert(todos@[i as int].id != id);
                }
            }
            return Some(i);
        }
        i += 1;
    }
    proof {
        lemma_index_of_id(todos@, id);
        let k = index_of_id(todos@, id);
        if k >= 0 {
            assert(todos@[k].id == id);
        }
    }
    None
}

// ---------------------------------------------------------------------------
// Nesting
/// The indices of the todos under `parent`, from index `k` of `t` on, in nesting order: each
/// child in list order, followed by everything under it. `None` when following children needs
/// more than `fuel` levels (children that lead back to their own ancestors never end).
pub open spec fn nest_indices(t: Seq<Todo>, parent: Option<i64>, fuel: nat, k: int) -> Option<
    Seq<int>,
>
    decreases fuel, t.len() - k,
{
    if k >= t.len() || k < 0 {
        Some(Seq::empty())
    } else if t[k].parent_id == parent {
        if fuel == 0 {
            None
        } else {
            match (nest_indices(t, Some(t[k].id), (fuel - 1) as nat, 0), nest_indices(t, parent, fuel, k + 1)) {
                (Some(a), Some(b)) => Some(seq![k] + a + b),
                _ => None,
            }
        }
    } else {
        nest_indices(t, parent, fuel, k + 1)
    }
}

/// The indices of the todos under `parent` in nesting order, when following children ends.
pub open spec fn nested_under(t: Seq<Todo>, parent: Option<i64>) -> Option<Seq<int>> {
    nest_indices(t, parent, t.len(), 0)
}

/// Every index of a nesting order is an index of `t`.
pub proof fn lemma_nest_indices_in_range(t: Seq<Todo>, parent: Option<i64>, fuel: nat, k: int)
    requires
        nest_indices(t, parent, fuel, k) is Some,
    ensures
        forall|i: int|
            0 <= i < nest_indices(t, parent, fuel, k).unwrap().len() ==> 0 <= #[trigger] nest_indices(
                t,
                parent,
                fuel,
                k,
            ).unwrap()[i] < t.len(),
    decreases fuel, t.len() - k,
{
    if k >= t.len() || k < 0 {
    } else if t[k].parent_id == parent {
        lemma_nest_indices_in_range(t, Some(t[k].id), (fuel - 1) as nat, 0);
        lemma_nest_indices_in_range(t, parent, fuel, k + 1);
        let a = nest_indices(t, Some(t[k].id), (fuel - 1) as nat, 0).unwrap();
        let b = nest_indices(t, parent, fuel, k + 1).unwrap();
        let r = seq![k] + a + b;
        assert forall|i: int| 0 <= i < r.len() implies 0 <= #[trigger] r[i] < t.len() by {
            if i >= 1 + a.len() {
                assert(r[i] == b[i - 1 - a.len()]);
            } else if i >= 1 {
                assert(r[i] == a[i - 1]);
            }
        }
    } else {
        lemma_nest_indices_in_range(t, parent, fuel, k + 1);
    }
}

/// Whether two optional ids are equal.
fn opt_id_eq(a: Option<i64>, b: Option<i64>) -> (res: bool)
    ensures
        res == (a == b),
{
    match (a, b) {
        (Some(x), Some(y)) => x == y,
        (None, None) => true,
        _ => false,
    }
}

/// Appends the nesting order under `parent` to `out`.
fn nest_rec(all: &Vec<Todo>, parent: Option<i64>, Ghost(fuel): Ghost<nat>, out: &mut Vec<usize>)
    requires
        nest_indices(all@, parent, fuel, 0) is Some,
    ensures
        final(out)@.map_values(|i: usize| i as int) == old(out)@.map_values(|i: usize| i as int)
            + nest_indices(all@, parent, fuel, 0).unwrap(),
    decreases fuel,
{
    let ghost start = out@.map_values(|i: usize| i as int);
    let ghost total = nest_indices(all@, parent, fuel, 0).unwrap();
    for k in 0..all.len()
        invariant
            nest_indices(all@, parent, fuel, 0) == Some(total),
            nest_indices(all@, parent, fuel, k as int) is Some,
            start + total == out@.map_values(|i: usize| i as int) + nest_indices(
                all@,
                parent,
                fuel,
                k as int,
            ).unwrap(),
    {
        if opt_id_eq(all[k].parent_id, parent) {
            let ghost before = out@.map_values(|i: usize| i as int);
            let ghost a = nest_indices(all@, Some(all@[k as int].id), (fuel - 1) as nat, 0).unwrap();
            let ghost b = nest_indices(all@, parent, fuel, k + 1).unwrap();
            out.push(k);
            assert(out@.map_values(|i: usize| i as int) =~= before.push(k as int));
            nest_rec(all, Some(all[k].id), Ghost((fuel - 1) as nat), out);
            assert(before + (seq![k as int] + a + b) =~= (before.push(k as int) + a) + b);
        }
    }
    assert(out@.map_values(|i: usize| i as int) + Seq::<int>::empty() =~= out@.map_values(
        |i: usize| i as int,
    ));
}

/// The todos under `parent`, in nesting order, appended to `out` (children in list order,
/// each followed by its own subtree).
pub fn push_nested(all: &Vec<Todo>, parent: Option<i64>, out: &mut Vec<Todo>)
    requires
        nested_under(all@, parent) is Some,
    ensures
        final(out)@ == old(out)@ + nested_under(all@, parent).unwrap().map_values(|i: int| all@[i]),
{
    let mut order: Vec<usize> = Vec::new();
    nest_rec(all, parent, Ghost(all@.len()), &mut order);
    let ghost idx = nested_under(all@, parent).unwrap();
    proof {
        lemma_nest_indices_in_range(all@, parent, all@.len(), 0);
        assert(order@.map_values(|i: usize| i as int) =~= Seq::<int>::empty() + idx);
    }
    let ghost start = out@;
    for j in 0..order.len()
        invariant
            order@.map_values(|i: usize| i as int) == idx,
            forall|i: int| 0 <= i < idx.len() ==> 0 <= #[trigger] idx[i] < all@.len(),
            out@ == start + idx.take(j as int).map_values(|i: int| all@[i]),
    {
        assert(order@[j as int] as int == idx[j as int]);
        let t = copy_todo(&all[order[j]]);
        out.push(t);
        assert(idx.take(j + 1).map_values(|i: int| all@[i]) =~= idx.take(j as int).map_values(
            |i: int| all@[i],
        ).push(all@[idx[j as int]]));
    }
    assert(idx.take(order.len() as int) =~= idx);
}

// ---------------------------------------------------------------------------
// Depth
/// How many parents a todo whose parent id is `pid` has: parents are looked up by id until
/// one is missing. `None` when that takes more than `fuel` steps (a parent cycle never ends).
pub open spec fn depth_spec(t: Seq<Todo>, pid: Option<i64>, fuel: nat) -> Option<nat>
    decreases fuel,
{
    match pid {
        None => Some(0),
        Some(p) => {
            let i = index_of_id(t, p);
            if i < 0 {
                Some(0)
            } else if fuel == 0 {
                None
            } else {
                match depth_spec(t, t[i].parent_id, (fuel - 1) as nat) {
                    Some(d) => Some(d + 1),
                    None => None,
                }
            }
        },
    }
}

/// The depth of a todo in a list (top level is 0): its ancestors found by following parents.
pub fn depth_of(todos: &Vec<Todo>, todo: &Todo) -> (res: usize)
    requires
        depth_spec(todos@, todo.parent_id, todos@.len()) is Some,
    ensures
        res == depth_spec(todos@, todo.parent_id, todos@.len()).unwrap(),
{
    let ghost n = todos@.len();
    let mut pid = todo.parent_id;
    let mut count: usize = 0;
    let ghost mut fuel: nat = n;
    proof {
        lemma_index_of_id(todos@, 0);
    }
    loop
        invariant
            depth_spec(todos@, pid, fuel) is Some,
            depth_spec(todos@, todo.parent_id, n) is Some,
            count + depth_spec(todos@, pid, fuel).unwrap() == depth_spec(
                todos@,
                todo.parent_id,
                n,
            ).unwrap(),
            count + fuel <= n,
            n == todos@.len(),
        decreases fuel,
    {
        match pid {
            None => {
                return count;
            },
            Some(p) => {
                match find_todo(todos, p) {
                    None => {
                        return count;
                    },
                    Some(i) => {
                        proof {
                            lemma_index_of_id(todos@, p);
                        }
                        pid = todos[i].parent_id;
                        count = count + 1;
                        proof {
                            fuel = (fuel - 1) as nat;
                        }
                    },
                }
            },
        }
    }
}

/// Checks that a subtask can go under `parent_id`: the parent exists and is not already at
/// the deepest level.
pub fn ensure_depth(todos: &Vec<Todo>, parent_id: i64) -> (res: Result<(), TodoError>)
    requires
        index_of_id(todos@, parent_id) >= 0 ==> depth_spec(
            todos@,
            todos@[index_of_id(todos@, parent_id)].parent_id,
            todos@.len(),
        ) is Some,
    ensures
        index_of_id(todos@, parent_id) < 0 ==> res == Err::<(), TodoError>(
            TodoError::NotFound(parent_id),
        ),
        index_of_id(todos@, parent_id) >= 0 ==> (res is Ok <==> depth_spec(
            todos@,
            todos@[index_of_id(todos@, parent_id)].parent_id,
            todos@.len(),
        ).unwrap() + 1 < MAX_DEPTH),
        res is Err ==> index_of_id(todos@, parent_id) < 0 || res == Err::<(), TodoError>(
            TodoError::TooDeep,
        ),
{
    match find_todo(todos, parent_id) {
        None => Err(TodoError::NotFound(parent_id)),
        Some(i) => {
            let d = depth_of(todos, &todos[i]);
            if d >= MAX_DEPTH - 1 {
                Err(TodoError::TooDeep)
            } else {
                Ok(())
            }
        },
    }
}

// ---------------------------------------------------------------------------
// Completion over the tree
/// The ids of the ancestors of a todo whose parent id is `pid`, nearest first; `Err` with the
/// first parent id that is missing; `None` when that takes more than `fuel` steps.
pub open spec fn ancestors_spec(t: Seq<Todo>, pid: Option<i64>, fuel: nat) -> Option<
    Result<Seq<i64>, i64>,
>
    decreases fuel,
{
    match pid {
        None => Some(Ok(Seq::empty())),
        Some(p) => {
            let i = index_of_id(t, p);
            if i < 0 {
                Some(Err(p))
            } else if fuel == 0 {
                None
            } else {
                match ancestors_spec(t, t[i].parent_id, (fuel - 1) as nat) {
                    Some(Ok(r)) => Some(Ok(seq![t[i].id] + r)),
                    other => other,
                }
            }
        },
    }
}

/// The completion changes for setting todo `id` to `done`: the todo and everything under it
/// take `done`; reopening also reopens every ancestor. `None` when the tree walks never end.
pub open spec fn done_updates_spec(t: Seq<Todo>, id: i64, done: bool) -> Option<
    Result<Seq<(i64, bool)>, TodoError>,
> {
    let i = index_of_id(t, id);
    if i < 0 {
        Some(Err(TodoError::NotFound(id)))
    } else {
        match nested_under(t, Some(t[i].id)) {
            None => None,
            Some(d) => {
                let base = seq![(id, done)] + d.map_values(|k: int| (t[k].id, done));
                if done {
                    Some(Ok(base))
                } else {
                    match ancestors_spec(t, t[i].parent_id, t.len()) {
                        None => None,
                        Some(Err(p)) => Some(Err(TodoError::ParentNotFound(p))),
                        Some(Ok(a)) => Some(Ok(base + a.map_values(|x: i64| (x, false)))),
                    }
                }
            },
        }
    }
}

/// The completion changes for setting a todo to `done` (see [`done_updates_spec`]).
pub fn set_done_with_tree_rules(todos: &Vec<Todo>, id: i64, done: bool) -> (res: Result<
    Vec<(i64, bool)>,
    TodoError,
>)
    requires
        done_updates_spec(todos@, id, done) is Some,
    ensures
        match (res, done_updates_spec(todos@, id, done).unwrap()) {
            (Ok(u), Ok(s)) => u@ == s,
            (Err(e), Err(f)) => e == f,
            _ => false,
        },
{
    let i = match find_todo(todos, id) {
        None => return Err(TodoError::NotFound(id)),
        Some(i) => i,
    };
    proof {
        lemma_index_of_id(todos@, id);
    }
    let mut updates: Vec<(i64, bool)> = Vec::new();
    updates.push((todos[i].id, done));
    append_descendants(todos, todos[i].id, done, &mut updates);
    let ghost d0 = nested_under(todos@, Some(todos@[i as int].id)).unwrap();
    assert(updates@ == seq![(id, done)] + d0.map_values(|k: int| (todos@[k].id, done))) by {
        assert(seq![(todos@[i as int].id, done)] + d0.map_values(|k: int| (todos@[k].id, done))
            =~= seq![(id, done)] + d0.map_values(|k: int| (todos@[k].id, done)));
    }
    if !done {
        let ghost n = todos@.len();
        let ghost base = updates@;
        let mut parent_id = todos[i].parent_id;
        let ghost mut fuel: nat = n;
        let ghost total = ancestors_spec(todos@, todos@[i as int].parent_id, n);
        let ghost d = nested_under(todos@, Some(todos@[i as int].id)).unwrap();
        assert(base == seq![(id, done)] + d.map_values(|k: int| (todos@[k].id, done)));
        loop
            invariant
                n == todos@.len(),
                !done,
                index_of_id(todos@, id) == i,
                i < todos@.len(),
                nested_under(todos@, Some(todos@[i as int].id)) == Some(d),
                base == seq![(id, done)] + d.map_values(|k: int| (todos@[k].id, done)),
                done_updates_spec(todos@, id, done) is Some,
                total == ancestors_spec(todos@, todos@[i as int].parent_id, n),
                total is Some,
                ancestors_spec(todos@, parent_id, fuel) is Some,
                match total.unwrap() {
                    Ok(all) => match ancestors_spec(todos@, parent_id, fuel).unwrap() {
                        Ok(rest) => base + all.map_values(|x: i64| (x, false)) == updates@
                            + rest.map_values(|x: i64| (x, false)),
                        Err(_) => false,
                    },
                    Err(p) => ancestors_spec(todos@, parent_id, fuel).unwrap() == Err::<
                        Seq<i64>,
                        i64,
                    >(p),
                },
            ensures
                total.unwrap() is Ok,
                updates@ == base + total.unwrap().unwrap().map_values(|x: i64| (x, false)),
            decreases fuel,
        {
            match parent_id {
                None => {
                    proof {
                        if let Ok(all) = total.unwrap() {
                            assert(updates@ + Seq::<i64>::empty().map_values(|x: i64| (x, false))
                                =~= updates@);
                        }
                    }
                    break ;
                },
                Some(p) => {
                    match find_todo(todos, p) {
                        None => {
                            proof {
                                assert(ancestors_spec(todos@, parent_id, fuel) == Some(
                                    Err::<Seq<i64>, i64>(p),
                                ));
                            }
                            return Err(TodoError::ParentNotFound(p));
                        },
                        Some(k) => {
                            proof {
                                lemma_index_of_id(todos@, p);
                            }
                            let ghost before = updates@;
                            let ghost rest = ancestors_spec(
                                todos@,
                                todos@[k as int].parent_id,
                                (fuel - 1) as nat,
                            );
                            updates.push((todos[k].id, false));
                            proof {
                                if let Ok(all) = total.unwrap() {
                                    let r = rest.unwrap().unwrap();
                                    assert((seq![todos@[k as int].id] + r).map_values(
                                        |x: i64| (x, false),
                                    ) =~= seq![(todos@[k as int].id, false)] + r.map_values(
                                        |x: i64| (x, false),
                                    ));
                                    assert(before + (seq![(todos@[k as int].id, false)]
                                        + r.map_values(|x: i64| (x, false))) =~= updates@
                                        + r.map_values(|x: i64| (x, false)));
                                }
                                fuel = (fuel - 1) as nat;
                            }
                            parent_id = todos[k].parent_id;
                        },
                    }
                },
            }
        }
    }
    Ok(updates)
}

/// Appends `(child, done)` for every todo under `parent_id`, in nesting order.
pub fn append_descendants(todos: &Vec<Todo>, parent_id: i64, done: bool, updates: &mut Vec<
    (i64, bool),
>)
    requires
        nested_under(todos@, Some(parent_id)) is Some,
    ensures
        final(updates)@ == old(updates)@ + nested_under(todos@, Some(parent_id)).unwrap().map_values(
            |k: int| (todos@[k].id, done),
        ),
{
    let mut order: Vec<usize> = Vec::new();
    nest_rec(todos, Some(parent_id), Ghost(todos@.len()), &mut order);
    let ghost idx = nested_under(todos@, Some(parent_id)).unwrap();
    proof {
        lemma_nest_indices_in_range(todos@, Some(parent_id), todos@.len(), 0);
        assert(order@.map_values(|i: usize| i as int) =~= Seq::<int>::empty() + idx);
    }
    let ghost start = updates@;
    for j in 0..order.len()
        invariant
            order@.map_values(|i: usize| i as int) == idx,
            forall|i: int| 0 <= i < idx.len() ==> 0 <= #[trigger] idx[i] < todos@.len(),
            updates@ == start + idx.take(j as int).map_values(|k: int| (todos@[k].id, done)),
    {
        assert(order@[j as int] as int == idx[j as int]);
        updates.push((todos[order[j]].id, done));
        assert(idx.take(j + 1).map_values(|k: int| (todos@[k].id, done)) =~= idx.take(
            j as int,
        ).map_values(|k: int| (todos@[k].id, done)).push((todos@[idx[j as int]].id, done)));
    }
    assert(idx.take(order.len() as int) =~= idx);
}

/// Completion follows the whole tree: setting a todo to `done` changes the todo itself first,
/// then every todo under it to `done`; reopening also reopens every ancestor.
pub proof fn law_completion_follows_the_tree(t: Seq<Todo>, id: i64, done: bool)
    requires
        done_updates_spec(t, id, done) matches Some(Ok(_)),
    ensures
        ({
            let u = done_updates_spec(t, id, done).unwrap().unwrap();
            let i = index_of_id(t, id);
            let under = nested_under(t, Some(id)).unwrap();
            &&& 0 <= i < t.len()
            &&& u[0] == (id, done)
            &&& forall|j: int| 0 <= j < under.len() ==> u.contains((t[#[trigger] under[j]].id, done))
            &&& !done ==> forall|j: int|
                0 <= j < ancestors_spec(t, t[i].parent_id, t.len()).unwrap().unwrap().len() ==> u.contains(
                    (#[trigger] ancestors_spec(t, t[i].parent_id, t.len()).unwrap().unwrap()[j], false),
                )
        }),
{
    let u = done_updates_spec(t, id, done).unwrap().unwrap();
    let i = index_of_id(t, id);
    lemma_index_of_id(t, id);
    let d = nested_under(t, Some(t[i].id)).unwrap();
    let base = seq![(id, done)] + d.map_values(|k: int| (t[k].id, done));
    assert(u.take(base.len() as int) =~= base) by {
        if !done {
            let a = ancestors_spec(t, t[i].parent_id, t.len()).unwrap().unwrap();
            assert(u == base + a.map_values(|x: i64| (x, false)));
        }
    }
    assert forall|j: int| 0 <= j < d.len() implies u.contains((t[#[trigger] d[j]].id, done)) by {
        assert(u[1 + j] == base[1 + j]);
    }
    if !done {
        let a = ancestors_spec(t, t[i].parent_id, t.len()).unwrap().unwrap();
        assert(u == base + a.map_values(|x: i64| (x, false)));
        assert forall|j: int| 0 <= j < a.len() implies u.contains((#[trigger] a[j], false)) by {
            assert(u[base.len() + j] == (a[j], false));
        }
    }
}

// ---------------------------------------------------------------------------
// Lists that may hold parent cycles
/// Whether following children under `parent` ends within `fuel` levels, appending the
/// nesting order to `out` when it does.
fn nest_checked(all: &Vec<Todo>, parent: Option<i64>, fuel: usize, out: &mut Vec<usize>) -> (ok: bool)
    ensures
        ok == (nest_indices(all@, parent, fuel as nat, 0) is Some),
        ok ==> final(out)@.map_values(|i: usize| i as int) == old(out)@.map_values(|i: usize| i as int)
            + nest_indices(all@, parent, fuel as nat, 0).unwrap(),
    decreases fuel,
{
    let ghost start = out@.map_values(|i: usize| i as int);
    let ghost f = fuel as nat;
    for k in 0..all.len()
        invariant
            f == fuel as nat,
            (nest_indices(all@, parent, f, 0) is Some) == (nest_indices(all@, parent, f, k as int) is Some),
            nest_indices(all@, parent, f, k as int) is Some ==> start + nest_indices(
                all@,
                parent,
                f,
                0,
            ).unwrap() == out@.map_values(|i: usize| i as int) + nest_indices(
                all@,
                parent,
                f,
                k as int,
            ).unwrap(),
    {
        if opt_id_eq(all[k].parent_id, parent) {
            if fuel == 0 {
                return false;
            }
            let ghost before = out@.map_values(|i: usize| i as int);
            out.push(k);
            assert(out@.map_values(|i: usize| i as int) =~= before.push(k as int));
            let ok = nest_checked(all, Some(all[k].id), fuel - 1, out);
            if !ok {
                return false;
            }
            proof {
                let a = nest_indices(all@, Some(all@[k as int].id), (f - 1) as nat, 0).unwrap();
                if nest_indices(all@, parent, f, k + 1) is Some {
                    let b = nest_indices(all@, parent, f, k + 1).unwrap();
                    assert(before + (seq![k as int] + a + b) =~= (before.push(k as int) + a) + b);
                }
            }
        }
    }
    assert(out@.map_values(|i: usize| i as int) + Seq::<int>::empty() =~= out@.map_values(
        |i: usize| i as int,
    ));
    true
}

/// The todos under `parent` in nesting order (see [`push_nested`]); `None` when parents form
/// a cycle, so that following children never ends.
pub fn nested_list(all: &Vec<Todo>, parent: Option<i64>) -> (res: Option<Vec<Todo>>)
    ensures
        res is Some <==> nested_under(all@, parent) is Some,
        res matches Some(v) ==> v@ == nested_under(all@, parent).unwrap().map_values(|i: int| all@[i]),
{
    let mut order: Vec<usize> = Vec::new();
    if !nest_checked(all, parent, all.len(), &mut order) {
        return None;
    }
    let mut out: Vec<Todo> = Vec::new();
    push_nested(all, parent, &mut out);
    assert(Seq::<Todo>::empty() + nested_under(all@, parent).unwrap().map_values(|i: int| all@[i])
        =~= nested_under(all@, parent).unwrap().map_values(|i: int| all@[i]));
    Some(out)
}

/// [`depth_spec`] plus `count`.
pub open spec fn add_depth(count: nat, d: Option<nat>) -> Option<nat> {
    match d {
        Some(x) => Some(count + x),
        None => None,
    }
}

/// The depth of a todo whose parent id is `pid` (see [`depth_spec`]); `None` when parents
/// form a cycle.
pub fn depth_checked(todos: &Vec<Todo>, pid: Option<i64>) -> (res: Option<usize>)
    ensures
        match res {
            Some(d) => depth_spec(todos@, pid, todos@.len()) == Some(d as nat),
            None => depth_spec(todos@, pid, todos@.len()) is None,
        },
{
    let n = todos.len();
    let mut count: usize = 0;
    let mut fuel: usize = n;
    let mut cur = pid;
    while count < n
        invariant
            n == todos@.len(),
            count + fuel == n,
            depth_spec(todos@, pid, n as nat) == add_depth(count as nat, depth_spec(todos@, cur, fuel as nat)),
        decreases fuel,
    {
        match cur {
            None => return Some(count),
            Some(p) => match find_todo(todos, p) {
                None => return Some(count),
                Some(i) => {
                    cur = todos[i].parent_id;
                    count += 1;
                    fuel -= 1;
                },
            },
        }
    }
    match cur {
        None => Some(count),
        Some(p) => match find_todo(todos, p) {
            None => Some(count),
            Some(_) => None,
        },
    }
}

/// Whether the walk up from parent id `pid` ends within the list's length (see
/// [`ancestors_spec`]).
fn ancestors_end(todos: &Vec<Todo>, pid: Option<i64>) -> (res: bool)
    ensures
        res == (ancestors_spec(todos@, pid, todos@.len()) is Some),
{
    let n = todos.len();
    let mut fuel: usize = n;
    let mut cur = pid;
    loop
        invariant
            n == todos@.len(),
            fuel <= n,
            (ancestors_spec(todos@, pid, n as nat) is Some) == (ancestors_spec(todos@, cur, fuel as nat) is Some),
        decreases fuel,
    {
        match cur {
            None => return true,
            Some(p) => match find_todo(todos, p) {
                None => return true,
                Some(i) => {
                    if fuel == 0 {
                        return false;
                    }
                    proof {
                        let rest = ancestors_spec(todos@, todos@[i as int].parent_id, (fuel - 1) as nat);
                        assert((ancestors_spec(todos@, cur, fuel as nat) is Some) == (rest is Some));
                    }
                    cur = todos[i].parent_id;
                    fuel -= 1;
                },
            },
        }
    }
}

/// The completion changes for setting a todo to `done` (see [`set_done_with_tree_rules`]);
/// `None` when parents form a cycle.
pub fn checked_done_updates(todos: &Vec<Todo>, id: i64, done: bool) -> (res: Option<
    Result<Vec<(i64, bool)>, TodoError>,
>)
    ensures
        res is Some <==> done_updates_spec(todos@, id, done) is Some,
        res matches Some(r) ==> match (r, done_updates_spec(todos@, id, done).unwrap()) {
            (Ok(u), Ok(s)) => u@ == s,
            (Err(e), Err(f)) => e == f,
            _ => false,
        },
{
    let i = match find_todo(todos, id) {
        None => return Some(Err(TodoError::NotFound(id))),
        Some(i) => i,
    };
    proof {
        lemma_index_of_id(todos@, id);
    }
    let mut order: Vec<usize> = Vec::new();
    if !nest_checked(todos, Some(todos[i].id), todos.len(), &mut order) {
        return None;
    }
    if !done && !ancestors_end(todos, todos[i].parent_id) {
        return None;
    }
    Some(set_done_with_tree_rules(todos, id, done))
}

/// Checks that a subtask can go under `parent_id` (see [`ensure_depth`]); `None` when
/// parents form a cycle.
pub fn checked_ensure_depth(todos: &Vec<Todo>, parent_id: i64) -> (res: Option<Result<(), TodoError>>)
    ensures
        res is None <==> (index_of_id(todos@, parent_id) >= 0 && depth_spec(
            todos@,
            todos@[index_of_id(todos@, parent_id)].parent_id,
            todos@.len(),
        ) is None),
        res matches Some(r) ==> (index_of_id(todos@, parent_id) < 0 ==> r == Err::<(), TodoError>(
            TodoError::NotFound(parent_id),
        )) && (index_of_id(todos@, parent_id) >= 0 ==> (r is Ok <==> depth_spec(
            todos@,
            todos@[index_of_id(todos@, parent_id)].parent_id,
            todos@.len(),
        ).unwrap() + 1 < MAX_DEPTH)),
{
    match find_todo(todos, parent_id) {
        None => Some(Err(TodoError::NotFound(parent_id))),
        Some(i) => match depth_checked(todos, todos[i].parent_id) {
            None => None,
            Some(_) => Some(ensure_depth(todos, parent_id)),
        },
    }
}

// ---------------------------------------------------------------------------
// Projects
/// The first index of a project with this name, or -1.
pub open spec fn project_index(p: Seq<Project>, name: Seq<char>) -> int
    decreases p.len(),
{
    if p.len() == 0 {
        -1
    } else if p.last().name@ == name && project_index(p.drop_last(), name) < 0 {
        p.len() - 1
    } else {
        project_index(p.drop_last(), name)
    }
}

pub proof fn lemma_project_index(p: Seq<Project>, name: Seq<char>)
    ensures
        -1 <= project_index(p, name) < p.len(),
        project_index(p, name) >= 0 ==> p[project_index(p, name)].name@ == name,
        forall|j: int|
            0 <= j < p.len() && (project_index(p, name) < 0 || j < project_index(p, name)) ==> p[j].name@
                != name,
    decreases p.len(),
{
    if p.len() > 0 {
        lemma_project_index(p.drop_last(), name);
        assert forall|j: int|
            0 <= j < p.len() && (project_index(p, name) < 0 || j < project_index(p, name)) implies p[j].name@
            != name by {
            if j < p.len() - 1 {
                assert(p[j] == p.drop_last()[j]);
            }
        }
    }
}

/// The result is the error that no project has this name.
pub open spec fn project_not_found(res: Result<i64, TodoError>, name: Seq<char>) -> bool {
    match res {
        Err(TodoError::ProjectNotFound(n)) => n@ == name,
        _ => false,
    }
}

/// The id of the first project with this name.
pub fn resolve_project(projects: &Vec<Project>, name: &str) -> (res: Result<i64, TodoError>)
    ensures
        project_index(projects@, name@) < 0 ==> project_not_found(res, name@),
        project_index(projects@, name@) >= 0 ==> res == Ok::<i64, TodoError>(
            projects@[project_index(projects@, name@)].id,
        ),
{
    proof {
        lemma_project_index(projects@, name@);
    }
    let mut i: usize = 0;
    while i < projects.len()
        invariant
            i <= projects.len(),
            forall|j: int| 0 <= j < i ==> projects@[j].name@ != name@,
        decreases projects.len() - i,
    {
        if str_eq(projects[i].name.as_str(), name) {
            proof {
                lemma_project_index(projects@, name@);
                let k = project_index(projects@, name@);
                if k < 0 || k > i {
                    assert(projects@[i as int].name@ != name@);
                }
            }
            return Ok(projects[i].id);
        }
        i += 1;
    }
    proof {
        lemma_project_index(projects@, name@);
        let k = project_index(projects@, name@);
        if k >= 0 {
            assert(projects@[k].name@ == name@);
        }
    }
    Err(TodoError::ProjectNotFound(String::from_str(name)))
}

/// The project a new todo goes to: a named project must exist; with a parent, the parent's
/// project (a different named project is refused); otherwise the named project, or the first
/// project.
pub fn resolve_target_project(
    projects: &Vec<Project>,
    todos: &Vec<Todo>,
    project_name: Option<&str>,
    parent_id: Option<i64>,
) -> (res: Result<i64, TodoError>)
    ensures
        (project_name matches Some(n) && project_index(projects@, n@) < 0) ==> project_not_found(
            res,
            project_name.unwrap()@,
        ),
        (project_name matches Some(n) ==> project_index(projects@, n@) >= 0) ==> match parent_id {
            Some(pid) => if index_of_id(todos@, pid) < 0 {
                res == Err::<i64, TodoError>(TodoError::NotFound(pid))
            } else {
                let parent_project = todos@[index_of_id(todos@, pid)].project_id;
                match project_name {
                    Some(n) => if projects@[project_index(projects@, n@)].id != parent_project {
                        res == Err::<i64, TodoError>(TodoError::ProjectMismatch)
                    } else {
                        res == Ok::<i64, TodoError>(parent_project)
                    },
                    None => res == Ok::<i64, TodoError>(parent_project),
                }
            },
            None => match project_name {
                Some(n) => res == Ok::<i64, TodoError>(projects@[project_index(projects@, n@)].id),
                None => if projects@.len() == 0 {
                    res == Err::<i64, TodoError>(TodoError::NoProjects)
                } else {
                    res == Ok::<i64, TodoError>(projects@[0].id)
                },
            },
        },
{
    let requested = match project_name {
        Some(name) => match resolve_project(projects, name) {
            Ok(id) => Some(id),
            Err(e) => return Err(e),
        },
        None => None,
    };
    if let Some(pid) = parent_id {
        let parent_project = match find_todo(todos, pid) {
            Some(i) => todos[i].project_id,
            None => return Err(TodoError::NotFound(pid)),
        };
        if let Some(project_id) = requested {
            if project_id != parent_project {
                return Err(TodoError::ProjectMismatch);
            }
        }
        return Ok(parent_project);
    }
    if let Some(project_id) = requested {
        return Ok(project_id);
    }
    if projects.len() == 0 {
        Err(TodoError::NoProjects)
    } else {
        Ok(projects[0].id)
    }
}

/// What a popup edits.
#[derive(Clone, Copy)]
pub enum PopupKind {
    Edit { id: i64 },
    Subtask { parent_id: i64 },
    NewProject,
    RenameProject { id: i64 },
}

/// The title of a popup.
pub open spec fn popup_label(k: PopupKind) -> Seq<char> {
    match k {
        PopupKind::Edit { .. } => "내용 편집 (Enter 저장 · Esc 취소)"@,
        PopupKind::Subtask { .. } => "하위 목표 (Enter 저장 · Esc 취소)"@,
        PopupKind::NewProject => "새 프로젝트 이름 (Enter 생성 · Esc 취소)"@,
        PopupKind::RenameProject { .. } => "프로젝트 이름 변경 (Enter 저장 · Esc 취소)"@,
    }
}

impl PopupKind {
    pub fn label(self) -> (res: &'static str)
        ensures
            res@ == popup_label(self),
    {
        match self {
            PopupKind::Edit { .. } => "내용 편집 (Enter 저장 · Esc 취소)",
            PopupKind::Subtask { .. } => "하위 목표 (Enter 저장 · Esc 취소)",
            PopupKind::NewProject => "새 프로젝트 이름 (Enter 생성 · Esc 취소)",
            PopupKind::RenameProject { .. } => "프로젝트 이름 변경 (Enter 저장 · Esc 취소)",
        }
    }
}

} // verus!
