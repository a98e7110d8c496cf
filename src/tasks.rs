use vstd::prelude::*;

use crate::conditions::{CondView, Condition};

verus! {

/// A leaf of a task tree: a named action, its entry predicate and the least
/// time between two of its executions. `A` is the type of the action itself,
/// which the scheduler hands back to its caller to run.
pub struct Task<A> {
    pub name: String,
    pub conditions: Option<Condition>,
    pub action: Option<A>,
    /// Milliseconds that must pass between two executions.
    pub min_delay_between_exec: u64,
}

/// A context: a named container of ordered children, entered when its entry
/// predicate holds and left when its stay predicate fails.
pub struct Unit<A> {
    pub name: String,
    pub condition: Option<Condition>,
    pub subunits: Vec<ConditionalTypes<A>>,
    /// Predicate that keeps the context active; the entry predicate when absent.
    pub stay_condition: Option<Condition>,
    /// Action run when the context is left.
    pub on_exit: Option<Task<A>>,
}

/// A node of a task tree.
pub enum ConditionalTypes<A> {
    Task(Task<A>),
    TaskContext(Unit<A>),
}

/// The mathematical value of a [`Task`].
pub struct TaskView<A> {
    pub name: Seq<char>,
    pub cond: Option<CondView>,
    pub action: Option<A>,
    pub min_delay: u64,
}

/// The mathematical value of a task-tree node.
pub enum NodeView<A> {
    Task(TaskView<A>),
    Unit {
        name: Seq<char>,
        cond: Option<CondView>,
        stay: Option<CondView>,
        children: Seq<NodeView<A>>,
        on_exit: Option<TaskView<A>>,
    },
}

pub open spec fn opt_cond_view(c: Option<Condition>) -> Option<CondView> {
    match c {
        Some(c) => Some(c@),
        None => None,
    }
}

impl<A> View for Task<A> {
    type V = TaskView<A>;

    open spec fn view(&self) -> TaskView<A> {
        TaskView {
            name: self.name@,
            cond: opt_cond_view(self.conditions),
            action: self.action,
            min_delay: self.min_delay_between_exec,
        }
    }
}

pub open spec fn opt_task_view<A>(t: Option<Task<A>>) -> Option<TaskView<A>> {
    match t {
        Some(t) => Some(t@),
        None => None,
    }
}

pub open spec fn node_view<A>(n: ConditionalTypes<A>) -> NodeView<A>
    decreases n,
{
    match n {
        ConditionalTypes::Task(t) => NodeView::Task(t@),
        ConditionalTypes::TaskContext(u) => NodeView::Unit {
            name: u.name@,
            cond: opt_cond_view(u.condition),
            stay: opt_cond_view(u.stay_condition),
            children: node_views(u.subunits@),
            on_exit: opt_task_view(u.on_exit),
        },
    }
}

pub open spec fn node_views<A>(s: Seq<ConditionalTypes<A>>) -> Seq<NodeView<A>>
    decreases s,
{
    if s.len() == 0 {
        Seq::empty()
    } else {
        seq![node_view(s[0])] + node_views(s.subrange(1, s.len() as int))
    }
}

impl<A> View for ConditionalTypes<A> {
    type V = NodeView<A>;

    open spec fn view(&self) -> NodeView<A> {
        node_view(*self)
    }
}

impl<A> View for Unit<A> {
    type V = NodeView<A>;

    open spec fn view(&self) -> NodeView<A> {
        node_view(ConditionalTypes::TaskContext(*self))
    }
}

/// `node_views` maps each element on its own.
pub proof fn lemma_node_views<A>(s: Seq<ConditionalTypes<A>>)
    ensures
        node_views(s).len() == s.len(),
        forall|i: int| 0 <= i < s.len() ==> #[trigger] node_views(s)[i] == node_view(s[i]),
    decreases s.len(),
{
    if s.len() > 0 {
        lemma_node_views(s.subrange(1, s.len() as int));
        assert forall|i: int| 0 <= i < s.len() implies #[trigger] node_views(s)[i] == node_view(
            s[i],
        ) by {
            if i > 0 {
                assert(s.subrange(1, s.len() as int)[i - 1] == s[i]);
            }
        }
    }
}

pub proof fn lemma_node_views_ext<A>(s: Seq<ConditionalTypes<A>>, t: Seq<NodeView<A>>)
    requires
        t.len() == s.len(),
        forall|i: int| 0 <= i < s.len() ==> t[i] == node_view(s[i]),
    ensures
        node_views(s) == t,
{
    lemma_node_views(s);
    assert(node_views(s) =~= t);
}

impl<A> NodeView<A> {
    pub open spec fn name(self) -> Seq<char> {
        match self {
            NodeView::Task(t) => t.name,
            NodeView::Unit { name, .. } => name,
        }
    }

    pub open spec fn min_delay(self) -> u64 {
        match self {
            NodeView::Task(t) => t.min_delay,
            NodeView::Unit { .. } => 0,
        }
    }
}

impl<A> Task<A> {
    /// A task with no predicate, no action and no least delay.
    pub fn new(name: String) -> (r: Task<A>)
        ensures
            r@ == (TaskView::<A> { name: name@, cond: None, action: None, min_delay: 0 }),
    {
        Task { name, conditions: None, action: None, min_delay_between_exec: 0 }
    }

    pub fn when_condition(self, conditions: Condition) -> (r: Task<A>)
        ensures
            r@ == (TaskView { cond: Some(conditions@), ..self@ }),
    {
        Task { conditions: Some(conditions), ..self }
    }

    pub fn with_action(self, action: A) -> (r: Task<A>)
        ensures
            r@ == (TaskView { action: Some(action), ..self@ }),
    {
        Task { action: Some(action), ..self }
    }

    pub fn with_min_delay_between_exec(self, min_delay_between_exec: u64) -> (r: Task<A>)
        ensures
            r@ == (TaskView { min_delay: min_delay_between_exec, ..self@ }),
    {
        Task { min_delay_between_exec, ..self }
    }

    pub fn to_eveluatable(self) -> (r: ConditionalTypes<A>)
        ensures
            r@ == NodeView::Task(self@),
    {
        ConditionalTypes::Task(self)
    }
}

impl<A> Unit<A> {
    /// A context with no predicate, no child and no exit action.
    pub fn new(name: String) -> (r: Unit<A>)
        ensures
            r@ == (NodeView::<A>::Unit {
                name: name@,
                cond: None,
                stay: None,
                children: Seq::empty(),
                on_exit: None,
            }),
    {
        let r = Unit {
            name,
            condition: None,
            subunits: Vec::new(),
            stay_condition: None,
            on_exit: None,
        };
        proof {
            lemma_node_views_ext(r.subunits@, Seq::empty());
        }
        r
    }

    pub fn when_condition(self, condition: Condition) -> (r: Unit<A>)
        ensures
            r@ == match self@ {
                NodeView::Unit { name, stay, children, on_exit, .. } => NodeView::Unit {
                    name,
                    cond: Some(condition@),
                    stay,
                    children,
                    on_exit,
                },
                v => v,
            },
    {
        Unit { condition: Some(condition), ..self }
    }

    pub fn stay_while_condition(self, condition: Condition) -> (r: Unit<A>)
        ensures
            r@ == match self@ {
                NodeView::Unit { name, cond, children, on_exit, .. } => NodeView::Unit {
                    name,
                    cond,
                    stay: Some(condition@),
                    children,
                    on_exit,
                },
                v => v,
            },
    {
        Unit { stay_condition: Some(condition), ..self }
    }

    pub fn subunit(self, subtask: ConditionalTypes<A>) -> (r: Unit<A>)
        ensures
            r@ == match self@ {
                NodeView::Unit { name, cond, stay, children, on_exit } => NodeView::Unit {
                    name,
                    cond,
                    stay,
                    children: children.push(subtask@),
                    on_exit,
                },
                v => v,
            },
    {
        let mut s = self;
        let ghost before = s.subunits@;
        s.subunits.push(subtask);
        proof {
            lemma_node_views(before);
            lemma_node_views_ext(s.subunits@, node_views(before).push(subtask@));
        }
        s
    }

    pub fn subunits(self, subtasks: Vec<ConditionalTypes<A>>) -> (r: Unit<A>)
        ensures
            r@ == match self@ {
                NodeView::Unit { name, cond, stay, children, on_exit } => NodeView::Unit {
                    name,
                    cond,
                    stay,
                    children: children + node_views(subtasks@),
                    on_exit,
                },
                v => v,
            },
    {
        let mut s = self;
        let mut subtasks = subtasks;
        let ghost before = s.subunits@;
        let ghost added = subtasks@;
        s.subunits.append(&mut subtasks);
        proof {
            lemma_node_views(before);
            lemma_node_views(added);
            lemma_node_views_ext(s.subunits@, node_views(before) + node_views(added));
        }
        s
    }

    pub fn on_exit(self, task: Task<A>) -> (r: Unit<A>)
        ensures
            r@ == match self@ {
                NodeView::Unit { name, cond, stay, children, .. } => NodeView::Unit {
                    name,
                    cond,
                    stay,
                    children,
                    on_exit: Some(task@),
                },
                v => v,
            },
    {
        Unit { on_exit: Some(task), ..self }
    }

    pub fn to_eveluatable(self) -> (r: ConditionalTypes<A>)
        ensures
            r@ == self@,
    {
        ConditionalTypes::TaskContext(self)
    }
}

impl<A> ConditionalTypes<A> {
    pub fn new_task(task: Task<A>) -> (r: ConditionalTypes<A>)
        ensures
            r@ == NodeView::Task(task@),
    {
        ConditionalTypes::Task(task)
    }

    pub fn new_unit(context: Unit<A>) -> (r: ConditionalTypes<A>)
        ensures
            r@ == context@,
    {
        ConditionalTypes::TaskContext(context)
    }

    pub fn is_context(&self) -> (r: bool)
        ensures
            r == self@ is Unit,
    {
        match self {
            ConditionalTypes::TaskContext(_) => true,
            ConditionalTypes::Task(_) => false,
        }
    }

    pub fn get_name(&self) -> (r: &String)
        ensures
            r@ == self@.name(),
    {
        match self {
            ConditionalTypes::Task(t) => &t.name,
            ConditionalTypes::TaskContext(u) => &u.name,
        }
    }

    /// The least time between two executions; zero for a context.
    pub fn min_delay_between_exec(&self) -> (r: u64)
        ensures
            r == self@.min_delay(),
    {
        match self {
            ConditionalTypes::Task(t) => t.min_delay_between_exec,
            ConditionalTypes::TaskContext(_) => 0,
        }
    }
}

} // verus!
