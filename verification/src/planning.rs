//! Hierarchical planning: the statuses of goals and plans, how a goal is
//! broken into subgoals, and the actions a plan for a goal is made of.
//! Costs and risks are `f64` values carried as their bit patterns.
use vstd::prelude::*;
use crate::relevance::strings_view;
use crate::text::{all_ascii, ascii_lower, lower_text, push_str, str_eq, str_to_lowercase};

verus! {

#[derive(Debug, Clone, PartialEq, Eq)]
pub enum GoalStatus {
    Active,
    InProgress,
    Completed,
    Failed(String),
    Blocked(String),
    Suspended,
}

#[derive(Debug, Clone, PartialEq, Eq)]
pub enum PlanStatus {
    Draft,
    InProgress,
    Completed,
    Failed(String),
    /// A step was hard-blocked by the commitment gate.
    Blocked(String),
    Replanning,
}

// ─── Goal decomposition ─────────────────────────────

/// Which decomposition a goal calls for, by the lower-case form of its name:
/// learning, optimising, exploring, or the generic one.
pub open spec fn goal_kind(lower: Seq<char>) -> nat {
    if lower == "learn"@ || lower == "tanulás"@ {
        0
    } else if lower == "optimize"@ || lower == "optimalizálás"@ {
        1
    } else if lower == "explore"@ || lower == "exploráció"@ {
        2
    } else {
        3
    }
}

/// Names of the four subgoals of each decomposition.
pub open spec fn subgoal_names(kind: nat) -> Seq<Seq<char>> {
    if kind == 0 {
        seq!["collect_data"@, "analyze"@, "store"@, "verify"@]
    } else if kind == 1 {
        seq!["measure"@, "identify"@, "apply"@, "verify"@]
    } else if kind == 2 {
        seq!["scan"@, "sample"@, "map"@, "report"@]
    } else {
        seq!["analyze"@, "plan"@, "execute"@, "verify"@]
    }
}

/// Descriptions of the four subgoals; the generic ones name the goal.
pub open spec fn subgoal_descriptions(kind: nat, name: Seq<char>) -> Seq<Seq<char>> {
    if kind == 0 {
        seq!["Adatok gyűjtése"@, "Elemzés és minták keresése"@, "Eredmények tárolása"@, "Ellenőrzés és validálás"@]
    } else if kind == 1 {
        seq![
            "Jelenlegi állapot mérése"@,
            "Szűk keresztmetszetek azonosítása"@,
            "Optimalizáció alkalmazása"@,
            "Javulás ellenőrzése"@,
        ]
    } else if kind == 2 {
        seq!["Felület szkenelése"@, "Mintavételezés"@, "Térkép készítése"@, "Eredmények jelentése"@]
    } else {
        seq![
            name + " elemzése"@,
            "Terv készítése: "@ + name,
            "Végrehajtás: "@ + name,
            "Eredmény ellenőrzése: "@ + name,
        ]
    }
}

/// A subgoal to create: its name, description and priority.
pub struct SubgoalSpec {
    pub name: String,
    pub description: String,
    pub priority: u8,
}

fn concat(a: &str, b: &str) -> (r: String)
    ensures
        r@ == a@ + b@,
{
    let mut s = String::new();
    push_str(&mut s, a);
    push_str(&mut s, b);
    assert(s@ =~= a@ + b@);
    s
}

/// The subgoals a goal is broken into: none for a goal of priority above
/// 200 (an atomic goal), else four, with priorities 10, 20, 30 and 40 above
/// the goal's.
pub fn subgoal_templates(name: &str, priority: u8) -> (r: Vec<SubgoalSpec>)
    ensures
        priority > 200 ==> r@.len() == 0,
        priority <= 200 ==> {
            let kind = goal_kind(lower_text(name@));
            &&& r@.len() == 4
            &&& forall|i: int| #![trigger r@[i]] 0 <= i < 4 ==> {
                &&& r@[i].name@ == subgoal_names(kind)[i]
                &&& r@[i].description@ == subgoal_descriptions(kind, name@)[i]
                &&& r@[i].priority == priority + 10 * (i + 1)
            }
        },
{
    if priority > 200 {
        return Vec::new();
    }
    let lower = str_to_lowercase(name);
    let l: &str = lower.as_str();
    proof {
        reveal_strlit("learn");
        reveal_strlit("tanulás");
        reveal_strlit("optimize");
        reveal_strlit("optimalizálás");
        reveal_strlit("explore");
        reveal_strlit("exploráció");
    }
    let kind: u8 = if str_eq(l, "learn") || str_eq(l, "tanulás") {
        0
    } else if str_eq(l, "optimize") || str_eq(l, "optimalizálás") {
        1
    } else if str_eq(l, "explore") || str_eq(l, "exploráció") {
        2
    } else {
        3
    };
    assert(kind == goal_kind(lower_text(name@)));
    let (names, descs): ([&str; 4], [String; 4]) = if kind == 0 {
        (
            ["collect_data", "analyze", "store", "verify"],
            [
                "Adatok gyűjtése".to_string(),
                "Elemzés és minták keresése".to_string(),
                "Eredmények tárolása".to_string(),
                "Ellenőrzés és validálás".to_string(),
            ],
        )
    } else if kind == 1 {
        (
            ["measure", "identify", "apply", "verify"],
            [
                "Jelenlegi állapot mérése".to_string(),
                "Szűk keresztmetszetek azonosítása".to_string(),
                "Optimalizáció alkalmazása".to_string(),
                "Javulás ellenőrzése".to_string(),
            ],
        )
    } else if kind == 2 {
        (
            ["scan", "sample", "map", "report"],
            [
                "Felület szkenelése".to_string(),
                "Mintavételezés".to_string(),
                "Térkép készítése".to_string(),
                "Eredmények jelentése".to_string(),
            ],
        )
    } else {
        (
            ["analyze", "plan", "execute", "verify"],
            [
                concat(name, " elemzése"),
                concat("Terv készítése: ", name),
                concat("Végrehajtás: ", name),
                concat("Eredmény ellenőrzése: ", name),
            ],
        )
    };
    let ghost kd = kind as nat;
    assert(forall|i: int| 0 <= i < 4 ==> #[trigger] names@[i]@ == subgoal_names(kd)[i]);
    assert(forall|i: int| 0 <= i < 4 ==> #[trigger] descs@[i]@ == subgoal_descriptions(kd, name@)[i]);
    let mut out: Vec<SubgoalSpec> = Vec::new();
    let mut i: usize = 0;
    while i < 4
        invariant
            i <= 4,
            priority <= 200,
            kd == goal_kind(lower_text(name@)),
            out@.len() == i,
            forall|k: int| 0 <= k < 4 ==> #[trigger] names@[k]@ == subgoal_names(kd)[k],
            forall|k: int| 0 <= k < 4 ==> #[trigger] descs@[k]@ == subgoal_descriptions(kd, name@)[k],
            forall|k: int| #![trigger out@[k]] 0 <= k < i ==> {
                &&& out@[k].name@ == subgoal_names(kd)[k]
                &&& out@[k].description@ == subgoal_descriptions(kd, name@)[k]
                &&& out@[k].priority == priority + 10 * (k + 1)
            },
        decreases 4 - i,
    {
        let step: u8 = 10 * (i as u8 + 1);
        out.push(SubgoalSpec { name: names[i].to_string(), description: descs[i].clone(), priority: priority + step });
        i = i + 1;
    }
    out
}

// ─── The goal store ─────────────────────────────────

/// Mathematical value of a goal status.
pub enum StatusView {
    Active,
    InProgress,
    Completed,
    Failed(Seq<char>),
    Blocked(Seq<char>),
    Suspended,
}

impl View for GoalStatus {
    type V = StatusView;

    open spec fn view(&self) -> StatusView {
        match self {
            GoalStatus::Active => StatusView::Active,
            GoalStatus::InProgress => StatusView::InProgress,
            GoalStatus::Completed => StatusView::Completed,
            GoalStatus::Failed(s) => StatusView::Failed(s@),
            GoalStatus::Blocked(s) => StatusView::Blocked(s@),
            GoalStatus::Suspended => StatusView::Suspended,
        }
    }
}

fn copy_status(s: &GoalStatus) -> (r: GoalStatus)
    ensures
        r@ == s@,
{
    match s {
        GoalStatus::Active => GoalStatus::Active,
        GoalStatus::InProgress => GoalStatus::InProgress,
        GoalStatus::Completed => GoalStatus::Completed,
        GoalStatus::Failed(m) => GoalStatus::Failed(m.clone()),
        GoalStatus::Blocked(m) => GoalStatus::Blocked(m.clone()),
        GoalStatus::Suspended => GoalStatus::Suspended,
    }
}

/// A goal. Its progress is an `f64` carried as its bit pattern.
#[derive(Debug)]
pub struct Goal {
    pub id: u64,
    pub name: String,
    pub description: String,
    pub priority: u8,
    pub deadline_ms: Option<u64>,
    pub status: GoalStatus,
    pub parent_id: Option<u64>,
    pub subgoals: Vec<u64>,
    pub progress_bits: u64,
    pub created_ms: u64,
}

/// Mathematical value of a goal.
pub struct GoalView {
    pub id: u64,
    pub name: Seq<char>,
    pub description: Seq<char>,
    pub priority: u8,
    pub deadline_ms: Option<u64>,
    pub status: StatusView,
    pub parent_id: Option<u64>,
    pub subgoals: Seq<u64>,
    pub progress_bits: u64,
    pub created_ms: u64,
}

impl View for Goal {
    type V = GoalView;

    open spec fn view(&self) -> GoalView {
        GoalView {
            id: self.id,
            name: self.name@,
            description: self.description@,
            priority: self.priority,
            deadline_ms: self.deadline_ms,
            status: self.status@,
            parent_id: self.parent_id,
            subgoals: self.subgoals@,
            progress_bits: self.progress_bits,
            created_ms: self.created_ms,
        }
    }
}

pub open spec fn goal_views(v: Seq<Goal>) -> Seq<GoalView> {
    v.map_values(|g: Goal| g@)
}

/// The goals of a planner, each under its own id, and the next id to give.
pub struct Planner {
    pub goals: Vec<Goal>,
    pub next_id: u64,
}

/// A well-formed store: goal ids strictly increase and stay below the next id.
pub open spec fn goals_wf(gs: Seq<GoalView>, next_id: u64) -> bool {
    &&& forall|a: int, b: int| 0 <= a < b < gs.len() ==> gs[a].id < gs[b].id
    &&& forall|a: int| 0 <= a < gs.len() ==> #[trigger] gs[a].id < next_id
}

/// A new active goal, with no subgoals and no progress.
pub open spec fn fresh_goal(
    id: u64,
    name: Seq<char>,
    description: Seq<char>,
    priority: u8,
    parent: Option<u64>,
    now_ms: u64,
) -> GoalView {
    GoalView {
        id: id,
        name: name,
        description: description,
        priority: priority,
        deadline_ms: None,
        status: StatusView::Active,
        parent_id: parent,
        subgoals: Seq::empty(),
        progress_bits: 0,
        created_ms: now_ms,
    }
}

/// The goals after adding goal `id` under `parent`: the parent, when
/// present, lists `id` as its last subgoal, and the new goal comes last.
pub open spec fn with_goal(
    gs: Seq<GoalView>,
    id: u64,
    name: Seq<char>,
    description: Seq<char>,
    priority: u8,
    parent: Option<u64>,
    now_ms: u64,
) -> Seq<GoalView> {
    gs.map_values(|g: GoalView| link_goal(g, parent, id)).push(
        fresh_goal(id, name, description, priority, parent, now_ms),
    )
}

/// Goal `g` after goal `id` is added under `parent`: the parent lists `id`
/// as its last subgoal; any other goal stays.
pub open spec fn link_goal(g: GoalView, parent: Option<u64>, id: u64) -> GoalView {
    if parent == Some(g.id) {
        GoalView { subgoals: g.subgoals.push(id), ..g }
    } else {
        g
    }
}

/// The position of goal `id`, or -1.
pub open spec fn goal_index(gs: Seq<GoalView>, id: u64) -> int
    decreases gs.len(),
{
    if gs.len() == 0 {
        -1
    } else if gs.last().id == id {
        gs.len() - 1
    } else {
        goal_index(gs.drop_last(), id)
    }
}

proof fn lemma_goal_index(gs: Seq<GoalView>, id: u64)
    ensures
        -1 <= goal_index(gs, id) < gs.len(),
        goal_index(gs, id) >= 0 ==> gs[goal_index(gs, id)].id == id,
        goal_index(gs, id) < 0 ==> forall|k: int| 0 <= k < gs.len() ==> #[trigger] gs[k].id != id,
    decreases gs.len(),
{
    if gs.len() > 0 {
        lemma_goal_index(gs.drop_last(), id);
        if gs.last().id != id {
            assert forall|k: int| 0 <= k < gs.len() - 1 implies gs.drop_last()[k] == #[trigger] gs[k] by {}
        }
    }
}

/// The subgoals of a decomposition, as (name, description, priority).
pub open spec fn subgoal_plan(name: Seq<char>, priority: u8) -> Seq<(Seq<char>, Seq<char>, u8)> {
    let kind = goal_kind(lower_text(name));
    Seq::new(
        4,
        |i: int| (subgoal_names(kind)[i], subgoal_descriptions(kind, name)[i], (priority + 10 * (i + 1)) as u8),
    )
}

/// The names of a plan's subgoals, in order.
pub open spec fn plan_names(plan: Seq<(Seq<char>, Seq<char>, u8)>) -> Seq<Seq<char>> {
    plan.map_values(|x: (Seq<char>, Seq<char>, u8)| x.0)
}

/// Law: how a goal is broken down depends on its name, case aside. A goal
/// named learn (or tanulás) gives collect_data, analyze, store, verify; one
/// named optimize (or optimalizálás) gives measure, identify, apply, verify;
/// one named explore (or exploráció) gives scan, sample, map, report; any
/// other gives analyze, plan, execute, verify. In each, the subgoals'
/// priorities are 10, 20, 30 and 40 above the goal's (for a goal of
/// priority 200 or less).
pub proof fn lemma_decomposition_by_name(name: Seq<char>, priority: u8)
    ensures
        ({
            let lower = lower_text(name);
            let names = plan_names(subgoal_plan(name, priority));
            &&& (lower == "learn"@ || lower == "tanulás"@) ==> names == seq![
                "collect_data"@,
                "analyze"@,
                "store"@,
                "verify"@,
            ]
            &&& (lower == "optimize"@ || lower == "optimalizálás"@) ==> names == seq![
                "measure"@,
                "identify"@,
                "apply"@,
                "verify"@,
            ]
            &&& (lower == "explore"@ || lower == "exploráció"@) ==> names == seq![
                "scan"@,
                "sample"@,
                "map"@,
                "report"@,
            ]
            &&& !(lower == "learn"@ || lower == "tanulás"@ || lower == "optimize"@ || lower
                == "optimalizálás"@ || lower == "explore"@ || lower == "exploráció"@) ==> names == seq![
                "analyze"@,
                "plan"@,
                "execute"@,
                "verify"@,
            ]
            &&& priority <= 200 ==> forall|i: int|
                0 <= i < 4 ==> #[trigger] subgoal_plan(name, priority)[i].2 == priority + 10 * (i + 1)
        }),
{
    reveal_strlit("learn");
    reveal_strlit("tanulás");
    reveal_strlit("optimize");
    reveal_strlit("optimalizálás");
    reveal_strlit("explore");
    reveal_strlit("exploráció");
    let lower = lower_text(name);
    let plan = subgoal_plan(name, priority);
    let kind = goal_kind(lower);
    assert(plan_names(plan) =~= subgoal_names(kind));
    if lower == "optimize"@ || lower == "optimalizálás"@ {
        assert(lower != "learn"@ && lower != "tanulás"@) by {
            if lower == "optimize"@ {
                assert(lower.len() == 8);
            } else {
                assert(lower.len() == 13);
            }
        }
        assert(kind == 1);
    }
    if lower == "explore"@ || lower == "exploráció"@ {
        assert(lower != "learn"@ && lower != "tanulás"@ && lower != "optimize"@ && lower
            != "optimalizálás"@) by {
            if lower == "explore"@ {
                assert(lower[0] == 'e');
                assert("tanulás"@[0] == 't');
                assert(lower.len() == 7);
            } else {
                assert(lower.len() == 10);
            }
        }
        assert(kind == 2);
    }
}

/// Law: the name's case does not matter for ASCII names: a name that
/// lower-cases letter by letter to `target` is broken down as `target` is.
pub proof fn lemma_decomposition_ignores_case(name: Seq<char>, target: Seq<char>, priority: u8)
    requires
        all_ascii(name),
        all_ascii(target),
        name.map_values(|c: char| ascii_lower(c)) == target.map_values(|c: char| ascii_lower(c)),
    ensures
        plan_names(subgoal_plan(name, priority)) == plan_names(subgoal_plan(target, priority)),
        goal_kind(lower_text(name)) == goal_kind(lower_text(target)),
{
    let p1 = subgoal_plan(name, priority);
    let p2 = subgoal_plan(target, priority);
    assert(plan_names(p1) =~= subgoal_names(goal_kind(lower_text(name))));
    assert(plan_names(p2) =~= subgoal_names(goal_kind(lower_text(target))));
}

/// The goals after adding the planned subgoals in order under `parent`,
/// numbered from `first`.
pub open spec fn with_subgoals(
    gs: Seq<GoalView>,
    first: u64,
    plan: Seq<(Seq<char>, Seq<char>, u8)>,
    parent: u64,
    now_ms: u64,
) -> Seq<GoalView>
    decreases plan.len(),
{
    if plan.len() == 0 {
        gs
    } else {
        let k = plan.len() - 1;
        with_goal(
            with_subgoals(gs, first, plan.drop_last(), parent, now_ms),
            (first + k) as u64,
            plan.last().0,
            plan.last().1,
            plan.last().2,
            Some(parent),
            now_ms,
        )
    }
}

/// The goals of `gs` whose status is `status` (all for `None`), in order.
pub open spec fn goals_with_status(gs: Seq<GoalView>, status: Option<StatusView>) -> Seq<GoalView>
    decreases gs.len(),
{
    if gs.len() == 0 {
        Seq::empty()
    } else {
        let rest = goals_with_status(gs.drop_last(), status);
        match status {
            Some(st) => if gs.last().status == st {
                rest.push(gs.last())
            } else {
                rest
            },
            None => rest.push(gs.last()),
        }
    }
}

fn same_status(a: &GoalStatus, b: &GoalStatus) -> (r: bool)
    ensures
        r == (a@ == b@),
{
    match (a, b) {
        (GoalStatus::Active, GoalStatus::Active) => true,
        (GoalStatus::InProgress, GoalStatus::InProgress) => true,
        (GoalStatus::Completed, GoalStatus::Completed) => true,
        (GoalStatus::Suspended, GoalStatus::Suspended) => true,
        (GoalStatus::Failed(x), GoalStatus::Failed(y)) => str_eq(x.as_str(), y.as_str()),
        (GoalStatus::Blocked(x), GoalStatus::Blocked(y)) => str_eq(x.as_str(), y.as_str()),
        _ => false,
    }
}

fn copy_ids(v: &Vec<u64>) -> (r: Vec<u64>)
    ensures
        r@ == v@,
{
    let mut r: Vec<u64> = Vec::new();
    let mut i: usize = 0;
    while i < v.len()
        invariant
            i <= v@.len(),
            r@ == v@.take(i as int),
        decreases v.len() - i,
    {
        r.push(v[i]);
        assert(r@ =~= v@.take(i + 1));
        i = i + 1;
    }
    assert(v@.take(v@.len() as int) =~= v@);
    r
}

impl Planner {
    /// An empty planner; ids start at 1.
    pub fn new() -> (r: Self)
        ensures
            goal_views(r.goals@) == Seq::<GoalView>::empty(),
            r.next_id == 1,
    {
        let r = Planner { goals: Vec::new(), next_id: 1 };
        assert(goal_views(r.goals@) =~= Seq::<GoalView>::empty());
        r
    }

    /// Adds an active goal under `parent` (listed among the parent's
    /// subgoals when the parent is there), created at `now_ms`; returns its id.
    pub fn add_goal(&mut self, name: &str, desc: &str, priority: u8, parent: Option<u64>, now_ms: u64) -> (r: u64)
        requires
            goals_wf(goal_views(old(self).goals@), old(self).next_id),
            old(self).next_id < u64::MAX,
        ensures
            r == old(self).next_id,
            final(self).next_id == old(self).next_id + 1,
            goal_views(final(self).goals@) == with_goal(
                goal_views(old(self).goals@),
                r,
                name@,
                desc@,
                priority,
                parent,
                now_ms,
            ),
            goals_wf(goal_views(final(self).goals@), final(self).next_id),
    {
        let id = self.next_id;
        self.next_id = id + 1;
        let ghost before = goal_views(self.goals@);
        let n: usize = self.goals.len();
        let mut i: usize = 0;
        while i < n
            invariant
                i <= n,
                n == self.goals@.len(),
                n == before.len(),
                self.next_id == id + 1,
                forall|k: int| 0 <= k < i ==> #[trigger] goal_views(self.goals@)[k] == link_goal(before[k], parent, id),
                forall|k: int| i <= k < n ==> #[trigger] goal_views(self.goals@)[k] == before[k],
            decreases n - i,
        {
            let ghost gs0 = self.goals@;
            if parent == Some(self.goals[i].id) {
                let mut subs = copy_ids(&self.goals[i].subgoals);
                subs.push(id);
                let g = Goal {
                    id: self.goals[i].id,
                    name: self.goals[i].name.clone(),
                    description: self.goals[i].description.clone(),
                    priority: self.goals[i].priority,
                    deadline_ms: self.goals[i].deadline_ms,
                    status: copy_status(&self.goals[i].status),
                    parent_id: self.goals[i].parent_id,
                    subgoals: subs,
                    progress_bits: self.goals[i].progress_bits,
                    created_ms: self.goals[i].created_ms,
                };
                let ghost gv = g@;
                assert(gv.subgoals =~= before[i as int].subgoals.push(id));
                assert(gv == link_goal(before[i as int], parent, id));
                self.goals.set(i, g);
                assert forall|k: int| 0 <= k < n implies #[trigger] goal_views(self.goals@)[k] == (if k <= i {
                    link_goal(before[k], parent, id)
                } else {
                    before[k]
                }) by {
                    if k != i {
                        assert(self.goals@[k] == gs0[k]);
                        assert(goal_views(gs0)[k] == gs0[k]@);
                    }
                }
            } else {
                assert(goal_views(self.goals@)[i as int] == link_goal(before[i as int], parent, id));
            }
            i = i + 1;
        }
        let ghost mid = self.goals@;
        self.goals.push(Goal {
            id,
            name: name.to_owned(),
            description: desc.to_owned(),
            priority,
            deadline_ms: None,
            status: GoalStatus::Active,
            parent_id: parent,
            subgoals: Vec::new(),
            progress_bits: 0,
            created_ms: now_ms,
        });
        let ghost want = with_goal(before, id, name@, desc@, priority, parent, now_ms);
        assert forall|k: int| 0 <= k < n implies #[trigger] goal_views(self.goals@)[k] == want[k] by {
            assert(self.goals@[k] == mid[k]);
            assert(goal_views(mid)[k] == link_goal(before[k], parent, id));
        }
        assert(goal_views(self.goals@)[n as int] == want[n as int]);
        assert(goal_views(self.goals@) =~= want);
        id
    }

    /// Where goal `id` is, if it is there.
    fn find_goal(&self, id: u64) -> (r: Option<usize>)
        ensures
            r is None ==> goal_index(goal_views(self.goals@), id) < 0,
            r matches Some(i) ==> i as int == goal_index(goal_views(self.goals@), id),
    {
        let ghost gs = goal_views(self.goals@);
        let mut i: usize = self.goals.len();
        assert(gs.take(i as int) =~= gs);
        while i > 0
            invariant
                i <= gs.len(),
                gs == goal_views(self.goals@),
                goal_index(gs, id) == goal_index(gs.take(i as int), id),
            decreases i,
        {
            let ghost t = gs.take(i as int);
            assert(t.drop_last() =~= gs.take(i - 1));
            assert(t.last() == gs[i - 1]);
            if self.goals[i - 1].id == id {
                return Some(i - 1);
            }
            i = i - 1;
        }
        assert(gs.take(0) =~= Seq::<GoalView>::empty());
        None
    }

    /// A copy of goal `id`, or `None` when there is none.
    pub fn get_goal(&self, id: u64) -> (r: Option<Goal>)
        ensures
            r is None <==> goal_index(goal_views(self.goals@), id) < 0,
            r matches Some(g) ==> g@ == goal_views(self.goals@)[goal_index(goal_views(self.goals@), id)],
    {
        match self.find_goal(id) {
            None => None,
            Some(i) => {
                proof {
                    lemma_goal_index(goal_views(self.goals@), id);
                }
                let g = &self.goals[i];
                Some(
                    Goal {
                        id: g.id,
                        name: g.name.clone(),
                        description: g.description.clone(),
                        priority: g.priority,
                        deadline_ms: g.deadline_ms,
                        status: copy_status(&g.status),
                        parent_id: g.parent_id,
                        subgoals: copy_ids(&g.subgoals),
                        progress_bits: g.progress_bits,
                        created_ms: g.created_ms,
                    },
                )
            },
        }
    }

    /// Copies of the goals with status `status` (all goals for `None`), in
    /// id order.
    pub fn list_goals(&self, status: Option<&GoalStatus>) -> (r: Vec<Goal>)
        ensures
            goal_views(r@) == goals_with_status(
                goal_views(self.goals@),
                match status {
                    Some(st) => Some(st@),
                    None => None,
                },
            ),
    {
        let ghost gs = goal_views(self.goals@);
        let ghost want = match status {
            Some(st) => Some(st@),
            None => None::<StatusView>,
        };
        let mut out: Vec<Goal> = Vec::new();
        let mut i: usize = 0;
        assert(gs.take(0) =~= Seq::<GoalView>::empty());
        while i < self.goals.len()
            invariant
                i <= gs.len(),
                gs == goal_views(self.goals@),
                want == (match status {
                    Some(st) => Some(st@),
                    None => None::<StatusView>,
                }),
                goal_views(out@) == goals_with_status(gs.take(i as int), want),
            decreases self.goals.len() - i,
        {
            let g = &self.goals[i];
            let keep: bool = match status {
                None => true,
                Some(st) => same_status(&g.status, st),
            };
            let ghost prev = goal_views(out@);
            assert(gs.take(i + 1).drop_last() =~= gs.take(i as int));
            assert(gs.take(i + 1).last() == g@);
            if keep {
                out.push(
                    Goal {
                        id: g.id,
                        name: g.name.clone(),
                        description: g.description.clone(),
                        priority: g.priority,
                        deadline_ms: g.deadline_ms,
                        status: copy_status(&g.status),
                        parent_id: g.parent_id,
                        subgoals: copy_ids(&g.subgoals),
                        progress_bits: g.progress_bits,
                        created_ms: g.created_ms,
                    },
                );
                assert(goal_views(out@) =~= prev.push(g@));
            }
            i = i + 1;
        }
        assert(gs.take(gs.len() as int) =~= gs);
        out
    }

    /// Breaks goal `goal_id` into its four subgoals, added as active goals
    /// under it with fresh ids, created at `now_ms`; returns their ids. An
    /// unknown goal, or one of priority above 200 (an atomic goal), gives
    /// none and changes nothing.
    pub fn decompose_goal(&mut self, goal_id: u64, now_ms: u64) -> (r: Vec<u64>)
        requires
            goals_wf(goal_views(old(self).goals@), old(self).next_id),
            ({
                let gs = goal_views(old(self).goals@);
                let i = goal_index(gs, goal_id);
                i >= 0 && gs[i].priority <= 200 ==> old(self).next_id <= u64::MAX - 4
            }),
        ensures
            goals_wf(goal_views(final(self).goals@), final(self).next_id),
            ({
                let gs = goal_views(old(self).goals@);
                let i = goal_index(gs, goal_id);
                let n = old(self).next_id;
                if i < 0 || gs[i].priority > 200 {
                    &&& r@.len() == 0
                    &&& goal_views(final(self).goals@) == gs
                    &&& final(self).next_id == n
                } else {
                    &&& r@ == seq![n, (n + 1) as u64, (n + 2) as u64, (n + 3) as u64]
                    &&& final(self).next_id == n + 4
                    &&& goal_views(final(self).goals@) == with_subgoals(
                        gs,
                        n,
                        subgoal_plan(gs[i].name, gs[i].priority),
                        goal_id,
                        now_ms,
                    )
                }
            }),
    {
        let ghost gs = goal_views(self.goals@);
        let ghost n0 = self.next_id;
        proof {
            lemma_goal_index(gs, goal_id);
        }
        let idx = match self.find_goal(goal_id) {
            None => return Vec::new(),
            Some(i) => i,
        };
        let priority: u8 = self.goals[idx].priority;
        if priority > 200 {
            return Vec::new();
        }
        let subs = subgoal_templates(self.goals[idx].name.as_str(), priority);
        let ghost plan = subgoal_plan(gs[idx as int].name, priority);
        assert forall|k: int| 0 <= k < 4 implies #[trigger] plan[k] == (subs@[k].name@, subs@[k].description@, subs@[k].priority) by {
            assert(subs@[k].priority == priority + 10 * (k + 1));
        }
        let mut ids: Vec<u64> = Vec::new();
        let mut k: usize = 0;
        assert(plan.take(0) =~= Seq::<(Seq<char>, Seq<char>, u8)>::empty());
        while k < 4
            invariant
                k <= 4,
                subs@.len() == 4,
                plan.len() == 4,
                n0 <= u64::MAX - 4,
                forall|j: int| 0 <= j < 4 ==> #[trigger] plan[j] == (subs@[j].name@, subs@[j].description@, subs@[j].priority),
                self.next_id == n0 + k,
                goals_wf(goal_views(self.goals@), self.next_id),
                goal_views(self.goals@) == with_subgoals(gs, n0, plan.take(k as int), goal_id, now_ms),
                ids@.len() == k,
                forall|j: int| 0 <= j < k ==> #[trigger] ids@[j] == n0 + j,
            decreases 4 - k,
        {
            let s = &subs[k];
            let id = self.add_goal(s.name.as_str(), s.description.as_str(), s.priority, Some(goal_id), now_ms);
            ids.push(id);
            proof {
                let t = plan.take(k + 1);
                assert(t.drop_last() =~= plan.take(k as int));
                assert(t.last() == plan[k as int]);
            }
            k = k + 1;
        }
        assert(plan.take(4) =~= plan);
        assert(ids@ =~= seq![n0, (n0 + 1) as u64, (n0 + 2) as u64, (n0 + 3) as u64]);
        ids
    }
}

// ─── Plan actions ───────────────────────────────────

/// One action of a plan. Cost and risk are `f64` bit patterns.
#[derive(Clone, Debug)]
pub struct ActionTemplate {
    pub id: u64,
    pub name: String,
    pub module: String,
    pub cost_bits: u64,
    pub duration_ms: u64,
    pub dependencies: Vec<u64>,
    pub preconditions: Vec<String>,
    pub effects: Vec<String>,
    pub risk_bits: u64,
}

/// Mathematical value of an action.
pub struct ActionValue {
    pub id: u64,
    pub name: Seq<char>,
    pub module: Seq<char>,
    pub cost_bits: u64,
    pub duration_ms: u64,
    pub dependencies: Seq<u64>,
    pub preconditions: Seq<Seq<char>>,
    pub effects: Seq<Seq<char>>,
    pub risk_bits: u64,
}

impl View for ActionTemplate {
    type V = ActionValue;

    open spec fn view(&self) -> ActionValue {
        ActionValue {
            id: self.id,
            name: self.name@,
            module: self.module@,
            cost_bits: self.cost_bits,
            duration_ms: self.duration_ms,
            dependencies: self.dependencies@,
            preconditions: strings_view(self.preconditions@),
            effects: strings_view(self.effects@),
            risk_bits: self.risk_bits,
        }
    }
}

pub open spec fn action_values(v: Seq<ActionTemplate>) -> Seq<ActionValue> {
    v.map_values(|a: ActionTemplate| a@)
}

/// `f64` bit patterns of the costs and risks used.
pub const F64_0_05: u64 = 0x3fa9_9999_9999_999a;
pub const F64_0_1: u64 = 0x3fb9_9999_9999_999a;
pub const F64_0_2: u64 = 0x3fc9_9999_9999_999a;
pub const F64_0_3: u64 = 0x3fd3_3333_3333_3333;
pub const F64_0_5: u64 = 0x3fe0_0000_0000_0000;
pub const F64_0_8: u64 = 0x3fe9_9999_9999_999a;

/// Which action set a goal's plan uses, by the lower-case form of its name.
pub open spec fn action_kind(lower: Seq<char>) -> nat {
    if lower == "collect_data"@ {
        0
    } else if lower == "analyze"@ {
        1
    } else if lower == "execute"@ {
        2
    } else {
        3
    }
}

/// An action whose preconditions are `pre` (none when empty) and whose one effect is `effect`.
pub open spec fn act(
    id: u64,
    name: Seq<char>,
    module: Seq<char>,
    cost_bits: u64,
    duration_ms: u64,
    deps: Seq<u64>,
    pre: Seq<char>,
    effect: Seq<char>,
    risk_bits: u64,
) -> ActionValue {
    ActionValue {
        id,
        name,
        module,
        cost_bits,
        duration_ms,
        dependencies: deps,
        preconditions: if pre.len() == 0 {
            Seq::empty()
        } else {
            seq![pre]
        },
        effects: seq![effect],
        risk_bits,
    }
}

/// The three actions of a plan for goal `name`, with ids `id + 1` to `id + 3`,
/// each depending on the one before.
pub open spec fn action_table(kind: nat, name: Seq<char>, id: u64) -> Seq<ActionValue> {
    let (a, b, c) = ((id + 1) as u64, (id + 2) as u64, (id + 3) as u64);
    if kind == 0 {
        seq![
            act(a, "query_source"@, "reader"@, F64_0_3, 100, seq![], "config_ready"@, "data_collected"@, F64_0_1),
            act(b, "filter_relevant"@, "attention"@, F64_0_2, 50, seq![a], "data_collected"@, "data_filtered"@, F64_0_1),
            act(c, "store_results"@, "hippocampus"@, F64_0_1, 30, seq![b], "data_filtered"@, "data_stored"@, F64_0_05),
        ]
    } else if kind == 1 {
        seq![
            act(a, "load_data"@, "reader"@, F64_0_1, 20, seq![], "data_available"@, "data_loaded"@, F64_0_05),
            act(b, "find_patterns"@, "pattern_recognition"@, F64_0_5, 200, seq![a], "data_loaded"@, "patterns_found"@, F64_0_2),
            act(c, "store_insights"@, "knowledge_base"@, F64_0_1, 30, seq![b], "patterns_found"@, "insights_stored"@, F64_0_05),
        ]
    } else if kind == 2 {
        seq![
            act(a, "prepare_"@ + name, "executive"@, F64_0_2, 50, seq![], Seq::empty(), "ready"@, F64_0_1),
            act(b, "run_"@ + name, "executive"@, F64_0_8, 500, seq![a], "ready"@, "executed"@, F64_0_3),
            act(c, "verify_result"@, "meta_supervision"@, F64_0_1, 30, seq![b], "executed"@, "verified"@, F64_0_1),
        ]
    } else {
        seq![
            act(a, "init_"@ + name, "executive"@, F64_0_2, 50, seq![], Seq::empty(), "initialized"@, F64_0_1),
            act(b, "process_"@ + name, "executive"@, F64_0_5, 300, seq![a], "initialized"@, "processed"@, F64_0_2),
            act(c, "finalize"@, "executive"@, F64_0_1, 30, seq![b], "processed"@, "done"@, F64_0_05),
        ]
    }
}

fn make_action(
    id: u64,
    name: String,
    module: &str,
    cost_bits: u64,
    duration_ms: u64,
    dep: Option<u64>,
    pre: &str,
    effect: &str,
    risk_bits: u64,
) -> (r: ActionTemplate)
    ensures
        r@ == act(
            id,
            name@,
            module@,
            cost_bits,
            duration_ms,
            match dep {
                Some(d) => seq![d],
                None => Seq::empty(),
            },
            pre@,
            effect@,
            risk_bits,
        ),
{
    let mut dependencies: Vec<u64> = Vec::new();
    if let Some(d) = dep {
        dependencies.push(d);
    }
    let mut preconditions: Vec<String> = Vec::new();
    if pre.unicode_len() > 0 {
        preconditions.push(pre.to_string());
    }
    let mut effects: Vec<String> = Vec::new();
    effects.push(effect.to_string());
    let r = ActionTemplate {
        id,
        name,
        module: module.to_string(),
        cost_bits,
        duration_ms,
        dependencies,
        preconditions,
        effects,
        risk_bits,
    };
    assert(r@.dependencies =~= match dep {
        Some(d) => seq![d],
        None => Seq::<u64>::empty(),
    });
    assert(r@.preconditions =~= if pre@.len() == 0 {
        Seq::<Seq<char>>::empty()
    } else {
        seq![pre@]
    });
    assert(r@.effects =~= seq![effect@]);
    r
}

/// The actions of a plan for the goal `name`, numbered from `base_id + 1`.
pub fn plan_actions(name: &str, base_id: u64) -> (r: Vec<ActionTemplate>)
    requires
        base_id <= u64::MAX - 3,
    ensures
        action_values(r@) == action_table(action_kind(lower_text(name@)), name@, base_id),
{
    let lower = str_to_lowercase(name);
    let l: &str = lower.as_str();
    proof {
        reveal_strlit("collect_data");
        reveal_strlit("analyze");
        reveal_strlit("execute");
        reveal_strlit("");
    }
    let (a, b, c) = (base_id + 1, base_id + 2, base_id + 3);
    let kind: u8 = if str_eq(l, "collect_data") {
        0
    } else if str_eq(l, "analyze") {
        1
    } else if str_eq(l, "execute") {
        2
    } else {
        3
    };
    assert(kind == action_kind(lower_text(name@)));
    let v: Vec<ActionTemplate> = if kind == 0 {
        vec![
            make_action(a, "query_source".to_string(), "reader", F64_0_3, 100, None, "config_ready", "data_collected", F64_0_1),
            make_action(b, "filter_relevant".to_string(), "attention", F64_0_2, 50, Some(a), "data_collected", "data_filtered", F64_0_1),
            make_action(c, "store_results".to_string(), "hippocampus", F64_0_1, 30, Some(b), "data_filtered", "data_stored", F64_0_05),
        ]
    } else if kind == 1 {
        vec![
            make_action(a, "load_data".to_string(), "reader", F64_0_1, 20, None, "data_available", "data_loaded", F64_0_05),
            make_action(b, "find_patterns".to_string(), "pattern_recognition", F64_0_5, 200, Some(a), "data_loaded", "patterns_found", F64_0_2),
            make_action(c, "store_insights".to_string(), "knowledge_base", F64_0_1, 30, Some(b), "patterns_found", "insights_stored", F64_0_05),
        ]
    } else if kind == 2 {
        vec![
            make_action(a, concat("prepare_", name), "executive", F64_0_2, 50, None, "", "ready", F64_0_1),
            make_action(b, concat("run_", name), "executive", F64_0_8, 500, Some(a), "ready", "executed", F64_0_3),
            make_action(c, "verify_result".to_string(), "meta_supervision", F64_0_1, 30, Some(b), "executed", "verified", F64_0_1),
        ]
    } else {
        vec![
            make_action(a, concat("init_", name), "executive", F64_0_2, 50, None, "", "initialized", F64_0_1),
            make_action(b, concat("process_", name), "executive", F64_0_5, 300, Some(a), "initialized", "processed", F64_0_2),
            make_action(c, "finalize".to_string(), "executive", F64_0_1, 30, Some(b), "processed", "done", F64_0_05),
        ]
    };
    assert(action_values(v@) =~= action_table(kind as nat, name@, base_id));
    v
}

/// Total estimated duration of a plan's actions.
pub open spec fn total_duration(actions: Seq<ActionValue>) -> int
    decreases actions.len(),
{
    if actions.len() == 0 {
        0
    } else {
        total_duration(actions.drop_last()) + actions.last().duration_ms
    }
}

/// Sum of the estimated durations of the actions.
pub fn plan_duration(actions: &[ActionTemplate]) -> (r: u64)
    requires
        total_duration(action_values(actions@)) <= u64::MAX,
    ensures
        r == total_duration(action_values(actions@)),
{
    let ghost av = action_values(actions@);
    let n: usize = actions.len();
    let mut total: u64 = 0;
    let mut i: usize = 0;
    while i < n
        invariant
            i <= n,
            n == actions@.len(),
            av == action_values(actions@),
            total == total_duration(av.take(i as int)),
            total_duration(av) <= u64::MAX,
        decreases n - i,
    {
        proof {
            assert(av.take(i + 1).drop_last() =~= av.take(i as int));
            lemma_total_duration_prefix(av, i + 1);
        }
        total = total + actions[i].duration_ms;
        i = i + 1;
    }
    assert(av.take(n as int) =~= av);
    total
}

/// A prefix takes no longer than the whole.
proof fn lemma_total_duration_prefix(v: Seq<ActionValue>, k: int)
    requires
        0 <= k <= v.len(),
    ensures
        total_duration(v.take(k)) <= total_duration(v),
    decreases v.len(),
{
    if k < v.len() {
        assert(v.drop_last().take(k) =~= v.take(k));
        lemma_total_duration_prefix(v.drop_last(), k);
    } else {
        assert(v.take(k) =~= v);
    }
}

} // verus!
