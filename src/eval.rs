use vstd::prelude::*;
use crate::error::{Error, ErrorKind};
use crate::placement::{placements, views};
use crate::random::sample_index;
use crate::rules::{Action, Primitive, Rule, RuleSet, rule_max_depth, rule_name, same_text};
use crate::transform::{Step, Transform};

verus! {

broadcast use vstd::seq_lib::group_seq_properties;

/// The action list that a frame walks.
#[derive(Clone, Copy, Debug, PartialEq, Eq, Structural)]
pub enum Body {
    /// The implicit top-level rule.
    Top,
    /// The custom rule at this position of the table.
    Named(usize),
    /// A candidate of the ambiguous rule at this position.
    Candidate(usize, usize),
}

/// What a frame has left to do.
#[derive(Clone, Copy, Debug, PartialEq, Eq, Structural)]
pub enum Task {
    /// Execute the actions of `body` from `next` on.
    Actions { body: Body, next: usize },
    /// Expand the rule at position `target`.
    Invoke { target: usize },
}

/// Pending work under an accumulated transform.
#[derive(Clone, Debug)]
pub struct Frame {
    pub task: Task,
    pub tx: Transform,
}

/// The expansions left to a rule with a max depth.
#[derive(Clone, Debug)]
pub struct Budget {
    pub name: String,
    pub remaining: usize,
}

/// The state that one evaluation run shares along all its paths: the random
/// source and the expansion budgets by rule name.
pub struct ContextMut {
    pub rng: rand::rngs::StdRng,
    pub depths: Vec<Budget>,
}

impl ContextMut {
    /// A context with no budget in use yet.
    pub fn new(rng: rand::rngs::StdRng) -> (r: ContextMut)
        ensures
            r.rng == rng,
            r.depths@.len() == 0,
    {
        ContextMut { rng, depths: Vec::new() }
    }
}

/// The result of one step of evaluation.
#[derive(Clone, Debug)]
pub enum StepOutcome {
    /// A leaf: a primitive placed by a transform.
    Yielded(Transform, Primitive),
    /// Work was done and more may follow.
    Continued,
    /// Nothing is left to do.
    Finished,
    /// The error; for an unknown rule, its name is the slice.
    Failed(Error),
}

/// What a step yields, over views.
pub enum Outcome {
    Yield(Seq<Step>, Primitive),
    Continue,
    Done,
    /// The error and the name it concerns.
    Fail(ErrorKind, Seq<char>),
}

pub open spec fn outcome_view(o: StepOutcome) -> Outcome {
    match o {
        StepOutcome::Yielded(t, p) => Outcome::Yield(t@, p),
        StepOutcome::Continued => Outcome::Continue,
        StepOutcome::Finished => Outcome::Done,
        StepOutcome::Failed(e) => Outcome::Fail(e.kind, e.slice@),
    }
}

/// The pending frames, last on top, each with the view of its transform.
pub open spec fn stack_view(s: Seq<Frame>) -> Seq<(Task, Seq<Step>)> {
    s.map_values(|f: Frame| (f.task, f.tx@))
}

/// The budgets as pairs of a rule name and the expansions left.
pub open spec fn budgets_view(bs: Seq<Budget>) -> Seq<(Seq<char>, nat)> {
    bs.map_values(|b: Budget| (b.name@, b.remaining as nat))
}

/// The actions of a body.
pub open spec fn body_actions(rs: RuleSet, b: Body) -> Seq<Action> {
    match b {
        Body::Top => rs.top_level.actions@,
        Body::Named(i) => match rs.rules@[i as int] {
            Rule::Custom(c) => c.actions@,
            _ => Seq::empty(),
        },
        Body::Candidate(i, k) => match rs.rules@[i as int] {
            Rule::Ambiguous(a) => a.actions@[k as int].actions@,
            _ => Seq::empty(),
        },
    }
}

pub open spec fn body_wf(rs: RuleSet, b: Body) -> bool {
    match b {
        Body::Top => true,
        Body::Named(i) => i < rs.rules@.len() && rs.rules@[i as int] is Custom,
        Body::Candidate(i, k) => i < rs.rules@.len() && (rs.rules@[i as int] matches Rule::Ambiguous(a)
            && k < a.actions@.len()),
    }
}

pub open spec fn task_wf(rs: RuleSet, t: Task) -> bool {
    match t {
        Task::Actions { body, next } => body_wf(rs, body) && next <= body_actions(rs, body).len(),
        Task::Invoke { target } => target < rs.rules@.len(),
    }
}

pub open spec fn stack_wf(rs: RuleSet, s: Seq<(Task, Seq<Step>)>) -> bool {
    forall|j: int| 0 <= j < s.len() ==> task_wf(rs, #[trigger] s[j].0)
}

/// The position of the rule named `name`, if the table holds one.
pub open spec fn lookup(rs: RuleSet, name: Seq<char>) -> Option<int> {
    if exists|i: int| 0 <= i < rs.rules@.len() && rule_name(#[trigger] rs.rules@[i]) == name {
        Some(choose|i: int| 0 <= i < rs.rules@.len() && rule_name(#[trigger] rs.rules@[i]) == name)
    } else {
        None
    }
}

/// The first budget at or after `i` that belongs to `name`, or -1.
pub open spec fn find_budget(bs: Seq<(Seq<char>, nat)>, name: Seq<char>, i: int) -> int
    decreases bs.len() - i,
{
    if i < 0 || i >= bs.len() {
        -1
    } else if bs[i].0 == name {
        i
    } else {
        find_budget(bs, name, i + 1)
    }
}

/// Consults the budget of rule `name`, declared with `max_depth`: a first
/// use starts it at `max_depth - 1` and proceeds; a later use decrements it
/// and proceeds, unless it reaches zero, which removes it and suppresses the
/// expansion; a later use then starts it afresh. Budgets are kept by rule
/// name for the whole run, not per path. The new budgets, and whether to
/// proceed.
pub open spec fn budget_step(bs: Seq<(Seq<char>, nat)>, name: Seq<char>, max_depth: nat) -> (
    Seq<(Seq<char>, nat)>,
    bool,
) {
    let k = find_budget(bs, name, 0);
    if k < 0 {
        (bs.push((name, if max_depth > 0 { (max_depth - 1) as nat } else { 0 })), true)
    } else {
        let v: nat = if bs[k].1 > 0 { (bs[k].1 - 1) as nat } else { 0 };
        if v == 0 {
            (bs.remove(k), false)
        } else {
            (bs.update(k, (name, v)), true)
        }
    }
}

/// No two budgets belong to the same rule name.
pub open spec fn budgets_unique(bs: Seq<(Seq<char>, nat)>) -> bool {
    forall|i: int, j: int| 0 <= i < j < bs.len() ==> #[trigger] bs[i].0 != #[trigger] bs[j].0
}

proof fn lemma_find_budget_absent(bs: Seq<(Seq<char>, nat)>, name: Seq<char>, i: int)
    requires
        0 <= i,
        find_budget(bs, name, i) == -1,
    ensures
        forall|j: int| i <= j < bs.len() ==> #[trigger] bs[j].0 != name,
    decreases bs.len() - i,
{
    if i < bs.len() {
        lemma_find_budget_absent(bs, name, i + 1);
    }
}

/// Consulting a budget keeps budget names unique.
proof fn lemma_budget_step_unique(bs: Seq<(Seq<char>, nat)>, name: Seq<char>, max_depth: nat)
    requires
        budgets_unique(bs),
    ensures
        budgets_unique(budget_step(bs, name, max_depth).0),
{
    let k = find_budget(bs, name, 0);
    let nb = budget_step(bs, name, max_depth).0;
    lemma_find_budget(bs, name, 0);
    if k < 0 {
        lemma_find_budget_absent(bs, name, 0);
        assert forall|i: int, j: int| 0 <= i < j < nb.len() implies #[trigger] nb[i].0 != #[trigger] nb[j].0 by {
            if j == bs.len() {
                assert(nb[i] == bs[i]);
            } else {
                assert(nb[i] == bs[i] && nb[j] == bs[j]);
            }
        }
    } else {
        lemma_find_budget(bs, name, 0);
        assert forall|i: int, j: int| 0 <= i < j < nb.len() implies #[trigger] nb[i].0 != #[trigger] nb[j].0 by {
            if nb.len() < bs.len() {
                let oi = if i < k { i } else { i + 1 };
                let oj = if j < k { j } else { j + 1 };
                assert(nb[i] == bs[oi] && nb[j] == bs[oj]);
            } else {
                assert(nb[i].0 == bs[i].0 && nb[j].0 == bs[j].0);
            }
        }
    }
}

/// A step keeps budget names unique.
pub proof fn lemma_step_keeps_budgets_unique(
    rs: RuleSet,
    stack: Seq<(Task, Seq<Step>)>,
    bs: Seq<(Seq<char>, nat)>,
    c: int,
)
    requires
        budgets_unique(bs),
    ensures
        budgets_unique(step_spec(rs, stack, bs, c).1),
{
    if stack.len() > 0 {
        if let Task::Actions { body, next } = stack.last().0 {
            let acts = body_actions(rs, body);
            if next < acts.len() {
                if let Action::Transform(ta) = acts[next as int] {
                    if let Some(t) = lookup(rs, ta.rule@) {
                        if let Some(md) = rule_max_depth(rs.rules@[t]) {
                            lemma_budget_step_unique(bs, ta.rule@, md as nat);
                        }
                    }
                }
            }
        }
    }
}

/// Frames that invoke rule `t` under each of `ps`, pushed so that the first
/// placement ends on top.
pub open spec fn invoke_frames(t: int, ps: Seq<Seq<Step>>) -> Seq<(Task, Seq<Step>)> {
    Seq::new(ps.len(), |j: int| (Task::Invoke { target: t as usize }, ps[ps.len() - 1 - j]))
}

/// Whether `c` may be drawn from `stack`: where the top frame expands an
/// ambiguous rule, a candidate of positive weight; else anything.
pub open spec fn choice_ok(rs: RuleSet, stack: Seq<(Task, Seq<Step>)>, c: int) -> bool {
    stack.len() > 0 ==> match stack.last().0 {
        Task::Invoke { target } => target < rs.rules@.len() ==> match rs.rules@[target as int] {
            Rule::Ambiguous(a) => 0 <= c < a.actions@.len() && a.weights@[c] > 0,
            _ => true,
        },
        _ => true,
    }
}

/// One step of evaluation from `stack` and budgets `bs`, with `c` the
/// candidate drawn where the step expands an ambiguous rule.
pub open spec fn step_spec(
    rs: RuleSet,
    stack: Seq<(Task, Seq<Step>)>,
    bs: Seq<(Seq<char>, nat)>,
    c: int,
) -> (Seq<(Task, Seq<Step>)>, Seq<(Seq<char>, nat)>, Outcome) {
    if stack.len() == 0 {
        (stack, bs, Outcome::Done)
    } else {
        let (task, tx) = stack.last();
        let rest = stack.drop_last();
        match task {
            Task::Invoke { target } => match rs.rules@[target as int] {
                Rule::Primitive(p) => (rest, bs, Outcome::Yield(tx, p)),
                Rule::Custom(_) => (
                    rest.push((Task::Actions { body: Body::Named(target), next: 0 }, tx)),
                    bs,
                    Outcome::Continue,
                ),
                Rule::Ambiguous(_) => (
                    rest.push((Task::Actions { body: Body::Candidate(target, c as usize), next: 0 }, tx)),
                    bs,
                    Outcome::Continue,
                ),
            },
            Task::Actions { body, next } => {
                let acts = body_actions(rs, body);
                if next >= acts.len() {
                    (rest, bs, Outcome::Continue)
                } else {
                    let resumed = rest.push(
                        (Task::Actions { body, next: (next + 1) as usize }, tx),
                    );
                    match acts[next as int] {
                        Action::Setting(_) => (resumed, bs, Outcome::Continue),
                        Action::Transform(ta) => match lookup(rs, ta.rule@) {
                            None => (resumed, bs, Outcome::Fail(ErrorKind::UnknownRuleReference, ta.rule@)),
                            Some(t) => {
                                let (bs2, go) = match rule_max_depth(rs.rules@[t]) {
                                    None => (bs, true),
                                    Some(md) => budget_step(bs, ta.rule@, md as nat),
                                };
                                if go {
                                    (
                                        resumed + invoke_frames(t, placements(tx, ta.loops@)),
                                        bs2,
                                        Outcome::Continue,
                                    )
                                } else {
                                    (resumed, bs2, Outcome::Continue)
                                }
                            },
                        },
                    }
                }
            },
        }
    }
}

/// The single rule of a well-formed table named like the rule at `i`.
proof fn lemma_lookup(rs: RuleSet, name: Seq<char>, i: int)
    requires
        rs.wf(),
        0 <= i < rs.rules@.len(),
        rule_name(rs.rules@[i]) == name,
    ensures
        lookup(rs, name) == Some(i),
{
    let j = choose|j: int| 0 <= j < rs.rules@.len() && rule_name(#[trigger] rs.rules@[j]) == name;
    if j < i {
        assert(rule_name(rs.rules@[j]) != rule_name(rs.rules@[i]));
    } else if i < j {
        assert(rule_name(rs.rules@[i]) != rule_name(rs.rules@[j]));
    }
}

fn actions_of(rules: &RuleSet, b: Body) -> (r: &Vec<Action>)
    requires
        body_wf(*rules, b),
    ensures
        r@ == body_actions(*rules, b),
{
    match b {
        Body::Top => &rules.top_level.actions,
        Body::Named(i) => match &rules.rules[i] {
            Rule::Custom(c) => &c.actions,
            _ => {
                proof {
                    assert(false);
                }
                &rules.top_level.actions
            },
        },
        Body::Candidate(i, k) => match &rules.rules[i] {
            Rule::Ambiguous(a) => &a.actions[k].actions,
            _ => {
                proof {
                    assert(false);
                }
                &rules.top_level.actions
            },
        },
    }
}

proof fn lemma_find_budget(bs: Seq<(Seq<char>, nat)>, name: Seq<char>, i: int)
    requires
        0 <= i,
    ensures
        find_budget(bs, name, i) == -1 || (i <= find_budget(bs, name, i) < bs.len() && bs[find_budget(
            bs,
            name,
            i,
        )].0 == name),
    decreases bs.len() - i,
{
    if i < bs.len() && bs[i].0 != name {
        lemma_find_budget(bs, name, i + 1);
    }
}

fn find_budget_of(depths: &Vec<Budget>, name: &str) -> (r: Option<usize>)
    ensures
        match r {
            Some(k) => k < depths@.len() && find_budget(budgets_view(depths@), name@, 0) == k,
            None => find_budget(budgets_view(depths@), name@, 0) == -1,
        },
{
    let ghost bv = budgets_view(depths@);
    let mut i: usize = 0;
    while i < depths.len()
        invariant
            i <= depths@.len(),
            bv == budgets_view(depths@),
            find_budget(bv, name@, 0) == find_budget(bv, name@, i as int),
        decreases depths@.len() - i,
    {
        if same_text(depths[i].name.as_str(), name) {
            return Some(i);
        }
        i = i + 1;
    }
    None
}

/// Applies `budget_step` to the budgets.
fn consume_budget(depths: &mut Vec<Budget>, name: &str, max_depth: usize) -> (go: bool)
    ensures
        (budgets_view(final(depths)@), go) == budget_step(
            budgets_view(old(depths)@),
            name@,
            max_depth as nat,
        ),
{
    let ghost bv = budgets_view(depths@);
    match find_budget_of(depths, name) {
        None => {
            let start = if max_depth > 0 { max_depth - 1 } else { 0 };
            let b = Budget { name: name.to_owned(), remaining: start };
            depths.push(b);
            proof {
                assert(budgets_view(depths@) =~= bv.push((name@, start as nat)));
            }
            true
        },
        Some(k) => {
            let cur = depths[k].remaining;
            let v = if cur > 0 { cur - 1 } else { 0 };
            if v == 0 {
                depths.remove(k);
                proof {
                    assert(budgets_view(depths@) =~= bv.remove(k as int));
                }
                false
            } else {
                let b = depths.remove(k);
                proof {
                    lemma_find_budget(bv, name@, 0);
                    assert(bv[k as int] == (b.name@, b.remaining as nat));
                }
                let nb = Budget { name: b.name, remaining: v };
                depths.insert(k, nb);
                proof {
                    assert(budgets_view(depths@) =~= bv.update(k as int, (name@, v as nat)));
                }
                true
            }
        },
    }
}

/// A lazy walk of a rule table: the pending frames.
pub struct RuleSetIterator {
    pub stack: Vec<Frame>,
}

impl RuleSetIterator {
    /// A walk that starts at the top-level rule under `start`.
    pub fn new(start: Transform) -> (r: RuleSetIterator)
        ensures
            stack_view(r.stack@) == seq![(Task::Actions { body: Body::Top, next: 0 }, start@)],
    {
        let mut stack: Vec<Frame> = Vec::new();
        stack.push(Frame { task: Task::Actions { body: Body::Top, next: 0 }, tx: start });
        proof {
            assert(stack_view(stack@) =~= seq![(Task::Actions { body: Body::Top, next: 0 }, start@)]);
        }
        RuleSetIterator { stack }
    }

    /// One step of evaluation, with `choice` the candidate to take where the
    /// step expands an ambiguous rule.
    pub fn advance(&mut self, rules: &RuleSet, depths: &mut Vec<Budget>, choice: usize) -> (r: StepOutcome)
        requires
            rules.wf(),
            stack_wf(*rules, stack_view(old(self).stack@)),
            choice_ok(*rules, stack_view(old(self).stack@), choice as int),
        ensures
            stack_wf(*rules, stack_view(final(self).stack@)),
            budgets_unique(budgets_view(old(depths)@)) ==> budgets_unique(budgets_view(final(depths)@)),
            (stack_view(final(self).stack@), budgets_view(final(depths)@), outcome_view(r))
                == step_spec(
                *rules,
                stack_view(old(self).stack@),
                budgets_view(old(depths)@),
                choice as int,
            ),
    {
        let ghost sv = stack_view(self.stack@);
        proof {
            if budgets_unique(budgets_view(depths@)) {
                lemma_step_keeps_budgets_unique(*rules, sv, budgets_view(depths@), choice as int);
            }
        }
        let f = match self.stack.pop() {
            None => {
                return StepOutcome::Finished;
            },
            Some(f) => f,
        };
        proof {
            assert(stack_view(self.stack@) =~= sv.drop_last());
            assert(sv.last() == (f.task, f.tx@));
            assert(task_wf(*rules, sv.last().0));
        }
        match f.task {
            Task::Invoke { target } => {
                match &rules.rules[target] {
                    Rule::Primitive(p) => StepOutcome::Yielded(f.tx, *p),
                    Rule::Custom(_) => {
                        let nf = Frame { task: Task::Actions { body: Body::Named(target), next: 0 }, tx: f.tx };
                        self.stack.push(nf);
                        proof {
                            assert(stack_view(self.stack@) =~= sv.drop_last().push((nf.task, nf.tx@)));
                        }
                        StepOutcome::Continued
                    },
                    Rule::Ambiguous(_) => {
                        let nf = Frame {
                            task: Task::Actions { body: Body::Candidate(target, choice), next: 0 },
                            tx: f.tx,
                        };
                        self.stack.push(nf);
                        proof {
                            assert(stack_view(self.stack@) =~= sv.drop_last().push((nf.task, nf.tx@)));
                        }
                        StepOutcome::Continued
                    },
                }
            },
            Task::Actions { body, next } => {
                let acts = actions_of(rules, body);
                if next >= acts.len() {
                    return StepOutcome::Continued;
                }
                let resumed = Task::Actions { body, next: next + 1 };
                match &acts[next] {
                    Action::Setting(_) => {
                        let nf = Frame { task: resumed, tx: f.tx };
                        self.stack.push(nf);
                        proof {
                            assert(stack_view(self.stack@) =~= sv.drop_last().push((nf.task, nf.tx@)));
                        }
                        StepOutcome::Continued
                    },
                    Action::Transform(ta) => {
                        match rules.find(ta.rule.as_str()) {
                            None => {
                                let nf = Frame { task: resumed, tx: f.tx };
                                self.stack.push(nf);
                                proof {
                                    assert(stack_view(self.stack@) =~= sv.drop_last().push((nf.task, nf.tx@)));
                                }
                                StepOutcome::Failed(
                                    Error {
                                        kind: ErrorKind::UnknownRuleReference,
                                        start: 0,
                                        end: 0,
                                        slice: ta.rule.clone(),
                                    },
                                )
                            },
                            Some(t) => {
                                proof {
                                    lemma_lookup(*rules, ta.rule@, t as int);
                                }
                                let go = match rules.rules[t].max_depth() {
                                    None => true,
                                    Some(md) => consume_budget(depths, ta.rule.as_str(), md),
                                };
                                let mut ps = if go {
                                    ta.placements(&f.tx)
                                } else {
                                    Vec::new()
                                };
                                let ghost pv = views(ps@);
                                let nf = Frame { task: resumed, tx: f.tx };
                                self.stack.push(nf);
                                let ghost base = sv.drop_last().push((nf.task, nf.tx@));
                                proof {
                                    assert(stack_view(self.stack@) =~= base);
                                }
                                if go {
                                    let n = ps.len();
                                    while ps.len() > 0
                                        invariant
                                            ps@.len() <= n,
                                            pv.len() == n,
                                            views(ps@) == pv.take(ps@.len() as int),
                                            stack_view(self.stack@) == base + invoke_frames(t as int, pv).take(
                                                n - ps@.len(),
                                            ),
                                        decreases ps@.len(),
                                    {
                                        let ghost before = self.stack@;
                                        let ghost k = ps@.len();
                                        let ghost ps_before = ps@;
                                        match ps.pop() {
                                            Some(p) => {
                                                proof {
                                                    assert(views(ps_before)[k - 1] == ps_before[k - 1]@);
                                                    assert(pv.take(k as int)[k - 1] == pv[k - 1]);
                                                    assert(pv[k - 1] == p@);
                                                    assert(views(ps@) =~= pv.take(ps@.len() as int));
                                                }
                                                let invoke = Frame { task: Task::Invoke { target: t }, tx: p };
                                                self.stack.push(invoke);
                                                proof {
                                                    assert(invoke_frames(t as int, pv).take(n - ps@.len())
                                                        =~= invoke_frames(t as int, pv).take(n - k).push(
                                                        (invoke.task, invoke.tx@),
                                                    ));
                                                    assert(stack_view(self.stack@) =~= stack_view(before).push(
                                                        (invoke.task, invoke.tx@),
                                                    ));
                                                }
                                            },
                                            None => {},
                                        }
                                    }
                                    proof {
                                        assert(invoke_frames(t as int, pv).take(n as int) =~= invoke_frames(t as int, pv));
                                    }
                                }
                                proof {
                                    let st = stack_view(self.stack@);
                                    assert forall|j: int| 0 <= j < st.len() implies task_wf(*rules, #[trigger] st[j].0) by {
                                        if j < sv.len() - 1 {
                                            assert(st[j] == sv[j]);
                                        }
                                    }
                                }
                                StepOutcome::Continued
                            },
                        }
                    },
                }
            },
        }
    }

    /// One step of evaluation; where it expands an ambiguous rule, the
    /// candidate is drawn from `ctx`'s random source by weight.
    pub fn step(&mut self, rules: &RuleSet, ctx: &mut ContextMut) -> (r: StepOutcome)
        requires
            rules.wf(),
            stack_wf(*rules, stack_view(old(self).stack@)),
        ensures
            stack_wf(*rules, stack_view(final(self).stack@)),
            !draws(*rules, stack_view(old(self).stack@)) ==> final(ctx).rng == old(ctx).rng,
            budgets_unique(budgets_view(old(ctx).depths@)) ==> budgets_unique(budgets_view(final(ctx).depths@)),
            exists|c: int|
                choice_ok(*rules, stack_view(old(self).stack@), c) && (
                stack_view(final(self).stack@),
                budgets_view(final(ctx).depths@),
                outcome_view(r),
            ) == step_spec(*rules, stack_view(old(self).stack@), budgets_view(old(ctx).depths@), c),
    {
        let ghost sv = stack_view(self.stack@);
        let mut choice: usize = 0;
        let n = self.stack.len();
        if n > 0 {
            proof {
                assert(sv.last() == (self.stack@[n - 1].task, self.stack@[n - 1].tx@));
                assert(task_wf(*rules, sv.last().0));
            }
            match self.stack[n - 1].task {
                Task::Invoke { target } => match &rules.rules[target] {
                    Rule::Ambiguous(a) => {
                        proof {
                            assert(crate::rules::ambiguous_wf(*a));
                        }
                        choice = sample_index(&mut ctx.rng, &a.weights);
                    },
                    _ => {},
                },
                _ => {},
            }
        }
        proof {
            assert(stack_view(self.stack@) == sv);
            assert(choice_ok(*rules, sv, choice as int));
        }
        let r = self.advance(rules, &mut ctx.depths, choice);
        proof {
            assert(choice_ok(*rules, sv, choice as int) && (
                stack_view(self.stack@),
                budgets_view(ctx.depths@),
                outcome_view(r),
            ) == step_spec(*rules, sv, budgets_view(old(ctx).depths@), choice as int));
        }
        r
    }
}

/// Where a run stands.
pub enum Status {
    Running,
    Finished,
    /// Failed with an error about the named rule.
    Failed(ErrorKind, Seq<char>),
}

/// The views of a list of leaves.
pub open spec fn item_views(v: Seq<(Transform, Primitive)>) -> Seq<(Seq<Step>, Primitive)> {
    v.map_values(|i: (Transform, Primitive)| (i.0@, i.1))
}

/// The state in which evaluation from `start` begins.
pub open spec fn initial_stack(start: Seq<Step>) -> Seq<(Task, Seq<Step>)> {
    seq![(Task::Actions { body: Body::Top, next: 0 }, start)]
}

/// The leaves yielded, the frames and budgets reached, and the status, after
/// one step for each of the choices `cs`, in order. A run that has finished
/// or failed takes no further step.
pub open spec fn run(
    rs: RuleSet,
    stack: Seq<(Task, Seq<Step>)>,
    bs: Seq<(Seq<char>, nat)>,
    cs: Seq<int>,
) -> (Seq<(Seq<Step>, Primitive)>, Seq<(Task, Seq<Step>)>, Seq<(Seq<char>, nat)>, Status)
    decreases cs.len(),
{
    if cs.len() == 0 {
        (Seq::empty(), stack, bs, Status::Running)
    } else {
        let (items, st, b, status) = run(rs, stack, bs, cs.drop_last());
        if status != Status::Running {
            (items, st, b, status)
        } else {
            let (st2, b2, o) = step_spec(rs, st, b, cs.last());
            match o {
                Outcome::Yield(t, p) => (items.push((t, p)), st2, b2, Status::Running),
                Outcome::Continue => (items, st2, b2, Status::Running),
                Outcome::Done => (items, st2, b2, Status::Finished),
                Outcome::Fail(e, name) => (items, st2, b2, Status::Failed(e, name)),
            }
        }
    }
}

/// Each choice of `cs` is one that may be drawn where it is used.
pub open spec fn valid_run(
    rs: RuleSet,
    stack: Seq<(Task, Seq<Step>)>,
    bs: Seq<(Seq<char>, nat)>,
    cs: Seq<int>,
) -> bool {
    forall|k: int|
        0 <= k < cs.len() ==> (#[trigger] run(rs, stack, bs, cs.take(k))).3 == Status::Running
            ==> choice_ok(rs, run(rs, stack, bs, cs.take(k)).1, cs[k])
}

/// Whether the next step from `stack` expands an ambiguous rule, and so
/// draws a candidate.
pub open spec fn draws(rs: RuleSet, stack: Seq<(Task, Seq<Step>)>) -> bool {
    stack.len() > 0 && match stack.last().0 {
        Task::Invoke { target } => target < rs.rules@.len() && rs.rules@[target as int] is Ambiguous,
        _ => false,
    }
}

/// A step that draws nothing does not depend on the choice.
proof fn lemma_step_ignores_choice(
    rs: RuleSet,
    stack: Seq<(Task, Seq<Step>)>,
    bs: Seq<(Seq<char>, nat)>,
    c1: int,
    c2: int,
)
    requires
        !draws(rs, stack),
        stack_wf(rs, stack),
    ensures
        step_spec(rs, stack, bs, c1) == step_spec(rs, stack, bs, c2),
{
    if stack.len() > 0 {
        assert(task_wf(rs, stack[stack.len() - 1].0));
    }
}

/// Whatever the random source draws, a table without ambiguous rules
/// evaluates to the same leaves, frames, budgets and status.
pub proof fn lemma_unambiguous_runs_agree(
    rs: RuleSet,
    stack: Seq<(Task, Seq<Step>)>,
    bs: Seq<(Seq<char>, nat)>,
    cs1: Seq<int>,
    cs2: Seq<int>,
)
    requires
        rs.wf(),
        stack_wf(rs, stack),
        forall|i: int| 0 <= i < rs.rules@.len() ==> !(#[trigger] rs.rules@[i] is Ambiguous),
        cs1.len() == cs2.len(),
    ensures
        run(rs, stack, bs, cs1) == run(rs, stack, bs, cs2),
    decreases cs1.len(),
{
    if cs1.len() > 0 {
        lemma_unambiguous_runs_agree(rs, stack, bs, cs1.drop_last(), cs2.drop_last());
        let (items, st, b, status) = run(rs, stack, bs, cs1.drop_last());
        if status == Status::Running {
            assert forall|k: int|
                0 <= k < cs1.drop_last().len() && (#[trigger] run(rs, stack, bs, cs1.drop_last().take(k))).3
                    == Status::Running implies choice_ok(
                rs,
                run(rs, stack, bs, cs1.drop_last().take(k)).1,
                cs1.drop_last()[k],
            ) by {
                let st_k = run(rs, stack, bs, cs1.drop_last().take(k)).1;
                if st_k.len() > 0 {
                    if let Task::Invoke { target } = st_k.last().0 {
                        if target < rs.rules@.len() {
                            assert(!(rs.rules@[target as int] is Ambiguous));
                        }
                    }
                }
            }
            lemma_run_keeps_stack_wf(rs, stack, bs, cs1.drop_last());
            if st.len() > 0 {
                if let Task::Invoke { target } = st.last().0 {
                    if target < rs.rules@.len() {
                        assert(!(rs.rules@[target as int] is Ambiguous));
                    }
                }
            }
            lemma_step_ignores_choice(rs, st, b, cs1.last(), cs2.last());
        }
    }
}

/// Evaluation is determined by the candidates drawn: two runs from the same
/// state whose choices agree at every step that draws reach the same
/// leaves, frames, budgets and status.
pub proof fn lemma_runs_agree_on_draws(
    rs: RuleSet,
    stack: Seq<(Task, Seq<Step>)>,
    bs: Seq<(Seq<char>, nat)>,
    cs1: Seq<int>,
    cs2: Seq<int>,
)
    requires
        rs.wf(),
        stack_wf(rs, stack),
        valid_run(rs, stack, bs, cs1),
        cs1.len() == cs2.len(),
        forall|k: int|
            0 <= k < cs1.len() && (#[trigger] run(rs, stack, bs, cs1.take(k))).3 == Status::Running
                && draws(rs, run(rs, stack, bs, cs1.take(k)).1) ==> cs1[k] == cs2[k],
    ensures
        run(rs, stack, bs, cs1) == run(rs, stack, bs, cs2),
    decreases cs1.len(),
{
    if cs1.len() > 0 {
        let p1 = cs1.drop_last();
        let p2 = cs2.drop_last();
        assert forall|k: int|
            0 <= k < p1.len() && (#[trigger] run(rs, stack, bs, p1.take(k))).3 == Status::Running
            implies choice_ok(rs, run(rs, stack, bs, p1.take(k)).1, p1[k]) by {
            assert(p1.take(k) =~= cs1.take(k));
            assert(run(rs, stack, bs, cs1.take(k)).3 == Status::Running);
        }
        assert forall|k: int|
            0 <= k < p1.len() && (#[trigger] run(rs, stack, bs, p1.take(k))).3 == Status::Running
                && draws(rs, run(rs, stack, bs, p1.take(k)).1) implies p1[k] == p2[k] by {
            assert(p1.take(k) =~= cs1.take(k));
            assert(run(rs, stack, bs, cs1.take(k)).3 == Status::Running);
        }
        lemma_runs_agree_on_draws(rs, stack, bs, p1, p2);
        let (items, st, b, status) = run(rs, stack, bs, p1);
        if status == Status::Running {
            lemma_run_keeps_stack_wf(rs, stack, bs, p1);
            assert(cs1.take(cs1.len() - 1) =~= p1);
            if draws(rs, st) {
                assert(run(rs, stack, bs, cs1.take(cs1.len() - 1)).3 == Status::Running);
                assert(cs1[cs1.len() - 1] == cs2[cs1.len() - 1]);
            } else {
                lemma_step_ignores_choice(rs, st, b, cs1.last(), cs2.last());
            }
        }
    }
}

/// Every state that a run reaches holds only well-formed frames.
pub proof fn lemma_run_keeps_stack_wf(
    rs: RuleSet,
    stack: Seq<(Task, Seq<Step>)>,
    bs: Seq<(Seq<char>, nat)>,
    cs: Seq<int>,
)
    requires
        rs.wf(),
        stack_wf(rs, stack),
        valid_run(rs, stack, bs, cs),
    ensures
        run(rs, stack, bs, cs).3 == Status::Running ==> stack_wf(rs, run(rs, stack, bs, cs).1),
    decreases cs.len(),
{
    if cs.len() > 0 {
        let prev = cs.drop_last();
        assert forall|k: int|
            0 <= k < prev.len() && (#[trigger] run(rs, stack, bs, prev.take(k))).3 == Status::Running
            implies choice_ok(rs, run(rs, stack, bs, prev.take(k)).1, prev[k]) by {
            assert(prev.take(k) =~= cs.take(k));
            assert(run(rs, stack, bs, cs.take(k)).3 == Status::Running);
        }
        lemma_run_keeps_stack_wf(rs, stack, bs, prev);
        let (items, st, b, status) = run(rs, stack, bs, prev);
        if status == Status::Running {
            assert(cs.take(cs.len() - 1) =~= prev);
            assert(run(rs, stack, bs, cs.take(cs.len() - 1)).3 == Status::Running);
            lemma_step_keeps_stack_wf(rs, st, b, cs.last());
        }
    }
}

proof fn lemma_step_keeps_stack_wf(
    rs: RuleSet,
    stack: Seq<(Task, Seq<Step>)>,
    bs: Seq<(Seq<char>, nat)>,
    c: int,
)
    requires
        rs.wf(),
        stack_wf(rs, stack),
        choice_ok(rs, stack, c),
    ensures
        stack_wf(rs, step_spec(rs, stack, bs, c).0),
{
    if stack.len() > 0 {
        let (task, tx) = stack.last();
        let rest = stack.drop_last();
        assert(task_wf(rs, stack[stack.len() - 1].0));
        assert(stack_wf(rs, rest)) by {
            assert forall|j: int| 0 <= j < rest.len() implies task_wf(rs, #[trigger] rest[j].0) by {
                assert(rest[j] == stack[j]);
            }
        }
        let st = step_spec(rs, stack, bs, c).0;
        match task {
            Task::Actions { body, next } => {
                let acts = body_actions(rs, body);
                if next < acts.len() {
                    if let Action::Transform(ta) = acts[next as int] {
                        if let Some(t) = lookup(rs, ta.rule@) {
                            let ps = placements(tx, ta.loops@);
                            let resumed = rest.push((Task::Actions { body, next: (next + 1) as usize }, tx));
                            assert forall|j: int| 0 <= j < st.len() implies task_wf(rs, #[trigger] st[j].0) by {
                                if j < rest.len() {
                                    assert(st[j] == rest[j]);
                                } else if j > rest.len() {
                                    assert(st[j] == invoke_frames(t, ps)[j - resumed.len()]);
                                }
                            }
                        }
                    }
                }
            },
            Task::Invoke { target } => {},
        }
        assert forall|j: int| 0 <= j < st.len() implies task_wf(rs, #[trigger] st[j].0) by {
            if j < rest.len() {
                assert(st[j] == rest[j]);
            }
        }
    }
}

impl RuleSet {
    /// A walk of this table from the top-level rule under `start`.
    pub fn iter(&self, start: Transform) -> (r: RuleSetIterator)
        ensures
            stack_view(r.stack@) == initial_stack(start@),
    {
        RuleSetIterator::new(start)
    }

    /// Evaluates the table from `start`: the leaves, in order, of at most
    /// `max_steps` steps. There is a sequence of admissible choices whose
    /// run gives the result: its leaves where it finishes, its error where
    /// it fails (an unknown rule's name is the error's slice), and
    /// `StepLimit` where it is still running after
    /// `max_steps` steps. The budgets in `ctx` carry over, as the run left
    /// them. A self-recursive rule without a max depth never finishes:
    /// `max_steps` bounds the work such a grammar causes.
    pub fn evaluate(&self, ctx: &mut ContextMut, start: Transform, max_steps: usize) -> (r: Result<
        Vec<(Transform, Primitive)>,
        Error,
    >)
        requires
            self.wf(),
        ensures
            budgets_unique(budgets_view(old(ctx).depths@)) ==> budgets_unique(budgets_view(final(ctx).depths@)),
            exists|cs: Seq<int>|
                #![trigger run(*self, initial_stack(start@), budgets_view(old(ctx).depths@), cs)]
                cs.len() <= max_steps && valid_run(
                    *self,
                    initial_stack(start@),
                    budgets_view(old(ctx).depths@),
                    cs,
                ) && ({
                    let (items, _st, bs, status) = run(
                        *self,
                        initial_stack(start@),
                        budgets_view(old(ctx).depths@),
                        cs,
                    );
                    &&& budgets_view(final(ctx).depths@) == bs
                    &&& match r {
                        Ok(v) => status == Status::Finished && item_views(v@) == items,
                        Err(e) => status == Status::Failed(e.kind, e.slice@) || (e.kind
                            == ErrorKind::StepLimit && status == Status::Running && cs.len()
                            == max_steps),
                    }
                }),
    {
        let ghost init = initial_stack(start@);
        let ghost bs0 = budgets_view(ctx.depths@);
        let mut it = RuleSetIterator::new(start);
        let mut out: Vec<(Transform, Primitive)> = Vec::new();
        let ghost mut cs: Seq<int> = Seq::empty();
        let mut steps: usize = 0;
        proof {
            assert(task_wf(*self, init[0].0));
            assert(stack_wf(*self, init));
            assert(item_views(out@) =~= Seq::<(Seq<Step>, Primitive)>::empty());
        }
        while steps < max_steps
            invariant
                self.wf(),
                steps <= max_steps,
                cs.len() == steps,
                init == initial_stack(start@),
                bs0 == budgets_view(old(ctx).depths@),
                budgets_unique(bs0) ==> budgets_unique(budgets_view(ctx.depths@)),
                stack_wf(*self, stack_view(it.stack@)),
                valid_run(*self, init, bs0, cs),
                run(*self, init, bs0, cs) == (
                    item_views(out@),
                    stack_view(it.stack@),
                    budgets_view(ctx.depths@),
                    Status::Running,
                ),
            decreases max_steps - steps,
        {
            let ghost st = stack_view(it.stack@);
            let ghost b = budgets_view(ctx.depths@);
            let ghost before = out@;
            let o = it.step(self, ctx);
            let ghost c = choose|c: int|
                choice_ok(*self, st, c) && (
                    stack_view(it.stack@),
                    budgets_view(ctx.depths@),
                    outcome_view(o),
                ) == step_spec(*self, st, b, c);
            let ghost old_cs = cs;
            proof {
                cs = cs.push(c);
                assert(cs.drop_last() =~= old_cs);
                assert forall|k: int|
                    0 <= k < cs.len() && (#[trigger] run(*self, init, bs0, cs.take(k))).3 == Status::Running
                    implies choice_ok(*self, run(*self, init, bs0, cs.take(k)).1, cs[k]) by {
                    if k < old_cs.len() {
                        assert(cs.take(k) =~= old_cs.take(k));
                    } else {
                        assert(cs.take(k) =~= old_cs);
                    }
                }
            }
            steps = steps + 1;
            match o {
                StepOutcome::Yielded(t, p) => {
                    out.push((t, p));
                    proof {
                        assert(item_views(out@) =~= item_views(before).push((t@, p)));
                    }
                },
                StepOutcome::Continued => {},
                StepOutcome::Finished => {
                    proof {
                        assert(run(*self, init, bs0, cs).3 == Status::Finished);
                        assert(run(*self, init, bs0, cs).0 == item_views(out@));
                    }
                    return Ok(out);
                },
                StepOutcome::Failed(e) => {
                    proof {
                        assert(run(*self, init, bs0, cs).3 == Status::Failed(e.kind, e.slice@));
                    }
                    return Err(e);
                },
            }
        }
        Err(Error { kind: ErrorKind::StepLimit, start: 0, end: 0, slice: String::new() })
    }
}

impl RuleSetIterator {
    /// The next leaf, taking at most `max_steps` steps: `None` where the walk
    /// is over, `StepLimit` where no leaf came within the steps allowed. There
    /// is a sequence of admissible choices whose run from the current state
    /// yields exactly that leaf, or none, and reaches the new state.
    pub fn next(&mut self, rules: &RuleSet, ctx: &mut ContextMut, max_steps: usize) -> (r: Option<
        Result<(Transform, Primitive), Error>,
    >)
        requires
            rules.wf(),
            stack_wf(*rules, stack_view(old(self).stack@)),
        ensures
            stack_wf(*rules, stack_view(final(self).stack@)),
            budgets_unique(budgets_view(old(ctx).depths@)) ==> budgets_unique(budgets_view(final(ctx).depths@)),
            exists|cs: Seq<int>|
                #![trigger run(*rules, stack_view(old(self).stack@), budgets_view(old(ctx).depths@), cs)]
                cs.len() <= max_steps && valid_run(
                    *rules,
                    stack_view(old(self).stack@),
                    budgets_view(old(ctx).depths@),
                    cs,
                ) && ({
                    let (items, st, bs, status) = run(
                        *rules,
                        stack_view(old(self).stack@),
                        budgets_view(old(ctx).depths@),
                        cs,
                    );
                    &&& budgets_view(final(ctx).depths@) == bs
                    &&& st == stack_view(final(self).stack@)
                    &&& match r {
                        Some(Ok((t, p))) => status == Status::Running && items == seq![(t@, p)],
                        None => status == Status::Finished && items.len() == 0,
                        Some(Err(e)) => items.len() == 0 && (status == Status::Failed(e.kind, e.slice@)
                            || (e.kind == ErrorKind::StepLimit && status == Status::Running && cs.len()
                            == max_steps)),
                    }
                }),
    {
        let ghost init = stack_view(self.stack@);
        let ghost bs0 = budgets_view(ctx.depths@);
        let ghost mut cs: Seq<int> = Seq::empty();
        let mut steps: usize = 0;
        while steps < max_steps
            invariant
                rules.wf(),
                steps <= max_steps,
                cs.len() == steps,
                init == stack_view(old(self).stack@),
                bs0 == budgets_view(old(ctx).depths@),
                budgets_unique(bs0) ==> budgets_unique(budgets_view(ctx.depths@)),
                stack_wf(*rules, stack_view(self.stack@)),
                valid_run(*rules, init, bs0, cs),
                run(*rules, init, bs0, cs) == (
                    Seq::<(Seq<Step>, Primitive)>::empty(),
                    stack_view(self.stack@),
                    budgets_view(ctx.depths@),
                    Status::Running,
                ),
            decreases max_steps - steps,
        {
            let ghost st = stack_view(self.stack@);
            let ghost b = budgets_view(ctx.depths@);
            let o = self.step(rules, ctx);
            let ghost c = choose|c: int|
                choice_ok(*rules, st, c) && (
                    stack_view(self.stack@),
                    budgets_view(ctx.depths@),
                    outcome_view(o),
                ) == step_spec(*rules, st, b, c);
            let ghost old_cs = cs;
            proof {
                cs = cs.push(c);
                assert(cs.drop_last() =~= old_cs);
                assert forall|k: int|
                    0 <= k < cs.len() && (#[trigger] run(*rules, init, bs0, cs.take(k))).3
                        == Status::Running implies choice_ok(
                    *rules,
                    run(*rules, init, bs0, cs.take(k)).1,
                    cs[k],
                ) by {
                    if k < old_cs.len() {
                        assert(cs.take(k) =~= old_cs.take(k));
                    } else {
                        assert(cs.take(k) =~= old_cs);
                    }
                }
            }
            steps = steps + 1;
            match o {
                StepOutcome::Yielded(t, p) => {
                    proof {
                        assert(Seq::<(Seq<Step>, Primitive)>::empty().push((t@, p)) =~= seq![(t@, p)]);
                        assert(run(*rules, init, bs0, cs).0 == seq![(t@, p)]);
                        assert(run(*rules, init, bs0, cs).1 == stack_view(self.stack@));
                        assert(run(*rules, init, bs0, cs).2 == budgets_view(ctx.depths@));
                        assert(run(*rules, init, bs0, cs).3 == Status::Running);
                    }
                    return Some(Ok((t, p)));
                },
                StepOutcome::Continued => {},
                StepOutcome::Finished => {
                    proof {
                        assert(run(*rules, init, bs0, cs).0.len() == 0);
                        assert(run(*rules, init, bs0, cs).1 == stack_view(self.stack@));
                        assert(run(*rules, init, bs0, cs).3 == Status::Finished);
                    }
                    return None;
                },
                StepOutcome::Failed(e) => {
                    proof {
                        assert(run(*rules, init, bs0, cs).0.len() == 0);
                        assert(run(*rules, init, bs0, cs).1 == stack_view(self.stack@));
                        assert(run(*rules, init, bs0, cs).3 == Status::Failed(e.kind, e.slice@));
                    }
                    return Some(Err(e));
                },
            }
        }
        Some(Err(Error { kind: ErrorKind::StepLimit, start: 0, end: 0, slice: String::new() }))
    }
}

} // verus!
