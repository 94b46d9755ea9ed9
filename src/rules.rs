use vstd::prelude::*;
use crate::error::ErrorKind;
use crate::number::{Number, MANTISSA_LIMIT, pow10};
use crate::transform::{Step, Transform, repeat};

verus! {

/// A terminal production: a kind of shape for the renderer.
#[derive(Clone, Copy, Debug, PartialEq, Eq, Structural, PartialOrd, Ord)]
pub enum Primitive {
    Box,
    Sphere,
    Dot,
    Grid,
    Cylinder,
    Line,
    Mesh,
    Template,
    Other,
}

impl Primitive {
    /// The canonical lowercase name, the key of the primitive in a rule table.
    pub open spec fn spec_name(&self) -> Seq<char> {
        match self {
            Primitive::Box => seq!['b', 'o', 'x'],
            Primitive::Sphere => seq!['s', 'p', 'h', 'e', 'r', 'e'],
            Primitive::Dot => seq!['d', 'o', 't'],
            Primitive::Grid => seq!['g', 'r', 'i', 'd'],
            Primitive::Cylinder => seq!['c', 'y', 'l', 'i', 'n', 'd', 'e', 'r'],
            Primitive::Line => seq!['l', 'i', 'n', 'e'],
            Primitive::Mesh => seq!['m', 'e', 's', 'h'],
            Primitive::Template => seq!['t', 'e', 'm', 'p', 'l', 'a', 't', 'e'],
            Primitive::Other => seq!['o', 't', 'h', 'e', 'r'],
        }
    }

    /// The canonical lowercase name.
    pub fn name(&self) -> (r: &'static str)
        ensures
            r@ == self.spec_name(),
    {
        match self {
            Primitive::Box => {
                proof {
                    reveal_strlit("box");
                }
                "box"
            },
            Primitive::Sphere => {
                proof {
                    reveal_strlit("sphere");
                }
                "sphere"
            },
            Primitive::Dot => {
                proof {
                    reveal_strlit("dot");
                }
                "dot"
            },
            Primitive::Grid => {
                proof {
                    reveal_strlit("grid");
                }
                "grid"
            },
            Primitive::Cylinder => {
                proof {
                    reveal_strlit("cylinder");
                }
                "cylinder"
            },
            Primitive::Line => {
                proof {
                    reveal_strlit("line");
                }
                "line"
            },
            Primitive::Mesh => {
                proof {
                    reveal_strlit("mesh");
                }
                "mesh"
            },
            Primitive::Template => {
                proof {
                    reveal_strlit("template");
                }
                "template"
            },
            Primitive::Other => {
                proof {
                    reveal_strlit("other");
                }
                "other"
            },
        }
    }
}

/// The nine primitives, in the order in which a table lists them.
pub open spec fn primitive_rules() -> Seq<Rule> {
    seq![Rule::Primitive(Primitive::Box), Rule::Primitive(Primitive::Sphere), Rule::Primitive(Primitive::Dot), Rule::Primitive(Primitive::Grid), Rule::Primitive(Primitive::Cylinder), Rule::Primitive(Primitive::Line), Rule::Primitive(Primitive::Mesh), Rule::Primitive(Primitive::Template), Rule::Primitive(Primitive::Other)]
}

/// What a definition says of its rule besides its body.
#[derive(Clone, Debug, PartialEq)]
pub struct RuleDefinition {
    pub name: String,
    /// How many times the rule may expand before a budget suppresses it.
    pub max_depth: Option<usize>,
    /// The rule named after `>` in the definition.
    pub retirement_rule: Option<String>,
    /// The relative chance of this definition among those of its name. It
    /// is positive, has at most `WEIGHT_SCALE` decimals and is at most
    /// `10^9`, so that weights count exactly in `u64` units.
    pub weight: Number,
}

/// A rule defined by the program: a list of actions.
#[derive(Clone, Debug, PartialEq)]
pub struct Custom {
    pub rule: RuleDefinition,
    pub actions: Vec<Action>,
}

/// Several definitions under one name, one of which is drawn at each use.
#[derive(Clone, Debug, PartialEq)]
pub struct Ambiguous {
    pub name: String,
    pub actions: Vec<Custom>,
    /// The weight of each candidate, in units of `10^-WEIGHT_SCALE`.
    pub weights: Vec<u64>,
}

#[derive(Clone, Debug, PartialEq)]
pub enum Rule {
    Primitive(Primitive),
    Custom(Custom),
    Ambiguous(Ambiguous),
}

/// A global setting.
#[derive(Clone, Copy, Debug, PartialEq, Eq, Structural)]
pub enum SetAction {
    MaxDepth(usize),
}

/// `count * { transform }`.
#[derive(Clone, Debug, PartialEq)]
pub struct TransformationLoop {
    pub count: usize,
    pub transform: Transform,
}

/// An invocation of `rule` under a list of loops.
#[derive(Clone, Debug, PartialEq)]
pub struct TransformAction {
    pub loops: Vec<TransformationLoop>,
    pub rule: String,
}

#[derive(Clone, Debug, PartialEq)]
pub enum Action {
    Setting(SetAction),
    Transform(TransformAction),
}

/// A loop as its count and the steps of its transform.
pub open spec fn loop_view(l: TransformationLoop) -> (nat, Seq<Step>) {
    (l.count as nat, l.transform@)
}

pub open spec fn loops_view(ls: Seq<TransformationLoop>) -> Seq<(nat, Seq<Step>)> {
    ls.map_values(|l: TransformationLoop| loop_view(l))
}

/// An action over views.
pub enum ActionView {
    Setting(SetAction),
    Invoke(Seq<(nat, Seq<Step>)>, Seq<char>),
}

pub open spec fn action_view(a: Action) -> ActionView {
    match a {
        Action::Setting(s) => ActionView::Setting(s),
        Action::Transform(t) => ActionView::Invoke(loops_view(t.loops@), t.rule@),
    }
}

pub open spec fn actions_view(v: Seq<Action>) -> Seq<ActionView> {
    v.map_values(|a: Action| action_view(a))
}

/// What the modifiers of a rule definition set.
pub struct Modifiers {
    pub max_depth: Option<usize>,
    pub retirement_rule: Option<Seq<char>>,
    pub weight: Number,
}

/// A rule definition over views.
pub struct DefinitionView {
    pub name: Seq<char>,
    pub modifiers: Modifiers,
    pub actions: Seq<ActionView>,
}

pub open spec fn option_view(o: Option<String>) -> Option<Seq<char>> {
    match o {
        Some(s) => Some(s@),
        None => None,
    }
}

pub open spec fn definition_view(c: Custom) -> DefinitionView {
    DefinitionView {
        name: c.rule.name@,
        modifiers: Modifiers {
            max_depth: c.rule.max_depth,
            retirement_rule: option_view(c.rule.retirement_rule),
            weight: c.rule.weight,
        },
        actions: actions_view(c.actions@),
    }
}

/// The definitions that a rule stands for: a custom rule's own, an
/// ambiguous rule's candidates in order; none for a primitive.
pub open spec fn candidates_of(r: Rule) -> Seq<DefinitionView> {
    match r {
        Rule::Custom(c) => seq![definition_view(c)],
        Rule::Ambiguous(a) => a.actions@.map_values(|c: Custom| definition_view(c)),
        Rule::Primitive(_) => Seq::empty(),
    }
}

/// The name under which a rule stands in a table.
pub open spec fn rule_name(r: Rule) -> Seq<char> {
    match r {
        Rule::Primitive(p) => p.spec_name(),
        Rule::Custom(c) => c.rule.name@,
        Rule::Ambiguous(a) => a.name@,
    }
}

/// The max depth a rule declares: a custom rule's own. Primitives and
/// ambiguous rules have none, so no budget applies to them.
pub open spec fn rule_max_depth(r: Rule) -> Option<usize> {
    match r {
        Rule::Custom(c) => c.rule.max_depth,
        _ => None,
    }
}

impl Rule {
    /// The name of the rule.
    pub fn name(&self) -> (r: &str)
        ensures
            r@ == rule_name(*self),
    {
        match self {
            Rule::Primitive(inner) => inner.name(),
            Rule::Custom(inner) => inner.rule.name.as_str(),
            Rule::Ambiguous(inner) => inner.name.as_str(),
        }
    }

    /// The expansion budget of the rule: a custom rule's declared max depth.
    pub fn max_depth(&self) -> (r: Option<usize>)
        ensures
            r == rule_max_depth(*self),
    {
        match self {
            Rule::Primitive(_) => None,
            Rule::Custom(inner) => inner.rule.max_depth,
            Rule::Ambiguous(_) => None,
        }
    }
}

/// Whether two texts are equal.
pub fn same_text(a: &str, b: &str) -> (r: bool)
    ensures
        r == (a@ == b@),
{
    let n = a.unicode_len();
    if n != b.unicode_len() {
        return false;
    }
    let mut i: usize = 0;
    while i < n
        invariant
            n == a@.len(),
            n == b@.len(),
            i <= n,
            forall|j: int| 0 <= j < i ==> a@[j] == b@[j],
        decreases n - i,
    {
        if a.get_char(i) != b.get_char(i) {
            return false;
        }
        i = i + 1;
    }
    proof {
        assert(a@ =~= b@);
    }
    true
}

/// The resolved grammar: the rules by name, and the implicit top-level rule
/// whose actions are the program's outermost statements.
#[derive(Clone, Debug)]
pub struct RuleSet {
    pub top_level: Custom,
    pub rules: Vec<Rule>,
}

impl RuleSet {
    /// Names are unique keys, and each group of same-named definitions
    /// carries a usable weight for each candidate.
    pub open spec fn wf(&self) -> bool {
        &&& forall|i: int, j: int|
            0 <= i < j < self.rules@.len() ==> rule_name(#[trigger] self.rules@[i]) != rule_name(
                #[trigger] self.rules@[j],
            )
        &&& forall|i: int|
            0 <= i < self.rules@.len() ==> (#[trigger] self.rules@[i] matches Rule::Ambiguous(a)
                ==> ambiguous_wf(a))
        &&& forall|i: int|
            0 <= i < self.rules@.len() ==> (#[trigger] self.rules@[i] matches Rule::Custom(c)
                ==> valid_weight(c.rule.weight))
    }

    /// Adds a rule definition. A new name gets its own entry. Under a custom
    /// rule's name the two definitions become one ambiguous rule; under an
    /// ambiguous rule's name the definition joins its candidates. A
    /// primitive's name, or candidates whose weights sum past `u64::MAX`,
    /// give `DuplicateRuleOverflow` and leave the table as it was.
    pub fn push(&mut self, rule: Custom) -> (r: Result<(), ErrorKind>)
        requires
            old(self).wf(),
            valid_weight(rule.rule.weight),
        ensures
            final(self).wf(),
            final(self).top_level == old(self).top_level,
            (forall|i: int|
                0 <= i < old(self).rules@.len() ==> rule_name(#[trigger] old(self).rules@[i])
                    != rule.rule.name@) ==> r is Ok && final(self).rules@ == old(self).rules@.push(
                Rule::Custom(rule),
            ),
            forall|i: int|
                0 <= i < old(self).rules@.len() && rule_name(#[trigger] old(self).rules@[i])
                    == rule.rule.name@ ==> match old(self).rules@[i] {
                    Rule::Primitive(_) => r == Err::<(), ErrorKind>(ErrorKind::DuplicateRuleOverflow)
                        && final(self).rules@ == old(self).rules@,
                    Rule::Custom(c) => merged(
                        old(self).rules@,
                        final(self).rules@,
                        i,
                        seq![c, rule],
                        seq![weight_units(c.rule.weight) as u64, weight_units(rule.rule.weight) as u64],
                        r,
                    ),
                    Rule::Ambiguous(a) => merged(
                        old(self).rules@,
                        final(self).rules@,
                        i,
                        a.actions@.push(rule),
                        a.weights@.push(weight_units(rule.rule.weight) as u64),
                        r,
                    ),
                },
    {
        let w = weight_units_of(rule.rule.weight);
        let w = match w {
            Some(w) => w,
            None => {
                return Err(ErrorKind::DuplicateRuleOverflow);
            },
        };
        let found = self.find(rule.rule.name.as_str());
        let i = match found {
            None => {
                self.rules.push(Rule::Custom(rule));
                proof {
                    assert(forall|j: int| 0 <= j < old(self).rules@.len() ==> self.rules@[j] == old(self).rules@[j]);
                }
                return Ok(());
            },
            Some(i) => i,
        };
        proof {
            assert forall|j: int| 0 <= j < old(self).rules@.len() && j != i implies rule_name(
                #[trigger] old(self).rules@[j]) != rule.rule.name@ by {
                if j < i {
                    assert(rule_name(old(self).rules@[j]) != rule_name(old(self).rules@[i as int]));
                } else {
                    assert(rule_name(old(self).rules@[i as int]) != rule_name(old(self).rules@[j]));
                }
            }
            if let Rule::Ambiguous(a) = old(self).rules@[i as int] {
                assert(ambiguous_wf(a));
            }
            if let Rule::Custom(c) = old(self).rules@[i as int] {
                assert(valid_weight(c.rule.weight));
            }
        }
        let weights: Vec<u64> = match &self.rules[i] {
            Rule::Primitive(_) => {
                return Err(ErrorKind::DuplicateRuleOverflow);
            },
            Rule::Custom(c) => {
                let cw = weight_units_of(c.rule.weight);
                let cw = match cw {
                    Some(cw) => cw,
                    None => {
                        return Err(ErrorKind::DuplicateRuleOverflow);
                    },
                };
                let mut ws: Vec<u64> = Vec::new();
                ws.push(cw);
                proof {
                    assert(ws@.drop_last() =~= Seq::<u64>::empty());
                    assert(weight_sum(ws@.drop_last()) == 0);
                    assert(ws@.last() == cw);
                    assert(weight_sum(ws@) == cw);
                }
                ws
            },
            Rule::Ambiguous(a) => copy_weights(&a.weights),
        };
        let ghost spec_weights = match old(self).rules@[i as int] {
            Rule::Custom(c) => seq![weight_units(c.rule.weight) as u64, weight_units(rule.rule.weight) as u64],
            Rule::Ambiguous(a) => a.weights@.push(weight_units(rule.rule.weight) as u64),
            Rule::Primitive(_) => Seq::empty(),
        };
        proof {
            assert(spec_weights =~= weights@.push(w));
            assert(weights@.push(w).drop_last() =~= weights@);
        }
        let total = total_weight(&weights);
        match total.checked_add(w) {
            None => {
                return Err(ErrorKind::DuplicateRuleOverflow);
            },
            Some(_) => {},
        }
        let mut weights = weights;
        weights.push(w);
        let existing = self.rules.remove(i);
        let name = rule.rule.name.clone();
        let candidates: Vec<Custom> = match existing {
            Rule::Custom(c) => {
                let mut v: Vec<Custom> = Vec::new();
                v.push(c);
                v.push(rule);
                v
            },
            Rule::Ambiguous(a) => {
                let mut v = a.actions;
                v.push(rule);
                v
            },
            Rule::Primitive(_) => {
                proof {
                    assert(false);
                }
                Vec::new()
            },
        };
        let merged_rule = Rule::Ambiguous(Ambiguous { name, actions: candidates, weights });
        self.rules.insert(i, merged_rule);
        proof {
            assert(self.rules@ =~= old(self).rules@.update(i as int, merged_rule));
            let a = merged_rule->Ambiguous_0;
            assert(a.actions@.len() == a.weights@.len());
            assert(a.actions@.len() >= 2);
            assert forall|k: int| 0 <= k < a.weights@.len() implies #[trigger] a.weights@[k] == weight_units(
                a.actions@[k].rule.weight) && a.weights@[k] > 0 by {
                if k < a.weights@.len() - 1 {
                    assert(a.weights@[k] == weights@.drop_last()[k]);
                }
            }
            assert(ambiguous_wf(a));
            match old(self).rules@[i as int] {
                Rule::Custom(c) => {
                    assert(a.actions@ =~= seq![c, rule]);
                },
                _ => {},
            }
            assert forall|x: int, y: int|
                0 <= x < y < self.rules@.len() implies rule_name(#[trigger] self.rules@[x]) != rule_name(
                #[trigger] self.rules@[y]) by {
                if x != i && y != i {
                    assert(rule_name(old(self).rules@[x]) != rule_name(old(self).rules@[y]));
                }
            }
        }
        Ok(())
    }

    /// A table that holds the nine primitives and an empty top level.
    pub fn new() -> (r: RuleSet)
        ensures
            r.rules@ == primitive_rules(),
            r.top_level.actions@.len() == 0,
            r.top_level.rule.max_depth is None,
            r.wf(),
    {
        let mut v: Vec<Rule> = Vec::new();
    v.push(Rule::Primitive(Primitive::Box));
    v.push(Rule::Primitive(Primitive::Sphere));
    v.push(Rule::Primitive(Primitive::Dot));
    v.push(Rule::Primitive(Primitive::Grid));
    v.push(Rule::Primitive(Primitive::Cylinder));
    v.push(Rule::Primitive(Primitive::Line));
    v.push(Rule::Primitive(Primitive::Mesh));
    v.push(Rule::Primitive(Primitive::Template));
    v.push(Rule::Primitive(Primitive::Other));
        proof {
            assert(v@ =~= primitive_rules());
            lemma_primitive_names_differ();
        }
        RuleSet {
            top_level: Custom {
                rule: RuleDefinition {
                    name: "Top Level".to_owned(),
                    max_depth: None,
                    retirement_rule: None,
                    weight: Number::one(),
                },
                actions: Vec::new(),
            },
            rules: v,
        }
    }

    /// Appends a statement to the top-level rule.
    pub fn add_action(&mut self, action: Action)
        ensures
            final(self).top_level.actions@ == old(self).top_level.actions@.push(action),
            final(self).top_level.rule == old(self).top_level.rule,
            final(self).rules@ == old(self).rules@,
    {
        self.top_level.actions.push(action);
    }

    /// The position of the rule named `name`.
    pub fn find(&self, name: &str) -> (r: Option<usize>)
        ensures
            match r {
                Some(i) => i < self.rules@.len() && rule_name(self.rules@[i as int]) == name@,
                None => forall|i: int|
                    0 <= i < self.rules@.len() ==> rule_name(#[trigger] self.rules@[i]) != name@,
            },
    {
        let mut i: usize = 0;
        while i < self.rules.len()
            invariant
                i <= self.rules@.len(),
                forall|j: int| 0 <= j < i ==> rule_name(#[trigger] self.rules@[j]) != name@,
            decreases self.rules@.len() - i,
        {
            if same_text(self.rules[i].name(), name) {
                return Some(i);
            }
            i = i + 1;
        }
        None
    }
}

impl Default for RuleSet {
    /// The same as `RuleSet::new`.
    fn default() -> (r: RuleSet)
        ensures
            r.rules@ == primitive_rules(),
            r.top_level.actions@.len() == 0,
            r.wf(),
    {
        RuleSet::new()
    }
}

proof fn lemma_primitive_names_differ()
    ensures
        forall|i: int, j: int|
            0 <= i < j < primitive_rules().len() ==> rule_name(#[trigger] primitive_rules()[i])
                != rule_name(#[trigger] primitive_rules()[j]),
{
    assert forall|i: int, j: int|
        0 <= i < j < primitive_rules().len() implies rule_name(#[trigger] primitive_rules()[i])
        != rule_name(#[trigger] primitive_rules()[j]) by {
        assert(rule_name(primitive_rules()[i])[0] != rule_name(primitive_rules()[j])[0]);
    }
}

/// At least two candidates; candidates and weights agree, each weight is
/// positive, and the total fits a `u64`.
pub open spec fn ambiguous_wf(a: Ambiguous) -> bool {
    &&& a.actions@.len() >= 2
    &&& a.weights@.len() == a.actions@.len()
    &&& forall|k: int|
        0 <= k < a.weights@.len() ==> #[trigger] a.weights@[k] == weight_units(
            a.actions@[k].rule.weight,
        ) && a.weights@[k] > 0
    &&& weight_sum(a.weights@) <= u64::MAX
}

/// Weights are counted in units of `10^-WEIGHT_SCALE`.
pub const WEIGHT_SCALE: u32 = 9;

/// A weight in units of `10^-WEIGHT_SCALE`.
pub open spec fn weight_units(w: Number) -> int {
    w.mantissa * pow10((WEIGHT_SCALE - w.scale) as nat)
}

/// A weight is usable when it is positive, has at most `WEIGHT_SCALE`
/// decimals, and is at most `10^18` units.
pub open spec fn valid_weight(w: Number) -> bool {
    w.scale <= WEIGHT_SCALE && 0 < weight_units(w) <= MANTISSA_LIMIT
}

/// `after` is `before` with entry `i` replaced by an ambiguous rule of the
/// same name over `candidates` and `weights`, or, where the weights sum past
/// `u64::MAX`, the push failed and nothing changed.
pub open spec fn merged(
    before: Seq<Rule>,
    after: Seq<Rule>,
    i: int,
    candidates: Seq<Custom>,
    weights: Seq<u64>,
    r: Result<(), ErrorKind>,
) -> bool {
    if weight_sum(weights) > u64::MAX {
        r == Err::<(), ErrorKind>(ErrorKind::DuplicateRuleOverflow) && after == before
    } else {
        &&& r is Ok
        &&& after.len() == before.len()
        &&& forall|j: int| 0 <= j < before.len() && j != i ==> after[j] == before[j]
        &&& after[i] matches Rule::Ambiguous(a) && a.name@ == rule_name(before[i])
            && a.actions@ == candidates && a.weights@ == weights
    }
}

pub open spec fn weight_sum(ws: Seq<u64>) -> int
    decreases ws.len(),
{
    if ws.len() == 0 {
        0
    } else {
        weight_sum(ws.drop_last()) + ws.last()
    }
}

proof fn lemma_weight_sum_prefix(ws: Seq<u64>, i: int)
    requires
        0 <= i <= ws.len(),
    ensures
        0 <= weight_sum(ws.take(i)) <= weight_sum(ws),
    decreases ws.len(),
{
    if i == ws.len() {
        assert(ws.take(i) =~= ws);
        lemma_weight_sum_nonneg(ws);
    } else {
        lemma_weight_sum_prefix(ws.drop_last(), i);
        assert(ws.drop_last().take(i) =~= ws.take(i));
    }
}

proof fn lemma_weight_sum_nonneg(ws: Seq<u64>)
    ensures
        weight_sum(ws) >= 0,
    decreases ws.len(),
{
    if ws.len() > 0 {
        lemma_weight_sum_nonneg(ws.drop_last());
    }
}

/// The sum of `ws`.
fn total_weight(ws: &Vec<u64>) -> (r: u64)
    requires
        weight_sum(ws@) <= u64::MAX,
    ensures
        r == weight_sum(ws@),
{
    let mut t: u64 = 0;
    let mut i: usize = 0;
    while i < ws.len()
        invariant
            i <= ws@.len(),
            weight_sum(ws@) <= u64::MAX,
            t == weight_sum(ws@.take(i as int)),
        decreases ws@.len() - i,
    {
        proof {
            lemma_weight_sum_prefix(ws@, i + 1);
            assert(ws@.take(i + 1).drop_last() =~= ws@.take(i as int));
        }
        t = t + ws[i];
        i = i + 1;
    }
    proof {
        assert(ws@.take(i as int) =~= ws@);
    }
    t
}

fn copy_weights(ws: &Vec<u64>) -> (r: Vec<u64>)
    ensures
        r@ == ws@,
{
    let mut r: Vec<u64> = Vec::new();
    let mut i: usize = 0;
    while i < ws.len()
        invariant
            i <= ws@.len(),
            r@ == ws@.take(i as int),
        decreases ws@.len() - i,
    {
        r.push(ws[i]);
        i = i + 1;
        proof {
            assert(r@ =~= ws@.take(i as int));
        }
    }
    proof {
        assert(r@ =~= ws@);
    }
    r
}

/// The weight `w` in units, where it is usable.
pub fn weight_units_of(w: Number) -> (r: Option<u64>)
    ensures
        r == (if valid_weight(w) { Some(weight_units(w) as u64) } else { None::<u64> }),
{
    if w.scale > WEIGHT_SCALE {
        return None;
    }
    let d = WEIGHT_SCALE - w.scale;
    proof {
        reveal_with_fuel(pow10, 10);
    }
    let p: u64 = if d == 0 {
        1
    } else if d == 1 {
        10
    } else if d == 2 {
        100
    } else if d == 3 {
        1000
    } else if d == 4 {
        10000
    } else if d == 5 {
        100000
    } else if d == 6 {
        1000000
    } else if d == 7 {
        10000000
    } else if d == 8 {
        100000000
    } else {
        1000000000
    };
    assert(p == pow10(d as nat));
    if w.mantissa <= 0 {
        proof {
            assert(weight_units(w) <= 0) by (nonlinear_arith)
                requires
                    weight_units(w) == w.mantissa * pow10(d as nat),
                    w.mantissa <= 0,
                    pow10(d as nat) == p,
                    p >= 1,
            ;
        }
        return None;
    }
    let m = w.mantissa as u128;
    assert(m * (p as u128) < 0x1_0000_0000_0000_0000_0000_0000_0000_0000) by (nonlinear_arith)
        requires
            m < 0x8000_0000_0000_0000,
            p <= 1000000000,
    ;
    let units = m * (p as u128);
    assert(units > 0) by (nonlinear_arith)
        requires
            units == m * (p as u128),
            m >= 1,
            p >= 1,
    ;
    assert(units == weight_units(w));
    if units > MANTISSA_LIMIT as u128 {
        return None;
    }
    Some(units as u64)
}

} // verus!
