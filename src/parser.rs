use vstd::prelude::*;
use crate::error::{Error, ErrorKind};
use crate::lexer::{Lexeme, Token, chars_of, scan_from, significant, spans_ok, strip_comments, tokenize};
use crate::number::{Number, literal_value, parse_literal};
use crate::rules::{
    Action, ActionView, Custom, RuleDefinition, RuleSet, SetAction, TransformAction,
    TransformationLoop, action_view, actions_view, loops_view, valid_weight, weight_units_of,
    DefinitionView, Modifiers, Rule, candidates_of, definition_view, option_view, primitive_rules,
    weight_units,
    rule_name,
};
use crate::transform::{Step, Transform};

verus! {

/// The number that lexeme `l` spells, if it is a numeric literal in range.
pub open spec fn number_of(text: Seq<char>, l: Lexeme) -> Option<Number> {
    if l.token == Token::LiteralInteger {
        literal_value(text.subrange(l.start as int, l.end as int), true)
    } else if l.token == Token::LiteralFloat {
        literal_value(text.subrange(l.start as int, l.end as int), false)
    } else {
        None
    }
}

/// The number at `p`, and the position after it.
pub open spec fn spec_number(text: Seq<char>, toks: Seq<Lexeme>, p: int) -> Result<
    (Number, int),
    (ErrorKind, int),
> {
    if p < 0 || p >= toks.len() {
        Err((ErrorKind::UnexpectedEOF, toks.len() as int))
    } else {
        match number_of(text, toks[p]) {
            Some(n) => Ok((n, p + 1)),
            None => Err((ErrorKind::ExpectedNumber, p)),
        }
    }
}

pub open spec fn num(m: i64) -> Number {
    Number { mantissa: m, scale: 0 }
}

/// The colour step that sets one channel and leaves the others neutral.
pub open spec fn color_step(t: Token, n: Number) -> Step {
    if t == Token::Hue {
        Step::Color { hue: n, sat: num(1), brightness: num(1), alpha: num(1) }
    } else if t == Token::Sat {
        Step::Color { hue: num(0), sat: n, brightness: num(1), alpha: num(1) }
    } else if t == Token::Brightness {
        Step::Color { hue: num(0), sat: num(1), brightness: n, alpha: num(1) }
    } else {
        Step::Color { hue: num(0), sat: num(1), brightness: num(1), alpha: n }
    }
}

/// The step of an attribute that takes one number.
pub open spec fn single_step(t: Token, n: Number) -> Step {
    if t == Token::X {
        Step::Translate(n, num(0), num(0))
    } else if t == Token::Y {
        Step::Translate(num(0), n, num(0))
    } else if t == Token::Z {
        Step::Translate(num(0), num(0), n)
    } else if t == Token::Rx {
        Step::RotateX(n)
    } else if t == Token::Ry {
        Step::RotateY(n)
    } else if t == Token::Rz {
        Step::RotateZ(n)
    } else {
        color_step(t, n)
    }
}

pub open spec fn is_single_attribute(t: Token) -> bool {
    t == Token::X || t == Token::Y || t == Token::Z || t == Token::Rx || t == Token::Ry || t
        == Token::Rz || t == Token::Hue || t == Token::Sat || t == Token::Brightness || t
        == Token::Alpha
}

/// The attributes of a transform block from `p` up to its `}`, composed in
/// order after `acc`; and the position after the `}`. `s a` scales by `a` on
/// every axis unless two more numbers follow, then `s a b c` scales by each.
pub open spec fn spec_block(text: Seq<char>, toks: Seq<Lexeme>, p: int, acc: Seq<Step>) -> Result<
    (Seq<Step>, int),
    (ErrorKind, int),
>
    decreases toks.len() - p,
{
    if p < 0 || p >= toks.len() {
        Err((ErrorKind::UnexpectedEOF, toks.len() as int))
    } else {
        let t = toks[p].token;
        if t == Token::BracketClose {
            Ok((acc, p + 1))
        } else if is_single_attribute(t) {
            match spec_number(text, toks, p + 1) {
                Err(e) => Err(e),
                Ok((n, q)) => spec_block(text, toks, q, acc.push(single_step(t, n))),
            }
        } else if t == Token::S {
            match spec_number(text, toks, p + 1) {
                Err(e) => Err(e),
                Ok((a, q)) => match spec_number(text, toks, q) {
                    Err(_) => spec_block(text, toks, q, acc.push(Step::Scale(a, a, a))),
                    Ok((b, q2)) => match spec_number(text, toks, q2) {
                        Err(e) => Err(e),
                        Ok((c, q3)) => spec_block(text, toks, q3, acc.push(Step::Scale(a, b, c))),
                    },
                },
            }
        } else {
            Err((ErrorKind::UnexpectedTransformToken, p))
        }
    }
}

fn number_at(text: &Vec<char>, toks: &Vec<Lexeme>, p: usize) -> (r: Result<(Number, usize), (ErrorKind, usize)>)
    requires
        spans_ok(text@, toks@),
    ensures
        match r {
            Ok((n, q)) => spec_number(text@, toks@, p as int) == Ok::<(Number, int), (ErrorKind, int)>((n, q as int)),
            Err((e, at)) => spec_number(text@, toks@, p as int) == Err::<(Number, int), (ErrorKind, int)>((e, at as int)),
        },
{
    if p >= toks.len() {
        return Err((ErrorKind::UnexpectedEOF, toks.len()));
    }
    let l = toks[p];
    proof {
        assert(toks@[p as int] == l);
    }
    let n = if l.token == Token::LiteralInteger {
        parse_literal(text, l.start, l.end, true)
    } else if l.token == Token::LiteralFloat {
        parse_literal(text, l.start, l.end, false)
    } else {
        None
    };
    match n {
        Some(n) => Ok((n, p + 1)),
        None => Err((ErrorKind::ExpectedNumber, p)),
    }
}

fn single_step_of(t: Token, n: Number) -> (r: Step)
    requires
        is_single_attribute(t),
    ensures
        r == single_step(t, n),
{
    let zero = Number::zero();
    let one = Number::one();
    match t {
        Token::X => Step::Translate(n, zero, zero),
        Token::Y => Step::Translate(zero, n, zero),
        Token::Z => Step::Translate(zero, zero, n),
        Token::Rx => Step::RotateX(n),
        Token::Ry => Step::RotateY(n),
        Token::Rz => Step::RotateZ(n),
        Token::Hue => Step::Color { hue: n, sat: one, brightness: one, alpha: one },
        Token::Sat => Step::Color { hue: zero, sat: n, brightness: one, alpha: one },
        Token::Brightness => Step::Color { hue: zero, sat: one, brightness: n, alpha: one },
        _ => Step::Color { hue: zero, sat: one, brightness: one, alpha: n },
    }
}

/// Reads the attributes of a transform block that starts at `p`, just after
/// its `{`.
fn parse_block(text: &Vec<char>, toks: &Vec<Lexeme>, p: usize) -> (r: Result<(Transform, usize), (ErrorKind, usize)>)
    requires
        spans_ok(text@, toks@),
    ensures
        match r {
            Ok((t, q)) => spec_block(text@, toks@, p as int, Seq::empty()) == Ok::<(Seq<Step>, int), (ErrorKind, int)>((t@, q as int)) && p < q <= toks@.len(),
            Err((e, at)) => spec_block(text@, toks@, p as int, Seq::empty()) == Err::<(Seq<Step>, int), (ErrorKind, int)>((e, at as int)),
        },
{
    let mut tx = Transform::identity();
    let mut i = p;
    while i < toks.len()
        invariant
            spans_ok(text@, toks@),
            p <= i,
            spec_block(text@, toks@, p as int, Seq::empty()) == spec_block(text@, toks@, i as int, tx@),
        decreases toks@.len() - i,
    {
        let t = toks[i].token;
        if t == Token::BracketClose {
            return Ok((tx, i + 1));
        }
        match t {
            Token::X | Token::Y | Token::Z | Token::Rx | Token::Ry | Token::Rz | Token::Hue | Token::Sat | Token::Brightness | Token::Alpha => {
                match number_at(text, toks, i + 1) {
                    Err(e) => {
                        return Err(e);
                    },
                    Ok((n, q)) => {
                        let step = single_step_of(t, n);
                        tx = compose_step(&tx, step);
                        i = q;
                    },
                }
            },
            Token::S => {
                match number_at(text, toks, i + 1) {
                    Err(e) => {
                        return Err(e);
                    },
                    Ok((a, q)) => {
                        match number_at(text, toks, q) {
                            Err(_) => {
                                tx = compose_step(&tx, Step::Scale(a, a, a));
                                i = q;
                            },
                            Ok((b, q2)) => {
                                match number_at(text, toks, q2) {
                                    Err(e) => {
                                        return Err(e);
                                    },
                                    Ok((c, q3)) => {
                                        tx = compose_step(&tx, Step::Scale(a, b, c));
                                        i = q3;
                                    },
                                }
                            },
                        }
                    },
                }
            },
            _ => {
                return Err((ErrorKind::UnexpectedTransformToken, i));
            },
        }
    }
    Err((ErrorKind::UnexpectedEOF, toks.len()))
}

fn compose_step(tx: &Transform, step: Step) -> (r: Transform)
    ensures
        r@ == tx@.push(step),
{
    let mut r = tx.duplicate();
    r.steps.push(step);
    r
}

/// The count that an integer lexeme gives, where it is one and not negative.
pub open spec fn count_of(text: Seq<char>, l: Lexeme) -> Option<nat> {
    if l.token == Token::LiteralInteger {
        match literal_value(text.subrange(l.start as int, l.end as int), true) {
            Some(n) => if n.mantissa >= 0 {
                Some(n.mantissa as nat)
            } else {
                None
            },
            None => None,
        }
    } else {
        None
    }
}

/// The text of lexeme `l`.
pub open spec fn text_of(text: Seq<char>, l: Lexeme) -> Seq<char> {
    text.subrange(l.start as int, l.end as int)
}

/// An action from `p`: loop blocks `{ ... }` or `n * { ... }`, composed
/// after `acc`, then the name of the rule invoked; and the position after it.
pub open spec fn spec_action(
    text: Seq<char>,
    toks: Seq<Lexeme>,
    p: int,
    acc: Seq<(nat, Seq<Step>)>,
) -> Result<(ActionView, int), (ErrorKind, int)>
    decreases toks.len() - p,
{
    if p < 0 || p >= toks.len() {
        Err((ErrorKind::UnexpectedEOF, toks.len() as int))
    } else {
        let t = toks[p].token;
        if t == Token::BracketOpen {
            match spec_block(text, toks, p + 1, Seq::empty()) {
                Err(e) => Err(e),
                Ok((steps, q)) => if p < q <= toks.len() {
                    spec_action(text, toks, q, acc.push((1, steps)))
                } else {
                    Err((ErrorKind::UnexpectedEOF, toks.len() as int))
                },
            }
        } else if t == Token::LiteralInteger {
            match count_of(text, toks[p]) {
                None => Err((ErrorKind::ExpectedNumber, p)),
                Some(n) => if p + 1 >= toks.len() {
                    Err((ErrorKind::UnexpectedEOF, toks.len() as int))
                } else if toks[p + 1].token != Token::Multiply {
                    Err((ErrorKind::UnexpectedTransformToken, p + 1))
                } else if p + 2 >= toks.len() {
                    Err((ErrorKind::UnexpectedEOF, toks.len() as int))
                } else if toks[p + 2].token != Token::BracketOpen {
                    Err((ErrorKind::UnexpectedTransformToken, p + 2))
                } else {
                    match spec_block(text, toks, p + 3, Seq::empty()) {
                        Err(e) => Err(e),
                        Ok((steps, q)) => if p < q <= toks.len() {
                            spec_action(text, toks, q, acc.push((n, steps)))
                        } else {
                            Err((ErrorKind::UnexpectedEOF, toks.len() as int))
                        },
                    }
                },
            }
        } else if t == Token::RuleInvocation {
            Ok((ActionView::Invoke(acc, text_of(text, toks[p])), p + 1))
        } else {
            Err((ErrorKind::ExpectedIdentifier, p))
        }
    }
}

pub open spec fn starts_action(t: Token) -> bool {
    t == Token::BracketOpen || t == Token::LiteralInteger || t == Token::RuleInvocation
}

/// The actions of a rule body from `p` up to its `}`, after `acc`; and the
/// position after the `}`.
pub open spec fn spec_body(text: Seq<char>, toks: Seq<Lexeme>, p: int, acc: Seq<ActionView>) -> Result<
    (Seq<ActionView>, int),
    (ErrorKind, int),
>
    decreases toks.len() - p,
{
    if p < 0 || p >= toks.len() {
        Err((ErrorKind::UnexpectedEOF, toks.len() as int))
    } else {
        let t = toks[p].token;
        if starts_action(t) {
            match spec_action(text, toks, p, Seq::empty()) {
                Err(e) => Err(e),
                Ok((a, q)) => if p < q <= toks.len() {
                    spec_body(text, toks, q, acc.push(a))
                } else {
                    Err((ErrorKind::UnexpectedEOF, toks.len() as int))
                },
            }
        } else if t == Token::BracketClose {
            Ok((acc, p + 1))
        } else {
            Err((ErrorKind::UnexpectedTopLevelToken, p))
        }
    }
}

/// The modifiers of a rule definition from `p` up to its `{`, over `m`:
/// `maxdepth n` (or `md n`), optionally followed by `> name`, and `weight w`
/// (or `w w`), where `w` must be a usable weight (`valid_weight`: positive,
/// at most nine decimals, at most `10^9`), else `ExpectedNumber`; and the
/// position after the `{`.
pub open spec fn spec_modifiers(text: Seq<char>, toks: Seq<Lexeme>, p: int, m: Modifiers) -> Result<
    (Modifiers, int),
    (ErrorKind, int),
>
    decreases toks.len() - p,
{
    if p < 0 || p >= toks.len() {
        Err((ErrorKind::UnexpectedEOF, toks.len() as int))
    } else {
        let t = toks[p].token;
        if t == Token::BracketOpen {
            Ok((m, p + 1))
        } else if t == Token::MaxDepth {
            if p + 1 >= toks.len() {
                Err((ErrorKind::UnexpectedEOF, toks.len() as int))
            } else {
                match count_of(text, toks[p + 1]) {
                    None => Err((ErrorKind::ExpectedNumber, p + 1)),
                    Some(n) => spec_modifiers(
                        text,
                        toks,
                        p + 2,
                        Modifiers { max_depth: Some(n as usize), ..m },
                    ),
                }
            }
        } else if t == Token::MoreThan {
            if p + 1 >= toks.len() {
                Err((ErrorKind::UnexpectedEOF, toks.len() as int))
            } else if toks[p + 1].token == Token::RuleInvocation {
                spec_modifiers(
                    text,
                    toks,
                    p + 2,
                    Modifiers { retirement_rule: Some(text_of(text, toks[p + 1])), ..m },
                )
            } else {
                Err((ErrorKind::ExpectedIdentifier, p + 1))
            }
        } else if t == Token::Weight {
            match spec_number(text, toks, p + 1) {
                Err(e) => Err(e),
                Ok((w, q)) => if valid_weight(w) {
                    spec_modifiers(text, toks, q, Modifiers { weight: w, ..m })
                } else {
                    Err((ErrorKind::ExpectedNumber, p + 1))
                },
            }
        } else {
            Err((ErrorKind::UnexpectedTopLevelToken, p))
        }
    }
}

fn count_at(text: &Vec<char>, toks: &Vec<Lexeme>, p: usize) -> (r: Option<usize>)
    requires
        spans_ok(text@, toks@),
        p < toks@.len(),
    ensures
        match r {
            Some(n) => count_of(text@, toks@[p as int]) == Some(n as nat),
            None => count_of(text@, toks@[p as int]) is None,
        },
{
    let l = toks[p];
    if l.token != Token::LiteralInteger {
        return None;
    }
    match parse_literal(text, l.start, l.end, true) {
        Some(n) => if n.mantissa >= 0 {
            Some(n.mantissa as usize)
        } else {
            None
        },
        None => None,
    }
}

/// The text of lexeme `l` as a string.
fn text_string(source: &str, text: &Vec<char>, l: Lexeme) -> (r: String)
    requires
        source@ == text@,
        l.start <= l.end <= text@.len(),
    ensures
        r@ == text_of(text@, l),
{
    source.substring_char(l.start, l.end).to_owned()
}

/// Reads an action whose first token is at `p`.
pub fn parse_action_list(source: &str, text: &Vec<char>, toks: &Vec<Lexeme>, p: usize) -> (r: Result<
    (TransformAction, usize),
    (ErrorKind, usize),
>)
    requires
        source@ == text@,
        spans_ok(text@, toks@),
    ensures
        match r {
            Ok((a, q)) => spec_action(text@, toks@, p as int, Seq::empty()) == Ok::<(ActionView, int), (ErrorKind, int)>((action_view(Action::Transform(a)), q as int)) && p < q <= toks@.len(),
            Err((e, at)) => spec_action(text@, toks@, p as int, Seq::empty()) == Err::<(ActionView, int), (ErrorKind, int)>((e, at as int)),
        },
{
    let mut loops: Vec<TransformationLoop> = Vec::new();
    let mut i = p;
    proof {
        assert(loops_view(loops@) =~= Seq::<(nat, Seq<Step>)>::empty());
    }
    while i < toks.len()
        invariant
            source@ == text@,
            spans_ok(text@, toks@),
            p <= i,
            spec_action(text@, toks@, p as int, Seq::empty()) == spec_action(text@, toks@, i as int, loops_view(loops@)),
        decreases toks@.len() - i,
    {
        let t = toks[i].token;
        let count: usize;
        let start: usize;
        if t == Token::BracketOpen {
            count = 1;
            start = i + 1;
        } else if t == Token::LiteralInteger {
            match count_at(text, toks, i) {
                None => {
                    return Err((ErrorKind::ExpectedNumber, i));
                },
                Some(n) => {
                    count = n;
                },
            }
            if i + 1 >= toks.len() {
                return Err((ErrorKind::UnexpectedEOF, toks.len()));
            }
            if toks[i + 1].token != Token::Multiply {
                return Err((ErrorKind::UnexpectedTransformToken, i + 1));
            }
            if i + 2 >= toks.len() {
                return Err((ErrorKind::UnexpectedEOF, toks.len()));
            }
            if toks[i + 2].token != Token::BracketOpen {
                return Err((ErrorKind::UnexpectedTransformToken, i + 2));
            }
            start = i + 3;
        } else if t == Token::RuleInvocation {
            let l = toks[i];
            let rule = text_string(source, text, l);
            let a = TransformAction { loops, rule };
            proof {
                assert(action_view(Action::Transform(a)) == ActionView::Invoke(loops_view(loops@), text_of(text@, toks@[i as int])));
            }
            return Ok((a, i + 1));
        } else {
            return Err((ErrorKind::ExpectedIdentifier, i));
        }
        match parse_block(text, toks, start) {
            Err(e) => {
                return Err(e);
            },
            Ok((transform, q)) => {
                let ghost before = loops@;
                let tl = TransformationLoop { count, transform };
                loops.push(tl);
                proof {
                    assert(loops_view(loops@) =~= loops_view(before).push((count as nat, tl.transform@)));
                }
                i = q;
            },
        }
    }
    Err((ErrorKind::UnexpectedEOF, toks.len()))
}

/// Reads the actions of a rule body from `p`, just after its `{`.
fn parse_body(source: &str, text: &Vec<char>, toks: &Vec<Lexeme>, p: usize) -> (r: Result<
    (Vec<Action>, usize),
    (ErrorKind, usize),
>)
    requires
        source@ == text@,
        spans_ok(text@, toks@),
    ensures
        match r {
            Ok((v, q)) => spec_body(text@, toks@, p as int, Seq::empty()) == Ok::<(Seq<ActionView>, int), (ErrorKind, int)>((actions_view(v@), q as int)) && p < q <= toks@.len(),
            Err((e, at)) => spec_body(text@, toks@, p as int, Seq::empty()) == Err::<(Seq<ActionView>, int), (ErrorKind, int)>((e, at as int)),
        },
{
    let mut actions: Vec<Action> = Vec::new();
    let mut i = p;
    proof {
        assert(actions_view(actions@) =~= Seq::<ActionView>::empty());
    }
    while i < toks.len()
        invariant
            source@ == text@,
            spans_ok(text@, toks@),
            p <= i,
            spec_body(text@, toks@, p as int, Seq::empty()) == spec_body(text@, toks@, i as int, actions_view(actions@)),
        decreases toks@.len() - i,
    {
        let t = toks[i].token;
        if t == Token::BracketOpen || t == Token::LiteralInteger || t == Token::RuleInvocation {
            match parse_action_list(source, text, toks, i) {
                Err(e) => {
                    return Err(e);
                },
                Ok((a, q)) => {
                    let ghost before = actions@;
                    let act = Action::Transform(a);
                    actions.push(act);
                    proof {
                        assert(actions_view(actions@) =~= actions_view(before).push(action_view(act)));
                    }
                    i = q;
                },
            }
        } else if t == Token::BracketClose {
            return Ok((actions, i + 1));
        } else {
            return Err((ErrorKind::UnexpectedTopLevelToken, i));
        }
    }
    Err((ErrorKind::UnexpectedEOF, toks.len()))
}

/// A statement over views.
pub enum StatementView {
    Top(ActionView),
    Define(DefinitionView),
}

/// A statement of a program.
#[derive(Clone, Debug)]
pub enum Statement {
    /// A statement of the implicit top-level rule.
    Top(Action),
    /// A rule definition.
    Define(Custom),
}

pub open spec fn statement_view(s: Statement) -> StatementView {
    match s {
        Statement::Top(a) => StatementView::Top(action_view(a)),
        Statement::Define(c) => StatementView::Define(definition_view(c)),
    }
}

pub open spec fn statements_view(v: Seq<Statement>) -> Seq<StatementView> {
    v.map_values(|s: Statement| statement_view(s))
}

/// The modifiers a definition has before any is written.
pub open spec fn default_modifiers() -> Modifiers {
    Modifiers { max_depth: None, retirement_rule: None, weight: num(1) }
}

/// The statements of the program from `p` on, after `acc`: rule definitions
/// `rule <name> <modifiers> { <actions> }`, `set maxdepth n`, and actions of
/// the top-level rule.
pub open spec fn spec_program(
    text: Seq<char>,
    toks: Seq<Lexeme>,
    p: int,
    acc: Seq<StatementView>,
) -> Result<Seq<StatementView>, (ErrorKind, int)>
    decreases toks.len() - p,
{
    if p < 0 || p >= toks.len() {
        Ok(acc)
    } else {
        let t = toks[p].token;
        if t == Token::RuleDefinition {
            let l = toks[p];
            let name = text.subrange(l.start + 5, l.end as int);
            match spec_modifiers(text, toks, p + 1, default_modifiers()) {
                Err(e) => Err(e),
                Ok((m, q)) => match spec_body(text, toks, q, Seq::empty()) {
                    Err(e) => Err(e),
                    Ok((actions, q2)) => if p < q2 <= toks.len() {
                        spec_program(
                            text,
                            toks,
                            q2,
                            acc.push(
                                StatementView::Define(
                                    DefinitionView { name, modifiers: m, actions },
                                ),
                            ),
                        )
                    } else {
                        Err((ErrorKind::UnexpectedEOF, toks.len() as int))
                    },
                },
            }
        } else if t == Token::SetKeyword {
            if p + 1 >= toks.len() {
                Err((ErrorKind::UnexpectedEOF, toks.len() as int))
            } else if toks[p + 1].token != Token::MaxDepth {
                Err((ErrorKind::ExpectedIdentifier, p + 1))
            } else if p + 2 >= toks.len() {
                Err((ErrorKind::UnexpectedEOF, toks.len() as int))
            } else {
                match count_of(text, toks[p + 2]) {
                    None => Err((ErrorKind::ExpectedNumber, p + 2)),
                    Some(n) => spec_program(
                        text,
                        toks,
                        p + 3,
                        acc.push(
                            StatementView::Top(ActionView::Setting(SetAction::MaxDepth(n as usize))),
                        ),
                    ),
                }
            }
        } else if starts_action(t) {
            match spec_action(text, toks, p, Seq::empty()) {
                Err(e) => Err(e),
                Ok((a, q)) => if p < q <= toks.len() {
                    spec_program(text, toks, q, acc.push(StatementView::Top(a)))
                } else {
                    Err((ErrorKind::UnexpectedEOF, toks.len() as int))
                },
            }
        } else {
            Err((ErrorKind::UnexpectedTopLevelToken, p))
        }
    }
}

/// The actions of the top-level statements, in order.
pub open spec fn top_actions(v: Seq<StatementView>) -> Seq<ActionView>
    decreases v.len(),
{
    if v.len() == 0 {
        Seq::empty()
    } else {
        match v.last() {
            StatementView::Top(a) => top_actions(v.drop_last()).push(a),
            StatementView::Define(_) => top_actions(v.drop_last()),
        }
    }
}

/// Reads the modifiers of a rule definition from `p`.
fn parse_modifiers(source: &str, text: &Vec<char>, toks: &Vec<Lexeme>, p: usize) -> (r: Result<
    (Option<usize>, Option<String>, Number, usize),
    (ErrorKind, usize),
>)
    requires
        source@ == text@,
        spans_ok(text@, toks@),
        p <= toks@.len(),
    ensures
        match r {
            Ok((md, re, w, q)) => spec_modifiers(text@, toks@, p as int, default_modifiers())
                == Ok::<(Modifiers, int), (ErrorKind, int)>(
                (Modifiers { max_depth: md, retirement_rule: option_view(re), weight: w }, q as int),
            ) && p < q <= toks@.len() && valid_weight(w),
            Err((e, at)) => spec_modifiers(text@, toks@, p as int, default_modifiers()) == Err::<
                (Modifiers, int),
                (ErrorKind, int),
            >((e, at as int)),
        },
{
    let mut md: Option<usize> = None;
    let mut re: Option<String> = None;
    let mut w = Number::one();
    proof {
        reveal_with_fuel(crate::number::pow10, 10);
        assert(valid_weight(w));
    }
    let mut i = p;
    while i < toks.len()
        invariant
            source@ == text@,
            spans_ok(text@, toks@),
            p <= i <= toks@.len(),
            valid_weight(w),
            spec_modifiers(text@, toks@, p as int, default_modifiers()) == spec_modifiers(
                text@,
                toks@,
                i as int,
                Modifiers { max_depth: md, retirement_rule: option_view(re), weight: w },
            ),
        decreases toks@.len() - i,
    {
        let t = toks[i].token;
        if t == Token::BracketOpen {
            return Ok((md, re, w, i + 1));
        } else if t == Token::MaxDepth {
            if i + 1 >= toks.len() {
                return Err((ErrorKind::UnexpectedEOF, toks.len()));
            }
            match count_at(text, toks, i + 1) {
                None => {
                    return Err((ErrorKind::ExpectedNumber, i + 1));
                },
                Some(n) => {
                    md = Some(n);
                    i = i + 2;
                },
            }
        } else if t == Token::MoreThan {
            if i + 1 >= toks.len() {
                return Err((ErrorKind::UnexpectedEOF, toks.len()));
            }
            if toks[i + 1].token != Token::RuleInvocation {
                return Err((ErrorKind::ExpectedIdentifier, i + 1));
            }
            let l = toks[i + 1];
            re = Some(text_string(source, text, l));
            i = i + 2;
        } else if t == Token::Weight {
            match number_at(text, toks, i + 1) {
                Err(e) => {
                    return Err(e);
                },
                Ok((n, q)) => {
                    if weight_units_of(n).is_none() {
                        return Err((ErrorKind::ExpectedNumber, i + 1));
                    }
                    w = n;
                    i = q;
                },
            }
        } else {
            return Err((ErrorKind::UnexpectedTopLevelToken, i));
        }
    }
    Err((ErrorKind::UnexpectedEOF, toks.len()))
}

/// Reads the statements of a program, with the position of the lexeme
/// that starts each.
pub fn parse_program(source: &str, text: &Vec<char>, toks: &Vec<Lexeme>) -> (r: Result<
    (Vec<Statement>, Vec<usize>),
    (ErrorKind, usize),
>)
    requires
        source@ == text@,
        spans_ok(text@, toks@),
    ensures
        match r {
            Ok((v, starts)) => spec_program(text@, toks@, 0, Seq::empty()) == Ok::<Seq<StatementView>, (ErrorKind, int)>(
                statements_view(v@),
            ) && (forall|j: int|
                0 <= j < v@.len() ==> (#[trigger] v@[j] matches Statement::Define(c) ==> valid_weight(
                    c.rule.weight,
                ))) && starts@.len() == v@.len() && (forall|j: int|
                0 <= j < starts@.len() ==> #[trigger] starts@[j] < toks@.len()) && (forall|j: int|
                0 <= j < v@.len() ==> (#[trigger] v@[j] matches Statement::Define(_) ==> toks@[starts@[j] as int].token
                    == Token::RuleDefinition)),
            Err((e, at)) => spec_program(text@, toks@, 0, Seq::empty()) == Err::<Seq<StatementView>, (ErrorKind, int)>((e, at as int)),
        },
{
    let mut out: Vec<Statement> = Vec::new();
    let mut starts: Vec<usize> = Vec::new();
    let mut i: usize = 0;
    proof {
        assert(statements_view(out@) =~= Seq::<StatementView>::empty());
    }
    while i < toks.len()
        invariant
            source@ == text@,
            spans_ok(text@, toks@),
            i <= toks@.len(),
            starts@.len() == out@.len(),
            forall|j: int| 0 <= j < starts@.len() ==> #[trigger] starts@[j] < toks@.len(),
            forall|j: int|
                0 <= j < out@.len() ==> (#[trigger] out@[j] matches Statement::Define(_) ==> toks@[starts@[j] as int].token
                    == Token::RuleDefinition),
            spec_program(text@, toks@, 0, Seq::empty()) == spec_program(text@, toks@, i as int, statements_view(out@)),
            forall|j: int|
                0 <= j < out@.len() ==> (#[trigger] out@[j] matches Statement::Define(c) ==> valid_weight(
                    c.rule.weight,
                )),
        decreases toks@.len() - i,
    {
        let t = toks[i].token;
        let ghost before = out@;
        if t == Token::RuleDefinition {
            let l = toks[i];
            proof {
                assert(toks@[i as int] == l);
            }
            let name = source.substring_char(l.start + 5, l.end).to_owned();
            let (md, re, w, q) = match parse_modifiers(source, text, toks, i + 1) {
                Err(e) => {
                    return Err(e);
                },
                Ok(m) => m,
            };
            let (actions, q2) = match parse_body(source, text, toks, q) {
                Err(e) => {
                    return Err(e);
                },
                Ok(b) => b,
            };
            let c = Custom {
                rule: RuleDefinition { name, max_depth: md, retirement_rule: re, weight: w },
                actions,
            };
            let st = Statement::Define(c);
            out.push(st);
            starts.push(i);
            proof {
                assert(statements_view(out@) =~= statements_view(before).push(statement_view(st)));
            }
            i = q2;
        } else if t == Token::SetKeyword {
            if i + 1 >= toks.len() {
                return Err((ErrorKind::UnexpectedEOF, toks.len()));
            }
            if toks[i + 1].token != Token::MaxDepth {
                return Err((ErrorKind::ExpectedIdentifier, i + 1));
            }
            if i + 2 >= toks.len() {
                return Err((ErrorKind::UnexpectedEOF, toks.len()));
            }
            match count_at(text, toks, i + 2) {
                None => {
                    return Err((ErrorKind::ExpectedNumber, i + 2));
                },
                Some(n) => {
                    let st = Statement::Top(Action::Setting(SetAction::MaxDepth(n)));
                    out.push(st);
                    starts.push(i);
                    proof {
                        assert(statements_view(out@) =~= statements_view(before).push(statement_view(st)));
                    }
                    i = i + 3;
                },
            }
        } else if t == Token::BracketOpen || t == Token::LiteralInteger || t == Token::RuleInvocation {
            match parse_action_list(source, text, toks, i) {
                Err(e) => {
                    return Err(e);
                },
                Ok((a, q)) => {
                    let st = Statement::Top(Action::Transform(a));
                    out.push(st);
                    starts.push(i);
                    proof {
                        assert(statements_view(out@) =~= statements_view(before).push(statement_view(st)));
                    }
                    i = q;
                },
            }
        } else {
            return Err((ErrorKind::UnexpectedTopLevelToken, i));
        }
    }
    Ok((out, starts))
}

/// The definitions named `name` among the statements, in order.
pub open spec fn definitions_named(v: Seq<StatementView>, name: Seq<char>) -> Seq<DefinitionView>
    decreases v.len(),
{
    if v.len() == 0 {
        Seq::empty()
    } else {
        let rest = definitions_named(v.drop_last(), name);
        match v.last() {
            StatementView::Define(d) => if d.name == name {
                rest.push(d)
            } else {
                rest
            },
            StatementView::Top(_) => rest,
        }
    }
}

/// `t` is the table that the statements build: the primitives come first;
/// every other entry stands for exactly the definitions of its name, in
/// order; every defined name has an entry; and the top-level rule holds the
/// top-level actions, in order.
pub open spec fn table_of(t: RuleSet, stmts: Seq<StatementView>) -> bool {
    &&& t.wf()
    &&& t.rules@.len() >= 9
    &&& t.rules@.subrange(0, 9) == primitive_rules()
    &&& forall|j: int|
        0 <= j < t.rules@.len() && !(#[trigger] t.rules@[j] is Primitive) ==> candidates_of(
            t.rules@[j],
        ) == definitions_named(stmts, rule_name(t.rules@[j]))
    &&& forall|j: int| 9 <= j < t.rules@.len() ==> !(#[trigger] t.rules@[j] is Primitive)
    &&& forall|j: int|
        0 <= j < t.rules@.len() && !(#[trigger] t.rules@[j] is Primitive) ==> (t.rules@[j] is Custom)
            == (definitions_named(stmts, rule_name(t.rules@[j])).len() == 1)
    &&& forall|m: int|
        0 <= m < stmts.len() ==> (#[trigger] stmts[m] matches StatementView::Define(d) ==> exists|
            j: int,
        |
            0 <= j < t.rules@.len() && rule_name(#[trigger] t.rules@[j]) == d.name)
    &&& actions_view(t.top_level.actions@) == top_actions(stmts)
}

/// Whether `n` is the name of a primitive.
pub open spec fn is_primitive_name(n: Seq<char>) -> bool {
    exists|j: int| 0 <= j < 9 && rule_name(#[trigger] primitive_rules()[j]) == n
}

/// The sum of the weights of `ds`, in units.
pub open spec fn units_total(ds: Seq<DefinitionView>) -> int
    decreases ds.len(),
{
    if ds.len() == 0 {
        0
    } else {
        units_total(ds.drop_last()) + weight_units(ds.last().modifiers.weight)
    }
}

/// Whether definition `d` cannot join the table that the statements
/// `earlier` built: its name is a primitive's, or its weight and those of the
/// earlier definitions of its name sum past `u64::MAX`.
pub open spec fn definition_refused(earlier: Seq<StatementView>, d: DefinitionView) -> bool {
    is_primitive_name(d.name) || (definitions_named(earlier, d.name).len() > 0 && units_total(
        definitions_named(earlier, d.name).push(d),
    ) > u64::MAX)
}

/// Whether statement `k` of `v` is a definition that is refused.
pub open spec fn refused_at(v: Seq<StatementView>, k: int) -> bool {
    0 <= k < v.len() && (v[k] matches StatementView::Define(d) && definition_refused(v.take(k), d))
}

proof fn lemma_units_total(ws: Seq<u64>, ds: Seq<DefinitionView>)
    requires
        ws.len() == ds.len(),
        forall|k: int| 0 <= k < ws.len() ==> ws[k] == weight_units(#[trigger] ds[k].modifiers.weight),
    ensures
        crate::rules::weight_sum(ws) == units_total(ds),
    decreases ws.len(),
{
    if ws.len() > 0 {
        assert forall|k: int| 0 <= k < ws.len() - 1 implies ws.drop_last()[k] == weight_units(
            #[trigger] ds.drop_last()[k].modifiers.weight) by {
            assert(ws.drop_last()[k] == ws[k]);
            assert(ds.drop_last()[k] == ds[k]);
        }
        lemma_units_total(ws.drop_last(), ds.drop_last());
        assert(ws.last() == weight_units(ds[ds.len() - 1].modifiers.weight));
    }
}

proof fn lemma_definitions_named_witness(v: Seq<StatementView>, name: Seq<char>)
    requires
        definitions_named(v, name).len() > 0,
    ensures
        exists|m: int|
            0 <= m < v.len() && (#[trigger] v[m] matches StatementView::Define(d) && d.name == name),
    decreases v.len(),
{
    let rest = definitions_named(v.drop_last(), name);
    if rest.len() > 0 {
        lemma_definitions_named_witness(v.drop_last(), name);
        let m = choose|m: int|
            0 <= m < v.drop_last().len() && (#[trigger] v.drop_last()[m] matches StatementView::Define(
                d,
            ) && d.name == name);
        assert(v[m] == v.drop_last()[m]);
    } else {
        assert(v[v.len() - 1] == v.last());
    }
}

/// The rule table of a program: its top-level statements join the
/// top-level rule in order, and its definitions are pushed in order. A
/// definition that cannot join its name gives `DuplicateRuleOverflow`, with
/// the position of its statement.
pub fn build_rules(statements: Vec<Statement>) -> (r: Result<RuleSet, (ErrorKind, usize)>)
    requires
        forall|j: int|
            0 <= j < statements@.len() ==> (#[trigger] statements@[j] matches Statement::Define(c)
                ==> valid_weight(c.rule.weight)),
    ensures
        match r {
            Ok(t) => table_of(t, statements_view(statements@)) && forall|k: int|
                !refused_at(statements_view(statements@), k),
            Err((e, at)) => e == ErrorKind::DuplicateRuleOverflow && refused_at(
                statements_view(statements@),
                at as int,
            ) && forall|k: int| 0 <= k < at ==> !refused_at(statements_view(statements@), k),
        },
{
    let ghost all = statements@;
    let n = statements.len();
    assert(all == statements@);
    let mut rest = statements;
    let mut rules = RuleSet::new();
    let mut k: usize = 0;
    proof {
        assert(all.take(0) =~= Seq::<Statement>::empty());
        assert(statements_view(all.take(0)) =~= Seq::<StatementView>::empty());
        assert(actions_view(rules.top_level.actions@) =~= Seq::<ActionView>::empty());
        assert(rules.rules@.subrange(0, 9) =~= primitive_rules());
    }
    while rest.len() > 0
        invariant
            rest@ == all.subrange(k as int, all.len() as int),
            k <= all.len(),
            all.len() == n,
            all == statements@,
            forall|j: int|
                0 <= j < all.len() ==> (#[trigger] all[j] matches Statement::Define(c) ==> valid_weight(
                    c.rule.weight,
                )),
            table_of(rules, statements_view(all.take(k as int))),
            forall|j: int| 0 <= j < k ==> !refused_at(statements_view(all), j),
        decreases rest@.len(),
    {
        let st = rest.remove(0);
        let ghost sv = statements_view(all.take(k as int));
        let ghost sv2 = statements_view(all.take(k + 1));
        proof {
            assert(st == all[k as int]);
            assert(sv2 =~= sv.push(statement_view(st)));
            assert(sv2.drop_last() =~= sv);
            assert(sv2.last() == statement_view(st));
            assert forall|m: int| 0 <= m < sv.len() implies sv2[m] == sv[m] by {}
            assert(statements_view(all).take(k as int) =~= sv);
            assert(statements_view(all)[k as int] == statement_view(st));
        }
        let ghost before = rules;
        match st {
            Statement::Top(a) => {
                rules.add_action(a);
                proof {
                    assert(actions_view(rules.top_level.actions@) =~= actions_view(before.top_level.actions@).push(
                        action_view(a),
                    ));
                    assert forall|name: Seq<char>| definitions_named(sv2, name) == definitions_named(sv, name) by {}
                    assert forall|m: int|
                        0 <= m < sv2.len() implies (#[trigger] sv2[m] matches StatementView::Define(d) ==> exists|j: int|
                            0 <= j < rules.rules@.len() && rule_name(#[trigger] rules.rules@[j]) == d.name) by {
                        if m < sv.len() {
                            assert(sv2[m] == sv[m]);
                        }
                    }
                }
            },
            Statement::Define(c) => {
                let ghost dv = definition_view(c);
                let ghost cname = c.rule.name@;
                proof {
                    assert forall|x: Seq<char>| x != cname implies definitions_named(sv2, x) == definitions_named(sv, x) by {}
                    assert(definitions_named(sv2, cname) == definitions_named(sv, cname).push(dv));
                }
                let pushed = rules.push(c);
                proof {
                    lemma_push_refusal(before, rules, sv, c, pushed);
                }
                match pushed {
                    Ok(()) => {},
                    Err(e) => {
                        proof {
                            assert(k < all.len());
                            assert(refused_at(statements_view(all), k as int));
                        }
                        return Err((e, k));
                    },
                }
                proof {
                    lemma_push_builds(before, rules, sv, sv2, c);
                }
            },
        }
        proof {
            assert(!refused_at(statements_view(all), k as int));
        }
        k = k + 1;
        proof {
            assert(rest@ =~= all.subrange(k as int, all.len() as int));
        }
    }
    proof {
        assert(all.take(k as int) =~= all);
    }
    Ok(rules)
}

/// A push fails exactly where the definition is refused.
proof fn lemma_push_refusal(
    before: RuleSet,
    after: RuleSet,
    sv: Seq<StatementView>,
    c: Custom,
    r: Result<(), ErrorKind>,
)
    requires
        table_of(before, sv),
        valid_weight(c.rule.weight),
        (forall|i: int|
            0 <= i < before.rules@.len() ==> rule_name(#[trigger] before.rules@[i]) != c.rule.name@)
            ==> r is Ok,
        forall|i: int|
            0 <= i < before.rules@.len() && rule_name(#[trigger] before.rules@[i]) == c.rule.name@
                ==> match before.rules@[i] {
                Rule::Primitive(_) => r == Err::<(), ErrorKind>(ErrorKind::DuplicateRuleOverflow),
                Rule::Custom(c0) => crate::rules::merged(
                    before.rules@,
                    after.rules@,
                    i,
                    seq![c0, c],
                    seq![crate::rules::weight_units(c0.rule.weight) as u64, crate::rules::weight_units(c.rule.weight) as u64],
                    r,
                ),
                Rule::Ambiguous(a) => crate::rules::merged(
                    before.rules@,
                    after.rules@,
                    i,
                    a.actions@.push(c),
                    a.weights@.push(crate::rules::weight_units(c.rule.weight) as u64),
                    r,
                ),
            },
    ensures
        (r is Err) == definition_refused(sv, definition_view(c)),
        r is Err ==> r == Err::<(), ErrorKind>(ErrorKind::DuplicateRuleOverflow),
{
    let cname = c.rule.name@;
    let dv = definition_view(c);
    let b = before.rules@;
    if exists|i: int| 0 <= i < b.len() && rule_name(#[trigger] b[i]) == cname {
        let i = choose|i: int| 0 <= i < b.len() && rule_name(#[trigger] b[i]) == cname;
        if i < 9 {
            assert(b.subrange(0, 9)[i] == b[i]);
            assert(b[i] is Primitive);
            assert(is_primitive_name(cname));
        } else {
            assert(!(b[i] is Primitive));
            assert(!is_primitive_name(cname)) by {
                if is_primitive_name(cname) {
                    let j = choose|j: int| 0 <= j < 9 && rule_name(#[trigger] primitive_rules()[j]) == cname;
                    assert(b.subrange(0, 9)[j] == b[j]);
                    assert(rule_name(b[j]) != rule_name(b[i]));
                }
            }
            let ds = definitions_named(sv, cname);
            assert(candidates_of(b[i]) == ds);
            match b[i] {
                Rule::Custom(c0) => {
                    assert(valid_weight(c0.rule.weight));
                    let ws = seq![crate::rules::weight_units(c0.rule.weight) as u64, crate::rules::weight_units(c.rule.weight) as u64];
                    assert(ds.push(dv) =~= seq![definition_view(c0), dv]);
                    lemma_units_total(ws, ds.push(dv));
                },
                Rule::Ambiguous(a) => {
                    assert(crate::rules::ambiguous_wf(a));
                    let ws = a.weights@.push(crate::rules::weight_units(c.rule.weight) as u64);
                    assert forall|k: int| 0 <= k < ws.len() implies ws[k] == weight_units(
                        #[trigger] ds.push(dv)[k].modifiers.weight) by {
                        if k < a.weights@.len() {
                            assert(a.weights@[k] == weight_units(a.actions@[k].rule.weight));
                            assert(ds.push(dv)[k] == definition_view(a.actions@[k]));
                        }
                    }
                    lemma_units_total(ws, ds.push(dv));
                },
                Rule::Primitive(_) => {},
            }
        }
    } else {
        assert(!is_primitive_name(cname)) by {
            if is_primitive_name(cname) {
                let j = choose|j: int| 0 <= j < 9 && rule_name(#[trigger] primitive_rules()[j]) == cname;
                assert(b.subrange(0, 9)[j] == b[j]);
            }
        }
        assert(definitions_named(sv, cname).len() == 0) by {
            if definitions_named(sv, cname).len() > 0 {
                lemma_definitions_named_witness(sv, cname);
                let m = choose|m: int|
                    0 <= m < sv.len() && (#[trigger] sv[m] matches StatementView::Define(d) && d.name == cname);
                assert(sv[m] matches StatementView::Define(d));
            }
        }
    }
}

proof fn lemma_push_builds(
    before: RuleSet,
    after: RuleSet,
    sv: Seq<StatementView>,
    sv2: Seq<StatementView>,
    c: Custom,
)
    requires
        table_of(before, sv),
        after.wf(),
        after.top_level == before.top_level,
        sv2 == sv.push(StatementView::Define(definition_view(c))),
        forall|x: Seq<char>| x != c.rule.name@ ==> definitions_named(sv2, x) == definitions_named(sv, x),
        definitions_named(sv2, c.rule.name@) == definitions_named(sv, c.rule.name@).push(definition_view(c)),
        (forall|i: int|
            0 <= i < before.rules@.len() ==> rule_name(#[trigger] before.rules@[i]) != c.rule.name@)
            ==> after.rules@ == before.rules@.push(Rule::Custom(c)),
        forall|i: int|
            0 <= i < before.rules@.len() && rule_name(#[trigger] before.rules@[i]) == c.rule.name@
                ==> match before.rules@[i] {
                Rule::Primitive(_) => false,
                Rule::Custom(c0) => crate::rules::merged(
                    before.rules@,
                    after.rules@,
                    i,
                    seq![c0, c],
                    seq![crate::rules::weight_units(c0.rule.weight) as u64, crate::rules::weight_units(c.rule.weight) as u64],
                    Ok(()),
                ),
                Rule::Ambiguous(a) => crate::rules::merged(
                    before.rules@,
                    after.rules@,
                    i,
                    a.actions@.push(c),
                    a.weights@.push(crate::rules::weight_units(c.rule.weight) as u64),
                    Ok(()),
                ),
            },
    ensures
        table_of(after, sv2),
{
    let cname = c.rule.name@;
    let dv = definition_view(c);
    let b = before.rules@;
    let r = after.rules@;
    assert(sv2.drop_last() =~= sv);
    assert(actions_view(after.top_level.actions@) == top_actions(sv2));
    if exists|i: int| 0 <= i < b.len() && rule_name(#[trigger] b[i]) == cname {
        let i = choose|i: int| 0 <= i < b.len() && rule_name(#[trigger] b[i]) == cname;
        assert(!(b[i] is Primitive)) by {
            if b[i] is Primitive {
                assert(rule_name(b[i]) == cname);
            }
        }
        assert(i >= 9) by {
            if i < 9 {
                assert(b.subrange(0, 9)[i] == b[i]);
            }
        }
        assert(r.len() == b.len());
        assert(r[i] is Ambiguous);
        assert(rule_name(r[i]) == cname);
        assert(candidates_of(r[i]) == candidates_of(b[i]).push(dv)) by {
            match b[i] {
                Rule::Custom(c0) => {
                    assert(r[i]->Ambiguous_0.actions@.map_values(|x: Custom| definition_view(x)) =~= seq![
                        definition_view(c0),
                    ].push(dv));
                },
                Rule::Ambiguous(a) => {
                    assert(r[i]->Ambiguous_0.actions@.map_values(|x: Custom| definition_view(x))
                        =~= a.actions@.map_values(|x: Custom| definition_view(x)).push(dv));
                },
                Rule::Primitive(_) => {},
            }
        }
        assert(r.subrange(0, 9) =~= b.subrange(0, 9));
        assert forall|j: int|
            0 <= j < r.len() && !(#[trigger] r[j] is Primitive) implies candidates_of(r[j])
            == definitions_named(sv2, rule_name(r[j])) by {
            if j != i {
                assert(r[j] == b[j]);
                if j < i {
                    assert(rule_name(b[j]) != rule_name(b[i]));
                } else {
                    assert(rule_name(b[i]) != rule_name(b[j]));
                }
            }
        }
        assert forall|m: int|
            0 <= m < sv2.len() implies (#[trigger] sv2[m] matches StatementView::Define(d) ==> exists|j: int|
                0 <= j < r.len() && rule_name(#[trigger] r[j]) == d.name) by {
            if m < sv.len() {
                assert(sv2[m] == sv[m]);
                if let StatementView::Define(d) = sv[m] {
                    let j = choose|j: int| 0 <= j < b.len() && rule_name(#[trigger] b[j]) == d.name;
                    if j == i {
                        assert(rule_name(r[i]) == d.name);
                    } else {
                        assert(r[j] == b[j]);
                    }
                }
            } else {
                assert(rule_name(r[i]) == cname);
            }
        }
    } else {
        assert(r == b.push(Rule::Custom(c)));
        assert(definitions_named(sv, cname).len() == 0) by {
            if definitions_named(sv, cname).len() > 0 {
                lemma_definitions_named_witness(sv, cname);
                let m = choose|m: int|
                    0 <= m < sv.len() && (#[trigger] sv[m] matches StatementView::Define(d) && d.name == cname);
                assert(sv[m] matches StatementView::Define(d));
            }
        }
        assert(candidates_of(r[b.len() as int]) =~= definitions_named(sv2, cname));
        assert(r.subrange(0, 9) =~= b.subrange(0, 9));
        assert forall|j: int|
            0 <= j < r.len() && !(#[trigger] r[j] is Primitive) implies candidates_of(r[j])
            == definitions_named(sv2, rule_name(r[j])) by {
            if j < b.len() {
                assert(r[j] == b[j]);
            }
        }
        assert forall|m: int|
            0 <= m < sv2.len() implies (#[trigger] sv2[m] matches StatementView::Define(d) ==> exists|j: int|
                0 <= j < r.len() && rule_name(#[trigger] r[j]) == d.name) by {
            if m < sv.len() {
                assert(sv2[m] == sv[m]);
                if let StatementView::Define(d) = sv[m] {
                    let j = choose|j: int| 0 <= j < b.len() && rule_name(#[trigger] b[j]) == d.name;
                    assert(r[j] == b[j]);
                }
            } else {
                assert(rule_name(r[b.len() as int]) == cname);
            }
        }
    }
}

/// What a source text reads as: its statements, or the first error with
/// the position, among the lexemes read, at which reading stopped.
pub open spec fn program_of(text: Seq<char>) -> Result<Seq<StatementView>, (ErrorKind, int)> {
    match strip_comments(scan_from(text, 0)) {
        Err(_) => Err((ErrorKind::NestedComment, 0)),
        Ok(ls) => spec_program(text, significant(ls), 0, Seq::empty()),
    }
}

/// Whether some definition among the statements is refused.
pub open spec fn some_refused(stmts: Seq<StatementView>) -> bool {
    exists|k: int| refused_at(stmts, k)
}

/// `t` is the table of `source`: the text reads as a program, none of its
/// definitions is refused, and `t` is the table its statements build.
pub open spec fn builds(source: Seq<char>, t: RuleSet) -> bool {
    match program_of(source) {
        Ok(stmts) => table_of(t, stmts) && !some_refused(stmts),
        Err(_) => false,
    }
}

/// The span in `source` of the lexeme at `at` of `toks`, or the end of the
/// text where reading ran out of lexemes.
pub open spec fn span_at(source: Seq<char>, toks: Seq<Lexeme>, at: int) -> (int, int) {
    if 0 <= at < toks.len() {
        (toks[at].start as int, toks[at].end as int)
    } else {
        (source.len() as int, source.len() as int)
    }
}

/// Reading `source` fails with `e`. Its slice is the text of its span. A
/// block comment opened inside another gives `NestedComment` at that `/*`;
/// otherwise the first error met while reading, at the lexeme where reading
/// stopped (the end of the text where it ran out); or, where the text reads
/// but a definition is refused, `DuplicateRuleOverflow` at a `rule <name>`
/// lexeme.
pub open spec fn fails_with(source: Seq<char>, e: Error) -> bool {
    &&& e.start <= e.end <= source.len()
    &&& e.slice@ == source.subrange(e.start as int, e.end as int)
    &&& match strip_comments(scan_from(source, 0)) {
        Err(l) => e.kind == ErrorKind::NestedComment && e.start == l.start && e.end == l.end,
        Ok(ls) => {
            let toks = significant(ls);
            match spec_program(source, toks, 0, Seq::empty()) {
                Err((kind, at)) => e.kind == kind && span_at(source, toks, at) == (
                    e.start as int,
                    e.end as int,
                ),
                Ok(stmts) => e.kind == ErrorKind::DuplicateRuleOverflow && some_refused(stmts) && exists|
                    j: int,
                |
                    0 <= j < toks.len() && (#[trigger] toks[j]).token == Token::RuleDefinition
                        && toks[j].start == e.start && toks[j].end == e.end,
            }
        },
    }
}

/// Reads source text into a rule table.
pub struct Parser {
    pub source: String,
}

impl Parser {
    pub fn new(source: &str) -> (r: Parser)
        ensures
            r.source@ == source@,
    {
        Parser { source: source.to_owned() }
    }

    /// The rule table of the source. It is owed exactly where the source
    /// reads as a program none of whose definitions is refused, and it is
    /// then the table that the program's statements build. Otherwise the error is the
    /// first one met while reading, or the program reads but a definition
    /// cannot join the rules of its name.
    pub fn rules(&self) -> (r: Result<RuleSet, Error>)
        ensures
            match r {
                Ok(t) => builds(self.source@, t),
                Err(e) => fails_with(self.source@, e),
            },
    {
        let source = self.source.as_str();
        let text = chars_of(source);
        let toks = match tokenize(&text) {
            Err(l) => {
                let e = Error {
                    kind: ErrorKind::NestedComment,
                    start: l.start,
                    end: l.end,
                    slice: source.substring_char(l.start, l.end).to_owned(),
                };
                return Err(e);
            },
            Ok(toks) => toks,
        };
        let toks = crate::lexer::keep_significant(&text, &toks);
        match parse_program(source, &text, &toks) {
            Err((kind, at)) => {
                let (start, end) = if at < toks.len() {
                    (toks[at].start, toks[at].end)
                } else {
                    (text.len(), text.len())
                };
                let e = Error { kind, start, end, slice: source.substring_char(start, end).to_owned() };
                proof {
                    if at < toks.len() {
                        assert(toks@[at as int].start <= toks@[at as int].end <= text@.len());
                    }
                }
                Err(e)
            },
            Ok((statements, starts)) => {
                let ghost sv = statements_view(statements@);
                let ghost defs_at = starts@;
                let ghost stmts = statements@;
                match build_rules(statements) {
                    Ok(t) => {
                        proof {
                            assert(program_of(self.source@) == Ok::<Seq<StatementView>, (ErrorKind, int)>(sv));
                            assert(!some_refused(sv));
                        }
                        Ok(t)
                    },
                    Err((kind, k)) => {
                        let j = starts[k];
                        let l = toks[j];
                        let e = Error {
                            kind,
                            start: l.start,
                            end: l.end,
                            slice: source.substring_char(l.start, l.end).to_owned(),
                        };
                        proof {
                            assert(refused_at(sv, k as int));
                            assert(stmts[k as int] is Define) by {
                                assert(sv[k as int] == statement_view(stmts[k as int]));
                            }
                            assert(toks@[j as int].token == Token::RuleDefinition);
                            assert(toks@[j as int] == l);
                            assert(some_refused(sv));
                        }
                        Err(e)
                    },
                }
            },
        }
    }
}

/// Reads `source` into a rule table; see `Parser::rules`.
pub fn parse(source: &str) -> (r: Result<RuleSet, Error>)
    ensures
        match r {
            Ok(t) => builds(source@, t),
            Err(e) => fails_with(source@, e),
        },
{
    Parser::new(source).rules()
}

} // verus!
