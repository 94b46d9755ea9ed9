use eisenscript::rules::{Action, Rule, TransformAction, TransformationLoop};
use eisenscript::{parse, ContextMut, ErrorKind, Number, Parser, Primitive, RuleSet, Step, Transform};
use nalgebra::{Matrix4, Vector3};
use rand::rngs::StdRng;
use rand::SeedableRng;

fn n(v: i64) -> Number {
    Number::from_int(v)
}

fn value(x: &Number) -> f32 {
    x.mantissa as f32 / 10f32.powi(x.scale as i32)
}

struct Placed {
    tx: Matrix4<f32>,
    hue: f32,
    sat: f32,
    brightness: f32,
    alpha: f32,
}

fn pivoted(pivot: Vector3<f32>, m: Matrix4<f32>) -> Matrix4<f32> {
    Matrix4::new_translation(&pivot) * m * Matrix4::new_translation(&-pivot)
}

fn placed(t: &Transform) -> Placed {
    let mut p = Placed {
        tx: Matrix4::identity(),
        hue: 0.0,
        sat: 1.0,
        brightness: 1.0,
        alpha: 1.0,
    };
    for s in &t.steps {
        match s {
            Step::Translate(x, y, z) => {
                p.tx *= Matrix4::new_translation(&Vector3::new(value(x), value(y), value(z)))
            }
            Step::RotateX(a) => {
                p.tx *= pivoted(
                    Vector3::new(0.0, 0.5, 0.5),
                    Matrix4::from_axis_angle(&Vector3::x_axis(), value(a).to_radians()),
                )
            }
            Step::RotateY(a) => {
                p.tx *= pivoted(
                    Vector3::new(0.5, 0.0, 0.5),
                    Matrix4::from_axis_angle(&Vector3::y_axis(), value(a).to_radians()),
                )
            }
            Step::RotateZ(a) => {
                p.tx *= pivoted(
                    Vector3::new(0.5, 0.5, 0.0),
                    Matrix4::from_axis_angle(&Vector3::z_axis(), value(a).to_radians()),
                )
            }
            Step::Scale(x, y, z) => {
                p.tx *= pivoted(
                    Vector3::new(0.5, 0.5, 0.5),
                    Matrix4::new_nonuniform_scaling(&Vector3::new(value(x), value(y), value(z))),
                )
            }
            Step::Color { hue, sat, brightness, alpha } => {
                p.hue += value(hue);
                p.sat *= value(sat);
                p.brightness *= value(brightness);
                p.alpha *= value(alpha);
            }
        }
    }
    p
}

fn close(a: &Transform, b: &Transform, eps: f32) -> bool {
    let (pa, pb) = (placed(a), placed(b));
    (pa.tx - pb.tx).abs().max() <= eps
        && (pa.hue - pb.hue).abs() <= eps
        && (pa.sat - pb.sat).abs() <= eps
        && (pa.brightness - pb.brightness).abs() <= eps
        && (pa.alpha - pb.alpha).abs() <= eps
}

fn ctx(seed: u64) -> ContextMut {
    ContextMut::new(StdRng::seed_from_u64(seed))
}

fn evaluate(rules: &RuleSet, ctx: &mut ContextMut) -> Vec<(Transform, Primitive)> {
    rules.evaluate(ctx, Transform::identity(), 1_000_000).unwrap()
}

fn run(source: &str) -> Vec<(Transform, Primitive)> {
    let rules = parse(source).unwrap();
    evaluate(&rules, &mut ctx(0))
}

fn custom<'a>(rules: &'a RuleSet, name: &str) -> &'a eisenscript::rules::Custom {
    let i = rules.find(name).unwrap();
    match &rules.rules[i] {
        Rule::Custom(inner) => inner,
        _ => panic!("{} is not a custom rule", name),
    }
}

#[test]
fn from_fn() {
    let action = TransformAction {
        loops: vec![
            TransformationLoop {
                count: 2,
                transform: Transform::translation(n(2), n(0), n(0)),
            },
            TransformationLoop {
                count: 2,
                transform: Transform::translation(n(0), n(2), n(0)),
            },
        ],
        rule: "".to_string(),
    };
    let cmds = action.placements(&Transform::identity());
    assert_eq!(cmds.len(), 4);
    assert!(close(&cmds[0], &Transform::translation(n(2), n(2), n(0)), 0.0));
    assert!(close(&cmds[1], &Transform::translation(n(2), n(4), n(0)), 0.0));
    assert!(close(&cmds[2], &Transform::translation(n(4), n(2), n(0)), 0.0));
    assert!(close(&cmds[3], &Transform::translation(n(4), n(4), n(0)), 0.0));
}

#[test]
fn basic_tx() {
    let rules = Parser::new("{ x 2 } box").rules().unwrap();
    let cmds = evaluate(&rules, &mut ctx(1));
    assert_eq!(cmds.len(), 1);
    assert!(close(&cmds[0].0, &Transform::translation(n(2), n(0), n(0)), 0.0));
    assert_eq!(cmds[0].1, Primitive::Box);
}

#[test]
fn basic_custom() {
    let rules = Parser::new("r1 rule r1 { box }").rules().unwrap();
    let cmds = evaluate(&rules, &mut ctx(1));
    assert_eq!(cmds.len(), 1);
    assert_eq!(cmds[0].0, Transform::identity());
    assert_eq!(cmds[0].1, Primitive::Box);
}

#[test]
fn hue_tx() {
    let count = 6;
    let delta = 72.;

    let source = format!("{} * {{ h {} }} box", count, delta);
    let rules = Parser::new(&source).rules().unwrap();
    let cmds = evaluate(&rules, &mut ctx(1));
    assert_eq!(cmds.len(), count);
    for i in 1..=count {
        let expected = Transform::hsv(n(72 * i as i64), n(1), n(1));
        assert!(close(&cmds[i - 1].0, &expected, 0.0));
        assert!((placed(&cmds[i - 1].0).hue - delta * i as f32).abs() == 0.0);
        assert_eq!(cmds[i - 1].1, Primitive::Box);
    }
}

#[test]
fn rotation_test() {
    let rules = Parser::new("2 * { x 1 rz 45 } box").rules().unwrap();
    let cmds: Vec<Transform> = evaluate(&rules, &mut ctx(1)).into_iter().map(|(tx, _)| tx).collect();

    let tx = Transform::translation(n(1), n(0), n(0)).compose(&Transform::rotate_z(n(45)));
    assert!(close(&cmds[0], &tx, 0.001));
    let tx = tx
        .compose(&Transform::translation(n(1), n(0), n(0)))
        .compose(&Transform::rotate_z(n(45)));
    assert!(close(&cmds[1], &tx, 0.001));

    assert_eq!(cmds.len(), 2);
}

#[test]
fn transform_stack() {
    let rules = Parser::new("{ x 1 } r1 rule r1 { box }").rules().unwrap();
    let cmds = evaluate(&rules, &mut ctx(1));
    assert_eq!(cmds.len(), 1);
    assert!(close(&cmds[0].0, &Transform::translation(n(1), n(0), n(0)), 0.0));
}

// `md 4` gives the rule one expansion when its budget starts and one for
// each decrement that leaves it above zero: 3 - 1 = 2, 2 - 1 = 1; the
// decrement to zero suppresses the fourth.
#[test]
fn recursion() {
    let rules = Parser::new(
        "r1
            rule r1 md 4 {
                box
                { x 1 h 20 } r1
            }",
    )
    .rules()
    .unwrap();
    let cmds = evaluate(&rules, &mut ctx(1));
    assert_eq!(cmds.len(), 3);
}

// The budget of `md 1` starts at zero, so the next use of `r1` while it is
// held is suppressed, and the one after starts it again.
#[test]
fn mixed_recursion() {
    let rules = Parser::new(
        r#"
            2 * { y 1 h 40 } r1
            rule r1 md 1 {
	            { x 1 h 40 } r1
	            box
            }"#,
    )
    .rules()
    .unwrap();

    let mut ctx = ctx(1);

    let rule = custom(&rules, "r1");
    assert_eq!(rule.actions.len(), 2);

    let action1 = match &rule.actions[0] {
        Action::Transform(inner) => inner.clone(),
        Action::Setting(_) => panic!("a setting"),
    };
    assert_eq!(action1.rule, "r1");
    assert_eq!(
        action1.loops,
        vec![TransformationLoop {
            count: 1,
            transform: Transform::translation(n(1), n(0), n(0)).compose(&Transform::hsv(n(40), n(1), n(1)))
        }]
    );

    let mut alone = rules.clone();
    alone.top_level.actions = vec![Action::Transform(action1)];
    assert_eq!(evaluate(&alone, &mut ctx).len(), 1);

    let mut body = rules.clone();
    body.top_level.actions = rule.actions.clone();
    assert_eq!(evaluate(&body, &mut ctx).len(), 2);

    assert_eq!(evaluate(&rules, &mut ctx).len(), 3);
}

#[test]
fn custom_rule_lookup() {
    const INPUT: &'static str = r#"
3 * { x 2 h 40 } 2 * { y 2 h 40 } 4 * { z 2 h 40 } r1

rule r1 {
	box
}
"#;

    let rules = Parser::new(INPUT).rules().unwrap();
    assert_eq!(evaluate(&rules, &mut ctx(1)).len(), 2 * 3 * 4);
}

#[test]
fn composition_with_identity_changes_nothing() {
    let t = Transform::translation(n(1), n(2), n(3))
        .compose(&Transform::rotate_x(n(30)))
        .compose(&Transform::hsv(n(10), n(1), n(1)));
    assert_eq!(t.compose(&Transform::identity()), t);
    assert_eq!(Transform::identity().compose(&t), t);
}

#[test]
fn cartesian_loops_in_order() {
    let cmds = run("2 * {x 2} 2 * {y 2} box");
    let expected = [(2, 2), (2, 4), (4, 2), (4, 4)];
    assert_eq!(cmds.len(), 4);
    for (c, (x, y)) in cmds.iter().zip(expected.iter()) {
        assert!(close(&c.0, &Transform::translation(n(*x), n(*y), n(0)), 0.0));
        assert_eq!(c.1, Primitive::Box);
    }
}

#[test]
fn loops_reseed_each_factor_with_the_incoming_transform() {
    // inside `r1` the accumulated transform is x 1; each loop starts from it
    let cmds = run("{ x 1 } r1 rule r1 { 1 * { y 1 } 1 * { z 1 } box }");
    assert_eq!(cmds.len(), 1);
    let expected = Transform::translation(n(2), n(1), n(1));
    assert!(close(&cmds[0].0, &expected, 0.0));
}

#[test]
fn zero_count_loop_places_nothing() {
    assert_eq!(run("0 * { x 1 } box").len(), 0);
}

#[test]
fn bare_invocation() {
    let cmds = run("{x 2} box");
    assert_eq!(cmds.len(), 1);
    assert!(close(&cmds[0].0, &Transform::translation(n(2), n(0), n(0)), 0.0));
}

#[test]
fn custom_rule_indirection() {
    let cmds = run("r1 rule r1 { box }");
    assert_eq!(cmds, vec![(Transform::identity(), Primitive::Box)]);
}

#[test]
fn hue_accumulates_without_wrapping() {
    let cmds = run("6 * {h 72} box");
    let hues: Vec<f32> = cmds.iter().map(|c| placed(&c.0).hue).collect();
    assert_eq!(hues, vec![72.0, 144.0, 216.0, 288.0, 360.0, 432.0]);
}

#[test]
fn saturation_brightness_alpha_multiply() {
    let cmds = run("2 * { sat 0.5 b 0.5 a 0.5 } box");
    let p = placed(&cmds[1].0);
    assert!((p.sat - 0.25).abs() < 1e-6);
    assert!((p.brightness - 0.25).abs() < 1e-6);
    assert!((p.alpha - 0.25).abs() < 1e-6);
}

#[test]
fn budget_resets_after_exhaustion() {
    // two separate top-level uses of a rule whose budget runs out
    let cmds = run("r1 r1 rule r1 md 2 { box { x 1 } r1 }");
    // each use: start at 1 (box), decrement to 0 suppresses the recursion
    assert_eq!(cmds.len(), 2);
}

#[test]
fn ambiguity_follows_weights() {
    let rules = parse("r rule r w 1 { box } rule r w 3 { sphere }").unwrap();
    let mut c = ctx(7);
    let mut spheres = 0;
    let runs = 4000;
    for _ in 0..runs {
        let cmds = evaluate(&rules, &mut c);
        assert_eq!(cmds.len(), 1);
        if cmds[0].1 == Primitive::Sphere {
            spheres += 1;
        }
    }
    let share = spheres as f64 / runs as f64;
    assert!(share > 0.70 && share < 0.80, "share {}", share);
}

#[test]
fn ambiguity_is_reproducible_for_a_seed() {
    let rules = parse("20 * { x 1 } r rule r w 0.5 { box } rule r { sphere } rule r w 2 { dot }").unwrap();
    let first: Vec<Primitive> = evaluate(&rules, &mut ctx(42)).into_iter().map(|c| c.1).collect();
    let second: Vec<Primitive> = evaluate(&rules, &mut ctx(42)).into_iter().map(|c| c.1).collect();
    assert_eq!(first.len(), 20);
    assert_eq!(first, second);
    assert!(first.contains(&Primitive::Box) || first.contains(&Primitive::Sphere));
    assert!(first.contains(&Primitive::Dot));
}

#[test]
fn same_seed_same_output() {
    let rules = parse("r1 rule r1 md 6 { box { x 1 rz 10 } r1 { y 1 } r2 } rule r2 { sphere } rule r2 { dot }").unwrap();
    let a = evaluate(&rules, &mut ctx(3));
    let b = evaluate(&rules, &mut ctx(3));
    assert!(!a.is_empty());
    assert_eq!(a, b);
}

#[test]
fn unknown_rule_fails_evaluation() {
    let rules = parse("{ x 1 } nothere").unwrap();
    let e = rules.evaluate(&mut ctx(0), Transform::identity(), 1000).unwrap_err();
    assert_eq!(e.kind, ErrorKind::UnknownRuleReference);
    assert_eq!(e.slice, "nothere");
}

#[test]
fn runaway_grammar_meets_the_step_limit() {
    let rules = parse("r rule r { box r }").unwrap();
    let e = rules.evaluate(&mut ctx(0), Transform::identity(), 500).unwrap_err();
    assert_eq!(e.kind, ErrorKind::StepLimit);
}

#[test]
fn evaluation_starts_from_the_given_transform() {
    let rules = parse("box").unwrap();
    let start = Transform::translation(n(5), n(0), n(0));
    let cmds = rules.evaluate(&mut ctx(0), start.clone(), 100).unwrap();
    assert_eq!(cmds, vec![(start, Primitive::Box)]);
}

#[test]
fn stepping_yields_lazily() {
    let rules = parse("3 * { x 1 } box").unwrap();
    let mut c = ctx(0);
    let mut it = rules.iter(Transform::identity());
    let mut first = None;
    for _ in 0..10 {
        if let eisenscript::StepOutcome::Yielded(t, p) = it.step(&rules, &mut c) {
            first = Some((t, p));
            break;
        }
    }
    let (t, p) = first.unwrap();
    assert_eq!(p, Primitive::Box);
    assert!(close(&t, &Transform::translation(n(1), n(0), n(0)), 0.0));
    assert_eq!(it.stack.len(), 3);
}

#[test]
fn next_walks_leaf_by_leaf() {
    let rules = parse("2 * { x 1 } box sphere").unwrap();
    let mut c = ctx(0);
    let mut it = rules.iter(Transform::identity());
    let mut kinds = vec![];
    while let Some(r) = it.next(&rules, &mut c, 1000) {
        kinds.push(r.unwrap().1);
    }
    assert_eq!(kinds, vec![Primitive::Box, Primitive::Box, Primitive::Sphere]);
    let endless = parse("r rule r { r }").unwrap();
    let mut it = endless.iter(Transform::identity());
    assert_eq!(it.next(&endless, &mut c, 50).unwrap().unwrap_err().kind, ErrorKind::StepLimit);
}
