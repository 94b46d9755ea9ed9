use eisenscript::lexer::{chars_of, scan, tokenize, Lexeme};
use eisenscript::rules::{Action, Rule, SetAction};
use eisenscript::{parse, ErrorKind, Number, Parser, Primitive, Step, Token};

fn tokens(src: &str) -> Vec<Token> {
    scan(&chars_of(src)).into_iter().map(|l| l.token).collect()
}

#[test]
fn complex() {
    let parser = Parser::new(INPUT);
    let rules = parser.rules();
    assert!(rules.is_ok(), "{:?}", rules);
}

#[test]
fn rule_definition_single() {
    let parser = Parser::new("rule r1 { box }");
    let rules = parser.rules().unwrap();
    assert_eq!(
        rules
            .rules
            .iter()
            .filter(|rule| match rule {
                Rule::Primitive(_) => false,
                _ => true,
            })
            .count(),
        1
    );
}

const INPUT: &'static str = r#"/*
  Sample Torus.
*/

set maxdepth 100
r1
36  * { x -2 ry 10   } r1

rule r1 maxdepth 10 {
   2 * { y -1 } 3 * { rz 15 x 1 b -0.9 h -20  } r2
   { y 1 h 12 a 0.9  rx 36 }  r1
}

rule r2 {
   { s 0.9 0.1 1.1 hue 10 } box // a comment
}

rule r2 w 2 {
   { hue 113 sat 19 a 23 s 0.1 0.9 1.1 } box
}
"#;

#[test]
fn literals_prefer_integers() {
    assert_eq!(
        tokens("10 10.5 -3 .5 +7"),
        vec![
            Token::LiteralInteger,
            Token::LiteralFloat,
            Token::LiteralInteger,
            Token::LiteralFloat,
            Token::LiteralInteger
        ]
    );
}

#[test]
fn rule_definition_is_one_token() {
    let ls = scan(&chars_of("rule r1 rule  r2 rules"));
    assert_eq!(ls[0], Lexeme { token: Token::RuleDefinition, start: 0, end: 7 });
    assert_eq!(ls[1].token, Token::RuleInvocation);
    assert_eq!(ls[2].token, Token::RuleInvocation);
    assert_eq!(ls[3].token, Token::RuleInvocation);
    assert_eq!(ls.len(), 4);
}

#[test]
fn keywords_and_names() {
    assert_eq!(
        tokens("x xy set md maxdepth w hue sat b a rz s color reflect { } * >"),
        vec![
            Token::X,
            Token::RuleInvocation,
            Token::SetKeyword,
            Token::MaxDepth,
            Token::MaxDepth,
            Token::Weight,
            Token::Hue,
            Token::Sat,
            Token::Brightness,
            Token::Alpha,
            Token::Rz,
            Token::S,
            Token::Color,
            Token::Reflect,
            Token::BracketOpen,
            Token::BracketClose,
            Token::Multiply,
            Token::MoreThan
        ]
    );
}

#[test]
fn comments_and_garbage() {
    assert_eq!(tokens("box // rest { }\nsphere"), vec![Token::RuleInvocation, Token::RuleInvocation]);
    assert_eq!(tokens("a ; b"), vec![Token::Alpha, Token::Unrecognized, Token::Brightness]);
    let kept = tokenize(&chars_of("box /* { x } */ dot")).unwrap();
    assert_eq!(kept.len(), 2);
    assert_eq!(kept[1].start, 16);
}

#[test]
fn unrecognized_text_is_skipped() {
    let rules = parse("; box ?").unwrap();
    assert_eq!(rules.top_level.actions.len(), 1);
}

#[test]
fn nested_comment_is_refused() {
    let e = parse("/* a /* b */ */ box").unwrap_err();
    assert_eq!(e.kind, ErrorKind::NestedComment);
    assert_eq!((e.start, e.end), (5, 7));
}

#[test]
fn unterminated_comment_runs_to_the_end() {
    let rules = parse("box /* sphere").unwrap();
    assert_eq!(rules.top_level.actions.len(), 1);
}

#[test]
fn uniform_and_nonuniform_scale() {
    let rules = parse("{ s 2 } box { s 1 2 3 } box").unwrap();
    let loops: Vec<Vec<Step>> = rules
        .top_level
        .actions
        .iter()
        .map(|a| match a {
            Action::Transform(t) => t.loops[0].transform.steps.clone(),
            Action::Setting(_) => vec![],
        })
        .collect();
    let k = Number::from_int;
    assert_eq!(loops[0], vec![Step::Scale(k(2), k(2), k(2))]);
    assert_eq!(loops[1], vec![Step::Scale(k(1), k(2), k(3))]);
}

#[test]
fn decimals_are_exact() {
    let rules = parse("{ x -0.25 } box").unwrap();
    match &rules.top_level.actions[0] {
        Action::Transform(t) => assert_eq!(
            t.loops[0].transform.steps,
            vec![Step::Translate(
                Number { mantissa: -25, scale: 2 },
                Number::from_int(0),
                Number::from_int(0)
            )]
        ),
        Action::Setting(_) => panic!("a setting"),
    }
}

#[test]
fn modifiers_are_bound() {
    let rules = parse("rule r1 md 10 > r2 w 0.5 { box } rule r2 { box }").unwrap();
    let i = rules.find("r1").unwrap();
    match &rules.rules[i] {
        Rule::Custom(c) => {
            assert_eq!(c.rule.max_depth, Some(10));
            assert_eq!(c.rule.retirement_rule, Some("r2".to_string()));
            assert_eq!(c.rule.weight, Number { mantissa: 5, scale: 1 });
        }
        _ => panic!("r1 is not custom"),
    }
}

#[test]
fn set_maxdepth_is_recorded() {
    let rules = parse("set maxdepth 100 box").unwrap();
    assert_eq!(rules.top_level.actions[0], Action::Setting(SetAction::MaxDepth(100)));
}

#[test]
fn same_name_definitions_merge() {
    let rules = parse("rule r w 2 { box } rule r { dot } rule r w 0.5 { sphere }").unwrap();
    let i = rules.find("r").unwrap();
    match &rules.rules[i] {
        Rule::Ambiguous(a) => {
            assert_eq!(a.actions.len(), 3);
            assert_eq!(a.weights, vec![2_000_000_000, 1_000_000_000, 500_000_000]);
        }
        _ => panic!("r is not ambiguous"),
    }
}

#[test]
fn primitives_are_in_the_table() {
    let rules = parse("").unwrap();
    assert_eq!(rules.rules.len(), 9);
    assert_eq!(Primitive::Cylinder.name(), "cylinder");
    assert_eq!(Primitive::Box.name(), "box");
    assert!(rules.find("template").is_some());
    assert!(rules.find("boxes").is_none());
}

#[test]
fn error_kinds() {
    let kind = |s: &str| parse(s).unwrap_err().kind;
    assert_eq!(kind("{ x 1"), ErrorKind::UnexpectedEOF);
    assert_eq!(kind("rule r1 {"), ErrorKind::UnexpectedEOF);
    assert_eq!(kind("{ x 1 } }"), ErrorKind::ExpectedIdentifier);
    assert_eq!(kind("set sat 1"), ErrorKind::ExpectedIdentifier);
    assert_eq!(kind("{ x y } box"), ErrorKind::ExpectedNumber);
    assert_eq!(kind("{ x 99999999999 } box"), ErrorKind::ExpectedNumber);
    assert_eq!(kind("rule r w 0 { box }"), ErrorKind::ExpectedNumber);
    assert_eq!(kind("{ color 1 } box"), ErrorKind::UnexpectedTransformToken);
    assert_eq!(kind("3 x { x 1 } box"), ErrorKind::UnexpectedTransformToken);
    assert_eq!(kind("* box"), ErrorKind::UnexpectedTopLevelToken);
    assert_eq!(kind("rule r { box set }"), ErrorKind::UnexpectedTopLevelToken);
    assert_eq!(kind("rule r { * }"), ErrorKind::UnexpectedTopLevelToken);
    assert_eq!(kind("rule box { dot }"), ErrorKind::DuplicateRuleOverflow);
    assert_eq!(kind("/* /* */"), ErrorKind::NestedComment);
}

#[test]
fn error_points_at_the_token() {
    let e = parse("{ x 1 } }").unwrap_err();
    assert_eq!((e.start, e.end, e.slice.as_str()), (8, 9, "}"));
    let e = parse("{ x 1").unwrap_err();
    assert_eq!((e.start, e.end), (5, 5));
    assert_eq!(ErrorKind::ExpectedNumber.message(), "Expected a number.");
}

#[test]
fn too_many_heavy_definitions_overflow() {
    let mut src = String::new();
    for _ in 0..20 {
        src.push_str("rule r w 1000000000 { box } ");
    }
    assert_eq!(parse(&src).unwrap_err().kind, ErrorKind::DuplicateRuleOverflow);
}

#[test]
fn duplicate_error_points_at_the_definition() {
    let e = parse("rule r1 { box } rule box { dot }").unwrap_err();
    assert_eq!(e.kind, ErrorKind::DuplicateRuleOverflow);
    assert_eq!((e.start, e.end, e.slice.as_str()), (16, 24, "rule box"));
}

#[test]
fn default_table_holds_the_primitives() {
    let rules = eisenscript::RuleSet::default();
    assert_eq!(rules.rules.len(), 9);
    assert!(rules.top_level.actions.is_empty());
}

#[test]
fn transform_token_error_reports_the_token() {
    let e = parse("{ color 1 } box").unwrap_err();
    assert_eq!(e.kind, ErrorKind::UnexpectedTransformToken);
    assert_eq!((e.start, e.end, e.slice.as_str()), (2, 7, "color"));
}

#[test]
fn single_definition_stays_custom() {
    let rules = parse("r1 rule r1 md 1 { box }").unwrap();
    let i = rules.find("r1").unwrap();
    assert!(matches!(rules.rules[i], Rule::Custom(_)));
}
