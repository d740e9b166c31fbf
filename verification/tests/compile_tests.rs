//! The template compiler: lexing, escaping, placeholder grammar and
//! validation.

use prse::compile;
use prse::CompileError;
use prse::Instruction;
use prse::Instructions;
use prse::Var;

fn lit(s: &str) -> Instruction {
    Instruction::Lit(s.to_string())
}

fn parse_implied() -> Instruction {
    Instruction::Parse(Var::Implied)
}

#[test]
fn parse_test_instruction_pass() {
    let cases: Vec<(&str, Vec<Instruction>)> = vec![
        ("{}", vec![parse_implied()]),
        ("{} {}", vec![parse_implied(), lit(" "), parse_implied()]),
        ("{}\n{}", vec![parse_implied(), lit("\n"), parse_implied()]),
        (
            "\u{1F607}{}a\u{301}ngel\u{301}{}!",
            vec![
                lit("\u{1F607}"),
                parse_implied(),
                lit("a\u{301}ngel\u{301}"),
                parse_implied(),
                lit("!"),
            ],
        ),
        (
            "{}{{{}}}{}",
            vec![
                parse_implied(),
                lit("{"),
                parse_implied(),
                lit("}"),
                parse_implied(),
            ],
        ),
        (
            " {}{{:}}}}{} ",
            vec![lit(" "), parse_implied(), lit("{:}}"), parse_implied(), lit(" ")],
        ),
        (
            " {} {}}}{}",
            vec![
                lit(" "),
                parse_implied(),
                lit(" "),
                parse_implied(),
                lit("}"),
                parse_implied(),
            ],
        ),
        (
            "{hello}",
            vec![Instruction::Parse(Var::Ident("hello".to_string()))],
        ),
        (
            "{:,:5}",
            vec![Instruction::MultiParse(Var::Implied, ",".to_string(), 5, false)],
        ),
        (
            "{:,:0}",
            vec![Instruction::IterParse(Var::Implied, ",".to_string(), false)],
        ),
        (
            "{:,:}",
            vec![Instruction::VecParse(Var::Implied, ",".to_string(), false)],
        ),
        (
            "{:,::1}",
            vec![Instruction::MultiParse(Var::Implied, ",:".to_string(), 1, false)],
        ),
        (
            "{:,::0}",
            vec![Instruction::IterParse(Var::Implied, ",:".to_string(), false)],
        ),
        (
            "{:,::}",
            vec![Instruction::VecParse(Var::Implied, ",:".to_string(), false)],
        ),
        (
            "{::,::85}",
            vec![Instruction::MultiParse(Var::Implied, ":,:".to_string(), 85, false)],
        ),
        (
            "{::,::0}",
            vec![Instruction::IterParse(Var::Implied, ":,:".to_string(), false)],
        ),
        (
            "{::,::}",
            vec![Instruction::VecParse(Var::Implied, ":,:".to_string(), false)],
        ),
    ];
    for (input, expected) in cases {
        let output = compile(input);
        assert_eq!(output.unwrap(), Instructions(expected));
    }
}

#[test]
fn var_test_instruction_pass() {
    let cases: Vec<(&str, Vec<Instruction>)> = vec![
        ("{}", vec![parse_implied()]),
        ("{} {}", vec![parse_implied(), lit(" "), parse_implied()]),
        ("{}\n{}", vec![parse_implied(), lit("\n"), parse_implied()]),
        (
            "\u{6E38}\u{B552}{}a\u{D328}ngel\u{D328}{}!",
            vec![
                lit("\u{6E38}\u{B552}"),
                parse_implied(),
                lit("a\u{D328}ngel\u{D328}"),
                parse_implied(),
                lit("!"),
            ],
        ),
        (
            "{}{{{}}}{}",
            vec![
                parse_implied(),
                lit("{"),
                parse_implied(),
                lit("}"),
                parse_implied(),
            ],
        ),
        (
            " {}{{:}}}}{} ",
            vec![lit(" "), parse_implied(), lit("{:}}"), parse_implied(), lit(" ")],
        ),
        (
            " {} {}}}{}",
            vec![
                lit(" "),
                parse_implied(),
                lit(" "),
                parse_implied(),
                lit("}"),
                parse_implied(),
            ],
        ),
        (
            "{:}}:}",
            vec![Instruction::VecParse(Var::Implied, "}".to_string(), false)],
        ),
        (
            "{:{{}}:}",
            vec![Instruction::VecParse(Var::Implied, "{}".to_string(), false)],
        ),
        (
            "{:{{}}: }",
            vec![Instruction::VecParse(Var::Implied, "{}".to_string(), false)],
        ),
        (
            "{hello}",
            vec![Instruction::Parse(Var::Ident("hello".to_string()))],
        ),
        (
            "{:,:5}",
            vec![Instruction::MultiParse(Var::Implied, ",".to_string(), 5, false)],
        ),
        (
            "{:,:0}",
            vec![Instruction::IterParse(Var::Implied, ",".to_string(), false)],
        ),
        (
            "{:,:}",
            vec![Instruction::VecParse(Var::Implied, ",".to_string(), false)],
        ),
        (
            "{:,::1}",
            vec![Instruction::MultiParse(Var::Implied, ",:".to_string(), 1, false)],
        ),
        (
            "{:,::0}",
            vec![Instruction::IterParse(Var::Implied, ",:".to_string(), false)],
        ),
        (
            "{:,::}",
            vec![Instruction::VecParse(Var::Implied, ",:".to_string(), false)],
        ),
        (
            "{::,::85}",
            vec![Instruction::MultiParse(Var::Implied, ":,:".to_string(), 85, false)],
        ),
        (
            "{::,::0}",
            vec![Instruction::IterParse(Var::Implied, ":,:".to_string(), false)],
        ),
        (
            "{::,::}",
            vec![Instruction::VecParse(Var::Implied, ":,:".to_string(), false)],
        ),
        ("{ 0  }", vec![Instruction::Parse(Var::Position(0))]),
        (
            "{1} {0}",
            vec![
                Instruction::Parse(Var::Position(1)),
                lit(" "),
                Instruction::Parse(Var::Position(0)),
            ],
        ),
        (
            "{0} {  hiya }",
            vec![
                Instruction::Parse(Var::Position(0)),
                lit(" "),
                Instruction::Parse(Var::Ident("hiya".to_string())),
            ],
        ),
        (
            "{:-:!}",
            vec![Instruction::VecParse(Var::Implied, "-".to_string(), true)],
        ),
    ];
    for (input, expected) in cases {
        let output = compile(input);
        assert_eq!(output.unwrap(), Instructions(expected));
    }
}

#[test]
fn compile_idempotent() {
    let templates = ["{} {}", "a{{b", "{x:, :3} end", "{1} / {0}"];
    for t in templates {
        let first = compile(t).unwrap();
        let second = compile(t).unwrap();
        assert_eq!(first, second);
    }
}

#[test]
fn escaping() {
    let t = compile("{{}}").unwrap();
    assert_eq!(t, Instructions(vec![lit("{}")]));
    let caps = t.match_str("{}").unwrap();
    assert_eq!(caps.captures_len(), 0);
    assert_eq!(caps.len(), 0);

    let t = compile("a{{b").unwrap();
    assert_eq!(t, Instructions(vec![lit("a{b")]));

    assert_eq!(compile("{"), Err(CompileError::UnclosedPlaceholder));
    assert_eq!(compile("a{x"), Err(CompileError::UnclosedPlaceholder));
}

#[test]
fn compile_errors() {
    assert_eq!(compile("}"), Err(CompileError::UnexpectedClose));
    assert_eq!(compile("a } b"), Err(CompileError::UnexpectedClose));
    assert_eq!(compile("{a{b}"), Err(CompileError::UnexpectedOpen));
    assert_eq!(compile("{}{}"), Err(CompileError::AmbiguousAdjacentCaptures));
    assert_eq!(compile("a{x}{y}b"), Err(CompileError::AmbiguousAdjacentCaptures));
    assert_eq!(compile("{:}"), Err(CompileError::InvalidSeparator));
    assert_eq!(compile("{x:,}"), Err(CompileError::InvalidSeparator));
    assert_eq!(compile("{:,:x}"), Err(CompileError::InvalidArity));
    assert_eq!(compile("{:,: 5}"), Err(CompileError::InvalidArity));
    assert_eq!(compile("{:,:256}"), Err(CompileError::InvalidArity));
    assert_eq!(compile("{256}"), Err(CompileError::InvalidVariable));
    assert_eq!(compile("{9a}"), Err(CompileError::InvalidVariable));
    assert_eq!(compile("{a-b}"), Err(CompileError::InvalidVariable));
    assert_eq!(compile("{_}"), Err(CompileError::InvalidVariable));
    // a bad variable part is reported before a missing second colon
    assert_eq!(compile("{x!:y}"), Err(CompileError::InvalidVariable));
    assert_eq!(compile("{0} {0}"), Err(CompileError::InvalidPositional));
    assert_eq!(compile("{0} {2}"), Err(CompileError::InvalidPositional));
    assert_eq!(compile("{1}"), Err(CompileError::InvalidPositional));
    assert_eq!(compile("{0} {}"), Err(CompileError::InvalidPositional));
}

#[test]
fn compile_arity_forms() {
    // a count may carry a plus sign, as the count type itself would accept
    let t = compile("{:,:+3}").unwrap();
    assert_eq!(
        t,
        Instructions(vec![Instruction::MultiParse(Var::Implied, ",".to_string(), 3, false)])
    );
    // the skip-repeated marker combines with every arity form
    let t = compile("{:,:!5}").unwrap();
    assert_eq!(
        t,
        Instructions(vec![Instruction::MultiParse(Var::Implied, ",".to_string(), 5, true)])
    );
    let t = compile("{:,:!0}").unwrap();
    assert_eq!(
        t,
        Instructions(vec![Instruction::IterParse(Var::Implied, ",".to_string(), true)])
    );
    let t = compile("{:,:!  }").unwrap();
    assert_eq!(
        t,
        Instructions(vec![Instruction::VecParse(Var::Implied, ",".to_string(), true)])
    );
    // an empty separator selects character mode
    let t = compile("{::3}").unwrap();
    assert_eq!(
        t,
        Instructions(vec![Instruction::MultiParse(Var::Implied, "".to_string(), 3, false)])
    );
}

#[test]
fn get_var_access() {
    let t = compile("{a} {1}x{0}").unwrap();
    assert!(t.0[0].get_var().is_some());
    assert!(t.0[1].get_var().is_none());
    assert_eq!(t.0[2].get_var(), Some(&Var::Position(1)));
}
