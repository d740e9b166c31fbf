//! The runtime matcher: captures, ordering, names, multi-value splitting
//! and the error cases.

use prse::compile;
use prse::parse_bool;
use prse::parse_char;
use prse::parse_i32;
use prse::parse_u32;
use prse::parse_u8;
use prse::Captured;
use prse::ParseError;
use prse::ParseIter;

fn cap_str<'a>(c: &Captured<'a>) -> &'a str {
    match c {
        Captured::Single(s) => s,
        _ => panic!("expected a single capture"),
    }
}

fn cap_elems<'a>(c: &Captured<'a>) -> Vec<&'a str> {
    match c {
        Captured::Many { elems, .. } => elems.clone(),
        _ => panic!("expected a multi-value capture"),
    }
}

fn cap_iter<'a>(c: &Captured<'a>) -> ParseIter<'a> {
    match c {
        Captured::Lazy { region, sep, multi } => ParseIter::new(region, sep.as_str(), *multi),
        _ => panic!("expected a lazy capture"),
    }
}

#[test]
fn empty_literal() {
    let input = "";
    compile("").unwrap().match_str(input).unwrap();
    let input = "Test";
    compile("Test").unwrap().match_str(input).unwrap();
}

#[test]
fn lib_use_other_strings() {
    let s = String::from("Dashing through the snow.");
    let r = r#"Dashing through the snow."#;
    let t = compile("Dashing through the {}.").unwrap();
    let caps = t.match_str(&s).unwrap();
    assert_eq!(cap_str(caps.get(0)), "snow");
    let caps = t.match_str(r).unwrap();
    assert_eq!(cap_str(caps.get(0)), "snow");

    let t2 = compile(r#"Dashing through the {}."#).unwrap();
    let caps = t2.match_str(&s).unwrap();
    assert_eq!(cap_str(caps.get(0)), "snow");

    let c = "a is a char.";
    let t3 = compile("{} is a char.").unwrap();
    let caps = t3.match_str(c).unwrap();
    assert_eq!(parse_char(cap_str(caps.get(0))), Ok('a'));
    let l = "a is a char.";
    let caps = t3.match_str(l).unwrap();
    assert_eq!(cap_str(caps.get(0)).to_string(), "a");
}

#[test]
fn lib_errors() {
    let l = "I love the following: bananas, apples, oranges.";
    let case = compile("I love the followin: {}.").unwrap().match_str(l);
    assert_eq!(
        case.unwrap_err(),
        ParseError::Literal {
            expected: String::from("I love the followin: "),
            found: String::from(l)
        }
    );

    let t = compile("I love the following: {}.").unwrap();
    let case: Result<u32, ParseError> = t.match_str(l).and_then(|c| parse_u32(cap_str(c.get(0))));
    assert!(case.is_err());

    let t = compile("I love the following: {:, :}.").unwrap();
    let caps = t.match_str(l).unwrap();
    let case: Result<Vec<u32>, ParseError> =
        cap_elems(caps.get(0)).iter().map(|s| parse_u32(s)).collect();
    assert!(case.is_err());

    let t = compile("I love the following: {:, :2}.").unwrap();
    assert_eq!(
        t.match_str(l).unwrap_err(),
        ParseError::Multi { expected: 2, found: 3 }
    );
    let t = compile("I love the following: {:, :4}.").unwrap();
    assert_eq!(
        t.match_str(l).unwrap_err(),
        ParseError::Multi { expected: 4, found: 3 }
    );
}

#[test]
fn lib_general_tests() {
    let l = "(5,6) has [0,2,42]";
    let t = compile("({x},{y}) has [{:,:3}]").unwrap();
    let caps = t.match_str(l).unwrap();
    let x = parse_u32(cap_str(caps.get_named("x").unwrap())).unwrap();
    let y = parse_i32(cap_str(caps.get_named("y").unwrap())).unwrap();
    let v: Vec<u32> = cap_elems(caps.get(0))
        .iter()
        .map(|s| parse_u32(s).unwrap())
        .collect();
    assert_eq!((x, y), (5, 6));
    assert_eq!(v, vec![0, 2, 42]);

    let t = compile("(5,6) has [{:,:0}]").unwrap();
    let caps = t.match_str(l).unwrap();
    let mut it = cap_iter(caps.get(0));
    let mut p: u32 = 0;
    while let Some(el) = it.next() {
        if let Ok(v) = parse_u32(el) {
            p += v;
        }
    }
    assert_eq!(p, 44);

    let t = compile("(5,6) has [{:,:  }]").unwrap();
    let caps = t.match_str(l).unwrap();
    let p: Vec<u32> = cap_elems(caps.get(0))
        .iter()
        .map(|s| parse_u32(s).unwrap())
        .collect();
    assert_eq!(p, vec![0, 2, 42]);
}

#[test]
fn lib_positional_tests() {
    let numbers = "6 1 5 3 4 2 0";
    let t = compile("{6} {1} {5} {3} {4} {2} {0}").unwrap();
    let caps = t.match_str(numbers).unwrap();
    let vals: Vec<i32> = (0..7)
        .map(|k| parse_i32(cap_str(caps.get(k))).unwrap())
        .collect();
    assert_eq!((0..=6).collect::<Vec<i32>>(), vals);

    let numbers = "test: 5 - 9";
    let t = compile("{var} {1} - {0}").unwrap();
    let caps = t.match_str(numbers).unwrap();
    let rhs = parse_u32(cap_str(caps.get(0))).unwrap();
    let lhs = parse_u32(cap_str(caps.get(1))).unwrap();
    assert_eq!(lhs, 5);
    assert_eq!(rhs, 9);
    assert_eq!(cap_str(caps.get_named("var").unwrap()), "test:");
}

#[test]
fn parse_trim() {
    let t = compile("{},{},{},{}").unwrap();
    let caps = t.match_str(" false , 2 , 3 , 5.0 ").unwrap();
    let b = parse_bool(cap_str(caps.get(0))).unwrap();
    let u = parse_u8(cap_str(caps.get(1))).unwrap();
    let i = parse_i32(cap_str(caps.get(2))).unwrap();
    let f: f64 = cap_str(caps.get(3)).trim().parse().unwrap();
    assert_eq!((false, 2_u8, 3_i32, 5_f64), (b, u, i, f));
}

#[derive(PartialEq, Eq, Debug)]
enum SimpleAlphabet {
    A,
    B,
}

fn parse_alphabet(s: &str) -> Result<SimpleAlphabet, ParseError> {
    // the variant templates, tried in declaration order
    match s {
        "A" => Ok(SimpleAlphabet::A),
        "B" => Ok(SimpleAlphabet::B),
        _ => Err(ParseError::new("no variant matched")),
    }
}

#[test]
fn parse_single_chars() {
    let t = compile("{}").unwrap();
    let caps = t.match_str("A").unwrap();
    assert_eq!(SimpleAlphabet::A, parse_alphabet(cap_str(caps.get(0))).unwrap());

    // an alphabet pair bound through the record template `{:-:2}`
    let t = compile("{:-:2}").unwrap();
    let caps = t.match_str("A-B").unwrap();
    let parsed: Vec<SimpleAlphabet> = cap_elems(caps.get(0))
        .iter()
        .map(|s| parse_alphabet(s).unwrap())
        .collect();
    assert_eq!(vec![SimpleAlphabet::A, SimpleAlphabet::B], parsed);
}

#[test]
fn parse_lifetime_derive() {
    // the record template `{b} {c:-:2}` with a nested `{}` capture for `b`
    let t = compile("{b} {c:-:2}").unwrap();
    let caps = t.match_str("yummy gummy-bear").unwrap();
    let b = cap_str(caps.get_named("b").unwrap());
    let inner = compile("{}").unwrap();
    let bcaps = inner.match_str(b).unwrap();
    assert_eq!(cap_str(bcaps.get(0)), "yummy");
    assert_eq!(cap_elems(caps.get_named("c").unwrap()), vec!["gummy", "bear"]);
}

#[derive(Debug, Eq, PartialEq)]
enum Charlike {
    A(u32),
    B,
}

fn parse_charlike(s: &str) -> Result<Charlike, ParseError> {
    // the variant templates `a:{}`, `A:{}` and `b`, tried in order
    for tpl in ["a:{}", "A:{}"] {
        let t = compile(tpl).unwrap();
        if let Ok(c) = t.match_str(s) {
            if let Ok(v) = parse_u32(cap_str(c.get(0))) {
                return Ok(Charlike::A(v));
            }
        }
    }
    if compile("b").unwrap().match_str(s).is_ok() {
        return Ok(Charlike::B);
    }
    Err(ParseError::new("no variant matched"))
}

#[test]
fn parse_multi_enum() {
    let l = "a:4 A:3 b";
    let t = compile("{} {} {}").unwrap();
    let caps = t.match_str(l).unwrap();
    let parsed = (
        parse_charlike(cap_str(caps.get(0))).unwrap(),
        parse_charlike(cap_str(caps.get(1))).unwrap(),
        parse_charlike(cap_str(caps.get(2))).unwrap(),
    );
    assert_eq!((Charlike::A(4), Charlike::A(3), Charlike::B), parsed);
}

#[test]
fn parse_multi_sep() {
    let t = compile("{:-:!3}").unwrap();
    let caps = t.match_str("1-2---3").unwrap();
    let arr: Vec<u8> = cap_elems(caps.get(0))
        .iter()
        .map(|s| parse_u8(s).unwrap())
        .collect();
    assert_eq!(vec![1, 2, 3], arr);

    // the record template `{arr:::!2}`: separator `:`, skipping repeats
    let t = compile("{arr:::!2}").unwrap();
    let caps = t.match_str(":::23::::1").unwrap();
    let arr: Vec<u32> = cap_elems(caps.get_named("arr").unwrap())
        .iter()
        .map(|s| parse_u32(s).unwrap())
        .collect();
    assert_eq!(vec![23, 1], arr);
}

#[test]
#[should_panic]
fn check_parse_unwrap() {
    let input = String::from("There are 7 boos.");
    let t = compile("There are {num} bos.").unwrap();
    let caps = t.match_str(&input).unwrap();
    let num = parse_u32(cap_str(caps.get_named("num").unwrap())).unwrap();
    assert_eq!(num, 7)
}

fn parse_position(s: &str) -> Option<(i32, i32)> {
    // a custom conversion, reading `(x, y)` by hand
    let s = s.strip_prefix('(')?.strip_suffix(')')?;
    let (x, y) = s.split_once(',')?;
    Some((x.parse().ok()?, y.trim().parse().ok()?))
}

#[derive(Debug, Eq, PartialEq)]
enum Position3 {
    Position { x: i32, y: i32 },
    SinglePositon(i32),
    NoPosition,
}

fn parse_position3(s: &str) -> Result<Position3, ParseError> {
    // the variant templates, tried in declaration order
    let t = compile("({x}, {y})").unwrap();
    if let Ok(c) = t.match_str(s) {
        let x = parse_i32(cap_str(c.get_named("x").unwrap()));
        let y = parse_i32(cap_str(c.get_named("y").unwrap()));
        if let (Ok(x), Ok(y)) = (x, y) {
            return Ok(Position3::Position { x, y });
        }
    }
    let t = compile("({})").unwrap();
    if let Ok(c) = t.match_str(s) {
        if let Ok(v) = parse_i32(cap_str(c.get(0))) {
            return Ok(Position3::SinglePositon(v));
        }
    }
    if compile("()").unwrap().match_str(s).is_ok() {
        return Ok(Position3::NoPosition);
    }
    Err(ParseError::new("no variant matched"))
}

#[test]
fn doc_test() {
    let t = compile("This is a position: {}").unwrap();
    let caps = t.match_str("This is a position: (1, 2)").unwrap();
    let pos = parse_position(cap_str(caps.get(0))).unwrap();
    assert_eq!(pos.0, 1);
    assert_eq!(pos.1, 2);

    let caps = t.match_str("This is a position: (-4, 5)").unwrap();
    let t2 = compile("({x}, {y})").unwrap();
    let inner = t2.match_str(cap_str(caps.get(0))).unwrap();
    assert_eq!(parse_i32(cap_str(inner.get_named("x").unwrap())), Ok(-4));
    assert_eq!(parse_i32(cap_str(inner.get_named("y").unwrap())), Ok(5));

    let caps = t.match_str("This is a position: (1, 2)").unwrap();
    let pos0 = parse_position3(cap_str(caps.get(0))).unwrap();
    let caps = t.match_str("This is a position: (3)").unwrap();
    let pos1 = parse_position3(cap_str(caps.get(0))).unwrap();
    let caps = t.match_str("This is a position: ()").unwrap();
    let pos2 = parse_position3(cap_str(caps.get(0))).unwrap();
    assert_eq!(pos0, Position3::Position { x: 1, y: 2 });
    assert_eq!(pos1, Position3::SinglePositon(3));
    assert_eq!(pos2, Position3::NoPosition);

    // the record template `({x:::}, {y:::3})`
    let t = compile("Position: {}").unwrap();
    let caps = t.match_str("Position: (5:9:3, 9:8:7)").unwrap();
    let t4 = compile("({x:::}, {y:::3})").unwrap();
    let inner = t4.match_str(cap_str(caps.get(0))).unwrap();
    let x: Vec<i32> = cap_elems(inner.get_named("x").unwrap())
        .iter()
        .map(|s| parse_i32(s).unwrap())
        .collect();
    let y: Vec<i32> = cap_elems(inner.get_named("y").unwrap())
        .iter()
        .map(|s| parse_i32(s).unwrap())
        .collect();
    assert_eq!(x, vec![5, 9, 3]);
    assert_eq!(y, vec![9, 8, 7]);
}

#[test]
fn parse_weird_exprs() {
    let t = compile("{}").unwrap();
    let line = "5";
    let caps = t.match_str(line).unwrap();
    assert_eq!(5, parse_u32(cap_str(caps.get(0))).unwrap());

    let line: Result<&str, ParseError> = Ok("7");
    let caps = t.match_str(line.unwrap()).unwrap();
    assert_eq!(Ok(7), parse_u32(cap_str(caps.get(0))));

    let first = "4\n3".lines().next().unwrap();
    let caps = t.match_str(first).unwrap();
    assert_eq!(Some(4), parse_u32(cap_str(caps.get(0))).ok());
}

#[test]
fn full_consumption() {
    // trailing input that no instruction consumes fails the match
    let t = compile("{} world").unwrap();
    assert_eq!(
        t.match_str("Hello world!").unwrap_err(),
        ParseError::Literal { expected: String::new(), found: String::from("!") }
    );
    // while a trailing capture takes the rest of the input
    let t = compile("Hello {}").unwrap();
    let caps = t.match_str("Hello world!").unwrap();
    assert_eq!(cap_str(caps.get(0)), "world!");
}

#[test]
fn positional_completeness() {
    let t = compile("{1} / {0}").unwrap();
    let caps = t.match_str("10 / 2").unwrap();
    let slot0 = parse_u32(cap_str(caps.get(0))).unwrap();
    let slot1 = parse_u32(cap_str(caps.get(1))).unwrap();
    assert_eq!((slot0, slot1), (2, 10));
}

#[test]
fn multi_value_exactness() {
    let t = compile("{:-:!3}").unwrap();
    let caps = t.match_str("1-2---3").unwrap();
    let arr: Vec<u8> = cap_elems(caps.get(0))
        .iter()
        .map(|s| parse_u8(s).unwrap())
        .collect();
    assert_eq!(arr, vec![1, 2, 3]);

    let t = compile("{:, :2}").unwrap();
    assert_eq!(
        t.match_str("one, two, three").unwrap_err(),
        ParseError::Multi { expected: 2, found: 3 }
    );
}

#[test]
fn multi_value_count_clipped() {
    // the reported element count clips at the count type's largest value
    let region: String = vec!["1"; 300].join(",");
    let t = compile("{:,:2}").unwrap();
    assert_eq!(
        t.match_str(&region).unwrap_err(),
        ParseError::Multi { expected: 2, found: 255 }
    );
}

#[test]
fn scalar_character_mode() {
    let t = compile("{::3}").unwrap();
    let caps = t.match_str("321").unwrap();
    let arr: Vec<u8> = cap_elems(caps.get(0))
        .iter()
        .map(|s| parse_u8(s).unwrap())
        .collect();
    assert_eq!(arr, vec![3, 2, 1]);
}

#[test]
fn round_trip() {
    // re-serializing the captures into the literal skeleton reproduces the
    // input
    let t = compile("{} - {x:, :} ({::0})").unwrap();
    let input = "ab - c, d (xyz)";
    let caps = t.match_str(input).unwrap();
    let mut rebuilt = String::new();
    let mut cap_idx: usize = 0;
    for ins in t.0.iter() {
        match ins {
            prse::Instruction::Lit(l) => rebuilt.push_str(l),
            _ => {
                let raw = match caps.get_capture(cap_idx) {
                    Captured::Single(s) => s,
                    Captured::Many { region, .. } => region,
                    Captured::Lazy { region, .. } => region,
                };
                rebuilt.push_str(raw);
                cap_idx += 1;
            }
        }
    }
    assert_eq!(rebuilt, input);
}

#[test]
fn named_lookup_misses() {
    let t = compile("{a} {b}").unwrap();
    let caps = t.match_str("x y").unwrap();
    assert_eq!(cap_str(caps.get_named("a").unwrap()), "x");
    assert_eq!(cap_str(caps.get_named("b").unwrap()), "y");
    assert!(caps.get_named("c").is_none());
    // named captures feed no output slot
    assert_eq!(caps.len(), 0);
    assert_eq!(caps.captures_len(), 2);
}

#[test]
fn leading_literal_anchored() {
    // a literal that no capture precedes must sit exactly at the cursor:
    // text before it is never silently skipped
    let t = compile("b{}").unwrap();
    assert_eq!(
        t.match_str("ab").unwrap_err(),
        ParseError::Literal { expected: String::from("b"), found: String::from("ab") }
    );
    let caps = t.match_str("ba").unwrap();
    assert_eq!(cap_str(caps.get(0)), "a");

    let t = compile("Test").unwrap();
    assert_eq!(
        t.match_str("xTest").unwrap_err(),
        ParseError::Literal { expected: String::from("Test"), found: String::from("xTest") }
    );
}

#[test]
fn literal_matched_at_first_occurrence() {
    // a capture region ends at the first occurrence of the next literal
    let t = compile("{} and {}").unwrap();
    let caps = t.match_str("this and that and more").unwrap();
    assert_eq!(cap_str(caps.get(0)), "this");
    assert_eq!(cap_str(caps.get(1)), "that and more");
}
