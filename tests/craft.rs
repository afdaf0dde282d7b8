use craftsolve::equation::OracleVerdict;
use craftsolve::error::Error;
use craftsolve::lexer::{tokenize, Token};
use craftsolve::parser::{parse_decls, print_decls, Decl};
use craftsolve::plan::Craftability;
use craftsolve::system::System;

fn parse(src: &str) -> Result<System, Error> {
    System::parse(src.as_bytes())
}

fn plan_of(v: &Craftability) -> Vec<(String, u64)> {
    match v {
        Craftability::Craftable(plan) => plan
            .iter()
            .map(|f| (String::from_utf8(f.name.clone()).unwrap(), f.count))
            .collect(),
        other => panic!("not craftable: {:?}", other),
    }
}

fn name(s: &str) -> Vec<u8> {
    s.as_bytes().to_vec()
}

#[test]
fn craftable_one_recipe() {
    let s = parse("3 wood\n1 iron\nout 1 sword\nsmith: 3 wood + 1 iron -> 1 sword\n").unwrap();
    let v = s.decide(OracleVerdict::Sat(vec![1])).unwrap();
    assert_eq!(plan_of(&v), vec![("smith".to_string(), 1)]);
}

#[test]
fn uncraftable_insufficient() {
    let s = parse("1 wood\nout 1 sword\nsmith: 3 wood + 1 iron -> 1 sword\n").unwrap();
    let p = s.state_equation();
    let wood = s.item_id(&name("wood")).unwrap();
    let sword = s.item_id(&name("sword")).unwrap();
    assert_eq!(p.constants[wood], 1);
    assert_eq!(p.constants[sword], -1);
    assert_eq!(p.coefficients[0][wood], -3);
    assert_eq!(p.coefficients[0][sword], 1);
    assert!(matches!(s.decide(OracleVerdict::Unsat), Ok(Craftability::Uncraftable)));
    // No firing count is executable: one firing already lacks wood.
    assert!(matches!(s.reconstruct(&vec![1]), Craftability::Unknown));
    assert!(matches!(s.reconstruct(&vec![0]), Craftability::Unknown));
}

#[test]
fn cycle_rejected() {
    let r = parse("r1: 1 a -> 1 b\nr2: 1 b -> 1 a\nout 1 a\n");
    assert!(matches!(r, Err(Error::CyclicItem(_)) | Err(Error::CyclicRecipe(_))));
}

#[test]
fn duplicate_item() {
    let r = parse("1 wood\n2 wood\n");
    assert_eq!(r.unwrap_err(), Error::DuplicateItem(name("wood")));
}

#[test]
fn chain_multiple_firings() {
    let s = parse("6 ore\nout 2 ingot\nsmelt: 3 ore -> 1 ingot\n").unwrap();
    let v = s.decide(OracleVerdict::Sat(vec![2])).unwrap();
    assert_eq!(plan_of(&v), vec![("smelt".to_string(), 2)]);
}

#[test]
fn already_satisfied() {
    let s = parse("5 apple\nout 3 apple\n").unwrap();
    let v = s.decide(OracleVerdict::Sat(vec![])).unwrap();
    assert_eq!(plan_of(&v), vec![]);
}

#[test]
fn trivially_craftable_with_zero_model() {
    let s = parse("5 apple\n2 pear\nout 3 apple\nmash: 1 apple -> 1 juice\n").unwrap();
    let v = s.decide(OracleVerdict::Sat(vec![0])).unwrap();
    assert_eq!(plan_of(&v), vec![]);
}

#[test]
fn plan_follows_topological_order() {
    let s = parse("out 1 c\n2 a\nr2: 1 b -> 1 c\nr1: 2 a -> 1 b\n").unwrap();
    assert_eq!(s.sorted_recipe_ids, vec![1, 0]);
    let v = s.decide(OracleVerdict::Sat(vec![1, 1])).unwrap();
    assert_eq!(plan_of(&v), vec![("r1".to_string(), 1), ("r2".to_string(), 1)]);
}

#[test]
fn same_model_same_plan() {
    let s = parse("6 ore\nout 2 ingot\nsmelt: 3 ore -> 1 ingot\n").unwrap();
    let a = plan_of(&s.decide(OracleVerdict::Sat(vec![2])).unwrap());
    let b = plan_of(&s.decide(OracleVerdict::Sat(vec![2])).unwrap());
    assert_eq!(a, b);
}

#[test]
fn unsafe_model_is_unknown() {
    let s = parse("1 ore\nout 1 ingot\nsmelt: 3 ore -> 1 ingot\n").unwrap();
    assert!(matches!(s.decide(OracleVerdict::Sat(vec![1])), Ok(Craftability::Unknown)));
}

#[test]
fn model_not_meeting_requests_is_unknown() {
    let s = parse("6 ore\nout 2 ingot\nsmelt: 3 ore -> 1 ingot\n").unwrap();
    assert!(matches!(s.decide(OracleVerdict::Sat(vec![1])), Ok(Craftability::Unknown)));
}

#[test]
fn oracle_unknown_and_fault() {
    let s = parse("6 ore\nout 2 ingot\nsmelt: 3 ore -> 1 ingot\n").unwrap();
    assert!(matches!(s.decide(OracleVerdict::Unknown), Ok(Craftability::Unknown)));
    assert_eq!(s.decide(OracleVerdict::Sat(vec![1, 2])).unwrap_err(), Error::OracleFault);
}

#[test]
fn duplicate_request() {
    assert_eq!(parse("out 1 a\nout 2 a\n").unwrap_err(), Error::DuplicateRequest(name("a")));
}

#[test]
fn duplicate_recipe() {
    assert_eq!(
        parse("r: 1 a -> 1 b\nr: 1 c -> 1 d\n").unwrap_err(),
        Error::DuplicateRecipe(name("r"))
    );
}

#[test]
fn duplicate_in_set() {
    assert_eq!(parse("r: 1 a + 2 a -> 1 b\n").unwrap_err(), Error::DuplicateInSet(name("a")));
    assert_eq!(parse("r: 1 a -> 1 b + 1 b\n").unwrap_err(), Error::DuplicateInSet(name("b")));
}

#[test]
fn explicit_zero_does_not_count_as_declared() {
    let s = parse("0 wood\n4 wood\n").unwrap();
    let id = s.item_id(&name("wood")).unwrap();
    assert_eq!(s.inventory[id], 4);
}

#[test]
fn syntax_errors_carry_positions() {
    assert_eq!(parse("3 wood\n!").unwrap_err(), Error::Syntax { pos: 7 });
    assert_eq!(parse("3").unwrap_err(), Error::Syntax { pos: 1 });
    assert_eq!(parse("r: 1 a - 1 b").unwrap_err(), Error::Syntax { pos: 7 });
    assert_eq!(parse("99999999999999999999 a").unwrap_err(), Error::Syntax { pos: 0 });
    assert_eq!(parse("wood 3").unwrap_err(), Error::Syntax { pos: 5 });
}

#[test]
fn empty_source_is_empty_system() {
    let s = parse("  \n").unwrap();
    assert!(s.item_names.is_empty());
    assert!(s.recipes.is_empty());
    let v = s.decide(OracleVerdict::Sat(vec![])).unwrap();
    assert_eq!(plan_of(&v), vec![]);
}

#[test]
fn largest_counts() {
    let s = parse("18446744073709551615 a\nout 18446744073709551615 a\n").unwrap();
    assert_eq!(s.inventory[0], u64::MAX);
    assert_eq!(s.state_equation().constants[0], 0);
}

#[test]
fn names_and_ids_are_inverse() {
    let s = parse("2 a\nout 1 b\nr: 1 a -> 1 b\nq: 1 b -> 1 c\n").unwrap();
    for (i, n) in s.item_names.iter().enumerate() {
        assert_eq!(s.item_id(n), Some(i));
    }
    for (q, n) in s.recipe_names.iter().enumerate() {
        assert_eq!(s.recipe_id(n), Some(q));
    }
    assert_eq!(s.item_id(&name("zzz")), None);
}

#[test]
fn recipe_keys_are_unique_and_ordered() {
    let s = parse("2 a\nout 1 c\nr: 1 a -> 1 b\nq: 1 b -> 1 c\n").unwrap();
    let n = s.item_names.len();
    let mut order: Vec<usize> = Vec::new();
    for &r in &s.sorted_recipe_ids {
        order.push(n + r);
    }
    assert_eq!(s.sorted_recipe_ids, vec![0, 1]);
    let recipe = &s.recipes[0];
    assert_eq!(recipe.inputs, vec![(0, 1)]);
    assert_eq!(recipe.outputs.len(), 1);
}

#[test]
fn tokens_and_declarations() {
    let (toks, pos) = tokenize(b"out 12 x\nr:1 a->2 b+3 c").unwrap();
    assert_eq!(pos, vec![0, 4, 7, 9, 10, 11, 13, 14, 16, 18, 19, 20, 22]);
    assert!(matches!(toks[1], Token::Natural(12)));
    let ds = parse_decls(&toks, &pos, 23).unwrap();
    assert_eq!(ds.len(), 2);
    assert!(matches!(&ds[0], Decl::Request { amount: 12, name } if name == b"x"));
    match &ds[1] {
        Decl::Recipe { name, inputs, outputs } => {
            assert_eq!(name, b"r");
            assert_eq!(inputs, &vec![(1, b"a".to_vec())]);
            assert_eq!(outputs, &vec![(2, b"b".to_vec()), (3, b"c".to_vec())]);
        }
        _ => panic!("expected a recipe"),
    }
}

#[test]
fn out_may_name_an_item_or_recipe() {
    let s = parse("1 out\nout: 1 out -> 1 x\nout 1 x\n").unwrap();
    assert_eq!(s.recipe_names, vec![name("out")]);
    let x = s.item_id(&name("x")).unwrap();
    assert_eq!(s.requests[x], 1);
}

#[test]
fn printed_declarations_parse_back() {
    let src = "10 wood\n2 iron\nout 1 sword\nsmith: 3 wood + 2 iron -> 1 sword\nout: 1 x -> 2 out + 1 y\n";
    let (toks, pos) = tokenize(src.as_bytes()).unwrap();
    let ds = parse_decls(&toks, &pos, src.len()).unwrap();
    let printed = print_decls(&ds);
    assert_eq!(format!("{:?}", printed), format!("{:?}", toks));
    let fake_pos: Vec<usize> = (0..printed.len()).collect();
    let again = parse_decls(&printed, &fake_pos, printed.len()).unwrap();
    assert_eq!(format!("{:?}", again), format!("{:?}", ds));
    assert_eq!(again.len(), 5);
}

fn run_text(src: &str) -> Result<Craftability, Error> {
    craftsolve::load::run(src.as_bytes())
}

#[test]
fn solver_craftable_one_recipe() {
    let v = run_text("3 wood\n1 iron\nout 1 sword\nsmith: 3 wood + 1 iron -> 1 sword\n").unwrap();
    assert_eq!(plan_of(&v), vec![("smith".to_string(), 1)]);
}

#[test]
fn solver_uncraftable_insufficient() {
    let v = run_text("1 wood\nout 1 sword\nsmith: 3 wood + 1 iron -> 1 sword\n").unwrap();
    assert!(matches!(v, Craftability::Uncraftable));
}

#[test]
fn solver_cycle_rejected() {
    let r = run_text("r1: 1 a -> 1 b\nr2: 1 b -> 1 a\nout 1 a\n");
    assert!(matches!(r, Err(Error::CyclicItem(_)) | Err(Error::CyclicRecipe(_))));
}

#[test]
fn solver_chain_multiple_firings() {
    let v = run_text("6 ore\nout 2 ingot\nsmelt: 3 ore -> 1 ingot\n").unwrap();
    assert_eq!(plan_of(&v), vec![("smelt".to_string(), 2)]);
}

#[test]
fn solver_already_satisfied() {
    let v = run_text("5 apple\nout 3 apple\n").unwrap();
    assert_eq!(plan_of(&v), vec![]);
}

#[test]
fn solver_two_step_chain() {
    let v = run_text("4 ore\nout 1 blade\nsmelt: 2 ore -> 1 ingot\nforge: 2 ingot -> 1 blade\n").unwrap();
    assert_eq!(plan_of(&v), vec![("smelt".to_string(), 2), ("forge".to_string(), 1)]);
}

#[test]
fn solver_oracle_verdicts_directly() {
    let s = parse("6 ore\nout 2 ingot\nsmelt: 3 ore -> 1 ingot\n").unwrap();
    let p = s.state_equation();
    match craftsolve::oracle::ask_oracle(&p).unwrap() {
        OracleVerdict::Sat(x) => assert_eq!(x, vec![2]),
        other => panic!("unexpected verdict {:?}", other),
    }
    let s = parse("1 ore\nout 2 ingot\nsmelt: 3 ore -> 1 ingot\n").unwrap();
    assert!(matches!(craftsolve::oracle::ask_oracle(&s.state_equation()).unwrap(), OracleVerdict::Unsat));
}

#[test]
fn tokens_run_as_far_as_they_can() {
    let (toks, pos) = tokenize(b"ab12 12ab->").unwrap();
    assert_eq!(pos, vec![0, 5, 7, 9]);
    assert!(matches!(&toks[0], Token::Ident(n) if n == b"ab12"));
    assert!(matches!(toks[1], Token::Natural(12)));
    assert!(matches!(&toks[2], Token::Ident(n) if n == b"ab"));
    assert!(matches!(toks[3], Token::Arrow));
    assert_eq!(tokenize(b"18446744073709551616").unwrap_err(), Error::Syntax { pos: 0 });
    assert!(tokenize(b"18446744073709551615").is_ok());
}

#[test]
fn declaration_errors_on_given_texts() {
    assert_eq!(parse("out 1 sword\nout 2 sword\n").unwrap_err(), Error::DuplicateRequest(name("sword")));
    assert_eq!(parse("a: 1 x -> 1 y\na: 1 z -> 1 w\n").unwrap_err(), Error::DuplicateRecipe(name("a")));
    assert_eq!(parse("r: 1 wood + 2 wood -> 1 plank\n").unwrap_err(), Error::DuplicateInSet(name("wood")));
    let s = parse("0 wood\n5 wood\n").unwrap();
    assert_eq!(s.inventory[s.item_id(&name("wood")).unwrap()], 5);
}

#[test]
fn recipe_sets_hold_written_amounts() {
    let s = parse("smith: 3 wood + 1 iron -> 2 sword\n").unwrap();
    let wood = s.item_id(&name("wood")).unwrap();
    let iron = s.item_id(&name("iron")).unwrap();
    let sword = s.item_id(&name("sword")).unwrap();
    assert_eq!(s.recipes[0].inputs, vec![(wood, 3), (iron, 1)]);
    assert_eq!(s.recipes[0].outputs, vec![(sword, 2)]);
    assert!(matches!(parse("r: -> 1 a\n"), Err(Error::Syntax { .. })));
}
