use grid_puzzles::rules::{
    build_rules, invalid_update, process_update, sort_updates, split_sections, RuleError,
};
use std::collections::{HashMap, HashSet};
use std::iter;

#[test]
fn main_test_build_rules() {
    let rules_input = "47|53\n97|13";
    let rules = build_rules(rules_input).unwrap();
    let mut expected: HashMap<u32, HashSet<u32>> = HashMap::new();
    expected.insert(47, iter::once(53).collect());
    expected.insert(97, iter::once(13).collect());
    assert_eq!(rules, expected);
}

#[test]
fn main_test_build_rules_with_multiple_afters() {
    let rules_input = "47|53\n47|13";
    let rules: HashMap<u32, HashSet<u32>> = build_rules(rules_input).unwrap();
    let mut expected = HashMap::new();
    expected.insert(47, [53, 13].into_iter().collect());
    assert_eq!(rules, expected);
}

#[test]
fn main_test_simple_update() {
    let update = "75,29,13";
    let rules = HashMap::new();

    let result = process_update(update, &rules).unwrap();
    assert_eq!(result, Some(29));
}

#[test]
fn main_test_invalid_update() {
    let update = "75,29,13";
    let mut rules = HashMap::new();
    rules.insert(13, iter::once(29).collect());

    let result = process_update(update, &rules).unwrap();
    assert_eq!(result, None);
}

#[test]
fn test_build_rules() {
    let rules_input = "47|53\n97|13";
    let rules = build_rules(rules_input).unwrap();
    let mut expected: HashMap<u32, HashSet<u32>> = HashMap::new();
    expected.insert(47, iter::once(53).collect());
    expected.insert(97, iter::once(13).collect());
    assert_eq!(rules, expected);
}

#[test]
fn test_build_rules_with_multiple_afters() {
    let rules_input = "47|53\n47|13";
    let rules: HashMap<u32, HashSet<u32>> = build_rules(rules_input).unwrap();
    let mut expected = HashMap::new();
    expected.insert(47, [53, 13].into_iter().collect());
    assert_eq!(rules, expected);
}

#[test]
fn test_simple_update() {
    let update = "75,29,13";
    let rules = HashMap::new();

    let result = invalid_update(update, &rules).unwrap();
    assert_eq!(result, None);
}

#[test]
fn test_invalid_update() {
    let update = "75,29,13";
    let mut rules = HashMap::new();
    rules.insert(13, iter::once(29).collect());

    let result = invalid_update(update, &rules).unwrap();
    assert_eq!(result, Some(vec![75, 29, 13]));
}

#[test]
fn test_sort_invalid_update() {
    let invalid_update = vec![75, 29, 13];
    let mut rules = HashMap::new();
    rules.insert(13, iter::once(29).collect());
    rules.insert(75, iter::once(13).collect());

    let result = sort_updates(invalid_update, &rules);
    assert_eq!(result, vec![75, 13, 29]);
}

#[test]
fn rule_and_update_errors() {
    assert_eq!(build_rules("47-53").err(), Some(RuleError::InvalidRule));
    assert_eq!(build_rules("47|x").err(), Some(RuleError::InvalidRule));
    assert_eq!(build_rules("").unwrap(), HashMap::new());
    let rules = HashMap::new();
    assert_eq!(process_update("75,,13", &rules), Err(RuleError::InvalidUpdate));
    assert_eq!(invalid_update("", &rules), Err(RuleError::InvalidUpdate));
}

#[test]
fn update_in_order_gives_its_middle_page() {
    let rules = build_rules("75|47\n47|61\n75|61").unwrap();
    assert_eq!(process_update("75,47,61,53,29", &rules), Ok(Some(61)));
    assert_eq!(process_update("61,47", &rules), Ok(None));
    assert_eq!(process_update("47", &rules), Ok(Some(47)));
}

#[test]
fn sort_puts_required_pages_first() {
    let rules = build_rules("47|53\n97|13\n97|61\n97|47\n75|29\n61|13\n75|53\n29|13\n97|29\n53|29\n61|53\n97|53\n61|29\n47|13\n75|47\n97|75\n47|61\n75|61\n47|29\n75|13\n53|13").unwrap();
    assert_eq!(sort_updates(vec![75, 97, 47, 61, 53], &rules), vec![97, 75, 47, 61, 53]);
    assert_eq!(sort_updates(vec![61, 13, 29], &rules), vec![61, 29, 13]);
    assert_eq!(sort_updates(vec![97, 13, 75, 29, 47], &rules), vec![97, 75, 47, 29, 13]);
}

#[test]
fn sort_keeps_blocked_pages_in_their_order() {
    let rules = build_rules("1|2\n2|1").unwrap();
    assert_eq!(sort_updates(vec![3, 2, 1], &rules), vec![3, 2, 1]);
}

#[test]
fn sections_split_at_the_blank_line() {
    assert_eq!(split_sections("47|53\n97|13\n\n75,47\n"), Some(("47|53\n97|13", "75,47\n")));
    assert_eq!(split_sections("47|53\n97|13\n"), None);
    assert_eq!(split_sections("\n\n"), Some(("", "")));
}
