use calyx_rs::branch::{sorted_by_text, Branch};
use calyx_rs::error::CalyxError;
use calyx_rs::filter::{create_builtin_filters, Filter};
use calyx_rs::grammar::{Grammar, Options};
use calyx_rs::text::{decimal_text, text_leq};
use rand::rngs::StdRng;
use rand::SeedableRng;
use std::collections::HashMap;

fn seeded(seed: u64, strict: bool) -> Grammar {
    Grammar::from_options(Options::new(strict, StdRng::seed_from_u64(seed)))
}

fn strings(items: &[&str]) -> Vec<String> {
    items.iter().map(|s| String::from(*s)).collect()
}

#[test]
fn literal_template_round_trips() {
    for s in ["", "plain text", "with. dots. and $ and @", "ünïcödé"] {
        let mut grammar = seeded(1, true);
        grammar.start_single(String::from(s)).unwrap();
        assert_eq!(grammar.generate().unwrap().flatten(), s);
    }
}

#[test]
fn duplicate_rule_is_refused_and_first_kept() {
    let mut grammar = seeded(2, true);
    grammar.single_rule(String::from("x"), String::from("first")).unwrap();
    let again = grammar.single_rule(String::from("x"), String::from("second"));
    assert!(matches!(again, Err(CalyxError::DuplicateRule { ref rule_name }) if rule_name == "x"));
    let again = grammar.uniform_rule(String::from("x"), &strings(&["a", "b"]));
    assert!(matches!(again, Err(CalyxError::DuplicateRule { .. })));
    let again = grammar.weighted_rule(String::from("x"), &vec![(String::from("a"), 1)]);
    assert!(matches!(again, Err(CalyxError::DuplicateRule { .. })));
    let text = grammar.generate_from(&String::from("x")).unwrap().flatten();
    assert_eq!(text, "first");
}

#[test]
fn memo_reference_repeats_within_a_generation() {
    let mut grammar = seeded(3, true);
    grammar.start_single(String::from("{@name}|{@name}|{@name.lowercase}|{@name}")).unwrap();
    grammar
        .uniform_rule(String::from("name"), &strings(&["Daenerys", "Tyrion", "Jon", "Arya"]))
        .unwrap();
    let mut seen = Vec::new();
    for _ in 0..40 {
        let text = grammar.generate().unwrap().flatten();
        let parts: Vec<&str> = text.split('|').collect();
        assert_eq!(parts.len(), 4);
        assert_eq!(parts[0], parts[1]);
        assert_eq!(parts[0], parts[3]);
        assert_eq!(parts[2], parts[0].to_lowercase());
        seen.push(String::from(parts[0]));
    }
    seen.sort();
    seen.dedup();
    assert!(seen.len() > 1, "memo must not persist across generations");
}

#[test]
fn unique_reference_yields_a_permutation() {
    for seed in 0..30 {
        let mut grammar = seeded(seed, true);
        grammar.start_single(String::from("{$m} {$m} {$m} {$m}")).unwrap();
        grammar.uniform_rule(String::from("m"), &strings(&["a", "b", "c", "d"])).unwrap();
        let text = grammar.generate().unwrap().flatten();
        let mut parts: Vec<&str> = text.split(' ').collect();
        parts.sort();
        assert_eq!(parts, vec!["a", "b", "c", "d"]);
    }
}

#[test]
fn unique_reference_repeats_only_after_a_full_cycle() {
    let mut grammar = seeded(7, true);
    grammar.start_single(String::from("{$m}{$m}{$m}{$m}{$m}{$m}")).unwrap();
    grammar.uniform_rule(String::from("m"), &strings(&["x", "y", "z"])).unwrap();
    for _ in 0..10 {
        let text = grammar.generate().unwrap().flatten();
        let mut first: Vec<char> = text[0..3].chars().collect();
        let mut second: Vec<char> = text[3..6].chars().collect();
        first.sort();
        second.sort();
        assert_eq!(first, vec!['x', 'y', 'z']);
        assert_eq!(second, vec!['x', 'y', 'z']);
    }
}

#[test]
fn unique_reference_to_single_alternative() {
    let mut grammar = seeded(8, true);
    grammar.start_single(String::from("{$one}{$one}")).unwrap();
    grammar.single_rule(String::from("one"), String::from("1")).unwrap();
    assert_eq!(grammar.generate().unwrap().flatten(), "11");
}

#[test]
fn weighted_frequencies_follow_weights() {
    let mut grammar = seeded(11, true);
    grammar.start_single(String::from("{w}")).unwrap();
    grammar
        .weighted_rule(
            String::from("w"),
            &vec![(String::from("c"), 3), (String::from("a"), 1), (String::from("b"), 2)],
        )
        .unwrap();
    let mut counts: HashMap<String, u32> = HashMap::new();
    let n = 6000;
    for _ in 0..n {
        let text = grammar.generate().unwrap().flatten();
        *counts.entry(text).or_insert(0) += 1;
    }
    for (key, weight) in [("a", 1.0f64), ("b", 2.0), ("c", 3.0)] {
        let observed = *counts.get(key).unwrap_or(&0) as f64 / n as f64;
        let expected = weight / 6.0;
        assert!((observed - expected).abs() < 0.03, "{} observed {} expected {}", key, observed, expected);
    }
}

#[test]
fn weighted_six_references_each_drawn_independently() {
    let mut grammar = seeded(12, true);
    grammar.start_single(String::from("{d}{d}{d}{d}{d}{d}")).unwrap();
    grammar
        .weighted_rule(
            String::from("d"),
            &vec![(String::from("1"), 1), (String::from("2"), 2), (String::from("3"), 3)],
        )
        .unwrap();
    let mut counts = [0u32; 3];
    let rounds = 1500;
    for _ in 0..rounds {
        let text = grammar.generate().unwrap().flatten();
        assert_eq!(text.len(), 6);
        for c in text.chars() {
            counts[(c as u8 - b'1') as usize] += 1;
        }
    }
    let total = (rounds * 6) as f64;
    for (i, w) in [1.0f64, 2.0, 3.0].iter().enumerate() {
        let observed = counts[i] as f64 / total;
        assert!((observed - w / 6.0).abs() < 0.03);
    }
}

#[test]
fn lenient_undefined_rule_is_empty() {
    let mut grammar = Grammar::from_options(Options::new_lenient(StdRng::seed_from_u64(4)));
    grammar.start_single(String::from("{missing} world.")).unwrap();
    assert_eq!(grammar.generate().unwrap().flatten(), " world.");
}

#[test]
fn strict_undefined_rule_fails_naming_it() {
    let mut grammar = seeded(4, true);
    grammar.start_single(String::from("{missing} world.")).unwrap();
    let result = grammar.generate();
    assert!(matches!(result, Err(CalyxError::UndefinedRule { ref rule_name }) if rule_name == "missing"));
}

#[test]
fn greeting_scenario_is_reproducible_and_in_set() {
    let expected = ["Hello world.", "Hi world.", "Hey world.", "Yo world."];
    let run = |seed: u64| {
        let mut grammar = seeded(seed, true);
        grammar.start_single(String::from("{greeting} world.")).unwrap();
        grammar
            .uniform_rule(String::from("greeting"), &strings(&["Hello", "Hi", "Hey", "Yo"]))
            .unwrap();
        (0..8).map(|_| grammar.generate().unwrap().flatten()).collect::<Vec<String>>()
    };
    let first = run(99);
    let second = run(99);
    assert_eq!(first, second);
    for text in &first {
        assert!(expected.contains(&text.as_str()));
    }
}

#[test]
fn filters_apply_left_to_right() {
    let mut grammar = seeded(5, true);
    grammar
        .start_single(String::from("{greeting.uppercase} there {greeting.length} {shout.lowercase}"))
        .unwrap();
    grammar.single_rule(String::from("greeting"), String::from("hello")).unwrap();
    grammar.single_rule(String::from("shout"), String::from("LOUD")).unwrap();
    assert_eq!(grammar.generate().unwrap().flatten(), "HELLO there 5 loud");
}

#[test]
fn length_filter_counts_characters() {
    let mut grammar = seeded(5, true);
    grammar.start_single(String::from("{word.length}")).unwrap();
    grammar.single_rule(String::from("word"), String::from("héllo wörld")).unwrap();
    assert_eq!(grammar.generate().unwrap().flatten(), "11");
}

#[test]
fn undefined_filter_fails_at_evaluation() {
    let mut grammar = seeded(6, true);
    grammar.start_single(String::from("{greeting.reverse}")).unwrap();
    grammar.single_rule(String::from("greeting"), String::from("hello")).unwrap();
    let result = grammar.generate();
    assert!(matches!(result, Err(CalyxError::UndefinedFilter { ref filter_name }) if filter_name == "reverse"));
}

#[test]
fn invalid_weights_are_refused() {
    let mut grammar = seeded(9, true);
    let zero = grammar.weighted_rule(String::from("w"), &vec![(String::from("a"), 0), (String::from("b"), 1)]);
    assert!(matches!(zero, Err(CalyxError::InvalidWeight)));
    let empty = grammar.weighted_rule(String::from("w"), &vec![]);
    assert!(matches!(empty, Err(CalyxError::InvalidWeight)));
    let overflow = grammar.weighted_rule(
        String::from("w"),
        &vec![(String::from("a"), u64::MAX), (String::from("b"), 1)],
    );
    assert!(matches!(overflow, Err(CalyxError::InvalidWeight)));
    assert!(grammar.weighted_rule(String::from("w"), &vec![(String::from("a"), u64::MAX)]).is_ok());
}

#[test]
fn invalid_expression_in_rule_is_refused() {
    let mut grammar = seeded(9, true);
    let result = grammar.uniform_rule(String::from("r"), &strings(&["fine", "bad {}"]));
    assert!(matches!(result, Err(CalyxError::InvalidExpression { .. })));
    let result = grammar.start_single(String::from("ok"));
    assert!(result.is_ok());
}

#[test]
fn empty_uniform_rule_fails_at_evaluation() {
    let mut grammar = seeded(10, true);
    grammar.uniform_rule(String::from("nothing"), &vec![]).unwrap();
    grammar.start_single(String::from("[{nothing}]")).unwrap();
    assert!(matches!(grammar.generate(), Err(CalyxError::ExpandedEmptyBranch)));
    let mut grammar = seeded(10, true);
    grammar.uniform_rule(String::from("nothing"), &vec![]).unwrap();
    grammar.start_single(String::from("[{$nothing}]")).unwrap();
    assert!(matches!(grammar.generate(), Err(CalyxError::ExpandedEmptyBranch)));
}

#[test]
fn endless_recursion_hits_the_limit() {
    let mut grammar =
        Grammar::from_options(Options::new(true, StdRng::seed_from_u64(13)).with_max_depth(64));
    grammar.single_rule(String::from("loop"), String::from("again {loop}")).unwrap();
    let result = grammar.generate_from(&String::from("loop"));
    assert!(matches!(result, Err(CalyxError::RecursionLimit { ref rule_name }) if rule_name == "loop"));
    let mut grammar = Grammar::from_options(Options::new(true, StdRng::seed_from_u64(1)).with_max_depth(2));
    grammar.start_single(String::from("{a}")).unwrap();
    grammar.single_rule(String::from("a"), String::from("{b}")).unwrap();
    grammar.single_rule(String::from("b"), String::from("deep")).unwrap();
    assert!(matches!(grammar.generate(), Err(CalyxError::RecursionLimit { ref rule_name }) if rule_name == "b"));
}

#[test]
fn start_uniform_picks_an_alternative() {
    let mut grammar = seeded(14, true);
    grammar.start_uniform(&strings(&["one", "two"])).unwrap();
    let text = grammar.generate().unwrap().flatten();
    assert!(text == "one" || text == "two");
}

#[test]
fn options_accessors() {
    let options = Options::new(true, StdRng::seed_from_u64(1));
    assert!(options.strict());
    assert_eq!(options.max_depth(), usize::MAX);
    let options = Options::new_lenient(StdRng::seed_from_u64(1)).with_max_depth(7);
    assert!(!options.strict());
    assert_eq!(options.max_depth(), 7);
}

#[test]
fn decimal_numerals() {
    assert_eq!(decimal_text(0), "0");
    assert_eq!(decimal_text(7), "7");
    assert_eq!(decimal_text(10), "10");
    assert_eq!(decimal_text(1234), "1234");
}

#[test]
fn text_order_is_code_point_order() {
    assert!(text_leq("a", "b"));
    assert!(!text_leq("b", "a"));
    assert!(text_leq("ab", "abc"));
    assert!(!text_leq("abc", "ab"));
    assert!(text_leq("", ""));
    assert!(text_leq("Z", "a"));
}

#[test]
fn weighted_alternatives_sorted_by_text() {
    let raw = vec![
        (String::from("c"), 3),
        (String::from("a"), 1),
        (String::from("b"), 2),
        (String::from("a"), 9),
    ];
    let sorted = sorted_by_text(&raw);
    let keys: Vec<(&str, u64)> = sorted.iter().map(|(s, w)| (s.as_str(), *w)).collect();
    assert_eq!(keys, vec![("a", 1), ("a", 9), ("b", 2), ("c", 3)]);
    let branch = Branch::weighted(&raw).unwrap();
    assert_eq!(branch.len(), 4);
    match branch {
        Branch::Weighted(choices, total) => {
            assert_eq!(total, 15);
            let weights: Vec<u64> = choices.iter().map(|c| c.weight).collect();
            assert_eq!(weights, vec![1, 9, 2, 3]);
        }
        _ => panic!("expected a weighted branch"),
    }
}

#[test]
fn builtin_filters_transform_text() {
    let table = create_builtin_filters();
    assert_eq!(table.get(&String::from("uppercase")).copied(), Some(Filter::Uppercase));
    assert_eq!(table.get(&String::from("lowercase")).copied(), Some(Filter::Lowercase));
    assert_eq!(table.get(&String::from("length")).copied(), Some(Filter::Length));
    assert!(table.get(&String::from("reverse")).is_none());
    let s = String::from("MiXeD");
    assert_eq!(Filter::Uppercase.apply(&s), "MIXED");
    assert_eq!(Filter::Lowercase.apply(&s), "mixed");
    assert_eq!(Filter::Length.apply(&s), "5");
}

#[test]
fn os_seeded_grammar_generates() {
    if let Some(mut grammar) = Grammar::try_new() {
        grammar.start_single(String::from("a{missing}b")).unwrap();
        assert!(matches!(grammar.generate(), Err(CalyxError::UndefinedRule { ref rule_name }) if rule_name == "missing"));
    }
    let mut grammar = Grammar::new();
    grammar.start_single(String::from("Hello world.")).unwrap();
    assert_eq!(grammar.generate().unwrap().flatten(), "Hello world.");
}
