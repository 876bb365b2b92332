use calyx_rs::error::CalyxError;
use calyx_rs::expansion_tree::ExpansionTree;
use calyx_rs::grammar::{Grammar, Options};
use rand::rngs::StdRng;
use rand::SeedableRng;

#[test]
fn define_rule() {
    let mut grammar: Grammar = Grammar::new();

    grammar
        .start_single(String::from("Hello world."))
        .expect("Error defining start rule");
}

#[test]
fn generate_simple_rule() {
    let mut grammar: Grammar = Grammar::new();
    grammar
        .start_single(String::from("Hello world."))
        .expect("Error defining start rule");

    let expansion: Result<ExpansionTree, CalyxError> = grammar.generate();
    let text: String = expansion.expect("Error during generation").flatten();

    assert_eq!(text, "Hello world.");
}

#[test]
fn uniform_rule_example() {
    let mut grammar = Grammar::new();
    grammar
        .start_single(String::from("{greeting} world."))
        .expect("Error defining start rule");

    grammar
        .uniform_rule(
            String::from("greeting"),
            &vec![
                String::from("Hello"),
                String::from("Hi"),
                String::from("Hey"),
                String::from("Yo"),
            ],
        )
        .expect("Error defining greeting rule");

    let text = grammar
        .generate()
        .expect("Error during generation")
        .flatten();

    println!("{}", text);
}

#[test]
fn uniform_rule_multiple_generation_example() {
    let mut grammar = Grammar::new();
    grammar
        .start_single(String::from("{greeting} world."))
        .expect("Error defining start rule");

    grammar
        .uniform_rule(
            String::from("greeting"),
            &vec![
                String::from("Hello"),
                String::from("Hi"),
                String::from("Hey"),
                String::from("Yo"),
            ],
        )
        .expect("Error defining greeting rule");

    let text = grammar
        .generate()
        .expect("Error during generation")
        .flatten();

    println!("{}", text);
    println!("{}", text);
    println!("{}", text);
    println!("{}", text);
}

#[test]
fn weighted_rule_example() {
    let mut grammar = Grammar::new();
    grammar
        .start_single(String::from("{greeting} world."))
        .expect("Error defining start rule");

    grammar
        .weighted_rule(
            String::from("greeting"),
            &vec![
                (String::from("Hello"), 5),
                (String::from("Hi"), 2),
                (String::from("Hey"), 2),
                (String::from("Yo"), 1),
            ],
        )
        .expect("Error defining greeting rule");

    let text = grammar
        .generate()
        .expect("Error during generation")
        .flatten();

    println!("{}", text);
}

#[test]
fn custom_start_rule_example() {
    let mut grammar = Grammar::new();

    grammar
        .single_rule(String::from("hello"), String::from("Hello world."))
        .expect("Error defining greeting rule");

    let text = grammar
        .generate_from(&String::from("hello"))
        .expect("Error during generation")
        .flatten();

    assert_eq!(text, "Hello world.");
}

#[test]
fn random_fruit() {
    let mut grammar = Grammar::new();

    grammar
        .start_single(String::from("{colour} {fruit}"))
        .expect("Error defining start rule");

    grammar
        .uniform_rule(
            String::from("colour"),
            &vec![
                String::from("red"),
                String::from("green"),
                String::from("yellow"),
            ],
        )
        .expect("Error defining colour rule");

    grammar
        .uniform_rule(
            String::from("fruit"),
            &vec![
                String::from("apple"),
                String::from("pear"),
                String::from("tomato"),
            ],
        )
        .expect("Error defining colour rule");

    for _ in 0..6 {
        let text = grammar
            .generate()
            .expect("Error during generation")
            .flatten();

        println!("{}", text);
    }
}

#[test]
fn rng_example() {
    let rng = StdRng::seed_from_u64(12345);
    let _grammar = Grammar::from_rng(rng);
}

#[test]
fn unique_node_cycles_through_each_template_in_branch() {
    let rng = StdRng::seed_from_u64(12345);
    let mut grammar = Grammar::from_options(Options::new(true, rng));

    assert!(grammar
        .start_single(String::from("{$medal} {$medal} {$medal}"))
        .is_ok());

    assert!(grammar
        .uniform_rule(
            String::from("medal"),
            &vec![
                String::from("gold"),
                String::from("silver"),
                String::from("bronze"),
            ],
        )
        .is_ok());

    let result = grammar.generate().expect("Error during generation");
    let text = result.flatten();

    assert_eq!("bronze silver gold", text);
}
