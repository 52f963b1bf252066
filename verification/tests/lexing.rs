use cfgrammar::builder::{
    constant_if, is_token_id, key_seen, module_name, rust_file_name, strip_step, token_constant,
    LexerBuilder, Stripped, SyncError,
};
use cfgrammar::lexer::{holds_name, lookup_id, push_new, rule_named, LexerDef, Rule};
use cfgrammar::text::decimal;

fn rule(tok_id: Option<u32>, name: Option<&str>, re: &str) -> Rule {
    Rule { tok_id, name: name.map(|n| n.to_string()), re_str: re.to_string() }
}

fn calc_rules() -> Vec<Rule> {
    vec![
        rule(None, Some("INT"), "[0-9]+"),
        rule(Some(3), Some("q\"x"), "\\d\""),
        rule(Some(7), None, "[ \\t]+"),
    ]
}

fn ids(list: &[(&str, u32)]) -> Vec<(String, u32)> {
    list.iter().map(|(n, i)| (n.to_string(), *i)).collect()
}

const HEADER: &str = "use lrlex::{LexerDef, Rule};\n\n#[allow(dead_code)]\npub fn lexerdef() -> LexerDef<u32> {\n    let rules = vec![";
const FOOTER: &str = "\n];\n    LexerDef::new(rules)\n}\n";

#[test]
fn rule_ids_are_set_and_the_missing_are_listed() {
    let mut def = LexerDef::new(calc_rules());
    let (from_lexer, from_parser) =
        def.set_rule_ids(&ids(&[("INT", 4210), ("PLUS", 2), ("INT", 5), ("PLUS", 9)]));
    assert_eq!(def.rules[0], rule(Some(4210), Some("INT"), "[0-9]+"));
    assert_eq!(def.rules[1], rule(None, Some("q\"x"), "\\d\""));
    assert_eq!(def.rules[2], rule(Some(7), None, "[ \\t]+"));
    assert_eq!(from_lexer, Some(vec!["PLUS".to_string()]));
    assert_eq!(from_parser, Some(vec!["q\"x".to_string()]));
}

#[test]
fn nothing_is_missing_where_both_sides_agree() {
    let mut def = LexerDef::new(vec![
        rule(None, Some("A"), "a"),
        rule(None, Some("B"), "b"),
        rule(None, Some("A"), "aa"),
    ]);
    let (from_lexer, from_parser) = def.set_rule_ids(&ids(&[("B", 1), ("A", 0)]));
    assert_eq!(from_lexer, None);
    assert_eq!(from_parser, None);
    assert_eq!(def.rules[0].tok_id, Some(0));
    assert_eq!(def.rules[1].tok_id, Some(1));
    assert_eq!(def.rules[2].tok_id, Some(0));
}

#[test]
fn one_key_for_two_rules_does_not_hide_a_missing_key() {
    let mut def = LexerDef::new(vec![rule(None, Some("A"), "a"), rule(None, Some("A"), "aa")]);
    let (from_lexer, from_parser) = def.set_rule_ids(&ids(&[("A", 0), ("B", 1)]));
    assert_eq!(from_lexer, Some(vec!["B".to_string()]));
    assert_eq!(from_parser, None);
}

#[test]
fn lexer_is_printed_as_code() {
    let def = LexerDef::new(calc_rules());
    let mut outs = "// generated\n".to_string();
    def.rust_pp(&mut outs);
    let expected = format!(
        "// generated\n{}{}{}{}{}",
        HEADER,
        "\nRule::new(None, Some(\"INT\".to_string()), \"[0-9]+\".to_string()).unwrap(),",
        "\nRule::new(Some(3), Some(\"q\\\"x\".to_string()), \"\\\\d\\\"\".to_string()).unwrap(),",
        "\nRule::new(Some(7), None, \"[ \\\\t]+\".to_string()).unwrap(),",
        FOOTER
    );
    assert_eq!(outs, expected);
}

#[test]
fn empty_lexer_is_printed_as_code() {
    let def = LexerDef::new(vec![]);
    let mut outs = String::new();
    def.rust_pp(&mut outs);
    assert_eq!(outs, format!("{}{}", HEADER, FOOTER));
}

#[test]
fn module_holds_lexer_and_token_constants() {
    let builder = LexerBuilder::new().rule_ids_map(ids(&[
        ("INT", 4210),
        ("a-b", 1),
        ("int_lit", 0),
        ("INT", 9),
        ("+", 2),
        ("_x9", 4294967295),
        ("9x", 3),
    ]));
    let def = LexerDef::new(vec![]);
    let text = builder.generate("calc", &def);
    let expected = format!(
        "mod calc_l {{{}{}{}{}{}}}",
        HEADER,
        FOOTER,
        "#[allow(dead_code)]\npub const T_INT: u32 = 4210;\n",
        "#[allow(dead_code)]\npub const T_INT_LIT: u32 = 0;\n",
        "#[allow(dead_code)]\npub const T__X9: u32 = 4294967295;\n"
    );
    assert_eq!(text, expected);
}

#[test]
fn module_without_ids_has_no_constants() {
    let def = LexerDef::new(vec![rule(Some(1), Some("A"), "a")]);
    let text = LexerBuilder::new().generate("m", &def);
    let expected = format!(
        "mod m_l {{{}{}{}}}",
        HEADER, "\nRule::new(Some(1), Some(\"A\".to_string()), \"a\".to_string()).unwrap(),", FOOTER
    );
    assert_eq!(text, expected);
}

#[test]
fn names_of_constants_match_the_pattern() {
    assert!(is_token_id("abc"));
    assert!(is_token_id("_x9"));
    assert!(is_token_id("A"));
    assert!(!is_token_id("9x"));
    assert!(!is_token_id(""));
    assert!(!is_token_id("a b"));
    assert!(!is_token_id("a-b"));
    assert!(!is_token_id("caf\u{e9}"));
}

#[test]
fn constant_of_a_token() {
    assert_eq!(
        token_constant("int_lit", 7),
        "#[allow(dead_code)]\npub const T_INT_LIT: u32 = 7;\n"
    );
    assert_eq!(constant_if(true, "a", 1), "#[allow(dead_code)]\npub const T_A: u32 = 1;\n");
    assert_eq!(constant_if(false, "a", 1), "");
}

#[test]
fn numerals_are_decimal() {
    assert_eq!(decimal(0), "0");
    assert_eq!(decimal(7), "7");
    assert_eq!(decimal(10), "10");
    assert_eq!(decimal(4210), "4210");
    assert_eq!(decimal(u32::MAX), "4294967295");
}

#[test]
fn module_name_is_the_file_name_without_extensions() {
    assert_eq!(module_name("src/calc.l"), Some("calc".to_string()));
    assert_eq!(module_name("src/a.b.l"), Some("a".to_string()));
    assert_eq!(module_name("calc"), Some("calc".to_string()));
    assert_eq!(module_name("a/b/calc.l.rs"), Some("calc".to_string()));
    assert_eq!(module_name("noext"), Some("noext".to_string()));
    assert_eq!(module_name(""), None);
    assert_eq!(module_name("/"), None);
}

#[test]
fn stripping_goes_on_until_the_stem_is_the_name() {
    assert_eq!(strip_step("calc.l".to_string(), None), Stripped::NoName);
    assert_eq!(
        strip_step("calc.l".to_string(), Some("calc".to_string())),
        Stripped::Shorter("calc".to_string())
    );
    assert_eq!(
        strip_step("calc".to_string(), Some("calc".to_string())),
        Stripped::Done("calc".to_string())
    );
}

#[test]
fn generated_file_is_a_rust_file() {
    assert_eq!(rust_file_name("calc.l"), "calc.l.rs");
    assert_eq!(rust_file_name(""), ".rs");
}

#[test]
fn new_builder_is_strict_on_the_lexer_and_lenient_on_the_parser() {
    let builder = LexerBuilder::new();
    let missing = Some(vec!["PLUS".to_string()]);
    assert_eq!(
        builder.check_missing(missing.clone(), None),
        Err(SyncError::MissingFromLexer(vec!["PLUS".to_string()]))
    );
    assert_eq!(builder.check_missing(None, missing.clone()), Ok((None, missing.clone())));
    assert_eq!(builder.check_missing(None, None), Ok((None, None)));
    assert_eq!(
        builder.check_missing(missing.clone(), Some(vec!["WS".to_string()])),
        Err(SyncError::MissingFromLexer(vec!["PLUS".to_string()]))
    );
}

#[test]
fn builder_flags_decide_what_is_an_error() {
    let missing = Some(vec!["PLUS".to_string()]);
    let other = Some(vec!["WS".to_string()]);
    let lenient = LexerBuilder::new().allow_missing_terms_in_lexer(true);
    assert_eq!(
        lenient.check_missing(missing.clone(), other.clone()),
        Ok((missing.clone(), other.clone()))
    );
    let strict = LexerBuilder::new().allow_missing_tokens_in_parser(false);
    assert_eq!(
        strict.check_missing(None, other.clone()),
        Err(SyncError::MissingFromParser(vec!["WS".to_string()]))
    );
    assert_eq!(
        strict.check_missing(missing.clone(), other.clone()),
        Err(SyncError::MissingFromLexer(vec!["PLUS".to_string()]))
    );
    let parser_only =
        LexerBuilder::new().allow_missing_terms_in_lexer(true).allow_missing_tokens_in_parser(false);
    assert_eq!(
        parser_only.check_missing(missing.clone(), other.clone()),
        Err(SyncError::MissingFromParser(vec!["WS".to_string()]))
    );
    assert_eq!(parser_only.check_missing(missing.clone(), None), Ok((missing.clone(), None)));
    let back = parser_only.allow_missing_tokens_in_parser(true).allow_missing_terms_in_lexer(false);
    assert_eq!(back.check_missing(None, other.clone()), Ok((None, other.clone())));
}

#[test]
fn processing_sets_ids_checks_and_generates() {
    let builder = LexerBuilder::new().rule_ids_map(ids(&[("INT", 4)]));
    let mut def = LexerDef::new(vec![rule(None, Some("INT"), "[0-9]+"), rule(None, Some("WS"), " ")]);
    let (text, from_lexer, from_parser) = builder.process(&mut def, "calc").unwrap();
    assert_eq!(from_lexer, None);
    assert_eq!(from_parser, Some(vec!["WS".to_string()]));
    assert_eq!(def.rules[0].tok_id, Some(4));
    let expected = format!(
        "mod calc_l {{{}{}{}{}{}}}",
        HEADER,
        "\nRule::new(Some(4), Some(\"INT\".to_string()), \"[0-9]+\".to_string()).unwrap(),",
        "\nRule::new(None, Some(\"WS\".to_string()), \" \".to_string()).unwrap(),",
        FOOTER,
        "#[allow(dead_code)]\npub const T_INT: u32 = 4;\n"
    );
    assert_eq!(text, expected);
}

#[test]
fn processing_fails_on_tokens_missing_from_the_lexer() {
    let builder = LexerBuilder::new().rule_ids_map(ids(&[("INT", 4), ("PLUS", 5)]));
    let mut def = LexerDef::new(vec![rule(None, Some("INT"), "[0-9]+")]);
    assert_eq!(
        builder.process(&mut def, "calc"),
        Err(SyncError::MissingFromLexer(vec!["PLUS".to_string()]))
    );
    let strict = LexerBuilder::new()
        .rule_ids_map(ids(&[("INT", 4)]))
        .allow_missing_tokens_in_parser(false);
    let mut def = LexerDef::new(vec![rule(None, Some("INT"), "[0-9]+"), rule(None, Some("WS"), " ")]);
    assert_eq!(
        strict.process(&mut def, "calc"),
        Err(SyncError::MissingFromParser(vec!["WS".to_string()]))
    );
}

#[test]
fn processing_without_ids_leaves_the_rules_alone() {
    let mut def = LexerDef::new(calc_rules());
    let (_, from_lexer, from_parser) = LexerBuilder::new().process(&mut def, "calc").unwrap();
    assert_eq!(from_lexer, None);
    assert_eq!(from_parser, None);
    assert_eq!(def.rules, calc_rules());
}

#[test]
fn lookups_in_maps_and_lists() {
    let map = ids(&[("A", 1), ("B", 2), ("A", 3)]);
    assert_eq!(lookup_id(&map, &"A".to_string()), Some(1));
    assert_eq!(lookup_id(&map, &"B".to_string()), Some(2));
    assert_eq!(lookup_id(&map, &"C".to_string()), None);
    assert!(!key_seen(&map, 0));
    assert!(!key_seen(&map, 1));
    assert!(key_seen(&map, 2));
    let rules = calc_rules();
    assert!(rule_named(&rules, &"INT".to_string()));
    assert!(!rule_named(&rules, &"WS".to_string()));
    let mut list = vec!["x".to_string()];
    assert!(holds_name(&list, &"x".to_string()));
    assert!(!holds_name(&list, &"y".to_string()));
    push_new(&mut list, &"x".to_string());
    push_new(&mut list, &"y".to_string());
    push_new(&mut list, &"y".to_string());
    assert_eq!(list, vec!["x".to_string(), "y".to_string()]);
    // a list that holds a name twice takes new names all the same
    let mut twice = vec!["x".to_string(), "x".to_string()];
    push_new(&mut twice, &"x".to_string());
    push_new(&mut twice, &"z".to_string());
    assert_eq!(twice, vec!["x".to_string(), "x".to_string(), "z".to_string()]);
}

#[test]
fn syncing_sets_ids_and_checks_without_generating() {
    let builder = LexerBuilder::new().rule_ids_map(ids(&[("INT", 4)]));
    let mut def = LexerDef::new(vec![rule(None, Some("INT"), "[0-9]+"), rule(None, Some("WS"), " ")]);
    assert_eq!(builder.sync(&mut def), Ok((None, Some(vec!["WS".to_string()]))));
    assert_eq!(def.rules[0].tok_id, Some(4));
    assert_eq!(def.rules[1].tok_id, None);
    let strict = LexerBuilder::new().rule_ids_map(ids(&[("INT", 4), ("PLUS", 5)]));
    let mut def = LexerDef::new(vec![rule(None, Some("INT"), "[0-9]+")]);
    assert_eq!(
        strict.sync(&mut def),
        Err(SyncError::MissingFromLexer(vec!["PLUS".to_string()]))
    );
    let mut def = LexerDef::new(calc_rules());
    assert_eq!(LexerBuilder::new().sync(&mut def), Ok((None, None)));
    assert_eq!(def.rules, calc_rules());
}

#[test]
fn escaped_expression_is_at_most_twice_as_long() {
    let def = LexerDef::new(vec![rule(None, None, "\\\"\"a")]);
    let mut outs = String::new();
    def.rust_pp(&mut outs);
    let expected = format!(
        "{}{}{}",
        HEADER, "\nRule::new(None, None, \"\\\\\\\"\\\"a\".to_string()).unwrap(),", FOOTER
    );
    assert_eq!(outs, expected);
}
