//! The rules of a lexer, their token ids, and the code that builds them.

use vstd::prelude::*;
use vstd::string::StringExecFns;
use crate::ast::{dup_at, has_dup, knows, names_of};
use crate::text::{
    debug_quoted, debug_string, decimal, decimal_text, index_type_name, replace_all,
    replace_each,
};

verus! {

/// One lexing rule: the id of the token it produces, the name of that
/// token, and its regular expression.
#[derive(Debug, Clone, PartialEq, Eq)]
pub struct Rule {
    pub tok_id: Option<u32>,
    pub name: Option<String>,
    pub re_str: String,
}

impl Rule {
    /// The name of the rule's token, as a sequence of characters.
    pub open spec fn name_view(&self) -> Option<Seq<char>> {
        match self.name {
            Some(n) => Some(n@),
            None => None,
        }
    }
}

/// The rules of a lexer, in the order in which they are tried.
#[derive(Debug, Clone, PartialEq, Eq)]
pub struct LexerDef {
    pub rules: Vec<Rule>,
}

/// `name` is a key of `map`.
pub open spec fn has_key(map: Seq<(String, u32)>, name: Seq<char>) -> bool {
    exists|i: int| 0 <= i < map.len() && (#[trigger] map[i]).0@ == name
}

/// `id` is what `map` gives for `name`: the value of the first entry with
/// that key.
pub open spec fn maps_to(map: Seq<(String, u32)>, name: Seq<char>, id: Option<u32>) -> bool {
    match id {
        Some(v) => exists|i: int|
            0 <= i < map.len() && (#[trigger] map[i]).0@ == name && map[i].1 == v && forall|j: int|
                0 <= j < i ==> (#[trigger] map[j]).0@ != name,
        None => !has_key(map, name),
    }
}

/// One of the first `upto` entries of `map` has the key `name`.
pub open spec fn key_before(map: Seq<(String, u32)>, name: Seq<char>, upto: int) -> bool {
    exists|i: int| 0 <= i < upto && i < map.len() && (#[trigger] map[i]).0@ == name
}

/// One of the first `upto` rules is named `name`.
pub open spec fn named_before(rules: Seq<Rule>, name: Seq<char>, upto: int) -> bool {
    exists|i: int| 0 <= i < upto && i < rules.len() && (#[trigger] rules[i]).name_view() == Some(name)
}

/// Some rule is named `name`.
pub open spec fn has_rule_named(rules: Seq<Rule>, name: Seq<char>) -> bool {
    named_before(rules, name, rules.len() as int)
}

/// What `map` gives for `name`.
pub fn lookup_id(map: &Vec<(String, u32)>, name: &String) -> (r: Option<u32>)
    ensures
        maps_to(map@, name@, r),
{
    let mut i: usize = 0;
    while i < map.len()
        invariant
            i <= map@.len(),
            forall|j: int| 0 <= j < i ==> (#[trigger] map@[j]).0@ != name@,
        decreases map.len() - i,
    {
        if map[i].0 == *name {
            return Some(map[i].1);
        }
        i = i + 1;
    }
    None
}

/// Whether some rule is named `name`.
pub fn rule_named(rules: &Vec<Rule>, name: &String) -> (r: bool)
    ensures
        r == has_rule_named(rules@, name@),
{
    let mut i: usize = 0;
    while i < rules.len()
        invariant
            i <= rules@.len(),
            !named_before(rules@, name@, i as int),
        decreases rules.len() - i,
    {
        let found = match &rules[i].name {
            Some(n) => *n == *name,
            None => false,
        };
        if found {
            proof {
                assert(rules@[i as int].name_view() == Some(name@));
            }
            return true;
        }
        proof {
            if named_before(rules@, name@, i + 1) {
                let j = choose|j: int|
                    0 <= j < i + 1 && j < rules@.len() && (#[trigger] rules@[j]).name_view() == Some(
                        name@,
                    );
                if j < i {
                    assert(named_before(rules@, name@, i as int));
                }
            }
        }
        i = i + 1;
    }
    false
}

/// Whether `list` holds `name`.
pub fn holds_name(list: &Vec<String>, name: &String) -> (r: bool)
    ensures
        r == knows(names_of(list@), name@),
{
    let ghost ns = names_of(list@);
    let mut i: usize = 0;
    while i < list.len()
        invariant
            i <= list@.len(),
            ns == names_of(list@),
            forall|j: int| 0 <= j < i ==> #[trigger] ns[j] != name@,
        decreases list.len() - i,
    {
        if list[i] == *name {
            proof {
                assert(ns[i as int] == name@);
            }
            return true;
        }
        i = i + 1;
    }
    false
}

/// Adds `name` to `list` unless it is there. A list without repeats stays
/// one.
pub fn push_new(list: &mut Vec<String>, name: &String)
    ensures
        names_of(final(list)@) == if knows(names_of(old(list)@), name@) {
            names_of(old(list)@)
        } else {
            names_of(old(list)@).push(name@)
        },
        !has_dup(names_of(old(list)@)) ==> !has_dup(names_of(final(list)@)),
        forall|n: Seq<char>| #[trigger]
            knows(names_of(final(list)@), n) <==> (knows(names_of(old(list)@), n) || n == name@),
{
    let ghost before = names_of(list@);
    if !holds_name(list, name) {
        list.push(name.clone());
        proof {
            let after = names_of(list@);
            assert(after =~= before.push(name@));
            assert forall|j: int| 0 <= j < after.len() && !has_dup(before) implies !#[trigger] dup_at(
                after,
                j,
            ) by {
                if dup_at(after, j) {
                    let i = choose|i: int| 0 <= i < j && #[trigger] after[i] == after[j];
                    if j < before.len() {
                        assert(before[i] == before[j]);
                        assert(dup_at(before, j));
                    } else {
                        assert(before[i] == name@);
                    }
                }
            }
            assert forall|n: Seq<char>| #[trigger]
                knows(after, n) <==> (knows(before, n) || n == name@) by {
                if knows(after, n) {
                    let i = choose|i: int| 0 <= i < after.len() && #[trigger] after[i] == n;
                    if i < before.len() {
                        assert(before[i] == n);
                    }
                }
                if knows(before, n) {
                    let i = choose|i: int| 0 <= i < before.len() && #[trigger] before[i] == n;
                    assert(after[i] == n);
                }
                if n == name@ {
                    assert(after[before.len() as int] == n);
                }
            }
        }
    } else {
        proof {
            assert(names_of(list@) == before);
        }
    }
}

/// The text of the id of a rule's token.
pub open spec fn pp_tok_id(id: Option<u32>) -> Seq<char> {
    match id {
        Some(t) => "Some("@ + decimal_text(t as nat) + ")"@,
        None => "None"@,
    }
}

/// The text of the name of a rule's token.
pub open spec fn pp_name(name: Option<Seq<char>>) -> Seq<char> {
    match name {
        Some(n) => "Some("@ + debug_quoted(n) + ".to_string())"@,
        None => "None"@,
    }
}

/// What stands for the character `c` of a regular expression between
/// double quotes: a backslash before a backslash and before a double
/// quote, every other character as it is.
pub open spec fn escaped_char(c: char) -> Seq<char> {
    if c == '\\' {
        seq!['\\', '\\']
    } else if c == '"' {
        seq!['\\', '"']
    } else {
        seq![c]
    }
}

/// A regular expression as it stands between double quotes.
pub open spec fn pp_regex(re: Seq<char>) -> Seq<char>
    decreases re.len(),
{
    if re.len() == 0 {
        Seq::empty()
    } else {
        pp_regex(re.drop_last()) + escaped_char(re.last())
    }
}

/// Replacing a character in two texts put together is replacing it in
/// each.
pub proof fn lemma_replace_concat(a: Seq<char>, b: Seq<char>, c: char, to: Seq<char>)
    ensures
        replace_each(a + b, c, to) == replace_each(a, c, to) + replace_each(b, c, to),
    decreases b.len(),
{
    if b.len() == 0 {
        assert(a + b =~= a);
        assert(replace_each(a, c, to) + replace_each(b, c, to) =~= replace_each(a, c, to));
    } else {
        let piece = if b.last() == c {
            to
        } else {
            seq![b.last()]
        };
        lemma_replace_concat(a, b.drop_last(), c, to);
        assert((a + b).drop_last() =~= a + b.drop_last());
        assert((a + b).last() == b.last());
        assert((replace_each(a, c, to) + replace_each(b.drop_last(), c, to)) + piece
            =~= replace_each(a, c, to) + (replace_each(b.drop_last(), c, to) + piece));
    }
}

/// Replacing a character in a text of one character.
pub proof fn lemma_replace_one(x: char, c: char, to: Seq<char>)
    ensures
        replace_each(seq![x], c, to) == if x == c {
            to
        } else {
            seq![x]
        },
{
    let one = seq![x];
    assert(one.drop_last() =~= Seq::<char>::empty());
    assert(replace_each(one.drop_last(), c, to) =~= Seq::<char>::empty());
    assert(Seq::<char>::empty() + to =~= to);
    assert(Seq::<char>::empty() + one =~= one);
}

/// Doubling each backslash and then putting a backslash before each
/// double quote escapes a regular expression character by character.
pub proof fn lemma_escaping_by_replacement(re: Seq<char>)
    ensures
        replace_each(replace_each(re, '\\', seq!['\\', '\\']), '"', seq!['\\', '"']) == pp_regex(re),
    decreases re.len(),
{
    let two = seq!['\\', '\\'];
    let quote = seq!['\\', '"'];
    if re.len() > 0 {
        let front = re.drop_last();
        let x = re.last();
        lemma_escaping_by_replacement(front);
        let piece = if x == '\\' {
            two
        } else {
            seq![x]
        };
        lemma_replace_concat(replace_each(front, '\\', two), piece, '"', quote);
        if x == '\\' {
            assert(two =~= seq!['\\'] + seq!['\\']);
            lemma_replace_concat(seq!['\\'], seq!['\\'], '"', quote);
            lemma_replace_one('\\', '"', quote);
        } else {
            lemma_replace_one(x, '"', quote);
        }
    }
}

/// An escaped regular expression is no shorter than the expression and at
/// most twice as long.
pub proof fn lemma_escaped_length(re: Seq<char>)
    ensures
        re.len() <= pp_regex(re).len() <= 2 * re.len(),
    decreases re.len(),
{
    if re.len() > 0 {
        lemma_escaped_length(re.drop_last());
    }
}

/// The line of code that builds rule `r`.
pub open spec fn pp_rule(r: Rule) -> Seq<char> {
    "\nRule::new("@ + pp_tok_id(r.tok_id) + ", "@ + pp_name(r.name_view()) + ", \""@ + pp_regex(
        r.re_str@,
    ) + "\".to_string()).unwrap(),"@
}

/// The lines of code that build `rules`.
pub open spec fn pp_rules(rules: Seq<Rule>) -> Seq<char>
    decreases rules.len(),
{
    if rules.len() == 0 {
        Seq::empty()
    } else {
        pp_rules(rules.drop_last()) + pp_rule(rules.last())
    }
}

/// What stands before the rules in the code of a lexer.
pub open spec fn pp_header() -> Seq<char> {
    "use lrlex::{LexerDef, Rule};\n\n#[allow(dead_code)]\npub fn lexerdef() -> LexerDef<"@ + "u32"@
        + "> {\n    let rules = vec!["@
}

/// What stands behind the rules in the code of a lexer.
pub open spec fn pp_footer() -> Seq<char> {
    "\n];\n    LexerDef::new(rules)\n}\n"@
}

/// The code of a function that builds a lexer with `rules`.
pub open spec fn pp_text(rules: Seq<Rule>) -> Seq<char> {
    pp_header() + pp_rules(rules) + pp_footer()
}

/// What the line of code for rule `r` holds at most: its fixed frame,
/// the texts of its id and of its name, and twice the length of its
/// regular expression.
pub open spec fn rule_bound(r: Rule) -> nat {
    "\nRule::new("@.len() + pp_tok_id(r.tok_id).len() + ", "@.len() + pp_name(r.name_view()).len()
        + ", \""@.len() + 2 * r.re_str@.len() + "\".to_string()).unwrap(),"@.len()
}

/// What the lines of code for `rules` hold at most.
pub open spec fn rules_bound(rules: Seq<Rule>) -> nat
    decreases rules.len(),
{
    if rules.len() == 0 {
        0
    } else {
        rules_bound(rules.drop_last()) + rule_bound(rules.last())
    }
}

/// The line of code for a rule is no longer than its frame, the texts of
/// its id and of its name, and twice its regular expression.
pub proof fn lemma_rule_text_is_bounded(r: Rule)
    ensures
        pp_rule(r).len() <= rule_bound(r),
{
    lemma_escaped_length(r.re_str@);
}

/// The code of a lexer is no longer than its header and footer and, for
/// each rule, the frame, the texts of id and name, and twice the regular
/// expression: a bound that the rules alone give.
pub proof fn lemma_text_is_bounded(rules: Seq<Rule>)
    ensures
        pp_rules(rules).len() <= rules_bound(rules),
        pp_text(rules).len() <= pp_header().len() + rules_bound(rules) + pp_footer().len(),
    decreases rules.len(),
{
    if rules.len() > 0 {
        lemma_text_is_bounded(rules.drop_last());
        lemma_rule_text_is_bounded(rules.last());
    }
}

/// `now` is `was` with the ids of `map` given to the named rules, and
/// `missing` is, first, the keys of `map` that name no rule, and second,
/// the names of rules that are no key of `map`; each once, and `None`
/// where there is none.
pub open spec fn rule_ids_set(
    was: Seq<Rule>,
    map: Seq<(String, u32)>,
    now: Seq<Rule>,
    missing: (Option<Vec<String>>, Option<Vec<String>>),
) -> bool {
    &&& now.len() == was.len()
    &&& forall|i: int|
        0 <= i < was.len() ==> {
            let a = was[i];
            let b = #[trigger] now[i];
            &&& b.name_view() == a.name_view()
            &&& b.re_str@ == a.re_str@
            &&& match a.name_view() {
                Some(n) => maps_to(map, n, b.tok_id),
                None => b.tok_id == a.tok_id,
            }
        }
    &&& match missing.0 {
        None => forall|n: Seq<char>| #[trigger] has_key(map, n) ==> has_rule_named(was, n),
        Some(v) => v@.len() > 0 && !has_dup(names_of(v@)) && forall|n: Seq<char>| #[trigger]
            knows(names_of(v@), n) <==> (has_key(map, n) && !has_rule_named(was, n)),
    }
    &&& match missing.1 {
        None => forall|n: Seq<char>| #[trigger] has_rule_named(was, n) ==> has_key(map, n),
        Some(v) => v@.len() > 0 && !has_dup(names_of(v@)) && forall|n: Seq<char>| #[trigger]
            knows(names_of(v@), n) <==> (has_rule_named(was, n) && !has_key(map, n)),
    }
}

impl LexerDef {
    /// A lexer with the given rules.
    pub fn new(rules: Vec<Rule>) -> (r: LexerDef)
        ensures
            r.rules == rules,
    {
        LexerDef { rules }
    }

    /// Gives every named rule the id that `map` holds for its name, and no
    /// id where `map` has none. The result is, first, the keys of `map`
    /// that name no rule, and second, the names of rules that are no key
    /// of `map`; each once, and `None` where there is none.
    pub fn set_rule_ids(&mut self, map: &Vec<(String, u32)>) -> (r: (
        Option<Vec<String>>,
        Option<Vec<String>>,
    ))
        ensures
            rule_ids_set(old(self).rules@, map@, final(self).rules@, r),
    {
        let ghost rules = self.rules@;
        let mut updated: Vec<Rule> = Vec::new();
        let mut from_parser: Vec<String> = Vec::new();
        let mut i: usize = 0;
        while i < self.rules.len()
            invariant
                i <= rules.len(),
                self.rules@ == rules,
                updated@.len() == i,
                forall|j: int|
                    0 <= j < i ==> {
                        let was = rules[j];
                        let now = #[trigger] updated@[j];
                        &&& now.name_view() == was.name_view()
                        &&& now.re_str@ == was.re_str@
                        &&& match was.name_view() {
                            Some(n) => maps_to(map@, n, now.tok_id),
                            None => now.tok_id == was.tok_id,
                        }
                    },
                !has_dup(names_of(from_parser@)),
                forall|n: Seq<char>| #[trigger]
                    knows(names_of(from_parser@), n) <==> (named_before(rules, n, i as int)
                        && !has_key(map@, n)),
            decreases self.rules.len() - i,
        {
            let rule = &self.rules[i];
            let ghost listed = names_of(from_parser@);
            let ghost done = updated@;
            let now = match &rule.name {
                Some(n) => {
                    let id = lookup_id(map, n);
                    if id.is_none() {
                        push_new(&mut from_parser, n);
                    }
                    Rule { tok_id: id, name: Some(n.clone()), re_str: rule.re_str.clone() }
                },
                None => Rule { tok_id: rule.tok_id, name: None, re_str: rule.re_str.clone() },
            };
            updated.push(now);
            proof {
                assert forall|j: int| 0 <= j < i + 1 implies {
                    let was = rules[j];
                    let now = #[trigger] updated@[j];
                    &&& now.name_view() == was.name_view()
                    &&& now.re_str@ == was.re_str@
                    &&& match was.name_view() {
                        Some(n) => maps_to(map@, n, now.tok_id),
                        None => now.tok_id == was.tok_id,
                    }
                } by {
                    if j < i {
                        assert(updated@[j] == done[j]);
                    }
                }
                assert forall|n: Seq<char>| #[trigger]
                    knows(names_of(from_parser@), n) <==> (named_before(rules, n, i + 1)
                        && !has_key(map@, n)) by {
                    let here = rules[i as int].name_view() == Some(n);
                    if named_before(rules, n, i + 1) {
                        let j = choose|j: int|
                            0 <= j < i + 1 && j < rules.len() && (#[trigger] rules[j]).name_view()
                                == Some(n);
                        if j < i {
                            assert(named_before(rules, n, i as int));
                        }
                    }
                    if named_before(rules, n, i as int) {
                        let j = choose|j: int|
                            0 <= j < i && j < rules.len() && (#[trigger] rules[j]).name_view()
                                == Some(n);
                        assert(0 <= j < i + 1);
                    }
                    if here {
                        assert(named_before(rules, n, i + 1));
                    }
                    assert(knows(listed, n) <==> (named_before(rules, n, i as int) && !has_key(
                        map@,
                        n,
                    )));
                }
            }
            i = i + 1;
        }
        let mut from_lexer: Vec<String> = Vec::new();
        let mut k: usize = 0;
        while k < map.len()
            invariant
                k <= map@.len(),
                self.rules@ == rules,
                !has_dup(names_of(from_lexer@)),
                forall|n: Seq<char>| #[trigger]
                    knows(names_of(from_lexer@), n) <==> (key_before(map@, n, k as int)
                        && !has_rule_named(rules, n)),
            decreases map.len() - k,
        {
            let key = &map[k].0;
            let ghost listed = names_of(from_lexer@);
            if !rule_named(&self.rules, key) {
                push_new(&mut from_lexer, key);
            }
            proof {
                assert forall|n: Seq<char>| #[trigger]
                    knows(names_of(from_lexer@), n) <==> (key_before(map@, n, k + 1)
                        && !has_rule_named(rules, n)) by {
                    if key_before(map@, n, k + 1) {
                        let j = choose|j: int|
                            0 <= j < k + 1 && j < map@.len() && (#[trigger] map@[j]).0@ == n;
                        if j < k {
                            assert(key_before(map@, n, k as int));
                        }
                    }
                    if key_before(map@, n, k as int) {
                        let j = choose|j: int|
                            0 <= j < k && j < map@.len() && (#[trigger] map@[j]).0@ == n;
                        assert(0 <= j < k + 1);
                    }
                    if map@[k as int].0@ == n {
                        assert(key_before(map@, n, k + 1));
                    }
                    assert(knows(listed, n) <==> (key_before(map@, n, k as int) && !has_rule_named(
                        rules,
                        n,
                    )));
                }
            }
            k = k + 1;
        }
        self.rules = updated;
        proof {
            assert forall|n: Seq<char>| has_key(map@, n) <==> key_before(
                map@,
                n,
                map@.len() as int,
            ) by {
                if has_key(map@, n) {
                    let j = choose|j: int| 0 <= j < map@.len() && (#[trigger] map@[j]).0@ == n;
                    assert(key_before(map@, n, map@.len() as int));
                }
            }
        }
        let missing_from_lexer = if from_lexer.len() == 0 {
            proof {
                assert forall|n: Seq<char>| #[trigger] has_key(map@, n) implies has_rule_named(
                    rules,
                    n,
                ) by {
                    assert(!knows(names_of(from_lexer@), n));
                }
            }
            None
        } else {
            Some(from_lexer)
        };
        let missing_from_parser = if from_parser.len() == 0 {
            proof {
                assert forall|n: Seq<char>| #[trigger] has_rule_named(rules, n) implies has_key(
                    map@,
                    n,
                ) by {
                    assert(!knows(names_of(from_parser@), n));
                }
            }
            None
        } else {
            Some(from_parser)
        };
        (missing_from_lexer, missing_from_parser)
    }

    /// Appends to `outs` the code of a function that builds this lexer.
    pub fn rust_pp(&self, outs: &mut String)
        ensures
            final(outs)@ == old(outs)@ + pp_text(self.rules@),
    {
        let ghost start = outs@;
        let ty = index_type_name();
        outs.append("use lrlex::{LexerDef, Rule};\n\n#[allow(dead_code)]\npub fn lexerdef() -> LexerDef<");
        outs.append(ty.as_str());
        outs.append("> {\n    let rules = vec![");
        proof {
            assert(self.rules@.take(0) =~= Seq::<Rule>::empty());
            assert(outs@ =~= start + pp_header() + pp_rules(self.rules@.take(0)));
        }
        let mut i: usize = 0;
        while i < self.rules.len()
            invariant
                i <= self.rules@.len(),
                outs@ == start + pp_header() + pp_rules(self.rules@.take(i as int)),
            decreases self.rules.len() - i,
        {
            let rule = &self.rules[i];
            let ghost so_far = outs@;
            let tok = match rule.tok_id {
                Some(t) => {
                    let mut s = String::from_str("Some(");
                    s.append(decimal(t).as_str());
                    s.append(")");
                    s
                },
                None => String::from_str("None"),
            };
            let name = match &rule.name {
                Some(n) => {
                    let mut s = String::from_str("Some(");
                    s.append(debug_string(n.as_str()).as_str());
                    s.append(".to_string())");
                    s
                },
                None => String::from_str("None"),
            };
            let doubled = replace_all(rule.re_str.as_str(), "\\", "\\\\");
            let re = replace_all(doubled.as_str(), "\"", "\\\"");
            outs.append("\nRule::new(");
            outs.append(tok.as_str());
            outs.append(", ");
            outs.append(name.as_str());
            outs.append(", \"");
            outs.append(re.as_str());
            outs.append("\".to_string()).unwrap(),");
            proof {
                reveal_strlit("\\");
                reveal_strlit("\\\\");
                reveal_strlit("\"");
                reveal_strlit("\\\"");
                assert("\\"@ =~= seq!['\\']);
                assert("\\\\"@ =~= seq!['\\', '\\']);
                assert("\""@ =~= seq!['"']);
                assert("\\\""@ =~= seq!['\\', '"']);
                lemma_escaping_by_replacement(rule.re_str@);
                assert(tok@ == pp_tok_id(rule.tok_id));
                assert(name@ == pp_name(rule.name_view()));
                assert(re@ == pp_regex(rule.re_str@));
                assert(outs@ =~= so_far + pp_rule(*rule));
                assert(self.rules@.take(i + 1).drop_last() =~= self.rules@.take(i as int));
                assert(self.rules@.take(i + 1).last() == *rule);
                assert(outs@ =~= start + pp_header() + pp_rules(self.rules@.take(i + 1)));
            }
            i = i + 1;
        }
        outs.append("\n];\n    LexerDef::new(rules)\n}\n");
        proof {
            assert(self.rules@.take(self.rules@.len() as int) =~= self.rules@);
            assert(outs@ =~= start + pp_text(self.rules@));
        }
    }
}

} // verus!
