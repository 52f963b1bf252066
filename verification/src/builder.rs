//! What a statically generated lexer is built with: the ids of the
//! parser's tokens, and how strictly the two sets of tokens must agree.

use vstd::prelude::*;
use vstd::string::StringExecFns;
use crate::lexer::{key_before, pp_text, rule_ids_set, LexerDef};
use crate::text::{
    ascii_uppercase, decimal, decimal_text, file_stem_of, index_type_name, opt_view, part_of,
    path_file_stem, regex_is_match, regex_match, upper_text,
};

verus! {

/// The regular expression that the names of tokens must match to get a
/// constant in the generated code.
pub open spec fn token_id_pattern() -> Seq<char> {
    "^[a-zA-Z_][a-zA-Z_0-9]*$"@
}

/// Whether the name of a token can stand in the name of a constant.
pub fn is_token_id(name: &str) -> (r: bool)
    ensures
        r == (regex_match(token_id_pattern(), name@) == Some(true)),
{
    match regex_is_match("^[a-zA-Z_][a-zA-Z_0-9]*$", name) {
        Some(m) => m,
        None => false,
    }
}

/// The constant that the generated code holds for token `name` with `id`.
pub open spec fn constant_text(name: Seq<char>, id: u32) -> Seq<char> {
    "#[allow(dead_code)]\npub const T_"@ + upper_text(name) + ": "@ + "u32"@ + " = "@
        + decimal_text(id as nat) + ";\n"@
}

/// The code of the constant for token `name` with `id`.
pub fn token_constant(name: &str, id: u32) -> (r: String)
    ensures
        r@ == constant_text(name@, id),
{
    let mut r = String::from_str("#[allow(dead_code)]\npub const T_");
    r.append(ascii_uppercase(name).as_str());
    r.append(": ");
    r.append(index_type_name().as_str());
    r.append(" = ");
    r.append(decimal(id).as_str());
    r.append(";\n");
    r
}

/// The code of the constant for token `name` with `id` where its name
/// `matched` the pattern for such names, and nothing where it did not.
pub fn constant_if(matched: bool, name: &str, id: u32) -> (r: String)
    ensures
        r@ == if matched {
            constant_text(name@, id)
        } else {
            Seq::<char>::empty()
        },
{
    if matched {
        token_constant(name, id)
    } else {
        String::new()
    }
}

/// What entry `i` of `map` adds to the generated code: a constant, where
/// its key stands in no earlier entry and can stand in a constant's name.
pub open spec fn entry_text(map: Seq<(String, u32)>, i: int) -> Seq<char> {
    if !key_before(map, map[i].0@, i) && regex_match(token_id_pattern(), map[i].0@) == Some(true) {
        constant_text(map[i].0@, map[i].1)
    } else {
        Seq::<char>::empty()
    }
}

/// What the first `upto` entries of `map` add to the generated code.
pub open spec fn constants_text(map: Seq<(String, u32)>, upto: nat) -> Seq<char>
    decreases upto,
{
    if upto == 0 {
        Seq::<char>::empty()
    } else {
        constants_text(map, (upto - 1) as nat) + entry_text(map, upto - 1)
    }
}

/// The code of the module `name` that holds the lexer with `rules` and a
/// constant for each token of `map`.
pub open spec fn module_text(
    name: Seq<char>,
    rules: Seq<crate::lexer::Rule>,
    map: Option<Seq<(String, u32)>>,
) -> Seq<char> {
    "mod "@ + name + "_l {"@ + pp_text(rules) + match map {
        Some(m) => constants_text(m, m.len()),
        None => Seq::<char>::empty(),
    } + "}"@
}

/// Whether the key of entry `i` of `map` stands in an earlier entry.
pub fn key_seen(map: &Vec<(String, u32)>, i: usize) -> (r: bool)
    requires
        i < map@.len(),
    ensures
        r == key_before(map@, map@[i as int].0@, i as int),
{
    let mut j: usize = 0;
    while j < i
        invariant
            j <= i,
            i < map@.len(),
            forall|h: int| 0 <= h < j ==> (#[trigger] map@[h]).0@ != map@[i as int].0@,
        decreases i - j,
    {
        if map[j].0 == map[i].0 {
            return true;
        }
        j = j + 1;
    }
    false
}

/// Why the tokens of a lexer and of a parser do not agree.
#[derive(Debug, Clone, PartialEq, Eq)]
pub enum SyncError {
    /// These tokens are used in the grammar but not defined in the lexer.
    MissingFromLexer(Vec<String>),
    /// These tokens are defined in the lexer but not used in the grammar.
    MissingFromParser(Vec<String>),
}

/// The file name of generated code for the source file `leaf`.
pub fn rust_file_name(leaf: &str) -> (r: String)
    ensures
        r@ == leaf@ + "."@ + "rs"@,
{
    let mut r = String::from_str(leaf);
    r.append(".");
    r.append("rs");
    r
}

/// One step of taking the extensions off a file name.
#[derive(Debug, Clone, PartialEq, Eq)]
pub enum Stripped {
    /// Nothing is left to take off: this is the name.
    Done(String),
    /// An extension came off: this is what is left.
    Shorter(String),
    /// The path has no file name.
    NoName,
}

/// Decides on one step of taking the extensions off `name`, whose stem
/// is `stem`: without a stem there is no name; a stem that is the name
/// itself is the result; another stem is what is left.
pub fn strip_step(name: String, stem: Option<String>) -> (r: Stripped)
    ensures
        match stem {
            None => r is NoName,
            Some(s) => if s@ == name@ {
                r matches Stripped::Done(n) && n@ == name@
            } else {
                r matches Stripped::Shorter(n) && n@ == s@
            },
        },
{
    match stem {
        None => Stripped::NoName,
        Some(s) => {
            if s == name {
                Stripped::Done(name)
            } else {
                Stripped::Shorter(s)
            }
        },
    }
}

/// A piece of a piece is a piece.
pub proof fn lemma_part_of_part(a: Seq<char>, b: Seq<char>, c: Seq<char>)
    requires
        part_of(a, b),
        part_of(b, c),
    ensures
        part_of(a, c),
{
    let i = choose|i: int| 0 <= i && i + a.len() <= b.len() && #[trigger] b.subrange(i, i + a.len())
        == a;
    let j = choose|j: int| 0 <= j && j + b.len() <= c.len() && #[trigger] c.subrange(j, j + b.len())
        == b;
    assert(c.subrange(j + i, j + i + a.len()) =~= c.subrange(j, j + b.len()).subrange(
        i,
        i + a.len(),
    ));
}

/// A piece that is as long as the whole is the whole.
pub proof fn lemma_whole_part(a: Seq<char>, b: Seq<char>)
    requires
        part_of(a, b),
        a.len() >= b.len(),
    ensures
        a == b,
{
    let i = choose|i: int| 0 <= i && i + a.len() <= b.len() && #[trigger] b.subrange(i, i + a.len())
        == a;
    assert(b.subrange(0int, 0int + a.len()) =~= b);
}

/// `name` with its stem taken again and again, until the stem is the
/// name itself; `None` where a name on the way has no stem.
pub open spec fn stripped(name: Seq<char>) -> Option<Seq<char>>
    decreases name.len(),
{
    match file_stem_of(name) {
        None => None,
        Some(s) => if s == name {
            Some(name)
        } else if s.len() < name.len() {
            stripped(s)
        } else {
            None
        },
    }
}

/// The name of the module for the file at `path`: its file name with all
/// extensions taken off, a piece of the path; `None` where the path has no
/// file name.
pub fn module_name(path: &str) -> (r: Option<String>)
    ensures
        opt_view(r) == stripped(path@),
        r matches Some(name) ==> part_of(name@, path@),
{
    let mut name = String::from_str(path);
    proof {
        assert(path@.subrange(0int, 0int + name@.len()) =~= name@);
    }
    loop
        invariant
            part_of(name@, path@),
            stripped(name@) == stripped(path@),
        decreases name@.len(),
    {
        let ghost before = name@;
        let stem = path_file_stem(name.as_str());
        proof {
            if stem is Some {
                let s = stem->0@;
                lemma_part_of_part(s, before, path@);
                if s != before {
                    if s.len() >= before.len() {
                        lemma_whole_part(s, before);
                    }
                }
            }
        }
        match strip_step(name, stem) {
            Stripped::NoName => {
                return None;
            },
            Stripped::Done(n) => {
                return Some(n);
            },
            Stripped::Shorter(n) => {
                name = n;
            },
        }
    }
}

/// A `LexerBuilder` holds the criteria for building a statically
/// generated lexer.
pub struct LexerBuilder {
    rule_ids_map: Option<Vec<(String, u32)>>,
    allow_missing_terms_in_lexer: bool,
    allow_missing_tokens_in_parser: bool,
}

impl LexerBuilder {
    /// The ids of the parser's tokens by name, where they were given.
    pub closed spec fn ids(&self) -> Option<Seq<(String, u32)>> {
        match self.rule_ids_map {
            Some(m) => Some(m@),
            None => None,
        }
    }

    /// Tokens that the grammar uses may be missing from the lexer.
    pub closed spec fn allows_missing_terms(&self) -> bool {
        self.allow_missing_terms_in_lexer
    }

    /// Tokens that the lexer defines may be missing from the grammar.
    pub closed spec fn allows_missing_tokens(&self) -> bool {
        self.allow_missing_tokens_in_parser
    }

    /// Create a new `LexerBuilder`: without ids, strict on tokens missing
    /// from the lexer, lenient on tokens missing from the grammar.
    pub fn new() -> (r: LexerBuilder)
        ensures
            r.ids() is None,
            !r.allows_missing_terms(),
            r.allows_missing_tokens(),
    {
        LexerBuilder {
            rule_ids_map: None,
            allow_missing_terms_in_lexer: false,
            allow_missing_tokens_in_parser: true,
        }
    }

    /// Set this lexer builder's map of rule ids to `rule_ids_map`. By
    /// default, lexing rules have arbitrary, but distinct, ids. Setting the
    /// map of rule ids (from rule names to ids) allows users to synchronise
    /// a lexer and parser and to check that all rules are used by both.
    /// Of two entries with one name the first counts.
    pub fn rule_ids_map(self, rule_ids_map: Vec<(String, u32)>) -> (r: LexerBuilder)
        ensures
            r.ids() == Some(rule_ids_map@),
            r.allows_missing_terms() == self.allows_missing_terms(),
            r.allows_missing_tokens() == self.allows_missing_tokens(),
    {
        LexerBuilder {
            rule_ids_map: Some(rule_ids_map),
            allow_missing_terms_in_lexer: self.allow_missing_terms_in_lexer,
            allow_missing_tokens_in_parser: self.allow_missing_tokens_in_parser,
        }
    }

    /// If passed false, tokens used in the grammar but not defined in the
    /// lexer are an error at lexer generation time. Defaults to false.
    pub fn allow_missing_terms_in_lexer(self, allow: bool) -> (r: LexerBuilder)
        ensures
            r.ids() == self.ids(),
            r.allows_missing_terms() == allow,
            r.allows_missing_tokens() == self.allows_missing_tokens(),
    {
        LexerBuilder {
            rule_ids_map: self.rule_ids_map,
            allow_missing_terms_in_lexer: allow,
            allow_missing_tokens_in_parser: self.allow_missing_tokens_in_parser,
        }
    }

    /// If passed false, tokens defined in the lexer but not used in the
    /// grammar are an error at lexer generation time. Defaults to true
    /// (since lexers sometimes define tokens such as reserved words, which
    /// are intentionally not in the grammar).
    pub fn allow_missing_tokens_in_parser(self, allow: bool) -> (r: LexerBuilder)
        ensures
            r.ids() == self.ids(),
            r.allows_missing_terms() == self.allows_missing_terms(),
            r.allows_missing_tokens() == allow,
    {
        LexerBuilder {
            rule_ids_map: self.rule_ids_map,
            allow_missing_terms_in_lexer: self.allow_missing_terms_in_lexer,
            allow_missing_tokens_in_parser: allow,
        }
    }

    /// Holds the tokens that one side misses against what this builder
    /// allows: those missing from the lexer are an error unless allowed;
    /// else those missing from the grammar are an error unless allowed;
    /// else both lists are handed back.
    pub fn check_missing(
        &self,
        from_lexer: Option<Vec<String>>,
        from_parser: Option<Vec<String>>,
    ) -> (r: Result<(Option<Vec<String>>, Option<Vec<String>>), SyncError>)
        ensures
            match r {
                Err(SyncError::MissingFromLexer(v)) => !self.allows_missing_terms() && from_lexer
                    == Some(v),
                Err(SyncError::MissingFromParser(v)) => (self.allows_missing_terms()
                    || from_lexer is None) && !self.allows_missing_tokens() && from_parser == Some(
                    v,
                ),
                Ok(p) => p == (from_lexer, from_parser) && (self.allows_missing_terms()
                    || from_lexer is None) && (self.allows_missing_tokens() || from_parser is None),
            },
    {
        if !self.allow_missing_terms_in_lexer {
            match from_lexer {
                Some(v) => {
                    return Err(SyncError::MissingFromLexer(v));
                },
                None => {
                    if !self.allow_missing_tokens_in_parser {
                        match from_parser {
                            Some(w) => {
                                return Err(SyncError::MissingFromParser(w));
                            },
                            None => {
                                return Ok((None, None));
                            },
                        }
                    }
                    return Ok((None, from_parser));
                },
            }
        }
        if !self.allow_missing_tokens_in_parser {
            match from_parser {
                Some(w) => {
                    return Err(SyncError::MissingFromParser(w));
                },
                None => {
                    return Ok((from_lexer, None));
                },
            }
        }
        Ok((from_lexer, from_parser))
    }

    /// The code of the module `mod_name` for the lexer `lexerdef`: a
    /// function that builds the lexer, and a constant for each token id
    /// whose name can stand in a constant's name.
    pub fn generate(&self, mod_name: &str, lexerdef: &LexerDef) -> (r: String)
        ensures
            r@ == module_text(mod_name@, lexerdef.rules@, self.ids()),
    {
        let mut outs = String::from_str("mod ");
        outs.append(mod_name);
        outs.append("_l {");
        lexerdef.rust_pp(&mut outs);
        let ghost head = outs@;
        match &self.rule_ids_map {
            Some(map) => {
                let mut i: usize = 0;
                while i < map.len()
                    invariant
                        i <= map@.len(),
                        outs@ == head + constants_text(map@, i as nat),
                    decreases map.len() - i,
                {
                    let ghost so_far = outs@;
                    let fresh = !key_seen(map, i);
                    let matched = fresh && is_token_id(map[i].0.as_str());
                    let line = constant_if(matched, map[i].0.as_str(), map[i].1);
                    outs.append(line.as_str());
                    proof {
                        assert(line@ == entry_text(map@, i as int));
                        assert(outs@ =~= head + constants_text(map@, (i + 1) as nat));
                    }
                    i = i + 1;
                }
            },
            None => {
                proof {
                    assert(outs@ =~= head + Seq::<char>::empty());
                }
            },
        }
        outs.append("}");
        proof {
            assert(outs@ =~= module_text(mod_name@, lexerdef.rules@, self.ids()));
        }
        outs
    }

    /// Gives the rules of `lexerdef` the ids of this builder and holds
    /// what one side misses against what this builder allows. Without ids
    /// nothing is missing and the rules stay as they are.
    pub fn sync(&self, lexerdef: &mut LexerDef) -> (r: Result<
        (Option<Vec<String>>, Option<Vec<String>>),
        SyncError,
    >)
        ensures
            match self.ids() {
                None => final(lexerdef).rules@ == old(lexerdef).rules@ && (r matches Ok(p)
                    && p.0 is None && p.1 is None),
                Some(map) => match r {
                    Ok(p) => rule_ids_set(old(lexerdef).rules@, map, final(lexerdef).rules@, p)
                        && (self.allows_missing_terms() || p.0 is None) && (
                    self.allows_missing_tokens() || p.1 is None),
                    Err(SyncError::MissingFromLexer(v)) => !self.allows_missing_terms() && exists|
                        w: Option<Vec<String>>,
                    | #[trigger]
                        rule_ids_set(
                            old(lexerdef).rules@,
                            map,
                            final(lexerdef).rules@,
                            (Some(v), w),
                        ),
                    Err(SyncError::MissingFromParser(v)) => !self.allows_missing_tokens() && exists|
                        w: Option<Vec<String>>,
                    | #[trigger]
                        rule_ids_set(
                            old(lexerdef).rules@,
                            map,
                            final(lexerdef).rules@,
                            (w, Some(v)),
                        ) && (self.allows_missing_terms() || w is None),
                },
            },
    {
        let missing = match &self.rule_ids_map {
            Some(map) => lexerdef.set_rule_ids(map),
            None => (None, None),
        };
        let ghost found = missing;
        let r = self.check_missing(missing.0, missing.1);
        proof {
            if self.ids() is Some {
                assert(rule_ids_set(
                    old(lexerdef).rules@,
                    self.ids()->0,
                    lexerdef.rules@,
                    (found.0, found.1),
                ));
            }
        }
        r
    }

    /// Gives the rules of `lexerdef` the ids of this builder, holds what
    /// one side misses against what this builder allows, and generates the
    /// code of the module `mod_name`. Without ids nothing is missing and
    /// the rules stay as they are.
    pub fn process(&self, lexerdef: &mut LexerDef, mod_name: &str) -> (r: Result<
        (String, Option<Vec<String>>, Option<Vec<String>>),
        SyncError,
    >)
        ensures
            match self.ids() {
                None => final(lexerdef).rules@ == old(lexerdef).rules@ && (r matches Ok(p) && p.0@
                    == module_text(mod_name@, old(lexerdef).rules@, None) && p.1 is None
                    && p.2 is None),
                Some(map) => match r {
                    Ok(p) => rule_ids_set(
                        old(lexerdef).rules@,
                        map,
                        final(lexerdef).rules@,
                        (p.1, p.2),
                    ) && p.0@ == module_text(mod_name@, final(lexerdef).rules@, self.ids()) && (
                    self.allows_missing_terms() || p.1 is None) && (self.allows_missing_tokens()
                        || p.2 is None),
                    Err(SyncError::MissingFromLexer(v)) => !self.allows_missing_terms() && exists|
                        w: Option<Vec<String>>,
                    | #[trigger]
                        rule_ids_set(
                            old(lexerdef).rules@,
                            map,
                            final(lexerdef).rules@,
                            (Some(v), w),
                        ),
                    Err(SyncError::MissingFromParser(v)) => !self.allows_missing_tokens() && exists|
                        w: Option<Vec<String>>,
                    | #[trigger]
                        rule_ids_set(
                            old(lexerdef).rules@,
                            map,
                            final(lexerdef).rules@,
                            (w, Some(v)),
                        ) && (self.allows_missing_terms() || w is None),
                },
            },
    {
        match self.sync(lexerdef) {
            Err(e) => Err(e),
            Ok(p) => {
                let text = self.generate(mod_name, lexerdef);
                Ok((text, p.0, p.1))
            },
        }
    }
}

} // verus!
