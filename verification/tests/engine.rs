use cfg_tt::cfg::Cfg;
use cfg_tt::cfg_tt;
use cfg_tt::combine::all_combinations;
use cfg_tt::find::{find_cfg_attrs, parse_any_attr};
use cfg_tt::reduce::reduce_base_set;
use cfg_tt::splice::splice;
use cfg_tt::token::{tokens_eq, Delim, Token};

fn ident(s: &str) -> Token {
    Token::Ident(s.to_string())
}
fn punct(c: char) -> Token {
    Token::Punct(c, false)
}
fn lit(n: u64) -> Token {
    Token::Lit(proc_macro2::Literal::u64_unsuffixed(n))
}
fn group(d: Delim, ts: Vec<Token>) -> Token {
    Token::Group(d, ts)
}

/// The two tokens of the directive `#[cfg(<meta>)]`.
fn directive(meta: Vec<Token>) -> Vec<Token> {
    let mut inner = vec![ident("cfg")];
    inner.push(group(Delim::Paren, meta));
    vec![punct('#'), group(Delim::Bracket, inner)]
}

fn atom(name: &str) -> Cfg {
    Cfg::Atomic(vec![ident(name)])
}

fn guard_tokens(c: &Cfg) -> Vec<Token> {
    c.to_token_stream()
}

#[test]
fn identity_without_directives() {
    let input = vec![ident("x"), punct('+'), lit(1), group(Delim::Brace, vec![ident("y")])];
    let out = cfg_tt(&input);
    assert!(tokens_eq(&out, &input));
}

#[test]
fn two_atoms_give_four_combinations() {
    let mut input = directive(vec![ident("p")]);
    input.push(ident("x"));
    input.extend(directive(vec![ident("q")]));
    input.push(ident("y"));

    let found = find_cfg_attrs(&input);
    assert_eq!(found.len(), 2);
    let base = reduce_base_set(&found);
    assert_eq!(base.len(), 2);
    let combos = all_combinations(&base);
    assert_eq!(combos.len(), 4);
}

#[test]
fn single_atom_combinations_are_bare_and_excluded_first() {
    let base = vec![atom("p")];
    let combos = all_combinations(&base);
    assert_eq!(combos.len(), 2);
    let not_p = Cfg::Not(Box::new(atom("p")));
    assert!(combos[0].cfg_eq(&not_p));
    assert!(combos[1].cfg_eq(&atom("p")));
}

#[test]
fn active_subset_is_reflexive_and_reads_conjunctions() {
    let p = atom("p");
    let q = atom("q");
    let not_q = Cfg::Not(Box::new(atom("q")));
    let combo = Cfg::All(vec![atom("p"), Cfg::Not(Box::new(atom("q")))]);

    assert!(combo.is_active_subset(&combo));
    assert!(combo.is_active_subset(&p));
    assert!(combo.is_active_subset(&not_q));
    assert!(!combo.is_active_subset(&q));

    let a_or_b = Cfg::Any(vec![atom("a"), atom("b")]);
    assert!(atom("a").is_active_subset(&a_or_b));
    assert!(!a_or_b.is_active_subset(&atom("a")));
}

#[test]
fn base_set_reduction_collapses_negations_and_conjunctions() {
    let found = vec![
        atom("p"),
        Cfg::Not(Box::new(atom("p"))),
        Cfg::All(vec![atom("p"), atom("q")]),
        atom("q"),
    ];
    let base = reduce_base_set(&found);
    assert_eq!(base.len(), 2);
    assert!(base[0].cfg_eq(&atom("p")));
    assert!(base[1].cfg_eq(&atom("q")));
}

#[test]
fn reduction_keeps_underivable_conjunction() {
    let found = vec![atom("p"), Cfg::All(vec![atom("p"), atom("q")])];
    let base = reduce_base_set(&found);
    assert_eq!(base.len(), 2);
    assert!(base[1].cfg_eq(&Cfg::All(vec![atom("p"), atom("q")])));
}

#[test]
fn reduction_unwraps_single_child_lists() {
    let found = vec![Cfg::Any(vec![atom("p")]), Cfg::All(vec![]), Cfg::Any(vec![])];
    let base = reduce_base_set(&found);
    assert_eq!(base.len(), 1);
    assert!(base[0].cfg_eq(&atom("p")));
}

// guarded alternate operators inside one arithmetic expression
#[test]
fn splice_keeps_active_and_drops_inactive() {
    let mut input = vec![ident("left")];
    input.extend(directive(vec![ident("p")]));
    input.push(group(Delim::Paren, vec![punct('+')]));
    input.push(ident("right"));
    input.extend(directive(vec![ident("q")]));
    input.push(group(Delim::Paren, vec![punct('+'), lit(20)]));

    let combos = all_combinations(&reduce_base_set(&find_cfg_attrs(&input)));
    assert_eq!(combos.len(), 4);

    // enumeration is false-first, so index 2 is `p` included, `q` excluded
    let p_not_q = Cfg::All(vec![atom("p"), Cfg::Not(Box::new(atom("q")))]);
    assert!(combos[2].cfg_eq(&p_not_q));

    let v = splice(&input, &combos[2]);
    let expected = vec![ident("left"), punct('+'), ident("right")];
    assert!(tokens_eq(&v, &expected));
}

// a guarded parenthesized fragment is spliced as its bare contents
#[test]
fn splice_unwraps_guarded_group() {
    let mut input = directive(vec![ident("p")]);
    input.push(group(Delim::Paren, vec![lit(10), punct('+')]));
    input.push(lit(1));

    let v = splice(&input, &atom("p"));
    let expected = vec![lit(10), punct('+'), lit(1)];
    assert!(tokens_eq(&v, &expected));
}

#[test]
fn splice_drops_directive_at_end_of_stream() {
    let mut input = vec![ident("x")];
    input.extend(directive(vec![ident("p")]));
    let v = splice(&input, &atom("p"));
    assert!(tokens_eq(&v, &vec![ident("x")]));
}

#[test]
fn splice_passes_unrecognized_prefix_through() {
    // `#` not followed by a cfg attribute is an ordinary token
    let input = vec![punct('#'), ident("x")];
    let v = splice(&input, &atom("p"));
    assert!(tokens_eq(&v, &input));
}

#[test]
fn parse_rejects_multi_argument_directive() {
    let attr_ts = directive(vec![ident("a"), punct(','), ident("b")]);
    let attr = parse_any_attr(&attr_ts).unwrap();
    assert!(Cfg::from_attr(&attr).is_none());
}

#[test]
fn parse_rejects_not_with_two_arguments() {
    let meta = vec![
        ident("not"),
        group(Delim::Paren, vec![ident("a"), punct(','), ident("b")]),
    ];
    let attr_ts = directive(meta);
    let attr = parse_any_attr(&attr_ts).unwrap();
    assert!(Cfg::from_attr(&attr).is_none());
}

#[test]
fn parse_reads_nested_combinators() {
    let meta = vec![
        ident("any"),
        group(
            Delim::Paren,
            vec![
                ident("a"),
                punct(','),
                ident("all"),
                group(Delim::Paren, vec![ident("b"), punct(','), ident("c")]),
            ],
        ),
    ];
    let attr_ts = directive(meta);
    let attr = parse_any_attr(&attr_ts).unwrap();
    let cfg = Cfg::from_attr(&attr).unwrap();
    let expected = Cfg::Any(vec![atom("a"), Cfg::All(vec![atom("b"), atom("c")])]);
    assert!(cfg.cfg_eq(&expected));
}

fn key_value_atom() -> Vec<Token> {
    vec![
        ident("feature"),
        punct('='),
        Token::Lit(proc_macro2::Literal::string("x")),
    ]
}

#[test]
fn parse_accepts_trailing_comma_and_key_value_atoms() {
    // `cfg(feature = "x",)` is one atom
    let mut arg = key_value_atom();
    arg.push(punct(','));
    let attr_ts = directive(arg);
    let attr = parse_any_attr(&attr_ts).unwrap();
    let cfg = Cfg::from_attr(&attr).unwrap();
    assert!(cfg.cfg_eq(&Cfg::Atomic(key_value_atom())));
}

#[test]
fn inner_attribute_variant_parses() {
    let attr_ts = vec![
        punct('#'),
        punct('!'),
        group(
            Delim::Bracket,
            vec![ident("cfg"), group(Delim::Paren, vec![ident("p")])],
        ),
    ];
    let attr = parse_any_attr(&attr_ts).unwrap();
    assert!(attr.inner);
    let cfg = Cfg::from_attr(&attr).unwrap();
    assert!(cfg.cfg_eq(&atom("p")));
}

#[test]
fn attribute_with_other_path_is_no_directive() {
    let attr_ts = vec![
        punct('#'),
        group(Delim::Bracket, vec![ident("derive"), group(Delim::Paren, vec![ident("Debug")])]),
    ];
    let attr = parse_any_attr(&attr_ts).unwrap();
    assert!(Cfg::from_attr(&attr).is_none());
}

#[test]
fn driver_splits_items_and_guards_each() {
    // a directive guarding a group of two definitions: the surviving
    // variant is split into one guarded fragment per definition, and the
    // excluded variant is empty and contributes nothing
    let body = vec![
        ident("fn"),
        ident("a"),
        group(Delim::Paren, vec![]),
        group(Delim::Brace, vec![]),
        ident("fn"),
        ident("b"),
        group(Delim::Paren, vec![]),
        group(Delim::Brace, vec![]),
    ];
    let mut input = directive(vec![ident("p")]);
    input.push(group(Delim::Brace, body));

    let out = cfg_tt(&input);

    let p = atom("p");
    let mut expected = guard_tokens(&p);
    expected.extend(vec![
        ident("fn"),
        ident("a"),
        group(Delim::Paren, vec![]),
        group(Delim::Brace, vec![]),
    ]);
    expected.extend(guard_tokens(&p));
    expected.extend(vec![
        ident("fn"),
        ident("b"),
        group(Delim::Paren, vec![]),
        group(Delim::Brace, vec![]),
    ]);
    assert!(tokens_eq(&out, &expected));
}

#[test]
fn driver_falls_back_to_statements() {
    // `let x = #[cfg(p)] (1 +) 2 ;` is no definition, but is a statement
    let mut input = vec![ident("let"), ident("x"), punct('=')];
    input.extend(directive(vec![ident("p")]));
    input.push(group(Delim::Paren, vec![lit(1), punct('+')]));
    input.push(lit(2));
    input.push(punct(';'));

    let out = cfg_tt(&input);

    let p = atom("p");
    let not_p = Cfg::Not(Box::new(atom("p")));
    let mut expected = guard_tokens(&not_p);
    expected.extend(vec![ident("let"), ident("x"), punct('='), lit(2), punct(';')]);
    expected.extend(guard_tokens(&p));
    expected.extend(vec![
        ident("let"),
        ident("x"),
        punct('='),
        lit(1),
        punct('+'),
        lit(2),
        punct(';'),
    ]);
    assert!(tokens_eq(&out, &expected));
}

#[test]
fn driver_keeps_opaque_fragment_whole() {
    // `+ x` parses as neither definitions nor statements
    let mut input = vec![punct('+')];
    input.extend(directive(vec![ident("p")]));
    input.push(ident("x"));

    let out = cfg_tt(&input);

    let p = atom("p");
    let not_p = Cfg::Not(Box::new(atom("p")));
    let mut expected = guard_tokens(&not_p);
    expected.push(punct('+'));
    expected.extend(guard_tokens(&p));
    expected.push(punct('+'));
    expected.push(ident("x"));
    assert!(tokens_eq(&out, &expected));
}

#[test]
fn other_attributes_pass_through() {
    // a non-directive attribute is ordinary tokens; the directive after it
    // is still recognized
    let mut input = vec![
        punct('#'),
        group(Delim::Bracket, vec![ident("allow"), group(Delim::Paren, vec![ident("dead_code")])]),
    ];
    input.extend(directive(vec![ident("p")]));
    input.push(ident("y"));

    let v = splice(&input, &atom("p"));
    let expected = vec![
        punct('#'),
        group(Delim::Bracket, vec![ident("allow"), group(Delim::Paren, vec![ident("dead_code")])]),
        ident("y"),
    ];
    assert!(tokens_eq(&v, &expected));

    let found = find_cfg_attrs(&input);
    assert_eq!(found.len(), 1);
}

#[test]
fn duplicate_directives_make_one_dimension() {
    let mut input = directive(vec![ident("p")]);
    input.push(ident("x"));
    input.extend(directive(vec![ident("p")]));
    input.push(ident("y"));
    let base = reduce_base_set(&find_cfg_attrs(&input));
    assert_eq!(base.len(), 1);
    let combos = all_combinations(&base);
    assert_eq!(combos.len(), 2);
}

#[test]
fn directives_are_found_inside_groups() {
    let mut inner = directive(vec![ident("q")]);
    inner.push(ident("y"));
    let input = vec![ident("x"), group(Delim::Brace, inner)];
    let found = find_cfg_attrs(&input);
    assert_eq!(found.len(), 1);
    assert!(found[0].cfg_eq(&atom("q")));
}
