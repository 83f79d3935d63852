use iguana::grammar::phase::Phase;

#[test]
fn phases_parse_from_their_tokens() {
    for phase in Phase::all() {
        assert_eq!(phase.token().parse::<Phase>(), Ok(phase));
    }
    assert_eq!("ebnf".parse::<Phase>(), Ok(Phase::Ebnf));
    assert_eq!(
        "nope".parse::<Phase>(),
        Err("unknown phase `nope`".to_string())
    );
    assert_eq!(Phase::from_token("layout"), Ok(Phase::Layout));
}
