use iguana::grammar::symbols::{DefinitionId, Identifier};
use iguana::lsp::symbols::{find_definition_at_offset, GrammarSpans, Span};

fn span(left: u32, right: u32) -> Span {
    Span { left_extent: left, right_extent: right }
}

fn resolved(name: &str, id: u16) -> Identifier {
    let mut identifier = Identifier::new(name);
    identifier.definition = Some(DefinitionId(id));
    identifier
}

fn spans() -> GrammarSpans {
    GrammarSpans {
        definition_spans: vec![(DefinitionId(0), span(0, 4)), (DefinitionId(1), span(10, 14))],
        identifiers: vec![(resolved("B", 1), span(7, 8)), (Identifier::new("C"), span(20, 21))],
    }
}

#[test]
fn a_rule_head_gives_its_definition() {
    assert_eq!(find_definition_at_offset(&spans(), 2), Some(DefinitionId(0)));
    assert_eq!(find_definition_at_offset(&spans(), 10), Some(DefinitionId(1)));
}

#[test]
fn the_right_extent_is_exclusive() {
    assert_eq!(find_definition_at_offset(&spans(), 4), None);
}

#[test]
fn a_reference_gives_what_it_resolves_to() {
    assert_eq!(find_definition_at_offset(&spans(), 7), Some(DefinitionId(1)));
    assert_eq!(find_definition_at_offset(&spans(), 20), None);
}

#[test]
fn nothing_under_the_cursor_gives_none() {
    assert_eq!(find_definition_at_offset(&spans(), 30), None);
}
