use iguana::lsp::format::wrap_chunks;

#[test]
fn test_wrap_chunks_short() {
    let chunks: Vec<String> = vec!["A", "B", "C"].into_iter().map(String::from).collect();
    let lines = wrap_chunks("  = ", &chunks, "      ", 100);
    assert_eq!(lines, vec!["  = A B C"]);
}

#[test]
fn test_wrap_chunks_long() {
    let chunks: Vec<String> = vec!["A", "B", "C", "D", "E", "F"]
        .into_iter()
        .map(String::from)
        .collect();
    let lines = wrap_chunks("  = ", &chunks, "      ", 12);
    assert_eq!(lines.len(), 2);
    assert!(lines[0].starts_with("  = "));
    assert!(lines[1].starts_with("      "));
}

#[test]
fn test_wrap_chunks_preserves_atomic_symbol() {
    // A symbol like { A "," }+ should never be split
    let chunks: Vec<String> = vec!["AAAA", "{ B \",\" }+", "CCCC"]
        .into_iter()
        .map(String::from)
        .collect();
    let lines = wrap_chunks("  = ", &chunks, "      ", 20);
    // { B "," }+ must appear intact on one line
    let joined = lines.join("\n");
    assert!(
        joined.contains("{ B \",\" }+"),
        "separator list symbol was split: {lines:?}"
    );
}

#[test]
fn wrapping_breaks_only_between_chunks() {
    let chunks: Vec<String> = vec!["A", "B", "C", "D", "E", "F"].into_iter().map(String::from).collect();
    let lines = wrap_chunks("  = ", &chunks, "      ", 12);
    assert_eq!(lines, vec!["  = A B C D", "      E F"]);
}

#[test]
fn a_chunk_wider_than_the_limit_stays_whole() {
    let chunks: Vec<String> = vec!["LONGCHUNK", "X"].into_iter().map(String::from).collect();
    let lines = wrap_chunks("= ", &chunks, "  ", 4);
    assert_eq!(lines, vec!["= LONGCHUNK", "  X"]);
}

#[test]
fn widths_count_characters_not_bytes() {
    let chunks: Vec<String> = vec!["café", "é"].into_iter().map(String::from).collect();
    let lines = wrap_chunks("", &chunks, "", 6);
    assert_eq!(lines, vec!["café é"]);
}

#[test]
fn no_chunks_give_the_prefix_alone() {
    let chunks: Vec<String> = Vec::new();
    assert_eq!(wrap_chunks("  = ", &chunks, "    ", 80), vec!["  = "]);
}

#[test]
fn wrapped_lines_are_consecutive_runs_of_chunks() {
    let chunks: Vec<String> = (0..20).map(|i| format!("Sym{}", i)).collect();
    let lines = wrap_chunks("  = ", &chunks, "      ", 30);
    assert!(lines.len() > 1);
    let mut rebuilt: Vec<String> = Vec::new();
    for (k, line) in lines.iter().enumerate() {
        let lead = if k == 0 { "  = " } else { "      " };
        assert!(line.starts_with(lead));
        rebuilt.extend(line[lead.len()..].split(' ').map(String::from));
    }
    assert_eq!(rebuilt, chunks);
}
