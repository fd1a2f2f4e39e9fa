use reckon_nifs::dot::{escape_dot_string, to_dot, to_dot_simple};

#[test]
fn escape_dot_string_escapes_quotes_and_backslashes() {
    assert_eq!(escape_dot_string("plain"), "plain");
    assert_eq!(escape_dot_string("say \"hi\""), "say \\\"hi\\\"");
    assert_eq!(escape_dot_string("a\\b"), "a\\\\b");
    assert_eq!(escape_dot_string("\\\""), "\\\\\\\"");
    assert_eq!(escape_dot_string(""), "");
    assert_eq!(escape_dot_string("caf\u{e9}"), "caf\u{e9}");
}

#[test]
fn full_dot_document() {
    let nodes = vec![
        (b"e1".to_vec(), b"OrderPlaced".to_vec(), b"first".to_vec()),
        (b"e\"2".to_vec(), b"Paid".to_vec(), vec![0xff]),
    ];
    let edges = vec![(b"e1".to_vec(), b"e\"2".to_vec())];
    let expected = "digraph causation {\n  rankdir=TB;\n  node [shape=box, style=rounded];\n\n  \"e1\" [label=\"first\\nOrderPlaced\"];\n  \"e\\\"2\" [label=\"?\\nPaid\"];\n\n  \"e1\" -> \"e\\\"2\";\n}\n";
    assert_eq!(to_dot(&nodes, &edges), expected);
}

#[test]
fn simple_dot_document() {
    let nodes = vec![(b"a".to_vec(), b"Created".to_vec()), (b"b".to_vec(), b"Updated".to_vec())];
    let edges = vec![(b"a".to_vec(), b"b".to_vec()), (vec![0xc3], b"b".to_vec())];
    let expected = "digraph causation {\n  rankdir=TB;\n  node [shape=box, style=rounded];\n\n  \"a\" [label=\"Created\"];\n  \"b\" [label=\"Updated\"];\n\n  \"a\" -> \"b\";\n  \"?\" -> \"b\";\n}\n";
    assert_eq!(to_dot_simple(&nodes, &edges), expected);
}

#[test]
fn empty_dot_document() {
    let expected = "digraph causation {\n  rankdir=TB;\n  node [shape=box, style=rounded];\n\n\n}\n";
    assert_eq!(to_dot(&[], &[]), expected);
    assert_eq!(to_dot_simple(&[], &[]), expected);
}

fn unescape(t: &str) -> String {
    let mut out = String::new();
    let mut chars = t.chars();
    while let Some(c) = chars.next() {
        if c == '\\' {
            match chars.next() {
                Some(d) => out.push(d),
                None => out.push(c),
            }
        } else {
            out.push(c);
        }
    }
    out
}

fn well_escaped(t: &str) -> bool {
    let mut chars = t.chars();
    while let Some(c) = chars.next() {
        if c == '\\' {
            match chars.next() {
                Some('\\') | Some('"') => {}
                _ => return false,
            }
        } else if c == '"' {
            return false;
        }
    }
    true
}

#[test]
fn escaping_reads_back_and_leaves_no_bare_quote() {
    for s in ["", "plain", "a\"b", "\\", "\\\"", "\"\"\\\\x", "end\\"] {
        let e = escape_dot_string(s);
        assert_eq!(unescape(&e), s);
        assert!(well_escaped(&e));
    }
    assert_ne!(escape_dot_string("a\\\""), escape_dot_string("a\"\\"));
}
