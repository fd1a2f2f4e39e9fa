//! Graphviz DOT export of causation graphs.
use vstd::prelude::*;
use vstd::utf8::{decode_utf8, valid_utf8};

use crate::filter::{push_char, utf8_text};

verus! {

/// DOT escaping of one character: backslash and double quote get a backslash.
pub open spec fn dot_escape_char(c: char) -> Seq<char> {
    if c == '\\' {
        seq!['\\', '\\']
    } else if c == '"' {
        seq!['\\', '"']
    } else {
        seq![c]
    }
}

/// `s` with every backslash doubled and every double quote escaped.
pub open spec fn dot_escaped(s: Seq<char>) -> Seq<char>
    decreases s.len(),
{
    if s.len() == 0 {
        Seq::empty()
    } else {
        dot_escaped(s.drop_last()) + dot_escape_char(s.last())
    }
}

/// Reads escaped DOT text left to right: a backslash followed by a
/// character stands for that character; any other character for itself.
pub open spec fn dot_unescaped(t: Seq<char>) -> Seq<char>
    decreases t.len(),
{
    if t.len() == 0 {
        Seq::empty()
    } else if t[0] == '\\' && t.len() >= 2 {
        seq![t[1]] + dot_unescaped(t.skip(2))
    } else {
        seq![t[0]] + dot_unescaped(t.skip(1))
    }
}

/// Read left to right, every backslash starts a pair with a second
/// backslash or a double quote, and no double quote stands on its own.
pub open spec fn dot_well_escaped(t: Seq<char>) -> bool
    decreases t.len(),
{
    if t.len() == 0 {
        true
    } else if t[0] == '\\' {
        t.len() >= 2 && (t[1] == '\\' || t[1] == '"') && dot_well_escaped(t.skip(2))
    } else {
        t[0] != '"' && dot_well_escaped(t.skip(1))
    }
}

/// Escaping a character in front of a string.
proof fn lemma_escaped_cons(c: char, s: Seq<char>)
    ensures
        dot_escaped(seq![c] + s) == dot_escape_char(c) + dot_escaped(s),
    decreases s.len(),
{
    if s.len() == 0 {
        assert((seq![c] + s).drop_last() =~= Seq::<char>::empty());
        assert(dot_escaped(Seq::<char>::empty()) == Seq::<char>::empty());
        assert(dot_escape_char(c) + Seq::<char>::empty() =~= dot_escape_char(c));
    } else {
        lemma_escaped_cons(c, s.drop_last());
        assert((seq![c] + s).drop_last() =~= seq![c] + s.drop_last());
        assert((seq![c] + s).last() == s.last());
    }
}

/// Escaped text reads back, and is well escaped.
proof fn lemma_escape_reads_back(s: Seq<char>)
    ensures
        dot_unescaped(dot_escaped(s)) == s,
        dot_well_escaped(dot_escaped(s)),
    decreases s.len(),
{
    if s.len() > 0 {
        let c = s[0];
        let rest = s.skip(1);
        assert(s =~= seq![c] + rest);
        lemma_escaped_cons(c, rest);
        lemma_escape_reads_back(rest);
        let e = dot_escaped(rest);
        let t = dot_escaped(s);
        assert(t == dot_escape_char(c) + e);
        if c == '\\' || c == '"' {
            assert(t.skip(2) =~= e);
            assert(t[0] == '\\' && t[1] == c);
        } else {
            assert(t.skip(1) =~= e);
            assert(t[0] == c);
        }
        assert(dot_unescaped(t) =~= s);
    }
}

/// Escaped DOT text reads back as the text it came from, and has no bare
/// double quote; so two texts with the same escaping are equal.
pub proof fn law_dot_escape_reversible(s: Seq<char>)
    ensures
        dot_unescaped(dot_escaped(s)) == s,
        dot_well_escaped(dot_escaped(s)),
        forall|s2: Seq<char>| dot_escaped(s2) == dot_escaped(s) ==> s2 == s,
{
    lemma_escape_reads_back(s);
    assert forall|s2: Seq<char>| dot_escaped(s2) == dot_escaped(s) implies s2 == s by {
        lemma_escape_reads_back(s2);
    }
}

/// The text of a UTF-8 field, or `?` when it is not UTF-8.
pub open spec fn text_or_unknown(b: Seq<u8>) -> Seq<char> {
    if valid_utf8(b) {
        decode_utf8(b)
    } else {
        "?"@
    }
}

/// A field as it appears in the DOT text.
pub open spec fn dot_field(b: Seq<u8>) -> Seq<char> {
    dot_escaped(text_or_unknown(b))
}

/// The pieces joined end to end.
pub open spec fn concat_all(pieces: Seq<Seq<char>>) -> Seq<char>
    decreases pieces.len(),
{
    if pieces.len() == 0 {
        Seq::empty()
    } else {
        concat_all(pieces.drop_last()) + pieces.last()
    }
}

/// The opening of every DOT document.
pub open spec fn dot_header() -> Seq<char> {
    "digraph causation {\n  rankdir=TB;\n  node [shape=box, style=rounded];\n\n"@
}

/// The line of an edge.
pub open spec fn dot_edge_line(from: Seq<u8>, to: Seq<u8>) -> Seq<char> {
    "  \""@ + dot_field(from) + "\" -> \""@ + dot_field(to) + "\";\n"@
}

/// The line of a node with a label and a type.
pub open spec fn dot_node_line(id: Seq<u8>, event_type: Seq<u8>, label: Seq<u8>) -> Seq<char> {
    "  \""@ + dot_field(id) + "\" [label=\""@ + dot_field(label) + "\\n"@ + dot_field(event_type)
        + "\"];\n"@
}

/// The line of a node labelled with its type only.
pub open spec fn dot_simple_node_line(id: Seq<u8>, event_type: Seq<u8>) -> Seq<char> {
    "  \""@ + dot_field(id) + "\" [label=\""@ + dot_field(event_type) + "\"];\n"@
}

/// `f` is how a field with the bytes `b` stands between quotes: well
/// escaped, reading back as the bytes' UTF-8 text, or `?` when they are not
/// UTF-8.
pub open spec fn quotes_field(f: Seq<char>, b: Seq<u8>) -> bool {
    &&& dot_well_escaped(f)
    &&& valid_utf8(b) ==> dot_unescaped(f) == decode_utf8(b)
    &&& !valid_utf8(b) ==> dot_unescaped(f) == seq!['?']
}

proof fn lemma_field_quoted(b: Seq<u8>)
    ensures
        quotes_field(dot_field(b), b),
{
    law_dot_escape_reversible(text_or_unknown(b));
    reveal_strlit("?");
}

/// Every quoted field of a node line (id, label and type) is well escaped
/// and reads back as the field's text.
pub proof fn law_node_line_fields(id: Seq<u8>, event_type: Seq<u8>, label: Seq<u8>)
    ensures
        exists|fi: Seq<char>, fl: Seq<char>, ft: Seq<char>|
            #![trigger quotes_field(fi, id), quotes_field(fl, label), quotes_field(ft, event_type)]
            dot_node_line(id, event_type, label) == "  \""@ + fi + "\" [label=\""@ + fl + "\\n"@
                + ft + "\"];\n"@ && quotes_field(fi, id) && quotes_field(fl, label) && quotes_field(
                ft,
                event_type,
            ),
{
    lemma_field_quoted(id);
    lemma_field_quoted(label);
    lemma_field_quoted(event_type);
}

/// Both quoted fields of a simple node line are well escaped and read back
/// as the fields' text.
pub proof fn law_simple_node_line_fields(id: Seq<u8>, event_type: Seq<u8>)
    ensures
        exists|fi: Seq<char>, ft: Seq<char>|
            #![trigger quotes_field(fi, id), quotes_field(ft, event_type)]
            dot_simple_node_line(id, event_type) == "  \""@ + fi + "\" [label=\""@ + ft
                + "\"];\n"@ && quotes_field(fi, id) && quotes_field(ft, event_type),
{
    lemma_field_quoted(id);
    lemma_field_quoted(event_type);
}

/// Both quoted ends of an edge line are well escaped and read back as the
/// ids' text.
pub proof fn law_edge_line_fields(from: Seq<u8>, to: Seq<u8>)
    ensures
        exists|ff: Seq<char>, ft: Seq<char>|
            #![trigger quotes_field(ff, from), quotes_field(ft, to)]
            dot_edge_line(from, to) == "  \""@ + ff + "\" -> \""@ + ft + "\";\n"@ && quotes_field(
                ff,
                from,
            ) && quotes_field(ft, to),
{
    lemma_field_quoted(from);
    lemma_field_quoted(to);
}

/// The DOT document with the given node lines and the edges.
pub open spec fn dot_document(node_lines: Seq<Seq<char>>, edges: Seq<(Vec<u8>, Vec<u8>)>) -> Seq<
    char,
> {
    dot_header() + concat_all(node_lines) + "\n"@ + concat_all(
        edges.map_values(|e: (Vec<u8>, Vec<u8>)| dot_edge_line(e.0@, e.1@)),
    ) + "}\n"@
}

/// Escapes backslashes and double quotes for a DOT string.
pub fn escape_dot_string(s: &str) -> (r: String)
    ensures
        r@ == dot_escaped(s@),
{
    let mut result = String::new();
    let ghost p = s@;
    let mut done: Ghost<Seq<char>> = Ghost(Seq::empty());
    assert(p.take(0) =~= Seq::<char>::empty());
    assert(result@ =~= Seq::<char>::empty());
    for c in it: s.chars()
        invariant
            it.seq() == p,
            done@ == p.take(it.index()),
            result@ == dot_escaped(done@),
    {
        proof {
            assert(p.take(it.index() + 1).drop_last() =~= p.take(it.index()));
        }
        let ghost before = result@;
        if c == '\\' {
            push_char(&mut result, '\\');
            push_char(&mut result, '\\');
        } else if c == '"' {
            push_char(&mut result, '\\');
            push_char(&mut result, '"');
        } else {
            push_char(&mut result, c);
        }
        proof {
            done@ = p.take(it.index() + 1);
            assert(done@.last() == c);
            assert(result@ =~= before + dot_escape_char(c));
        }
    }
    assert(p.take(p.len() as int) =~= p);
    result
}

/// The escaped text of a field.
fn field_text(b: &[u8]) -> (r: String)
    ensures
        r@ == dot_field(b@),
{
    match utf8_text(b) {
        Some(t) => escape_dot_string(t),
        None => escape_dot_string("?"),
    }
}

/// Appends the edge lines and the closing brace.
fn finish_document(dot: &mut String, edges: &[(Vec<u8>, Vec<u8>)])
    ensures
        final(dot)@ == old(dot)@ + "\n"@ + concat_all(
            edges@.map_values(|e: (Vec<u8>, Vec<u8>)| dot_edge_line(e.0@, e.1@)),
        ) + "}\n"@,
{
    let ghost start = dot@;
    let ghost lines = edges@.map_values(|e: (Vec<u8>, Vec<u8>)| dot_edge_line(e.0@, e.1@));
    dot.append("\n");
    let mut i: usize = 0;
    assert(lines.take(0) =~= Seq::<Seq<char>>::empty());
    while i < edges.len()
        invariant
            i <= edges@.len(),
            lines == edges@.map_values(|e: (Vec<u8>, Vec<u8>)| dot_edge_line(e.0@, e.1@)),
            dot@ == start + "\n"@ + concat_all(lines.take(i as int)),
        decreases edges@.len() - i,
    {
        let from = field_text(edges[i].0.as_slice());
        let to = field_text(edges[i].1.as_slice());
        dot.append("  \"");
        dot.append(from.as_str());
        dot.append("\" -> \"");
        dot.append(to.as_str());
        dot.append("\";\n");
        assert(lines.take(i + 1).drop_last() =~= lines.take(i as int));
        assert(lines.take(i + 1).last() == dot_edge_line(edges@[i as int].0@, edges@[i as int].1@));
        i = i + 1;
    }
    assert(lines.take(edges@.len() as int) =~= lines);
    dot.append("}\n");
}

/// The DOT document of a causation graph whose nodes are
/// `(event_id, event_type, label)`; each node is labelled with its label and
/// type on two lines.  Fields that are not UTF-8 appear as `?`.
pub fn to_dot(nodes: &[(Vec<u8>, Vec<u8>, Vec<u8>)], edges: &[(Vec<u8>, Vec<u8>)]) -> (r: String)
    ensures
        r@ == dot_document(
            nodes@.map_values(
                |n: (Vec<u8>, Vec<u8>, Vec<u8>)| dot_node_line(n.0@, n.1@, n.2@),
            ),
            edges@,
        ),
{
    let ghost lines = nodes@.map_values(
        |n: (Vec<u8>, Vec<u8>, Vec<u8>)| dot_node_line(n.0@, n.1@, n.2@),
    );
    let mut dot = String::new();
    dot.append("digraph causation {\n  rankdir=TB;\n  node [shape=box, style=rounded];\n\n");
    let mut i: usize = 0;
    assert(lines.take(0) =~= Seq::<Seq<char>>::empty());
    while i < nodes.len()
        invariant
            i <= nodes@.len(),
            lines == nodes@.map_values(
                |n: (Vec<u8>, Vec<u8>, Vec<u8>)| dot_node_line(n.0@, n.1@, n.2@),
            ),
            dot@ == dot_header() + concat_all(lines.take(i as int)),
        decreases nodes@.len() - i,
    {
        let id = field_text(nodes[i].0.as_slice());
        let event_type = field_text(nodes[i].1.as_slice());
        let label = field_text(nodes[i].2.as_slice());
        dot.append("  \"");
        dot.append(id.as_str());
        dot.append("\" [label=\"");
        dot.append(label.as_str());
        dot.append("\\n");
        dot.append(event_type.as_str());
        dot.append("\"];\n");
        assert(lines.take(i + 1).drop_last() =~= lines.take(i as int));
        i = i + 1;
    }
    assert(lines.take(nodes@.len() as int) =~= lines);
    finish_document(&mut dot, edges);
    dot
}

/// The DOT document of a causation graph whose nodes are
/// `(event_id, event_type)`, each labelled with its type.  Fields that are
/// not UTF-8 appear as `?`.
pub fn to_dot_simple(nodes: &[(Vec<u8>, Vec<u8>)], edges: &[(Vec<u8>, Vec<u8>)]) -> (r: String)
    ensures
        r@ == dot_document(
            nodes@.map_values(|n: (Vec<u8>, Vec<u8>)| dot_simple_node_line(n.0@, n.1@)),
            edges@,
        ),
{
    let ghost lines = nodes@.map_values(
        |n: (Vec<u8>, Vec<u8>)| dot_simple_node_line(n.0@, n.1@),
    );
    let mut dot = String::new();
    dot.append("digraph causation {\n  rankdir=TB;\n  node [shape=box, style=rounded];\n\n");
    let mut i: usize = 0;
    assert(lines.take(0) =~= Seq::<Seq<char>>::empty());
    while i < nodes.len()
        invariant
            i <= nodes@.len(),
            lines == nodes@.map_values(|n: (Vec<u8>, Vec<u8>)| dot_simple_node_line(n.0@, n.1@)),
            dot@ == dot_header() + concat_all(lines.take(i as int)),
        decreases nodes@.len() - i,
    {
        let id = field_text(nodes[i].0.as_slice());
        let event_type = field_text(nodes[i].1.as_slice());
        dot.append("  \"");
        dot.append(id.as_str());
        dot.append("\" [label=\"");
        dot.append(event_type.as_str());
        dot.append("\"];\n");
        assert(lines.take(i + 1).drop_last() =~= lines.take(i as int));
        i = i + 1;
    }
    assert(lines.take(nodes@.len() as int) =~= lines);
    finish_document(&mut dot, edges);
    dot
}

} // verus!
