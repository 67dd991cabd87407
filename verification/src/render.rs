use vstd::prelude::*;
use crate::graph::GraphView;

verus! {

/// A quote or backslash is prefixed with a backslash; every other character
/// stands verbatim.
pub open spec fn esc_char(c: char) -> Seq<char> {
    if c == '"' || c == '\\' {
        seq!['\\', c]
    } else {
        seq![c]
    }
}

/// A string escaped for a double-quoted label: embedded quotes and
/// backslashes are escaped, nothing else changes.
pub open spec fn escape_chars(s: Seq<char>) -> Seq<char>
    decreases s.len(),
{
    if s.len() == 0 {
        Seq::<char>::empty()
    } else {
        escape_chars(s.drop_last()) + esc_char(s.last())
    }
}

/// The decimal digit `d` as a character.
pub open spec fn digit_char(d: nat) -> char {
    if d == 0 {
        '0'
    } else if d == 1 {
        '1'
    } else if d == 2 {
        '2'
    } else if d == 3 {
        '3'
    } else if d == 4 {
        '4'
    } else if d == 5 {
        '5'
    } else if d == 6 {
        '6'
    } else if d == 7 {
        '7'
    } else if d == 8 {
        '8'
    } else {
        '9'
    }
}

/// The decimal numeral of `n`, most significant digit first, no leading
/// zeroes (a single `0` for zero).
pub open spec fn dec_chars(n: nat) -> Seq<char>
    decreases n,
{
    if n < 10 {
        seq![digit_char(n)]
    } else {
        dec_chars(n / 10).push(digit_char(n % 10))
    }
}

/// A character acceptable inside a bare graph identifier: an ASCII letter, an
/// ASCII digit or an underscore.
pub open spec fn is_id_char(c: char) -> bool {
    let u = c as u32;
    (97 <= u && u <= 122) || (65 <= u && u <= 90) || (48 <= u && u <= 57) || u == 95
}

/// An ASCII decimal digit.
pub open spec fn is_digit_char(c: char) -> bool {
    let u = c as u32;
    48 <= u && u <= 57
}

/// The characters of `s` that may stand in a bare identifier, in order.
pub open spec fn kept_chars(s: Seq<char>) -> Seq<char>
    decreases s.len(),
{
    if s.len() == 0 {
        Seq::<char>::empty()
    } else if is_id_char(s.last()) {
        kept_chars(s.drop_last()).push(s.last())
    } else {
        kept_chars(s.drop_last())
    }
}

/// The identifier used when the root's name yields no valid one.
pub open spec fn fallback_id() -> Seq<char> {
    "dependencies"@
}

/// The graph identifier: the root's name sanitized to its identifier
/// characters; where nothing valid is left, or the remainder would open with
/// a digit, the fixed fallback identifier.
pub open spec fn graph_id_chars(name: Seq<char>) -> Seq<char> {
    let k = kept_chars(name);
    if k.len() == 0 || is_digit_char(k[0]) {
        fallback_id()
    } else {
        k
    }
}

/// The synthetic node identifier `N` followed by the node's index.
pub open spec fn node_id_chars(i: nat) -> Seq<char> {
    seq!['N'] + dec_chars(i)
}

/// What the label of node `i` shows before escaping: the package's name, or
/// its source location when source-labeling is selected.
pub open spec fn label_chars(g: GraphView, i: int) -> Seq<char> {
    if g.source_labels {
        g.nodes[i].source
    } else {
        g.nodes[i].name
    }
}

/// The statement declaring node `i` with its label.
pub open spec fn node_line(g: GraphView, i: int) -> Seq<char> {
    "    "@ + node_id_chars(i as nat) + " [label=\""@ + escape_chars(label_chars(g, i))
        + "\"];\n"@
}

/// The node statements for nodes `0 .. n`, in node order.
pub open spec fn node_lines(g: GraphView, n: int) -> Seq<char>
    decreases n,
{
    if n <= 0 {
        Seq::<char>::empty()
    } else {
        node_lines(g, n - 1) + node_line(g, n - 1)
    }
}

/// The arrow statement of edge `j`.
pub open spec fn edge_line(g: GraphView, j: int) -> Seq<char> {
    "    "@ + node_id_chars(g.edges[j].0 as nat) + " -> "@ + node_id_chars(g.edges[j].1 as nat)
        + ";\n"@
}

/// The edge statements for edges `0 .. n`, in storage order.
pub open spec fn edge_lines(g: GraphView, n: int) -> Seq<char>
    decreases n,
{
    if n <= 0 {
        Seq::<char>::empty()
    } else {
        edge_lines(g, n - 1) + edge_line(g, n - 1)
    }
}

/// The whole document: one directed-graph block holding the identifier, the
/// node statements in node order, then the edge statements in edge order.
pub open spec fn render_chars(g: GraphView) -> Seq<char> {
    "digraph "@ + graph_id_chars(g.nodes[0].name) + " {\n"@ + node_lines(g, g.nodes.len() as int)
        + edge_lines(g, g.edges.len() as int) + "}\n"@
}

/// Escapes a label string: quotes and backslashes get a backslash prefix,
/// every other character is kept verbatim.
pub fn escape_label(s: &str) -> (r: String)
    ensures
        r@ == escape_chars(s@),
{
    let n: usize = s.unicode_len();
    let mut out: String = String::new();
    let mut i: usize = 0;
    while i < n
        invariant
            n == s@.len(),
            i <= n,
            out@ == escape_chars(s@.take(i as int)),
        decreases n - i,
    {
        let c: char = s.get_char(i);
        if c == '"' || c == '\\' {
            out.append("\\");
            proof {
                reveal_strlit("\\");
            }
        }
        let piece: &str = s.substring_char(i, i + 1);
        out.append(piece);
        proof {
            assert(piece@ =~= seq![s@[i as int]]);
            assert(s@.take(i as int + 1).drop_last() =~= s@.take(i as int));
            assert(s@.take(i as int + 1).last() == s@[i as int]);
            assert(out@ =~= escape_chars(s@.take(i as int + 1)));
        }
        i += 1;
    }
    proof {
        assert(s@.take(n as int) =~= s@);
    }
    out
}

/// Keeps of `s` exactly the characters valid inside a bare identifier.
pub fn sanitize_id(s: &str) -> (r: String)
    ensures
        r@ == kept_chars(s@),
{
    let n: usize = s.unicode_len();
    let mut out: String = String::new();
    let mut i: usize = 0;
    while i < n
        invariant
            n == s@.len(),
            i <= n,
            out@ == kept_chars(s@.take(i as int)),
        decreases n - i,
    {
        let c: char = s.get_char(i);
        let u: u32 = c as u32;
        if (97 <= u && u <= 122) || (65 <= u && u <= 90) || (48 <= u && u <= 57) || u == 95 {
            let piece: &str = s.substring_char(i, i + 1);
            out.append(piece);
            proof {
                assert(piece@ =~= seq![s@[i as int]]);
            }
        }
        proof {
            assert(s@.take(i as int + 1).drop_last() =~= s@.take(i as int));
            assert(s@.take(i as int + 1).last() == s@[i as int]);
            assert(out@ =~= kept_chars(s@.take(i as int + 1)));
        }
        i += 1;
    }
    proof {
        assert(s@.take(n as int) =~= s@);
    }
    out
}

/// Appends one decimal digit.
fn append_digit(out: &mut String, d: usize)
    requires
        d < 10,
    ensures
        final(out)@ == old(out)@ + seq![digit_char(d as nat)],
{
    if d == 0 {
        out.append("0");
        proof {
            reveal_strlit("0");
        }
    } else if d == 1 {
        out.append("1");
        proof {
            reveal_strlit("1");
        }
    } else if d == 2 {
        out.append("2");
        proof {
            reveal_strlit("2");
        }
    } else if d == 3 {
        out.append("3");
        proof {
            reveal_strlit("3");
        }
    } else if d == 4 {
        out.append("4");
        proof {
            reveal_strlit("4");
        }
    } else if d == 5 {
        out.append("5");
        proof {
            reveal_strlit("5");
        }
    } else if d == 6 {
        out.append("6");
        proof {
            reveal_strlit("6");
        }
    } else if d == 7 {
        out.append("7");
        proof {
            reveal_strlit("7");
        }
    } else if d == 8 {
        out.append("8");
        proof {
            reveal_strlit("8");
        }
    } else {
        out.append("9");
        proof {
            reveal_strlit("9");
        }
    }
    proof {
        assert(final(out)@ =~= old(out)@ + seq![digit_char(d as nat)]);
    }
}

/// Under name-labeling every node's rendered label is the package's name,
/// escaped and otherwise verbatim; under source-labeling it is the package's
/// source location, escaped the same way. Escaping is the label's only
/// transformation: no truncation, no case change.
pub proof fn lemma_label_follows_mode(g: GraphView, i: int)
    requires
        0 <= i < g.nodes.len(),
    ensures
        !g.source_labels ==> node_line(g, i) == "    "@ + node_id_chars(i as nat) + " [label=\""@
            + escape_chars(g.nodes[i].name) + "\"];\n"@,
        g.source_labels ==> node_line(g, i) == "    "@ + node_id_chars(i as nat) + " [label=\""@
            + escape_chars(g.nodes[i].source) + "\"];\n"@,
{
}

/// A label without embedded quotes or backslashes is rendered exactly as it
/// stands: on such strings escaping changes nothing.
pub proof fn lemma_escape_verbatim(s: Seq<char>)
    requires
        forall|i: int| 0 <= i < s.len() ==> s[i] != '"' && s[i] != '\\',
    ensures
        escape_chars(s) == s,
    decreases s.len(),
{
    if s.len() > 0 {
        lemma_escape_verbatim(s.drop_last());
        assert(escape_chars(s) =~= s);
    }
}

/// Rendering is a function of the graph value alone: one and the same graph
/// value always yields byte-identical text, however often it is rendered.
pub proof fn lemma_render_deterministic(g1: GraphView, g2: GraphView)
    requires
        g1 == g2,
    ensures
        render_chars(g1) == render_chars(g2),
{
}

/// Appends the decimal numeral of `n`.
pub fn append_dec(out: &mut String, n: usize)
    ensures
        final(out)@ == old(out)@ + dec_chars(n as nat),
    decreases n,
{
    if n >= 10 {
        append_dec(out, n / 10);
    }
    append_digit(out, n % 10);
    proof {
        if n < 10 {
            assert(dec_chars(n as nat) =~= seq![digit_char((n % 10) as nat)]);
        } else {
            assert(dec_chars(n as nat) == dec_chars((n / 10) as nat).push(
                digit_char((n % 10) as nat),
            ));
            assert(final(out)@ =~= old(out)@ + dec_chars(n as nat));
        }
    }
}

} // verus!
