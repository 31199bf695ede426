//! The graph serializer: renders a dependency graph either as a structured
//! node/edge document, or as a visualization-oriented directed-graph
//! description whose arcs carry no labels. Every field is written as a
//! double-quoted token with backslash escapes, so the documents stay
//! unambiguous whatever the names hold. Rendering only produces text;
//! printing or persisting it is the caller's business.

use vstd::prelude::*;
use crate::graph::{CatGraph, GraphEdge, ManifestNode};
use crate::manifest::DependencyProtocol;

verus! {

/// Which of the two output formats `render` produces.
#[derive(Clone, Copy, PartialEq, Eq, Structural)]
pub enum RenderMode {
    /// A lossless structured document of vertices and arcs.
    Structured,
    /// A directed-graph description with arc labels suppressed.
    Visualization,
}

pub open spec fn protocol_str(p: DependencyProtocol) -> Seq<char> {
    match p {
        DependencyProtocol::Http => "http"@,
        DependencyProtocol::Grpc => "grpc"@,
        DependencyProtocol::Other => "other"@,
    }
}

/// Backslash, double quote and newline are escaped; everything else is
/// written as it is.
pub open spec fn escaped_char(c: char) -> Seq<char> {
    if c == '\\' {
        seq!['\\', '\\']
    } else if c == '"' {
        seq!['\\', '"']
    } else if c == '\n' {
        seq!['\\', 'n']
    } else {
        seq![c]
    }
}

pub open spec fn escaped(s: Seq<char>) -> Seq<char>
    decreases s.len(),
{
    if s.len() == 0 {
        Seq::empty()
    } else {
        escaped(s.drop_last()) + escaped_char(s.last())
    }
}

/// A field as written: double-quoted, with its text escaped.
pub open spec fn quoted(s: Seq<char>) -> Seq<char> {
    seq!['"'] + escaped(s) + seq!['"']
}

/// An optional field is written as its quoted text, or as `~` when absent.
pub open spec fn opt_str(o: Option<String>) -> Seq<char> {
    match o {
        Some(s) => quoted(s@),
        None => "~"@,
    }
}

pub open spec fn node_lines(nodes: Seq<ManifestNode>) -> Seq<char>
    decreases nodes.len(),
{
    if nodes.len() == 0 {
        Seq::empty()
    } else {
        node_lines(nodes.drop_last()) + "- "@ + quoted(nodes.last().name@) + "\n"@
    }
}

pub open spec fn edge_block(g: CatGraph, e: GraphEdge) -> Seq<char>
    recommends
        (e.from as int) < g.nodes@.len() && (e.to as int) < g.nodes@.len(),
{
    "- from: "@ + quoted(g.nodes@[e.from as int].name@) + "\n  to: "@ + quoted(
        g.nodes@[e.to as int].name@,
    ) + "\n  api: "@ + quoted(e.edge.api@) + "\n  contract: "@ + opt_str(e.edge.contract)
        + "\n  protocol: "@ + protocol_str(e.edge.protocol) + "\n  intent: "@ + opt_str(
        e.edge.intent,
    ) + "\n"@
}

pub open spec fn edge_lines(g: CatGraph, edges: Seq<GraphEdge>) -> Seq<char>
    decreases edges.len(),
{
    if edges.len() == 0 {
        Seq::empty()
    } else {
        edge_lines(g, edges.drop_last()) + edge_block(g, edges.last())
    }
}

/// The structured document: the vertex list, then the arc list, both in
/// insertion order.
pub open spec fn structured_doc(g: CatGraph) -> Seq<char> {
    "nodes:\n"@ + node_lines(g.nodes@) + "edges:\n"@ + edge_lines(g, g.edges@)
}

pub open spec fn viz_node_lines(nodes: Seq<ManifestNode>) -> Seq<char>
    decreases nodes.len(),
{
    if nodes.len() == 0 {
        Seq::empty()
    } else {
        viz_node_lines(nodes.drop_last()) + "    "@ + quoted(nodes.last().name@) + ";\n"@
    }
}

pub open spec fn viz_edge_lines(g: CatGraph, edges: Seq<GraphEdge>) -> Seq<char>
    decreases edges.len(),
{
    if edges.len() == 0 {
        Seq::empty()
    } else {
        viz_edge_lines(g, edges.drop_last()) + "    "@ + quoted(
            g.nodes@[edges.last().from as int].name@,
        ) + " -> "@ + quoted(g.nodes@[edges.last().to as int].name@) + ";\n"@
    }
}

/// The visualization document: a directed graph whose arcs carry no labels.
pub open spec fn viz_doc(g: CatGraph) -> Seq<char> {
    "digraph {\n"@ + viz_node_lines(g.nodes@) + viz_edge_lines(g, g.edges@) + "}\n"@
}

/// Append `s` as a double-quoted, escaped token.
fn push_quoted(out: &mut String, s: &str)
    ensures
        final(out)@ == old(out)@ + quoted(s@),
{
    proof {
        reveal_strlit("\"");
        assert(s@.take(0) =~= Seq::<char>::empty());
    }
    out.append("\"");
    let n = s.unicode_len();
    let mut i: usize = 0;
    while i < n
        invariant
            i <= n,
            n == s@.len(),
            out@ == old(out)@ + seq!['"'] + escaped(s@.take(i as int)),
        decreases n - i,
    {
        proof {
            reveal_strlit("\\\\");
            reveal_strlit("\\\"");
            reveal_strlit("\\n");
            assert(s@.take(i as int + 1).drop_last() =~= s@.take(i as int));
            assert(s@.take(i as int + 1).last() == s@[i as int]);
        }
        let c = s.get_char(i);
        if c == '\\' {
            out.append("\\\\");
        } else if c == '"' {
            out.append("\\\"");
        } else if c == '\n' {
            out.append("\\n");
        } else {
            let piece = s.substring_char(i, i + 1);
            proof {
                assert(piece@ =~= seq![s@[i as int]]);
            }
            out.append(piece);
        }
        proof {
            assert(out@ =~= old(out)@ + seq!['"'] + escaped(s@.take(i as int + 1)));
        }
        i = i + 1;
    }
    proof {
        assert(s@.take(n as int) =~= s@);
        reveal_strlit("\"");
    }
    out.append("\"");
    proof {
        assert(out@ =~= old(out)@ + quoted(s@));
    }
}

#[verifier::rlimit(100)]
fn render_structured(graph: &CatGraph) -> (r: String)
    requires
        graph.wf(),
    ensures
        r@ == structured_doc(*graph),
{
    proof {
        reveal_strlit("nodes:\n");
        reveal_strlit("edges:\n");
        assert(graph.nodes@.take(0) =~= Seq::<ManifestNode>::empty());
        assert(graph.edges@.take(0) =~= Seq::<GraphEdge>::empty());
    }
    let mut out = String::from_str("nodes:\n");
    let ncount = graph.nodes.len();
    let mut i: usize = 0;
    while i < ncount
        invariant
            i <= ncount,
            ncount == graph.nodes@.len(),
            out@ == "nodes:\n"@ + node_lines(graph.nodes@.take(i as int)),
        decreases ncount - i,
    {
        proof {
            reveal_strlit("- ");
            reveal_strlit("\n");
            assert(graph.nodes@.take(i as int + 1).drop_last() =~= graph.nodes@.take(i as int));
            assert(graph.nodes@.take(i as int + 1).last() == graph.nodes@[i as int]);
        }
        out.append("- ");
        push_quoted(&mut out, graph.nodes[i].name.as_str());
        out.append("\n");
        proof {
            assert(out@ =~= "nodes:\n"@ + node_lines(graph.nodes@.take(i as int + 1)));
        }
        i = i + 1;
    }
    proof {
        assert(graph.nodes@.take(ncount as int) =~= graph.nodes@);
    }
    out.append("edges:\n");
    let ecount = graph.edges.len();
    let mut k: usize = 0;
    while k < ecount
        invariant
            k <= ecount,
            ecount == graph.edges@.len(),
            graph.wf(),
            out@ == "nodes:\n"@ + node_lines(graph.nodes@) + "edges:\n"@ + edge_lines(
                *graph,
                graph.edges@.take(k as int),
            ),
        decreases ecount - k,
    {
        proof {
            reveal_strlit("- from: ");
            reveal_strlit("\n  to: ");
            reveal_strlit("\n  api: ");
            reveal_strlit("\n  contract: ");
            reveal_strlit("\n  protocol: ");
            reveal_strlit("\n  intent: ");
            reveal_strlit("~");
            reveal_strlit("http");
            reveal_strlit("grpc");
            reveal_strlit("other");
            reveal_strlit("\n");
            assert(graph.edges@.take(k as int + 1).drop_last() =~= graph.edges@.take(k as int));
            assert(graph.edges@.take(k as int + 1).last() == graph.edges@[k as int]);
        }
        let e = &graph.edges[k];
        out.append("- from: ");
        push_quoted(&mut out, graph.nodes[e.from].name.as_str());
        out.append("\n  to: ");
        push_quoted(&mut out, graph.nodes[e.to].name.as_str());
        out.append("\n  api: ");
        push_quoted(&mut out, e.edge.api.as_str());
        out.append("\n  contract: ");
        match &e.edge.contract {
            Some(c) => push_quoted(&mut out, c.as_str()),
            None => out.append("~"),
        }
        out.append("\n  protocol: ");
        match e.edge.protocol {
            DependencyProtocol::Http => out.append("http"),
            DependencyProtocol::Grpc => out.append("grpc"),
            DependencyProtocol::Other => out.append("other"),
        }
        out.append("\n  intent: ");
        match &e.edge.intent {
            Some(c) => push_quoted(&mut out, c.as_str()),
            None => out.append("~"),
        }
        out.append("\n");
        proof {
            assert(out@ =~= "nodes:\n"@ + node_lines(graph.nodes@) + "edges:\n"@ + edge_lines(
                *graph,
                graph.edges@.take(k as int + 1),
            ));
        }
        k = k + 1;
    }
    proof {
        assert(graph.edges@.take(ecount as int) =~= graph.edges@);
    }
    out
}

fn render_visualization(graph: &CatGraph) -> (r: String)
    requires
        graph.wf(),
    ensures
        r@ == viz_doc(*graph),
{
    proof {
        reveal_strlit("digraph {\n");
        reveal_strlit("}\n");
        assert(graph.nodes@.take(0) =~= Seq::<ManifestNode>::empty());
        assert(graph.edges@.take(0) =~= Seq::<GraphEdge>::empty());
    }
    let mut out = String::from_str("digraph {\n");
    let ncount = graph.nodes.len();
    let mut i: usize = 0;
    while i < ncount
        invariant
            i <= ncount,
            ncount == graph.nodes@.len(),
            out@ == "digraph {\n"@ + viz_node_lines(graph.nodes@.take(i as int)),
        decreases ncount - i,
    {
        proof {
            reveal_strlit("    ");
            reveal_strlit(";\n");
            assert(graph.nodes@.take(i as int + 1).drop_last() =~= graph.nodes@.take(i as int));
            assert(graph.nodes@.take(i as int + 1).last() == graph.nodes@[i as int]);
        }
        out.append("    ");
        push_quoted(&mut out, graph.nodes[i].name.as_str());
        out.append(";\n");
        proof {
            assert(out@ =~= "digraph {\n"@ + viz_node_lines(graph.nodes@.take(i as int + 1)));
        }
        i = i + 1;
    }
    proof {
        assert(graph.nodes@.take(ncount as int) =~= graph.nodes@);
    }
    let ecount = graph.edges.len();
    let mut k: usize = 0;
    while k < ecount
        invariant
            k <= ecount,
            ecount == graph.edges@.len(),
            graph.wf(),
            out@ == "digraph {\n"@ + viz_node_lines(graph.nodes@) + viz_edge_lines(
                *graph,
                graph.edges@.take(k as int),
            ),
        decreases ecount - k,
    {
        proof {
            reveal_strlit("    ");
            reveal_strlit(" -> ");
            reveal_strlit(";\n");
            assert(graph.edges@.take(k as int + 1).drop_last() =~= graph.edges@.take(k as int));
            assert(graph.edges@.take(k as int + 1).last() == graph.edges@[k as int]);
        }
        let e = &graph.edges[k];
        out.append("    ");
        push_quoted(&mut out, graph.nodes[e.from].name.as_str());
        out.append(" -> ");
        push_quoted(&mut out, graph.nodes[e.to].name.as_str());
        out.append(";\n");
        proof {
            assert(out@ =~= "digraph {\n"@ + viz_node_lines(graph.nodes@) + viz_edge_lines(
                *graph,
                graph.edges@.take(k as int + 1),
            ));
        }
        k = k + 1;
    }
    proof {
        assert(graph.edges@.take(ecount as int) =~= graph.edges@);
    }
    out.append("}\n");
    out
}

/// Render the graph as text in the chosen mode, with no other effect.
pub fn render(graph: &CatGraph, mode: RenderMode) -> (r: String)
    requires
        graph.wf(),
    ensures
        r@ == (match mode {
            RenderMode::Structured => structured_doc(*graph),
            RenderMode::Visualization => viz_doc(*graph),
        }),
{
    match mode {
        RenderMode::Structured => render_structured(graph),
        RenderMode::Visualization => render_visualization(graph),
    }
}

} // verus!
