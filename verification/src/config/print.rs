use vstd::prelude::*;
use vstd::string::StringExecFns;

use crate::config::{
    lemma_nodes_view, lines_view, node_view, nodes_view, Node, NodeKind, NodeV, Template,
    TemplateV,
};

verus! {

/// The connector in front of a node's own line.
pub open spec fn glyph(is_last: bool) -> Seq<char> {
    if is_last {
        "└── "@
    } else {
        "├── "@
    }
}

/// What deeper lines draw in this node's column: a bar while siblings follow,
/// blank space under the last one.
pub open spec fn continuation(is_last: bool) -> Seq<char> {
    if is_last {
        "    "@
    } else {
        "│   "@
    }
}

/// The display lines hanging below one node: nothing for a file or an
/// unexpanded folder, the rendering of the children otherwise.
pub open spec fn child_lines(n: NodeV) -> Seq<Seq<char>>
    decreases n, 0int,
{
    match n {
        NodeV::Folder { children: Some(cs), .. } => render_from(cs, 0),
        _ => Seq::empty(),
    }
}

/// The display lines of the siblings `cs[i..]`: each node's own line behind
/// its connector, then its subtree's lines behind this node's continuation.
pub open spec fn render_from(cs: Seq<NodeV>, i: int) -> Seq<Seq<char>>
    decreases cs, cs.len() - i + 1,
{
    if i < 0 || i >= cs.len() {
        Seq::empty()
    } else {
        let is_last = i == cs.len() - 1;
        seq![glyph(is_last) + cs[i].name()] + child_lines(cs[i]).map_values(
            |l: Seq<char>| continuation(is_last) + l,
        ) + render_from(cs, i + 1)
    }
}

/// The full tree diagram of a template.
pub open spec fn template_lines(t: TemplateV) -> Seq<Seq<char>> {
    render_from(t.structure, 0)
}

/// The preorder walk below one node: each deeper node's depth and name,
/// parents before children, siblings in declaration order.
pub open spec fn child_entries(n: NodeV, depth: int) -> Seq<(int, Seq<char>)>
    decreases n, 0int,
{
    match n {
        NodeV::Folder { children: Some(cs), .. } => entries_from(cs, 0, depth + 1),
        _ => Seq::empty(),
    }
}

/// The preorder walk of the siblings `cs[i..]`, at the given depth.
pub open spec fn entries_from(cs: Seq<NodeV>, i: int, depth: int) -> Seq<(int, Seq<char>)>
    decreases cs, cs.len() - i + 1,
{
    if i < 0 || i >= cs.len() {
        Seq::empty()
    } else {
        seq![(depth, cs[i].name())] + child_entries(cs[i], depth) + entries_from(cs, i + 1, depth)
    }
}

/// Display line `l` shows entry `e`: the entry's name, behind exactly `cols`
/// columns of connector and continuation marks.
pub open spec fn shows_entry(l: Seq<char>, e: (int, Seq<char>), cols: int) -> bool {
    l.len() == cols + e.1.len() && l.skip(cols) == e.1
}

/// Line `j` of the rendering of `cs[i..]` shows the `j`-th entry of the
/// preorder walk: a node no shallower than the base depth, its name behind
/// four columns of marks per nesting level.
pub open spec fn entry_shown(cs: Seq<NodeV>, i: int, d: int, j: int) -> bool {
    entries_from(cs, i, d)[j].0 >= d && shows_entry(
        render_from(cs, i)[j],
        entries_from(cs, i, d)[j],
        4 * (entries_from(cs, i, d)[j].0 - d + 1),
    )
}

/// Law: the tree diagram of a sibling list shows exactly its preorder walk:
/// line `j` carries the name of the `j`-th node, behind a mark of four
/// columns per nesting level, so the displayed names and nesting match the
/// tree exactly.
pub proof fn lemma_render_matches_structure(cs: Seq<NodeV>, i: int, d: int)
    ensures
        render_from(cs, i).len() == entries_from(cs, i, d).len(),
        forall|j: int|
            0 <= j < render_from(cs, i).len() ==> #[trigger] entry_shown(cs, i, d, j),
    decreases cs, cs.len() - i + 1,
{
    reveal_strlit("└── ");
    reveal_strlit("├── ");
    reveal_strlit("│   ");
    reveal_strlit("    ");
    if 0 <= i < cs.len() {
        let is_last = i == cs.len() - 1;
        let head = glyph(is_last) + cs[i].name();
        let subs = child_lines(cs[i]).map_values(|l: Seq<char>| continuation(is_last) + l);
        let rest = render_from(cs, i + 1);
        let whole = render_from(cs, i);
        assert(whole == seq![head] + subs + rest);
        let e_subs = child_entries(cs[i], d);
        let e_rest = entries_from(cs, i + 1, d);
        let e_whole = entries_from(cs, i, d);
        assert(e_whole == seq![(d, cs[i].name())] + e_subs + e_rest);
        lemma_child_render_matches(cs[i], d);
        lemma_render_matches_structure(cs, i + 1, d);
        assert(whole.len() == e_whole.len());
        assert forall|j: int| 0 <= j < render_from(cs, i).len() implies #[trigger] entry_shown(
            cs,
            i,
            d,
            j,
        ) by {
            if j == 0 {
                assert(render_from(cs, i)[0] == head);
                assert(entries_from(cs, i, d)[0] == (d, cs[i].name()));
                assert(glyph(is_last).len() == 4);
                assert(head.skip(4) =~= cs[i].name());
                assert(shows_entry(head, (d, cs[i].name()), 4));
            } else if j < 1 + subs.len() {
                let k = j - 1;
                assert(child_shown(cs[i], d, k));
                let sub = child_lines(cs[i])[k];
                assert(render_from(cs, i)[j] == subs[k]);
                assert(subs[k] == continuation(is_last) + sub);
                assert(entries_from(cs, i, d)[j] == e_subs[k]);
                let e = e_subs[k];
                assert(e.0 > d && shows_entry(sub, e, 4 * (e.0 - d)));
                assert(continuation(is_last).len() == 4);
                assert((continuation(is_last) + sub).skip(4 * (e.0 - d + 1)) =~= sub.skip(
                    4 * (e.0 - d),
                ));
                assert(shows_entry(subs[k], e, 4 * (e.0 - d + 1)));
            } else {
                let k = j - 1 - subs.len();
                assert(entry_shown(cs, i + 1, d, k));
                assert(render_from(cs, i)[j] == render_from(cs, i + 1)[k]);
                assert(entries_from(cs, i, d)[j] == entries_from(cs, i + 1, d)[k]);
            }
        }
    } else {
        assert(render_from(cs, i) =~= Seq::<Seq<char>>::empty());
        assert(entries_from(cs, i, d) =~= Seq::<(int, Seq<char>)>::empty());
    }
}

/// Line `j` below node `n` shows the `j`-th entry of the walk below it, each
/// strictly deeper than the node's own depth.
pub open spec fn child_shown(n: NodeV, d: int, j: int) -> bool {
    child_entries(n, d)[j].0 > d && shows_entry(
        child_lines(n)[j],
        child_entries(n, d)[j],
        4 * (child_entries(n, d)[j].0 - d),
    )
}

/// The same correspondence for everything below one node.
proof fn lemma_child_render_matches(n: NodeV, d: int)
    ensures
        child_lines(n).len() == child_entries(n, d).len(),
        forall|j: int| 0 <= j < child_lines(n).len() ==> #[trigger] child_shown(n, d, j),
    decreases n, 1int,
{
    match n {
        NodeV::Folder { children: Some(cs), .. } => {
            lemma_render_matches_structure(cs, 0, d + 1);
            assert(child_lines(n) == render_from(cs, 0));
            assert(child_entries(n, d) == entries_from(cs, 0, d + 1));
            assert forall|j: int| 0 <= j < child_lines(n).len() implies #[trigger] child_shown(
                n,
                d,
                j,
            ) by {
                assert(entry_shown(cs, 0, d + 1, j));
                assert(child_lines(n)[j] == render_from(cs, 0)[j]);
                assert(child_entries(n, d)[j] == entries_from(cs, 0, d + 1)[j]);
            }
        },
        _ => {
            assert(child_lines(n) =~= Seq::<Seq<char>>::empty());
            assert(child_entries(n, d) =~= Seq::<(int, Seq<char>)>::empty());
        },
    }
}

impl Node {
    /// The display lines of everything below this node, each behind its
    /// connector and continuation marks.
    pub fn print(&self) -> (r: Vec<String>)
        ensures
            lines_view(r@) == child_lines(self@),
        decreases *self,
    {
        match &self.kind {
            NodeKind::Folder(Some(nodes)) => render_nodes(nodes),
            _ => {
                let r: Vec<String> = Vec::new();
                proof {
                    assert(lines_view(r@) =~= child_lines(self@));
                }
                r
            },
        }
    }
}

/// Append one built line.
fn push_line(out: &mut Vec<String>, s: String)
    ensures
        lines_view(final(out)@) == lines_view(old(out)@).push(s@),
{
    let ghost prev = out@;
    let ghost sv = s@;
    out.push(s);
    proof {
        assert(lines_view(out@) =~= lines_view(prev).push(sv));
    }
}

/// Render a sibling list, glyphs and continuation columns included.
fn render_nodes(nodes: &Vec<Node>) -> (r: Vec<String>)
    ensures
        lines_view(r@) == render_from(nodes_view(nodes@), 0),
    decreases *nodes,
{
    let ghost cs = nodes_view(nodes@);
    proof {
        lemma_nodes_view(nodes@);
    }
    let n = nodes.len();
    let mut out: Vec<String> = Vec::new();
    proof {
        assert(lines_view(out@) + render_from(cs, 0) =~= render_from(cs, 0));
    }
    let mut i: usize = 0;
    while i < n
        invariant
            i <= n,
            n == nodes.len(),
            cs == nodes_view(nodes@),
            cs.len() == n,
            forall|t: int| 0 <= t < n ==> cs[t] == node_view(nodes@[t]),
            lines_view(out@) + render_from(cs, i as int) =~= render_from(cs, 0),
        decreases n - i,
    {
        let is_last = i == n - 1;
        let ghost out_before = out@;
        let ghost head = glyph(is_last) + cs[i as int].name();
        let mut line = String::from_str(if is_last {
            "└── "
        } else {
            "├── "
        });
        line.append(nodes[i].name.as_str());
        proof {
            assert(cs[i as int].name() == nodes@[i as int].name@);
            assert(line@ == head);
        }
        push_line(&mut out, line);

        let sub = nodes[i].print();
        let ghost sub_mapped = child_lines(cs[i as int]).map_values(
            |l: Seq<char>| continuation(is_last) + l,
        );
        proof {
            assert(lines_view(out@) =~= lines_view(out_before).push(head) + sub_mapped.take(0));
        }
        let m = sub.len();
        let mut j: usize = 0;
        while j < m
            invariant
                j <= m,
                m == sub.len(),
                is_last == (i as int == cs.len() - 1),
                lines_view(sub@) == child_lines(cs[i as int]),
                head == glyph(is_last) + cs[i as int].name(),
                sub_mapped == child_lines(cs[i as int]).map_values(
                    |l: Seq<char>| continuation(is_last) + l,
                ),
                lines_view(out@) =~= lines_view(out_before).push(head) + sub_mapped.take(j as int),
            decreases m - j,
        {
            let pre = if is_last {
                "    "
            } else {
                "│   "
            };
            let ghost out_mid = out@;
            let prefixed = String::from_str(pre).concat(sub[j].as_str());
            proof {
                assert(sub_mapped[j as int] == continuation(is_last) + lines_view(sub@)[j as int]);
                assert(lines_view(sub@)[j as int] == sub@[j as int]@);
                assert(prefixed@ == sub_mapped[j as int]);
            }
            push_line(&mut out, prefixed);
            proof {
                assert(sub_mapped.take(j as int + 1) =~= sub_mapped.take(j as int).push(
                    sub_mapped[j as int],
                ));
                assert(lines_view(out@) =~= lines_view(out_before).push(head) + sub_mapped.take(
                    j as int + 1,
                ));
            }
            j += 1;
        }
        proof {
            assert(sub_mapped.take(m as int) =~= sub_mapped);
            assert(lines_view(out@) + render_from(cs, i as int + 1) =~= render_from(cs, 0)) by {
                assert(render_from(cs, i as int) == seq![head] + sub_mapped + render_from(
                    cs,
                    i as int + 1,
                ));
                assert(lines_view(out@) =~= lines_view(out_before) + seq![head] + sub_mapped);
                assert(lines_view(out@) + render_from(cs, i as int + 1) =~= lines_view(out_before)
                    + render_from(cs, i as int));
            }
        }
        i += 1;
    }
    proof {
        assert(render_from(cs, n as int) =~= Seq::<Seq<char>>::empty());
        assert(lines_view(out@) + render_from(cs, n as int) =~= lines_view(out@));
    }
    out
}

impl Template {
    /// The tree diagram of this template, one display line per node.
    pub fn print(&self) -> (r: Vec<String>)
        ensures
            lines_view(r@) == template_lines(self@),
    {
        render_nodes(&self.structure)
    }
}

} // verus!
