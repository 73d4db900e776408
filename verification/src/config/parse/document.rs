use vstd::prelude::*;

use crate::config::parse::error::{ParseError, ParseErrorV};
use crate::config::parse::line::{ConfigLine, ConfigLineKind, LineErrorKind, LineV};
use crate::config::{
    child_entries, entries_from, lemma_nodes_view, node_view, node_wf, nodes_view, nodes_wf,
    str_eq, Config, Node, NodeKind, NodeV, Template, TemplateV,
};

verus! {

/// One level of the folder stack: the name of the folder that is open at this
/// level, and the completed nodes collected under it so far. At the bottom
/// level the name is unused and the nodes are the template's roots.
pub struct Frame {
    pub name: String,
    pub sibs: Vec<Node>,
}

/// Mathematical image of a `Frame`.
pub struct FrameV {
    pub name: Seq<char>,
    pub sibs: Seq<NodeV>,
}

impl View for Frame {
    type V = FrameV;

    open spec fn view(&self) -> FrameV {
        FrameV { name: self.name@, sibs: nodes_view(self.sibs@) }
    }
}

/// The template block that is currently open.
pub struct CurTpl {
    pub name: String,
    pub stack: Vec<Frame>,
}

/// Mathematical image of a `CurTpl`.
pub struct CurV {
    pub name: Seq<char>,
    pub stack: Seq<FrameV>,
}

/// The image of the frame stack.
pub open spec fn stack_view(s: Seq<Frame>) -> Seq<FrameV> {
    Seq::new(s.len(), |i: int| s[i]@)
}

impl View for CurTpl {
    type V = CurV;

    open spec fn view(&self) -> CurV {
        CurV { name: self.name@, stack: stack_view(self.stack@) }
    }
}

/// The whole assembler state: completed templates, the open block if any, and
/// every structural error found so far.
pub struct AsmStV {
    pub done: Seq<TemplateV>,
    pub cur: Option<CurV>,
    pub errs: Seq<ParseErrorV>,
}

/// The image of a list of completed templates.
pub open spec fn templates_view(ts: Seq<Template>) -> Seq<TemplateV> {
    Seq::new(ts.len(), |i: int| ts[i]@)
}

/// The image of a list of recorded errors.
pub open spec fn errs_view(es: Seq<ParseError>) -> Seq<ParseErrorV> {
    Seq::new(es.len(), |i: int| es[i]@)
}

/// An error record charged to one line.
pub open spec fn perr(line_no: int, l: LineV, kind: LineErrorKind) -> ParseErrorV {
    ParseErrorV { line_number: line_no, line: l.identifier, kind }
}

/// Whether a sibling list already holds a node of the given name.
pub open spec fn sib_contains(sibs: Seq<NodeV>, name: Seq<char>) -> bool {
    exists|j: int| 0 <= j < sibs.len() && (#[trigger] sibs[j]).name() == name
}

/// Close the topmost open folder: it becomes a node in the level below, with
/// its collected children, or none at all if it stayed empty.
pub open spec fn fold_frame(stack: Seq<FrameV>) -> Seq<FrameV>
    recommends
        stack.len() >= 2,
{
    let top = stack.last();
    let below = stack[stack.len() - 2];
    let node = NodeV::Folder {
        name: top.name,
        children: if top.sibs.len() == 0 {
            None
        } else {
            Some(top.sibs)
        },
    };
    stack.drop_last().update(
        stack.len() - 2,
        FrameV { name: below.name, sibs: below.sibs.push(node) },
    )
}

/// Close open folders until the frame of the given indent level is on top.
pub open spec fn pop_to(stack: Seq<FrameV>, level: int) -> Seq<FrameV>
    decreases stack.len(),
{
    if stack.len() <= level + 1 || stack.len() < 2 {
        stack
    } else {
        pop_to(fold_frame(stack), level)
    }
}

proof fn lemma_pop_to_len(s: Seq<FrameV>, level: int)
    requires
        level >= 0,
    ensures
        s.len() == 0 ==> pop_to(s, level).len() == 0,
        s.len() > 0 ==> pop_to(s, level).len() == if s.len() <= level + 1 {
            s.len() as int
        } else {
            level + 1
        },
    decreases s.len(),
{
    if s.len() >= 2 && s.len() > level + 1 {
        lemma_pop_to_len(fold_frame(s), level);
    }
}

/// A fresh block: the header's name, and one bottom frame for the roots.
pub open spec fn open_cur(l: LineV) -> CurV {
    CurV { name: l.identifier, stack: seq![FrameV { name: Seq::empty(), sibs: Seq::empty() }] }
}

/// Close the open block into a finished template.
pub open spec fn close_cur(c: CurV) -> TemplateV {
    let stack = pop_to(c.stack, 0);
    TemplateV {
        name: c.name,
        structure: if stack.len() == 0 {
            Seq::empty()
        } else {
            stack[0].sibs
        },
    }
}

/// One folder or file line against the open block: close folders down to the
/// line's level; a level with no open frame is an indent jump; otherwise the
/// node is attached there, a name collision among its siblings reported.
pub open spec fn step_node(c: CurV, l: LineV, line_no: int) -> (CurV, Seq<ParseErrorV>) {
    let stack1 = pop_to(c.stack, l.indent);
    if stack1.len() < l.indent + 1 {
        (
            CurV { name: c.name, stack: stack1 },
            seq![perr(line_no, l, LineErrorKind::IndentJumpTooLarge)],
        )
    } else {
        let top = stack1.last();
        let derr: Seq<ParseErrorV> = if sib_contains(top.sibs, l.identifier) {
            seq![perr(line_no, l, LineErrorKind::DuplicateSiblingName)]
        } else {
            Seq::empty()
        };
        if l.kind is Folder {
            (
                CurV {
                    name: c.name,
                    stack: stack1.push(FrameV { name: l.identifier, sibs: Seq::empty() }),
                },
                derr,
            )
        } else {
            let node = NodeV::File { name: l.identifier };
            (
                CurV {
                    name: c.name,
                    stack: stack1.update(
                        stack1.len() - 1,
                        FrameV { name: top.name, sibs: top.sibs.push(node) },
                    ),
                },
                derr,
            )
        }
    }
}

/// The assembler, one classified line at a time. A blank line closes the open
/// block. A header opens one; over an open block it is an error, and the open
/// block is committed first. A folder or file line needs an open block.
pub open spec fn asm_step(st: AsmStV, l: LineV, line_no: int) -> AsmStV {
    match l.kind {
        ConfigLineKind::Empty => match st.cur {
            None => st,
            Some(c) => AsmStV { done: st.done.push(close_cur(c)), cur: None, errs: st.errs },
        },
        ConfigLineKind::Header => match st.cur {
            None => AsmStV { done: st.done, cur: Some(open_cur(l)), errs: st.errs },
            Some(c) => AsmStV {
                done: st.done.push(close_cur(c)),
                cur: Some(open_cur(l)),
                errs: st.errs.push(perr(line_no, l, LineErrorKind::HeaderInTemplate)),
            },
        },
        _ => match st.cur {
            None => AsmStV {
                done: st.done,
                cur: None,
                errs: st.errs.push(perr(line_no, l, LineErrorKind::MissingHeader)),
            },
            Some(c) => {
                let (c2, derr) = step_node(c, l, line_no);
                AsmStV { done: st.done, cur: Some(c2), errs: st.errs + derr }
            },
        },
    }
}

/// The assembler state after the first `n` lines.
pub open spec fn asm_run(ls: Seq<LineV>, n: int) -> AsmStV
    decreases n,
{
    if n <= 0 {
        AsmStV { done: Seq::empty(), cur: None, errs: Seq::empty() }
    } else {
        asm_step(asm_run(ls, n - 1), ls[n - 1], n - 1)
    }
}

/// The end of input closes a block left open.
pub open spec fn asm_finish(st: AsmStV) -> AsmStV {
    match st.cur {
        None => st,
        Some(c) => AsmStV { done: st.done.push(close_cur(c)), cur: None, errs: st.errs },
    }
}

/// What a whole classified document assembles to.
pub open spec fn doc_result(ls: Seq<LineV>) -> AsmStV {
    asm_finish(asm_run(ls, ls.len() as int))
}

/// The templates of a document, in order of their headers.
pub open spec fn doc_templates(ls: Seq<LineV>) -> Seq<TemplateV> {
    doc_result(ls).done
}

/// Every structural error of a document, in line order.
pub open spec fn doc_errs(ls: Seq<LineV>) -> Seq<ParseErrorV> {
    doc_result(ls).errs
}

/// The images of a list of classified lines.
pub open spec fn lines_v(ls: Seq<ConfigLine>) -> Seq<LineV> {
    Seq::new(ls.len(), |i: int| ls[i]@)
}

pub broadcast proof fn lemma_nodes_view_push(ns: Seq<Node>, n: Node)
    ensures
        #[trigger] nodes_view(ns.push(n)) =~= nodes_view(ns).push(node_view(n)),
{
    lemma_nodes_view(ns.push(n));
    lemma_nodes_view(ns);
}

/// Whether a sibling list already holds a node of the given name.
fn sibs_contain(sibs: &Vec<Node>, name: &str) -> (r: bool)
    ensures
        r == sib_contains(nodes_view(sibs@), name@),
{
    proof {
        lemma_nodes_view(sibs@);
    }
    let n = sibs.len();
    let mut i: usize = 0;
    while i < n
        invariant
            i <= n,
            n == sibs.len(),
            nodes_view(sibs@).len() == n,
            forall|t: int| 0 <= t < n ==> nodes_view(sibs@)[t] == node_view(sibs@[t]),
            forall|t: int| 0 <= t < i ==> nodes_view(sibs@)[t].name() != name@,
        decreases n - i,
    {
        if str_eq(sibs[i].name.as_str(), name) {
            proof {
                crate::config::lemma_node_view_name(sibs@[i as int]);
                assert(sib_contains(nodes_view(sibs@), name@)) by {
                    assert(nodes_view(sibs@)[i as int].name() == name@);
                }
            }
            return true;
        }
        proof {
            crate::config::lemma_node_view_name(sibs@[i as int]);
        }
        i += 1;
    }
    false
}

/// Close open folders until the frame of the given level is on top.
fn pop_frames(stack: &mut Vec<Frame>, level: usize)
    ensures
        stack_view(final(stack)@) == pop_to(stack_view(old(stack)@), level as int),
{
    broadcast use lemma_nodes_view_push;

    let ghost orig = stack_view(stack@);
    while stack.len() >= 2 && stack.len() - 1 > level
        invariant
            pop_to(stack_view(stack@), level as int) == pop_to(orig, level as int),
        decreases stack@.len(),
    {
        let ghost s0 = stack@;
        let ghost prev = stack_view(s0);
        let top = stack.pop().unwrap();
        let ghost top_sibs = top.sibs@;
        proof {
            lemma_nodes_view(top_sibs);
            assert(prev.last() == (FrameV { name: top.name@, sibs: nodes_view(top_sibs) }));
        }
        let children: Option<Vec<Node>> = if top.sibs.len() == 0 {
            None
        } else {
            Some(top.sibs)
        };
        let node = Node { name: top.name, kind: NodeKind::Folder(children) };
        let ghost nv = node_view(node);
        proof {
            assert(nv == (NodeV::Folder {
                name: prev.last().name,
                children: if prev.last().sibs.len() == 0 {
                    None
                } else {
                    Some(prev.last().sibs)
                },
            }));
        }
        let mut below = stack.pop().unwrap();
        proof {
            assert(below == s0[s0.len() - 2]);
            assert(below@ == prev[prev.len() - 2]);
        }
        let ghost below_sibs = below.sibs@;
        let ghost nodeg = node;
        below.sibs.push(node);
        proof {
            lemma_nodes_view_push(below_sibs, nodeg);
            assert(below.sibs@ == below_sibs.push(nodeg));
            assert(nodes_view(below.sibs@) == nodes_view(below_sibs).push(nv));
            assert(below@ == (FrameV {
                name: prev[prev.len() - 2].name,
                sibs: prev[prev.len() - 2].sibs.push(nv),
            }));
        }
        stack.push(below);
        proof {
            assert(stack_view(stack@) =~= fold_frame(prev));
        }
    }
}

/// The source entries of the open block, in the order their lines came: at
/// each level the completed siblings with their subtrees, then the name of
/// the folder still open there and, deeper, what it has collected so far.
pub open spec fn frames_entries(stack: Seq<FrameV>, k: int) -> Seq<(int, Seq<char>)>
    decreases stack.len() - k,
{
    if k < 0 || k >= stack.len() {
        Seq::empty()
    } else {
        entries_from(stack[k].sibs, 0, k) + if k + 1 < stack.len() {
            seq![(k, stack[k + 1].name)] + frames_entries(stack, k + 1)
        } else {
            Seq::empty()
        }
    }
}

/// Appending a node to a sibling list appends its entry and its subtree's
/// entries to the preorder walk.
proof fn lemma_entries_from_push(ns: Seq<NodeV>, i: int, d: int, node: NodeV)
    requires
        0 <= i <= ns.len(),
    ensures
        entries_from(ns.push(node), i, d) == entries_from(ns, i, d) + seq![(d, node.name())]
            + child_entries(node, d),
    decreases ns.len() - i,
{
    if i < ns.len() {
        lemma_entries_from_push(ns, i + 1, d, node);
        assert(ns.push(node)[i] == ns[i]);
        assert(entries_from(ns.push(node), i, d) =~= entries_from(ns, i, d) + seq![
            (d, node.name()),
        ] + child_entries(node, d));
    } else {
        assert(ns.push(node)[i] == node);
        assert(entries_from(ns.push(node), i + 1, d) =~= Seq::<(int, Seq<char>)>::empty());
        assert(entries_from(ns, i, d) =~= Seq::<(int, Seq<char>)>::empty());
        assert(entries_from(ns.push(node), i, d) =~= entries_from(ns, i, d) + seq![
            (d, node.name()),
        ] + child_entries(node, d));
    }
}

/// Closing the topmost open folder moves its entries into the level below
/// without changing the block's entry list.
proof fn lemma_fold_frame_entries_from(stack: Seq<FrameV>, k: int)
    requires
        stack.len() >= 2,
        0 <= k <= stack.len() - 2,
    ensures
        frames_entries(fold_frame(stack), k) == frames_entries(stack, k),
    decreases stack.len() - k,
{
    let m = stack.len() as int;
    let fs = fold_frame(stack);
    let top = stack.last();
    let node = NodeV::Folder {
        name: top.name,
        children: if top.sibs.len() == 0 {
            None
        } else {
            Some(top.sibs)
        },
    };
    assert(fs.len() == m - 1);
    if k < m - 2 {
        lemma_fold_frame_entries_from(stack, k + 1);
        assert(fs[k] == stack[k]);
        assert(fs[k + 1].name == stack[k + 1].name);
        assert(frames_entries(fs, k) =~= frames_entries(stack, k));
    } else {
        lemma_entries_from_push(stack[k].sibs, 0, k, node);
        assert(fs[k] == (FrameV { name: stack[k].name, sibs: stack[k].sibs.push(node) }));
        assert(child_entries(node, k) == entries_from(top.sibs, 0, k + 1)) by {
            if top.sibs.len() == 0 {
                assert(child_entries(node, k) =~= entries_from(top.sibs, 0, k + 1));
            }
        }
        assert(frames_entries(stack, k + 1) == entries_from(top.sibs, 0, k + 1) + Seq::<
            (int, Seq<char>),
        >::empty());
        assert(frames_entries(fs, k) =~= frames_entries(stack, k));
    }
}

/// Closing open folders down to a level keeps the block's entry list as it
/// is.
proof fn lemma_pop_to_entries(stack: Seq<FrameV>, level: int)
    requires
        level >= 0,
    ensures
        frames_entries(pop_to(stack, level), 0) == frames_entries(stack, 0),
    decreases stack.len(),
{
    if stack.len() >= 2 && stack.len() > level + 1 {
        lemma_fold_frame_entries_from(stack, 0);
        lemma_pop_to_entries(fold_frame(stack), level);
    }
}

/// Opening a folder at the deepest level appends exactly its entry.
proof fn lemma_frames_entries_push_frame(stack: Seq<FrameV>, name: Seq<char>, k: int)
    requires
        stack.len() >= 1,
        0 <= k <= stack.len() - 1,
    ensures
        frames_entries(stack.push((FrameV { name, sibs: Seq::empty() })), k) == frames_entries(
            stack,
            k,
        ) + seq![((stack.len() - 1) as int, name)],
    decreases stack.len() - k,
{
    let ps = stack.push(FrameV { name, sibs: Seq::empty() });
    if k < stack.len() - 1 {
        lemma_frames_entries_push_frame(stack, name, k + 1);
        assert(ps[k] == stack[k]);
        assert(ps[k + 1].name == stack[k + 1].name);
        assert(frames_entries(ps, k) =~= frames_entries(stack, k) + seq![
            ((stack.len() - 1) as int, name),
        ]);
    } else {
        assert(ps[k] == stack[k]);
        assert(ps[k + 1] == (FrameV { name, sibs: Seq::empty() }));
        assert(entries_from(ps[k + 1].sibs, 0, k + 1) =~= Seq::<(int, Seq<char>)>::empty());
        assert(frames_entries(ps, k + 1) =~= Seq::<(int, Seq<char>)>::empty());
        assert(frames_entries(ps, k) =~= frames_entries(stack, k) + seq![
            ((stack.len() - 1) as int, name),
        ]);
    }
}

/// Attaching a childless node at the deepest level appends exactly its
/// entry.
proof fn lemma_frames_entries_attach(stack: Seq<FrameV>, node: NodeV, k: int)
    requires
        stack.len() >= 1,
        0 <= k <= stack.len() - 1,
        child_entries(node, stack.len() - 1) == Seq::<(int, Seq<char>)>::empty(),
    ensures
        frames_entries(
            stack.update(
                stack.len() - 1,
                (FrameV { name: stack.last().name, sibs: stack.last().sibs.push(node) }),
            ),
            k,
        ) == frames_entries(stack, k) + seq![((stack.len() - 1) as int, node.name())],
    decreases stack.len() - k,
{
    let us = stack.update(
        stack.len() - 1,
        FrameV { name: stack.last().name, sibs: stack.last().sibs.push(node) },
    );
    if k < stack.len() - 1 {
        lemma_frames_entries_attach(stack, node, k + 1);
        assert(us[k] == stack[k]);
        assert(us[k + 1].name == stack[k + 1].name);
        assert(frames_entries(us, k) =~= frames_entries(stack, k) + seq![
            ((stack.len() - 1) as int, node.name()),
        ]);
    } else {
        lemma_entries_from_push(stack.last().sibs, 0, k, node);
        assert(us[k] == (FrameV { name: stack.last().name, sibs: stack.last().sibs.push(node) }));
        assert(frames_entries(us, k) =~= frames_entries(stack, k) + seq![
            ((stack.len() - 1) as int, node.name()),
        ]);
    }
}

/// Every level of the stack is well formed: the collected siblings have
/// pairwise-distinct names and well-formed subtrees, and no level already
/// holds a sibling named like the folder still open above it.
pub open spec fn stack_wf(stack: Seq<FrameV>) -> bool {
    forall|k: int|
        #![trigger stack[k]]
        0 <= k < stack.len() ==> nodes_wf(stack[k].sibs) && (k + 1 < stack.len()
            ==> !sib_contains(stack[k].sibs, stack[k + 1].name))
}

proof fn lemma_nodes_wf_push(ns: Seq<NodeV>, node: NodeV)
    requires
        nodes_wf(ns),
        node_wf(node),
        !sib_contains(ns, node.name()),
    ensures
        nodes_wf(ns.push(node)),
{
    let ps = ns.push(node);
    assert forall|i: int, j: int| 0 <= i < j < ps.len() implies ps[i].name() != ps[j].name() by {
        if j < ns.len() {
            assert(ps[i] == ns[i] && ps[j] == ns[j]);
        } else {
            assert(ps[i] == ns[i] && ps[j] == node);
            if ns[i].name() == node.name() {
                assert(sib_contains(ns, node.name()));
            }
        }
    }
    assert forall|i: int| 0 <= i < ps.len() implies node_wf(#[trigger] ps[i]) by {
        if i < ns.len() {
            assert(ps[i] == ns[i]);
        } else {
            assert(ps[i] == node);
        }
    }
}

proof fn lemma_fold_frame_wf(stack: Seq<FrameV>)
    requires
        stack.len() >= 2,
        stack_wf(stack),
    ensures
        stack_wf(fold_frame(stack)),
{
    let m = stack.len() as int;
    let fs = fold_frame(stack);
    let top = stack.last();
    let below = stack[m - 2];
    let node = NodeV::Folder {
        name: top.name,
        children: if top.sibs.len() == 0 {
            None
        } else {
            Some(top.sibs)
        },
    };
    assert(nodes_wf(top.sibs) && nodes_wf(below.sibs)) by {
        assert(stack[m - 1] == top);
    }
    assert(node_wf(node));
    assert(!sib_contains(below.sibs, node.name()));
    lemma_nodes_wf_push(below.sibs, node);
    assert forall|k: int| 0 <= k < fs.len() implies nodes_wf((#[trigger] fs[k]).sibs) && (k + 1
        < fs.len() ==> !sib_contains(fs[k].sibs, fs[k + 1].name)) by {
        if k < m - 2 {
            assert(fs[k] == stack[k]);
            if k + 1 < fs.len() {
                assert(fs[k + 1].name == stack[k + 1].name);
                assert(fs[k + 1].sibs == if k + 1 == m - 2 {
                    below.sibs.push(node)
                } else {
                    stack[k + 1].sibs
                });
            }
        } else {
            assert(fs[k] == (FrameV { name: below.name, sibs: below.sibs.push(node) }));
        }
    }
}

proof fn lemma_pop_to_wf(stack: Seq<FrameV>, level: int)
    requires
        stack_wf(stack),
    ensures
        stack_wf(pop_to(stack, level)),
    decreases stack.len(),
{
    if stack.len() >= 2 && stack.len() > level + 1 {
        lemma_fold_frame_wf(stack);
        lemma_pop_to_wf(fold_frame(stack), level);
    }
}

proof fn lemma_pop_to_nonempty(s: Seq<FrameV>, level: int)
    requires
        s.len() >= 1,
    ensures
        pop_to(s, level).len() >= 1,
    decreases s.len(),
{
    if s.len() >= 2 && s.len() > level + 1 {
        lemma_pop_to_nonempty(fold_frame(s), level);
    }
}

proof fn lemma_close_cur_wf(c: CurV)
    requires
        stack_wf(c.stack),
    ensures
        nodes_wf(close_cur(c).structure),
{
    lemma_pop_to_wf(c.stack, 0);
    let s = pop_to(c.stack, 0);
    if s.len() == 0 {
        assert(nodes_wf(Seq::<NodeV>::empty()));
    } else {
        assert(nodes_wf(s[0].sibs));
    }
}

proof fn lemma_step_node_wf(c: CurV, l: LineV, line_no: int)
    requires
        stack_wf(c.stack),
        c.stack.len() >= 1,
        step_node(c, l, line_no).1.len() == 0,
    ensures
        stack_wf(step_node(c, l, line_no).0.stack),
        step_node(c, l, line_no).0.stack.len() >= 1,
{
    let stack1 = pop_to(c.stack, l.indent);
    lemma_pop_to_wf(c.stack, l.indent);
    lemma_pop_to_nonempty(c.stack, l.indent);
    assert(stack1.len() >= l.indent + 1);
    assert(stack1.len() >= 1);
    let top = stack1.last();
    assert(!sib_contains(top.sibs, l.identifier));
    assert(nodes_wf(top.sibs)) by {
        assert(stack1[stack1.len() - 1] == top);
    }
    if l.kind is Folder {
        let ps = stack1.push(FrameV { name: l.identifier, sibs: Seq::empty() });
        assert forall|k: int| 0 <= k < ps.len() implies nodes_wf((#[trigger] ps[k]).sibs) && (k + 1
            < ps.len() ==> !sib_contains(ps[k].sibs, ps[k + 1].name)) by {
            if k < stack1.len() {
                assert(ps[k] == stack1[k]);
                if k + 1 < stack1.len() {
                    assert(ps[k + 1] == stack1[k + 1]);
                }
            } else {
                assert(ps[k] == (FrameV { name: l.identifier, sibs: Seq::<NodeV>::empty() }));
                assert(nodes_wf(Seq::<NodeV>::empty()));
            }
        }
    } else {
        let node = NodeV::File { name: l.identifier };
        lemma_nodes_wf_push(top.sibs, node);
        let us = stack1.update(
            stack1.len() - 1,
            FrameV { name: top.name, sibs: top.sibs.push(node) },
        );
        assert forall|k: int| 0 <= k < us.len() implies nodes_wf((#[trigger] us[k]).sibs) && (k + 1
            < us.len() ==> !sib_contains(us[k].sibs, us[k + 1].name)) by {
            if k < us.len() - 1 {
                assert(us[k] == stack1[k]);
                if k + 1 < us.len() - 1 {
                    assert(us[k + 1] == stack1[k + 1]);
                } else {
                    assert(us[k + 1].name == stack1[k + 1].name);
                }
            } else {
                assert(us[k] == (FrameV { name: top.name, sibs: top.sibs.push(node) }));
            }
        }
    }
}

proof fn lemma_asm_run_wf(ls: Seq<LineV>, n: int)
    requires
        0 <= n,
        asm_run(ls, n).errs.len() == 0,
    ensures
        forall|t: int|
            #![trigger asm_run(ls, n).done[t]]
            0 <= t < asm_run(ls, n).done.len() ==> nodes_wf(asm_run(ls, n).done[t].structure),
        match asm_run(ls, n).cur {
            Some(c) => stack_wf(c.stack) && c.stack.len() >= 1,
            None => true,
        },
    decreases n,
{
    if n > 0 {
        let st = asm_run(ls, n - 1);
        let l = ls[n - 1];
        let st2 = asm_run(ls, n);
        assert(st2 == asm_step(st, l, n - 1));
        assert(st.errs.len() == 0);
        lemma_asm_run_wf(ls, n - 1);
        match l.kind {
            ConfigLineKind::Empty => {
                match st.cur {
                    None => {},
                    Some(c) => {
                        lemma_close_cur_wf(c);
                        assert forall|t: int|
                            0 <= t < st2.done.len() implies nodes_wf(
                            (#[trigger] st2.done[t]).structure,
                        ) by {
                            if t < st.done.len() {
                                assert(st2.done[t] == st.done[t]);
                            } else {
                                assert(st2.done[t] == close_cur(c));
                            }
                        }
                    },
                }
            },
            ConfigLineKind::Header => {
                match st.cur {
                    None => {
                        assert(stack_wf(open_cur(l).stack)) by {
                            assert(open_cur(l).stack[0].sibs == Seq::<NodeV>::empty());
                            assert(nodes_wf(Seq::<NodeV>::empty()));
                        }
                    },
                    Some(c) => {
                        assert(st2.errs.len() > 0);
                    },
                }
            },
            _ => {
                match st.cur {
                    None => {
                        assert(st2.errs.len() > 0);
                    },
                    Some(c) => {
                        let (c2, derr) = step_node(c, l, n - 1);
                        assert(derr.len() == 0);
                        lemma_step_node_wf(c, l, n - 1);
                    },
                }
            },
        }
    }
}

/// Law: a document that assembles without an error yields only well-formed
/// templates: in every template, files carry no children and sibling names
/// are pairwise distinct at every level.
pub proof fn lemma_doc_templates_wf(ls: Seq<LineV>)
    requires
        doc_errs(ls).len() == 0,
    ensures
        forall|t: int|
            #![trigger doc_templates(ls)[t]]
            0 <= t < doc_templates(ls).len() ==> nodes_wf(doc_templates(ls)[t].structure),
{
    let st = asm_run(ls, ls.len() as int);
    lemma_asm_run_wf(ls, ls.len() as int);
    match st.cur {
        None => {},
        Some(c) => {
            lemma_close_cur_wf(c);
            assert forall|t: int|
                0 <= t < doc_templates(ls).len() implies nodes_wf(
                (#[trigger] doc_templates(ls)[t]).structure,
            ) by {
                if t < st.done.len() {
                    assert(doc_templates(ls)[t] == st.done[t]);
                } else {
                    assert(doc_templates(ls)[t] == close_cur(c));
                }
            }
        },
    }
}

/// Law: a fresh block holds no entries yet.
pub proof fn lemma_open_cur_entries(l: LineV)
    ensures
        frames_entries(open_cur(l).stack, 0) == Seq::<(int, Seq<char>)>::empty(),
{
    assert(frames_entries(open_cur(l).stack, 0) =~= Seq::<(int, Seq<char>)>::empty());
}

/// Law: a folder or file line that is accepted — its level has an open
/// frame — appends exactly its own indent and name to the open block's
/// entry list, and nothing else.
pub proof fn lemma_step_node_appends(c: CurV, l: LineV, line_no: int)
    requires
        l.indent >= 0,
        pop_to(c.stack, l.indent).len() >= l.indent + 1,
    ensures
        frames_entries(step_node(c, l, line_no).0.stack, 0) == frames_entries(c.stack, 0) + seq![
            (l.indent, l.identifier),
        ],
        step_node(c, l, line_no).0.stack.len() >= 1,
        step_node(c, l, line_no).0.name == c.name,
{
    let stack1 = pop_to(c.stack, l.indent);
    lemma_pop_to_entries(c.stack, l.indent);
    lemma_pop_to_len(c.stack, l.indent);
    assert(stack1.len() == l.indent + 1);
    if l.kind is Folder {
        lemma_frames_entries_push_frame(stack1, l.identifier, 0);
    } else {
        let node = NodeV::File { name: l.identifier };
        assert(child_entries(node, stack1.len() - 1) =~= Seq::<(int, Seq<char>)>::empty());
        lemma_frames_entries_attach(stack1, node, 0);
    }
}

/// The folder and file lines of a block, each as its indent level and name.
pub open spec fn block_entries(ls: Seq<LineV>, n: int) -> Seq<(int, Seq<char>)> {
    Seq::new((n - 1) as nat, |j: int| (ls[j + 1].indent, ls[j + 1].identifier))
}

proof fn lemma_single_block_run(ls: Seq<LineV>, n: int)
    requires
        1 <= n <= ls.len(),
        ls[0].kind is Header,
        forall|j: int|
            1 <= j < ls.len() ==> ((#[trigger] ls[j]).kind is Folder || ls[j].kind is File)
                && ls[j].indent >= 0,
        asm_run(ls, n).errs.len() == 0,
    ensures
        asm_run(ls, n).done == Seq::<TemplateV>::empty(),
        asm_run(ls, n).cur matches Some(c) && c.name == ls[0].identifier && c.stack.len() >= 1
            && frames_entries(c.stack, 0) == block_entries(ls, n),
    decreases n,
{
    if n == 1 {
        lemma_open_cur_entries(ls[0]);
        assert(frames_entries(open_cur(ls[0]).stack, 0) =~= block_entries(ls, 1));
    } else {
        let st = asm_run(ls, n - 1);
        let l = ls[n - 1];
        assert(asm_run(ls, n) == asm_step(st, l, n - 1));
        assert(st.errs.len() == 0);
        lemma_single_block_run(ls, n - 1);
        let c = st.cur->Some_0;
        let (c2, derr) = step_node(c, l, n - 1);
        assert(derr.len() == 0);
        assert(pop_to(c.stack, l.indent).len() >= l.indent + 1);
        lemma_step_node_appends(c, l, n - 1);
        assert(frames_entries(c2.stack, 0) =~= block_entries(ls, n)) by {
            assert(block_entries(ls, n) =~= block_entries(ls, n - 1) + seq![
                (l.indent, l.identifier),
            ]);
        }
    }
}

/// Law: a valid single-block document — a header, then only folder and file
/// lines, assembled without an error — yields exactly one template, named by
/// the header, whose preorder walk is the block's lines in source order,
/// each with its indent level and name.
pub proof fn lemma_single_block_round_trip(ls: Seq<LineV>)
    requires
        ls.len() >= 1,
        ls[0].kind is Header,
        forall|j: int|
            1 <= j < ls.len() ==> ((#[trigger] ls[j]).kind is Folder || ls[j].kind is File)
                && ls[j].indent >= 0,
        doc_errs(ls).len() == 0,
    ensures
        doc_templates(ls).len() == 1,
        doc_templates(ls)[0].name == ls[0].identifier,
        entries_from(doc_templates(ls)[0].structure, 0, 0) == block_entries(ls, ls.len() as int),
{
    let n = ls.len() as int;
    let st = asm_run(ls, n);
    lemma_single_block_run(ls, n);
    let c = st.cur->Some_0;
    lemma_close_cur_entries(c);
    assert(doc_templates(ls) == st.done.push(close_cur(c)));
}

/// Law: the whole round trip of a valid single-block document: the tree
/// diagram of the assembled template has one line per source line, and line
/// `j` shows the name of source line `j + 1` behind four columns of marks
/// per indent level — the displayed names and nesting match the source
/// indentation exactly.
pub proof fn lemma_single_block_display(ls: Seq<LineV>)
    requires
        ls.len() >= 1,
        ls[0].kind is Header,
        forall|j: int|
            1 <= j < ls.len() ==> ((#[trigger] ls[j]).kind is Folder || ls[j].kind is File)
                && ls[j].indent >= 0,
        doc_errs(ls).len() == 0,
    ensures
        doc_templates(ls).len() == 1,
        crate::config::template_lines(doc_templates(ls)[0]).len() == ls.len() - 1,
        forall|j: int|
            0 <= j < ls.len() - 1 ==> crate::config::shows_entry(
                #[trigger] crate::config::template_lines(doc_templates(ls)[0])[j],
                (ls[j + 1].indent, ls[j + 1].identifier),
                4 * (ls[j + 1].indent + 1),
            ),
{
    lemma_single_block_round_trip(ls);
    let t = doc_templates(ls)[0];
    crate::config::lemma_render_matches_structure(t.structure, 0, 0);
    assert forall|j: int| 0 <= j < ls.len() - 1 implies crate::config::shows_entry(
        #[trigger] crate::config::template_lines(t)[j],
        (ls[j + 1].indent, ls[j + 1].identifier),
        4 * (ls[j + 1].indent + 1),
    ) by {
        assert(crate::config::entry_shown(t.structure, 0, 0, j));
        assert(entries_from(t.structure, 0, 0)[j] == (ls[j + 1].indent, ls[j + 1].identifier));
    }
}

/// Law: closing a block turns exactly its collected entries into the
/// template: the preorder walk of the structure is the block's folder and
/// file lines, in source order, each with its indent level and name.
pub proof fn lemma_close_cur_entries(c: CurV)
    requires
        c.stack.len() >= 1,
    ensures
        entries_from(close_cur(c).structure, 0, 0) == frames_entries(c.stack, 0),
{
    lemma_pop_to_entries(c.stack, 0);
    lemma_pop_to_len(c.stack, 0);
    let s = pop_to(c.stack, 0);
    assert(s.len() == 1);
    assert(frames_entries(s, 0) =~= entries_from(s[0].sibs, 0, 0));
}

proof fn lemma_templates_view_push(ts: Seq<Template>, t: Template)
    ensures
        templates_view(ts.push(t)) =~= templates_view(ts).push(t@),
{
}

pub proof fn lemma_errs_view_push(es: Seq<ParseError>, e: ParseError)
    ensures
        errs_view(es.push(e)) =~= errs_view(es).push(e@),
{
}

pub proof fn lemma_lines_v_push(ls: Seq<ConfigLine>, l: ConfigLine)
    ensures
        lines_v(ls.push(l)) =~= lines_v(ls).push(l@),
{
}

/// Handle one folder or file line against the open block.
fn step_node_line(c: CurTpl, line: &ConfigLine, line_number: u32, errs: &mut Vec<ParseError>) -> (r:
    CurTpl)
    ensures
        ({
            let (c2, derr) = step_node(c@, line@, line_number as int);
            r@ == c2 && errs_view(final(errs)@) == errs_view(old(errs)@) + derr
        }),
{
    let ghost cv = c@;
    let ghost lv = line@;
    let ghost errs0 = errs@;
    let CurTpl { name, mut stack } = c;
    let level: usize = line.indent as usize;
    pop_frames(&mut stack, level);
    let ghost stack1 = stack_view(stack@);
    proof {
        assert(stack1 == pop_to(cv.stack, lv.indent));
    }
    if stack.len() <= level {
        let e = ParseError {
            line_number,
            line: line.identifier.clone(),
            kind: LineErrorKind::IndentJumpTooLarge,
        };
        let ghost eg = e;
        errs.push(e);
        proof {
            lemma_errs_view_push(errs0, eg);
            assert(errs_view(errs@) =~= errs_view(errs0) + seq![
                perr(line_number as int, lv, LineErrorKind::IndentJumpTooLarge),
            ]);
        }
        CurTpl { name, stack }
    } else {
        let top_idx = stack.len() - 1;
        let ghost topv = stack1.last();
        let dup = sibs_contain(&stack[top_idx].sibs, line.identifier.as_str());
        let ghost derr = if dup {
            seq![perr(line_number as int, lv, LineErrorKind::DuplicateSiblingName)]
        } else {
            Seq::<ParseErrorV>::empty()
        };
        if dup {
            let e = ParseError {
                line_number,
                line: line.identifier.clone(),
                kind: LineErrorKind::DuplicateSiblingName,
            };
            let ghost eg = e;
            errs.push(e);
            proof {
                lemma_errs_view_push(errs0, eg);
                assert(errs_view(errs@) =~= errs_view(errs0) + derr);
            }
        } else {
            proof {
                assert(errs_view(errs@) =~= errs_view(errs0) + derr);
            }
        }
        match line.kind {
            ConfigLineKind::Folder => {
                stack.push(Frame { name: line.identifier.clone(), sibs: Vec::new() });
                proof {
                    assert(stack_view(stack@) =~= stack1.push(
                        FrameV { name: lv.identifier, sibs: Seq::empty() },
                    ));
                }
                CurTpl { name, stack }
            },
            _ => {
                let node = Node { name: line.identifier.clone(), kind: NodeKind::File };
                let ghost nodeg = node;
                let mut top = stack.pop().unwrap();
                let ghost top_sibs = top.sibs@;
                top.sibs.push(node);
                stack.push(top);
                proof {
                    lemma_nodes_view_push(top_sibs, nodeg);
                    assert(node_view(nodeg) == (NodeV::File { name: lv.identifier }));
                    assert(stack_view(stack@) =~= stack1.update(
                        stack1.len() - 1,
                        FrameV {
                            name: topv.name,
                            sibs: topv.sibs.push((NodeV::File { name: lv.identifier })),
                        },
                    ));
                }
                CurTpl { name, stack }
            },
        }
    }
}

/// Close the open block into a finished template.
fn close_template(c: CurTpl) -> (t: Template)
    ensures
        t@ == close_cur(c@),
{
    let ghost cv = c@;
    let CurTpl { name, mut stack } = c;
    pop_frames(&mut stack, 0);
    proof {
        lemma_pop_to_len(cv.stack, 0);
    }
    match stack.pop() {
        None => {
            let t = Template { name, structure: Vec::new() };
            proof {
                assert(t@.structure =~= close_cur(cv).structure);
            }
            t
        },
        Some(frame) => {
            let t = Template { name, structure: frame.sibs };
            proof {
                assert(pop_to(cv.stack, 0).len() == 1);
                assert(frame@ == pop_to(cv.stack, 0)[0]);
            }
            t
        },
    }
}

/// Assemble a whole stream of classified lines into the registry, or into
/// the complete list of structural errors, one record per offending line.
pub fn parse(lines: Vec<ConfigLine>) -> (r: Result<Config, Vec<ParseError>>)
    requires
        lines@.len() <= u32::MAX,
    ensures
        ({
            let ls = lines_v(lines@);
            match r {
                Ok(c) => doc_errs(ls).len() == 0 && c@.templates == doc_templates(ls)
                    && c@.favorite is None && forall|t: int|
                    0 <= t < c@.templates.len() ==> nodes_wf(#[trigger] c@.templates[t].structure),
                Err(es) => errs_view(es@) == doc_errs(ls) && es@.len() > 0,
            }
        }),
{
    let ghost ls = lines_v(lines@);
    let n = lines.len();
    let mut done: Vec<Template> = Vec::new();
    let mut cur: Option<CurTpl> = None;
    let mut errs: Vec<ParseError> = Vec::new();
    proof {
        assert(templates_view(done@) =~= asm_run(ls, 0).done);
        assert(errs_view(errs@) =~= asm_run(ls, 0).errs);
    }
    let mut i: usize = 0;
    while i < n
        invariant
            i <= n,
            n == lines.len(),
            lines@.len() <= u32::MAX,
            ls == lines_v(lines@),
            ls.len() == n,
            forall|t: int| 0 <= t < n ==> ls[t] == lines@[t]@,
            templates_view(done@) == asm_run(ls, i as int).done,
            match cur {
                Some(c) => asm_run(ls, i as int).cur == Some(c@),
                None => asm_run(ls, i as int).cur is None,
            },
            errs_view(errs@) == asm_run(ls, i as int).errs,
        decreases n - i,
    {
        let ghost st_prev = asm_run(ls, i as int);
        let ghost lv = ls[i as int];
        proof {
            assert(asm_run(ls, i as int + 1) == asm_step(st_prev, lv, i as int));
        }
        let line = &lines[i];
        match line.kind {
            ConfigLineKind::Empty => {
                match cur.take() {
                    None => {
                        proof {
                            assert(asm_run(ls, i as int + 1) == st_prev);
                        }
                    },
                    Some(c) => {
                        let ghost done0 = done@;
                        let t = close_template(c);
                        let ghost tg = t;
                        done.push(t);
                        proof {
                            lemma_templates_view_push(done0, tg);
                            assert(templates_view(done@) =~= st_prev.done.push(close_cur(c@)));
                        }
                    },
                }
            },
            ConfigLineKind::Header => {
                let mut bottom: Vec<Frame> = Vec::new();
                bottom.push(Frame { name: String::new(), sibs: Vec::new() });
                let fresh = CurTpl { name: line.identifier.clone(), stack: bottom };
                proof {
                    assert(fresh@.stack =~= open_cur(lv).stack);
                }
                match cur.take() {
                    None => {
                        cur = Some(fresh);
                    },
                    Some(c) => {
                        let ghost done0 = done@;
                        let ghost errs0 = errs@;
                        let t = close_template(c);
                        let ghost tg = t;
                        done.push(t);
                        let e = ParseError {
                            line_number: i as u32,
                            line: line.identifier.clone(),
                            kind: LineErrorKind::HeaderInTemplate,
                        };
                        let ghost eg = e;
                        errs.push(e);
                        cur = Some(fresh);
                        proof {
                            lemma_templates_view_push(done0, tg);
                            lemma_errs_view_push(errs0, eg);
                            assert(templates_view(done@) =~= st_prev.done.push(close_cur(c@)));
                            assert(errs_view(errs@) =~= st_prev.errs.push(
                                perr(i as int, lv, LineErrorKind::HeaderInTemplate),
                            ));
                        }
                    },
                }
            },
            _ => {
                match cur.take() {
                    None => {
                        let ghost errs0 = errs@;
                        let e = ParseError {
                            line_number: i as u32,
                            line: line.identifier.clone(),
                            kind: LineErrorKind::MissingHeader,
                        };
                        let ghost eg = e;
                        errs.push(e);
                        proof {
                            lemma_errs_view_push(errs0, eg);
                            assert(errs_view(errs@) =~= st_prev.errs.push(
                                perr(i as int, lv, LineErrorKind::MissingHeader),
                            ));
                        }
                    },
                    Some(c) => {
                        let c2 = step_node_line(c, line, i as u32, &mut errs);
                        cur = Some(c2);
                    },
                }
            },
        }
        i += 1;
    }
    let ghost stf = asm_run(ls, n as int);
    match cur.take() {
        None => {
            proof {
                assert(doc_result(ls) == stf);
            }
        },
        Some(c) => {
            let ghost done0 = done@;
            let t = close_template(c);
            let ghost tg = t;
            done.push(t);
            proof {
                lemma_templates_view_push(done0, tg);
                assert(templates_view(done@) =~= stf.done.push(close_cur(c@)));
            }
        },
    }
    proof {
        assert(templates_view(done@) == doc_templates(ls));
        assert(errs_view(errs@) == doc_errs(ls));
    }
    if errs.len() == 0 {
        let c = Config { templates: done, favorite: None };
        proof {
            assert(c@.templates =~= templates_view(done@));
            lemma_doc_templates_wf(ls);
        }
        Ok(c)
    } else {
        Err(errs)
    }
}

} // verus!
