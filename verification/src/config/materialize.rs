use vstd::prelude::*;

use crate::config::{
    lemma_nodes_view, lines_view, node_view, nodes_view, nodes_wf, node_wf, Node, NodeKind,
    NodeV, Template, TemplateV,
};

verus! {

/// One filesystem operation of a materialization plan. The path is relative
/// to the destination root, outermost segment first; the caller joins the
/// segments onto the root and performs the operations in order, stopping at
/// the first failure.
#[derive(Debug)]
pub enum Action {
    CreateDir { path: Vec<String> },
    CreateFile { path: Vec<String> },
}

/// Mathematical image of an `Action`.
pub enum ActionV {
    CreateDir { path: Seq<Seq<char>> },
    CreateFile { path: Seq<Seq<char>> },
}

impl View for Action {
    type V = ActionV;

    open spec fn view(&self) -> ActionV {
        match self {
            Action::CreateDir { path } => ActionV::CreateDir { path: lines_view(path@) },
            Action::CreateFile { path } => ActionV::CreateFile { path: lines_view(path@) },
        }
    }
}

/// The image of a list of actions.
pub open spec fn actions_view(s: Seq<Action>) -> Seq<ActionV> {
    Seq::new(s.len(), |i: int| s[i]@)
}

/// The plan for one node: create the entry itself, then, depth first and in
/// declaration order, everything below it.
pub open spec fn node_plan(n: NodeV, prefix: Seq<Seq<char>>) -> Seq<ActionV>
    decreases n, 0int,
{
    match n {
        NodeV::File { name } => seq![ActionV::CreateFile { path: prefix.push(name) }],
        NodeV::Folder { name, children } => seq![ActionV::CreateDir { path: prefix.push(name) }]
            + match children {
            None => Seq::<ActionV>::empty(),
            Some(cs) => nodes_plan(cs, 0, prefix.push(name)),
        },
    }
}

/// The plans of the siblings `cs[i..]`, one after the other.
pub open spec fn nodes_plan(cs: Seq<NodeV>, i: int, prefix: Seq<Seq<char>>) -> Seq<ActionV>
    decreases cs, cs.len() - i + 1,
{
    if i < 0 || i >= cs.len() {
        Seq::empty()
    } else {
        node_plan(cs[i], prefix) + nodes_plan(cs, i + 1, prefix)
    }
}

/// The whole plan of a template, rooted at the given destination.
pub open spec fn template_plan(t: TemplateV, dest: Seq<Seq<char>>) -> Seq<ActionV> {
    nodes_plan(t.structure, 0, dest)
}

/// The path one action creates.
pub open spec fn action_path(a: ActionV) -> Seq<Seq<char>> {
    match a {
        ActionV::CreateDir { path } => path,
        ActionV::CreateFile { path } => path,
    }
}

/// The set of directory paths a plan creates.
pub open spec fn plan_dirs(p: Seq<ActionV>) -> Set<Seq<Seq<char>>> {
    Set::new(
        |pa: Seq<Seq<char>>|
            exists|i: int| 0 <= i < p.len() && p[i] == (ActionV::CreateDir { path: pa }),
    )
}

/// The set of file paths a plan creates.
pub open spec fn plan_files(p: Seq<ActionV>) -> Set<Seq<Seq<char>>> {
    Set::new(
        |pa: Seq<Seq<char>>|
            exists|i: int| 0 <= i < p.len() && p[i] == (ActionV::CreateFile { path: pa }),
    )
}

/// The directory paths a tree implies: one per folder node.
pub open spec fn node_dirs(n: NodeV, prefix: Seq<Seq<char>>) -> Set<Seq<Seq<char>>>
    decreases n, 0int,
{
    match n {
        NodeV::File { .. } => Set::empty(),
        NodeV::Folder { name, children } => {
            let below = match children {
                None => Set::<Seq<Seq<char>>>::empty(),
                Some(cs) => nodes_dirs(cs, 0, prefix.push(name)),
            };
            below.insert(prefix.push(name))
        },
    }
}

pub open spec fn nodes_dirs(cs: Seq<NodeV>, i: int, prefix: Seq<Seq<char>>) -> Set<Seq<Seq<char>>>
    decreases cs, cs.len() - i + 1,
{
    if i < 0 || i >= cs.len() {
        Set::empty()
    } else {
        node_dirs(cs[i], prefix).union(nodes_dirs(cs, i + 1, prefix))
    }
}

/// The file paths a tree implies: one per file node.
pub open spec fn node_files(n: NodeV, prefix: Seq<Seq<char>>) -> Set<Seq<Seq<char>>>
    decreases n, 0int,
{
    match n {
        NodeV::File { name } => Set::empty().insert(prefix.push(name)),
        NodeV::Folder { name, children } => match children {
            None => Set::<Seq<Seq<char>>>::empty(),
            Some(cs) => nodes_files(cs, 0, prefix.push(name)),
        },
    }
}

pub open spec fn nodes_files(cs: Seq<NodeV>, i: int, prefix: Seq<Seq<char>>) -> Set<Seq<Seq<char>>>
    decreases cs, cs.len() - i + 1,
{
    if i < 0 || i >= cs.len() {
        Set::empty()
    } else {
        node_files(cs[i], prefix).union(nodes_files(cs, i + 1, prefix))
    }
}

proof fn lemma_plan_sets_concat(a: Seq<ActionV>, b: Seq<ActionV>)
    ensures
        plan_dirs(a + b) =~= plan_dirs(a).union(plan_dirs(b)),
        plan_files(a + b) =~= plan_files(a).union(plan_files(b)),
{
    assert forall|pa: Seq<Seq<char>>| plan_dirs(a + b).contains(pa) implies plan_dirs(a).union(
        plan_dirs(b),
    ).contains(pa) by {
        let i = choose|i: int|
            0 <= i < (a + b).len() && #[trigger] (a + b)[i] == (ActionV::CreateDir { path: pa });
        if i < a.len() {
            assert(a[i] == (ActionV::CreateDir { path: pa }));
        } else {
            assert(b[i - a.len()] == (ActionV::CreateDir { path: pa }));
        }
    }
    assert forall|pa: Seq<Seq<char>>|
        plan_dirs(a).union(plan_dirs(b)).contains(pa) implies plan_dirs(a + b).contains(pa) by {
        if plan_dirs(a).contains(pa) {
            let i = choose|i: int|
                0 <= i < a.len() && #[trigger] a[i] == (ActionV::CreateDir { path: pa });
            assert((a + b)[i] == (ActionV::CreateDir { path: pa }));
        } else {
            let i = choose|i: int|
                0 <= i < b.len() && #[trigger] b[i] == (ActionV::CreateDir { path: pa });
            assert((a + b)[a.len() + i] == (ActionV::CreateDir { path: pa }));
        }
    }
    assert forall|pa: Seq<Seq<char>>| plan_files(a + b).contains(pa) implies plan_files(a).union(
        plan_files(b),
    ).contains(pa) by {
        let i = choose|i: int|
            0 <= i < (a + b).len() && #[trigger] (a + b)[i] == (ActionV::CreateFile { path: pa });
        if i < a.len() {
            assert(a[i] == (ActionV::CreateFile { path: pa }));
        } else {
            assert(b[i - a.len()] == (ActionV::CreateFile { path: pa }));
        }
    }
    assert forall|pa: Seq<Seq<char>>|
        plan_files(a).union(plan_files(b)).contains(pa) implies plan_files(a + b).contains(pa) by {
        if plan_files(a).contains(pa) {
            let i = choose|i: int|
                0 <= i < a.len() && #[trigger] a[i] == (ActionV::CreateFile { path: pa });
            assert((a + b)[i] == (ActionV::CreateFile { path: pa }));
        } else {
            let i = choose|i: int|
                0 <= i < b.len() && #[trigger] b[i] == (ActionV::CreateFile { path: pa });
            assert((a + b)[a.len() + i] == (ActionV::CreateFile { path: pa }));
        }
    }
}

/// Law: the plan of one node creates exactly the directory paths of its
/// folders and the file paths of its files, all rooted at the prefix.
pub proof fn lemma_node_plan_paths(n: NodeV, prefix: Seq<Seq<char>>)
    ensures
        plan_dirs(node_plan(n, prefix)) =~= node_dirs(n, prefix),
        plan_files(node_plan(n, prefix)) =~= node_files(n, prefix),
    decreases n, 0int,
{
    match n {
        NodeV::File { name } => {
            let p = node_plan(n, prefix);
            assert(p[0] == (ActionV::CreateFile { path: prefix.push(name) }));
            assert forall|pa: Seq<Seq<char>>| plan_files(p).contains(pa) implies pa == prefix.push(
                name,
            ) by {
                let i = choose|i: int|
                    0 <= i < p.len() && #[trigger] p[i] == (ActionV::CreateFile { path: pa });
            }
            assert forall|pa: Seq<Seq<char>>| plan_dirs(p).contains(pa) implies false by {
                let i = choose|i: int|
                    0 <= i < p.len() && #[trigger] p[i] == (ActionV::CreateDir { path: pa });
            }
        },
        NodeV::Folder { name, children } => {
            let head = seq![(ActionV::CreateDir { path: prefix.push(name) })];
            let rest: Seq<ActionV> = match children {
                None => Seq::empty(),
                Some(cs) => nodes_plan(cs, 0, prefix.push(name)),
            };
            assert(node_plan(n, prefix) == head + rest);
            lemma_plan_sets_concat(head, rest);
            assert(head[0] == (ActionV::CreateDir { path: prefix.push(name) }));
            assert forall|pa: Seq<Seq<char>>| plan_dirs(head).contains(pa) implies pa
                == prefix.push(name) by {
                let i = choose|i: int|
                    0 <= i < head.len() && #[trigger] head[i] == (ActionV::CreateDir { path: pa });
            }
            assert forall|pa: Seq<Seq<char>>| plan_files(head).contains(pa) implies false by {
                let i = choose|i: int|
                    0 <= i < head.len() && #[trigger] head[i] == (ActionV::CreateFile {
                        path: pa,
                    });
            }
            match children {
                None => {
                    assert(plan_dirs(rest) =~= Set::<Seq<Seq<char>>>::empty()) by {
                        assert forall|pa: Seq<Seq<char>>|
                            plan_dirs(rest).contains(pa) implies false by {
                            let i = choose|i: int|
                                0 <= i < rest.len() && #[trigger] rest[i] == (ActionV::CreateDir {
                                    path: pa,
                                });
                        }
                    }
                    assert(plan_files(rest) =~= Set::<Seq<Seq<char>>>::empty()) by {
                        assert forall|pa: Seq<Seq<char>>|
                            plan_files(rest).contains(pa) implies false by {
                            let i = choose|i: int|
                                0 <= i < rest.len() && #[trigger] rest[i] == (ActionV::CreateFile {
                                    path: pa,
                                });
                        }
                    }
                },
                Some(cs) => {
                    lemma_nodes_plan_paths(cs, 0, prefix.push(name));
                },
            }
        },
    }
}

pub proof fn lemma_nodes_plan_paths(cs: Seq<NodeV>, i: int, prefix: Seq<Seq<char>>)
    ensures
        plan_dirs(nodes_plan(cs, i, prefix)) =~= nodes_dirs(cs, i, prefix),
        plan_files(nodes_plan(cs, i, prefix)) =~= nodes_files(cs, i, prefix),
    decreases cs, cs.len() - i + 1,
{
    if 0 <= i < cs.len() {
        lemma_plan_sets_concat(node_plan(cs[i], prefix), nodes_plan(cs, i + 1, prefix));
        lemma_node_plan_paths(cs[i], prefix);
        lemma_nodes_plan_paths(cs, i + 1, prefix);
    } else {
        let p = nodes_plan(cs, i, prefix);
        assert forall|pa: Seq<Seq<char>>| plan_dirs(p).contains(pa) implies false by {
            let w = choose|w: int|
                0 <= w < p.len() && #[trigger] p[w] == (ActionV::CreateDir { path: pa });
        }
        assert forall|pa: Seq<Seq<char>>| plan_files(p).contains(pa) implies false by {
            let w = choose|w: int|
                0 <= w < p.len() && #[trigger] p[w] == (ActionV::CreateFile { path: pa });
        }
    }
}

/// Law: materializing a template into a fresh destination creates exactly
/// the paths its structure implies: every folder node as a directory, every
/// file node as a file, and nothing else.
pub proof fn lemma_template_plan_paths(t: TemplateV, dest: Seq<Seq<char>>)
    ensures
        plan_dirs(template_plan(t, dest)) =~= nodes_dirs(t.structure, 0, dest),
        plan_files(template_plan(t, dest)) =~= nodes_files(t.structure, 0, dest),
{
    lemma_nodes_plan_paths(t.structure, 0, dest);
}

/// `pa` lies under `prefix`: it extends it, entering the child named `name`.
pub open spec fn path_under(pa: Seq<Seq<char>>, prefix: Seq<Seq<char>>, name: Seq<char>) -> bool {
    pa.len() > prefix.len() && pa.take(prefix.len() as int) == prefix && pa[prefix.len() as int]
        == name
}

/// Operation `j` of a node's plan creates a path under the prefix, entering
/// the node's own name.
pub open spec fn node_under_at(n: NodeV, prefix: Seq<Seq<char>>, j: int) -> bool {
    path_under(action_path(node_plan(n, prefix)[j]), prefix, n.name())
}

/// Operation `j` of a sibling list's plan creates a path under the prefix,
/// entering one of the siblings.
pub open spec fn nodes_under_at(cs: Seq<NodeV>, i: int, prefix: Seq<Seq<char>>, j: int) -> bool {
    exists|k: int|
        i <= k < cs.len() && path_under(
            action_path(nodes_plan(cs, i, prefix)[j]),
            prefix,
            (#[trigger] cs[k]).name(),
        )
}

proof fn lemma_node_plan_under(n: NodeV, prefix: Seq<Seq<char>>)
    ensures
        forall|j: int| 0 <= j < node_plan(n, prefix).len() ==> #[trigger] node_under_at(n, prefix, j),
    decreases n, 0int,
{
    match n {
        NodeV::File { name } => {
            assert forall|j: int| 0 <= j < node_plan(n, prefix).len() implies #[trigger] node_under_at(
                n,
                prefix,
                j,
            ) by {
                assert(node_plan(n, prefix)[0] == (ActionV::CreateFile { path: prefix.push(name) }));
                assert(prefix.push(name).take(prefix.len() as int) =~= prefix);
            }
        },
        NodeV::Folder { name, children } => {
            let pd = prefix.push(name);
            let head = seq![(ActionV::CreateDir { path: pd })];
            let rest: Seq<ActionV> = match children {
                None => Seq::empty(),
                Some(cs) => nodes_plan(cs, 0, pd),
            };
            assert(node_plan(n, prefix) == head + rest);
            match children {
                Some(cs) => {
                    lemma_nodes_plan_under(cs, 0, pd);
                },
                None => {},
            }
            assert(pd.take(prefix.len() as int) =~= prefix);
            assert forall|j: int| 0 <= j < node_plan(n, prefix).len() implies #[trigger] node_under_at(
                n,
                prefix,
                j,
            ) by {
                if j == 0 {
                    assert(node_plan(n, prefix)[0] == (ActionV::CreateDir { path: pd }));
                } else {
                    match children {
                        Some(cs) => {
                            assert(nodes_under_at(cs, 0, pd, j - 1));
                            let k = choose|k: int|
                                0 <= k < cs.len() && path_under(
                                    action_path(nodes_plan(cs, 0, pd)[j - 1]),
                                    pd,
                                    (#[trigger] cs[k]).name(),
                                );
                            let pa = action_path(nodes_plan(cs, 0, pd)[j - 1]);
                            assert(node_plan(n, prefix)[j] == nodes_plan(cs, 0, pd)[j - 1]);
                            assert(pa.take(prefix.len() as int) =~= prefix) by {
                                assert(pa.take(pd.len() as int) == pd);
                                assert(forall|t: int|
                                    0 <= t < pd.len() ==> pa.take(pd.len() as int)[t] == #[trigger] pa[t]);
                            }
                            assert(pa[prefix.len() as int] == name) by {
                                assert(pa.take(pd.len() as int)[prefix.len() as int] == pa[prefix.len() as int]);
                            }
                        },
                        None => {},
                    }
                }
            }
        },
    }
}

proof fn lemma_nodes_plan_under(cs: Seq<NodeV>, i: int, prefix: Seq<Seq<char>>)
    ensures
        forall|j: int|
            0 <= j < nodes_plan(cs, i, prefix).len() ==> #[trigger] nodes_under_at(cs, i, prefix, j),
    decreases cs, cs.len() - i + 1,
{
    if 0 <= i < cs.len() {
        lemma_node_plan_under(cs[i], prefix);
        lemma_nodes_plan_under(cs, i + 1, prefix);
        let np = node_plan(cs[i], prefix);
        let rest = nodes_plan(cs, i + 1, prefix);
        assert forall|j: int| 0 <= j < nodes_plan(cs, i, prefix).len() implies #[trigger] nodes_under_at(
            cs,
            i,
            prefix,
            j,
        ) by {
            if j < np.len() {
                assert(node_under_at(cs[i], prefix, j));
                assert(nodes_plan(cs, i, prefix)[j] == np[j]);
                assert(path_under(action_path(nodes_plan(cs, i, prefix)[j]), prefix, cs[i].name()));
            } else {
                assert(nodes_under_at(cs, i + 1, prefix, j - np.len()));
                let k = choose|k: int|
                    i + 1 <= k < cs.len() && path_under(
                        action_path(nodes_plan(cs, i + 1, prefix)[j - np.len()]),
                        prefix,
                        (#[trigger] cs[k]).name(),
                    );
                assert(nodes_plan(cs, i, prefix)[j] == rest[j - np.len()]);
                assert(path_under(action_path(nodes_plan(cs, i, prefix)[j]), prefix, cs[k].name()));
            }
        }
    }
}

/// No two operations of the plan create the same path.
pub open spec fn plan_paths_distinct(p: Seq<ActionV>) -> bool {
    forall|a: int, b: int|
        0 <= a < b < p.len() ==> action_path(#[trigger] p[a]) != action_path(#[trigger] p[b])
}

proof fn lemma_node_plan_distinct(n: NodeV, prefix: Seq<Seq<char>>)
    requires
        node_wf(n),
    ensures
        plan_paths_distinct(node_plan(n, prefix)),
    decreases n, 0int,
{
    match n {
        NodeV::File { .. } => {},
        NodeV::Folder { name, children } => {
            let pd = prefix.push(name);
            let rest: Seq<ActionV> = match children {
                None => Seq::empty(),
                Some(cs) => nodes_plan(cs, 0, pd),
            };
            match children {
                Some(cs) => {
                    lemma_nodes_plan_distinct(cs, 0, pd);
                    lemma_nodes_plan_under(cs, 0, pd);
                },
                None => {},
            }
            let p = node_plan(n, prefix);
            assert forall|a: int, b: int|
                0 <= a < b < p.len() implies action_path(#[trigger] p[a]) != action_path(
                #[trigger] p[b],
            ) by {
                match children {
                    Some(cs) => {
                        if a == 0 {
                            assert(action_path(p[0]) == pd);
                            assert(nodes_under_at(cs, 0, pd, b - 1));
                            let k = choose|k: int|
                                0 <= k < cs.len() && path_under(
                                    action_path(nodes_plan(cs, 0, pd)[b - 1]),
                                    pd,
                                    (#[trigger] cs[k]).name(),
                                );
                            assert(p[b] == rest[b - 1]);
                            assert(action_path(p[b]).len() > pd.len());
                        } else {
                            assert(p[a] == rest[a - 1] && p[b] == rest[b - 1]);
                        }
                    },
                    None => {},
                }
            }
        },
    }
}

proof fn lemma_nodes_plan_distinct(cs: Seq<NodeV>, i: int, prefix: Seq<Seq<char>>)
    requires
        nodes_wf(cs),
    ensures
        plan_paths_distinct(nodes_plan(cs, i, prefix)),
    decreases cs, cs.len() - i + 1,
{
    if 0 <= i < cs.len() {
        assert(node_wf(cs[i]));
        lemma_node_plan_distinct(cs[i], prefix);
        lemma_nodes_plan_distinct(cs, i + 1, prefix);
        lemma_node_plan_under(cs[i], prefix);
        lemma_nodes_plan_under(cs, i + 1, prefix);
        let np = node_plan(cs[i], prefix);
        let rest = nodes_plan(cs, i + 1, prefix);
        let p = nodes_plan(cs, i, prefix);
        assert forall|a: int, b: int|
            0 <= a < b < p.len() implies action_path(#[trigger] p[a]) != action_path(
            #[trigger] p[b],
        ) by {
            if b < np.len() {
                assert(p[a] == np[a] && p[b] == np[b]);
            } else if a >= np.len() {
                assert(p[a] == rest[a - np.len()] && p[b] == rest[b - np.len()]);
            } else {
                assert(node_under_at(cs[i], prefix, a));
                assert(nodes_under_at(cs, i + 1, prefix, b - np.len()));
                let k = choose|k: int|
                    i + 1 <= k < cs.len() && path_under(
                        action_path(nodes_plan(cs, i + 1, prefix)[b - np.len()]),
                        prefix,
                        (#[trigger] cs[k]).name(),
                    );
                assert(p[a] == np[a] && p[b] == rest[b - np.len()]);
                assert(cs[i].name() != cs[k].name());
                assert(action_path(p[a])[prefix.len() as int] == cs[i].name());
                assert(action_path(p[b])[prefix.len() as int] == cs[k].name());
            }
        }
    }
}

/// Operation `j` of the plan can run: the directory it creates its entry in
/// is the destination itself, or was created by an earlier operation.
pub open spec fn parent_ready_at(p: Seq<ActionV>, dest: Seq<Seq<char>>, j: int) -> bool {
    action_path(p[j]).drop_last() == dest || exists|a: int|
        0 <= a < j && #[trigger] p[a] == (ActionV::CreateDir { path: action_path(p[j]).drop_last() })
}

/// Every operation of the plan finds its parent directory in place.
pub open spec fn parents_ready(p: Seq<ActionV>, dest: Seq<Seq<char>>) -> bool {
    forall|j: int| 0 <= j < p.len() ==> #[trigger] parent_ready_at(p, dest, j)
}

proof fn lemma_parents_ready_concat(x: Seq<ActionV>, y: Seq<ActionV>, dest: Seq<Seq<char>>)
    requires
        parents_ready(x, dest),
        parents_ready(y, dest),
    ensures
        parents_ready(x + y, dest),
{
    let p = x + y;
    assert forall|j: int| 0 <= j < p.len() implies #[trigger] parent_ready_at(p, dest, j) by {
        if j < x.len() {
            assert(parent_ready_at(x, dest, j));
            assert(p[j] == x[j]);
            if action_path(x[j]).drop_last() != dest {
                let a = choose|a: int|
                    0 <= a < j && #[trigger] x[a] == (ActionV::CreateDir {
                        path: action_path(x[j]).drop_last(),
                    });
                assert(p[a] == x[a]);
            }
        } else {
            let j2 = j - x.len();
            assert(parent_ready_at(y, dest, j2));
            assert(p[j] == y[j2]);
            if action_path(y[j2]).drop_last() != dest {
                let a = choose|a: int|
                    0 <= a < j2 && #[trigger] y[a] == (ActionV::CreateDir {
                        path: action_path(y[j2]).drop_last(),
                    });
                assert(p[x.len() + a] == y[a]);
            }
        }
    }
}

proof fn lemma_node_plan_ready(n: NodeV, prefix: Seq<Seq<char>>)
    ensures
        parents_ready(node_plan(n, prefix), prefix),
    decreases n, 0int,
{
    match n {
        NodeV::File { name } => {
            let p = node_plan(n, prefix);
            assert forall|j: int| 0 <= j < p.len() implies #[trigger] parent_ready_at(
                p,
                prefix,
                j,
            ) by {
                assert(p[0] == (ActionV::CreateFile { path: prefix.push(name) }));
                assert(prefix.push(name).drop_last() =~= prefix);
            }
        },
        NodeV::Folder { name, children } => {
            let pd = prefix.push(name);
            let rest: Seq<ActionV> = match children {
                None => Seq::empty(),
                Some(cs) => nodes_plan(cs, 0, pd),
            };
            match children {
                Some(cs) => {
                    lemma_nodes_plan_ready(cs, 0, pd);
                },
                None => {},
            }
            let p = node_plan(n, prefix);
            assert forall|j: int| 0 <= j < p.len() implies #[trigger] parent_ready_at(
                p,
                prefix,
                j,
            ) by {
                if j == 0 {
                    assert(p[0] == (ActionV::CreateDir { path: pd }));
                    assert(pd.drop_last() =~= prefix);
                } else {
                    match children {
                        Some(cs) => {
                            assert(parent_ready_at(rest, pd, j - 1));
                            assert(p[j] == rest[j - 1]);
                            if action_path(rest[j - 1]).drop_last() == pd {
                                assert(p[0] == (ActionV::CreateDir {
                                    path: action_path(p[j]).drop_last(),
                                }));
                            } else {
                                let a = choose|a: int|
                                    0 <= a < j - 1 && #[trigger] rest[a] == (ActionV::CreateDir {
                                        path: action_path(rest[j - 1]).drop_last(),
                                    });
                                assert(p[a + 1] == rest[a]);
                            }
                        },
                        None => {},
                    }
                }
            }
        },
    }
}

proof fn lemma_nodes_plan_ready(cs: Seq<NodeV>, i: int, prefix: Seq<Seq<char>>)
    ensures
        parents_ready(nodes_plan(cs, i, prefix), prefix),
    decreases cs, cs.len() - i + 1,
{
    if 0 <= i < cs.len() {
        lemma_node_plan_ready(cs[i], prefix);
        lemma_nodes_plan_ready(cs, i + 1, prefix);
        lemma_parents_ready_concat(
            node_plan(cs[i], prefix),
            nodes_plan(cs, i + 1, prefix),
            prefix,
        );
    }
}

/// Law: for a well-formed template the plan runs cleanly in an empty
/// destination: no path is created twice, and every operation's parent
/// directory is the destination itself or was made by an earlier operation
/// of the same plan.
pub proof fn lemma_template_plan_executable(t: TemplateV, dest: Seq<Seq<char>>)
    requires
        nodes_wf(t.structure),
    ensures
        plan_paths_distinct(template_plan(t, dest)),
        parents_ready(template_plan(t, dest), dest),
{
    lemma_nodes_plan_distinct(t.structure, 0, dest);
    lemma_nodes_plan_ready(t.structure, 0, dest);
}

/// Law: a whole build — the fresh root folder, then the template inside it —
/// runs cleanly against the destination path: no path is created twice, and
/// every operation's parent directory is the destination itself or was made
/// earlier in the same plan.
pub proof fn lemma_build_plan_executable(t: TemplateV, base: Seq<char>)
    requires
        nodes_wf(t.structure),
    ensures
        ({
            let p = seq![(ActionV::CreateDir { path: seq![base] })] + template_plan(t, seq![base]);
            plan_paths_distinct(p) && parents_ready(p, Seq::empty())
        }),
{
    let root = seq![base];
    let head = seq![(ActionV::CreateDir { path: root })];
    let rest = template_plan(t, root);
    let p = head + rest;
    lemma_template_plan_executable(t, root);
    lemma_nodes_plan_under(t.structure, 0, root);
    assert forall|a: int, b: int|
        0 <= a < b < p.len() implies action_path(#[trigger] p[a]) != action_path(
        #[trigger] p[b],
    ) by {
        if a == 0 {
            assert(nodes_under_at(t.structure, 0, root, b - 1));
            let k = choose|k: int|
                0 <= k < t.structure.len() && path_under(
                    action_path(nodes_plan(t.structure, 0, root)[b - 1]),
                    root,
                    (#[trigger] t.structure[k]).name(),
                );
            assert(p[b] == rest[b - 1]);
            assert(action_path(p[b]).len() > 1);
            assert(action_path(p[0]) == root);
        } else {
            assert(p[a] == rest[a - 1] && p[b] == rest[b - 1]);
        }
    }
    assert forall|j: int| 0 <= j < p.len() implies #[trigger] parent_ready_at(
        p,
        Seq::<Seq<char>>::empty(),
        j,
    ) by {
        if j == 0 {
            assert(root.drop_last() =~= Seq::<Seq<char>>::empty());
        } else {
            assert(parent_ready_at(rest, root, j - 1));
            assert(p[j] == rest[j - 1]);
            if action_path(rest[j - 1]).drop_last() == root {
                assert(p[0] == (ActionV::CreateDir { path: action_path(p[j]).drop_last() }));
            } else {
                let a = choose|a: int|
                    0 <= a < j - 1 && #[trigger] rest[a] == (ActionV::CreateDir {
                        path: action_path(rest[j - 1]).drop_last(),
                    });
                assert(p[a + 1] == rest[a]);
            }
        }
    }
}

/// Copy a path, segment for segment.
fn clone_strings(v: &Vec<String>) -> (r: Vec<String>)
    ensures
        r@ == v@,
{
    let n = v.len();
    let mut r: Vec<String> = Vec::new();
    let mut i: usize = 0;
    while i < n
        invariant
            i <= n,
            n == v.len(),
            r@ == v@.take(i as int),
        decreases n - i,
    {
        r.push(v[i].clone());
        proof {
            assert(v@.take(i as int).push(v@[i as int]) =~= v@.take(i as int + 1));
        }
        i += 1;
    }
    proof {
        assert(v@.take(n as int) =~= v@);
    }
    r
}

/// Append one planned action.
fn push_action(out: &mut Vec<Action>, a: Action)
    ensures
        actions_view(final(out)@) == actions_view(old(out)@).push(a@),
{
    let ghost prev = out@;
    let ghost av = a@;
    out.push(a);
    proof {
        assert(actions_view(out@) =~= actions_view(prev).push(av));
    }
}

impl Node {
    /// Plan this node and its subtree under the given path prefix: its own
    /// entry first, then its children's, depth first.
    pub fn build(&self, prefix: &Vec<String>, out: &mut Vec<Action>)
        ensures
            actions_view(final(out)@) == actions_view(old(out)@) + node_plan(
                self@,
                lines_view(prefix@),
            ),
        decreases *self,
    {
        let ghost out0 = out@;
        let mut path = clone_strings(prefix);
        path.push(self.name.clone());
        proof {
            assert(lines_view(path@) =~= lines_view(prefix@).push(self.name@));
        }
        match &self.kind {
            NodeKind::File => {
                push_action(out, Action::CreateFile { path });
                proof {
                    assert(actions_view(out@) =~= actions_view(out0) + node_plan(
                        self@,
                        lines_view(prefix@),
                    ));
                }
            },
            NodeKind::Folder(oc) => {
                let dir_path = clone_strings(&path);
                push_action(out, Action::CreateDir { path: dir_path });
                match oc {
                    None => {
                        proof {
                            assert(actions_view(out@) =~= actions_view(out0) + node_plan(
                                self@,
                                lines_view(prefix@),
                            ));
                        }
                    },
                    Some(children) => {
                        build_nodes(children, &path, out);
                        proof {
                            assert(actions_view(out@) =~= actions_view(out0) + node_plan(
                                self@,
                                lines_view(prefix@),
                            ));
                        }
                    },
                }
            },
        }
    }
}

/// Plan a sibling list, left to right.
fn build_nodes(nodes: &Vec<Node>, prefix: &Vec<String>, out: &mut Vec<Action>)
    ensures
        actions_view(final(out)@) == actions_view(old(out)@) + nodes_plan(
            nodes_view(nodes@),
            0,
            lines_view(prefix@),
        ),
    decreases *nodes,
{
    proof {
        lemma_nodes_view(nodes@);
    }
    let ghost cs = nodes_view(nodes@);
    let ghost d = lines_view(prefix@);
    let ghost out0 = out@;
    let n = nodes.len();
    proof {
        assert(actions_view(out@) + nodes_plan(cs, 0, d) =~= actions_view(out0) + nodes_plan(
            cs,
            0,
            d,
        ));
    }
    let mut i: usize = 0;
    while i < n
        invariant
            i <= n,
            n == nodes.len(),
            cs == nodes_view(nodes@),
            cs.len() == n,
            d == lines_view(prefix@),
            forall|t: int| 0 <= t < n ==> cs[t] == node_view(nodes@[t]),
            actions_view(out@) + nodes_plan(cs, i as int, d) =~= actions_view(out0) + nodes_plan(
                cs,
                0,
                d,
            ),
        decreases n - i,
    {
        let ghost out_before = out@;
        nodes[i].build(prefix, out);
        proof {
            assert(actions_view(out@) + nodes_plan(cs, i as int + 1, d) =~= actions_view(out0)
                + nodes_plan(cs, 0, d)) by {
                assert(nodes_plan(cs, i as int, d) == node_plan(cs[i as int], d) + nodes_plan(
                    cs,
                    i as int + 1,
                    d,
                ));
                assert(actions_view(out@) =~= actions_view(out_before) + node_plan(
                    cs[i as int],
                    d,
                ));
                assert(actions_view(out@) + nodes_plan(cs, i as int + 1, d) =~= actions_view(
                    out_before,
                ) + nodes_plan(cs, i as int, d));
            }
        }
        i += 1;
    }
    proof {
        assert(nodes_plan(cs, n as int, d) =~= Seq::<ActionV>::empty());
        assert(actions_view(out@) + nodes_plan(cs, n as int, d) =~= actions_view(out@));
        assert(actions_view(out0) + nodes_plan(cs, 0, d) =~= actions_view(out@));
    }
}

impl Template {
    /// The materialization plan of this template, rooted at the given
    /// destination: every node becomes one create operation, parents before
    /// children, siblings in declaration order.
    pub fn build(&self, dest: &Vec<String>) -> (r: Vec<Action>)
        ensures
            actions_view(r@) == template_plan(self@, lines_view(dest@)),
    {
        let mut out: Vec<Action> = Vec::new();
        proof {
            assert(actions_view(out@) =~= Seq::<ActionV>::empty());
            assert(Seq::<ActionV>::empty() + template_plan(self@, lines_view(dest@))
                =~= template_plan(self@, lines_view(dest@)));
        }
        build_nodes(&self.structure, dest, &mut out);
        out
    }
}

} // verus!
