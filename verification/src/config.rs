pub mod materialize;
pub mod parse;
pub mod print;

use vstd::prelude::*;
use vstd::string::StrSliceExecFns;

use crate::config::parse::line::LineErrorKind;

pub use materialize::{
    action_path, actions_view, node_dirs, node_files, node_plan, node_under_at, nodes_dirs,
    nodes_files, nodes_plan, nodes_under_at, parent_ready_at, parents_ready, path_under,
    plan_dirs, plan_files, plan_paths_distinct, template_plan, Action, ActionV,
    lemma_build_plan_executable, lemma_node_plan_paths, lemma_nodes_plan_paths,
    lemma_template_plan_executable, lemma_template_plan_paths,
};
pub use print::{
    child_entries, child_lines, child_shown, continuation, entries_from, entry_shown, glyph,
    lemma_render_matches_structure, render_from, shows_entry, template_lines,
};

verus! {

/// One filesystem entry inside a template: an empty file, or a folder whose
/// children, if it was expanded, are ordered as they were declared.
#[derive(Debug)]
pub struct Node {
    pub name: String,
    pub kind: NodeKind,
}

#[derive(Debug)]
pub enum NodeKind {
    Folder(Option<Vec<Node>>),
    File,
}

/// Mathematical image of a `Node`.
pub enum NodeV {
    File { name: Seq<char> },
    Folder { name: Seq<char>, children: Option<Seq<NodeV>> },
}

impl NodeV {
    pub open spec fn name(self) -> Seq<char> {
        match self {
            NodeV::File { name } => name,
            NodeV::Folder { name, .. } => name,
        }
    }
}

/// The image of a node tree, children mapped pointwise.
pub open spec fn node_view(n: Node) -> NodeV
    decreases n,
{
    match n.kind {
        NodeKind::File => NodeV::File { name: n.name@ },
        NodeKind::Folder(oc) => NodeV::Folder {
            name: n.name@,
            children: match oc {
                None => None,
                Some(cs) => Some(nodes_view(cs@)),
            },
        },
    }
}

/// The image of a sibling list.
pub open spec fn nodes_view(ns: Seq<Node>) -> Seq<NodeV>
    decreases ns,
{
    if ns.len() == 0 {
        Seq::empty()
    } else {
        seq![node_view(ns[0])] + nodes_view(ns.subrange(1, ns.len() as int))
    }
}

/// `nodes_view` is the pointwise image of `node_view`.
pub broadcast proof fn lemma_nodes_view(ns: Seq<Node>)
    ensures
        (#[trigger] nodes_view(ns)).len() == ns.len(),
        forall|i: int| 0 <= i < ns.len() ==> nodes_view(ns)[i] == node_view(ns[i]),
    decreases ns,
{
    if ns.len() > 0 {
        lemma_nodes_view(ns.subrange(1, ns.len() as int));
    }
}

impl View for Node {
    type V = NodeV;

    open spec fn view(&self) -> NodeV {
        node_view(*self)
    }
}

/// Sibling names are pairwise distinct.
pub open spec fn distinct_names(ns: Seq<NodeV>) -> bool {
    forall|i: int, j: int| 0 <= i < j < ns.len() ==> ns[i].name() != ns[j].name()
}

/// Well-formed tree: files never have children by construction, and every
/// sibling list has pairwise-distinct names.
pub open spec fn node_wf(n: NodeV) -> bool
    decreases n,
{
    match n {
        NodeV::File { .. } => true,
        NodeV::Folder { children: None, .. } => true,
        NodeV::Folder { children: Some(cs), .. } => nodes_wf(cs),
    }
}

pub open spec fn nodes_wf(ns: Seq<NodeV>) -> bool
    decreases ns,
{
    distinct_names(ns) && forall|i: int| 0 <= i < ns.len() ==> node_wf(#[trigger] ns[i])
}

/// A named tree of nodes, the unit a user asks to have materialized or shown.
#[derive(Debug)]
pub struct Template {
    pub name: String,
    pub structure: Vec<Node>,
}

/// Mathematical image of a `Template`.
pub struct TemplateV {
    pub name: Seq<char>,
    pub structure: Seq<NodeV>,
}

impl View for Template {
    type V = TemplateV;

    open spec fn view(&self) -> TemplateV {
        TemplateV { name: self.name@, structure: nodes_view(self.structure@) }
    }
}

impl DeepView for Template {
    type V = TemplateV;

    open spec fn deep_view(&self) -> TemplateV {
        self.view()
    }
}

/// The registry: every assembled template, in declaration order, and the name
/// of a default template if one was configured. Read-only once built.
#[derive(Debug)]
pub struct Config {
    pub templates: Vec<Template>,
    pub favorite: Option<String>,
}

/// Mathematical image of a `Config`.
pub struct ConfigV {
    pub templates: Seq<TemplateV>,
    pub favorite: Option<Seq<char>>,
}

impl View for Config {
    type V = ConfigV;

    open spec fn view(&self) -> ConfigV {
        ConfigV { templates: self.templates.deep_view(), favorite: self.favorite.deep_view() }
    }
}

/// One entry of the nested-mapping form of a template: a name, and, for a
/// folder written `name/`, its children if any were given.
#[derive(Debug)]
pub struct TemplateEntry {
    pub name: String,
    pub data: Option<TemplateData>,
}

/// The nested-mapping form of a template's structure, in declaration order.
#[derive(Debug)]
pub struct TemplateData {
    pub structure: Vec<TemplateEntry>,
}

/// One named template in the nested-mapping form of the whole configuration.
#[derive(Debug)]
pub struct ConfigEntry {
    pub name: String,
    pub data: TemplateData,
}

/// The nested-mapping form of the whole configuration, as a deserializer
/// hands it over.
#[derive(Debug)]
pub struct ConfigData {
    pub templates: Vec<ConfigEntry>,
    pub favorite: Option<String>,
}

/// Mathematical image of a `TemplateEntry`.
pub struct TemplateEntryV {
    pub name: Seq<char>,
    pub data: Option<TemplateDataV>,
}

/// Mathematical image of a `TemplateData`.
pub struct TemplateDataV {
    pub structure: Seq<TemplateEntryV>,
}

pub open spec fn template_entry_view(e: TemplateEntry) -> TemplateEntryV
    decreases e,
{
    TemplateEntryV {
        name: e.name@,
        data: match e.data {
            None => None,
            Some(d) => Some(TemplateDataV { structure: entries_view(d.structure@) }),
        },
    }
}

/// The image of a list of mapping entries.
pub open spec fn entries_view(es: Seq<TemplateEntry>) -> Seq<TemplateEntryV>
    decreases es,
{
    if es.len() == 0 {
        Seq::empty()
    } else {
        seq![template_entry_view(es[0])] + entries_view(es.subrange(1, es.len() as int))
    }
}

/// `entries_view` is the pointwise image of `template_entry_view`.
pub broadcast proof fn lemma_entries_view(es: Seq<TemplateEntry>)
    ensures
        (#[trigger] entries_view(es)).len() == es.len(),
        forall|i: int| 0 <= i < es.len() ==> entries_view(es)[i] == template_entry_view(es[i]),
    decreases es,
{
    if es.len() > 0 {
        lemma_entries_view(es.subrange(1, es.len() as int));
    }
}

impl View for TemplateData {
    type V = TemplateDataV;

    open spec fn view(&self) -> TemplateDataV {
        TemplateDataV { structure: entries_view(self.structure@) }
    }
}

/// Mathematical image of a `ConfigEntry`.
pub struct ConfigEntryV {
    pub name: Seq<char>,
    pub data: TemplateDataV,
}

/// Mathematical image of a `ConfigData`.
pub struct ConfigDataV {
    pub templates: Seq<ConfigEntryV>,
    pub favorite: Option<Seq<char>>,
}

impl View for ConfigEntry {
    type V = ConfigEntryV;

    open spec fn view(&self) -> ConfigEntryV {
        ConfigEntryV { name: self.name@, data: self.data@ }
    }
}

impl View for ConfigData {
    type V = ConfigDataV;

    open spec fn view(&self) -> ConfigDataV {
        ConfigDataV {
            templates: Seq::new(self.templates@.len(), |i: int| self.templates@[i]@),
            favorite: self.favorite.deep_view(),
        }
    }
}

/// An entry name written `.../` denotes a folder.
pub open spec fn is_folder_name(s: Seq<char>) -> bool {
    s.len() > 0 && s[s.len() - 1] == '/'
}

/// The node name an entry yields: the trailing separator is stripped from a
/// folder's name.
pub open spec fn node_name_of(e: TemplateEntryV) -> Seq<char> {
    if is_folder_name(e.name) {
        e.name.drop_last()
    } else {
        e.name
    }
}

/// The node one mapping entry assembles to. A file entry's stray children are
/// reported separately and never attached.
pub open spec fn entry_node(e: TemplateEntryV) -> NodeV
    decreases e, 1int,
{
    if is_folder_name(e.name) {
        NodeV::Folder {
            name: e.name.drop_last(),
            children: match e.data {
                None => None,
                Some(d) => Some(data_nodes(d)),
            },
        }
    } else {
        NodeV::File { name: e.name }
    }
}

/// The sibling list a nested mapping assembles to.
pub open spec fn data_nodes(d: TemplateDataV) -> Seq<NodeV>
    decreases d, 2int,
{
    entries_nodes(d.structure, 0)
}

/// The nodes of the entries `es[i..]`, one per entry, in order.
pub open spec fn entries_nodes(es: Seq<TemplateEntryV>, i: int) -> Seq<NodeV>
    decreases es, es.len() - i + 3,
{
    if i < 0 || i >= es.len() {
        Seq::empty()
    } else {
        seq![entry_node(es[i])] + entries_nodes(es, i + 1)
    }
}

/// A duplicate-name error is charged to the later of two same-named siblings.
pub open spec fn dup_err(es: Seq<TemplateEntryV>, i: int) -> Seq<LineErrorKind> {
    if exists|j: int| 0 <= j < i && node_name_of(es[j]) == node_name_of(es[i]) {
        seq![LineErrorKind::DuplicateSiblingName]
    } else {
        Seq::empty()
    }
}

/// The assembly errors one mapping entry carries: a file with children is an
/// error, and a folder's nested mapping is checked recursively.
pub open spec fn entry_errs(e: TemplateEntryV) -> Seq<LineErrorKind>
    decreases e, 1int,
{
    if is_folder_name(e.name) {
        match e.data {
            None => Seq::empty(),
            Some(d) => data_errs(d),
        }
    } else {
        match e.data {
            None => Seq::empty(),
            Some(d) => seq![LineErrorKind::FileWithChildren],
        }
    }
}

/// Every assembly error a nested mapping carries.
pub open spec fn data_errs(d: TemplateDataV) -> Seq<LineErrorKind>
    decreases d, 2int,
{
    entries_errs(d.structure, 0)
}

/// The errors of the entries `es[i..]`, each entry's duplicate-name error
/// before its own.
pub open spec fn entries_errs(es: Seq<TemplateEntryV>, i: int) -> Seq<LineErrorKind>
    decreases es, es.len() - i + 3,
{
    if i < 0 || i >= es.len() {
        Seq::empty()
    } else {
        dup_err(es, i) + entry_errs(es[i]) + entries_errs(es, i + 1)
    }
}

/// The first template of the sequence that carries the given name.
pub open spec fn lookup_template(ts: Seq<TemplateV>, name: Seq<char>) -> Option<TemplateV>
    decreases ts,
{
    if ts.len() == 0 {
        None
    } else if ts[0].name == name {
        Some(ts[0])
    } else {
        lookup_template(ts.drop_first(), name)
    }
}

/// Character-for-character string comparison.
pub fn str_eq(a: &str, b: &str) -> (r: bool)
    ensures
        r == (a@ == b@),
{
    let na: usize = a.unicode_len();
    let nb: usize = b.unicode_len();
    if na != nb {
        assert(a@ != b@) by {
            assert(a@.len() != b@.len());
        }
        return false;
    }
    let mut i: usize = 0;
    while i < na
        invariant
            i <= na,
            na == a@.len(),
            na == b@.len(),
            forall|t: int| 0 <= t < i ==> a@[t] == b@[t],
        decreases na - i,
    {
        if a.get_char(i) != b.get_char(i) {
            return false;
        }
        i += 1;
    }
    proof {
        assert(a@ =~= b@);
    }
    true
}

/// The image of a list of built lines.
pub open spec fn lines_view(ss: Seq<String>) -> Seq<Seq<char>> {
    Seq::new(ss.len(), |i: int| ss[i]@)
}

impl Node {
    /// A file node of the given name.
    pub fn new_file(name: &str) -> (r: Node)
        ensures
            r@ == (NodeV::File { name: name@ }),
    {
        Node { name: name.to_owned(), kind: NodeKind::File }
    }
}

impl Template {
    /// A template of the given name with nothing in it yet.
    pub fn new_with_name(name: &str) -> (r: Template)
        ensures
            r@ == (TemplateV { name: name@, structure: Seq::<NodeV>::empty() }),
    {
        Template { name: name.to_owned(), structure: Vec::new() }
    }

    /// The template's name.
    pub fn name(&self) -> (r: &str)
        ensures
            r@ == self@.name,
    {
        self.name.as_str()
    }

    /// Assemble one template from its nested-mapping form. Every assembly
    /// error found is returned; a template comes back only when there were
    /// none.
    pub fn from_template_data(name: &str, data: &TemplateData) -> (r: Result<
        Template,
        Vec<LineErrorKind>,
    >)
        ensures
            match r {
                Ok(t) => data_errs(data@).len() == 0 && t@ == (TemplateV {
                    name: name@,
                    structure: data_nodes(data@),
                }) && nodes_wf(t@.structure),
                Err(es) => es@ == data_errs(data@) && es@.len() > 0,
            },
    {
        let mut errs: Vec<LineErrorKind> = Vec::new();
        let nodes = entries_to_nodes(&data.structure, &mut errs);
        proof {
            assert(errs@ =~= data_errs(data@));
        }
        if errs.len() == 0 {
            proof {
                lemma_clean_assembly_wf(data@);
            }
            Ok(Template { name: name.to_owned(), structure: nodes })
        } else {
            Err(errs)
        }
    }

    /// Assemble the children of a folder entry: nothing for a bare `name/`,
    /// the assembled sibling list for a `name/` with a nested mapping, its
    /// errors appended.
    pub fn folder_from_template_data(
        template_data: &Option<TemplateData>,
        errs: &mut Vec<LineErrorKind>,
    ) -> (r: Option<Vec<Node>>)
        ensures
            match template_data {
                None => r is None && final(errs)@ == old(errs)@,
                Some(d) => match r {
                    Some(ns) => nodes_view(ns@) == data_nodes(d@) && final(errs)@ == old(errs)@
                        + data_errs(d@),
                    None => false,
                },
            },
    {
        match template_data {
            None => None,
            Some(d) => Some(entries_to_nodes(&d.structure, errs)),
        }
    }
}

pub proof fn lemma_node_view_name(n: Node)
    ensures
        node_view(n).name() == n.name@,
{
}

pub proof fn lemma_entry_node_name(e: TemplateEntryV)
    ensures
        entry_node(e).name() == node_name_of(e),
{
}

/// Assemble a list of mapping entries into nodes, appending every assembly
/// error found along the way.
fn entries_to_nodes(es: &Vec<TemplateEntry>, errs: &mut Vec<LineErrorKind>) -> (r: Vec<Node>)
    ensures
        nodes_view(r@) == entries_nodes(entries_view(es@), 0),
        final(errs)@ == old(errs)@ + entries_errs(entries_view(es@), 0),
    decreases *es,
{
    proof {
        lemma_entries_view(es@);
    }
    let ghost ev = entries_view(es@);
    let ghost errs0 = errs@;
    let n = es.len();
    let mut r: Vec<Node> = Vec::new();
    proof {
        assert(errs@ + entries_errs(ev, 0) =~= errs0 + entries_errs(ev, 0));
    }
    let mut i: usize = 0;
    while i < n
        invariant
            i <= n,
            n == es.len(),
            ev == entries_view(es@),
            ev.len() == n,
            forall|t: int| 0 <= t < n ==> ev[t] == template_entry_view(es@[t]),
            r@.len() == i,
            forall|t: int| 0 <= t < i ==> node_view(#[trigger] r@[t]) == entry_node(ev[t]),
            errs@ + entries_errs(ev, i as int) =~= errs0 + entries_errs(ev, 0),
        decreases n - i,
    {
        let entry = &es[i];
        let ghost e = ev[i as int];
        let name_len = entry.name.as_str().unicode_len();
        let folderish = name_len > 0 && entry.name.as_str().get_char(name_len - 1) == '/';
        proof {
            assert(folderish == is_folder_name(e.name));
        }
        let node_name: String = if folderish {
            let stripped = entry.name.as_str().substring_char(0, name_len - 1).to_owned();
            proof {
                assert(stripped@ =~= e.name.drop_last());
            }
            stripped
        } else {
            entry.name.clone()
        };
        proof {
            assert(node_name@ == node_name_of(e));
        }

        // Is the new node's name already taken among its elder siblings?
        let mut dup = false;
        let mut j: usize = 0;
        while j < i
            invariant
                j <= i,
                i <= n,
                r@.len() == i,
                ev.len() == n,
                node_name@ == node_name_of(ev[i as int]),
                forall|t: int| 0 <= t < i ==> node_view(#[trigger] r@[t]) == entry_node(ev[t]),
                dup == exists|t: int|
                    0 <= t < j && node_name_of(#[trigger] ev[t]) == node_name_of(ev[i as int]),
            decreases i - j,
        {
            if str_eq(r[j].name.as_str(), node_name.as_str()) {
                dup = true;
                proof {
                    lemma_node_view_name(r@[j as int]);
                    lemma_entry_node_name(ev[j as int]);
                    assert(node_name_of(ev[j as int]) == node_name_of(ev[i as int]));
                }
            } else {
                proof {
                    lemma_node_view_name(r@[j as int]);
                    lemma_entry_node_name(ev[j as int]);
                    assert(node_name_of(ev[j as int]) != node_name_of(ev[i as int]));
                }
            }
            j += 1;
        }
        let ghost errs_at_entry = errs@;
        if dup {
            errs.push(LineErrorKind::DuplicateSiblingName);
            proof {
                assert(errs@ =~= errs_at_entry + dup_err(ev, i as int));
            }
        } else {
            proof {
                assert(dup_err(ev, i as int) =~= Seq::<LineErrorKind>::empty());
                assert(errs@ =~= errs_at_entry + dup_err(ev, i as int));
            }
        }
        let ghost errs_after_dup = errs@;

        if folderish {
            let children: Option<Vec<Node>> = match &entry.data {
                None => {
                    proof {
                        assert(entry_errs(e) =~= Seq::<LineErrorKind>::empty());
                        assert(errs@ =~= errs_after_dup + entry_errs(e));
                    }
                    None
                },
                Some(d) => {
                    let kids = entries_to_nodes(&d.structure, errs);
                    proof {
                        assert(e.data == Some(d@));
                        assert(errs@ =~= errs_after_dup + entry_errs(e));
                        assert(nodes_view(kids@) == data_nodes(d@));
                    }
                    Some(kids)
                },
            };
            r.push(Node { name: node_name, kind: NodeKind::Folder(children) });
        } else {
            match &entry.data {
                None => {
                    proof {
                        assert(entry_errs(e) =~= Seq::<LineErrorKind>::empty());
                        assert(errs@ =~= errs_after_dup + entry_errs(e));
                    }
                },
                Some(d) => {
                    errs.push(LineErrorKind::FileWithChildren);
                    proof {
                        assert(errs@ =~= errs_after_dup + entry_errs(e));
                    }
                },
            }
            r.push(Node { name: node_name, kind: NodeKind::File });
        }
        proof {
            lemma_nodes_view(r@);
            assert(node_view(r@[i as int]) == entry_node(e));
            assert(errs@ + entries_errs(ev, i as int + 1) =~= errs0 + entries_errs(ev, 0)) by {
                assert(entries_errs(ev, i as int) == dup_err(ev, i as int) + entry_errs(e)
                    + entries_errs(ev, i as int + 1));
                assert(errs@ =~= errs_at_entry + dup_err(ev, i as int) + entry_errs(e));
                assert(errs@ + entries_errs(ev, i as int + 1) =~= errs_at_entry + entries_errs(
                    ev,
                    i as int,
                ));
            }
        }
        i += 1;
    }
    proof {
        assert(entries_errs(ev, n as int) =~= Seq::<LineErrorKind>::empty());
        assert(errs@ + entries_errs(ev, n as int) =~= errs@);
        lemma_nodes_view(r@);
        lemma_entries_nodes_pointwise(ev, 0);
        assert(nodes_view(r@) =~= entries_nodes(ev, 0));
    }
    r
}

/// `entries_nodes(es, i)` holds one node per remaining entry, pointwise.
pub proof fn lemma_entries_nodes_pointwise(es: Seq<TemplateEntryV>, i: int)
    requires
        0 <= i <= es.len(),
    ensures
        entries_nodes(es, i).len() == es.len() - i,
        forall|t: int|
            i <= t < es.len() ==> entries_nodes(es, i)[t - i] == entry_node(#[trigger] es[t]),
    decreases es.len() - i,
{
    if i < es.len() {
        lemma_entries_nodes_pointwise(es, i + 1);
    }
}

proof fn lemma_entries_errs_contain_from(es: Seq<TemplateEntryV>, j: int, i: int, x: LineErrorKind)
    requires
        0 <= j <= i < es.len(),
        entry_errs(es[i]).contains(x),
    ensures
        entries_errs(es, j).contains(x),
    decreases i - j,
{
    if j == i {
        let w = choose|w: int| 0 <= w < entry_errs(es[i]).len() && entry_errs(es[i])[w] == x;
        assert(entries_errs(es, i)[dup_err(es, i).len() + w] == x);
    } else {
        lemma_entries_errs_contain_from(es, j + 1, i, x);
        let w = choose|w: int|
            0 <= w < entries_errs(es, j + 1).len() && #[trigger] entries_errs(es, j + 1)[w] == x;
        assert(entries_errs(es, j)[dup_err(es, j).len() + entry_errs(es[j]).len() + w] == x);
    }
}

/// Law: a file entry that was given a nested structure fails the mapping
/// assembly with `FileWithChildren`, so no template is produced from it.
pub proof fn lemma_file_with_children(d: TemplateDataV, i: int)
    requires
        0 <= i < d.structure.len(),
        !is_folder_name(d.structure[i].name),
        d.structure[i].data is Some,
    ensures
        data_errs(d).contains(LineErrorKind::FileWithChildren),
        data_errs(d).len() > 0,
{
    assert(entry_errs(d.structure[i])[0] == LineErrorKind::FileWithChildren);
    lemma_entries_errs_contain_from(d.structure, 0, i, LineErrorKind::FileWithChildren);
}

proof fn lemma_entries_errs_empty(es: Seq<TemplateEntryV>, j: int)
    requires
        0 <= j <= es.len(),
        entries_errs(es, j).len() == 0,
    ensures
        forall|t: int|
            j <= t < es.len() ==> dup_err(es, t).len() == 0 && entry_errs(
                #[trigger] es[t],
            ).len() == 0,
    decreases es.len() - j,
{
    if j < es.len() {
        lemma_entries_errs_empty(es, j + 1);
    }
}

/// Law: a mapping that assembles without an error yields a well-formed tree:
/// files carry no children and sibling names are pairwise distinct.
pub proof fn lemma_clean_assembly_wf(d: TemplateDataV)
    requires
        data_errs(d).len() == 0,
    ensures
        nodes_wf(data_nodes(d)),
    decreases d, 3int,
{
    lemma_clean_entries_wf(d.structure);
}

proof fn lemma_clean_entries_wf(es: Seq<TemplateEntryV>)
    requires
        entries_errs(es, 0).len() == 0,
    ensures
        nodes_wf(entries_nodes(es, 0)),
    decreases es, 4int,
{
    let ns = entries_nodes(es, 0);
    lemma_entries_nodes_pointwise(es, 0);
    lemma_entries_errs_empty(es, 0);
    assert forall|t: int, u: int| 0 <= t < u < ns.len() implies ns[t].name() != ns[u].name() by {
        lemma_entry_node_name(es[t]);
        lemma_entry_node_name(es[u]);
        if node_name_of(es[t]) == node_name_of(es[u]) {
            assert(dup_err(es, u).len() > 0);
        }
    }
    assert forall|t: int| 0 <= t < ns.len() implies node_wf(ns[t]) by {
        assert(entry_errs(es[t]).len() == 0);
        match es[t] {
            TemplateEntryV { name, data } => {
                if is_folder_name(name) {
                    match data {
                        None => {},
                        Some(d2) => {
                            assert(data_errs(d2).len() == 0);
                            lemma_clean_assembly_wf(d2);
                        },
                    }
                }
            },
        }
    }
}

/// The assembly errors of the named templates `ts[i..]`, in order.
pub open spec fn config_errs(ts: Seq<ConfigEntryV>, i: int) -> Seq<LineErrorKind>
    decreases ts.len() - i,
{
    if i < 0 || i >= ts.len() {
        Seq::empty()
    } else {
        data_errs(ts[i].data) + config_errs(ts, i + 1)
    }
}

proof fn lemma_config_errs_empty(ts: Seq<ConfigEntryV>, j: int)
    requires
        0 <= j <= ts.len(),
        config_errs(ts, j).len() == 0,
    ensures
        forall|t: int| j <= t < ts.len() ==> data_errs(#[trigger] ts[t].data).len() == 0,
    decreases ts.len() - j,
{
    if j < ts.len() {
        lemma_config_errs_empty(ts, j + 1);
    }
}

/// The templates a configuration assembles to, one per named entry.
pub open spec fn config_templates(ts: Seq<ConfigEntryV>) -> Seq<TemplateV> {
    Seq::new(ts.len(), |i: int| TemplateV { name: ts[i].name, structure: data_nodes(ts[i].data) })
}

impl Config {
    /// Assemble the whole registry from the nested-mapping form of the
    /// configuration. Every assembly error of every template is returned
    /// together; the registry comes back only when there were none.
    pub fn from_config_data(data: ConfigData) -> (r: Result<Config, Vec<LineErrorKind>>)
        ensures
            match r {
                Ok(c) => config_errs(data@.templates, 0).len() == 0 && c@.templates
                    == config_templates(data@.templates) && c@.favorite == data@.favorite
                    && forall|t: int|
                    0 <= t < c@.templates.len() ==> nodes_wf(#[trigger] c@.templates[t].structure),
                Err(es) => es@ == config_errs(data@.templates, 0) && es@.len() > 0,
            },
    {
        let ghost tv = data@.templates;
        let n = data.templates.len();
        let mut errs: Vec<LineErrorKind> = Vec::new();
        let mut templates: Vec<Template> = Vec::new();
        proof {
            assert(errs@ + config_errs(tv, 0) =~= config_errs(tv, 0));
        }
        let mut i: usize = 0;
        while i < n
            invariant
                i <= n,
                n == data.templates.len(),
                tv == data@.templates,
                tv.len() == n,
                forall|t: int| 0 <= t < n ==> tv[t] == data.templates@[t]@,
                templates@.len() == i,
                forall|t: int|
                    0 <= t < i ==> (#[trigger] templates@[t])@ == (TemplateV {
                        name: tv[t].name,
                        structure: data_nodes(tv[t].data),
                    }),
                errs@ + config_errs(tv, i as int) =~= config_errs(tv, 0),
            decreases n - i,
        {
            let entry = &data.templates[i];
            let ghost errs_before = errs@;
            let nodes = entries_to_nodes(&entry.data.structure, &mut errs);
            templates.push(Template { name: entry.name.clone(), structure: nodes });
            proof {
                assert(nodes_view(nodes@) == data_nodes(tv[i as int].data));
                assert(errs@ =~= errs_before + data_errs(tv[i as int].data));
                assert(errs@ + config_errs(tv, i as int + 1) =~= config_errs(tv, 0)) by {
                    assert(config_errs(tv, i as int) == data_errs(tv[i as int].data) + config_errs(
                        tv,
                        i as int + 1,
                    ));
                    assert(errs@ + config_errs(tv, i as int + 1) =~= errs_before + config_errs(
                        tv,
                        i as int,
                    ));
                }
            }
            i += 1;
        }
        proof {
            assert(config_errs(tv, n as int) =~= Seq::<LineErrorKind>::empty());
            assert(errs@ + config_errs(tv, n as int) =~= errs@);
            assert(errs@ =~= config_errs(tv, 0));
        }
        if errs.len() == 0 {
            let c = Config { templates, favorite: data.favorite };
            proof {
                assert(c@.templates =~= config_templates(tv));
                lemma_config_errs_empty(tv, 0);
                assert forall|t: int| 0 <= t < c@.templates.len() implies nodes_wf(
                    #[trigger] c@.templates[t].structure,
                ) by {
                    lemma_clean_assembly_wf(tv[t].data);
                }
            }
            Ok(c)
        } else {
            Err(errs)
        }
    }

    /// The first template of the given name, if the registry holds one.
    pub fn template_by_name(&self, name: &str) -> (r: Option<&Template>)
        ensures
            match r {
                Some(t) => lookup_template(self@.templates, name@) == Some(t@),
                None => lookup_template(self@.templates, name@) is None,
            },
    {
        let n = self.templates.len();
        proof {
            assert(self@.templates.skip(0) =~= self@.templates);
        }
        let mut i: usize = 0;
        while i < n
            invariant
                i <= n,
                n == self.templates.len(),
                lookup_template(self@.templates.skip(i as int), name@) == lookup_template(
                    self@.templates,
                    name@,
                ),
        decreases n - i,
        {
            if str_eq(self.templates[i].name.as_str(), name) {
                assert(self@.templates.skip(i as int)[0] == self@.templates[i as int]);
                return Some(&self.templates[i]);
            }
            proof {
                assert(self@.templates.skip(i as int).drop_first() =~= self@.templates.skip(
                    i as int + 1,
                ));
                assert(self@.templates.skip(i as int)[0] == self@.templates[i as int]);
            }
            i += 1;
        }
        proof {
            assert(self@.templates.skip(n as int) =~= Seq::<TemplateV>::empty());
        }
        None
    }

    /// Every template, in declaration order.
    pub fn templates(&self) -> (r: &Vec<Template>)
        ensures
            r.deep_view() == self@.templates,
    {
        &self.templates
    }

    /// The configured default template's name, if any.
    pub fn favorite(&self) -> (r: &Option<String>)
        ensures
            r.deep_view() == self@.favorite,
    {
        &self.favorite
    }
}

} // verus!
