//! Inspector bookkeeping: the widget description tree, the stable mapping
//! from widget paths to DevTools node ids, and the DevTools (CDP) DOM nodes
//! built from descriptions.

use vstd::prelude::*;
use vstd::string::StringExecFns;
use crate::text::text_eq;

verus! {

/// Read-only description of one widget, collected while building.
pub struct WidgetDesc {
    /// Widget type name (such as `Column` or `Button`).
    pub name: String,
    /// Stable path (such as `Column/0/Button/1`); source of the node id.
    pub path: String,
    /// Text content, for text widgets.
    pub text: Option<String>,
    pub children: Vec<WidgetDesc>,
}

/// The first description, in pre-order (a node before its children, children
/// in order), among `d` and its descendants whose path is `path`.
pub open spec fn find_desc(d: WidgetDesc, path: Seq<char>) -> Option<WidgetDesc>
    decreases d, 1int, 0int,
{
    if d.path@ == path {
        Some(d)
    } else {
        find_among(d, path, 0)
    }
}

/// The first match in the subtrees of the children of `d` from index `i` on.
pub open spec fn find_among(d: WidgetDesc, path: Seq<char>, i: int) -> Option<WidgetDesc>
    decreases d, 0int, d.children@.len() - i,
{
    if i < 0 || i >= d.children@.len() {
        None
    } else {
        match find_desc(d.children@[i], path) {
            Some(x) => Some(x),
            None => find_among(d, path, i + 1),
        }
    }
}

impl WidgetDesc {
    /// Finds the description with the given path (pre-order, first match).
    pub fn find_by_path(&self, path: &str) -> (r: Option<&WidgetDesc>)
        ensures
            match r {
                Some(x) => find_desc(*self, path@) == Some(*x),
                None => find_desc(*self, path@) is None,
            },
        decreases self, 1int,
    {
        if text_eq(self.path.as_str(), path) {
            return Some(self);
        }
        let mut i: usize = 0;
        while i < self.children.len()
            invariant
                i <= self.children@.len(),
                self.path@ != path@,
                find_desc(*self, path@) == find_among(*self, path@, i as int),
            decreases self.children@.len() - i,
        {
            let c = &self.children[i];
            match c.find_by_path(path) {
                Some(x) => {
                    return Some(x);
                },
                None => {},
            }
            i = i + 1;
        }
        None
    }
}

/// State shared between the UI thread and the inspector server.
pub struct InspectorShared {
    /// Latest widget description tree (`None` before the first build).
    pub snapshot: Option<WidgetDesc>,
    /// Whether the server is listening.
    pub ready: bool,
}

impl InspectorShared {
    pub fn new() -> (r: Self)
        ensures
            r.snapshot is None,
            !r.ready,
    {
        InspectorShared { snapshot: None, ready: false }
    }
}

/// Per-session mapping from widget paths to node ids: the first path seen
/// gets 1, the next new path 2, and so on; a path keeps its id.
pub struct IdMap {
    entries: Vec<(String, u32)>,
    next: u32,
}

/// The id map as plain values: paths in order of first sight.
pub struct IdMapModel {
    pub paths: Seq<Seq<char>>,
    pub next: u32,
}

impl View for IdMap {
    type V = IdMapModel;

    closed spec fn view(&self) -> IdMapModel {
        IdMapModel { paths: self.entries@.map_values(|e: (String, u32)| e.0@), next: self.next }
    }
}

/// Position of `path` among the first `n` paths, or -1.
pub open spec fn path_index(paths: Seq<Seq<char>>, path: Seq<char>, n: int) -> int
    decreases n,
{
    if n <= 0 {
        -1
    } else if path_index(paths, path, n - 1) >= 0 {
        path_index(paths, path, n - 1)
    } else if paths[n - 1] == path {
        n - 1
    } else {
        -1
    }
}

/// The id of `path`, if it has one: its position plus one.
pub open spec fn id_of(m: IdMapModel, path: Seq<char>) -> Option<u32> {
    let i = path_index(m.paths, path, m.paths.len() as int);
    if i >= 0 {
        Some((i + 1) as u32)
    } else {
        None
    }
}

/// The map after asking for the id of `path`.
pub open spec fn with_path(m: IdMapModel, path: Seq<char>) -> IdMapModel {
    if id_of(m, path) is Some {
        m
    } else {
        IdMapModel { paths: m.paths.push(path), next: (m.next + 1) as u32 }
    }
}

/// Ids are positions plus one and `next` follows the last one.
pub open spec fn idmap_wf(m: IdMapModel) -> bool {
    m.next == m.paths.len() + 1
}

proof fn lemma_path_index_push(paths: Seq<Seq<char>>, p: Seq<char>, q: Seq<char>, n: int)
    requires
        0 <= n <= paths.len(),
    ensures
        path_index(paths.push(p), q, n) == path_index(paths, q, n),
    decreases n,
{
    if n > 0 {
        lemma_path_index_push(paths, p, q, n - 1);
    }
}

proof fn lemma_path_index_bounds(paths: Seq<Seq<char>>, q: Seq<char>, n: int)
    requires
        0 <= n <= paths.len(),
    ensures
        -1 <= path_index(paths, q, n) < n,
        path_index(paths, q, n) >= 0 ==> paths[path_index(paths, q, n)] == q,
    decreases n,
{
    if n > 0 {
        lemma_path_index_bounds(paths, q, n - 1);
    }
}

/// Asking for the id of a path gives it an id, and asking again changes
/// nothing: a path keeps the id it got first.
pub proof fn lemma_id_for_stable(m: IdMapModel, p: Seq<char>)
    ensures
        id_of(with_path(m, p), p) is Some,
        with_path(with_path(m, p), p) == with_path(m, p),
        id_of(m, p) is Some ==> id_of(with_path(m, p), p) == id_of(m, p),
{
    if id_of(m, p) is None {
        let m2 = with_path(m, p);
        lemma_path_index_push(m.paths, p, p, m.paths.len() as int);
        assert(path_index(m2.paths, p, m2.paths.len() as int) == m.paths.len());
    }
}

/// Distinct paths never share an id.
pub proof fn lemma_ids_distinct(m: IdMapModel, p: Seq<char>, q: Seq<char>)
    requires
        idmap_wf(m),
        id_of(m, p) is Some,
        id_of(m, p) == id_of(m, q),
    ensures
        p == q,
{
    lemma_path_index_bounds(m.paths, p, m.paths.len() as int);
    lemma_path_index_bounds(m.paths, q, m.paths.len() as int);
    let i = path_index(m.paths, p, m.paths.len() as int);
    let j = path_index(m.paths, q, m.paths.len() as int);
    assert(0 <= i < m.paths.len() < u32::MAX);
    assert(0 <= j < m.paths.len());
    assert(i == j);
}

impl IdMap {
    pub fn new() -> (r: Self)
        ensures
            r@.paths == Seq::<Seq<char>>::empty(),
            r@.next == 1,
            idmap_wf(r@),
    {
        IdMap { entries: Vec::new(), next: 1 }
    }

    spec fn wf(&self) -> bool {
        &&& idmap_wf(self@)
        &&& forall|k: int| 0 <= k < self.entries@.len() ==> #[trigger] self.entries@[k].1 == k + 1
    }

    /// Whether the map is well formed (always true of maps built by `new`
    /// and `id_for`).
    pub closed spec fn well_formed(&self) -> bool {
        self.wf()
    }

    /// The id the next new path receives.
    pub fn next_id(&self) -> (r: u32)
        ensures
            r == self@.next,
    {
        self.next
    }

    /// The id of `path`, registering it with the next id when it is new.
    pub fn id_for(&mut self, path: &str) -> (id: u32)
        requires
            old(self).well_formed(),
            old(self)@.next < u32::MAX,
        ensures
            final(self).well_formed(),
            final(self)@ == with_path(old(self)@, path@),
            Some(id) == id_of(final(self)@, path@),
            id == (match id_of(old(self)@, path@) {
                Some(i) => i,
                None => old(self)@.next,
            }),
    {
        let ghost paths = self@.paths;
        let mut i: usize = 0;
        while i < self.entries.len()
            invariant
                self.wf(),
                paths == self@.paths,
                i <= self.entries@.len(),
                forall|k: int| 0 <= k < i ==> paths[k] != path@,
                path_index(paths, path@, i as int) == -1,
            decreases self.entries@.len() - i,
        {
            if text_eq(self.entries[i].0.as_str(), path) {
                proof {
                    assert(paths[i as int] == self.entries@[i as int].0@);
                    lemma_path_index_bounds(paths, path@, paths.len() as int);
                    lemma_path_index_from(paths, path@, i as int + 1, paths.len() as int, i as int);
                }
                return self.entries[i].1;
            }
            proof {
                assert(paths[i as int] == self.entries@[i as int].0@);
            }
            i = i + 1;
        }
        let id = self.next;
        self.entries.push((String::from_str(path), id));
        self.next = self.next + 1;
        proof {
            assert(self@.paths =~= paths.push(path@));
            lemma_path_index_push(paths, path@, path@, paths.len() as int);
            assert(path_index(self@.paths, path@, self@.paths.len() as int) == paths.len());
        }
        id
    }

    /// The path that received `id`, if any.
    pub fn path_for(&self, id: u32) -> (r: Option<String>)
        requires
            self.well_formed(),
        ensures
            match r {
                Some(p) => 1 <= id <= self@.paths.len() && p@ == self@.paths[id - 1],
                None => !(1 <= id <= self@.paths.len()),
            },
    {
        if id >= 1 && (id as usize) <= self.entries.len() {
            let k = (id - 1) as usize;
            assert(self.entries@[k as int].1 == k + 1);
            Some(self.entries[k].0.clone())
        } else {
            None
        }
    }
}

proof fn lemma_path_index_from(paths: Seq<Seq<char>>, q: Seq<char>, n: int, m: int, i: int)
    requires
        0 <= i < n <= m <= paths.len(),
        paths[i] == q,
        path_index(paths, q, i) == -1,
    ensures
        path_index(paths, q, m) == i,
    decreases m,
{
    if m > n {
        lemma_path_index_from(paths, q, n, m - 1, i);
    } else if m > i + 1 {
        lemma_path_index_from(paths, q, n - 1, m - 1, i);
    }
}

/// A DevTools DOM node standing for one widget.
pub struct CdpNode {
    pub node_id: u32,
    pub backend_node_id: u32,
    pub node_type: u32,
    pub node_name: String,
    pub local_name: String,
    pub node_value: String,
    pub attributes: Option<Vec<String>>,
    pub children: Option<Vec<CdpNode>>,
    pub child_node_count: u32,
    pub parent_id: Option<u32>,
}

/// Number of descriptions in the subtree of `d`.
pub open spec fn desc_count(d: WidgetDesc) -> nat
    decreases d, 1int, 0int,
{
    1 + desc_forest(d, d.children@.len() as int)
}

/// Number of descriptions in the subtrees of the first `k` children of `d`.
pub open spec fn desc_forest(d: WidgetDesc, k: int) -> nat
    decreases d, 0int, k,
{
    if k <= 0 || k > d.children@.len() {
        0
    } else {
        desc_forest(d, k - 1) + desc_count(d.children@[k - 1])
    }
}

/// The attribute list of a widget node: `widget` and its name, then `text`
/// and its text when it has one.
pub open spec fn attrs_of(a: Seq<String>, d: WidgetDesc) -> bool {
    &&& a.len() == (if d.text is Some {
        4int
    } else {
        2int
    })
    &&& a[0]@ == "widget"@
    &&& a[1]@ == d.name@
    &&& d.text matches Some(t) ==> a[2]@ == "text"@ && a[3]@ == t@
}

/// `c` is the DevTools node of `d` under `parent`, and so are its children
/// of the children of `d`, with ids taken from `m`.
pub open spec fn mirrors(c: CdpNode, d: WidgetDesc, parent: Option<u32>, m: IdMapModel) -> bool
    decreases d, 1int, 0int,
{
    &&& Some(c.node_id) == id_of(m, d.path@)
    &&& c.backend_node_id == c.node_id
    &&& c.node_type == 1
    &&& c.node_name@ == d.name@
    &&& c.local_name@ == d.name@
    &&& c.node_value@ == Seq::<char>::empty()
    &&& c.attributes matches Some(a) && attrs_of(a@, d)
    &&& c.child_node_count == d.children@.len() as u32
    &&& c.parent_id == parent
    &&& (c.children is None <==> c.child_node_count == 0)
    &&& c.children matches Some(cs) ==> cs@.len() == d.children@.len() && mirrors_children(
        cs@,
        d,
        c.node_id,
        m,
        cs@.len() as int,
    )
}

/// The first `k` nodes of `cs` mirror the first `k` children of `d`.
pub open spec fn mirrors_children(
    cs: Seq<CdpNode>,
    d: WidgetDesc,
    pid: u32,
    m: IdMapModel,
    k: int,
) -> bool
    decreases d, 0int, k,
{
    if k <= 0 || k > d.children@.len() {
        true
    } else {
        mirrors_children(cs, d, pid, m, k - 1) && mirrors(cs[k - 1], d.children@[k - 1], Some(pid), m)
    }
}

/// `b` extends `a`: same paths first, possibly more after.
pub open spec fn extends(a: IdMapModel, b: IdMapModel) -> bool {
    a.paths.len() <= b.paths.len() && b.paths.subrange(0, a.paths.len() as int) == a.paths
}

proof fn lemma_path_index_prefix(a: Seq<Seq<char>>, b: Seq<Seq<char>>, q: Seq<char>, n: int)
    requires
        0 <= n <= a.len() <= b.len(),
        b.subrange(0, a.len() as int) == a,
    ensures
        path_index(b, q, n) == path_index(a, q, n),
    decreases n,
{
    if n > 0 {
        lemma_path_index_prefix(a, b, q, n - 1);
        assert(b[n - 1] == b.subrange(0, a.len() as int)[n - 1]);
    }
}

proof fn lemma_path_index_stable(b: Seq<Seq<char>>, q: Seq<char>, n: int, m: int)
    requires
        0 <= n <= m <= b.len(),
        path_index(b, q, n) >= 0,
    ensures
        path_index(b, q, m) == path_index(b, q, n),
    decreases m,
{
    if m > n {
        lemma_path_index_stable(b, q, n, m - 1);
    }
}

/// An id, once given, stays the same in any extension of the map.
proof fn lemma_id_of_extends(a: IdMapModel, b: IdMapModel, q: Seq<char>)
    requires
        extends(a, b),
        id_of(a, q) is Some,
    ensures
        id_of(b, q) == id_of(a, q),
{
    lemma_path_index_prefix(a.paths, b.paths, q, a.paths.len() as int);
    lemma_path_index_stable(b.paths, q, a.paths.len() as int, b.paths.len() as int);
}

proof fn lemma_mirrors_extends(c: CdpNode, d: WidgetDesc, parent: Option<u32>, a: IdMapModel, b: IdMapModel)
    requires
        extends(a, b),
        mirrors(c, d, parent, a),
    ensures
        mirrors(c, d, parent, b),
    decreases d, 1int, 0int,
{
    lemma_id_of_extends(a, b, d.path@);
    if let Some(cs) = c.children {
        lemma_mirrors_children_extends(cs@, d, c.node_id, a, b, cs@.len() as int);
    }
}

proof fn lemma_mirrors_children_extends(
    cs: Seq<CdpNode>,
    d: WidgetDesc,
    pid: u32,
    a: IdMapModel,
    b: IdMapModel,
    k: int,
)
    requires
        extends(a, b),
        mirrors_children(cs, d, pid, a, k),
    ensures
        mirrors_children(cs, d, pid, b, k),
    decreases d, 0int, k,
{
    if k > 0 && k <= d.children@.len() {
        lemma_mirrors_children_extends(cs, d, pid, a, b, k - 1);
        lemma_mirrors_extends(cs[k - 1], d.children@[k - 1], Some(pid), a, b);
    }
}

proof fn lemma_extends_trans(a: IdMapModel, b: IdMapModel, c: IdMapModel)
    requires
        extends(a, b),
        extends(b, c),
    ensures
        extends(a, c),
{
    assert(c.paths.subrange(0, a.paths.len() as int) =~= b.paths.subrange(0, a.paths.len() as int));
}

proof fn lemma_desc_forest_mono(d: WidgetDesc, k: int, m: int)
    requires
        0 <= k <= m <= d.children@.len(),
    ensures
        desc_forest(d, k) <= desc_forest(d, m),
    decreases m - k,
{
    if k < m {
        lemma_desc_forest_mono(d, k, m - 1);
    }
}

impl CdpNode {
    /// The DevTools node of `n` under `parent_id`, registering the paths of
    /// `n` and its descendants in `ids` (pre-order).
    pub fn from_desc(n: &WidgetDesc, parent_id: Option<u32>, ids: &mut IdMap) -> (r: CdpNode)
        requires
            old(ids).well_formed(),
            old(ids)@.next + desc_count(*n) < u32::MAX,
        ensures
            final(ids).well_formed(),
            extends(old(ids)@, final(ids)@),
            final(ids)@.next <= old(ids)@.next + desc_count(*n),
            mirrors(r, *n, parent_id, final(ids)@),
        decreases n, 1int,
    {
        let ghost m0 = ids@;
        let node_id = ids.id_for(n.path.as_str());
        let ghost m1 = ids@;
        proof {
            assert(m1.paths.subrange(0, m0.paths.len() as int) =~= m0.paths);
            assert(m1.paths.subrange(0, m1.paths.len() as int) =~= m1.paths);
        }
        let child_count = #[verifier::truncate] (n.children.len() as u32);
        let mut kids: Vec<CdpNode> = Vec::new();
        let mut i: usize = 0;
        while i < n.children.len()
            invariant
                i <= n.children@.len(),
                ids.well_formed(),
                extends(m1, ids@),
                extends(m0, ids@),
                id_of(m1, n.path@) == Some(node_id),
                ids@.next <= m0.next + 1 + desc_forest(*n, i as int),
                m0.next + desc_count(*n) < u32::MAX,
                kids@.len() == i,
                mirrors_children(kids@, *n, node_id, ids@, i as int),
            decreases n.children@.len() - i,
        {
            proof {
                lemma_desc_forest_mono(*n, i + 1, n.children@.len() as int);
            }
            let ghost before = ids@;
            let c = CdpNode::from_desc(&n.children[i], Some(node_id), ids);
            proof {
                lemma_extends_trans(m1, before, ids@);
                lemma_extends_trans(m0, before, ids@);
                lemma_mirrors_children_extends(kids@, *n, node_id, before, ids@, i as int);
            }
            let ghost old_kids = kids@;
            kids.push(c);
            proof {
                lemma_mirrors_children_prefix(kids@, old_kids, *n, node_id, ids@, i as int);
                assert(kids@[i as int] == c);
                assert(mirrors_children(kids@, *n, node_id, ids@, i + 1));
            }
            i = i + 1;
        }
        proof {
            lemma_id_of_extends(m1, ids@, n.path@);
        }
        let children = if child_count > 0 {
            Some(kids)
        } else {
            None
        };
        let mut attrs: Vec<String> = Vec::new();
        attrs.push(String::from_str("widget"));
        attrs.push(n.name.clone());
        match &n.text {
            Some(t) => {
                attrs.push(String::from_str("text"));
                attrs.push(t.clone());
            },
            None => {},
        }
        CdpNode {
            node_id,
            backend_node_id: node_id,
            node_type: 1,
            node_name: n.name.clone(),
            local_name: n.name.clone(),
            node_value: String::new(),
            attributes: Some(attrs),
            children,
            child_node_count: child_count,
            parent_id,
        }
    }
}

proof fn lemma_mirrors_children_prefix(
    cs: Seq<CdpNode>,
    pre: Seq<CdpNode>,
    d: WidgetDesc,
    pid: u32,
    m: IdMapModel,
    k: int,
)
    requires
        0 <= k <= pre.len() <= cs.len(),
        forall|j: int| 0 <= j < pre.len() ==> cs[j] == pre[j],
        mirrors_children(pre, d, pid, m, k),
    ensures
        mirrors_children(cs, d, pid, m, k),
    decreases k,
{
    if k > 0 && k <= d.children@.len() {
        lemma_mirrors_children_prefix(cs, pre, d, pid, m, k - 1);
    }
}

/// An error answered to a DevTools request.
pub struct CdpError {
    pub code: i32,
    pub message: String,
}

/// Builds an error answer.
pub fn cdp_err(code: i32, message: &str) -> (r: CdpError)
    ensures
        r.code == code,
        r.message@ == message@,
{
    CdpError { code, message: String::from_str(message) }
}

/// How the inspector answers a DevTools method.
#[derive(Debug, Clone, Copy, PartialEq, Eq, Structural)]
pub enum CdpMethod {
    /// `Runtime.enable`: an empty result.
    RuntimeEnable,
    /// `Runtime.getIsolateId`: the isolate id.
    IsolateId,
    /// A domain switch or query that only needs an empty result.
    Acknowledge,
    /// `DOM.getDocument`: the whole widget tree.
    Document,
    /// `DOM.requestChildNodes`: the children of one node, as an event.
    ChildNodes,
    /// A CSS style query: empty style lists.
    Styles,
    /// Anything else: an empty result.
    Unknown,
}

/// Methods that only need an empty result.
pub open spec fn is_ack_method(m: Seq<char>) -> bool {
    ||| m == "Target.enable"@
    ||| m == "Target.getTargets"@
    ||| m == "Target.setDiscoverTargets"@
    ||| m == "Target.attachToTarget"@
    ||| m == "Target.setAttachToCustomTarget"@
    ||| m == "Browser.getVersion"@
    ||| m == "Page.enable"@
    ||| m == "DOM.enable"@
    ||| m == "CSS.enable"@
    ||| m == "Overlay.enable"@
    ||| m == "Page.getResourceTree"@
    ||| m == "Emulation.setDeviceMetricsOverride"@
    ||| m == "Emulation.clearDeviceMetricsOverride"@
    ||| m == "Inspector.enable"@
    ||| m == "Log.enable"@
    ||| m == "Network.enable"@
    ||| m == "Page.getFrameTree"@
}

/// CSS style queries.
pub open spec fn is_style_method(m: Seq<char>) -> bool {
    ||| m == "CSS.getComputedStyleForNode"@
    ||| m == "CSS.getInlineStylesForNode"@
    ||| m == "CSS.getMatchedStylesForNode"@
}

/// How a method name is answered.
pub open spec fn method_kind(m: Seq<char>) -> CdpMethod {
    if m == "Runtime.enable"@ {
        CdpMethod::RuntimeEnable
    } else if m == "Runtime.getIsolateId"@ {
        CdpMethod::IsolateId
    } else if is_ack_method(m) {
        CdpMethod::Acknowledge
    } else if m == "DOM.getDocument"@ {
        CdpMethod::Document
    } else if m == "DOM.requestChildNodes"@ {
        CdpMethod::ChildNodes
    } else if is_style_method(m) {
        CdpMethod::Styles
    } else {
        CdpMethod::Unknown
    }
}

/// Classifies a DevTools method name.
pub fn classify_method(method: &str) -> (r: CdpMethod)
    ensures
        r == method_kind(method@),
{
    if text_eq(method, "Runtime.enable") {
        CdpMethod::RuntimeEnable
    } else if text_eq(method, "Runtime.getIsolateId") {
        CdpMethod::IsolateId
    } else if text_eq(method, "Target.enable") || text_eq(method, "Target.getTargets") || text_eq(
        method,
        "Target.setDiscoverTargets",
    ) || text_eq(method, "Target.attachToTarget") || text_eq(
        method,
        "Target.setAttachToCustomTarget",
    ) || text_eq(method, "Browser.getVersion") || text_eq(method, "Page.enable") || text_eq(
        method,
        "DOM.enable",
    ) || text_eq(method, "CSS.enable") || text_eq(method, "Overlay.enable") || text_eq(
        method,
        "Page.getResourceTree",
    ) || text_eq(method, "Emulation.setDeviceMetricsOverride") || text_eq(
        method,
        "Emulation.clearDeviceMetricsOverride",
    ) || text_eq(method, "Inspector.enable") || text_eq(method, "Log.enable") || text_eq(
        method,
        "Network.enable",
    ) || text_eq(method, "Page.getFrameTree") {
        CdpMethod::Acknowledge
    } else if text_eq(method, "DOM.getDocument") {
        CdpMethod::Document
    } else if text_eq(method, "DOM.requestChildNodes") {
        CdpMethod::ChildNodes
    } else if text_eq(method, "CSS.getComputedStyleForNode") || text_eq(
        method,
        "CSS.getInlineStylesForNode",
    ) || text_eq(method, "CSS.getMatchedStylesForNode") {
        CdpMethod::Styles
    } else {
        CdpMethod::Unknown
    }
}

/// Answer to `DOM.getDocument`: the node of the whole snapshot.
pub fn document_node(shared: &InspectorShared, ids: &mut IdMap) -> (r: Result<CdpNode, CdpError>)
    requires
        old(ids).well_formed(),
        shared.snapshot matches Some(root) ==> old(ids)@.next + desc_count(root) < u32::MAX,
    ensures
        final(ids).well_formed(),
        extends(old(ids)@, final(ids)@),
        match shared.snapshot {
            Some(root) => r matches Ok(c) && mirrors(c, root, None, final(ids)@),
            None => r matches Err(e) && e.code == -1 && e.message@ == "no snapshot yet"@
                && final(ids)@ == old(ids)@,
        },
{
    match &shared.snapshot {
        Some(root) => Ok(CdpNode::from_desc(root, None, ids)),
        None => {
            proof {
                assert(ids@.paths.subrange(0, ids@.paths.len() as int) =~= ids@.paths);
            }
            Err(cdp_err(-1, "no snapshot yet"))
        },
    }
}

proof fn lemma_child_le_forest(d: WidgetDesc, j: int)
    requires
        0 <= j < d.children@.len(),
    ensures
        desc_count(d.children@[j]) <= desc_forest(d, d.children@.len() as int),
{
    lemma_desc_forest_mono(d, j + 1, d.children@.len() as int);
}

proof fn lemma_find_desc_count(d: WidgetDesc, path: Seq<char>)
    ensures
        find_desc(d, path) matches Some(x) ==> desc_count(x) <= desc_count(d),
    decreases d, 1int, 0int,
{
    lemma_find_among_count(d, path, 0);
}

proof fn lemma_find_among_count(d: WidgetDesc, path: Seq<char>, i: int)
    ensures
        find_among(d, path, i) matches Some(x) ==> desc_count(x) <= desc_forest(
            d,
            d.children@.len() as int,
        ),
    decreases d, 0int, d.children@.len() - i,
{
    if 0 <= i < d.children@.len() {
        lemma_find_desc_count(d.children@[i], path);
        lemma_child_le_forest(d, i);
        lemma_find_among_count(d, path, i + 1);
    }
}

/// Answer to `DOM.requestChildNodes` for `node_id`: the parent id and the
/// nodes of the children of the widget that received that id.
pub fn child_nodes(shared: &InspectorShared, ids: &mut IdMap, node_id: Option<u64>) -> (r: Result<
    (u32, Vec<CdpNode>),
    CdpError,
>)
    requires
        old(ids).well_formed(),
        shared.snapshot matches Some(root) ==> old(ids)@.next + desc_count(root) < u32::MAX,
    ensures
        final(ids).well_formed(),
        extends(old(ids)@, final(ids)@),
        ({
            let m = old(ids)@;
            match node_id {
                None => r matches Err(e) && e.code == -32602 && e.message@ == "missing nodeId"@,
                Some(raw) => {
                    let id = raw as u32;
                    if !(1 <= id <= m.paths.len()) {
                        r matches Err(e) && e.code == -1 && e.message@ == "node not found in id map"@
                    } else {
                        match shared.snapshot {
                            None => r matches Err(e) && e.code == -1 && e.message@
                                == "no snapshot"@,
                            Some(root) => match find_desc(root, m.paths[id - 1]) {
                                None => r matches Err(e) && e.code == -1 && e.message@
                                    == "node not found"@,
                                Some(found) => r matches Ok((pid, cs)) && pid == id && cs@.len()
                                    == found.children@.len() && forall|j: int|
                                    0 <= j < cs@.len() ==> mirrors(
                                        #[trigger] cs@[j],
                                        found.children@[j],
                                        Some(id),
                                        final(ids)@,
                                    ),
                            },
                        }
                    }
                },
            }
        }),
{
    let ghost m0 = ids@;
    proof {
        assert(m0.paths.subrange(0, m0.paths.len() as int) =~= m0.paths);
    }
    let raw = match node_id {
        Some(v) => v,
        None => {
            return Err(cdp_err(-32602, "missing nodeId"));
        },
    };
    let id = #[verifier::truncate] (raw as u32);
    let path = match ids.path_for(id) {
        Some(p) => p,
        None => {
            return Err(cdp_err(-1, "node not found in id map"));
        },
    };
    let root = match &shared.snapshot {
        Some(r) => r,
        None => {
            return Err(cdp_err(-1, "no snapshot"));
        },
    };
    let found = match root.find_by_path(path.as_str()) {
        Some(f) => f,
        None => {
            return Err(cdp_err(-1, "node not found"));
        },
    };
    proof {
        lemma_find_desc_count(*root, path@);
    }
    let mut out: Vec<CdpNode> = Vec::new();
    let mut j: usize = 0;
    while j < found.children.len()
        invariant
            j <= found.children@.len(),
            ids.well_formed(),
            extends(m0, ids@),
            ids@.next <= m0.next + desc_forest(*found, j as int),
            m0.next + desc_count(*found) < u32::MAX,
            out@.len() == j,
            forall|k: int|
                0 <= k < j ==> mirrors(#[trigger] out@[k], found.children@[k], Some(id), ids@),
        decreases found.children@.len() - j,
    {
        proof {
            lemma_desc_forest_mono(*found, j + 1, found.children@.len() as int);
        }
        let ghost before = ids@;
        let c = CdpNode::from_desc(&found.children[j], Some(id), ids);
        proof {
            lemma_extends_trans(m0, before, ids@);
            assert forall|k: int| 0 <= k < j implies mirrors(#[trigger] out@[k], found.children@[k], Some(id), ids@) by {
                lemma_mirrors_extends(out@[k], found.children@[k], Some(id), before, ids@);
            }
        }
        out.push(c);
        j = j + 1;
    }
    Ok((id, out))
}

/// What a session read from its socket.
#[derive(Debug, Clone, Copy, PartialEq, Eq, Structural)]
pub enum SessionInput {
    /// A text message (a request).
    Text,
    /// The peer closed the connection.
    Close,
    /// A binary, ping, pong or raw frame message.
    Other,
    /// The read timed out or would block.
    Timeout,
    /// Any other read error.
    Failure,
}

/// What the session does next.
#[derive(Debug, Clone, Copy, PartialEq, Eq, Structural)]
pub enum SessionAction {
    /// Parse and answer the message.
    Process,
    /// Read again (after checking the stop flag).
    Skip,
    /// End the session.
    End,
}

/// The session's reaction to what it read: requests are answered, other
/// messages and timeouts are skipped, a close or a failure ends the session.
pub fn session_action(input: SessionInput) -> (r: SessionAction)
    ensures
        r == match input {
            SessionInput::Text => SessionAction::Process,
            SessionInput::Close | SessionInput::Failure => SessionAction::End,
            SessionInput::Other | SessionInput::Timeout => SessionAction::Skip,
        },
{
    match input {
        SessionInput::Text => SessionAction::Process,
        SessionInput::Close => SessionAction::End,
        SessionInput::Failure => SessionAction::End,
        SessionInput::Other => SessionAction::Skip,
        SessionInput::Timeout => SessionAction::Skip,
    }
}

/// Whether a request gets an answer: notifications (no id) get none.
pub fn answers_request(id: Option<u64>) -> (r: bool)
    ensures
        r == id is Some,
{
    id.is_some()
}

} // verus!
