//! What the immediate-mode UI decides apart from geometry: the typed
//! actions its hitboxes carry, what a drag concerns, and which nodes form
//! the route to the current selection. Layout, hit-testing and drawing work
//! in floating point and stay with the caller.

use vstd::prelude::*;
use crate::model::{Node, NodeArena, NodeId};
use crate::preview::{is_previewable, previewable};

verus! {

/// What a click on a hitbox does.
#[derive(Clone, Copy, PartialEq, Eq, Structural, Debug)]
pub enum Action {
    /// Dead surface that swallows clicks (toolbar background).
    Inert,
    /// Click in the URL bar: begin/continue editing, position the caret.
    UrlBar,
    FocusRoot,
    FocusSelection,
    FocusParentItem,
    FocusNodeTop,
    CopyPath,
    OpenTerminal,
    Row { node: NodeId, item: usize },
    OpenWith { node: NodeId, item: usize },
    NodeBody,
    CloseNode { node: NodeId },
    /// Press target for a preview node's corner resize handle.
    ResizePreview { node: NodeId },
}

/// What a press-drag on a hitbox does once it crosses the move threshold.
#[derive(Clone, Copy, PartialEq, Eq, Structural, Debug)]
pub enum DragKind {
    /// Pan the camera.
    Pan,
    /// Move this node.
    Node(NodeId),
    /// Aspect-locked resize of this preview node from its corner.
    Resize(NodeId),
}

impl DragKind {
    /// The node this drag concerns, if any (used for wheel-scroll targeting).
    pub fn node(self) -> (r: Option<NodeId>)
        ensures
            r == match self {
                DragKind::Node(id) => Some(id),
                DragKind::Resize(id) => Some(id),
                DragKind::Pan => None,
            },
    {
        match self {
            DragKind::Node(id) => Some(id),
            DragKind::Resize(id) => Some(id),
            DragKind::Pan => None,
        }
    }
}

/// Where a press on the canvas stands. (The press position, in floating
/// point, is the caller's.)
#[derive(Clone, Copy, PartialEq, Eq, Structural, Debug)]
pub enum DragState {
    /// No press in progress.
    Idle,
    /// The button is down but has not yet moved past the drag threshold.
    Pending(DragKind),
    /// Moving this node.
    Node(NodeId),
    /// Resizing this preview node from its corner.
    Resize(NodeId),
    /// Panning the camera (a drag that started on empty canvas).
    Pan,
}

impl DragState {
    /// A press on a hitbox that drags as `hit` (on empty canvas: `None`).
    pub fn press(hit: Option<DragKind>) -> (r: DragState)
        ensures
            r == DragState::Pending(
                match hit {
                    Some(k) => k,
                    None => DragKind::Pan,
                },
            ),
    {
        match hit {
            Some(k) => DragState::Pending(k),
            None => DragState::Pending(DragKind::Pan),
        }
    }

    /// The held pointer has moved past the threshold: a pending press turns
    /// into the drag its target asks for; anything else carries on.
    pub fn moved_far(self) -> (r: DragState)
        ensures
            r == match self {
                DragState::Pending(DragKind::Node(id)) => DragState::Node(id),
                DragState::Pending(DragKind::Resize(id)) => DragState::Resize(id),
                DragState::Pending(DragKind::Pan) => DragState::Pan,
                other => other,
            },
    {
        match self {
            DragState::Pending(DragKind::Node(id)) => DragState::Node(id),
            DragState::Pending(DragKind::Resize(id)) => DragState::Resize(id),
            DragState::Pending(DragKind::Pan) => DragState::Pan,
            other => other,
        }
    }

    /// Hover feedback shows only while nothing is being dragged.
    pub fn shows_hover(self) -> (r: bool)
        ensures
            r == (self is Idle || self is Pending),
    {
        match self {
            DragState::Idle => true,
            DragState::Pending(_) => true,
            _ => false,
        }
    }

    /// The node being moved or resized, if any.
    pub fn dragged(self) -> (r: Option<NodeId>)
        ensures
            r == match self {
                DragState::Node(id) => Some(id),
                DragState::Resize(id) => Some(id),
                _ => None,
            },
    {
        match self {
            DragState::Node(id) => Some(id),
            DragState::Resize(id) => Some(id),
            _ => None,
        }
    }
}

/// What building a frame reports back.
pub struct FrameOut {
    /// Keep rendering continuously (spinners visible).
    pub animating: bool,
}

/// What a click on a directory listing row sets in motion.
#[derive(Clone, Copy, PartialEq, Eq, Structural, Debug)]
pub enum RowEffect {
    /// Nothing beyond selecting the row.
    Nothing,
    /// Scan the directory into a child node.
    Scan,
    /// Open the file with its configured handler.
    OpenWith,
    /// Decode the file as an image preview.
    Preview,
}

/// The effect of a click on a row naming `path` (raw bytes), given what the
/// row already has: a double click scans a directory that is neither open
/// nor being scanned, and opens a file; a single click on a file that has no
/// preview and none loading starts one when the file type is previewable.
pub fn row_click(
    double: bool,
    is_dir: bool,
    has_child: bool,
    scanning: bool,
    preview_loading: bool,
    path: &[u8],
) -> (r: RowEffect)
    ensures
        (r == RowEffect::Scan) <==> is_dir && double && !has_child && !scanning,
        (r == RowEffect::OpenWith) <==> !is_dir && double,
        (r == RowEffect::Preview) <==> !is_dir && !double && !has_child && !preview_loading
            && is_previewable(path@),
{
    if is_dir {
        if double && !has_child && !scanning {
            RowEffect::Scan
        } else {
            RowEffect::Nothing
        }
    } else if double {
        RowEffect::OpenWith
    } else if !has_child && !preview_loading && previewable(path) {
        RowEffect::Preview
    } else {
        RowEffect::Nothing
    }
}

/// Two clicks on the same target within this many milliseconds make a
/// double click.
pub const DOUBLE_CLICK_MS: u64 = 400;

/// A click on `action` at `now` repeats the remembered click `last`: the
/// same target less than `DOUBLE_CLICK_MS` later (a clock that went back
/// counts as no time).
pub open spec fn is_double(last: Option<(Action, u64)>, action: Action, now: u64) -> bool {
    last matches Some((a, t)) && a == action && (if now >= t {
        now - t
    } else {
        0
    }) < DOUBLE_CLICK_MS
}

/// A click on `action` at `now` (ms on a monotonic clock): it is a double
/// click when the remembered previous click hit the same target less than
/// `DOUBLE_CLICK_MS` earlier. A double click is not remembered (a third
/// click starts afresh); any other click is.
pub fn register_click(last: &mut Option<(Action, u64)>, action: Action, now: u64) -> (double: bool)
    ensures
        double == is_double(*old(last), action, now),
        *final(last) == (if double {
            None
        } else {
            Some((action, now))
        }),
{
    let prev = last.take();
    let double = match prev {
        Some((a, t)) => a == action && now.saturating_sub(t) < DOUBLE_CLICK_MS,
        None => false,
    };
    if !double {
        *last = Some((action, now));
    }
    double
}

/// A click is a double click only on the very target of the remembered
/// click (the same action with the same node and row), and only when it
/// comes less than `DOUBLE_CLICK_MS` after it; a click on anything else, or
/// with nothing remembered, is a single click.
pub proof fn law_double_click_needs_the_same_target(last: Option<(Action, u64)>, b: Action, now: u64)
    ensures
        is_double(last, b, now) ==> (last matches Some((a, t)) && a == b && (now < t || now - t
            < DOUBLE_CLICK_MS)),
        last is None ==> !is_double(last, b, now),
        (last matches Some((a, t)) && a != b) ==> !is_double(last, b, now),
        (last matches Some((a, t)) && a == b && t <= now && now - t < DOUBLE_CLICK_MS) ==> is_double(
            last,
            b,
            now,
        ),
{
}

/// A press that did not turn into a drag was released at `now` over the
/// hitbox action `hit` (`None` over empty canvas). Over a hitbox this is a
/// click, reported with whether it is a double click (see
/// `register_click`); over nothing, the remembered click is forgotten.
pub fn release_click(last: &mut Option<(Action, u64)>, hit: Option<Action>, now: u64) -> (r: Option<(Action, bool)>)
    ensures
        hit is None ==> r is None && *final(last) is None,
        hit matches Some(a) ==> {
            let double = is_double(*old(last), a, now);
            &&& r == Some((a, double))
            &&& *final(last) == (if double {
                None
            } else {
                Some((a, now))
            })
        },
{
    match hit {
        Some(a) => {
            let double = register_click(last, a, now);
            Some((a, double))
        },
        None => {
            *last = None;
            None
        },
    }
}

/// The node a live node hangs off, if any (that parent may since have closed).
pub open spec fn parent_of<G, R>(m: Map<NodeId, Node<G, R>>, id: NodeId) -> Option<NodeId> {
    if m.contains_key(id) {
        match m[id].parent {
            Some((p, _)) => Some(p),
            None => None,
        }
    } else {
        None
    }
}

/// Walking up from `id` stops (at a node with no live parent link) within
/// `fuel` steps.
pub open spec fn ancestry_ends<G, R>(m: Map<NodeId, Node<G, R>>, id: NodeId, fuel: nat) -> bool
    decreases fuel,
{
    fuel > 0 && match parent_of(m, id) {
        Some(p) => ancestry_ends(m, p, (fuel - 1) as nat),
        None => true,
    }
}

/// `id` and the ids met walking up its parent links, within `fuel` steps.
pub open spec fn ancestry<G, R>(m: Map<NodeId, Node<G, R>>, id: NodeId, fuel: nat) -> Set<NodeId>
    decreases fuel,
{
    if fuel == 0 {
        Set::empty()
    } else {
        match parent_of(m, id) {
            Some(p) => ancestry(m, p, (fuel - 1) as nat).insert(id),
            None => set![id],
        }
    }
}

/// The open child of row `item` of node `node`, if any.
pub open spec fn open_child<G, R>(m: Map<NodeId, Node<G, R>>, node: NodeId, item: usize) -> Option<NodeId> {
    if m.contains_key(node) && item < m[node].items@.len() {
        m[node].items@[item as int].child
    } else {
        None
    }
}

/// The route to a selection: the node holding it, all of its ancestors, and
/// the opened child of the selected row.
pub open spec fn route<G, R>(m: Map<NodeId, Node<G, R>>, selection: Option<(NodeId, usize)>, fuel: nat) -> Set<
    NodeId,
> {
    match selection {
        None => Set::empty(),
        Some((node, item)) => match open_child(m, node, item) {
            Some(c) => ancestry(m, node, fuel).insert(c),
            None => ancestry(m, node, fuel),
        },
    }
}

/// Once the walk has ended, more fuel changes nothing.
pub proof fn lemma_ancestry_fuel<G, R>(m: Map<NodeId, Node<G, R>>, id: NodeId, f1: nat, f2: nat)
    requires
        ancestry_ends(m, id, f1),
        f1 <= f2,
    ensures
        ancestry_ends(m, id, f2),
        ancestry(m, id, f1) == ancestry(m, id, f2),
    decreases f1,
{
    match parent_of(m, id) {
        Some(p) => {
            lemma_ancestry_fuel(m, p, (f1 - 1) as nat, (f2 - 1) as nat);
        },
        None => {},
    }
}

proof fn lemma_ancestry_same<G, R>(m: Map<NodeId, Node<G, R>>, id: NodeId, f1: nat, f2: nat)
    requires
        ancestry_ends(m, id, f1),
        ancestry_ends(m, id, f2),
    ensures
        ancestry(m, id, f1) == ancestry(m, id, f2),
{
    if f1 <= f2 {
        lemma_ancestry_fuel(m, id, f1, f2);
    } else {
        lemma_ancestry_fuel(m, id, f2, f1);
    }
}

/// `v` with `id` added unless already present.
fn push_unique(v: &mut Vec<NodeId>, id: NodeId)
    requires
        old(v)@.no_duplicates(),
    ensures
        final(v)@.no_duplicates(),
        final(v)@.to_set() == old(v)@.to_set().insert(id),
{
    let mut k: usize = 0;
    while k < v.len()
        invariant
            v@ == old(v)@,
            old(v)@.no_duplicates(),
            k <= v@.len(),
            forall|q: int| 0 <= q < k ==> v@[q] != id,
        decreases v@.len() - k,
    {
        if v[k] == id {
            proof {
                assert(v@.to_set().contains(id));
                assert(v@.to_set().insert(id) =~= v@.to_set());
            }
            return;
        }
        k = k + 1;
    }
    let ghost before = v@;
    v.push(id);
    proof {
        assert(!before.contains(id));
        assert forall|x: NodeId| v@.to_set().contains(x) <==> before.to_set().insert(id).contains(x) by {
            if v@.contains(x) {
                let q = choose|q: int| 0 <= q < v@.len() && v@[q] == x;
                if q < before.len() {
                    assert(before[q] == x);
                }
            }
            if before.contains(x) {
                let q = choose|q: int| 0 <= q < before.len() && before[q] == x;
                assert(v@[q] == x);
            }
            if x == id {
                assert(v@[before.len() as int] == id);
            }
        }
        assert(v@.to_set() =~= before.to_set().insert(id));
    }
}

/// The nodes of the route to `selection` (see [`route`]), each once.
pub fn path_nodes<G, R>(arena: &NodeArena<Node<G, R>>, selection: Option<(NodeId, usize)>) -> (r: Vec<NodeId>)
    requires
        arena.wf(),
        selection matches Some((node, _)) ==> exists|f: nat| ancestry_ends(arena.live(), node, f),
    ensures
        r@.no_duplicates(),
        forall|f: nat|
            (selection matches Some((node, _)) ==> ancestry_ends(arena.live(), node, f)) ==> r@.to_set() == route(
                arena.live(),
                selection,
                f,
            ),
{
    let ghost m = arena.live();
    let mut out: Vec<NodeId> = Vec::new();
    let (node, item) = match selection {
        Some(s) => s,
        None => {
            proof {
                assert(out@.to_set() =~= Set::<NodeId>::empty());
            }
            return out;
        },
    };
    let ghost f0: nat = choose|f: nat| ancestry_ends(m, node, f);
    if let Some(n) = arena.get(node) {
        if item < n.items.len() {
            if let Some(c) = n.items[item].child {
                push_unique(&mut out, c);
            }
        }
    }
    proof {
        assert(Seq::<NodeId>::empty().to_set() =~= Set::<NodeId>::empty());
    }
    let ghost start = out@.to_set();
    let mut cur = node;
    let ghost mut fuel: nat = f0;
    loop
        invariant
            arena.wf(),
            m == arena.live(),
            out@.no_duplicates(),
            ancestry_ends(m, cur, fuel),
            out@.to_set().union(ancestry(m, cur, fuel)) == start.union(ancestry(m, node, f0)),
        ensures
            out@.no_duplicates(),
            out@.to_set() == start.union(ancestry(m, node, f0)),
        decreases fuel,
    {
        push_unique(&mut out, cur);
        let next = match arena.get(cur) {
            Some(n) => match n.parent {
                Some((p, _)) => Some(p),
                None => None,
            },
            None => None,
        };
        match next {
            Some(p) => {
                proof {
                    assert(parent_of(m, cur) == Some(p));
                    assert(out@.to_set().union(ancestry(m, p, (fuel - 1) as nat)) =~= out@.to_set().union(
                        ancestry(m, cur, fuel),
                    ));
                    fuel = (fuel - 1) as nat;
                }
                cur = p;
            },
            None => {
                proof {
                    assert(parent_of(m, cur) is None);
                    assert(out@.to_set() =~= out@.to_set().union(ancestry(m, cur, fuel)));
                }
                break;
            },
        }
    }
    proof {
        assert forall|f: nat| ancestry_ends(m, node, f) implies out@.to_set() == route(m, selection, f) by {
            lemma_ancestry_same(m, node, f0, f);
            match open_child(m, node, item) {
                Some(c) => {
                    assert(start =~= set![c]);
                    assert(out@.to_set() =~= ancestry(m, node, f).insert(c));
                },
                None => {
                    assert(start =~= Set::<NodeId>::empty());
                    assert(out@.to_set() =~= ancestry(m, node, f));
                },
            }
        }
    }
    out
}

} // verus!
