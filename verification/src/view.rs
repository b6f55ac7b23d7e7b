//! The document tree.
//!
//! The nodes of a document live in an arena, each at a place that never
//! changes; the root is at place 0. A node knows its parent by place, and
//! holds the places of its children under their ids, in the order in which
//! they were added. A child always stands after its parent in the arena.

use vstd::prelude::*;
use linked_hash_map::LinkedHashMap;
use crate::child_map::{
    child_by_id, child_entries, children_in_order, count_children, insert_child, new_children,
};
use crate::config::{Config, Value};
use crate::error::{DocError, DocResult, ErrorType, Refusal};
use crate::number::{decimal_digits, push_decimal};
use crate::string_map::StringMap;
use crate::text::{is_whitespace, string_of, views, whitespace, chars_of};
use crate::utils::{generated_id, lemma_generated_id, new_id, IdGen};
use crate::xpath::{render_path, DocumentPath, PathSelectType, Segment};

verus! {

/// A node to be added: its type, its id if it has one, its tags and its configuration.
#[derive(Debug)]
pub struct PushView {
    pub type_id: String,
    pub id: Option<String>,
    pub tags: Vec<String>,
    pub config: Config,
}

/// One node of a document.
#[derive(Debug)]
pub struct NodeView {
    pub type_id: String,
    pub tags: Vec<String>,
    pub config: Config,
    /// The place of the parent; `None` for the root.
    pub parent: Option<usize>,
    /// The places of the children under their ids, the oldest first.
    pub child: LinkedHashMap<String, usize>,
}

/// A document: a tree of nodes under one root.
#[derive(Debug)]
pub struct Document {
    nodes: Vec<NodeView>,
}

/// What a `PushView` stands for.
pub struct Push {
    pub type_id: Seq<char>,
    pub id: Option<Seq<char>>,
    pub tags: Seq<Seq<char>>,
    pub config: Map<Seq<char>, Value>,
}

/// What a `NodeView` stands for.
pub struct Node {
    pub type_id: Seq<char>,
    pub tags: Seq<Seq<char>>,
    pub config: Map<Seq<char>, Value>,
    pub parent: Option<usize>,
    pub children: Seq<(Seq<char>, usize)>,
}

impl View for PushView {
    type V = Push;

    open spec fn view(&self) -> Push {
        Push {
            type_id: self.type_id@,
            id: match self.id {
                Some(id) => Some(id@),
                None => None,
            },
            tags: views(self.tags@),
            config: self.config@,
        }
    }
}

impl View for NodeView {
    type V = Node;

    open spec fn view(&self) -> Node {
        Node {
            type_id: self.type_id@,
            tags: views(self.tags@),
            config: self.config@,
            parent: self.parent,
            children: child_entries(self.child),
        }
    }
}

/// The type of the root and of every node made to complete a path.
pub open spec fn group_type() -> Seq<char> {
    "group"@
}

/// A node of type `group` without tags, configuration or children.
pub open spec fn group_node(parent: Option<usize>) -> Node {
    Node {
        type_id: group_type(),
        tags: Seq::empty(),
        config: Map::empty(),
        parent,
        children: Seq::empty(),
    }
}

/// An id is not empty and holds no whitespace.
pub open spec fn valid_id(id: Seq<char>) -> bool {
    id.len() > 0 && forall|i: int| 0 <= i < id.len() ==> !is_whitespace(#[trigger] id[i])
}

/// Whether a child is listed under `id`.
pub open spec fn has_id(children: Seq<(Seq<char>, usize)>, id: Seq<char>) -> bool {
    exists|k: int| 0 <= k < children.len() && (#[trigger] children[k]).0 == id
}

/// The children of the node at `p` stand after it, name it as their parent,
/// and have valid ids; no id and no child is listed twice.
pub open spec fn children_wf(t: Seq<Node>, p: int) -> bool {
    let kids = t[p].children;
    &&& forall|k: int|
        0 <= k < kids.len() ==> {
            let c = (#[trigger] kids[k]).1;
            &&& p < c < t.len()
            &&& t[c as int].parent == Some(p as usize)
            &&& valid_id(kids[k].0)
        }
    &&& forall|a: int, b: int|
        0 <= a < b < kids.len() ==> (#[trigger] kids[a]).0 != (#[trigger] kids[b]).0 && kids[a].1
            != kids[b].1
}

/// The node at `c` has a parent before it that lists it.
pub open spec fn parent_wf(t: Seq<Node>, c: int) -> bool {
    &&& t[c].parent matches Some(p)
    &&& p < c
    &&& exists|k: int| 0 <= k < t[p as int].children.len() && (#[trigger] t[p as int].children[k]).1 == c
}

/// The arena is a tree: the root at place 0 has no parent, and every other
/// node is listed once by its parent, which stands before it.
pub open spec fn tree_wf(t: Seq<Node>) -> bool {
    &&& t.len() > 0
    &&& t[0].parent is None
    &&& forall|p: int| 0 <= p < t.len() ==> #[trigger] children_wf(t, p)
    &&& forall|c: int| 0 < c < t.len() ==> #[trigger] parent_wf(t, c)
}

/// Whether a segment selects the child `entry`, without regard to its position.
pub open spec fn selects(t: Seq<Node>, segment: Segment, entry: (Seq<char>, usize)) -> bool {
    let node = t[entry.1 as int];
    match segment {
        Segment::Type(ty) => node.type_id == ty,
        Segment::Id(id) => entry.0 == id,
        Segment::Tag(tag) => node.tags.contains(tag),
        Segment::Index(_) => true,
        Segment::TypeId(ty, id) => entry.0 == id && node.type_id == ty,
        Segment::TypeIndex(ty, _) => node.type_id == ty,
        Segment::TypeTag(ty, tag) => node.type_id == ty && node.tags.contains(tag),
    }
}

/// The id that a segment asks for, if it asks for one.
pub open spec fn asked_id(segment: Segment) -> Option<Seq<char>> {
    match segment {
        Segment::Id(id) => Some(id),
        Segment::TypeId(_, id) => Some(id),
        _ => None,
    }
}

/// The places of the children that a segment selects, in the order of the children.
pub open spec fn candidates(t: Seq<Node>, children: Seq<(Seq<char>, usize)>, segment: Segment) -> Seq<
    usize,
>
    decreases children.len(),
{
    if children.len() == 0 {
        Seq::empty()
    } else {
        let before = candidates(t, children.drop_last(), segment);
        if selects(t, segment, children.last()) {
            before.push(children.last().1)
        } else {
            before
        }
    }
}

/// The children of the node at `parent` that a segment matches. A segment
/// with an index matches the one child at that position among those it
/// selects, counted from 0.
pub open spec fn matches(t: Seq<Node>, parent: int, segment: Segment) -> Seq<usize> {
    let found = candidates(t, t[parent].children, segment);
    match segment {
        Segment::Index(n) | Segment::TypeIndex(_, n) => if n < found.len() {
            seq![found[n as int]]
        } else {
            Seq::empty()
        },
        _ => found,
    }
}

/// The child that a path goes down to: the first match.
pub open spec fn first_match(t: Seq<Node>, parent: int, segment: Segment) -> Option<usize> {
    let found = matches(t, parent, segment);
    if found.len() > 0 {
        Some(found[0])
    } else {
        None
    }
}

/// The node that `path` reaches from `node`, taking the first match at each level.
pub open spec fn resolve_from(t: Seq<Node>, node: usize, path: Seq<Segment>) -> Option<usize>
    decreases path.len(),
{
    if path.len() == 0 {
        Some(node)
    } else {
        match first_match(t, node as int, path[0]) {
            Some(child) => resolve_from(t, child, path.drop_first()),
            None => None,
        }
    }
}

/// Whether every segment of `path` finds a child, from the root down.
pub open spec fn resolves(t: Seq<Node>, path: Seq<Segment>) -> bool {
    resolve_from(t, 0, path) is Some
}

/// Whether `place` is a child that the segment selects.
pub open spec fn selected_child(
    t: Seq<Node>,
    children: Seq<(Seq<char>, usize)>,
    segment: Segment,
    place: usize,
) -> bool {
    exists|k: int|
        0 <= k < children.len() && (#[trigger] children[k]).1 == place && selects(
            t,
            segment,
            children[k],
        )
}

/// The candidates are children that the segment selects.
pub proof fn lemma_candidates_in(t: Seq<Node>, children: Seq<(Seq<char>, usize)>, segment: Segment)
    ensures
        candidates(t, children, segment).len() <= children.len(),
        forall|i: int|
            0 <= i < candidates(t, children, segment).len() ==> selected_child(
                t,
                children,
                segment,
                #[trigger] candidates(t, children, segment)[i],
            ),
    decreases children.len(),
{
    if children.len() > 0 {
        let rest = children.drop_last();
        lemma_candidates_in(t, rest, segment);
        let found = candidates(t, children, segment);
        assert forall|i: int| 0 <= i < found.len() implies selected_child(
            t,
            children,
            segment,
            #[trigger] found[i],
        ) by {
            if i < candidates(t, rest, segment).len() {
                assert(selected_child(t, rest, segment, candidates(t, rest, segment)[i]));
                let k = choose|k: int|
                    0 <= k < rest.len() && (#[trigger] rest[k]).1 == found[i] && selects(
                        t,
                        segment,
                        rest[k],
                    );
                assert(children[k] == rest[k]);
            } else {
                assert(children[children.len() - 1] == children.last());
            }
        }
    }
}

/// Where ids are not listed twice, the candidates of an id are the child of
/// that id alone.
pub proof fn lemma_candidates_by_id(
    t: Seq<Node>,
    children: Seq<(Seq<char>, usize)>,
    segment: Segment,
    at: int,
)
    requires
        0 <= at < children.len(),
        forall|a: int, b: int|
            0 <= a < b < children.len() ==> (#[trigger] children[a]).0 != (#[trigger] children[b]).0,
        asked_id(segment) == Some(children[at].0),
    ensures
        candidates(t, children, segment) == if selects(t, segment, children[at]) {
            seq![children[at].1]
        } else {
            Seq::empty()
        },
    decreases children.len(),
{
    let rest = children.drop_last();
    if at == children.len() - 1 {
        lemma_candidates_none(t, rest, segment);
        assert forall|k: int| 0 <= k < rest.len() implies !selects(t, segment, #[trigger] rest[k]) by {
            assert(rest[k] == children[k]);
        }
    } else {
        assert(rest[at] == children[at]);
        assert forall|a: int, b: int| 0 <= a < b < rest.len() implies (#[trigger] rest[a]).0 != (
        #[trigger] rest[b]).0 by {
            assert(rest[a] == children[a]);
            assert(rest[b] == children[b]);
        }
        lemma_candidates_by_id(t, rest, segment, at);
    }
}

/// Children of which none is selected give no candidates.
pub proof fn lemma_candidates_none(t: Seq<Node>, children: Seq<(Seq<char>, usize)>, segment: Segment)
    requires
        forall|k: int| 0 <= k < children.len() ==> !selects(t, segment, #[trigger] children[k]),
    ensures
        candidates(t, children, segment) == Seq::<usize>::empty(),
    decreases children.len(),
{
    if children.len() > 0 {
        let rest = children.drop_last();
        assert forall|k: int| 0 <= k < rest.len() implies !selects(t, segment, #[trigger] rest[k]) by {
            assert(rest[k] == children[k]);
        }
        lemma_candidates_none(t, rest, segment);
        assert(children.last() == children[children.len() - 1]);
    }
}

/// The arena after a node was added under `parent` with the id `id`: the
/// new node stands at the end, and its parent lists it last.
pub open spec fn attach(t: Seq<Node>, parent: usize, id: Seq<char>, push: Push) -> Seq<Node> {
    let child = Node {
        type_id: push.type_id,
        tags: push.tags,
        config: push.config,
        parent: Some(parent),
        children: Seq::empty(),
    };
    let listed = Node {
        children: t[parent as int].children.push((id, t.len() as usize)),
        ..t[parent as int]
    };
    t.update(parent as int, listed).push(child)
}

/// How a change of the tree ended: the tree and the id counter after it,
/// and the node it reached or what it refused.
pub struct Outcome {
    pub tree: Seq<Node>,
    pub counter: nat,
    pub result: Result<usize, Refusal>,
}

/// The id of a node to be added: its own, or the next fallback id.
pub open spec fn id_for(push: Push, counter: nat) -> Seq<char> {
    match push.id {
        Some(id) => id,
        None => generated_id(counter),
    }
}

/// Adding a node under `parent`. A node without id takes the next fallback
/// id, which is then used up. Refused are, in this order: a parent outside
/// the document, an id that is not valid, an id that a sibling has.
pub open spec fn add_child_spec(t: Seq<Node>, parent: usize, push: Push, counter: nat) -> Outcome {
    let id = id_for(push, counter);
    let counter_after = if push.id is None {
        counter + 1
    } else {
        counter
    };
    if parent >= t.len() {
        Outcome { tree: t, counter, result: Err(Refusal::NoMatch(decimal_digits(parent as nat))) }
    } else if !valid_id(id) {
        Outcome { tree: t, counter: counter_after, result: Err(Refusal::InvalidId(id)) }
    } else if has_id(t[parent as int].children, id) {
        Outcome { tree: t, counter: counter_after, result: Err(Refusal::DuplicateId(id)) }
    } else {
        Outcome { tree: attach(t, parent, id, push), counter: counter_after, result: Ok(t.len() as usize) }
    }
}

/// Adding a node under the node that `path` reaches from the root. A path
/// that does not resolve is refused, and the tree is then what it was.
pub open spec fn create_spec(t: Seq<Node>, path: Seq<Segment>, push: Push, counter: nat) -> Outcome {
    match resolve_from(t, 0, path) {
        Some(parent) => add_child_spec(t, parent, push, counter),
        None => Outcome { tree: t, counter, result: Err(Refusal::NoMatch(render_path(path))) },
    }
}

/// The node that completes a path at a segment without match: a `group`
/// without tags or configuration, with the id of the segment where the
/// segment is an id alone.
pub open spec fn group_push(segment: Segment) -> Push {
    Push {
        type_id: group_type(),
        id: match segment {
            Segment::Id(id) => Some(id),
            _ => None,
        },
        tags: Seq::empty(),
        config: Map::empty(),
    }
}

/// Going down `path` from `node`, into the first match at each level, and
/// where there is none into a new group node. It stops at the first node
/// that cannot be added; the nodes added before stay.
pub open spec fn ensure_from(t: Seq<Node>, node: usize, path: Seq<Segment>, counter: nat) -> Outcome
    decreases path.len(),
{
    if path.len() == 0 {
        Outcome { tree: t, counter, result: Ok(node) }
    } else {
        match first_match(t, node as int, path[0]) {
            Some(child) => ensure_from(t, child, path.drop_first(), counter),
            None => {
                let step = add_child_spec(t, node, group_push(path[0]), counter);
                match step.result {
                    Ok(child) => ensure_from(step.tree, child, path.drop_first(), step.counter),
                    Err(_) => step,
                }
            },
        }
    }
}

/// Whether `later` is `earlier` with nodes added at or below `from`: every
/// old node is what it was, but that nodes from `from` on may list more children.
pub open spec fn grows(earlier: Seq<Node>, later: Seq<Node>, from: int) -> bool {
    &&& earlier.len() <= later.len()
    &&& forall|i: int|
        0 <= i < earlier.len() ==> {
            &&& (#[trigger] later[i]).type_id == earlier[i].type_id
            &&& later[i].tags == earlier[i].tags
            &&& later[i].config == earlier[i].config
            &&& later[i].parent == earlier[i].parent
            &&& (i < from ==> later[i].children == earlier[i].children)
        }
}

/// A segment that matches the group node made for it: an id, or the type `group`.
pub open spec fn stable_segment(segment: Segment) -> bool {
    segment is Id || segment == Segment::Type(group_type())
}

/// A path of which every segment matches the group node made for it.
pub open spec fn stable_path(path: Seq<Segment>) -> bool {
    forall|i: int| 0 <= i < path.len() ==> stable_segment(#[trigger] path[i])
}

/// Adding a node with a valid id that no sibling has keeps the tree a tree.
pub proof fn lemma_attach_wf(t: Seq<Node>, parent: usize, id: Seq<char>, push: Push)
    requires
        tree_wf(t),
        parent < t.len(),
        t.len() < usize::MAX,
        valid_id(id),
        !has_id(t[parent as int].children, id),
    ensures
        tree_wf(attach(t, parent, id, push)),
        grows(t, attach(t, parent, id, push), parent as int),
{
    let t2 = attach(t, parent, id, push);
    let n = t.len() as int;
    let kids = t[parent as int].children;
    let kids2 = t2[parent as int].children;
    assert(kids2 == kids.push((id, n as usize)));
    assert(children_wf(t, parent as int));
    assert forall|p: int| 0 <= p < t2.len() implies #[trigger] children_wf(t2, p) by {
        if p == n {
        } else if p == parent {
            assert forall|k: int| 0 <= k < kids2.len() implies {
                let c = (#[trigger] kids2[k]).1;
                &&& p < c < t2.len()
                &&& t2[c as int].parent == Some(p as usize)
                &&& valid_id(kids2[k].0)
            } by {
                if k < kids.len() {
                    assert(kids2[k] == kids[k]);
                }
            }
            assert forall|a: int, b: int| 0 <= a < b < kids2.len() implies (#[trigger] kids2[a]).0 != (
            #[trigger] kids2[b]).0 && kids2[a].1 != kids2[b].1 by {
                assert(kids2[a] == kids[a]);
                if b < kids.len() {
                    assert(kids2[b] == kids[b]);
                }
            }
        } else {
            assert(children_wf(t, p));
            assert(t2[p] == t[p]);
        }
    }
    assert forall|c: int| 0 < c < t2.len() implies #[trigger] parent_wf(t2, c) by {
        if c == n {
            assert(kids2[kids.len() as int].1 == c);
        } else {
            assert(parent_wf(t, c));
            let p = t[c].parent->0;
            let k = choose|k: int|
                0 <= k < t[p as int].children.len() && (#[trigger] t[p as int].children[k]).1 == c;
            if p == parent {
                assert(kids2[k] == kids[k]);
            }
            assert(t2[p as int].children[k].1 == c);
        }
    }
}

/// Selection looks only at the type and the tags of the children.
pub proof fn lemma_candidates_frame(
    t: Seq<Node>,
    t2: Seq<Node>,
    children: Seq<(Seq<char>, usize)>,
    segment: Segment,
)
    requires
        grows(t, t2, 0),
        forall|k: int| 0 <= k < children.len() ==> (#[trigger] children[k]).1 < t.len(),
    ensures
        candidates(t2, children, segment) == candidates(t, children, segment),
    decreases children.len(),
{
    if children.len() > 0 {
        let rest = children.drop_last();
        assert forall|k: int| 0 <= k < rest.len() implies (#[trigger] rest[k]).1 < t.len() by {
            assert(rest[k] == children[k]);
        }
        lemma_candidates_frame(t, t2, rest, segment);
        let last = children[children.len() - 1];
        assert(t2[last.1 as int].type_id == t[last.1 as int].type_id);
    }
}

/// The first match is a child of the node.
pub proof fn lemma_first_match(t: Seq<Node>, node: usize, segment: Segment)
    requires
        tree_wf(t),
        node < t.len(),
    ensures
        first_match(t, node as int, segment) matches Some(child) ==> node < child < t.len(),
{
    let kids = t[node as int].children;
    lemma_candidates_in(t, kids, segment);
    assert(children_wf(t, node as int));
    if let Some(child) = first_match(t, node as int, segment) {
        assert(selected_child(t, kids, segment, child));
    }
}

/// Completing a path keeps the tree a tree, touches no node above `node`,
/// and adds at most one node and uses up at most one id for each segment.
pub proof fn lemma_ensure_grows(t: Seq<Node>, node: usize, path: Seq<Segment>, counter: nat)
    requires
        tree_wf(t),
        node < t.len(),
        t.len() + path.len() <= usize::MAX,
    ensures
        tree_wf(ensure_from(t, node, path, counter).tree),
        grows(t, ensure_from(t, node, path, counter).tree, node as int),
        ensure_from(t, node, path, counter).tree.len() <= t.len() + path.len(),
        counter <= ensure_from(t, node, path, counter).counter <= counter + path.len(),
        ensure_from(t, node, path, counter).result matches Ok(reached) ==> reached < ensure_from(
            t,
            node,
            path,
            counter,
        ).tree.len(),
    decreases path.len(),
{
    if path.len() > 0 {
        let rest = path.drop_first();
        lemma_first_match(t, node, path[0]);
        match first_match(t, node as int, path[0]) {
            Some(child) => {
                lemma_ensure_grows(t, child, rest, counter);
            },
            None => {
                let push = group_push(path[0]);
                let step = add_child_spec(t, node, push, counter);
                if let Ok(child) = step.result {
                    lemma_attach_wf(t, node, id_for(push, counter), push);
                    lemma_ensure_grows(step.tree, child, rest, step.counter);
                    let out = ensure_from(step.tree, child, rest, step.counter).tree;
                    assert forall|i: int| 0 <= i < t.len() implies {
                        &&& (#[trigger] out[i]).type_id == t[i].type_id
                        &&& out[i].tags == t[i].tags
                        &&& out[i].config == t[i].config
                        &&& out[i].parent == t[i].parent
                        &&& (i < node ==> out[i].children == t[i].children)
                    } by {
                        assert(step.tree[i].type_id == t[i].type_id);
                    }
                }
            },
        }
    }
}

/// A path that already resolves is completed without a change.
pub proof fn lemma_ensure_resolved(t: Seq<Node>, node: usize, path: Seq<Segment>, counter: nat)
    requires
        resolve_from(t, node, path) is Some,
    ensures
        ensure_from(t, node, path, counter) == (Outcome {
            tree: t,
            counter,
            result: Ok(resolve_from(t, node, path)->0),
        }),
    decreases path.len(),
{
    if path.len() > 0 {
        lemma_ensure_resolved(t, first_match(t, node as int, path[0])->0, path.drop_first(), counter);
    }
}

/// A stable path resolves once it was completed, to the node that was reached.
pub proof fn lemma_ensure_stable(t: Seq<Node>, node: usize, path: Seq<Segment>, counter: nat)
    requires
        tree_wf(t),
        node < t.len(),
        t.len() + path.len() <= usize::MAX,
        stable_path(path),
        ensure_from(t, node, path, counter).result is Ok,
    ensures
        resolve_from(ensure_from(t, node, path, counter).tree, node, path) == Some(
            ensure_from(t, node, path, counter).result->Ok_0,
        ),
    decreases path.len(),
{
    if path.len() > 0 {
        let segment = path[0];
        let rest = path.drop_first();
        let kids = t[node as int].children;
        let out = ensure_from(t, node, path, counter);
        assert(stable_segment(segment));
        assert(stable_path(rest)) by {
            assert forall|i: int| 0 <= i < rest.len() implies stable_segment(#[trigger] rest[i]) by {
                assert(rest[i] == path[i + 1]);
            }
        }
        assert(children_wf(t, node as int));
        lemma_first_match(t, node, segment);
        match first_match(t, node as int, segment) {
            Some(child) => {
                lemma_ensure_grows(t, child, rest, counter);
                lemma_ensure_stable(t, child, rest, counter);
                assert(out.tree[node as int].children == kids);
                lemma_candidates_frame(t, out.tree, kids, segment);
            },
            None => {
                let push = group_push(segment);
                let id = id_for(push, counter);
                let step = add_child_spec(t, node, push, counter);
                let child = step.result->Ok_0;
                lemma_attach_wf(t, node, id, push);
                lemma_ensure_grows(step.tree, child, rest, step.counter);
                lemma_ensure_stable(step.tree, child, rest, step.counter);
                let kids2 = kids.push((id, child));
                assert(step.tree[node as int].children == kids2);
                assert(out.tree[node as int].children == kids2);
                assert(kids2.drop_last() == kids);
                assert(kids2.last() == (id, child));
                assert(grows(t, out.tree, 0)) by {
                    assert forall|i: int| 0 <= i < t.len() implies (#[trigger] out.tree[i]).type_id
                        == t[i].type_id && out.tree[i].tags == t[i].tags && out.tree[i].config
                        == t[i].config && out.tree[i].parent == t[i].parent by {
                        assert(step.tree[i].type_id == t[i].type_id);
                    }
                }
                lemma_candidates_frame(t, out.tree, kids, segment);
                assert(candidates(t, kids, segment) == Seq::<usize>::empty());
                assert(out.tree[child as int].type_id == step.tree[child as int].type_id);
                assert(selects(out.tree, segment, (id, child)));
                assert(candidates(out.tree, kids2, segment) == seq![child]);
            },
        }
    }
}

/// Completing a path a second time changes nothing, where the path
/// resolves after the first time.
pub proof fn lemma_mk_group_twice(t: Seq<Node>, path: Seq<Segment>, counter: nat)
    requires
        resolves(ensure_from(t, 0, path, counter).tree, path),
    ensures
        ({
            let first = ensure_from(t, 0, path, counter);
            let second = ensure_from(first.tree, 0, path, first.counter);
            second.tree == first.tree && second.counter == first.counter && second.result is Ok
        }),
{
    let first = ensure_from(t, 0, path, counter);
    lemma_ensure_resolved(first.tree, 0, path, first.counter);
}

/// Completing a stable path is idempotent: once it has succeeded the path
/// resolves, and a second time adds no node, uses up no id and reaches the
/// same node.
pub proof fn lemma_mk_group_idempotent(t: Seq<Node>, path: Seq<Segment>, counter: nat)
    requires
        tree_wf(t),
        t.len() + path.len() <= usize::MAX,
        stable_path(path),
        ensure_from(t, 0, path, counter).result is Ok,
    ensures
        resolves(ensure_from(t, 0, path, counter).tree, path),
        ({
            let first = ensure_from(t, 0, path, counter);
            ensure_from(first.tree, 0, path, first.counter) == first
        }),
{
    let first = ensure_from(t, 0, path, counter);
    lemma_ensure_stable(t, 0, path, counter);
    lemma_ensure_resolved(first.tree, 0, path, first.counter);
}

impl NodeView {
    /// Whether this node is the root.
    pub fn is_root(&self) -> (r: bool)
        ensures
            r == (self@.parent is None),
    {
        self.parent.is_none()
    }

    /// The number of children.
    pub fn child_count(&self) -> (n: usize)
        ensures
            n == self@.children.len(),
    {
        count_children(&self.child)
    }

    /// The places of the children, the oldest first.
    pub fn children(&self) -> (places: Vec<usize>)
        ensures
            places@.len() == self@.children.len(),
            forall|i: int| 0 <= i < places@.len() ==> places@[i] == (#[trigger] self@.children[i]).1,
    {
        children_in_order(&self.child)
    }
}

impl Default for NodeView {
    /// A node of type `group` without parent, tags, configuration or children.
    fn default() -> (node: Self)
        ensures
            node@ == group_node(None),
    {
        let node = NodeView {
            type_id: "group".to_owned(),
            tags: Vec::new(),
            config: StringMap::new(),
            parent: None,
            child: new_children(),
        };
        assert(views(node.tags@) =~= Seq::<Seq<char>>::empty());
        node
    }
}

fn holds_tag(tags: &Vec<String>, tag: &String) -> (r: bool)
    ensures
        r == views(tags@).contains(tag@),
{
    let mut i: usize = 0;
    while i < tags.len()
        invariant
            i <= tags.len(),
            forall|j: int| 0 <= j < i ==> views(tags@)[j] != tag@,
        decreases tags.len() - i,
    {
        if tags[i] == *tag {
            assert(views(tags@)[i as int] == tag@);
            return true;
        }
        i += 1;
    }
    false
}

impl View for Document {
    type V = Seq<Node>;

    closed spec fn view(&self) -> Seq<Node> {
        views(self.nodes@)
    }
}

impl Document {
    /// The arena is a tree, at every moment at which a document can be seen.
    #[verifier::type_invariant]
    pub closed spec fn wf(&self) -> bool {
        tree_wf(self@)
    }

    /// A lone root that stands in for the arena while the arena grows: one
    /// node without type, tags, configuration, parent or children.
    fn lone_root() -> (doc: Self)
        ensures
            doc@ == seq![
                (Node {
                    type_id: Seq::empty(),
                    tags: Seq::empty(),
                    config: Map::empty(),
                    parent: None,
                    children: Seq::empty(),
                }),
            ],
    {
        let root = NodeView {
            type_id: String::new(),
            tags: Vec::new(),
            config: StringMap::new(),
            parent: None,
            child: new_children(),
        };
        let mut nodes: Vec<NodeView> = Vec::new();
        nodes.push(root);
        proof {
            let t = views(nodes@);
            assert(views(root.tags@) =~= Seq::<Seq<char>>::empty());
            assert(t =~= seq![root@]);
            assert(children_wf(t, 0));
        }
        Document { nodes }
    }

    /// A document of one node: a root of type `group` without tags,
    /// configuration or children.
    pub fn new() -> (doc: Self)
        ensures
            doc@ == seq![group_node(None)],
            tree_wf(doc@),
    {
        let root = NodeView::default();
        let mut nodes: Vec<NodeView> = Vec::new();
        nodes.push(root);
        proof {
            let t = views(nodes@);
            assert(t =~= seq![group_node(None)]);
            assert(children_wf(t, 0));
        }
        Document { nodes }
    }

    /// The number of nodes.
    pub fn len(&self) -> (n: usize)
        ensures
            n == self@.len(),
            n > 0,
            tree_wf(self@),
    {
        proof {
            use_type_invariant(self);
        }
        self.nodes.len()
    }

    /// The node at `place`.
    pub fn node(&self, place: usize) -> (r: Option<&NodeView>)
        ensures
            match r {
                Some(node) => place < self@.len() && node@ == self@[place as int],
                None => place >= self@.len(),
            },
    {
        if place < self.nodes.len() {
            Some(&self.nodes[place])
        } else {
            None
        }
    }

    /// The root.
    pub fn root(&self) -> (node: &NodeView)
        ensures
            self@.len() > 0,
            node@ == self@[0],
            node@.parent is None,
    {
        proof {
            use_type_invariant(self);
        }
        &self.nodes[0]
    }

    /// Whether the segment selects the node at `place`, for a segment that
    /// does not ask for an id.
    fn selects_node(&self, place: usize, path: &PathSelectType) -> (r: bool)
        requires
            place < self@.len(),
            !(path@ is Id),
            !(path@ is TypeId),
        ensures
            forall|id: Seq<char>| r == selects(self@, path@, (id, place)),
    {
        let node = &self.nodes[place];
        match path {
            PathSelectType::Type(ty) => node.type_id == *ty,
            PathSelectType::Tag(tag) => holds_tag(&node.tags, tag),
            PathSelectType::Index(_) => true,
            PathSelectType::TypeIndex(ty, _) => node.type_id == *ty,
            PathSelectType::TypeTag(ty, tag) => node.type_id == *ty && holds_tag(&node.tags, tag),
            _ => false,
        }
    }

    /// The children of the node at `node` that the segment matches, in the
    /// order of the children. A place outside the document has no children.
    pub fn get_child(&self, node: usize, path: &PathSelectType) -> (found: Vec<usize>)
        ensures
            found@ == if node < self@.len() {
                matches(self@, node as int, path@)
            } else {
                Seq::empty()
            },
            forall|i: int| 0 <= i < found@.len() ==> node < #[trigger] found@[i] < self@.len(),
    {
        proof {
            use_type_invariant(self);
        }
        let mut found: Vec<usize> = Vec::new();
        if node >= self.nodes.len() {
            return found;
        }
        let ghost t = self@;
        let ghost kids = t[node as int].children;
        assert(children_wf(t, node as int));
        let parent = &self.nodes[node];
        match path {
            PathSelectType::Id(id) => {
                if let Some(place) = child_by_id(&parent.child, id.as_str()) {
                    proof {
                        let at = choose|i: int| 0 <= i < kids.len() && #[trigger] kids[i] == (id@, place);
                        lemma_candidates_by_id(t, kids, path@, at);
                    }
                    found.push(place);
                } else {
                    proof {
                        lemma_candidates_none(t, kids, path@);
                    }
                }
                found
            },
            PathSelectType::TypeId(ty, id) => {
                if let Some(place) = child_by_id(&parent.child, id.as_str()) {
                    proof {
                        let at = choose|i: int| 0 <= i < kids.len() && #[trigger] kids[i] == (id@, place);
                        lemma_candidates_by_id(t, kids, path@, at);
                    }
                    if self.nodes[place].type_id == *ty {
                        found.push(place);
                    }
                } else {
                    proof {
                        lemma_candidates_none(t, kids, path@);
                    }
                }
                found
            },
            _ => {
                let places = parent.children();
                let mut i: usize = 0;
                proof {
                    assert(kids.take(0) == Seq::<(Seq<char>, usize)>::empty());
                }
                while i < places.len()
                    invariant
                        i <= places.len(),
                        t == self@,
                        node < t.len(),
                        kids == t[node as int].children,
                        children_wf(t, node as int),
                        places@.len() == kids.len(),
                        forall|k: int| 0 <= k < places@.len() ==> places@[k] == (#[trigger] kids[k]).1,
                        !(path@ is Id),
                        !(path@ is TypeId),
                        found@ == candidates(t, kids.take(i as int), path@),
                        forall|k: int| 0 <= k < found@.len() ==> node < #[trigger] found@[k] < t.len(),
                    decreases places.len() - i,
                {
                    let place = places[i];
                    proof {
                        assert(kids.take(i + 1).drop_last() == kids.take(i as int));
                        assert(kids.take(i + 1).last() == kids[i as int]);
                        assert(kids[i as int] == (kids[i as int].0, place));
                    }
                    if self.selects_node(place, path) {
                        found.push(place);
                    }
                    i += 1;
                }
                proof {
                    assert(kids.take(i as int) == kids);
                }
                match path {
                    PathSelectType::Index(n) | PathSelectType::TypeIndex(_, n) => {
                        let mut one: Vec<usize> = Vec::new();
                        if *n < found.len() {
                            one.push(found[*n]);
                        }
                        one
                    },
                    _ => found,
                }
            },
        }
    }

    /// Whether the segment matches a child of the node at `node`.
    pub fn has_child(&self, node: usize, path: &PathSelectType) -> (r: bool)
        ensures
            r == (node < self@.len() && first_match(self@, node as int, path@) is Some),
    {
        self.get_child(node, path).len() > 0
    }

    /// The node that `path` reaches from the root, taking the first match
    /// at each level; `None` where a segment finds no child.
    pub fn locate(&self, path: &DocumentPath) -> (r: Option<usize>)
        ensures
            r == resolve_from(self@, 0, views(path@)),
            r matches Some(place) ==> place < self@.len(),
    {
        let ghost whole = views(path@);
        let mut current: usize = 0;
        let mut i: usize = 0;
        proof {
            use_type_invariant(self);
            assert(whole.skip(0) == whole);
        }
        while i < path.len()
            invariant
                i <= path.len(),
                whole == views(path@),
                tree_wf(self@),
                current < self@.len(),
                resolve_from(self@, 0, whole) == resolve_from(self@, current, whole.skip(i as int)),
            decreases path.len() - i,
        {
            let found = self.get_child(current, &path[i]);
            proof {
                assert(whole.skip(i as int)[0] == path@[i as int]@);
                assert(whole.skip(i as int).drop_first() == whole.skip(i + 1));
            }
            if found.len() == 0 {
                return None;
            }
            current = found[0];
            i += 1;
        }
        Some(current)
    }

    /// Whether every segment of `path` finds a child, from the root down,
    /// taking the first match at each level. The empty path always does.
    pub fn resolve(&self, path: &DocumentPath) -> (r: bool)
        ensures
            r == resolves(self@, views(path@)),
    {
        self.locate(path).is_some()
    }

    /// Adds a node under the node at `parent`, as its last child, and
    /// hands back its place. A node without id takes the next fallback id.
    ///
    /// Refused are a parent outside the document (`NoMatch`, with the place
    /// in decimal), an id that is empty or holds whitespace (`InvalidId`)
    /// and an id that a sibling already has (`DuplicateId`); the tree is
    /// then what it was.
    pub fn add_child(&mut self, parent: usize, view: PushView, ids: &mut IdGen) -> (r: DocResult<
        usize,
    >)
        requires
            view.id is None ==> old(ids)@ < u64::MAX,
        ensures
            ({
                let outcome = add_child_spec(old(self)@, parent, view@, old(ids)@);
                &&& final(self)@ == outcome.tree
                &&& final(ids)@ == outcome.counter
                &&& match r {
                    Ok(place) => outcome.result == Ok::<usize, Refusal>(place),
                    Err(e) => e.refusal() is Some && outcome.result == Err::<usize, Refusal>(
                        e.refusal()->0,
                    ),
                }
            }),
            r matches Ok(place) ==> place == old(self)@.len(),
            tree_wf(final(self)@),
    {
        proof {
            use_type_invariant(&*self);
        }
        let ghost t = self@;
        let ghost push = view@;
        if parent >= self.nodes.len() {
            let mut text: Vec<char> = Vec::new();
            push_decimal(&mut text, parent as u64);
            return Err(DocError::SoftError(ErrorType::NoMatch(string_of(&text))));
        }
        let PushView { type_id, id, tags, config } = view;
        let id = match id {
            Some(id) => {
                if !check_id(&id) {
                    return Err(DocError::SoftError(ErrorType::InvalidId(id)));
                }
                id
            },
            None => {
                proof {
                    lemma_generated_id(ids@);
                }
                new_id(ids)
            },
        };
        if child_by_id(&self.nodes[parent].child, id.as_str()).is_some() {
            return Err(DocError::SoftError(ErrorType::DuplicateId(id)));
        }
        let node = NodeView { type_id, tags, config, parent: Some(parent), child: new_children() };
        let ghost id_view = id@;
        // The arena is moved out while it grows: a document that can be
        // seen is a tree, and between the two steps below the arena is none.
        let mut taken = Self::lone_root();
        core::mem::swap(self, &mut taken);
        let Document { nodes } = taken;
        let mut nodes = nodes;
        let place = nodes.len();
        nodes.push(node);
        let count = nodes.len();
        let held = insert_child(&mut nodes[parent].child, id, place);
        proof {
            assert(t.len() + 1 == count);
            assert(held is None);
            assert(views(nodes@) =~= attach(t, parent, id_view, push));
            lemma_attach_wf(t, parent, id_view, push);
        }
        *self = Document { nodes };
        Ok(place)
    }

    /// Adds a node under the node that `path` reaches from the root, and
    /// hands back its place. The path must resolve: nothing is made to
    /// complete it. A path that does not resolve is refused (`NoMatch`,
    /// with the text of the path); what `add_child` refuses is refused here too.
    pub fn create(&mut self, path: &DocumentPath, view: PushView, ids: &mut IdGen) -> (r: DocResult<
        usize,
    >)
        requires
            view.id is None ==> old(ids)@ < u64::MAX,
        ensures
            ({
                let outcome = create_spec(old(self)@, views(path@), view@, old(ids)@);
                &&& final(self)@ == outcome.tree
                &&& final(ids)@ == outcome.counter
                &&& match r {
                    Ok(place) => outcome.result == Ok::<usize, Refusal>(place),
                    Err(e) => e.refusal() is Some && outcome.result == Err::<usize, Refusal>(
                        e.refusal()->0,
                    ),
                }
            }),
            r matches Ok(place) ==> place == old(self)@.len(),
            tree_wf(final(self)@),
    {
        proof {
            use_type_invariant(&*self);
        }
        match self.locate(path) {
            Some(parent) => self.add_child(parent, view, ids),
            None => Err(DocError::SoftError(ErrorType::NoMatch(PathSelectType::path_text(path)))),
        }
    }

    /// Completes `path`: goes down from the root into the first match of
    /// each segment, and where a segment has no match adds a group node
    /// and goes down into it. The new node has the id of the segment where
    /// the segment is an id alone, else the next fallback id. A path that
    /// resolves is left as it is.
    ///
    /// It stops at the first node that cannot be added, for its id is not
    /// valid or a sibling has it; the nodes added before stay.
    pub fn mk_group(&mut self, path: &DocumentPath, ids: &mut IdGen) -> (r: DocResult<()>)
        requires
            old(ids)@ + path.len() <= u64::MAX,
        ensures
            ({
                let outcome = ensure_from(old(self)@, 0, views(path@), old(ids)@);
                &&& final(self)@ == outcome.tree
                &&& final(ids)@ == outcome.counter
                &&& match r {
                    Ok(_) => outcome.result is Ok,
                    Err(e) => e.refusal() is Some && outcome.result == Err::<usize, Refusal>(
                        e.refusal()->0,
                    ),
                }
            }),
            old(ids)@ <= final(ids)@ <= old(ids)@ + path.len(),
            final(self)@.len() <= old(self)@.len() + path.len(),
            tree_wf(final(self)@),
    {
        let ghost whole = views(path@);
        let ghost goal = ensure_from(self@, 0, whole, ids@);
        let mut current: usize = 0;
        let mut i: usize = 0;
        proof {
            use_type_invariant(&*self);
            assert(whole.skip(0) == whole);
        }
        while i < path.len()
            invariant
                i <= path.len(),
                whole == views(path@),
                tree_wf(self@),
                current < self@.len(),
                ids@ + (path.len() - i) <= u64::MAX,
                old(ids)@ <= ids@ <= old(ids)@ + i,
                self@.len() <= old(self)@.len() + i,
                goal == ensure_from(old(self)@, 0, whole, old(ids)@),
                goal == ensure_from(self@, current, whole.skip(i as int), ids@),
            decreases path.len() - i,
        {
            let segment = &path[i];
            proof {
                assert(whole.skip(i as int)[0] == segment@);
                assert(whole.skip(i as int).drop_first() == whole.skip(i + 1));
            }
            let found = self.get_child(current, segment);
            if found.len() > 0 {
                current = found[0];
            } else {
                let push = PushView {
                    type_id: "group".to_owned(),
                    id: match segment {
                        PathSelectType::Id(id) => Some(id.clone()),
                        _ => None,
                    },
                    tags: Vec::new(),
                    config: StringMap::new(),
                };
                proof {
                    assert(views(push.tags@) =~= Seq::<Seq<char>>::empty());
                    assert(push@ == group_push(segment@));
                }
                match self.add_child(current, push, ids) {
                    Ok(place) => {
                        current = place;
                    },
                    Err(e) => {
                        return Err(e);
                    },
                }
            }
            i += 1;
        }
        Ok(())
    }
}

fn check_id(id: &String) -> (r: bool)
    ensures
        r == valid_id(id@),
{
    let chars = chars_of(id.as_str());
    if chars.len() == 0 {
        return false;
    }
    let mut i: usize = 0;
    while i < chars.len()
        invariant
            i <= chars.len(),
            chars@ == id@,
            forall|j: int| 0 <= j < i ==> !is_whitespace(#[trigger] chars@[j]),
        decreases chars.len() - i,
    {
        if whitespace(chars[i]) {
            return false;
        }
        i += 1;
    }
    true
}

} // verus!
