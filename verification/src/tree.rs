//! The search tree as data: nodes in an arena that point at parents and
//! children by position, what makes such an arena a tree of claims, and how
//! visits are counted in it.

use crate::harness::{count_unowned, unowned};
use crate::river::{River, RiverIdx};
use vstd::prelude::*;

verus! {

/// The number of steps that a tree can count.
pub const VISIT_LIMIT: u64 = 0x7fff_ffff_ffff_ffff;

/// What a node can still become.
#[derive(Debug, Clone, Copy, PartialEq, Eq, Structural)]
pub enum NodeStatus {
    /// No river is left to claim here.
    Done,
    /// Every river that can be claimed here has a child.
    Expanded,
    /// A river that can be claimed here may still lack a child.
    Expandable,
}

/// A node of the search tree.
///
/// `parent` and `children` are positions in the arena. `score` is the sum,
/// over the visits, of the leads that the playouts ended with.
#[derive(Debug)]
pub struct MCTSNode {
    pub play: Option<RiverIdx>,
    pub children: Vec<usize>,
    pub parent: Option<usize>,
    pub status: NodeStatus,
    pub score: i128,
    pub count: u64,
}

/// What the choice among the children of a node goes by.
#[derive(Debug, Clone, Copy)]
pub struct ChildStats {
    pub visits: u64,
    pub score: i128,
}

/// How many claims lead from the root to node `i`.
pub open spec fn depth(nodes: Seq<MCTSNode>, i: int) -> nat
    decreases i,
{
    if 0 < i < nodes.len() && nodes[i].parent is Some && nodes[i].parent->0 < i {
        depth(nodes, nodes[i].parent->0 as int) + 1
    } else {
        0
    }
}

/// The rivers claimed on the way from the root to node `i`, in order.
pub open spec fn path_plays(nodes: Seq<MCTSNode>, i: int) -> Seq<RiverIdx>
    decreases i,
{
    if 0 < i < nodes.len() && nodes[i].parent is Some && nodes[i].parent->0 < i
        && nodes[i].play is Some {
        path_plays(nodes, nodes[i].parent->0 as int).push(nodes[i].play->0)
    } else {
        Seq::empty()
    }
}

/// Node `i` is node `focus` or one of its ancestors.
pub open spec fn on_path(nodes: Seq<MCTSNode>, i: int, focus: int) -> bool
    decreases focus,
{
    i == focus || (0 < focus < nodes.len() && nodes[focus].parent is Some && nodes[focus].parent->0
        < focus && on_path(nodes, i, nodes[focus].parent->0 as int))
}

/// The visits of the first `upto` of `kids`, summed.
pub open spec fn visits_below(nodes: Seq<MCTSNode>, kids: Seq<usize>, upto: int) -> int
    decreases upto,
{
    if upto <= 0 {
        0
    } else {
        visits_below(nodes, kids, upto - 1) + nodes[kids[upto - 1] as int].count
    }
}

/// The visits of all children of node `i`, summed.
pub open spec fn child_visits(nodes: Seq<MCTSNode>, i: int) -> int {
    visits_below(nodes, nodes[i].children@, nodes[i].children@.len() as int)
}

/// Parent and children of node `i` point at each other, and children stand
/// in the order of their creation.
pub open spec fn links_ok(nodes: Seq<MCTSNode>, i: int) -> bool {
    let node = nodes[i];
    &&& i == 0 ==> node.parent is None && node.play is None
    &&& i > 0 ==> node.parent is Some && node.parent->0 < i && node.play is Some
        && nodes[node.parent->0 as int].children@.contains(i as usize)
    &&& forall|k: int|
        0 <= k < node.children@.len() ==> i < #[trigger] node.children@[k] < nodes.len()
            && nodes[node.children@[k] as int].parent == Some(i as usize)
    &&& forall|k: int, l: int|
        0 <= k < l < node.children@.len() ==> #[trigger] node.children@[k]
            < #[trigger] node.children@[l]
}

/// The river claimed on entering node `i` had no owner on `board`, was not
/// claimed on the way to its parent, and is claimed by no sibling.
pub open spec fn play_ok(nodes: Seq<MCTSNode>, i: int, board: Seq<River>) -> bool {
    i > 0 ==> {
        let river = nodes[i].play->0;
        let parent = nodes[i].parent->0 as int;
        &&& unowned(board).contains(river)
        &&& !path_plays(nodes, parent).contains(river)
        &&& forall|k: int|
            0 <= k < nodes[parent].children@.len() && #[trigger] nodes[parent].children@[k] != i
                ==> nodes[nodes[parent].children@[k] as int].play != Some(river)
    }
}

/// The status of node `i` says how its children compare with the `free`
/// rivers less those claimed on the way to it.
pub open spec fn status_ok(nodes: Seq<MCTSNode>, i: int, free: int) -> bool {
    let kids = nodes[i].children@.len();
    let deep = depth(nodes, i);
    &&& kids + deep <= free
    &&& match nodes[i].status {
        NodeStatus::Done => kids == 0 && deep == free,
        NodeStatus::Expanded => kids >= 1 && kids + deep == free,
        NodeStatus::Expandable => kids == 0 || kids + deep < free,
    }
}

/// The tree is a tree of claims that can be played on `board`.
pub open spec fn shape_ok(nodes: Seq<MCTSNode>, board: Seq<River>) -> bool {
    &&& 1 <= nodes.len() <= usize::MAX
    &&& forall|i: int|
        0 <= i < nodes.len() ==> {
            &&& #[trigger] links_ok(nodes, i)
            &&& play_ok(nodes, i, board)
            &&& status_ok(nodes, i, count_unowned(board) as int)
        }
}

/// The visits that node `i` has of its own, beside those of its children:
/// the one that created it, unless it is the root.
pub open spec fn own_visits(i: int) -> int {
    if i == 0 {
        0
    } else {
        1
    }
}

/// Node `i` has been visited, and unless no river is left at it, once for
/// its creation and once for every visit of a child.
pub open spec fn count_ok(nodes: Seq<MCTSNode>, i: int) -> bool {
    &&& i > 0 ==> nodes[i].count >= 1
    &&& nodes[i].status != NodeStatus::Done ==> nodes[i].count == own_visits(i) + child_visits(
        nodes,
        i,
    )
}

/// Node `i` is one visit short of `count_ok`.
pub open spec fn count_pending(nodes: Seq<MCTSNode>, i: int) -> bool {
    nodes[i].status != NodeStatus::Done ==> nodes[i].count + 1 == own_visits(i) + child_visits(
        nodes,
        i,
    )
}

/// Every node has its visits counted but `focus`, which is one visit short.
pub open spec fn one_visit_short(nodes: Seq<MCTSNode>, focus: int) -> bool {
    &&& forall|i: int| 0 <= i < nodes.len() && i != focus ==> #[trigger] count_ok(nodes, i)
    &&& count_pending(nodes, focus)
}

/// Every node has its visits counted.
pub open spec fn counts_ok(nodes: Seq<MCTSNode>) -> bool {
    forall|i: int| 0 <= i < nodes.len() ==> #[trigger] count_ok(nodes, i)
}

/// No node has more visits than the root, and no score sum is beyond what
/// that many playouts can give.
pub open spec fn bounds_ok(nodes: Seq<MCTSNode>) -> bool {
    forall|i: int|
        0 <= i < nodes.len() ==> {
            &&& (#[trigger] nodes[i]).count <= nodes[0].count
            &&& -(nodes[i].count * u64::MAX) <= nodes[i].score <= nodes[i].count * u64::MAX
        }
}

/// `node` after one more visit that ended with `lead`.
pub open spec fn bump(node: MCTSNode, lead: int) -> MCTSNode {
    MCTSNode { count: (node.count + 1) as u64, score: (node.score + lead) as i128, ..node }
}

/// The tree after a visit of `focus` that ended with `lead` has been
/// carried up to the root.
pub open spec fn bumped(nodes: Seq<MCTSNode>, focus: int, lead: int) -> Seq<MCTSNode> {
    Seq::new(
        nodes.len(),
        |i: int|
            if on_path(nodes, i, focus) {
                bump(nodes[i], lead)
            } else {
                nodes[i]
            },
    )
}

/// One of the first `upto` of `kids` was entered by claiming `river`.
pub open spec fn claimed_below(
    nodes: Seq<MCTSNode>,
    kids: Seq<usize>,
    upto: int,
    river: RiverIdx,
) -> bool {
    exists|k: int| 0 <= k < upto && nodes[#[trigger] kids[k] as int].play == Some(river)
}

/// `after` is `before` with one more visit, ended with `lead`, counted for
/// `focus` and each of its ancestors, and for no other node. A node that
/// `before` does not have yet is `focus` itself, new with this visit.
pub open spec fn visit_counted(
    before: Seq<MCTSNode>,
    after: Seq<MCTSNode>,
    focus: int,
    lead: int,
) -> bool {
    &&& 0 <= focus < after.len()
    &&& before.len() <= after.len() <= before.len() + 1
    &&& after.len() > before.len() ==> focus == before.len()
    &&& forall|i: int|
        0 <= i < after.len() ==> {
            let had_count = if i < before.len() {
                before[i].count as int
            } else {
                0
            };
            let had_score = if i < before.len() {
                before[i].score as int
            } else {
                0
            };
            if on_path(after, i, focus) {
                (#[trigger] after[i]).count == had_count + 1 && after[i].score == had_score + lead
            } else {
                after[i].count == had_count && after[i].score == had_score
            }
        }
}

/// `b` has the nodes of `a`, with the same parents and plays, and maybe
/// more.
pub open spec fn same_links(a: Seq<MCTSNode>, b: Seq<MCTSNode>) -> bool {
    &&& a.len() <= b.len()
    &&& forall|i: int|
        0 <= i < a.len() ==> (#[trigger] a[i]).parent == b[i].parent && a[i].play == b[i].play
}

/// Depth and path of a node depend on parents and plays alone.
pub proof fn lemma_same_links(a: Seq<MCTSNode>, b: Seq<MCTSNode>, i: int)
    requires
        same_links(a, b),
        0 <= i < a.len(),
    ensures
        depth(a, i) == depth(b, i),
        path_plays(a, i) == path_plays(b, i),
    decreases i,
{
    if 0 < i && a[i].parent is Some && a[i].parent->0 < i {
        lemma_same_links(a, b, a[i].parent->0 as int);
    }
}

/// Ancestry depends on parents alone.
pub proof fn lemma_same_ancestry(a: Seq<MCTSNode>, b: Seq<MCTSNode>, i: int, focus: int)
    requires
        same_links(a, b),
        0 <= focus < a.len(),
    ensures
        on_path(a, i, focus) == on_path(b, i, focus),
    decreases focus,
{
    if 0 < focus && a[focus].parent is Some && a[focus].parent->0 < focus {
        lemma_same_ancestry(a, b, i, a[focus].parent->0 as int);
    }
}

/// An ancestor stands before its descendants in the arena.
pub proof fn lemma_on_path_below(nodes: Seq<MCTSNode>, i: int, focus: int)
    requires
        on_path(nodes, i, focus),
    ensures
        i <= focus,
    decreases focus,
{
    if i != focus {
        lemma_on_path_below(nodes, i, nodes[focus].parent->0 as int);
    }
}

/// The parent of an ancestor is an ancestor.
pub proof fn lemma_on_path_parent(nodes: Seq<MCTSNode>, child: int, focus: int)
    requires
        on_path(nodes, child, focus),
        0 < child < nodes.len(),
        nodes[child].parent is Some,
        nodes[child].parent->0 < child,
    ensures
        on_path(nodes, nodes[child].parent->0 as int, focus),
    decreases focus,
{
    if child != focus {
        lemma_on_path_parent(nodes, child, nodes[focus].parent->0 as int);
    } else {
        assert(on_path(nodes, nodes[focus].parent->0 as int, nodes[focus].parent->0 as int));
    }
}

/// A sum of visits does not change where none of the visits summed does.
pub proof fn lemma_visits_same(a: Seq<MCTSNode>, b: Seq<MCTSNode>, kids: Seq<usize>, upto: int)
    requires
        upto <= kids.len(),
        forall|k: int| 0 <= k < upto ==> a[#[trigger] kids[k] as int].count == b[kids[k] as int].count,
    ensures
        visits_below(a, kids, upto) == visits_below(b, kids, upto),
    decreases upto,
{
    if upto > 0 {
        lemma_visits_same(a, b, kids, upto - 1);
        assert(a[kids[upto - 1] as int].count == b[kids[upto - 1] as int].count);
    }
}

/// A sum of visits grows by one where one of the visits summed does.
pub proof fn lemma_visits_one_more(
    a: Seq<MCTSNode>,
    b: Seq<MCTSNode>,
    kids: Seq<usize>,
    upto: int,
    at: int,
)
    requires
        upto <= kids.len(),
        0 <= at < kids.len(),
        b[kids[at] as int].count == a[kids[at] as int].count + 1,
        forall|k: int|
            0 <= k < upto && k != at ==> a[#[trigger] kids[k] as int].count == b[kids[k] as int].count,
    ensures
        visits_below(b, kids, upto) == visits_below(a, kids, upto) + if at < upto {
            1int
        } else {
            0int
        },
    decreases upto,
{
    if upto > 0 {
        lemma_visits_one_more(a, b, kids, upto - 1, at);
        if upto - 1 != at {
            assert(a[kids[upto - 1] as int].count == b[kids[upto - 1] as int].count);
        }
    }
}

impl MCTSNode {
    /// A node without children or visits, entered by `play`.
    pub fn new(play: Option<RiverIdx>) -> (node: MCTSNode)
        ensures
            node.play == play,
            node.children@.len() == 0,
            node.parent is None,
            node.status == NodeStatus::Expandable,
            node.score == 0,
            node.count == 0,
    {
        MCTSNode {
            play,
            children: Vec::new(),
            parent: None,
            status: NodeStatus::Expandable,
            score: 0,
            count: 0,
        }
    }
}

/// The position in `kids` of the child of most visits among the first
/// `upto`, the earliest of them where several have as many; below zero where
/// there is no child.
pub open spec fn most_visited(nodes: Seq<MCTSNode>, kids: Seq<usize>, upto: int) -> int
    decreases upto,
{
    if upto <= 0 {
        -1
    } else {
        let best = most_visited(nodes, kids, upto - 1);
        if best < 0 || nodes[kids[upto - 1] as int].count > nodes[kids[best] as int].count {
            upto - 1
        } else {
            best
        }
    }
}

/// The river that the tree prefers: the one claimed on entering the most
/// visited child of the root; none while the root has no child.
pub open spec fn preferred_river(nodes: Seq<MCTSNode>) -> Option<RiverIdx> {
    let kids = nodes[0].children@;
    if kids.len() == 0 {
        None
    } else {
        nodes[kids[most_visited(nodes, kids, kids.len() as int)] as int].play
    }
}

/// The most visited child is a child that none outdoes and none before it
/// equals.
pub proof fn lemma_most_visited(nodes: Seq<MCTSNode>, kids: Seq<usize>, upto: int)
    requires
        0 <= upto <= kids.len(),
    ensures
        upto == 0 ==> most_visited(nodes, kids, upto) < 0,
        upto > 0 ==> 0 <= most_visited(nodes, kids, upto) < upto,
        forall|k: int|
            0 <= k < upto ==> nodes[#[trigger] kids[k] as int].count <= nodes[kids[most_visited(
                nodes,
                kids,
                upto,
            )] as int].count,
        forall|k: int|
            0 <= k < most_visited(nodes, kids, upto) ==> nodes[#[trigger] kids[k] as int].count
                < nodes[kids[most_visited(nodes, kids, upto)] as int].count,
    decreases upto,
{
    if upto > 0 {
        lemma_most_visited(nodes, kids, upto - 1);
    }
}

/// In a tree that has counted its visits, every node but the root has been
/// visited, and a node with children has one visit for its creation and one
/// for every visit of a child; the root has those of its children alone.
pub proof fn lemma_visits_add_up(nodes: Seq<MCTSNode>, board: Seq<River>, i: int)
    requires
        shape_ok(nodes, board),
        counts_ok(nodes),
        0 <= i < nodes.len(),
    ensures
        i > 0 ==> nodes[i].count >= 1,
        nodes[i].children@.len() > 0 ==> nodes[i].count == own_visits(i) + child_visits(nodes, i),
{
    assert(links_ok(nodes, i));
    assert(status_ok(nodes, i, count_unowned(board) as int));
    assert(count_ok(nodes, i));
}

/// A score sum within what its visits allow stays so after one more visit,
/// and within the score type while the visits are within their limit.
pub proof fn lemma_score_fits(count: int, score: int, lead: int)
    requires
        0 <= count < VISIT_LIMIT,
        -(count * u64::MAX) <= score <= count * u64::MAX,
        -(u64::MAX as int) <= lead <= u64::MAX,
    ensures
        -((count + 1) * u64::MAX) <= score + lead <= (count + 1) * u64::MAX,
        i128::MIN <= score + lead <= i128::MAX,
        count * u64::MAX >= 0,
{
    let top = u64::MAX as int;
    assert((count + 1) * top == count * top + top) by (nonlinear_arith);
    assert((count + 1) * top <= VISIT_LIMIT * top) by (nonlinear_arith)
        requires
            0 <= count < VISIT_LIMIT,
            top >= 0,
    ;
    assert(VISIT_LIMIT * top <= i128::MAX) by (nonlinear_arith)
        requires
            top == 0xffff_ffff_ffff_ffff,
    ;
    assert(count * top >= 0) by (nonlinear_arith)
        requires
            count >= 0,
            top >= 0,
    ;
}

/// The root is an ancestor of every node.
pub proof fn lemma_root_on_path(nodes: Seq<MCTSNode>, focus: int)
    requires
        0 <= focus < nodes.len(),
        nodes.len() <= usize::MAX,
        forall|i: int| 0 <= i < nodes.len() ==> #[trigger] links_ok(nodes, i),
    ensures
        on_path(nodes, 0, focus),
    decreases focus,
{
    if focus > 0 {
        assert(links_ok(nodes, focus));
        lemma_root_on_path(nodes, nodes[focus].parent->0 as int);
    }
}

/// Counting a visit at `cur` settles the count of `cur`, leaves its parent
/// one visit short, and touches the count of no other node.
pub proof fn lemma_bump_counts(
    start: Seq<MCTSNode>,
    before: Seq<MCTSNode>,
    after: Seq<MCTSNode>,
    cur: int,
)
    requires
        0 <= cur < start.len(),
        start.len() <= usize::MAX,
        before.len() == start.len(),
        after.len() == start.len(),
        forall|i: int| 0 <= i < start.len() ==> #[trigger] links_ok(start, i),
        forall|i: int|
            0 <= i < start.len() ==> (#[trigger] before[i]).children == start[i].children
                && before[i].status == start[i].status && before[i].parent == start[i].parent,
        forall|i: int| 0 <= i < start.len() && i != cur ==> #[trigger] after[i] == before[i],
        after[cur].children == before[cur].children,
        after[cur].status == before[cur].status,
        after[cur].count == before[cur].count + 1,
        forall|i: int| 0 <= i < start.len() && i != cur ==> #[trigger] count_ok(before, i),
        count_pending(before, cur),
    ensures
        count_ok(after, cur),
        forall|i: int|
            0 <= i < start.len() && i != cur && !(start[cur].parent is Some && start[cur].parent->0
                == i) ==> #[trigger] count_ok(after, i),
        start[cur].parent matches Some(p) ==> count_pending(after, p as int),
{
    assert forall|i: int|
        0 <= i < start.len() && !(start[cur].parent is Some && start[cur].parent->0
            == i) implies child_visits(after, i) == child_visits(before, i) by {
        let kids = start[i].children@;
        assert(links_ok(start, i));
        assert forall|k: int| 0 <= k < kids.len() implies before[#[trigger] kids[k] as int].count
            == after[kids[k] as int].count by {
            assert(start[kids[k] as int].parent == Some(i as usize));
        }
        lemma_visits_same(before, after, kids, kids.len() as int);
    }
    assert(count_ok(after, cur)) by {
        assert(links_ok(start, cur));
        assert(child_visits(after, cur) == child_visits(before, cur));
    }
    assert forall|i: int|
        0 <= i < start.len() && i != cur && !(start[cur].parent is Some && start[cur].parent->0
            == i) implies #[trigger] count_ok(after, i) by {
        assert(count_ok(before, i));
        assert(child_visits(after, i) == child_visits(before, i));
    }
    if start[cur].parent is Some {
        let p = start[cur].parent->0 as int;
        assert(links_ok(start, cur));
        assert(links_ok(start, p));
        let kids = start[p].children@;
        assert(kids.contains(cur as usize));
        let at = choose|at: int| 0 <= at < kids.len() && kids[at] == cur as usize;
        assert(kids[at] as int == cur);
        assert forall|k: int| 0 <= k < kids.len() && k != at implies before[#[trigger] kids[k] as int].count
            == after[kids[k] as int].count by {
            if k < at {
                assert(kids[k] < kids[at]);
            } else {
                assert(kids[at] < kids[k]);
            }
        }
        lemma_visits_one_more(before, after, kids, kids.len() as int, at);
        assert(count_ok(before, p));
    }
}

/// The shape of the tree is kept where children, parents and plays stay as
/// they are and a status changes at most to mark a node as done at which
/// no river is left.
pub proof fn lemma_bumped_shape(start: Seq<MCTSNode>, after: Seq<MCTSNode>, board: Seq<River>)
    requires
        shape_ok(start, board),
        after.len() == start.len(),
        forall|i: int|
            0 <= i < start.len() ==> (#[trigger] after[i]).children == start[i].children
                && after[i].parent == start[i].parent && after[i].play == start[i].play && (
            after[i].status == start[i].status || (after[i].status == NodeStatus::Done
                && start[i].children@.len() == 0 && depth(start, i) == count_unowned(board))),
    ensures
        shape_ok(after, board),
{
    assert(same_links(start, after));
    assert forall|i: int| 0 <= i < after.len() implies {
        &&& #[trigger] links_ok(after, i)
        &&& play_ok(after, i, board)
        &&& status_ok(after, i, count_unowned(board) as int)
    } by {
        assert(links_ok(start, i));
        assert(play_ok(start, i, board));
        assert(status_ok(start, i, count_unowned(board) as int));
        lemma_same_links(start, after, i);
        if i > 0 {
            let p = start[i].parent->0 as int;
            lemma_same_links(start, after, p);
            assert(after[p].children == start[p].children);
            assert(links_ok(start, p));
            assert forall|k: int|
                0 <= k < after[p].children@.len() && #[trigger] after[p].children@[k]
                    != i implies after[after[p].children@[k] as int].play != Some(
                after[i].play->0,
            ) by {
                assert(start[p].children@[k] == after[p].children@[k]);
                assert(start[p].children@[k] < start.len());
            }
            assert(play_ok(after, i, board));
        }
        assert forall|k: int| 0 <= k < after[i].children@.len() implies i
            < #[trigger] after[i].children@[k] < after.len() && after[after[i].children@[k] as int].parent
            == Some(i as usize) by {
            assert(start[i].children@[k] == after[i].children@[k]);
        }
        assert(links_ok(after, i));
        assert(status_ok(after, i, count_unowned(board) as int));
    }
}

/// Marking a leaf as done leaves every count as it should be, that of the
/// leaf for want of the visit that is under way.
pub proof fn lemma_done_counts(start: Seq<MCTSNode>, after: Seq<MCTSNode>, leaf: int)
    requires
        counts_ok(start),
        forall|i: int| 0 <= i < start.len() ==> #[trigger] links_ok(start, i),
        0 <= leaf < start.len(),
        after.len() == start.len(),
        forall|i: int|
            0 <= i < start.len() ==> (#[trigger] after[i]).children == start[i].children
                && after[i].count == start[i].count && (i != leaf ==> after[i].status
                == start[i].status),
        after[leaf].status == NodeStatus::Done,
    ensures
        forall|i: int| 0 <= i < after.len() && i != leaf ==> #[trigger] count_ok(after, i),
        count_pending(after, leaf),
{
    assert forall|i: int| 0 <= i < after.len() && i != leaf implies #[trigger] count_ok(after, i) by {
        assert(count_ok(start, i));
        let kids = start[i].children@;
        assert(links_ok(start, i));
        assert forall|k: int| 0 <= k < kids.len() implies start[#[trigger] kids[k] as int].count
            == after[kids[k] as int].count by {
            assert(i < start[i].children@[k] < start.len());
        }
        lemma_visits_same(start, after, kids, kids.len() as int);
    }
}

/// Giving `leaf` a child for `play` keeps the shape.
pub proof fn lemma_grown_shape(
    start: Seq<MCTSNode>,
    after: Seq<MCTSNode>,
    leaf: int,
    play: RiverIdx,
    board: Seq<River>,
)
    requires
        shape_ok(start, board),
        start.len() < usize::MAX,
        0 <= leaf < start.len(),
        after.len() == start.len() + 1,
        forall|i: int|
            0 <= i < start.len() ==> (#[trigger] after[i]).parent == start[i].parent
                && after[i].play == start[i].play && (i != leaf ==> after[i].children
                == start[i].children && after[i].status == start[i].status),
        after[leaf].children@ == start[leaf].children@.push(start.len() as usize),
        after[start.len() as int].parent == Some(leaf as usize),
        after[start.len() as int].play == Some(play),
        after[start.len() as int].children@.len() == 0,
        after[start.len() as int].status == NodeStatus::Expandable,
        start[leaf].status == NodeStatus::Expandable,
        start[leaf].children@.len() + depth(start, leaf) < count_unowned(board),
        after[leaf].status == if start[leaf].children@.len() + 1 + depth(start, leaf)
            == count_unowned(board) {
            NodeStatus::Expanded
        } else {
            NodeStatus::Expandable
        },
        unowned(board).contains(play),
        !path_plays(start, leaf).contains(play),
        !claimed_below(start, start[leaf].children@, start[leaf].children@.len() as int, play),
    ensures
        shape_ok(after, board),
{
    let free = count_unowned(board) as int;
    let fresh_node = start.len() as int;
    assert(same_links(start, after));
    assert forall|i: int| 0 <= i < after.len() implies {
        &&& #[trigger] links_ok(after, i)
        &&& play_ok(after, i, board)
        &&& status_ok(after, i, free)
    } by {
        if i < start.len() {
            assert(links_ok(start, i));
            assert(play_ok(start, i, board));
            assert(status_ok(start, i, free));
            lemma_same_links(start, after, i);
            assert forall|k: int| 0 <= k < after[i].children@.len() implies i
                < #[trigger] after[i].children@[k] < after.len() && after[after[i].children@[k] as int].parent
                == Some(i as usize) by {
                if i == leaf && k == start[leaf].children@.len() {
                } else {
                    assert(start[i].children@[k] == after[i].children@[k]);
                }
            }
            assert forall|k: int, l: int| 0 <= k < l < after[i].children@.len() implies #[trigger] after[i].children@[k]
                < #[trigger] after[i].children@[l] by {
                if i == leaf && l == start[leaf].children@.len() {
                    assert(start[i].children@[k] == after[i].children@[k]);
                } else {
                    assert(start[i].children@[k] == after[i].children@[k]);
                    assert(start[i].children@[l] == after[i].children@[l]);
                }
            }
            if i > 0 {
                let p = start[i].parent->0 as int;
                lemma_same_links(start, after, p);
                assert(links_ok(start, p));
                let at = choose|at: int|
                    0 <= at < start[p].children@.len() && start[p].children@[at] == i as usize;
                assert(after[p].children@[at] == i as usize);
                assert forall|k: int|
                    0 <= k < after[p].children@.len() && #[trigger] after[p].children@[k]
                        != i implies after[after[p].children@[k] as int].play != Some(
                    after[i].play->0,
                ) by {
                    if p == leaf && k == start[leaf].children@.len() {
                        assert(start[start[leaf].children@[at] as int].play != Some(play));
                    } else {
                        assert(start[p].children@[k] == after[p].children@[k]);
                        assert(start[p].children@[k] < start.len());
                    }
                }
            }
            assert(links_ok(after, i));
            assert(play_ok(after, i, board));
            assert(status_ok(after, i, free));
        } else {
            assert(i == fresh_node);
            lemma_same_links(start, after, leaf);
            assert(links_ok(start, leaf));
            assert(after[leaf].children@[start[leaf].children@.len() as int] == i as usize);
            assert(depth(after, i) == depth(after, leaf) + 1);
            assert forall|k: int|
                0 <= k < after[leaf].children@.len() && #[trigger] after[leaf].children@[k]
                    != i implies after[after[leaf].children@[k] as int].play != Some(play) by {
                assert(start[leaf].children@[k] == after[leaf].children@[k]);
                assert(start[leaf].children@[k] < start.len());
            }
            assert(links_ok(after, i));
            assert(play_ok(after, i, board));
            assert(status_ok(after, i, free));
        }
    }
}

/// Giving `leaf` a child leaves every count as it should be, that of the
/// child for want of the visit that is under way.
pub proof fn lemma_grown_counts(start: Seq<MCTSNode>, after: Seq<MCTSNode>, leaf: int)
    requires
        counts_ok(start),
        start.len() < usize::MAX,
        forall|i: int| 0 <= i < start.len() ==> #[trigger] links_ok(start, i),
        0 <= leaf < start.len(),
        start[leaf].status != NodeStatus::Done,
        after.len() == start.len() + 1,
        forall|i: int|
            0 <= i < start.len() ==> (#[trigger] after[i]).count == start[i].count && (i != leaf
                ==> after[i].children == start[i].children && after[i].status == start[i].status),
        after[leaf].children@ == start[leaf].children@.push(start.len() as usize),
        after[leaf].status != NodeStatus::Done,
        after[start.len() as int].children@.len() == 0,
        after[start.len() as int].count == 0,
        after[start.len() as int].status == NodeStatus::Expandable,
    ensures
        forall|i: int| 0 <= i < after.len() && i != start.len() ==> #[trigger] count_ok(after, i),
        count_pending(after, start.len() as int),
{
    assert forall|i: int| 0 <= i < after.len() && i != start.len() implies #[trigger] count_ok(
        after,
        i,
    ) by {
        assert(count_ok(start, i));
        assert(links_ok(start, i));
        let kids = start[i].children@;
        assert forall|k: int| 0 <= k < kids.len() implies start[#[trigger] kids[k] as int].count
            == after[kids[k] as int].count by {
            assert(i < start[i].children@[k] < start.len());
        }
        if i == leaf {
            let more = after[leaf].children@;
            assert forall|k: int| 0 <= k < kids.len() implies start[#[trigger] more[k] as int].count
                == after[more[k] as int].count by {
                assert(more[k] == kids[k]);
                assert(i < start[i].children@[k] < start.len());
            }
            lemma_visits_same(start, after, more, kids.len() as int);
            lemma_visits_prefix(start, kids, more, kids.len() as int);
        } else {
            lemma_visits_same(start, after, kids, kids.len() as int);
        }
    }
}

/// A sum of visits over the first entries of a list does not look at the
/// entries after them.
pub proof fn lemma_visits_prefix(nodes: Seq<MCTSNode>, kids: Seq<usize>, more: Seq<usize>, upto: int)
    requires
        upto <= kids.len(),
        upto <= more.len(),
        forall|k: int| 0 <= k < upto ==> kids[k] == more[k],
    ensures
        visits_below(nodes, kids, upto) == visits_below(nodes, more, upto),
    decreases upto,
{
    if upto > 0 {
        lemma_visits_prefix(nodes, kids, more, upto - 1);
    }
}

} // verus!
