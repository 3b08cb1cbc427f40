//! The search: steps that walk down the tree, give a leaf a child, play the
//! match out at random and carry the outcome back up to the root.

use crate::harness::{
    count_unowned, lead_over, lemma_lists_unowned, unowned, GameStatus, InternalGameState,
};
use crate::punter::Punter;
use crate::river::{River, RiverIdx};
use crate::rng::random_index;
use crate::tree::{
    bounds_ok, bump, bumped, child_visits, claimed_below, count_ok, count_pending, counts_ok,
    depth, lemma_bump_counts, lemma_bumped_shape, lemma_done_counts, lemma_grown_counts,
    lemma_grown_shape, lemma_most_visited, lemma_on_path_below, lemma_on_path_parent,
    lemma_root_on_path, lemma_same_ancestry, lemma_same_links, lemma_score_fits, links_ok,
    most_visited, on_path, one_visit_short, path_plays, play_ok, preferred_river, same_links,
    shape_ok, status_ok, visit_counted,
    ChildStats, MCTSNode, NodeStatus, VISIT_LIMIT,
};
use crate::util::{count_marked, keep_unmarked, lemma_mark_one, lemma_none_marked, reset_marks};
use vstd::prelude::*;

verus! {

/// The number of moves after which a playout is cut short.
pub const SIMULATION_DEPTH: usize = 1000;

/// A search tree over the board of `punter`; the root is at position zero.
#[derive(Debug)]
pub struct MCTS<'a> {
    pub punter: &'a Punter,
    pub nodes: Vec<MCTSNode>,
}

/// The rivers that can still be claimed at node `i`: those without an owner
/// on `board`, less those claimed on the way from the root.
pub open spec fn node_open(nodes: Seq<MCTSNode>, i: int, board: Seq<River>) -> Set<RiverIdx> {
    Set::new(|r: RiverIdx| unowned(board).contains(r) && !path_plays(nodes, i).contains(r))
}

/// The board after `plays` have been claimed in turn: the first by the
/// punter `first`, each further one by the next punter in a round of
/// `punters`.
pub open spec fn played(board: Seq<River>, plays: Seq<RiverIdx>, first: int, punters: int) -> Seq<
    River,
>
    decreases plays.len(),
{
    if plays.len() == 0 {
        board
    } else {
        let before = played(board, plays.drop_last(), first, punters);
        let river = plays.last() as int;
        let mover = ((first + plays.len() - 1) % punters) as usize;
        before.update(river, before[river].with_holder(mover))
    }
}

/// `game` has just been reset to the board of `punter`.
pub open spec fn fresh(game: &InternalGameState, punter: &Punter) -> bool {
    &&& game.wf()
    &&& game.state == punter
    &&& game.status == GameStatus::Playing
    &&& game.rivers@ == punter.board()
    &&& game.current_punter == punter.input.punter
    &&& game.available() == unowned(punter.board())
    &&& game.available_rivers@.len() == count_unowned(punter.board())
}

/// `game` stands where the claims on the way to node `i` lead from the board
/// of `punter`.
pub open spec fn game_at(
    game: &InternalGameState,
    punter: &Punter,
    nodes: Seq<MCTSNode>,
    i: int,
) -> bool {
    &&& game.wf()
    &&& game.state == punter
    &&& game.status != GameStatus::NotStarted
    &&& game.rivers@ == played(
        punter.board(),
        path_plays(nodes, i),
        punter.input.punter as int,
        punter.input.punters as int,
    )
    &&& game.current_punter == (punter.input.punter + path_plays(nodes, i).len()) % (
    punter.input.punters as int)
    &&& game.available() == node_open(nodes, i, punter.board())
    &&& game.available_rivers@.len() + depth(nodes, i) == count_unowned(punter.board())
}

/// `stats` holds, for each child of `node` in the order of creation, its
/// visits and its score sum.
pub open spec fn stats_of(nodes: Seq<MCTSNode>, node: int, stats: Seq<ChildStats>) -> bool {
    &&& stats.len() == nodes[node].children@.len()
    &&& forall|k: int|
        0 <= k < stats.len() ==> {
            let child = nodes[nodes[node].children@[k] as int];
            (#[trigger] stats[k]).visits == child.count && stats[k].score == child.score
        }
}

/// `child` is the child of `node` that some answer of `pick` settles on, when
/// `pick` is shown the visits of `node` and the statistics of its children.
pub open spec fn picked<F: Fn(u64, &Vec<ChildStats>) -> usize>(
    nodes: Seq<MCTSNode>,
    pick: &F,
    node: int,
    child: usize,
) -> bool {
    exists|stats: Vec<ChildStats>, choice: usize|
        {
            &&& stats_of(nodes, node, stats@)
            &&& call_ensures(pick, (nodes[node].count, &stats), choice)
            &&& child == nodes[node].children@[settled_choice(
                nodes[node].children@.len() as int,
                choice,
            )]
        }
}

/// The way from the root to `leaf` leads through nodes that have a child for
/// every river, at each of them to the child that `pick` settles on.
pub open spec fn descended<F: Fn(u64, &Vec<ChildStats>) -> usize>(
    nodes: Seq<MCTSNode>,
    pick: &F,
    leaf: int,
) -> bool
    decreases leaf,
{
    leaf == 0 || {
        &&& 0 < leaf < nodes.len()
        &&& nodes[leaf].parent is Some
        &&& nodes[leaf].parent->0 < leaf
        &&& nodes[nodes[leaf].parent->0 as int].status == NodeStatus::Expanded
        &&& picked(nodes, pick, nodes[leaf].parent->0 as int, leaf as usize)
        &&& descended(nodes, pick, nodes[leaf].parent->0 as int)
    }
}

/// The position among `kids` that a choice settles on: the choice itself
/// where it names a child, the first child otherwise.
pub open spec fn settled_choice(kids: int, choice: usize) -> int {
    if choice < kids {
        choice as int
    } else {
        0
    }
}

/// The rivers that can be claimed at a node are those that can be claimed at
/// its parent, less the one that was claimed on entering it.
pub proof fn lemma_open_below(nodes: Seq<MCTSNode>, child: int, board: Seq<River>)
    requires
        0 < child < nodes.len(),
        links_ok(nodes, child),
    ensures
        node_open(nodes, child, board) == node_open(
            nodes,
            nodes[child].parent->0 as int,
            board,
        ).remove(nodes[child].play->0),
        depth(nodes, child) == depth(nodes, nodes[child].parent->0 as int) + 1,
        path_plays(nodes, child) == path_plays(nodes, nodes[child].parent->0 as int).push(
            nodes[child].play->0,
        ),
{
    let play = nodes[child].play->0;
    let path = path_plays(nodes, nodes[child].parent->0 as int);
    assert(path_plays(nodes, child) == path.push(play));
    assert forall|r: RiverIdx| path.push(play).contains(r) <==> (path.contains(r) || r
        == play) by {
        if path.contains(r) {
            let at = choose|at: int| 0 <= at < path.len() && path[at] == r;
            assert(path.push(play)[at] == r);
        }
        if r == play {
            assert(path.push(play)[path.len() as int] == r);
        }
    }
    assert(node_open(nodes, child, board) =~= node_open(
        nodes,
        nodes[child].parent->0 as int,
        board,
    ).remove(play));
}

/// Claiming `river` after `plays` is the turn of the punter that the round
/// has come to, and leaves the turn with the next.
pub proof fn lemma_played_on(
    board: Seq<River>,
    plays: Seq<RiverIdx>,
    river: RiverIdx,
    first: int,
    punters: int,
)
    requires
        0 <= first < punters,
    ensures
        played(board, plays.push(river), first, punters) == played(
            board,
            plays,
            first,
            punters,
        ).update(
            river as int,
            played(board, plays, first, punters)[river as int].with_holder(
                ((first + plays.len()) % punters) as usize,
            ),
        ),
        ((first + plays.len()) % punters + 1) % punters == (first + plays.push(river).len())
            % punters,
        0 <= (first + plays.len()) % punters < punters,
{
    assert(plays.push(river).drop_last() == plays);
    vstd::arithmetic::div_mod::lemma_add_mod_noop_right(1, first + plays.len(), punters);
    vstd::arithmetic::div_mod::lemma_mod_bound(first + plays.len(), punters);
}

impl<'a> MCTS<'a> {
    /// The tree belongs to a playable punter, has the shape of a tree of
    /// claims on its board, and has counted every visit.
    pub open spec fn wf(&self) -> bool {
        &&& self.punter.wf()
        &&& shape_ok(self.nodes@, self.punter.board())
        &&& counts_ok(self.nodes@)
        &&& bounds_ok(self.nodes@)
    }

    /// A tree of the root alone.
    pub fn new(punter: &'a Punter) -> (tree: MCTS<'a>)
        requires
            punter.wf(),
        ensures
            tree.wf(),
            tree.punter == punter,
            tree.nodes@.len() == 1,
            tree.nodes@[0].count == 0,
            tree.nodes@[0].score == 0,
            tree.nodes@[0].children@.len() == 0,
            tree.nodes@[0].status == NodeStatus::Expandable,
    {
        let mut nodes: Vec<MCTSNode> = Vec::new();
        nodes.push(MCTSNode::new(None));
        proof {
            assert(links_ok(nodes@, 0));
            assert(child_visits(nodes@, 0) == 0);
            assert(count_ok(nodes@, 0));
        }
        MCTS { punter, nodes }
    }

    /// The river claimed by the most visited child of the root, the earliest
    /// such child where several have as many visits; none while the root
    /// has no child.
    pub fn best_move(&self) -> (best: Option<RiverIdx>)
        requires
            self.wf(),
        ensures
            best == preferred_river(self.nodes@),
            best is None <==> self.nodes@[0].children@.len() == 0,
            best is Some ==> {
                let kids = self.nodes@[0].children@;
                let at = most_visited(self.nodes@, kids, kids.len() as int);
                &&& 0 <= at < kids.len()
                &&& best == self.nodes@[kids[at] as int].play
                &&& unowned(self.punter.board()).contains(best->0)
                &&& forall|k: int|
                    0 <= k < kids.len() ==> self.nodes@[#[trigger] kids[k] as int].count
                        <= self.nodes@[kids[at] as int].count
                &&& forall|k: int|
                    0 <= k < at ==> self.nodes@[#[trigger] kids[k] as int].count
                        < self.nodes@[kids[at] as int].count
            },
    {
        let root = &self.nodes[0];
        assert(links_ok(self.nodes@, 0));
        let mut best: usize = 0;
        let mut best_visits: u64 = 0;
        let mut k: usize = 0;
        while k < root.children.len()
            invariant
                k <= root.children@.len(),
                root == self.nodes@[0],
                links_ok(self.nodes@, 0),
                k > 0 ==> best == most_visited(self.nodes@, root.children@, k as int) && best < k
                    && best_visits == self.nodes@[root.children@[best as int] as int].count,
                k == 0 ==> most_visited(self.nodes@, root.children@, k as int) < 0,
            decreases root.children@.len() - k,
        {
            let child = root.children[k];
            let visits = self.nodes[child].count;
            if k == 0 || visits > best_visits {
                best = k;
                best_visits = visits;
            }
            k += 1;
        }
        if root.children.len() == 0 {
            None
        } else {
            let child = root.children[best];
            proof {
                lemma_most_visited(self.nodes@, root.children@, root.children@.len() as int);
                assert(links_ok(self.nodes@, child as int));
                assert(play_ok(self.nodes@, child as int, self.punter.board()));
            }
            self.nodes[child].play
        }
    }

    /// Whether the tree has room for one more step.
    pub fn can_step(&self) -> (ok: bool)
        requires
            self.wf(),
        ensures
            ok == (self.nodes@[0].count < VISIT_LIMIT && self.nodes@.len() < usize::MAX),
    {
        self.nodes[0].count < VISIT_LIMIT && self.nodes.len() < usize::MAX
    }

    /// What the choice among the children of `node` goes by: for each child,
    /// in the order of creation, its visits and its score sum.
    pub fn child_stats(&self, node: usize) -> (stats: Vec<ChildStats>)
        requires
            self.wf(),
            node < self.nodes@.len(),
        ensures
            stats_of(self.nodes@, node as int, stats@),
    {
        let kids = &self.nodes[node].children;
        assert(links_ok(self.nodes@, node as int));
        let mut stats: Vec<ChildStats> = Vec::with_capacity(kids.len());
        let mut k: usize = 0;
        while k < kids.len()
            invariant
                k <= kids@.len(),
                kids@ == self.nodes@[node as int].children@,
                links_ok(self.nodes@, node as int),
                stats@.len() == k,
                forall|j: int|
                    0 <= j < k ==> {
                        let child = self.nodes@[kids@[j] as int];
                        (#[trigger] stats@[j]).visits == child.count && stats@[j].score
                            == child.score
                    },
            decreases kids@.len() - k,
        {
            let child = &self.nodes[kids[k]];
            stats.push(ChildStats { visits: child.count, score: child.score });
            k += 1;
        }
        stats
    }

    /// The child of `node` that `choice` settles on; none where `node` has no
    /// child.
    pub fn child_at(&self, node: usize, choice: usize) -> (child: Option<usize>)
        requires
            self.wf(),
            node < self.nodes@.len(),
        ensures
            child is None <==> self.nodes@[node as int].children@.len() == 0,
            child matches Some(c) ==> {
                &&& c == self.nodes@[node as int].children@[settled_choice(
                    self.nodes@[node as int].children@.len() as int,
                    choice,
                )]
                &&& node < c < self.nodes@.len()
                &&& self.nodes@[c as int].parent == Some(node)
            },
    {
        let kids = &self.nodes[node].children;
        assert(links_ok(self.nodes@, node as int));
        if kids.len() == 0 {
            None
        } else if choice < kids.len() {
            Some(kids[choice])
        } else {
            Some(kids[0])
        }
    }

    /// The child of `node` that `pick` settles on when it is shown the visits
    /// of `node` and the statistics of its children; none where `node` has
    /// no child. What `pick` answers is its own affair: an answer that names
    /// no child falls on the first.
    pub fn select_uct<F: Fn(u64, &Vec<ChildStats>) -> usize>(&self, node: usize, pick: &F) -> (child:
        Option<usize>)
        requires
            self.wf(),
            node < self.nodes@.len(),
            forall|visits: u64, stats: &Vec<ChildStats>| call_requires(pick, (visits, stats)),
        ensures
            child is None <==> self.nodes@[node as int].children@.len() == 0,
            child matches Some(c) ==> {
                &&& node < c < self.nodes@.len()
                &&& self.nodes@[c as int].parent == Some(node)
                &&& picked(self.nodes@, pick, node as int, c)
            },
    {
        if self.nodes[node].children.len() == 0 {
            return None;
        }
        let stats = self.child_stats(node);
        let choice = pick(self.nodes[node].count, &stats);
        let child = self.child_at(node, choice);
        proof {
            assert(stats_of(self.nodes@, node as int, stats@));
            assert(call_ensures(pick, (self.nodes@[node as int].count, &stats), choice));
        }
        child
    }

    /// Walks down from the root for as long as the node at hand has a child
    /// for every river, at each node to the child that `pick` settles on,
    /// and plays the claims on the way in `game`.
    pub fn select<F: Fn(u64, &Vec<ChildStats>) -> usize>(
        &self,
        game: &mut InternalGameState<'a>,
        pick: &F,
    ) -> (leaf: usize)
        requires
            self.wf(),
            fresh(old(game), self.punter),
            forall|visits: u64, stats: &Vec<ChildStats>| call_requires(pick, (visits, stats)),
        ensures
            leaf < self.nodes@.len(),
            self.nodes@[leaf as int].status != NodeStatus::Expanded,
            descended(self.nodes@, pick, leaf as int),
            game_at(final(game), self.punter, self.nodes@, leaf as int),
    {
        let ghost board = self.punter.board();
        let mut cur: usize = 0;
        proof {
            assert(game.available() =~= node_open(self.nodes@, 0, board));
            vstd::arithmetic::div_mod::lemma_small_mod(
                self.punter.input.punter as nat,
                self.punter.input.punters as nat,
            );
        }
        while self.nodes[cur].status == NodeStatus::Expanded
            invariant
                self.wf(),
                board == self.punter.board(),
                cur < self.nodes@.len(),
                game_at(game, self.punter, self.nodes@, cur as int),
                descended(self.nodes@, pick, cur as int),
                forall|visits: u64, stats: &Vec<ChildStats>| call_requires(pick, (visits, stats)),
            decreases self.nodes@.len() - cur,
        {
            assert(links_ok(self.nodes@, cur as int));
            assert(status_ok(self.nodes@, cur as int, count_unowned(board) as int));
            let child = match self.select_uct(cur, pick) {
                Some(child) => child,
                None => {
                    assert(false);
                    cur
                },
            };
            proof {
                assert(links_ok(self.nodes@, child as int));
                assert(play_ok(self.nodes@, child as int, board));
            }
            let play = match self.nodes[child].play {
                Some(play) => play,
                None => {
                    assert(false);
                    0
                },
            };
            proof {
                assert(node_open(self.nodes@, cur as int, board).contains(play));
                assert(game.available_rivers@.contains(play));
            }
            game.make_move(play);
            proof {
                lemma_open_below(self.nodes@, child as int, board);
                lemma_played_on(
                    board,
                    path_plays(self.nodes@, cur as int),
                    play,
                    self.punter.input.punter as int,
                    self.punter.input.punters as int,
                );
            }
            cur = child;
        }
        cur
    }

    /// Gives `leaf` a child for a river drawn at random among those that can
    /// be claimed there and have no child yet, and plays the claim in
    /// `game`; where no river can be claimed, marks `leaf` as done. Returns
    /// the new child, or `leaf` itself where it is done.
    pub fn expand(&mut self, leaf: usize, game: &mut InternalGameState<'a>) -> (focus: usize)
        requires
            old(self).wf(),
            old(self).nodes@.len() < usize::MAX,
            leaf < old(self).nodes@.len(),
            old(self).nodes@[leaf as int].status != NodeStatus::Expanded,
            game_at(old(game), old(self).punter, old(self).nodes@, leaf as int),
        ensures
            final(self).punter == old(self).punter,
            shape_ok(final(self).nodes@, final(self).punter.board()),
            bounds_ok(final(self).nodes@),
            same_links(old(self).nodes@, final(self).nodes@),
            forall|i: int|
                0 <= i < old(self).nodes@.len() ==> (#[trigger] final(self).nodes@[i]).count
                    == old(self).nodes@[i].count && final(self).nodes@[i].score
                    == old(self).nodes@[i].score,
            focus < final(self).nodes@.len(),
            old(game).available_rivers@.len() == 0 ==> {
                &&& focus == leaf
                &&& final(self).nodes@.len() == old(self).nodes@.len()
                &&& final(self).nodes@[leaf as int].status == NodeStatus::Done
            },
            old(game).available_rivers@.len() > 0 ==> {
                &&& focus == old(self).nodes@.len()
                &&& final(self).nodes@.len() == old(self).nodes@.len() + 1
                &&& final(self).nodes@[focus as int].parent == Some(leaf)
                &&& final(self).nodes@[focus as int].count == 0
                &&& final(self).nodes@[focus as int].score == 0
                &&& final(self).nodes@[focus as int].play is Some
                &&& final(self).nodes@[focus as int].children@.len() == 0
                &&& final(self).nodes@[leaf as int].children@
                    == old(self).nodes@[leaf as int].children@.push(focus)
                &&& old(game).available().contains(final(self).nodes@[focus as int].play->0)
                &&& !claimed_below(
                    old(self).nodes@,
                    old(self).nodes@[leaf as int].children@,
                    old(self).nodes@[leaf as int].children@.len() as int,
                    final(self).nodes@[focus as int].play->0,
                )
                &&& final(self).nodes@[leaf as int].status == if old(game).available_rivers@.len()
                    == old(self).nodes@[leaf as int].children@.len() + 1 {
                    NodeStatus::Expanded
                } else {
                    NodeStatus::Expandable
                }
            },
            one_visit_short(final(self).nodes@, focus as int),
            game_at(final(game), final(self).punter, final(self).nodes@, focus as int),
    {
        let ghost board = self.punter.board();
        let ghost start = self.nodes@;
        let ghost free = count_unowned(board) as int;
        let open = game.available_actions().len();
        proof {
            assert(links_ok(start, leaf as int));
            assert(status_ok(start, leaf as int, free));
        }
        if open == 0 {
            self.nodes[leaf].status = NodeStatus::Done;
            proof {
                lemma_bumped_shape(start, self.nodes@, board);
                lemma_done_counts(start, self.nodes@, leaf as int);
                lemma_same_links(start, self.nodes@, leaf as int);
                assert(node_open(start, leaf as int, board) =~= node_open(
                    self.nodes@,
                    leaf as int,
                    board,
                ));
                assert forall|i: int| 0 <= i < self.nodes@.len() implies {
                    &&& (#[trigger] self.nodes@[i]).count <= self.nodes@[0].count
                    &&& -(self.nodes@[i].count * u64::MAX) <= self.nodes@[i].score
                        <= self.nodes@[i].count * u64::MAX
                } by {
                    assert(start[i].count <= start[0].count);
                }
            }
            return leaf;
        }
        let untried = self.untried(leaf, game);
        let mut rng = rand::thread_rng();
        let draw = random_index(&mut rng, untried.len());
        let play = untried[draw];
        proof {
            assert(untried@.contains(play));
            assert(game.available_rivers@.contains(play));
            assert(game.available().contains(play));
            assert(node_open(start, leaf as int, board).contains(play));
        }
        let kids = self.nodes[leaf].children.len();
        let index = self.nodes.len();
        let full = kids + 1 == open;
        let child = MCTSNode {
            play: Some(play),
            children: Vec::new(),
            parent: Some(leaf),
            status: NodeStatus::Expandable,
            score: 0,
            count: 0,
        };
        self.nodes.push(child);
        self.nodes[leaf].children.push(index);
        if full {
            self.nodes[leaf].status = NodeStatus::Expanded;
        }
        proof {
            assert(same_links(start, self.nodes@));
            lemma_grown_shape(start, self.nodes@, leaf as int, play, board);
            lemma_grown_counts(start, self.nodes@, leaf as int);
            assert forall|i: int| 0 <= i < self.nodes@.len() implies {
                &&& (#[trigger] self.nodes@[i]).count <= self.nodes@[0].count
                &&& -(self.nodes@[i].count * u64::MAX) <= self.nodes@[i].score
                    <= self.nodes@[i].count * u64::MAX
            } by {
                if i < start.len() {
                    assert(start[i].count <= start[0].count);
                    assert(-(start[i].count * u64::MAX) <= start[i].score <= start[i].count
                        * u64::MAX);
                }
            }
            assert(game.available_rivers@.contains(play));
        }
        game.make_move(play);
        proof {
            let nodes = self.nodes@;
            lemma_same_links(start, nodes, leaf as int);
            assert(node_open(start, leaf as int, board) =~= node_open(nodes, leaf as int, board));
            lemma_open_below(nodes, index as int, board);
            lemma_played_on(
                board,
                path_plays(nodes, leaf as int),
                play,
                self.punter.input.punter as int,
                self.punter.input.punters as int,
            );
        }
        index
    }

    /// The rivers that can be claimed in `game` and that no child of `leaf`
    /// has claimed, in the order in which `game` lists them.
    pub fn untried(&self, leaf: usize, game: &InternalGameState<'a>) -> (untried: Vec<RiverIdx>)
        requires
            self.wf(),
            leaf < self.nodes@.len(),
            self.nodes@[leaf as int].status != NodeStatus::Expanded,
            game_at(game, self.punter, self.nodes@, leaf as int),
            game.available_rivers@.len() > 0,
        ensures
            untried@.len() > 0,
            untried@.no_duplicates(),
            forall|r: RiverIdx|
                untried@.contains(r) <==> game.available_rivers@.contains(r) && !claimed_below(
                    self.nodes@,
                    self.nodes@[leaf as int].children@,
                    self.nodes@[leaf as int].children@.len() as int,
                    r,
                ),
    {
        let ghost board = self.punter.board();
        let ghost nodes = self.nodes@;
        let kids = &self.nodes[leaf].children;
        let list = game.available_actions();
        let rivers = game.rivers.len();
        proof {
            assert(links_ok(nodes, leaf as int));
            assert(status_ok(nodes, leaf as int, count_unowned(board) as int));
            assert forall|i: int| 0 <= i < list@.len() implies #[trigger] list@[i] < rivers by {
                assert(list@.contains(list@[i]));
                assert(unowned(game.rivers@).contains(list@[i]));
            }
        }
        let mut tried: Vec<bool> = Vec::new();
        reset_marks(&mut tried, rivers);
        proof {
            lemma_none_marked(list@, tried@);
        }
        let mut k: usize = 0;
        while k < kids.len()
            invariant
                k <= kids@.len(),
                self.wf(),
                nodes == self.nodes@,
                board == self.punter.board(),
                rivers == board.len(),
                leaf < nodes.len(),
                kids@ == nodes[leaf as int].children@,
                links_ok(nodes, leaf as int),
                list@.no_duplicates(),
                forall|i: int| 0 <= i < list@.len() ==> #[trigger] list@[i] < rivers,
                tried@.len() == rivers,
                count_marked(list@, tried@) <= k,
                forall|r: RiverIdx|
                    r < rivers ==> (#[trigger] tried@[r as int] <==> claimed_below(
                        nodes,
                        kids@,
                        k as int,
                        r,
                    )),
            decreases kids@.len() - k,
        {
            let child = kids[k];
            proof {
                assert(links_ok(nodes, child as int));
                assert(play_ok(nodes, child as int, board));
            }
            let play = match self.nodes[child].play {
                Some(play) => play,
                None => {
                    assert(false);
                    0
                },
            };
            let ghost before = tried@;
            tried[play] = true;
            proof {
                lemma_mark_one(list@, before, play as int);
                assert forall|r: RiverIdx| r < rivers implies (#[trigger] tried@[r as int]
                    <==> claimed_below(nodes, kids@, k + 1, r)) by {
                    if r == play {
                        assert(nodes[kids@[k as int] as int].play == Some(r));
                    } else {
                        assert(before[r as int] == tried@[r as int]);
                        if claimed_below(nodes, kids@, k as int, r) {
                            let j = choose|j: int|
                                0 <= j < k && nodes[#[trigger] kids@[j] as int].play == Some(r);
                            assert(nodes[kids@[j] as int].play == Some(r));
                        }
                        if claimed_below(nodes, kids@, k + 1, r) {
                            let j = choose|j: int|
                                0 <= j < k + 1 && nodes[#[trigger] kids@[j] as int].play == Some(r);
                            assert(j < k);
                        }
                    }
                }
            }
            k += 1;
        }
        keep_unmarked(list, &tried)
    }

    /// Plays `game` on with moves drawn at random, to its end or for
    /// `SIMULATION_DEPTH` moves, and returns the lead that the punter has
    /// then, summed over its opponents.
    pub fn simulate(game: &mut InternalGameState<'a>) -> (lead: i128)
        requires
            old(game).wf(),
            old(game).status != GameStatus::NotStarted,
        ensures
            final(game).wf(),
            final(game).state == old(game).state,
            final(game).status != GameStatus::NotStarted,
            lead == lead_over(
                final(game).state,
                final(game).rivers@,
                final(game).state.input.punter,
                final(game).state.input.punters as int,
            ),
            -(u64::MAX as int) <= lead <= u64::MAX,
            final(game).available_rivers@.len() == if old(game).available_rivers@.len()
                <= SIMULATION_DEPTH {
                0
            } else {
                old(game).available_rivers@.len() - SIMULATION_DEPTH
            },
            final(game).rivers@.len() == old(game).rivers@.len(),
            forall|r: int|
                0 <= r < old(game).rivers@.len() && old(game).rivers@[r].owner is Some
                    ==> #[trigger] final(game).rivers@[r] == old(game).rivers@[r],
    {
        let mut rng = rand::thread_rng();
        let mut ply: usize = 0;
        while ply < SIMULATION_DEPTH && game.available_rivers.len() > 0
            invariant
                ply <= SIMULATION_DEPTH,
                game.wf(),
                game.state == old(game).state,
                game.status != GameStatus::NotStarted,
                game.available_rivers@.len() + ply == old(game).available_rivers@.len(),
                game.rivers@.len() == old(game).rivers@.len(),
                forall|r: int|
                    0 <= r < old(game).rivers@.len() && old(game).rivers@[r].owner is Some
                        ==> #[trigger] game.rivers@[r] == old(game).rivers@[r],
            decreases SIMULATION_DEPTH - ply,
        {
            let draw = random_index(&mut rng, game.available_rivers.len());
            let river = game.available_rivers[draw];
            proof {
                assert(game.available_rivers@.contains(game.available_rivers@[draw as int]));
                assert(game.rivers@.len() == game.rivers.len());
                lemma_lists_unowned(
                    game.rivers@,
                    game.available_rivers@,
                    game.slots@,
                );
                assert(unowned(game.rivers@).contains(river));
            }
            game.make_move(river);
            ply += 1;
        }
        game.score()
    }

    /// One step of the search: walks down to a leaf, gives it a child, plays
    /// the match out from there at random, and counts the visit and its
    /// outcome on the way back up to the root.
    pub fn step<F: Fn(u64, &Vec<ChildStats>) -> usize>(
        &mut self,
        game: &mut InternalGameState<'a>,
        pick: &F,
    )
        requires
            old(self).wf(),
            old(self).nodes@[0].count < VISIT_LIMIT,
            old(self).nodes@.len() < usize::MAX,
            fresh(old(game), old(self).punter),
            forall|visits: u64, stats: &Vec<ChildStats>| call_requires(pick, (visits, stats)),
        ensures
            final(self).wf(),
            final(self).punter == old(self).punter,
            final(game).wf(),
            final(game).state == old(game).state,
            same_links(old(self).nodes@, final(self).nodes@),
            final(self).nodes@.len() <= old(self).nodes@.len() + 1,
            final(self).nodes@[0].count == old(self).nodes@[0].count + 1,
            forall|i: int|
                0 <= i < old(self).nodes@.len() ==> old(self).nodes@[i].count <= (
                #[trigger] final(self).nodes@[i]).count <= old(self).nodes@[i].count + 1,
            exists|focus: int|
                visit_counted(
                    old(self).nodes@,
                    final(self).nodes@,
                    focus,
                    lead_over(
                        final(game).state,
                        final(game).rivers@,
                        final(game).state.input.punter,
                        final(game).state.input.punters as int,
                    ) as int,
                ),
            unowned(old(self).punter.board()).len() == 0
                ==> final(self).nodes@.len() == old(self).nodes@.len(),
            unowned(old(self).punter.board()).len() > 0 && old(self).nodes@.len() == 1 ==> {
                &&& final(self).nodes@.len() == 2
                &&& final(self).nodes@[0].children@ == seq![1usize]
                &&& final(self).nodes@[1].count == 1
                &&& final(self).nodes@[1].parent == Some(0usize)
            },
    {
        let ghost start = self.nodes@;
        let ghost board = self.punter.board();
        proof {
            assert(game.rivers@.len() == game.rivers.len());
            lemma_lists_unowned(game.rivers@, game.available_rivers@, game.slots@);
            game.available_rivers@.unique_seq_to_set();
            assert(unowned(board).len() == count_unowned(board));
            assert(links_ok(start, 0));
            assert(status_ok(start, 0, count_unowned(board) as int));
        }
        let leaf = self.select(game, pick);
        proof {
            assert(links_ok(start, leaf as int));
            assert(status_ok(start, leaf as int, count_unowned(board) as int));
        }
        let focus = self.expand(leaf, game);
        let ghost grown = self.nodes@;
        let lead = Self::simulate(game);
        self.backpropagate(focus, lead);
        proof {
            let end = self.nodes@;
            assert forall|i: int| 0 <= i < start.len() implies (#[trigger] start[i]).parent
                == end[i].parent && start[i].play == end[i].play by {
                assert(grown[i].parent == start[i].parent);
            }
            assert forall|i: int| 0 <= i < start.len() implies start[i].count <= (
            #[trigger] end[i]).count <= start[i].count + 1 by {
                assert(grown[i].count == start[i].count);
            }
            assert(same_links(grown, end));
            assert forall|i: int| 0 <= i < end.len() implies on_path(end, i, focus as int)
                == on_path(grown, i, focus as int) by {
                lemma_same_ancestry(grown, end, i, focus as int);
            }
            assert(visit_counted(start, end, focus as int, lead as int)) by {
                assert forall|i: int| 0 <= i < end.len() implies {
                    let had_count = if i < start.len() {
                        start[i].count as int
                    } else {
                        0
                    };
                    let had_score = if i < start.len() {
                        start[i].score as int
                    } else {
                        0
                    };
                    if on_path(end, i, focus as int) {
                        (#[trigger] end[i]).count == had_count + 1 && end[i].score == had_score
                            + lead
                    } else {
                        end[i].count == had_count && end[i].score == had_score
                    }
                } by {
                    assert(grown[i].count <= grown[0].count);
                    lemma_score_fits(grown[i].count as int, grown[i].score as int, lead as int);
                    if i < start.len() {
                        assert(grown[i].count == start[i].count);
                    }
                }
            }
            if start.len() == 1 {
                assert(leaf == 0);
                assert(depth(start, 0) == 0);
                if unowned(board).len() > 0 {
                    assert(on_path(grown, 1, 1));
                    assert(start[0].children@.len() == 0) by {
                        if start[0].children@.len() > 0 {
                            assert(start[0].children@[0] < start.len());
                        }
                    }
                    assert(grown[0].children@ =~= seq![1usize]);
                    assert(end[0].children == grown[0].children);
                }
            }
        }
    }

    /// Counts one more visit, ended with `lead`, for `focus` and each of its
    /// ancestors up to the root.
    pub fn backpropagate(&mut self, focus: usize, lead: i128)
        requires
            old(self).punter.wf(),
            shape_ok(old(self).nodes@, old(self).punter.board()),
            focus < old(self).nodes@.len(),
            bounds_ok(old(self).nodes@),
            old(self).nodes@[0].count < VISIT_LIMIT,
            -(u64::MAX as int) <= lead <= u64::MAX,
        ensures
            final(self).punter == old(self).punter,
            final(self).nodes@ == bumped(old(self).nodes@, focus as int, lead as int),
            shape_ok(final(self).nodes@, final(self).punter.board()),
            bounds_ok(final(self).nodes@),
            final(self).nodes@[0].count == old(self).nodes@[0].count + 1,
            one_visit_short(old(self).nodes@, focus as int) ==> final(self).wf(),
    {
        let ghost start = self.nodes@;
        let ghost board = self.punter.board();
        let mut cur: usize = focus;
        let mut more: bool = true;
        while more
            invariant
                self.punter == old(self).punter,
                start == old(self).nodes@,
                board == self.punter.board(),
                shape_ok(start, board),
                bounds_ok(start),
                start[0].count < VISIT_LIMIT,
                -(u64::MAX as int) <= lead <= u64::MAX,
                focus < start.len(),
                self.nodes@.len() == start.len(),
                cur < start.len(),
                more ==> on_path(start, cur as int, focus as int),
                forall|i: int|
                    0 <= i < start.len() ==> #[trigger] self.nodes@[i] == if on_path(
                        start,
                        i,
                        focus as int,
                    ) && !(more && on_path(start, i, cur as int)) {
                        bump(start[i], lead as int)
                    } else {
                        start[i]
                    },
                one_visit_short(start, focus as int) ==> if more {
                    one_visit_short(self.nodes@, cur as int)
                } else {
                    counts_ok(self.nodes@)
                },
            decreases cur + if more { 1int } else { 0int },
        {
            let ghost before = self.nodes@;
            proof {
                assert(links_ok(start, cur as int));
                assert(on_path(start, cur as int, cur as int));
                assert(before[cur as int] == start[cur as int]);
                assert(start[cur as int].count <= start[0].count);
                lemma_score_fits(start[cur as int].count as int, start[cur as int].score as int, lead as int);
            }
            let count = self.nodes[cur].count;
            let score = self.nodes[cur].score;
            self.nodes[cur].count = count + 1;
            self.nodes[cur].score = score + lead;
            let parent = self.nodes[cur].parent;
            proof {
                let after = self.nodes@;
                assert(after[cur as int] == bump(start[cur as int], lead as int));
                assert forall|i: int| 0 <= i < start.len() && i != cur implies after[i]
                    == before[i] by {}
                if one_visit_short(start, focus as int) {
                    lemma_bump_counts(start, before, after, cur as int);
                }
            }
            match parent {
                Some(p) => {
                    proof {
                        lemma_on_path_parent(start, cur as int, focus as int);
                        assert forall|i: int| 0 <= i < start.len() implies (on_path(
                            start,
                            i,
                            cur as int,
                        ) <==> (i == cur || on_path(start, i, p as int))) by {}
                        if on_path(start, cur as int, p as int) {
                            lemma_on_path_below(start, cur as int, p as int);
                        }
                    }
                    cur = p;
                },
                None => {
                    proof {
                        assert forall|i: int|
                            0 <= i < start.len() && on_path(start, i, cur as int) implies i
                            == cur by {}
                    }
                    more = false;
                },
            }
        }
        proof {
            let after = self.nodes@;
            assert(after =~= bumped(start, focus as int, lead as int));
            lemma_root_on_path(start, focus as int);
            lemma_bumped_shape(start, after, board);
            assert forall|i: int| 0 <= i < after.len() implies {
                &&& (#[trigger] after[i]).count <= after[0].count
                &&& -(after[i].count * u64::MAX) <= after[i].score <= after[i].count * u64::MAX
            } by {
                assert(start[i].count <= start[0].count);
                lemma_score_fits(start[i].count as int, start[i].score as int, lead as int);
            }
        }
    }
}

} // verus!
