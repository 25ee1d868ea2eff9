use vstd::prelude::*;
use std::collections::HashMap;
use rand::SeedableRng;
use rand::rngs::SmallRng;
use rand::seq::SliceRandom;
use crate::position::{Position, move_targets, move_targets_fit, moves};
use crate::grid::{Grid, is_invalid};

verus! {

broadcast use vstd::std_specs::hash::group_hash_axioms;

/// One of the three moves available to the agent, relative to its current
/// heading: continue straight, turn left (larboard) or turn right
/// (starboard).
#[derive(Debug, Copy, Clone, PartialEq, Eq, Structural)]
pub enum Move {
    Forward,
    Larboard,
    Starboard,
}

/// The name under which a move is reported to the host.
pub fn to_direction(m: &Move) -> (r: String)
    ensures
        m is Forward ==> r@ == "FORWARD"@,
        m is Larboard ==> r@ == "LARBOARD"@,
        m is Starboard ==> r@ == "STARBOARD"@,
{
    match m {
        Move::Forward => "FORWARD".to_owned(),
        Move::Larboard => "LARBOARD".to_owned(),
        Move::Starboard => "STARBOARD".to_owned(),
    }
}

/// A node of the look-ahead search: the candidate cell reached, its distance
/// from the search root, the move that produced it from its parent, and the
/// root-level move its score is credited to (`None` only for the root).
#[derive(Debug, Copy, Clone, PartialEq, Eq, Structural)]
pub struct Node {
    pub depth: u32,
    pub direction: Move,
    pub origin: Option<Move>,
    pub position: Position,
}

/// The child of `parent` reached by `direction` at `target`: one level
/// deeper, and credited to the parent's origin, or to `direction` itself at
/// the first hop, where the origin is fixed once and for all.
pub open spec fn spec_child_node(parent: Node, direction: Move, target: Position) -> Node {
    Node {
        depth: (parent.depth + 1) as u32,
        direction,
        origin: if parent.origin is Some {
            parent.origin
        } else {
            Some(direction)
        },
        position: target,
    }
}

/// Builds the child of `parent` reached by taking `direction` to `position`.
pub fn new_node(position: Position, parent: &Node, direction: Move) -> (n: Node)
    requires
        parent.depth < u32::MAX,
    ensures
        n == spec_child_node(*parent, direction, position),
{
    let origin = match parent.origin {
        Some(o) => Some(o),
        None => Some(direction),
    };
    Node { depth: parent.depth + 1, direction, origin, position }
}

/// The children of `n` that survive the validity check, in the fixed
/// expansion order forward, starboard, larboard. A successor that is out of
/// bounds or occupied is discarded here and never reaches a frontier.
pub open spec fn spec_children(g: Grid, n: Node) -> Seq<Node> {
    let t = move_targets(n.position);
    (if !g.spec_invalid(t.0.x as int, t.0.y as int) {
        seq![spec_child_node(n, Move::Forward, t.0)]
    } else {
        Seq::<Node>::empty()
    }) + (if !g.spec_invalid(t.1.x as int, t.1.y as int) {
        seq![spec_child_node(n, Move::Starboard, t.1)]
    } else {
        Seq::<Node>::empty()
    }) + (if !g.spec_invalid(t.2.x as int, t.2.y as int) {
        seq![spec_child_node(n, Move::Larboard, t.2)]
    } else {
        Seq::<Node>::empty()
    })
}

/// Expands `node` into its surviving children on `grid`.
pub fn children_nodes(grid: &Grid, node: &Node) -> (children: Vec<Node>)
    requires
        move_targets_fit(node.position),
        node.depth < u32::MAX,
    ensures
        children@ == spec_children(*grid, *node),
{
    let mut children: Vec<Node> = Vec::new();
    let (forward, starboard, larboard) = moves(&node.position);
    let f = new_node(forward, node, Move::Forward);
    let s = new_node(starboard, node, Move::Starboard);
    let l = new_node(larboard, node, Move::Larboard);
    if !is_invalid(&f.position, grid) {
        children.push(f);
    }
    if !is_invalid(&s.position, grid) {
        children.push(s);
    }
    if !is_invalid(&l.position, grid) {
        children.push(l);
    }
    proof {
        assert(children@ =~= spec_children(*grid, *node));
    }
    children
}

/// Law (bounds and occupancy filtering): a successor cell that is out of
/// bounds or occupied never appears among the expanded children, so it never
/// enters the next frontier.
pub proof fn lemma_children_filtered(g: Grid, n: Node, i: int)
    requires
        0 <= i < spec_children(g, n).len(),
    ensures
        !g.spec_invalid(
            spec_children(g, n)[i].position.x as int,
            spec_children(g, n)[i].position.y as int,
        ),
{
}

/// Every surviving child sits one level below its parent, carries a fixed
/// origin, keeps a unit-step heading, and lies inside the grid.
pub proof fn lemma_children_wf(g: Grid, n: Node, i: int)
    requires
        0 <= i < spec_children(g, n).len(),
        n.position.unit_step(),
        move_targets_fit(n.position),
        n.depth < u32::MAX,
    ensures
        spec_children(g, n)[i].depth == n.depth + 1,
        spec_children(g, n)[i].origin is Some,
        n.origin is Some ==> spec_children(g, n)[i].origin == n.origin,
        spec_children(g, n)[i].position.unit_step(),
        0 <= spec_children(g, n)[i].position.x < g.size_x,
        0 <= spec_children(g, n)[i].position.y < g.size_y,
{
}

/// The score accumulated so far by each of the three root-level moves.
#[derive(Debug, Copy, Clone, PartialEq, Eq, Structural)]
pub struct Scores {
    pub forward: i128,
    pub starboard: i128,
    pub larboard: i128,
}

impl Scores {
    /// The score recorded for the root-level move `m`.
    pub open spec fn of(self, m: Move) -> int {
        match m {
            Move::Forward => self.forward as int,
            Move::Starboard => self.starboard as int,
            Move::Larboard => self.larboard as int,
        }
    }
}

/// What the recorded node `n` contributes to the score of the root-level
/// move `m`: its depth when `m` is its origin, nothing otherwise.
pub open spec fn credit_of(n: Node, m: Move) -> int {
    if n.origin == Some(m) {
        n.depth as int
    } else {
        0
    }
}

/// The total score mass credited to the root-level move `m` by the recorded
/// nodes of `e`: the sum of the depths of the entries whose origin is `m`.
pub open spec fn origin_sum(e: Map<u64, Node>, m: Move) -> int
    decreases e.dom().len(),
{
    if e.dom().finite() && e.dom().len() > 0 {
        let k = e.dom().choose();
        credit_of(e[k], m) + origin_sum(e.remove(k), m)
    } else {
        0
    }
}

/// Summing a finite ledger can start at any recorded key.
pub proof fn lemma_origin_sum_remove(e: Map<u64, Node>, m: Move, k: u64)
    requires
        e.dom().finite(),
        e.dom().contains(k),
    ensures
        origin_sum(e, m) == credit_of(e[k], m) + origin_sum(e.remove(k), m),
    decreases e.dom().len(),
{
    let c = e.dom().choose();
    assert(e.dom().contains(c));
    if c == k {
    } else {
        lemma_origin_sum_remove(e.remove(c), m, k);
        lemma_origin_sum_remove(e.remove(k), m, c);
        assert(e.remove(c).remove(k) =~= e.remove(k).remove(c));
    }
}

/// Overwriting or adding one entry moves the sum by the difference of the
/// contributions.
pub proof fn lemma_origin_sum_insert(e: Map<u64, Node>, m: Move, k: u64, n: Node)
    requires
        e.dom().finite(),
    ensures
        origin_sum(e.insert(k, n), m) == origin_sum(e, m) + credit_of(n, m) - (if e.dom().contains(
            k,
        ) {
            credit_of(e[k], m)
        } else {
            0
        }),
{
    lemma_origin_sum_remove(e.insert(k, n), m, k);
    if e.dom().contains(k) {
        lemma_origin_sum_remove(e, m, k);
        assert(e.insert(k, n).remove(k) =~= e.remove(k));
    } else {
        assert(e.insert(k, n).remove(k) =~= e);
    }
}

/// No recorded node contributes negatively, so no score mass is negative;
/// and when every recorded depth is at most `d`, the mass credited to one
/// move is at most `d` per recorded cell.
pub proof fn lemma_origin_sum_bounds(e: Map<u64, Node>, m: Move, d: int)
    requires
        e.dom().finite(),
        forall|k: u64| e.dom().contains(k) ==> (#[trigger] e[k]).depth <= d,
    ensures
        0 <= origin_sum(e, m) <= d * e.dom().len(),
    decreases e.dom().len(),
{
    if e.dom().len() > 0 {
        let k = e.dom().choose();
        assert(e.dom().contains(k));
        lemma_origin_sum_bounds(e.remove(k), m, d);
        assert(d * (e.dom().len() as int) == d * (e.remove(k).dom().len() as int) + d)
            by (nonlinear_arith)
            requires
                e.remove(k).dom().len() + 1 == e.dom().len(),
        ;
    }
}

/// A single recorded node never holds more than the whole mass of its
/// origin.
pub proof fn lemma_origin_sum_member(e: Map<u64, Node>, m: Move, k: u64)
    requires
        e.dom().finite(),
        e.dom().contains(k),
    ensures
        credit_of(e[k], m) <= origin_sum(e, m),
{
    lemma_origin_sum_remove(e, m, k);
    lemma_origin_sum_bounds(e.remove(k), m, u32::MAX as int);
}

/// The keys below `n` form a finite set of exactly `n` values.
pub proof fn lemma_u64_below_card(n: u64)
    ensures
        Set::new(|k: u64| k < n).finite(),
        Set::new(|k: u64| k < n).len() == n,
    decreases n,
{
    if n == 0 {
        assert(Set::new(|k: u64| k < n) =~= Set::<u64>::empty());
    } else {
        lemma_u64_below_card((n - 1) as u64);
        assert(Set::new(|k: u64| k < n) =~= Set::new(|k: u64| k < (n - 1) as u64).insert(
            (n - 1) as u64,
        ));
    }
}

/// The index under which a cell is recorded in the exploration ledger.
pub open spec fn spec_cell_index(g: Grid, x: int, y: int) -> int {
    x * g.size_y + y
}

/// The ledger index of the cell reached by `n`.
pub open spec fn node_key(g: Grid, n: Node) -> int {
    spec_cell_index(g, n.position.x as int, n.position.y as int)
}

/// Computes the ledger index of the in-bounds cell `(x, y)`.
pub fn cell_index(grid: &Grid, x: i32, y: i32) -> (k: u64)
    requires
        0 <= x < grid.size_x,
        0 <= y < grid.size_y,
    ensures
        k as int == spec_cell_index(*grid, x as int, y as int),
{
    proof {
        assert(0 <= (x as int) * (grid.size_y as int) + (y as int)
            < 0x8000_0000_0000_0000) by (nonlinear_arith)
            requires
                0 <= (x as int) && (x as int) < 0x8000_0000,
                0 <= (y as int) && (y as int) < (grid.size_y as int),
                0 < (grid.size_y as int) && (grid.size_y as int) < 0x8000_0000,
        ;
    }
    (x as u64) * (grid.size_y as u64) + (y as u64)
}

/// Two in-bounds cells share a ledger index only if they are the same cell.
pub proof fn lemma_cell_index_injective(g: Grid, x1: int, y1: int, x2: int, y2: int)
    requires
        0 <= x1 < g.size_x,
        0 <= y1 < g.size_y,
        0 <= x2 < g.size_x,
        0 <= y2 < g.size_y,
        spec_cell_index(g, x1, y1) == spec_cell_index(g, x2, y2),
    ensures
        x1 == x2 && y1 == y2,
{
    assert(x1 == x2 && y1 == y2) by (nonlinear_arith)
        requires
            0 <= y1 < g.size_y as int,
            0 <= y2 < g.size_y as int,
            x1 * (g.size_y as int) + y1 == x2 * (g.size_y as int) + y2,
    ;
}

/// The per-tick mutable state of a search: the grid snapshot and depth bound
/// it runs against, the three accumulated scores, and the exploration ledger
/// mapping each visited cell to the single node currently credited for it.
pub struct Context {
    pub grid: Grid,
    pub max_depth: u32,
    pub scores: Scores,
    pub explored: HashMap<u64, Node>,
}

impl Context {
    /// A recorded ledger entry is sound: credited to a fixed origin, within
    /// the depth bound, on an in-bounds cell, with a unit-step heading, and
    /// filed under its own cell's index.
    pub open spec fn wf_entry(self, k: u64, n: Node) -> bool {
        &&& n.origin is Some
        &&& 1 <= n.depth <= self.max_depth
        &&& 0 <= n.position.x < self.grid.size_x
        &&& 0 <= n.position.y < self.grid.size_y
        &&& n.position.unit_step()
        &&& k as int == node_key(self.grid, n)
    }

    /// Every ledger entry is sound and the three scores hold exactly the
    /// score mass credited by the ledger: no score is ever invented or lost
    /// outside the recorded credits and debits.
    pub open spec fn wf(self) -> bool {
        &&& self.explored@.dom().finite()
        &&& forall|k: u64|
            #[trigger] self.explored@.dom().contains(k) ==> self.wf_entry(k, self.explored@[k])
        &&& self.scores.forward as int == origin_sum(self.explored@, Move::Forward)
        &&& self.scores.starboard as int == origin_sum(self.explored@, Move::Starboard)
        &&& self.scores.larboard as int == origin_sum(self.explored@, Move::Larboard)
    }
}

/// In a well-formed context every score lies between zero and the depth
/// bound times the number of grid cells.
pub proof fn lemma_scores_bounded(ctx: Context)
    requires
        ctx.wf(),
    ensures
        0 <= ctx.scores.forward < 0x8000_0000_0000_0000_0000_0000,
        0 <= ctx.scores.starboard < 0x8000_0000_0000_0000_0000_0000,
        0 <= ctx.scores.larboard < 0x8000_0000_0000_0000_0000_0000,
{
    let e = ctx.explored@;
    let sx = ctx.grid.size_x as int;
    let sy = ctx.grid.size_y as int;
    let d = ctx.max_depth as int;
    lemma_origin_sum_bounds(e, Move::Forward, d);
    lemma_origin_sum_bounds(e, Move::Starboard, d);
    lemma_origin_sum_bounds(e, Move::Larboard, d);
    if sx <= 0 || sy <= 0 {
        assert(e.dom() =~= Set::<u64>::empty());
    } else {
        let sxy = sx * sy;
        assert(0 < sxy < 0x4000_0000_0000_0000) by (nonlinear_arith)
            requires
                sxy == sx * sy,
                0 < sx < 0x8000_0000,
                0 < sy < 0x8000_0000,
        ;
        let below = Set::new(|k: u64| k < sxy as u64);
        assert forall|k: u64| e.dom().contains(k) implies below.contains(k) by {
            let n = e[k];
            assert((n.position.x as int) * sy + (n.position.y as int) < sxy) by (nonlinear_arith)
                requires
                    sxy == sx * sy,
                    0 <= (n.position.x as int) && (n.position.x as int) < sx,
                    0 <= (n.position.y as int) && (n.position.y as int) < sy,
                    0 < sy,
            ;
        }
        lemma_u64_below_card(sxy as u64);
        vstd::set_lib::lemma_len_subset(e.dom(), below);
        assert(d * (e.dom().len() as int) < 0x8000_0000_0000_0000_0000_0000) by (nonlinear_arith)
            requires
                0 <= d < 0x1_0000_0000,
                0 <= (e.dom().len() as int) && (e.dom().len() as int) <= 0x4000_0000_0000_0000,
        ;
    }
}

/// The dedup rule drops `n`: its cell is already recorded at the same depth.
pub open spec fn eval_drops(e: Map<u64, Node>, k: u64, n: Node) -> bool {
    e.dom().contains(k) && e[k].depth == n.depth
}

/// The exploration ledger after evaluating `n` against cell index `k`.
pub open spec fn eval_explored(e: Map<u64, Node>, k: u64, n: Node) -> Map<u64, Node> {
    if eval_drops(e, k, n) {
        e
    } else {
        e.insert(k, n)
    }
}

/// The score of the root-level move `m` after evaluating `n` against cell
/// index `k`, starting from score `s`: unchanged for a dropped duplicate,
/// credited with `n`'s depth for a first visit, and re-attributed (old entry
/// de-credited, new node credited) for a replacement.
pub open spec fn eval_score(e: Map<u64, Node>, k: u64, n: Node, s: int, m: Move) -> int {
    if eval_drops(e, k, n) {
        s
    } else if e.dom().contains(k) {
        s - credit_of(e[k], m) + credit_of(n, m)
    } else {
        s + credit_of(n, m)
    }
}

/// Adds `d` to the score of `m`, leaving the other scores unchanged.
fn credit(s: &mut Scores, m: Move, d: u32)
    requires
        old(s).of(m) + d <= i128::MAX,
    ensures
        final(s).of(m) == old(s).of(m) + d,
        forall|m2: Move| m2 != m ==> #[trigger] final(s).of(m2) == old(s).of(m2),
{
    match m {
        Move::Forward => s.forward = s.forward + (d as i128),
        Move::Starboard => s.starboard = s.starboard + (d as i128),
        Move::Larboard => s.larboard = s.larboard + (d as i128),
    }
}

/// Subtracts `d` from the score of `m`, leaving the other scores unchanged.
fn debit(s: &mut Scores, m: Move, d: u32)
    requires
        i128::MIN <= old(s).of(m) - d,
    ensures
        final(s).of(m) == old(s).of(m) - d,
        forall|m2: Move| m2 != m ==> #[trigger] final(s).of(m2) == old(s).of(m2),
{
    match m {
        Move::Forward => s.forward = s.forward - (d as i128),
        Move::Starboard => s.starboard = s.starboard - (d as i128),
        Move::Larboard => s.larboard = s.larboard - (d as i128),
    }
}

/// Evaluates one expanded node against the ledger, deduplicating by
/// destination cell. A first visit credits the node's origin with the node's
/// depth and records the node. A revisit at a different depth re-attributes
/// the cell: the old entry's origin is de-credited by the old depth, the new
/// node's origin credited with the new depth, and the entry replaced. A
/// revisit at the same depth is dropped silently: no score change, no
/// replacement, so the first node processed for a cell at a given depth
/// wins. Returns whether the node now holds the cell's entry and may seed
/// the next level's frontier.
pub fn evaluate_node(ctx: &mut Context, node: Node) -> (retained: bool)
    requires
        old(ctx).wf(),
        node.origin is Some,
        1 <= node.depth <= old(ctx).max_depth,
        0 <= node.position.x < old(ctx).grid.size_x,
        0 <= node.position.y < old(ctx).grid.size_y,
        node.position.unit_step(),
    ensures
        final(ctx).wf(),
        final(ctx).grid == old(ctx).grid,
        final(ctx).max_depth == old(ctx).max_depth,
        ({
            let k = node_key(old(ctx).grid, node) as u64;
            let e = old(ctx).explored@;
            &&& retained == !eval_drops(e, k, node)
            &&& final(ctx).explored@ == eval_explored(e, k, node)
            &&& final(ctx).scores.forward as int == eval_score(
                e,
                k,
                node,
                old(ctx).scores.forward as int,
                Move::Forward,
            )
            &&& final(ctx).scores.starboard as int == eval_score(
                e,
                k,
                node,
                old(ctx).scores.starboard as int,
                Move::Starboard,
            )
            &&& final(ctx).scores.larboard as int == eval_score(
                e,
                k,
                node,
                old(ctx).scores.larboard as int,
                Move::Larboard,
            )
        }),
{
    proof {
        lemma_scores_bounded(*old(ctx));
    }
    let k = cell_index(&ctx.grid, node.position.x, node.position.y);
    let ghost e0 = ctx.explored@;
    let prev_opt = match ctx.explored.get(&k) {
        Some(p) => Some(*p),
        None => None,
    };
    match prev_opt {
        Some(prev) => {
            if prev.depth == node.depth {
                false
            } else {
                let po = prev.origin.unwrap();
                proof {
                    lemma_origin_sum_member(e0, po, k);
                }
                debit(&mut ctx.scores, po, prev.depth);
                credit(&mut ctx.scores, node.origin.unwrap(), node.depth);
                ctx.explored.insert(k, node);
                proof {
                    lemma_origin_sum_insert(e0, Move::Forward, k, node);
                    lemma_origin_sum_insert(e0, Move::Starboard, k, node);
                    lemma_origin_sum_insert(e0, Move::Larboard, k, node);
                    assert(ctx.scores.of(Move::Forward) == ctx.scores.forward as int);
                    assert(ctx.scores.of(Move::Starboard) == ctx.scores.starboard as int);
                    assert(ctx.scores.of(Move::Larboard) == ctx.scores.larboard as int);
                }
                true
            }
        },
        None => {
            credit(&mut ctx.scores, node.origin.unwrap(), node.depth);
            ctx.explored.insert(k, node);
            proof {
                lemma_origin_sum_insert(e0, Move::Forward, k, node);
                lemma_origin_sum_insert(e0, Move::Starboard, k, node);
                lemma_origin_sum_insert(e0, Move::Larboard, k, node);
                assert(ctx.scores.of(Move::Forward) == ctx.scores.forward as int);
                assert(ctx.scores.of(Move::Starboard) == ctx.scores.starboard as int);
                assert(ctx.scores.of(Move::Larboard) == ctx.scores.larboard as int);
            }
            true
        },
    }
}

/// Law (score conservation): one evaluation step changes the total score
/// mass across the three moves by exactly what the dedup rule dictates. A
/// dropped duplicate changes nothing; a first visit adds the node's depth; a
/// replacement adds the new depth and removes the replaced entry's depth,
/// attributed across the two origins.
pub proof fn lemma_score_conservation(e: Map<u64, Node>, k: u64, n: Node, f: int, s: int, l: int)
    requires
        n.origin is Some,
    ensures
        eval_drops(e, k, n) ==> eval_score(e, k, n, f, Move::Forward) + eval_score(
            e,
            k,
            n,
            s,
            Move::Starboard,
        ) + eval_score(e, k, n, l, Move::Larboard) == f + s + l,
        !eval_drops(e, k, n) && !e.dom().contains(k) ==> eval_score(e, k, n, f, Move::Forward)
            + eval_score(e, k, n, s, Move::Starboard) + eval_score(e, k, n, l, Move::Larboard) == f
            + s + l + n.depth,
        !eval_drops(e, k, n) && e.dom().contains(k) && e[k].origin is Some ==> eval_score(
            e,
            k,
            n,
            f,
            Move::Forward,
        ) + eval_score(e, k, n, s, Move::Starboard) + eval_score(e, k, n, l, Move::Larboard) == f
            + s + l + n.depth - e[k].depth,
{
    let no = n.origin->0;
    assert(credit_of(n, Move::Forward) + credit_of(n, Move::Starboard) + credit_of(n, Move::Larboard)
        == n.depth as int) by {
        match no {
            Move::Forward => {},
            Move::Starboard => {},
            Move::Larboard => {},
        }
    }
    if e.dom().contains(k) && e[k].origin is Some {
        let eo = e[k].origin->0;
        assert(credit_of(e[k], Move::Forward) + credit_of(e[k], Move::Starboard) + credit_of(
            e[k],
            Move::Larboard,
        ) == e[k].depth as int) by {
            match eo {
                Move::Forward => {},
                Move::Starboard => {},
                Move::Larboard => {},
            }
        }
    }
}

/// Law (equal-depth dedup determinism): with a fixed processing order, the
/// first node to reach a fresh cell is recorded, and every node processed
/// after it that reaches the same cell at the same depth is dropped: it is
/// not retained, and it leaves both the ledger and every score untouched.
pub proof fn lemma_equal_depth_dedup(
    e: Map<u64, Node>,
    k: u64,
    n1: Node,
    n2: Node,
    s: int,
    m: Move,
)
    requires
        !e.dom().contains(k),
        n2.depth == n1.depth,
    ensures
        eval_explored(e, k, n1)[k] == n1,
        eval_drops(eval_explored(e, k, n1), k, n2),
        eval_explored(eval_explored(e, k, n1), k, n2) == eval_explored(e, k, n1),
        eval_score(eval_explored(e, k, n1), k, n2, s, m) == s,
{
}

/// The decision rule: the root-level move with the strictly highest score,
/// ties broken in the fixed enumeration order forward, starboard, larboard
/// (the first move whose score no later move strictly exceeds).
pub open spec fn spec_decide(f: int, s: int, l: int) -> Move {
    if s > f {
        if l > s {
            Move::Larboard
        } else {
            Move::Starboard
        }
    } else if l > f {
        Move::Larboard
    } else {
        Move::Forward
    }
}

/// Law (tie-break determinism): when all three scores are equal — in
/// particular all zero, as at depth zero — the decision is forward.
pub proof fn lemma_tie_break_forward(f: int, s: int, l: int)
    requires
        f == s && s == l,
    ensures
        spec_decide(f, s, l) == Move::Forward,
{
}

/// The decision owed for the first search level: each of the root's three
/// successors that is in bounds and unoccupied credits its own move with one
/// point, and the decision rule is applied to the three results. The shuffle
/// cannot touch this level, since the root's surviving children sit on
/// pairwise distinct cells.
pub open spec fn first_level_decision(g: Grid, p: Position) -> Move {
    let t = move_targets(p);
    spec_decide(
        if !g.spec_invalid(t.0.x as int, t.0.y as int) {
            1
        } else {
            0
        },
        if !g.spec_invalid(t.1.x as int, t.1.y as int) {
            1
        } else {
            0
        },
        if !g.spec_invalid(t.2.x as int, t.2.y as int) {
            1
        } else {
            0
        },
    )
}

/// Picks the current best root-level move from the accumulated scores.
pub fn evaluate_context(ctx: &Context) -> (m: Move)
    ensures
        m == spec_decide(
            ctx.scores.forward as int,
            ctx.scores.starboard as int,
            ctx.scores.larboard as int,
        ),
{
    let mut best = Move::Forward;
    let mut best_score = ctx.scores.forward;
    if ctx.scores.starboard > best_score {
        best = Move::Starboard;
        best_score = ctx.scores.starboard;
    }
    if ctx.scores.larboard > best_score {
        best = Move::Larboard;
    }
    best
}

/// A frontier node that the expansion step may process: a unit-step heading
/// and coordinates with room for one more step in every direction.
pub open spec fn node_expandable(n: Node) -> bool {
    &&& n.position.unit_step()
    &&& i32::MIN < n.position.x < i32::MAX
    &&& i32::MIN < n.position.y < i32::MAX
    &&& n.depth < u32::MAX
}

/// The surviving children of all nodes of `ns`, in expansion order, before
/// the shuffle.
pub open spec fn spec_merged(g: Grid, ns: Seq<Node>) -> Seq<Node>
    decreases ns.len(),
{
    if ns.len() == 0 {
        Seq::<Node>::empty()
    } else {
        spec_children(g, ns[0]) + spec_merged(g, ns.drop_first())
    }
}

proof fn lemma_spec_merged_push(g: Grid, ns: Seq<Node>, n: Node)
    ensures
        spec_merged(g, ns.push(n)) == spec_merged(g, ns) + spec_children(g, n),
    decreases ns.len(),
{
    if ns.len() == 0 {
        assert(ns.push(n)[0] == n);
        assert(ns.push(n).drop_first() =~= Seq::<Node>::empty());
        assert(spec_merged(g, ns.push(n)) == spec_children(g, n) + spec_merged(
            g,
            ns.push(n).drop_first(),
        ));
        assert(spec_merged(g, Seq::<Node>::empty()) == Seq::<Node>::empty());
        assert(ns =~= Seq::<Node>::empty());
        assert(spec_merged(g, ns.push(n)) =~= spec_merged(g, ns) + spec_children(g, n));
    } else {
        lemma_spec_merged_push(g, ns.drop_first(), n);
        assert(ns.push(n).drop_first() =~= ns.drop_first().push(n));
        assert(ns.push(n)[0] == ns[0]);
        assert(spec_merged(g, ns.push(n)) == spec_children(g, ns[0]) + spec_merged(
            g,
            ns.drop_first().push(n),
        ));
        assert(spec_merged(g, ns) == spec_children(g, ns[0]) + spec_merged(g, ns.drop_first()));
        assert(spec_children(g, ns[0]) + (spec_merged(g, ns.drop_first()) + spec_children(g, n))
            =~= (spec_children(g, ns[0]) + spec_merged(g, ns.drop_first())) + spec_children(g, n));
        assert(spec_merged(g, ns.push(n)) =~= spec_merged(g, ns) + spec_children(g, n));
    }
}

/// Every merged node is a surviving child of some node of `ns`.
proof fn lemma_spec_merged_mem(g: Grid, ns: Seq<Node>, j: int)
    requires
        0 <= j < spec_merged(g, ns).len(),
    ensures
        exists|i: int|
            0 <= i < ns.len() && spec_children(g, ns[i]).contains(spec_merged(g, ns)[j]),
    decreases ns.len(),
{
    let c = spec_children(g, ns[0]);
    if j < c.len() {
        assert(spec_merged(g, ns)[j] == c[j]);
        assert(spec_children(g, ns[0]).contains(spec_merged(g, ns)[j]));
    } else {
        lemma_spec_merged_mem(g, ns.drop_first(), j - c.len());
        let i0 = choose|i0: int|
            0 <= i0 < ns.drop_first().len() && spec_children(g, ns.drop_first()[i0]).contains(
                spec_merged(g, ns.drop_first())[j - c.len()],
            );
        assert(ns.drop_first()[i0] == ns[i0 + 1]);
        assert(spec_merged(g, ns)[j] == spec_merged(g, ns.drop_first())[j - c.len()]);
        assert(spec_children(g, ns[i0 + 1]).contains(spec_merged(g, ns)[j]));
    }
}

/// The ledger index of the cell reached by `n`, as a key.
spec fn nkey(g: Grid, n: Node) -> u64 {
    node_key(g, n) as u64
}

/// No two nodes of `ns` share a ledger key.
spec fn distinct_keys(g: Grid, ns: Seq<Node>) -> bool {
    forall|a: int, b: int| 0 <= a < b < ns.len() ==> nkey(g, ns[a]) != nkey(g, ns[b])
}

/// The ledger that records every node of `ns` under its own cell key.
spec fn keyed_map(g: Grid, ns: Seq<Node>) -> Map<u64, Node>
    decreases ns.len(),
{
    if ns.len() == 0 {
        Map::<u64, Node>::empty()
    } else {
        keyed_map(g, ns.drop_last()).insert(nkey(g, ns.last()), ns.last())
    }
}

proof fn lemma_keyed_map_finite(g: Grid, ns: Seq<Node>)
    ensures
        keyed_map(g, ns).dom().finite(),
    decreases ns.len(),
{
    if ns.len() > 0 {
        lemma_keyed_map_finite(g, ns.drop_last());
    }
}

proof fn lemma_keyed_map_mem(g: Grid, ns: Seq<Node>, a: int)
    requires
        0 <= a < ns.len(),
        distinct_keys(g, ns),
    ensures
        keyed_map(g, ns).dom().contains(nkey(g, ns[a])),
        keyed_map(g, ns)[nkey(g, ns[a])] == ns[a],
    decreases ns.len(),
{
    if a < ns.len() - 1 {
        assert(ns.drop_last()[a] == ns[a]);
        lemma_keyed_map_mem(g, ns.drop_last(), a);
        assert(nkey(g, ns[a]) != nkey(g, ns.last()));
    }
}

proof fn lemma_keyed_map_dom(g: Grid, ns: Seq<Node>, k: u64)
    requires
        keyed_map(g, ns).dom().contains(k),
    ensures
        exists|a: int| 0 <= a < ns.len() && nkey(g, #[trigger] ns[a]) == k,
    decreases ns.len(),
{
    if k == nkey(g, ns.last()) {
        assert(nkey(g, ns[ns.len() - 1]) == k);
    } else {
        lemma_keyed_map_dom(g, ns.drop_last(), k);
        let a = choose|a: int|
            0 <= a < ns.drop_last().len() && nkey(g, #[trigger] ns.drop_last()[a]) == k;
        assert(ns.drop_last()[a] == ns[a]);
    }
}

/// A duplicated value in a sequence shows up as a multiset count of at
/// least two.
proof fn lemma_dup_count(ns: Seq<Node>, x: int, y: int)
    requires
        0 <= x < y < ns.len(),
        ns[x] == ns[y],
    ensures
        ns.to_multiset().count(ns[x]) >= 2,
{
    ns.to_multiset_ensures();
    ns.remove(x).to_multiset_ensures();
    assert(ns.remove(x)[y - 1] == ns[y]);
    assert(ns.remove(x).contains(ns[y]));
    assert(ns.remove(x).to_multiset().count(ns[y]) > 0);
    assert(ns.remove(x).to_multiset() =~= ns.to_multiset().remove(ns[x]));
    assert(ns.to_multiset().remove(ns[x]).count(ns[x]) == ns.to_multiset().count(ns[x]) - 1);
}

/// Key distinctness carries over to any reordering of a sequence.
proof fn lemma_distinct_keys_transfer(g: Grid, a: Seq<Node>, b: Seq<Node>)
    requires
        a.to_multiset() == b.to_multiset(),
        distinct_keys(g, a),
    ensures
        distinct_keys(g, b),
{
    a.to_multiset_ensures();
    b.to_multiset_ensures();
    assert forall|x: int, y: int| 0 <= x < y < b.len() implies nkey(g, b[x]) != nkey(g, b[y]) by {
        if nkey(g, b[x]) == nkey(g, b[y]) {
            assert(b.contains(b[x]));
            assert(b.contains(b[y]));
            assert(b.to_multiset().count(b[x]) > 0);
            assert(b.to_multiset().count(b[y]) > 0);
            assert(a.contains(b[x]));
            assert(a.contains(b[y]));
            let ia = choose|ia: int| 0 <= ia < a.len() && a[ia] == b[x];
            let ib = choose|ib: int| 0 <= ib < a.len() && a[ib] == b[y];
            assert(ia == ib);
            lemma_dup_count(b, x, y);
            assert(a.to_multiset().count(a[ia]) >= 2);
            a.remove(ia).to_multiset_ensures();
            assert(a.remove(ia).to_multiset() =~= a.to_multiset().remove(a[ia]));
            assert(a.remove(ia).to_multiset().count(a[ia]) >= 1);
            assert(a.remove(ia).contains(a[ia]));
            let j = choose|j: int| 0 <= j < a.remove(ia).len() && a.remove(ia)[j] == a[ia];
            if j < ia {
                assert(a[j] == a[ia]);
            } else {
                assert(a[j + 1] == a[ia]);
            }
        }
    }
}

/// Two reorderings of the same nodes, each without key collisions, build
/// the same ledger.
proof fn lemma_keyed_map_permutation(g: Grid, a: Seq<Node>, b: Seq<Node>)
    requires
        a.to_multiset() == b.to_multiset(),
        distinct_keys(g, a),
        distinct_keys(g, b),
    ensures
        keyed_map(g, a) == keyed_map(g, b),
{
    a.to_multiset_ensures();
    b.to_multiset_ensures();
    assert forall|k: u64| #[trigger] keyed_map(g, a).dom().contains(k) implies keyed_map(
        g,
        b,
    ).dom().contains(k) && keyed_map(g, a)[k] == keyed_map(g, b)[k] by {
        lemma_keyed_map_dom(g, a, k);
        let ia = choose|ia: int| 0 <= ia < a.len() && nkey(g, #[trigger] a[ia]) == k;
        lemma_keyed_map_mem(g, a, ia);
        assert(a.contains(a[ia]));
        assert(a.to_multiset().count(a[ia]) > 0);
        assert(b.contains(a[ia]));
        let ib = choose|ib: int| 0 <= ib < b.len() && b[ib] == a[ia];
        lemma_keyed_map_mem(g, b, ib);
    }
    assert forall|k: u64| #[trigger] keyed_map(g, b).dom().contains(k) implies keyed_map(
        g,
        a,
    ).dom().contains(k) by {
        lemma_keyed_map_dom(g, b, k);
        let ib = choose|ib: int| 0 <= ib < b.len() && nkey(g, #[trigger] b[ib]) == k;
        lemma_keyed_map_mem(g, b, ib);
        assert(b.contains(b[ib]));
        assert(b.to_multiset().count(b[ib]) > 0);
        assert(a.contains(b[ib]));
        let ia = choose|ia: int| 0 <= ia < a.len() && a[ia] == b[ib];
        lemma_keyed_map_mem(g, a, ia);
    }
    assert(keyed_map(g, a) =~= keyed_map(g, b));
}

/// The score credit of the nodes of `ns` toward the root-level move `m`, in
/// processing order.
spec fn seq_credit(ns: Seq<Node>, m: Move) -> int
    decreases ns.len(),
{
    if ns.len() == 0 {
        0
    } else {
        seq_credit(ns.drop_last(), m) + credit_of(ns.last(), m)
    }
}

proof fn lemma_seq_credit_concat(a: Seq<Node>, b: Seq<Node>, m: Move)
    ensures
        seq_credit(a + b, m) == seq_credit(a, m) + seq_credit(b, m),
    decreases b.len(),
{
    if b.len() == 0 {
        assert(a + b =~= a);
    } else {
        lemma_seq_credit_concat(a, b.drop_last(), m);
        assert((a + b).drop_last() =~= a + b.drop_last());
        assert((a + b).last() == b.last());
    }
}

/// A ledger of key-distinct nodes credits each move with exactly the nodes'
/// own credits.
proof fn lemma_origin_sum_keyed(g: Grid, ns: Seq<Node>, m: Move)
    requires
        distinct_keys(g, ns),
    ensures
        origin_sum(keyed_map(g, ns), m) == seq_credit(ns, m),
    decreases ns.len(),
{
    if ns.len() > 0 {
        lemma_origin_sum_keyed(g, ns.drop_last(), m);
        lemma_keyed_map_finite(g, ns.drop_last());
        lemma_origin_sum_insert(
            keyed_map(g, ns.drop_last()),
            m,
            nkey(g, ns.last()),
            ns.last(),
        );
        if keyed_map(g, ns.drop_last()).dom().contains(nkey(g, ns.last())) {
            lemma_keyed_map_dom(g, ns.drop_last(), nkey(g, ns.last()));
            let a = choose|a: int|
                0 <= a < ns.drop_last().len() && nkey(g, #[trigger] ns.drop_last()[a]) == nkey(
                    g,
                    ns.last(),
                );
            assert(ns.drop_last()[a] == ns[a]);
            assert(false);
        }
    }
}

/// The three successor cells of a unit-step position are pairwise distinct,
/// so the surviving children of one node never collide on a ledger key.
proof fn lemma_children_distinct_keys(g: Grid, n: Node)
    requires
        n.position.unit_step(),
        move_targets_fit(n.position),
    ensures
        distinct_keys(g, spec_children(g, n)),
{
    let t = move_targets(n.position);
    let ch = spec_children(g, n);
    assert forall|a: int, b: int| 0 <= a < b < ch.len() implies nkey(g, ch[a]) != nkey(
        g,
        ch[b],
    ) by {
        lemma_children_filtered(g, n, a);
        lemma_children_filtered(g, n, b);
        let pa = ch[a].position;
        let pb = ch[b].position;
        assert(pa == t.0 || pa == t.1 || pa == t.2);
        assert(pb == t.0 || pb == t.1 || pb == t.2);
        assert((pa.x, pa.y) != (pb.x, pb.y));
        if nkey(g, ch[a]) == nkey(g, ch[b]) {
            assert(0 <= node_key(g, ch[a]) < 0x8000_0000_0000_0000) by (nonlinear_arith)
                requires
                    node_key(g, ch[a]) == (pa.x as int) * (g.size_y as int) + (pa.y as int),
                    0 <= (pa.x as int) && (pa.x as int) < 0x8000_0000,
                    0 <= (pa.y as int) && (pa.y as int) < (g.size_y as int),
                    0 < (g.size_y as int) && (g.size_y as int) < 0x8000_0000,
            ;
            assert(0 <= node_key(g, ch[b]) < 0x8000_0000_0000_0000) by (nonlinear_arith)
                requires
                    node_key(g, ch[b]) == (pb.x as int) * (g.size_y as int) + (pb.y as int),
                    0 <= (pb.x as int) && (pb.x as int) < 0x8000_0000,
                    0 <= (pb.y as int) && (pb.y as int) < (g.size_y as int),
                    0 < (g.size_y as int) && (g.size_y as int) < 0x8000_0000,
            ;
            assert(node_key(g, ch[a]) == node_key(g, ch[b]));
            lemma_cell_index_injective(
                g,
                pa.x as int,
                pa.y as int,
                pb.x as int,
                pb.y as int,
            );
        }
    }
}

/// Law (bounds and occupancy filtering, lifted to a whole level): every node
/// of an expanded level, and so every node a frontier can ever hold, sits on
/// an in-bounds unoccupied cell.
pub proof fn lemma_merged_filtered(g: Grid, ns: Seq<Node>, j: int)
    requires
        0 <= j < spec_merged(g, ns).len(),
    ensures
        !g.spec_invalid(
            spec_merged(g, ns)[j].position.x as int,
            spec_merged(g, ns)[j].position.y as int,
        ),
{
    lemma_spec_merged_mem(g, ns, j);
    let i = choose|i: int|
        0 <= i < ns.len() && spec_children(g, ns[i]).contains(spec_merged(g, ns)[j]);
    let c = spec_children(g, ns[i]);
    let ci = choose|ci: int| 0 <= ci < c.len() && c[ci] == spec_merged(g, ns)[j];
    lemma_children_filtered(g, ns[i], ci);
}

#[verifier::external_type_specification]
#[verifier::external_body]
pub struct ExSmallRng(SmallRng);

/// Relies on rand's SeedableRng::from_entropy: a fresh small generator
/// seeded from the system entropy source. Nothing is assumed of its state;
/// the call aborts only if the system refuses to hand out entropy.
#[verifier::external_body]
fn entropy_rng() -> SmallRng {
    SmallRng::from_entropy()
}

/// Relies on rand's SliceRandom::shuffle: an in-place Fisher-Yates pass of
/// swaps, so the vector afterwards holds exactly the same nodes with the
/// same multiplicities, in an order drawn from the generator's state.
#[verifier::external_body]
fn shuffle_nodes(nodes: &mut Vec<Node>, rng: &mut SmallRng)
    ensures
        final(nodes)@.to_multiset() == old(nodes)@.to_multiset(),
{
    nodes.shuffle(rng);
}

/// Expands every node of `frontier` in order, gathers the surviving
/// children, and shuffles them. The shuffle permutes the candidates and
/// nothing else: every node handed back is a surviving child of a frontier
/// node, so the randomization decides only which of two equal-depth
/// candidates for the same cell is evaluated first.
pub fn merge_children(grid: &Grid, frontier: &Vec<Node>) -> (merged: Vec<Node>)
    requires
        forall|i: int| 0 <= i < frontier@.len() ==> node_expandable(#[trigger] frontier@[i]),
    ensures
        merged@.to_multiset() == spec_merged(*grid, frontier@).to_multiset(),
        forall|j: int|
            0 <= j < merged@.len() ==> exists|i: int|
                0 <= i < frontier@.len() && spec_children(*grid, frontier@[i]).contains(
                    #[trigger] merged@[j],
                ),
{
    let mut merged: Vec<Node> = Vec::new();
    let mut i: usize = 0;
    while i < frontier.len()
        invariant
            0 <= i <= frontier@.len(),
            forall|i2: int| 0 <= i2 < frontier@.len() ==> node_expandable(#[trigger] frontier@[i2]),
            merged@ == spec_merged(*grid, frontier@.subrange(0, i as int)),
        decreases frontier@.len() - i,
    {
        let node = frontier[i];
        proof {
            assert(move_targets_fit(node.position));
        }
        let mut children = children_nodes(grid, &node);
        merged.append(&mut children);
        proof {
            lemma_spec_merged_push(*grid, frontier@.subrange(0, i as int), node);
            assert(frontier@.subrange(0, i as int + 1) =~= frontier@.subrange(0, i as int).push(
                node,
            ));
        }
        i += 1;
    }
    proof {
        assert(frontier@.subrange(0, frontier@.len() as int) =~= frontier@);
    }
    let ghost pre = merged@;
    let mut rng = entropy_rng();
    shuffle_nodes(&mut merged, &mut rng);
    proof {
        pre.to_multiset_ensures();
        merged@.to_multiset_ensures();
        assert forall|j: int| 0 <= j < merged@.len() implies exists|i2: int|
            0 <= i2 < frontier@.len() && spec_children(*grid, frontier@[i2]).contains(
                #[trigger] merged@[j],
            ) by {
            let x = merged@[j];
            assert(merged@.contains(x));
            assert(pre.to_multiset().count(x) > 0);
            assert(pre.contains(x));
            let jj = choose|jj: int| 0 <= jj < pre.len() && pre[jj] == x;
            lemma_spec_merged_mem(*grid, frontier@, jj);
        }
    }
    merged
}

/// Runs the bounded-depth look-ahead search for one tick and returns one
/// decision per depth level, levels 0 through `max_depth` inclusive: the
/// root-level move with the strictly highest accumulated score as of that
/// level, ties broken in the fixed order forward, starboard, larboard. The
/// level-0 decision always falls to forward, all scores still being zero.
///
/// The frontier seeding each next level holds exactly the nodes the
/// deduplication pass retained: a dropped equal-depth duplicate is not
/// expanded further. When the frontier empties early, the remaining levels
/// still emit one decision each from the standing scores.
///
/// The shuffle of each expanded level leaves the first level untouched (the
/// root's children sit on pairwise distinct cells), so the level-1 decision
/// is pinned exactly; deeper decisions can depend on which of two
/// equal-depth candidates for one cell the shuffle puts first.
pub fn play(position: Position, grid: Grid, max_depth: u32) -> (decisions: Vec<Move>)
    requires
        position.unit_step(),
        i32::MIN < position.x < i32::MAX,
        i32::MIN < position.y < i32::MAX,
    ensures
        decisions@.len() == max_depth + 1,
        decisions@[0] == Move::Forward,
        max_depth >= 1 ==> decisions@[1] == first_level_decision(grid, position),
{
    let mut ctx = Context {
        grid,
        max_depth,
        scores: Scores { forward: 0, starboard: 0, larboard: 0 },
        explored: HashMap::new(),
    };
    proof {
        assert(ctx.explored@.dom() =~= Set::<u64>::empty());
    }
    let mut decisions: Vec<Move> = Vec::new();
    let root = Node { depth: 0, direction: Move::Forward, origin: None, position };
    let ghost rootn = root;
    let mut frontier: Vec<Node> = Vec::new();
    frontier.push(root);
    decisions.push(evaluate_context(&ctx));
    let mut level: u64 = 1;
    while level <= max_depth as u64
        invariant
            1 <= level <= max_depth as u64 + 1,
            decisions@.len() == level,
            decisions@[0] == Move::Forward,
            ctx.wf(),
            ctx.max_depth == max_depth,
            ctx.grid == grid,
            rootn == (Node { depth: 0, direction: Move::Forward, origin: None, position }),
            level == 1 ==> frontier@ =~= seq![rootn],
            level == 1 ==> ctx.explored@ == Map::<u64, Node>::empty(),
            level >= 2 ==> decisions@[1] == first_level_decision(grid, position),
            level <= max_depth as u64 ==> forall|i: int|
                0 <= i < frontier@.len() ==> node_expandable(#[trigger] frontier@[i])
                    && frontier@[i].depth as int == level - 1,
        decreases max_depth as u64 + 1 - level,
    {
        let ghost g0 = ctx.grid;
        let merged = merge_children(&ctx.grid, &frontier);
        let ghost parents = frontier@;
        proof {
            if level == 1 {
                assert(parents =~= seq![rootn]);
                assert(parents[0] == rootn);
                assert(parents.drop_first() =~= Seq::<Node>::empty());
                assert(spec_merged(g0, Seq::<Node>::empty()) == Seq::<Node>::empty());
                assert(spec_merged(g0, parents) =~= spec_children(g0, rootn));
                assert(node_expandable(rootn));
                assert(move_targets_fit(rootn.position));
                lemma_children_distinct_keys(g0, rootn);
                lemma_distinct_keys_transfer(g0, spec_children(g0, rootn), merged@);
            }
        }
        frontier = Vec::new();
        let mut i: usize = 0;
        while i < merged.len()
            invariant
                0 <= i <= merged@.len(),
                1 <= level <= max_depth as u64,
                ctx.wf(),
                ctx.max_depth == max_depth,
                ctx.grid == g0,
                forall|j: int|
                    0 <= j < merged@.len() ==> exists|i2: int|
                        0 <= i2 < parents.len() && spec_children(g0, parents[i2]).contains(
                            #[trigger] merged@[j],
                        ),
                forall|i2: int|
                    0 <= i2 < parents.len() ==> node_expandable(#[trigger] parents[i2])
                        && parents[i2].depth as int == level - 1,
                level < max_depth as u64 ==> forall|j: int|
                    0 <= j < frontier@.len() ==> node_expandable(#[trigger] frontier@[j])
                        && frontier@[j].depth as int == level,
                level == 1 ==> distinct_keys(g0, merged@),
                level == 1 ==> merged@.to_multiset() == spec_children(g0, rootn).to_multiset(),
                level == 1 ==> ctx.explored@ == keyed_map(g0, merged@.subrange(0, i as int)),
            decreases merged@.len() - i,
        {
            let node = merged[i];
            proof {
                assert(merged@[i as int] == node);
                let i2 = choose|i2: int|
                    0 <= i2 < parents.len() && spec_children(g0, parents[i2]).contains(node);
                let c = spec_children(g0, parents[i2]);
                let ci = choose|ci: int| 0 <= ci < c.len() && c[ci] == node;
                assert(move_targets_fit(parents[i2].position));
                lemma_children_wf(g0, parents[i2], ci);
            }
            let ghost pre_explored = ctx.explored@;
            let retained = evaluate_node(&mut ctx, node);
            proof {
                if level == 1 {
                    let prefix = merged@.subrange(0, i as int);
                    if pre_explored.dom().contains(nkey(g0, node)) {
                        lemma_keyed_map_dom(g0, prefix, nkey(g0, node));
                        let a = choose|a: int|
                            0 <= a < prefix.len() && nkey(g0, #[trigger] prefix[a]) == nkey(
                                g0,
                                node,
                            );
                        assert(prefix[a] == merged@[a]);
                        assert(nkey(g0, merged@[a]) != nkey(g0, merged@[i as int]));
                        assert(false);
                    }
                    assert(merged@.subrange(0, i as int + 1).drop_last() =~= prefix);
                    assert(merged@.subrange(0, i as int + 1).last() == node);
                    assert(ctx.explored@ == keyed_map(g0, merged@.subrange(0, i as int + 1)));
                }
            }
            if retained {
                frontier.push(node);
            }
            i += 1;
        }
        proof {
            if level == 1 {
                let ch = spec_children(g0, rootn);
                assert(merged@.subrange(0, merged@.len() as int) =~= merged@);
                lemma_children_distinct_keys(g0, rootn);
                lemma_keyed_map_permutation(g0, merged@, ch);
                lemma_origin_sum_keyed(g0, ch, Move::Forward);
                lemma_origin_sum_keyed(g0, ch, Move::Starboard);
                lemma_origin_sum_keyed(g0, ch, Move::Larboard);
                let t = move_targets(position);
                let cf = spec_child_node(rootn, Move::Forward, t.0);
                let cs = spec_child_node(rootn, Move::Starboard, t.1);
                let cl = spec_child_node(rootn, Move::Larboard, t.2);
                let sa = if !g0.spec_invalid(t.0.x as int, t.0.y as int) {
                    seq![cf]
                } else {
                    Seq::<Node>::empty()
                };
                let sb = if !g0.spec_invalid(t.1.x as int, t.1.y as int) {
                    seq![cs]
                } else {
                    Seq::<Node>::empty()
                };
                let sc = if !g0.spec_invalid(t.2.x as int, t.2.y as int) {
                    seq![cl]
                } else {
                    Seq::<Node>::empty()
                };
                assert(ch == (sa + sb) + sc);
                lemma_seq_credit_concat(sa + sb, sc, Move::Forward);
                lemma_seq_credit_concat(sa, sb, Move::Forward);
                lemma_seq_credit_concat(sa + sb, sc, Move::Starboard);
                lemma_seq_credit_concat(sa, sb, Move::Starboard);
                lemma_seq_credit_concat(sa + sb, sc, Move::Larboard);
                lemma_seq_credit_concat(sa, sb, Move::Larboard);
                assert(seq![cf].drop_last() =~= Seq::<Node>::empty());
                assert(seq![cs].drop_last() =~= Seq::<Node>::empty());
                assert(seq![cl].drop_last() =~= Seq::<Node>::empty());
                assert(seq_credit(Seq::<Node>::empty(), Move::Forward) == 0);
                assert(seq_credit(Seq::<Node>::empty(), Move::Starboard) == 0);
                assert(seq_credit(Seq::<Node>::empty(), Move::Larboard) == 0);
                assert(ctx.scores.of(Move::Forward) == ctx.scores.forward as int);
                assert(ctx.scores.of(Move::Starboard) == ctx.scores.starboard as int);
                assert(ctx.scores.of(Move::Larboard) == ctx.scores.larboard as int);
            }
        }
        decisions.push(evaluate_context(&ctx));
        level = level + 1;
    }
    decisions
}

} // verus!
