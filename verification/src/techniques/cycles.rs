//! Cycle elimination: walks over the two-candidate cells of a block, each
//! cell sharing exactly one candidate with the next, until a walk comes back
//! to where it started.

use crate::board::{grid_wf, Board, Cell};
use crate::candidates::CandidateSet;
use crate::geometry::{block_cell, lemma_block_cell, place_in_block, SudokuBox};
use crate::techniques::{refines, same_outside_block, strike_block, strike_in_block};
use vstd::prelude::*;

verus! {

/// Cell `j` is open and has exactly two candidates.
pub open spec fn bivalue(g: Seq<Cell>, j: int) -> bool {
    g[j] is Open && g[j].candidates().spec_count() == 2
}

/// Cells `i` and `j` have exactly one candidate in common.
pub open spec fn linked(g: Seq<Cell>, i: int, j: int) -> bool {
    g[i].candidates().spec_intersection(g[j].candidates()).spec_count() == 1
}

/// A walk over the cells of a block, as far as it has come.
pub struct Walk {
    /// For each place of the block, whether the cell there is on the walk.
    pub on_chain: Seq<bool>,
    /// The number of cells on the walk.
    pub len: nat,
    /// The place of the cell that the walk has reached.
    pub last: int,
    /// The candidates of the cells on the walk, taken together.
    pub seen: CandidateSet,
}

/// The walk that has only just started, at place `s` of block `b`.
pub open spec fn walk_start(g: Seq<Cell>, b: int, s: int) -> Walk {
    Walk {
        on_chain: Seq::new(9, |q: int| q == s),
        len: 1,
        last: s,
        seen: g[block_cell(b, s)].candidates(),
    }
}

/// The walk `w` may go on to place `q`: the cell there is not used up, not
/// on the walk, has two candidates, and shares exactly one of them with the
/// cell that the walk has reached.
pub open spec fn may_follow(g: Seq<Cell>, b: int, used: Seq<bool>, w: Walk, q: int) -> bool {
    &&& !used[q]
    &&& !w.on_chain[q]
    &&& bivalue(g, block_cell(b, q))
    &&& linked(g, block_cell(b, w.last), block_cell(b, q))
}

/// The lowest place from `from` on to which the walk `w` may go on, or 9 if
/// there is none.
pub open spec fn follower_from(g: Seq<Cell>, b: int, used: Seq<bool>, w: Walk, from: int) -> int
    decreases 9 - from,
{
    if from >= 9 {
        9
    } else if may_follow(g, b, used, w, from) {
        from
    } else {
        follower_from(g, b, used, w, from + 1)
    }
}

/// The walk `w` after it went on to place `q`.
pub open spec fn walk_step(g: Seq<Cell>, b: int, w: Walk, q: int) -> Walk {
    Walk {
        on_chain: w.on_chain.update(q, true),
        len: w.len + 1,
        last: q,
        seen: w.seen.spec_union(g[block_cell(b, q)].candidates()),
    }
}

/// The walk `w`, which started at place `s`, has come back: it has three
/// cells or more, and the cell that it has reached shares exactly one
/// candidate with the cell at which it started.
pub open spec fn walk_closed(g: Seq<Cell>, b: int, s: int, w: Walk) -> bool {
    w.len >= 3 && linked(g, block_cell(b, s), block_cell(b, w.last))
}

/// The walk `w`, which started at place `s`, brought to its end. A walk
/// ends when it has come back to its start, or when it can go on nowhere;
/// otherwise it goes on to the lowest place that it may go on to.
pub open spec fn walk_on(g: Seq<Cell>, b: int, used: Seq<bool>, s: int, w: Walk) -> Walk
    decreases 9 - w.len,
{
    if w.len >= 9 || walk_closed(g, b, s, w) {
        w
    } else {
        let q = follower_from(g, b, used, w, 0);
        if q >= 9 {
            w
        } else {
            walk_on(g, b, used, s, walk_step(g, b, w, q))
        }
    }
}

/// A walk starts at place `s`: the cell there is not used up and has two
/// candidates.
pub open spec fn starts_walk(g: Seq<Cell>, b: int, used: Seq<bool>, s: int) -> bool {
    !used[s] && bivalue(g, block_cell(b, s))
}

/// The walk from place `s`, brought to its end.
pub open spec fn walk_from(g: Seq<Cell>, b: int, used: Seq<bool>, s: int) -> Walk {
    walk_on(g, b, used, s, walk_start(g, b, s))
}

/// A walk starts at place `s` and comes back to it: a cycle.
pub open spec fn finds_cycle(g: Seq<Cell>, b: int, used: Seq<bool>, s: int) -> bool {
    starts_walk(g, b, used, s) && walk_closed(g, b, s, walk_from(g, b, used, s))
}

/// The places that are used up after the walk from place `s` was tried:
/// a cycle uses up its cells, a walk that did not come back uses up none.
pub open spec fn used_after(g: Seq<Cell>, b: int, used: Seq<bool>, s: int) -> Seq<bool> {
    if finds_cycle(g, b, used, s) {
        Seq::new(9, |q: int| used[q] || walk_from(g, b, used, s).on_chain[q])
    } else {
        used
    }
}

/// The places of block `b` that are used up when the walk from place `s` is
/// tried. Walks are tried from the lowest place up.
pub open spec fn used_before(g: Seq<Cell>, b: int, s: int) -> Seq<bool>
    decreases s,
{
    if s <= 0 {
        Seq::new(9, |q: int| false)
    } else {
        used_after(g, b, used_before(g, b, s - 1), s - 1)
    }
}

/// The walk from place `s` as the technique makes it, after the walks from
/// the places below `s`.
pub open spec fn cycle_walk(g: Seq<Cell>, b: int, s: int) -> Walk {
    walk_from(g, b, used_before(g, b, s), s)
}

/// The technique finds a cycle from place `s`.
pub open spec fn cycle_at(g: Seq<Cell>, b: int, s: int) -> bool {
    finds_cycle(g, b, used_before(g, b, s), s)
}

/// The cycle from place `s` strikes digit `d` from cell `i`: the cell is
/// not on the cycle, and `d` is a candidate of a cell that is.
pub open spec fn cycle_strike(g: Seq<Cell>, b: int, s: int, i: int, d: u8) -> bool {
    &&& cycle_at(g, b, s)
    &&& !cycle_walk(g, b, s).on_chain[place_in_block(i)]
    &&& cycle_walk(g, b, s).seen.has(d)
}

/// What the cycle technique strikes from cell `i` of block `b`.
pub open spec fn cycle_struck(g: Seq<Cell>, b: int) -> spec_fn(int, u8) -> bool {
    |i: int, d: u8| exists|s: int| 0 <= s < 9 && #[trigger] cycle_strike(g, b, s, i, d)
}

/// The grid after the cycle technique in block `b`. Walks are tried from
/// each place of the block in ascending order. A walk starts at a cell with
/// two candidates, goes from cell to cell, each with two candidates of which
/// it shares exactly one with the cell before, always to the lowest cell that
/// will do, and ends when it has come back to its start or can go on nowhere.
/// Where it has come back, the candidates of all its cells are struck from
/// every cell of the block that is not on it.
pub open spec fn cycle_grid(g: Seq<Cell>, b: int) -> Seq<Cell> {
    strike_in_block(g, b, cycle_struck(g, b))
}

/// A walk as the technique keeps it.
#[derive(Clone, Copy, Debug)]
pub struct Chain {
    on_chain: [bool; 9],
    len: usize,
    last: usize,
    seen: CandidateSet,
}

impl View for Chain {
    type V = Walk;

    /// The walk that the chain stands for.
    closed spec fn view(&self) -> Walk {
        Walk {
            on_chain: self.on_chain@,
            len: self.len as nat,
            last: self.last as int,
            seen: self.seen,
        }
    }
}

impl Chain {
    /// The chain has at most nine cells, has reached a place of the block,
    /// and its candidates are a well-formed set.
    pub closed spec fn wf(&self) -> bool {
        self.len <= 9 && self.last < 9 && self.seen.wf()
    }

    /// Is the cell at place `q` on the chain?
    pub fn has_cell(&self, q: usize) -> (on: bool)
        requires
            q < 9,
        ensures
            on == self@.on_chain[q as int],
    {
        self.on_chain[q]
    }

    /// The candidates of the cells on the chain, taken together.
    pub fn seen(&self) -> (seen: CandidateSet)
        ensures
            seen == self@.seen,
            self.wf() ==> seen.wf(),
    {
        self.seen
    }
}

/// Has the cell exactly two candidates?
pub fn is_bivalue(board: &Board, idx: usize) -> (two: bool)
    requires
        board.wf(),
        idx < 81,
    ensures
        two == bivalue(board@, idx as int),
{
    assert(board@[idx as int].wf());
    match board.cell(idx) {
        Cell::Placed(_) => false,
        Cell::Open(c) => c.count() == 2,
    }
}

/// Have the two cells exactly one candidate in common?
pub fn is_linked(board: &Board, i: usize, j: usize) -> (one: bool)
    requires
        board.wf(),
        i < 81,
        j < 81,
    ensures
        one == linked(board@, i as int, j as int),
{
    assert(board@[i as int].wf());
    assert(board@[j as int].wf());
    let a = board.pencilmarks(i);
    let b = board.pencilmarks(j);
    a.intersection(&b).count() == 1
}

/// The lowest place to which the chain may go on, or 9 if there is none.
pub fn follower(board: &Board, bx: &SudokuBox, used: &[bool; 9], chain: &Chain) -> (q: usize)
    requires
        board.wf(),
        bx.wf(),
        chain.wf(),
    ensures
        q == follower_from(board@, bx.id(), used@, chain@, 0),
        q <= 9,
{
    let ghost g = board@;
    let ghost b = bx.id();
    proof {
        bx.lemma_id();
        lemma_block_cell(b, chain.last as int);
    }
    let inds = bx.inds();
    let mut q: usize = 0;
    let mut found: usize = 9;
    while q < 9 && found == 9
        invariant
            q <= 9,
            found <= 9,
            chain.wf(),
            board.wf(),
            g == board@,
            0 <= b < 9,
            forall|p: int| 0 <= p < 9 ==> #[trigger] inds[p] == block_cell(b, p),
            found == 9 ==> follower_from(g, b, used@, chain@, 0) == follower_from(
                g,
                b,
                used@,
                chain@,
                q as int,
            ),
            found < 9 ==> follower_from(g, b, used@, chain@, 0) == found,
        decreases 9 - q + found,
    {
        proof {
            lemma_block_cell(b, q as int);
            assert(inds[q as int] == block_cell(b, q as int));
            assert(inds[chain.last as int] == block_cell(b, chain.last as int));
        }
        if !used[q] && !chain.on_chain[q] && is_bivalue(board, inds[q]) && is_linked(
            board,
            inds[chain.last],
            inds[q],
        ) {
            found = q;
        } else {
            q = q + 1;
        }
    }
    found
}

/// The walk from place `s`, brought to its end. It goes on, always to the
/// lowest place that it may go on to, until it has come back to its start or
/// can go on nowhere.
pub fn walk(board: &Board, bx: &SudokuBox, used: &[bool; 9], s: usize) -> (chain: Chain)
    requires
        board.wf(),
        bx.wf(),
        s < 9,
    ensures
        chain@ == walk_from(board@, bx.id(), used@, s as int),
        chain.wf(),
{
    let ghost g = board@;
    let ghost b = bx.id();
    proof {
        bx.lemma_id();
        lemma_block_cell(b, s as int);
    }
    let inds = bx.inds();
    assert(inds[s as int] == block_cell(b, s as int));
    assert(g[block_cell(b, s as int)].wf());
    let mut on_chain: [bool; 9] = [false; 9];
    on_chain[s] = true;
    let mut chain = Chain { on_chain, len: 1, last: s, seen: board.pencilmarks(inds[s]) };
    assert(chain@.on_chain =~= walk_start(g, b, s as int).on_chain);
    let mut going = true;
    while going
        invariant
            board.wf(),
            bx.wf(),
            g == board@,
            b == bx.id(),
            0 <= b < 9,
            s < 9,
            chain.wf(),
            1 <= chain.len,
            forall|p: int| 0 <= p < 9 ==> #[trigger] inds[p] == block_cell(b, p),
            going ==> walk_from(g, b, used@, s as int) == walk_on(g, b, used@, s as int, chain@),
            !going ==> walk_from(g, b, used@, s as int) == chain@,
        decreases 9 - chain.len, if going { 1int } else { 0int },
    {
        proof {
            lemma_block_cell(b, s as int);
            lemma_block_cell(b, chain.last as int);
            assert(inds[s as int] == block_cell(b, s as int));
            assert(inds[chain.last as int] == block_cell(b, chain.last as int));
        }
        if chain.len >= 9 || (chain.len >= 3 && is_linked(board, inds[s], inds[chain.last])) {
            going = false;
        } else {
            let q = follower(board, bx, used, &chain);
            if q >= 9 {
                going = false;
            } else {
                proof {
                    lemma_block_cell(b, q as int);
                    assert(inds[q as int] == block_cell(b, q as int));
                    assert(g[block_cell(b, q as int)].wf());
                }
                let ghost before = chain@;
                let marks = board.pencilmarks(inds[q]);
                chain.on_chain[q] = true;
                chain.len = chain.len + 1;
                chain.last = q;
                chain.seen = chain.seen.union(&marks);
                assert(chain@ == walk_step(g, b, before, q as int));
            }
        }
    }
    chain
}

/// Has the chain, which started at place `s`, come back to its start?
pub fn is_closed(board: &Board, bx: &SudokuBox, s: usize, chain: &Chain) -> (closed: bool)
    requires
        board.wf(),
        bx.wf(),
        s < 9,
        chain.wf(),
    ensures
        closed == walk_closed(board@, bx.id(), s as int, chain@),
{
    let ghost b = bx.id();
    proof {
        bx.lemma_id();
        lemma_block_cell(b, s as int);
        lemma_block_cell(b, chain.last as int);
    }
    let inds = bx.inds();
    assert(inds[s as int] == block_cell(b, s as int));
    assert(inds[chain.last as int] == block_cell(b, chain.last as int));
    chain.len >= 3 && is_linked(board, inds[s], inds[chain.last])
}

/// Cycle elimination over the two-candidate cells of the block. Walks are
/// tried from each cell in ascending order. A walk starts at a cell with
/// exactly two candidates that no cycle has used up. It goes on to the lowest
/// cell that has exactly two candidates, is not used up, is not on the walk
/// yet, and shares exactly one candidate with the cell that the walk has
/// reached. It has come back, and is a cycle, when it has three cells or more
/// and the cell that it has reached shares exactly one candidate with the
/// cell at which it started. The candidates of the cells of a cycle are
/// struck from every cell of the block that is not on the cycle, and its
/// cells are used up. A walk that can go on nowhere strikes nothing.
pub fn resolve_cycle_pencilmarks(board: Board, current_box: &SudokuBox) -> (next: Board)
    requires
        board.wf(),
        current_box.wf(),
    ensures
        next@ == cycle_grid(board@, current_box.id()),
        next.wf(),
        refines(board@, next@),
        same_outside_block(board@, next@, current_box.id()),
{
    let ghost g = board@;
    let ghost b = current_box.id();
    proof {
        current_box.lemma_id();
    }
    let inds = current_box.inds();
    let mut already_visited: [bool; 9] = [false; 9];
    let none = Chain { on_chain: [false; 9], len: 0, last: 0, seen: CandidateSet::empty() };
    let mut cycles: [Chain; 9] = [none; 9];
    let mut closed: [bool; 9] = [false; 9];
    let mut s: usize = 0;
    assert(already_visited@ =~= used_before(g, b, 0));
    while s < 9
        invariant
            s <= 9,
            board.wf(),
            current_box.wf(),
            g == board@,
            b == current_box.id(),
            0 <= b < 9,
            forall|q: int| 0 <= q < 9 ==> #[trigger] inds[q] == block_cell(b, q),
            already_visited@ == used_before(g, b, s as int),
            forall|t: int| 0 <= t < s ==> (#[trigger] closed[t]) == cycle_at(g, b, t),
            forall|t: int| s <= t < 9 ==> !(#[trigger] closed[t]),
            forall|t: int| 0 <= t < s && closed[t] ==> (#[trigger] cycles[t])@ == cycle_walk(g, b, t),
            forall|t: int| 0 <= t < 9 ==> (#[trigger] cycles[t]).wf(),
        decreases 9 - s,
    {
        let ghost used = already_visited@;
        proof {
            lemma_block_cell(b, s as int);
            assert(inds[s as int] == block_cell(b, s as int));
        }
        if !already_visited[s] && is_bivalue(&board, inds[s]) {
            let chain = walk(&board, current_box, &already_visited, s);
            if is_closed(&board, current_box, s, &chain) {
                let mut q: usize = 0;
                while q < 9
                    invariant
                        q <= 9,
                        used.len() == 9,
                        forall|p: int|
                            0 <= p < q ==> #[trigger] already_visited@[p] == (used[p]
                                || chain@.on_chain[p]),
                        forall|p: int| q <= p < 9 ==> #[trigger] already_visited@[p] == used[p],
                    decreases 9 - q,
                {
                    if chain.has_cell(q) {
                        already_visited[q] = true;
                    }
                    q = q + 1;
                }
                cycles[s] = chain;
                closed[s] = true;
                assert(already_visited@ =~= used_after(g, b, used, s as int));
            }
        }
        s = s + 1;
    }
    let mut strikes: [CandidateSet; 9] = [CandidateSet::empty(); 9];
    let mut p: usize = 0;
    while p < 9
        invariant
            p <= 9,
            0 <= b < 9,
            forall|t: int| 0 <= t < 9 ==> (#[trigger] closed[t]) == cycle_at(g, b, t),
            forall|t: int| 0 <= t < 9 && closed[t] ==> (#[trigger] cycles[t])@ == cycle_walk(g, b, t),
            forall|t: int| 0 <= t < 9 ==> (#[trigger] cycles[t]).wf(),
            forall|q: int, d: u8|
                0 <= q < p ==> (#[trigger] strikes[q].has(d)) == cycle_struck(g, b)(
                    block_cell(b, q),
                    d,
                ),
        decreases 9 - p,
    {
        let ghost i = block_cell(b, p as int);
        proof {
            lemma_block_cell(b, p as int);
        }
        let mut acc = CandidateSet::empty();
        let mut s: usize = 0;
        while s < 9
            invariant
                s <= 9,
                p < 9,
                0 <= b < 9,
                i == block_cell(b, p as int),
                place_in_block(i) == p,
                acc.wf(),
                forall|t: int| 0 <= t < 9 ==> (#[trigger] closed[t]) == cycle_at(g, b, t),
                forall|t: int|
                    0 <= t < 9 && closed[t] ==> (#[trigger] cycles[t])@ == cycle_walk(g, b, t),
                forall|t: int| 0 <= t < 9 ==> (#[trigger] cycles[t]).wf(),
                forall|d: u8|
                    acc.has(d) == exists|t: int| 0 <= t < s && #[trigger] cycle_strike(g, b, t, i, d),
            decreases 9 - s,
        {
            let ghost before = acc;
            proof {
                assert(closed[s as int] == cycle_at(g, b, s as int));
                assert(cycles[s as int].wf());
            }
            if closed[s] && !cycles[s].has_cell(p) {
                let seen = cycles[s].seen();
                acc = acc.union(&seen);
            }
            proof {
                assert forall|d: u8|
                    acc.has(d) == exists|t: int|
                        0 <= t < s + 1 && #[trigger] cycle_strike(g, b, t, i, d) by {
                    if before.has(d) {
                        let t = choose|t: int| 0 <= t < s && #[trigger] cycle_strike(g, b, t, i, d);
                        assert(cycle_strike(g, b, t, i, d));
                    }
                    if cycle_strike(g, b, s as int, i, d) {
                        assert(acc.has(d));
                    }
                    if exists|t: int| 0 <= t < s + 1 && #[trigger] cycle_strike(g, b, t, i, d) {
                        let t = choose|t: int|
                            0 <= t < s + 1 && #[trigger] cycle_strike(g, b, t, i, d);
                        if t < s {
                            assert(before.has(d));
                        }
                    }
                }
            }
            s = s + 1;
        }
        strikes[p] = acc;
        p = p + 1;
    }
    strike_block(&board, current_box, &strikes, Ghost(cycle_struck(g, b)))
}

} // verus!
