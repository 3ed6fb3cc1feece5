//! Two puzzles to try the solver on.

use std::collections::HashMap;
use vstd::prelude::*;

verus! {

broadcast use vstd::std_specs::hash::group_hash_axioms;

/// A given is usable: its cell is on the grid and its digit between 1 and 9.
pub open spec fn usable(given: (usize, u8)) -> bool {
    given.0 < 81 && 1 <= given.1 <= 9
}

/// The first `n` givens of a list as a map from cell to digit. A given that
/// is not usable is left out, and of two givens for one cell the later
/// counts.
pub open spec fn givens_upto(givens: Seq<(usize, u8)>, n: nat) -> Map<usize, u8>
    decreases n,
{
    if n == 0 {
        Map::empty()
    } else if usable(givens[n - 1]) {
        givens_upto(givens, (n - 1) as nat).insert(givens[n - 1].0, givens[n - 1].1)
    } else {
        givens_upto(givens, (n - 1) as nat)
    }
}

/// Every entry of the map of a list of givens is usable.
pub proof fn lemma_givens_upto(givens: Seq<(usize, u8)>, n: nat)
    ensures
        forall|k: usize| #[trigger]
            givens_upto(givens, n).contains_key(k) ==> k < 81 && 1 <= givens_upto(givens, n)[k]
                <= 9,
    decreases n,
{
    if n > 0 {
        lemma_givens_upto(givens, (n - 1) as nat);
        let before = givens_upto(givens, (n - 1) as nat);
        let after = givens_upto(givens, n);
        assert forall|k: usize| #[trigger] after.contains_key(k) implies k < 81 && 1 <= after[k]
            <= 9 by {
            if usable(givens[n - 1]) && k == givens[n - 1].0 {
            } else {
                assert(before.contains_key(k));
                assert(after[k] == before[k]);
            }
        }
    }
}

/// The givens of a list as a map from cell to digit.
pub fn givens_map(givens: &Vec<(usize, u8)>) -> (board_map: HashMap<usize, u8>)
    ensures
        board_map@ == givens_upto(givens@, givens@.len()),
        forall|k: usize| #[trigger]
            board_map@.contains_key(k) ==> k < 81 && 1 <= board_map@[k] <= 9,
{
    let mut board_map = HashMap::<usize, u8>::new();
    let mut i: usize = 0;
    while i < givens.len()
        invariant
            i <= givens.len(),
            board_map@ == givens_upto(givens@, i as nat),
        decreases givens.len() - i,
    {
        let (j, k) = givens[i];
        if j < 81 && 1 <= k && k <= 9 {
            board_map.insert(j, k);
        }
        i = i + 1;
    }
    proof {
        lemma_givens_upto(givens@, givens@.len());
    }
    board_map
}

/// The givens of an easy puzzle, cell and digit.
pub open spec fn nyt_easy_givens() -> Seq<(usize, u8)> {
    seq![
        (0, 4), (1, 8), (3, 1), (6, 6), (8, 9), (11, 7), (13, 8), (15, 1), (17, 5), (18, 5),
        (20, 6), (22, 4), (23, 7), (24, 2), (29, 8), (32, 1), (36, 6), (38, 2), (39, 8),
        (40, 7), (41, 3), (42, 5), (45, 7), (49, 6), (51, 9), (53, 3), (55, 7), (56, 4),
        (57, 6), (59, 8), (61, 9), (63, 8), (64, 6), (66, 7), (68, 2), (73, 3), (79, 6),
        (80, 7),
    ]
}

/// The givens of a hard puzzle, cell and digit.
pub open spec fn nyt_hard_givens() -> Seq<(usize, u8)> {
    seq![
        (14, 1), (15, 2), (16, 6), (17, 9), (18, 2), (22, 5), (26, 1), (31, 8), (32, 6),
        (33, 9), (37, 5), (40, 4), (41, 9), (52, 7), (55, 3), (56, 8), (58, 7), (60, 6),
        (65, 5), (70, 9), (71, 7), (73, 9), (77, 5), (80, 4),
    ]
}

/// The 38 givens of an easy puzzle, which the simple pass solves.
pub fn nyt_easy_vec() -> (givens: Vec<(usize, u8)>)
    ensures
        givens@ == nyt_easy_givens(),
{
    let givens: Vec<(usize, u8)> = vec![
        (0, 4), (1, 8), (3, 1), (6, 6), (8, 9), (11, 7), (13, 8), (15, 1), (17, 5), (18, 5),
        (20, 6), (22, 4), (23, 7), (24, 2), (29, 8), (32, 1), (36, 6), (38, 2), (39, 8),
        (40, 7), (41, 3), (42, 5), (45, 7), (49, 6), (51, 9), (53, 3), (55, 7), (56, 4),
        (57, 6), (59, 8), (61, 9), (63, 8), (64, 6), (66, 7), (68, 2), (73, 3), (79, 6),
        (80, 7),
    ];
    assert(givens@ =~= nyt_easy_givens());
    givens
}

/// The givens of the easy puzzle as a map from cell to digit.
pub fn nyt_easy_map() -> (board_map: HashMap<usize, u8>)
    ensures
        board_map@ == givens_upto(nyt_easy_givens(), nyt_easy_givens().len()),
        forall|k: usize| #[trigger]
            board_map@.contains_key(k) ==> k < 81 && 1 <= board_map@[k] <= 9,
{
    let vec = nyt_easy_vec();
    givens_map(&vec)
}

/// The 24 givens of a hard puzzle, which the techniques here do not solve.
pub fn nyt_hard_vec() -> (givens: Vec<(usize, u8)>)
    ensures
        givens@ == nyt_hard_givens(),
{
    let givens: Vec<(usize, u8)> = vec![
        (14, 1), (15, 2), (16, 6), (17, 9), (18, 2), (22, 5), (26, 1), (31, 8), (32, 6),
        (33, 9), (37, 5), (40, 4), (41, 9), (52, 7), (55, 3), (56, 8), (58, 7), (60, 6),
        (65, 5), (70, 9), (71, 7), (73, 9), (77, 5), (80, 4),
    ];
    assert(givens@ =~= nyt_hard_givens());
    givens
}

/// The givens of the hard puzzle as a map from cell to digit.
pub fn nyt_hard_map() -> (board_map: HashMap<usize, u8>)
    ensures
        board_map@ == givens_upto(nyt_hard_givens(), nyt_hard_givens().len()),
        forall|k: usize| #[trigger]
            board_map@.contains_key(k) ==> k < 81 && 1 <= board_map@[k] <= 9,
{
    let vec = nyt_hard_vec();
    givens_map(&vec)
}

} // verus!
