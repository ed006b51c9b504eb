pub mod dictionary;
pub mod grid;
pub mod index;
pub mod planner;
pub mod solver;

use vstd::prelude::*;

verus! {

/// A crossword solver bound to one dictionary: build it once from the raw
/// word list, then solve any number of grid topologies against it.
pub struct Solver {
    /// The word list, bucketed by length.
    pub dict: dictionary::Dictionary,
}

impl Solver {
    /// Builds the solver's dictionary from the raw word list.
    pub fn new(words: Vec<String>) -> (s: Solver)
        ensures
            s.dict.wf(),
            forall|l: int|
                0 <= l ==> s.dict.bucket_view(l) == dictionary::bucket_spec(
                    words.deep_view(),
                    l,
                    words.deep_view().len() as int,
                ),
    {
        Solver { dict: dictionary::Dictionary::from_vec(words) }
    }

    /// Builds the grid from the raw topology and runs the parallel search:
    /// one character per slot on success, `None` when no fill exists.
    pub fn solve(&self, slot_words: Vec<Vec<usize>>) -> (r: Option<Vec<char>>)
        requires
            self.dict.wf(),
            forall|w: int, p: int|
                0 <= w < slot_words.deep_view().len() && 0 <= p < slot_words.deep_view()[w].len()
                    ==> slot_words.deep_view()[w][p] < usize::MAX,
        ensures
            r matches Some(v) ==> solver::valid_solution(slot_words.deep_view(), self.dict, v@),
            // the result has one character per slot: every referenced slot id
            // is below its length, which is the least such bound
            r matches Some(v) ==> (forall|w: int, p: int|
                0 <= w < slot_words.deep_view().len() && 0 <= p < slot_words.deep_view()[w].len()
                    ==> slot_words.deep_view()[w][p] < v@.len()),
            r matches Some(v) ==> (v@.len() == 0 || exists|w: int, p: int|
                0 <= w < slot_words.deep_view().len() && 0 <= p < slot_words.deep_view()[w].len()
                    && slot_words.deep_view()[w][p] == v@.len() - 1),
            !(forall|w: int|
                0 <= w < slot_words.deep_view().len() ==> self.dict.bucket_view(
                    (#[trigger] slot_words.deep_view()[w]).len() as int,
                ).len() > 0) ==> r is None,
            (planner::no_dup_words(slot_words.deep_view()) && (exists|v: Seq<char>|
                solver::valid_solution_global(slot_words.deep_view(), self.dict, v))) ==> r is Some,
            r matches Some(v) ==> (forall|s: int|
                0 <= s < v@.len() && solver::slot_unreferenced(slot_words.deep_view(), s)
                    ==> v@[s] == ' '),
    {
        let grid = grid::Grid::new(slot_words);
        solver::solve(&grid, &self.dict)
    }
}

} // verus!
