use crate::dictionary::Dictionary;
use crate::grid::Grid;
use crate::index::lemma_query_spec_sound;
use crate::index::query_spec;
use crate::planner::SolverStep;
use crate::planner::generate_solver_steps;
use crate::planner::inputs_resolved;
use crate::planner::no_dup_words;
use crate::planner::outputs_distinct;
use crate::planner::plan_wf;
use crate::planner::scheduled;
use crate::planner::step_wf;
use rayon::iter::IntoParallelIterator;
use rayon::iter::ParallelIterator;
use vstd::prelude::*;

verus! {

/// The scratch state of one search branch: one character per slot (blank by
/// default) and, per step, the bucket position the step chose (for the
/// no-repeated-word rule).
pub struct SolverState {
    /// One character per slot of the grid.
    pub result: Vec<char>,
    /// For each step, the chosen bucket position.
    pub words: Vec<usize>,
}

impl SolverState {
    /// Fresh scratch state for one solve attempt over `grid`.
    pub fn new(grid: &Grid) -> (st: SolverState)
        ensures
            st.result@.len() == grid.slots,
            forall|s: int| 0 <= s < grid.slots ==> st.result@[s] == ' ',
            st.words@.len() == grid.words_view().len(),
            forall|j: int| 0 <= j < st.words@.len() ==> st.words@[j] == 0,
    {
        let result = vec![' '; grid.slots];
        let words = vec![0; grid.num_words()];
        SolverState { result, words }
    }
}

/// The bounds the search needs of a step: slot references fit the state, and
/// every index entry is aligned with the step's input and output slots.
pub open spec fn step_exec_wf(step: SolverStep, slots: int) -> bool {
    &&& forall|a: int| 0 <= a < step.input_slots@.len() ==> step.input_slots@[a] < slots
    &&& forall|a: int| 0 <= a < step.output_slots@.len() ==> step.output_slots@[a] < slots
    &&& forall|i: int|
        0 <= i < step.index.entries_view().len()
            ==> (#[trigger] step.index.entries_view()[i]).0.len() == step.input_slots@.len()
                && step.index.entries_view()[i].1.len() == step.output_slots@.len()
}

/// Every step is in bounds for a state with `slots` slots.
pub open spec fn steps_exec_wf(steps: Seq<SolverStep>, slots: int) -> bool {
    forall|k: int| 0 <= k < steps.len() ==> step_exec_wf(#[trigger] steps[k], slots)
}

/// The ordering guarantees the search's correctness rests on: no slot is
/// written by two steps, and every slot a step reads was written earlier.
pub open spec fn steps_strong(steps: Seq<SolverStep>) -> bool {
    outputs_distinct(steps) && inputs_resolved(steps)
}

/// Step `k` is satisfied: its chosen bucket position is in range and the
/// state's letters at its input and output slots equal that entry's letters.
pub open spec fn step_ok(
    steps: Seq<SolverStep>,
    result: Seq<char>,
    picks: Seq<usize>,
    k: int,
) -> bool {
    let st = steps[k];
    let pick = picks[k] as int;
    &&& 0 <= pick < st.index.entries_view().len()
    &&& forall|a: int|
        0 <= a < st.input_slots@.len() ==> result[st.input_slots@[a] as int]
            == st.index.entries_view()[pick].0[a]
    &&& forall|a: int|
        0 <= a < st.output_slots@.len() ==> result[st.output_slots@[a] as int]
            == st.index.entries_view()[pick].1[a]
}

/// Slot `s` is written by some step at or after `from`.
pub open spec fn later_output(steps: Seq<SolverStep>, from: int, s: int) -> bool {
    exists|k: int, a: int|
        from <= k < steps.len() && 0 <= a < steps[k].output_slots@.len()
            && steps[k].output_slots@[a] == s
}

/// No bucket position is chosen twice among the first `upto` steps.
pub open spec fn picks_distinct(picks: Seq<usize>, upto: int) -> bool {
    forall|j1: int, j2: int| 0 <= j1 < j2 < upto ==> picks[j1] != picks[j2]
}

/// `entry` is spelled by `result` at word `w`'s slots, in word order.
pub open spec fn word_spelled(
    words: Seq<Seq<usize>>,
    result: Seq<char>,
    w: int,
    entry: Seq<char>,
) -> bool {
    &&& entry.len() == words[w].len()
    &&& forall|p: int| 0 <= p < words[w].len() ==> result[words[w][p] as int] == entry[p]
}

/// `picks` witnesses that `result` solves the topology: every word spells the
/// bucket entry at its pick, and no two words of one length share a pick.
pub open spec fn valid_picks(
    words: Seq<Seq<usize>>,
    dict: Dictionary,
    result: Seq<char>,
    picks: Seq<usize>,
) -> bool {
    &&& picks.len() == words.len()
    &&& forall|w: int|
        0 <= w < words.len() ==> (picks[w] as int) < dict.bucket_view(
            (#[trigger] words[w]).len() as int,
        ).len() && word_spelled(
            words,
            result,
            w,
            dict.bucket_view(words[w].len() as int)[picks[w] as int],
        )
    &&& forall|w1: int, w2: int|
        0 <= w1 < w2 < words.len() && (#[trigger] words[w1]).len() == (
        #[trigger] words[w2]).len() ==> picks[w1] != picks[w2]
}

/// `result` is a full, correct fill: every word of the topology spells a
/// dictionary entry of its length, and no two words of one length reference
/// the same bucket position.
pub open spec fn valid_solution(words: Seq<Seq<usize>>, dict: Dictionary, result: Seq<char>) -> bool {
    exists|picks: Seq<usize>| valid_picks(words, dict, result, picks)
}

/// Like `valid_picks`, but no bucket position is reused at all, across length
/// buckets: the uniqueness rule the search engine actually enforces.
pub open spec fn valid_picks_global(
    words: Seq<Seq<usize>>,
    dict: Dictionary,
    result: Seq<char>,
    picks: Seq<usize>,
) -> bool {
    &&& picks.len() == words.len()
    &&& forall|w: int|
        0 <= w < words.len() ==> (picks[w] as int) < dict.bucket_view(
            (#[trigger] words[w]).len() as int,
        ).len() && word_spelled(
            words,
            result,
            w,
            dict.bucket_view(words[w].len() as int)[picks[w] as int],
        )
    &&& forall|w1: int, w2: int| 0 <= w1 < w2 < words.len() ==> picks[w1] != picks[w2]
}

/// A fill whose words use pairwise distinct bucket positions, across length
/// buckets. Every such fill is a valid solution; the search engine is
/// complete exactly for this class.
pub open spec fn valid_solution_global(
    words: Seq<Seq<usize>>,
    dict: Dictionary,
    result: Seq<char>,
) -> bool {
    exists|picks: Seq<usize>| valid_picks_global(words, dict, result, picks)
}

/// No word of the topology references slot `s`.
pub open spec fn slot_unreferenced(words: Seq<Seq<usize>>, s: int) -> bool {
    forall|w: int, p: int| 0 <= w < words.len() && 0 <= p < words[w].len() ==> words[w][p] != s
}

/// The letters a state holds at a step's input slots, in order: the step's
/// query key.
pub open spec fn key_of(result: Seq<char>, st: SolverStep) -> Seq<char> {
    st.input_slots@.map_values(|s: usize| result[s as int])
}

/// The matches the step's index yields for the state's current key.
pub open spec fn cands_of(result: Seq<char>, st: SolverStep) -> Seq<(usize, Seq<char>)> {
    query_spec(st.index.entries_view(), key_of(result, st), st.index.entries_view().len() as int)
}

/// `result` updated at `slots[..n]` with `vals[..n]`, in order.
pub open spec fn write_seq(result: Seq<char>, slots: Seq<usize>, vals: Seq<char>, n: int) -> Seq<
    char,
>
    decreases n,
{
    if n <= 0 {
        result
    } else {
        write_seq(result, slots, vals, n - 1).update(slots[n - 1] as int, vals[n - 1])
    }
}

/// Some assignment of bucket positions to the remaining steps completes the
/// state: each step finds a match for the letters then at its input slots
/// whose bucket position repeats no earlier pick. This is exactly the search
/// space the backtracking engine explores.
pub open spec fn extendable(
    steps: Seq<SolverStep>,
    result: Seq<char>,
    words: Seq<usize>,
    step: int,
) -> bool
    decreases steps.len() - step,
{
    if step >= steps.len() {
        true
    } else {
        exists|ci: int|
            #![trigger cands_of(result, steps[step])[ci]]
            {
                let st = steps[step];
                let cands = cands_of(result, st);
                &&& 0 <= ci < cands.len()
                &&& !(exists|j: int| 0 <= j < step && words[j] == cands[ci].0)
                &&& extendable(
                    steps,
                    write_seq(result, st.output_slots@, cands[ci].1, st.output_slots@.len() as int),
                    words.update(step, cands[ci].0),
                    step + 1,
                )
            }
    }
}

/// Candidate `ci` of the step's matches completes the state: its bucket
/// position repeats no earlier pick, and after writing its letters the
/// remaining steps can still be completed.
pub open spec fn viable(
    steps: Seq<SolverStep>,
    result: Seq<char>,
    words: Seq<usize>,
    step: int,
    ci: int,
) -> bool {
    let st = steps[step];
    let cands = cands_of(result, st);
    &&& 0 <= ci < cands.len()
    &&& !(exists|j: int| 0 <= j < step && words[j] == cands[ci].0)
    &&& extendable(
        steps,
        write_seq(result, st.output_slots@, cands[ci].1, st.output_slots@.len() as int),
        words.update(step, cands[ci].0),
        step + 1,
    )
}

/// A fresh search state: every slot blank.
pub open spec fn blank_result(slots: int) -> Seq<char> {
    Seq::new(slots as nat, |x: int| ' ')
}

/// A fresh pick list: every step's chosen bucket position zeroed.
pub open spec fn zero_picks(n: int) -> Seq<usize> {
    Seq::new(n as nat, |x: int| 0usize)
}

/// The state one parallel worker starts from: candidate `i`'s letters written
/// over a blank state at the first step's output slots.
pub open spec fn seeded_result(st0: SolverStep, slots: int, i: int) -> Seq<char> {
    write_seq(
        blank_result(slots),
        st0.output_slots@,
        st0.index.entries_view()[i].1,
        st0.output_slots@.len() as int,
    )
}

/// The pick list one parallel worker starts from: candidate `i` recorded for
/// the first step.
pub open spec fn seeded_picks(n: int, i: usize) -> Seq<usize> {
    zero_picks(n).update(0, i)
}

/// One unfolding of `extendable` below the terminal step.
proof fn lemma_extendable_unfold(
    steps: Seq<SolverStep>,
    result: Seq<char>,
    words: Seq<usize>,
    k: int,
)
    requires
        0 <= k < steps.len(),
    ensures
        extendable(steps, result, words, k) == (exists|ci: int|
            viable(steps, result, words, k, ci)),
{
    if extendable(steps, result, words, k) {
        let ci = choose|ci: int|
            #![trigger cands_of(result, steps[k])[ci]]
            {
                let st = steps[k];
                let cands = cands_of(result, st);
                &&& 0 <= ci < cands.len()
                &&& !(exists|j: int| 0 <= j < k && words[j] == cands[ci].0)
                &&& extendable(
                    steps,
                    write_seq(result, st.output_slots@, cands[ci].1, st.output_slots@.len() as int),
                    words.update(k, cands[ci].0),
                    k + 1,
                )
            };
        assert(viable(steps, result, words, k, ci));
    }
    if exists|ci: int| viable(steps, result, words, k, ci) {
        let ci = choose|ci: int| viable(steps, result, words, k, ci);
        let st = steps[k];
        let cands = cands_of(result, st);
        assert(extendable(steps, result, words, k)) by {
            assert({
                &&& 0 <= ci < cands.len()
                &&& !(exists|j: int| 0 <= j < k && words[j] == cands[ci].0)
                &&& extendable(
                    steps,
                    write_seq(result, st.output_slots@, cands[ci].1, st.output_slots@.len() as int),
                    words.update(k, cands[ci].0),
                    k + 1,
                )
            });
        };
    }
}

proof fn lemma_write_seq_len(result: Seq<char>, slots: Seq<usize>, vals: Seq<char>, n: int)
    requires
        0 <= n <= slots.len(),
        forall|a: int| 0 <= a < n ==> slots[a] < result.len(),
    ensures
        write_seq(result, slots, vals, n).len() == result.len(),
    decreases n,
{
    if n > 0 {
        lemma_write_seq_len(result, slots, vals, n - 1);
    }
}

proof fn lemma_write_seq_other(
    result: Seq<char>,
    slots: Seq<usize>,
    vals: Seq<char>,
    n: int,
    s: int,
)
    requires
        0 <= n <= slots.len(),
        forall|a: int| 0 <= a < n ==> slots[a] < result.len(),
        forall|a: int| 0 <= a < n ==> slots[a] as int != s,
        0 <= s < result.len(),
    ensures
        write_seq(result, slots, vals, n)[s] == result[s],
    decreases n,
{
    if n > 0 {
        lemma_write_seq_other(result, slots, vals, n - 1, s);
        lemma_write_seq_len(result, slots, vals, n - 1);
    }
}

proof fn lemma_write_seq_at(result: Seq<char>, slots: Seq<usize>, vals: Seq<char>, n: int, a: int)
    requires
        0 <= a < n <= slots.len(),
        forall|b: int| 0 <= b < n ==> slots[b] < result.len(),
        forall|b1: int, b2: int| 0 <= b1 < b2 < n ==> slots[b1] != slots[b2],
    ensures
        write_seq(result, slots, vals, n)[slots[a] as int] == vals[a],
    decreases n,
{
    lemma_write_seq_len(result, slots, vals, n - 1);
    if a < n - 1 {
        lemma_write_seq_at(result, slots, vals, n - 1, a);
        assert(slots[n - 1] != slots[a]);
    }
}

/// Whether a state can be completed depends only on the letters at the slots
/// that the earlier steps write and on the earlier picks: every key read from
/// step `k` on comes from those slots or from this search's own later writes.
proof fn lemma_extendable_frame(
    steps: Seq<SolverStep>,
    r1: Seq<char>,
    w1: Seq<usize>,
    r2: Seq<char>,
    w2: Seq<usize>,
    k: int,
)
    requires
        outputs_distinct(steps),
        inputs_resolved(steps),
        steps_exec_wf(steps, r1.len() as int),
        r1.len() == r2.len(),
        0 <= k,
        steps.len() <= w1.len(),
        forall|j: int, a: int|
            0 <= j < k && 0 <= a < steps[j].output_slots@.len()
                ==> r1[#[trigger] steps[j].output_slots@[a] as int]
                    == r2[steps[j].output_slots@[a] as int],
        w1.len() == w2.len(),
        forall|j: int| 0 <= j < k ==> w1[j] == w2[j],
    ensures
        extendable(steps, r1, w1, k) == extendable(steps, r2, w2, k),
    decreases steps.len() - k,
{
    if k < steps.len() {
        let st = steps[k];
        assert(step_exec_wf(st, r1.len() as int));
        assert(key_of(r1, st) =~= key_of(r2, st)) by {
            assert forall|t: int| 0 <= t < st.input_slots@.len() implies
                r1[st.input_slots@[t] as int] == r2[st.input_slots@[t] as int] by {
                let islot = st.input_slots@[t];
                assert(crate::planner::has_output(steps, k, islot));
                let (j, a): (int, int) = choose|j: int, a: int|
                    0 <= j < k && 0 <= a < steps[j].output_slots@.len()
                        && steps[j].output_slots@[a] == islot;
                assert(r1[steps[j].output_slots@[a] as int]
                    == r2[steps[j].output_slots@[a] as int]);
            };
        };
        let cands = cands_of(r1, st);
        assert(cands_of(r2, st) == cands);
        assert forall|ci: int| #[trigger] viable(steps, r1, w1, k, ci) == viable(
            steps,
            r2,
            w2,
            k,
            ci,
        ) by {
            let pos = cands[ci].0;
            let unk = cands[ci].1;
            assert((exists|j: int| 0 <= j < k && w1[j] == pos) == (exists|j: int|
                0 <= j < k && w2[j] == pos)) by {
                if exists|j: int| 0 <= j < k && w1[j] == pos {
                    let j = choose|j: int| 0 <= j < k && w1[j] == pos;
                    assert(w2[j] == pos);
                }
                if exists|j: int| 0 <= j < k && w2[j] == pos {
                    let j = choose|j: int| 0 <= j < k && w2[j] == pos;
                    assert(w1[j] == pos);
                }
            };
            let n = st.output_slots@.len() as int;
            let r1n = write_seq(r1, st.output_slots@, unk, n);
            let r2n = write_seq(r2, st.output_slots@, unk, n);
            assert forall|b1: int, b2: int| 0 <= b1 < b2 < n implies st.output_slots@[b1]
                != st.output_slots@[b2] by {
                assert(steps[k].output_slots@[b1] != steps[k].output_slots@[b2]);
            };
            lemma_write_seq_len(r1, st.output_slots@, unk, n);
            lemma_write_seq_len(r2, st.output_slots@, unk, n);
            assert forall|j: int, a: int|
                0 <= j < k + 1 && 0 <= a < steps[j].output_slots@.len() implies
                r1n[#[trigger] steps[j].output_slots@[a] as int]
                    == r2n[steps[j].output_slots@[a] as int] by {
                let oslot = steps[j].output_slots@[a];
                if j < k {
                    assert forall|b: int| 0 <= b < n implies st.output_slots@[b] as int
                        != oslot as int by {
                        assert(steps[k].output_slots@[b] != steps[j].output_slots@[a]);
                    };
                    lemma_write_seq_other(r1, st.output_slots@, unk, n, oslot as int);
                    lemma_write_seq_other(r2, st.output_slots@, unk, n, oslot as int);
                } else {
                    lemma_write_seq_at(r1, st.output_slots@, unk, n, a);
                    lemma_write_seq_at(r2, st.output_slots@, unk, n, a);
                }
            };
            lemma_extendable_frame(steps, r1n, w1.update(k, pos), r2n, w2.update(k, pos), k + 1);
        };
        lemma_extendable_unfold(steps, r1, w1, k);
        lemma_extendable_unfold(steps, r2, w2, k);
        assert(extendable(steps, r1, w1, k) == extendable(steps, r2, w2, k)) by {
            if exists|ci: int| viable(steps, r1, w1, k, ci) {
                let ci = choose|ci: int| viable(steps, r1, w1, k, ci);
                assert(viable(steps, r1, w1, k, ci) == viable(steps, r2, w2, k, ci));
                assert(viable(steps, r2, w2, k, ci));
            }
            if exists|ci: int| viable(steps, r2, w2, k, ci) {
                let ci = choose|ci: int| viable(steps, r2, w2, k, ci);
                assert(viable(steps, r1, w1, k, ci) == viable(steps, r2, w2, k, ci));
                assert(viable(steps, r1, w1, k, ci));
            }
        };
    }
}

/// Whether `pos` appears among the first `upto` chosen bucket positions.
fn pick_used(words: &Vec<usize>, upto: usize, pos: usize) -> (r: bool)
    requires
        upto <= words@.len(),
    ensures
        r <==> exists|j: int| 0 <= j < upto && words@[j] == pos,
{
    for j in 0..upto
        invariant
            upto <= words@.len(),
            forall|t: int| 0 <= t < j ==> words@[t] != pos,
    {
        if words[j] == pos {
            return true;
        }
    }
    false
}

/// Letters at the given slots equal the expected characters, position by
/// position.
fn letters_match(result: &Vec<char>, slots: &Vec<usize>, expect: &Vec<char>) -> (r: bool)
    requires
        slots@.len() == expect@.len(),
        forall|t: int| 0 <= t < slots@.len() ==> slots@[t] < result@.len(),
    ensures
        r <==> (forall|t: int| 0 <= t < slots@.len() ==> result@[slots@[t] as int] == expect@[t]),
{
    let n = slots.len();
    for t in 0..n
        invariant
            n == slots@.len(),
            n == expect@.len(),
            forall|t0: int| 0 <= t0 < slots@.len() ==> slots@[t0] < result@.len(),
            forall|t0: int| 0 <= t0 < t ==> result@[slots@[t0] as int] == expect@[t0],
    {
        if result[slots[t]] != expect[t] {
            return false;
        }
    }
    true
}

/// The recursive backtracking search from `step` onward. Reads the current
/// letters at the step's input slots, enumerates the index's matches, skips
/// bucket positions already chosen by earlier steps, writes each candidate's
/// letters into the output slots, re-checks that the input letters still
/// carry the queried key (they always do unless a word repeats a slot), and
/// recurses; the first full success wins. Nothing written by an abandoned
/// branch is undone: a slot is only read by steps later than the one that
/// wrote it, so stale letters are overwritten before any read.
fn solve_step(state: &mut SolverState, steps: &Vec<SolverStep>, step: usize) -> (found: bool)
    requires
        step <= steps@.len(),
        old(state).words@.len() == steps@.len(),
        steps_exec_wf(steps@, old(state).result@.len() as int),
        outputs_distinct(steps@),
        crate::planner::inputs_covered(steps@),
        forall|j: int| 0 <= j < step ==> step_ok(steps@, old(state).result@, old(state).words@, j),
        picks_distinct(old(state).words@, step as int),
    ensures
        final(state).result@.len() == old(state).result@.len(),
        final(state).words@.len() == old(state).words@.len(),
        forall|j: int| 0 <= j < step ==> final(state).words@[j] == old(state).words@[j],
        forall|s: int|
            0 <= s < old(state).result@.len() && !later_output(steps@, step as int, s)
                ==> final(state).result@[s] == old(state).result@[s],
        found ==> (forall|j: int|
            0 <= j < steps@.len() ==> step_ok(steps@, final(state).result@, final(state).words@, j))
            && picks_distinct(final(state).words@, steps@.len() as int),
        step == steps@.len() ==> found,
        steps_strong(steps@) ==> (found <==> extendable(
            steps@,
            old(state).result@,
            old(state).words@,
            step as int,
        )),
    decreases steps@.len() - step,
{
    let num = steps.len();
    if step == num {
        return true;
    }
    let ghost strong = steps_strong(steps@);
    let ghost slots = state.result@.len() as int;
    let ghost st = steps@[step as int];

    // the query key: the current letters at the step's input slots
    let nin = steps[step].input_slots.len();
    let mut key: Vec<char> = Vec::new();
    for a in 0..nin
        invariant
            step < steps@.len(),
            st == steps@[step as int],
            nin == st.input_slots@.len(),
            steps_exec_wf(steps@, state.result@.len() as int),
            key@.len() == a,
            forall|t: int| 0 <= t < a ==> key@[t] == state.result@[st.input_slots@[t] as int],
    {
        let slot = steps[step].input_slots[a];
        key.push(state.result[slot]);
    }
    proof {
        assert(key@ =~= key_of(old(state).result@, st));
    }

    let ne = steps[step].index.entries.len();
    let cands = steps[step].index.query(&key);
    let ghost m = query_spec(st.index.entries_view(), key@, st.index.entries_view().len() as int);
    proof {
        assert(st.index.entries_view().len() == ne);
        lemma_query_spec_sound(st.index.entries_view(), key@, st.index.entries_view().len() as int);
        assert(m == cands_of(old(state).result@, st));
    }

    let ncand = cands.len();
    for ci in 0..ncand
        invariant
            step < steps@.len(),
            num == steps@.len(),
            st == steps@[step as int],
            strong == steps_strong(steps@),
            slots == old(state).result@.len() as int,
            state.result@.len() == old(state).result@.len(),
            state.words@.len() == steps@.len(),
            old(state).words@.len() == steps@.len(),
            steps_exec_wf(steps@, slots),
            outputs_distinct(steps@),
            crate::planner::inputs_covered(steps@),
            forall|j: int| 0 <= j < step ==> step_ok(
                steps@,
                old(state).result@,
                old(state).words@,
                j,
            ),
            picks_distinct(old(state).words@, step as int),
            ncand == cands@.len(),
            ncand == m.len(),
            m == query_spec(st.index.entries_view(), key@, st.index.entries_view().len() as int),
            m == cands_of(old(state).result@, st),
            forall|t: int|
                0 <= t < m.len() ==> (#[trigger] cands@[t]).0 == m[t].0 && cands@[t].1@ == m[t].1,
            forall|t: int|
                0 <= t < m.len() ==> {
                    let e = #[trigger] m[t];
                    &&& 0 <= e.0 < st.index.entries_view().len()
                    &&& st.index.entries_view()[e.0 as int].0 == key@
                    &&& e.1 == st.index.entries_view()[e.0 as int].1
                },
            nin == st.input_slots@.len(),
            key@.len() == nin,
            forall|t: int| 0 <= t < nin ==> key@[t] == old(state).result@[st.input_slots@[t] as int],
            forall|j: int| 0 <= j < step ==> state.words@[j] == old(state).words@[j],
            forall|s: int|
                0 <= s < slots && !later_output(steps@, step as int, s) ==> state.result@[s]
                    == old(state).result@[s],
            strong ==> forall|ci2: int| 0 <= ci2 < ci ==> !viable(
                steps@,
                old(state).result@,
                old(state).words@,
                step as int,
                ci2,
            ),
    {
        let pos = cands[ci].0;
        if !pick_used(&state.words, step, pos) {
            proof {
                assert(cands@[ci as int].1@ == st.index.entries_view()[pos as int].1);
                assert(cands@[ci as int].1@.len() == st.output_slots@.len());
            }
            state.words[step] = pos;
            let nout = steps[step].output_slots.len();
            for a in 0..nout
                invariant
                    step < steps@.len(),
                    st == steps@[step as int],
                    nout == st.output_slots@.len(),
                    slots == old(state).result@.len() as int,
                    state.result@.len() == old(state).result@.len(),
                    state.words@.len() == steps@.len(),
                    steps_exec_wf(steps@, slots),
                    outputs_distinct(steps@),
                    ci < cands@.len(),
                    cands@[ci as int].1@.len() == nout,
                    forall|s: int|
                        0 <= s < slots && !later_output(steps@, step as int, s) ==> state.result@[s]
                            == old(state).result@[s],
                    state.words@[step as int] == pos,
                    forall|j: int| 0 <= j < step ==> state.words@[j] == old(state).words@[j],
                    forall|t: int|
                        0 <= t < a ==> state.result@[st.output_slots@[t] as int]
                            == cands@[ci as int].1@[t],
            {
                let slot = steps[step].output_slots[a];
                let c = cands[ci].1[a];
                state.result[slot] = c;
                proof {
                    assert(later_output(steps@, step as int, st.output_slots@[a as int] as int))
                        by {
                        assert(steps@[step as int].output_slots@[a as int]
                            == st.output_slots@[a as int]);
                    };
                    assert forall|t: int| 0 <= t < a + 1 implies
                        state.result@[st.output_slots@[t] as int]
                        == cands@[ci as int].1@[t] by {
                        if t < a {
                            assert(steps@[step as int].output_slots@[t]
                                != steps@[step as int].output_slots@[a as int]);
                        }
                    };
                }
            }
            // the self-constraint check: the letters now at the input slots
            // must still be the queried key
            let consistent = letters_match(&state.result, &steps[step].input_slots, &key);
            if consistent {
                proof {
                    assert(step_ok(steps@, state.result@, state.words@, step as int)) by {
                        assert(state.words@[step as int] == pos);
                        assert(st.index.entries_view()[pos as int].0 == key@);
                    };
                    assert forall|j: int| 0 <= j < step + 1 implies step_ok(
                        steps@,
                        state.result@,
                        state.words@,
                        j,
                    ) by {
                        if j < step {
                            lemma_prior_step_preserved(
                                steps@,
                                old(state).result@,
                                state.result@,
                                old(state).words@,
                                state.words@,
                                j,
                                step as int,
                            );
                        }
                    };
                    assert(picks_distinct(state.words@, step as int + 1)) by {
                        assert forall|j1: int, j2: int| 0 <= j1 < j2 < step + 1 implies
                            state.words@[j1] != state.words@[j2] by {
                            if j2 == step {
                                assert(state.words@[j1] == old(state).words@[j1]);
                            }
                        };
                    };
                }
                let ghost pre_call = *state;
                let found = solve_step(state, steps, step + 1);
                proof {
                    if strong {
                        // relate the outcome on the dirty state to the entry
                        // state: both agree at every slot written so far
                        let wr = write_seq(
                            old(state).result@,
                            st.output_slots@,
                            m[ci as int].1,
                            st.output_slots@.len() as int,
                        );
                        let ww = old(state).words@.update(step as int, pos);
                        lemma_frame_to_entry(
                            steps@,
                            old(state).result@,
                            old(state).words@,
                            pre_call.result@,
                            pre_call.words@,
                            step as int,
                            ci as int,
                        );
                        assert(extendable(steps@, pre_call.result@, pre_call.words@, step as int + 1)
                            == extendable(steps@, wr, ww, step as int + 1));
                        if found {
                            assert(viable(
                                steps@,
                                old(state).result@,
                                old(state).words@,
                                step as int,
                                ci as int,
                            ));
                            lemma_extendable_unfold(
                                steps@,
                                old(state).result@,
                                old(state).words@,
                                step as int,
                            );
                        } else {
                            assert(!viable(
                                steps@,
                                old(state).result@,
                                old(state).words@,
                                step as int,
                                ci as int,
                            ));
                        }
                    }
                }
                if found {
                    proof {
                        assert forall|s: int|
                            0 <= s < slots && !later_output(steps@, step as int, s) implies
                            state.result@[s] == old(state).result@[s] by {
                            assert(!later_output(steps@, step as int + 1, s));
                        };
                    }
                    return true;
                }
                proof {
                    assert forall|s: int|
                        0 <= s < slots && !later_output(steps@, step as int, s) implies
                        state.result@[s] == old(state).result@[s] by {
                        assert(!later_output(steps@, step as int + 1, s));
                    };
                }
            } else {
                proof {
                    if strong {
                        // with every input slot written strictly earlier, the
                        // check cannot fail
                        assert forall|t: int| 0 <= t < st.input_slots@.len() implies
                            state.result@[st.input_slots@[t] as int] == key@[t] by {
                            let islot = st.input_slots@[t];
                            assert(!later_output(steps@, step as int, islot as int)) by {
                                assert(inputs_resolved(steps@));
                                assert(crate::planner::has_output(steps@, step as int, islot));
                                let (k2, a2): (int, int) = choose|k2: int, a2: int|
                                    0 <= k2 < step && 0 <= a2 < steps@[k2].output_slots@.len()
                                        && steps@[k2].output_slots@[a2] == islot;
                                if later_output(steps@, step as int, islot as int) {
                                    let (k3, a3): (int, int) = choose|k3: int, a3: int|
                                        step <= k3 < steps@.len() && 0 <= a3
                                            < steps@[k3].output_slots@.len()
                                            && steps@[k3].output_slots@[a3] == islot as int;
                                    assert(steps@[k2].output_slots@[a2]
                                        == steps@[k3].output_slots@[a3]);
                                    assert(false);
                                }
                            };
                            assert(state.result@[islot as int] == old(state).result@[islot as int]);
                        };
                        assert(false);
                    }
                }
            }
        } else {
            proof {
                if strong {
                    assert(!viable(
                        steps@,
                        old(state).result@,
                        old(state).words@,
                        step as int,
                        ci as int,
                    )) by {
                        let j = choose|j: int| 0 <= j < step && state.words@[j] == pos;
                        assert(old(state).words@[j] == pos);
                    };
                }
            }
        }
    }
    proof {
        if strong {
            lemma_extendable_unfold(steps@, old(state).result@, old(state).words@, step as int);
            assert(!extendable(steps@, old(state).result@, old(state).words@, step as int)) by {
                if exists|ci: int|
                    viable(steps@, old(state).result@, old(state).words@, step as int, ci) {
                    let ci = choose|ci: int|
                        viable(steps@, old(state).result@, old(state).words@, step as int, ci);
                    assert(0 <= ci < m.len());
                    assert(!viable(steps@, old(state).result@, old(state).words@, step as int, ci));
                }
            };
        }
    }
    false
}

/// The outcome of searching on from the just-written state equals the outcome
/// on the state the candidate's letters define over the entry state: the two
/// agree at every slot the steps up to here write.
proof fn lemma_frame_to_entry(
    steps: Seq<SolverStep>,
    r0: Seq<char>,
    w0: Seq<usize>,
    rc: Seq<char>,
    wc: Seq<usize>,
    step: int,
    ci: int,
)
    requires
        steps_strong(steps),
        steps_exec_wf(steps, r0.len() as int),
        0 <= step < steps.len(),
        0 <= ci < cands_of(r0, steps[step]).len(),
        rc.len() == r0.len(),
        wc.len() == steps.len(),
        w0.len() == steps.len(),
        forall|j: int| 0 <= j < step ==> wc[j] == w0[j],
        wc[step] == cands_of(r0, steps[step])[ci].0,
        forall|s: int|
            0 <= s < r0.len() && !later_output(steps, step, s) ==> rc[s] == r0[s],
        forall|t: int|
            0 <= t < steps[step].output_slots@.len() ==> rc[steps[step].output_slots@[t] as int]
                == cands_of(r0, steps[step])[ci].1[t],
        cands_of(r0, steps[step])[ci].1.len() == steps[step].output_slots@.len(),
    ensures
        extendable(steps, rc, wc, step + 1) == extendable(
            steps,
            write_seq(
                r0,
                steps[step].output_slots@,
                cands_of(r0, steps[step])[ci].1,
                steps[step].output_slots@.len() as int,
            ),
            w0.update(step, cands_of(r0, steps[step])[ci].0),
            step + 1,
        ),
{
    let st = steps[step];
    let unk = cands_of(r0, st)[ci].1;
    let pos = cands_of(r0, st)[ci].0;
    let n = st.output_slots@.len() as int;
    let wr = write_seq(r0, st.output_slots@, unk, n);
    let ww = w0.update(step, pos);
    assert forall|b1: int, b2: int| 0 <= b1 < b2 < n implies st.output_slots@[b1]
        != st.output_slots@[b2] by {
        assert(steps[step].output_slots@[b1] != steps[step].output_slots@[b2]);
    };
    assert(step_exec_wf(st, r0.len() as int));
    lemma_write_seq_len(r0, st.output_slots@, unk, n);
    assert forall|j: int, a: int|
        0 <= j < step + 1 && 0 <= a < steps[j].output_slots@.len() implies rc[
    #[trigger] steps[j].output_slots@[a] as int] == wr[steps[j].output_slots@[a] as int] by {
        let oslot = steps[j].output_slots@[a];
        assert(step_exec_wf(steps[j], r0.len() as int));
        if j < step {
            assert forall|b: int| 0 <= b < n implies st.output_slots@[b] as int
                != oslot as int by {
                assert(steps[step].output_slots@[b] != steps[j].output_slots@[a]);
            };
            lemma_write_seq_other(r0, st.output_slots@, unk, n, oslot as int);
            assert(!later_output(steps, step, oslot as int)) by {
                if later_output(steps, step, oslot as int) {
                    let (k3, a3): (int, int) = choose|k3: int, a3: int|
                        step <= k3 < steps.len() && 0 <= a3 < steps[k3].output_slots@.len()
                            && steps[k3].output_slots@[a3] == oslot as int;
                    assert(steps[j].output_slots@[a] != steps[k3].output_slots@[a3]);
                }
            };
        } else {
            lemma_write_seq_at(r0, st.output_slots@, unk, n, a);
        }
    };
    lemma_extendable_frame(steps, rc, wc, wr, ww, step + 1);
}

/// The step that decides word `w`.
pub open spec fn step_of(steps: Seq<SolverStep>, w: usize) -> int {
    choose|k: int| 0 <= k < steps.len() && (#[trigger] steps[k]).word == w
}

/// A well-formed plan keeps every step inside the bounds of a state with
/// `grid.slots` slots, with index entries aligned to the slot lists.
pub proof fn lemma_plan_exec_wf(grid: Grid, dict: Dictionary, steps: Seq<SolverStep>)
    requires
        grid.wf(),
        dict.wf(),
        plan_wf(grid, dict, steps),
    ensures
        steps_exec_wf(steps, grid.slots as int),
{
    assert forall|k: int| 0 <= k < steps.len() implies step_exec_wf(
        #[trigger] steps[k],
        grid.slots as int,
    ) by {
        let st = steps[k];
        assert(step_wf(grid.words_view(), dict, st, grid.slots));
        let bucket = dict.bucket_view(st.index.word_len as int);
        assert forall|i: int| 0 <= i < st.index.entries_view().len() implies (
        #[trigger] st.index.entries_view()[i]).0.len() == st.input_slots@.len()
            && st.index.entries_view()[i].1.len() == st.output_slots@.len() by {
            assert(st.index.entries_view()[i].0 == crate::index::proj(
                bucket[i],
                st.index.known_pos@,
            ));
            assert(st.index.entries_view()[i].1 == crate::index::proj(
                bucket[i],
                st.index.unknown_pos@,
            ));
        };
    };
}

/// A state that satisfies every step of a well-formed plan, with globally
/// distinct picks, is a valid solution of the topology.
pub proof fn lemma_steps_solution_valid(
    grid: Grid,
    dict: Dictionary,
    steps: Seq<SolverStep>,
    result: Seq<char>,
    spicks: Seq<usize>,
)
    requires
        grid.wf(),
        dict.wf(),
        plan_wf(grid, dict, steps),
        steps.len() <= usize::MAX,
        spicks.len() == steps.len(),
        forall|j: int| 0 <= j < steps.len() ==> step_ok(steps, result, spicks, j),
        picks_distinct(spicks, steps.len() as int),
    ensures
        valid_solution(grid.words_view(), dict, result),
{
    let words = grid.words_view();
    let n = words.len();
    let picks = Seq::new(n, |w: int| spicks[step_of(steps, w as usize)]);
    assert forall|w: int| 0 <= w < n implies (picks[w] as int) < dict.bucket_view(
        (#[trigger] words[w]).len() as int,
    ).len() && word_spelled(words, result, w, dict.bucket_view(words[w].len() as int)[picks[w] as int])
        by {
        assert(scheduled(steps, w as usize));
        let k = step_of(steps, w as usize);
        assert(0 <= k < steps.len() && steps[k].word == w);
        let st = steps[k];
        assert(step_wf(words, dict, st, grid.slots));
        let bucket = dict.bucket_view(st.index.word_len as int);
        let pick = spicks[k] as int;
        assert(step_ok(steps, result, spicks, k));
        assert(st.index.entries_view().len() == bucket.len());
        assert(picks[w] == spicks[k]);
        assert forall|p: int| 0 <= p < words[w].len() implies result[words[w][p] as int]
            == bucket[pick][p] by {
            if st.index.known_pos@.contains(p as usize) {
                let a = choose|a: int|
                    0 <= a < st.index.known_pos@.len() && st.index.known_pos@[a] == p as usize;
                assert(st.input_slots@[a] == words[w][p]);
                assert(st.index.entries_view()[pick].0[a] == crate::index::proj(
                    bucket[pick],
                    st.index.known_pos@,
                )[a]);
                assert(result[st.input_slots@[a] as int] == st.index.entries_view()[pick].0[a]);
            } else {
                assert(st.index.unknown_pos@.contains(p as usize));
                let a = choose|a: int|
                    0 <= a < st.index.unknown_pos@.len() && st.index.unknown_pos@[a] == p as usize;
                assert(st.output_slots@[a] == words[w][p]);
                assert(st.index.entries_view()[pick].1[a] == crate::index::proj(
                    bucket[pick],
                    st.index.unknown_pos@,
                )[a]);
                assert(result[st.output_slots@[a] as int] == st.index.entries_view()[pick].1[a]);
            }
        };
        assert(bucket[pick].len() == st.index.word_len) by {
            assert(dict.wf());
        };
    };
    assert forall|w1: int, w2: int|
        0 <= w1 < w2 < n && (#[trigger] words[w1]).len() == (#[trigger] words[w2]).len() implies
        picks[w1] != picks[w2] by {
        assert(scheduled(steps, w1 as usize));
        assert(scheduled(steps, w2 as usize));
        let k1 = step_of(steps, w1 as usize);
        let k2 = step_of(steps, w2 as usize);
        assert(steps[k1].word == w1 && steps[k2].word == w2);
        assert(k1 != k2);
        assert(spicks[k1] != spicks[k2]);
    };
    assert(valid_picks(words, dict, result, picks));
}

/// A prior step stays satisfied across writes confined to slots written from
/// step `from` on: its own slots were all written strictly earlier.
proof fn lemma_prior_step_preserved(
    steps: Seq<SolverStep>,
    r_old: Seq<char>,
    r_new: Seq<char>,
    w_old: Seq<usize>,
    w_new: Seq<usize>,
    j: int,
    from: int,
)
    requires
        outputs_distinct(steps),
        crate::planner::inputs_covered(steps),
        0 <= j < from <= steps.len(),
        r_old.len() == r_new.len(),
        step_ok(steps, r_old, w_old, j),
        w_new.len() == w_old.len(),
        j < w_old.len(),
        w_new[j] == w_old[j],
        forall|s: int|
            0 <= s < r_old.len() && !later_output(steps, from, s) ==> r_new[s] == r_old[s],
        forall|a: int| 0 <= a < steps[j].input_slots@.len() ==> steps[j].input_slots@[a]
            < r_old.len(),
        forall|a: int| 0 <= a < steps[j].output_slots@.len() ==> steps[j].output_slots@[a]
            < r_old.len(),
    ensures
        step_ok(steps, r_new, w_new, j),
{
    let st = steps[j];
    assert forall|a: int| 0 <= a < st.output_slots@.len() implies r_new[st.output_slots@[a] as int]
        == r_old[st.output_slots@[a] as int] by {
        if later_output(steps, from, st.output_slots@[a] as int) {
            let (k3, a3): (int, int) = choose|k3: int, a3: int|
                from <= k3 < steps.len() && 0 <= a3 < steps[k3].output_slots@.len()
                    && steps[k3].output_slots@[a3] == st.output_slots@[a] as int;
            assert(steps[j].output_slots@[a] != steps[k3].output_slots@[a3]);
            assert(false);
        }
    };
    assert forall|a: int| 0 <= a < st.input_slots@.len() implies r_new[st.input_slots@[a] as int]
        == r_old[st.input_slots@[a] as int] by {
        assert(crate::planner::has_output(steps, j + 1, st.input_slots@[a]));
        let (k2, a2): (int, int) = choose|k2: int, a2: int|
            0 <= k2 < j + 1 && 0 <= a2 < steps[k2].output_slots@.len()
                && steps[k2].output_slots@[a2] == st.input_slots@[a];
        if later_output(steps, from, st.input_slots@[a] as int) {
            let (k3, a3): (int, int) = choose|k3: int, a3: int|
                from <= k3 < steps.len() && 0 <= a3 < steps[k3].output_slots@.len()
                    && steps[k3].output_slots@[a3] == st.input_slots@[a] as int;
            assert(steps[k2].output_slots@[a2] == steps[k3].output_slots@[a3]);
            assert(false);
        }
    };
}

/// Step `k`'s index entry at `spicks[k]` carries exactly the letters the full
/// fill `v` holds at the step's input and output slots.
pub open spec fn solution_matches(
    steps: Seq<SolverStep>,
    v: Seq<char>,
    spicks: Seq<usize>,
    k: int,
) -> bool {
    let st = steps[k];
    let pick = spicks[k] as int;
    &&& 0 <= pick < st.index.entries_view().len()
    &&& forall|t: int|
        0 <= t < st.input_slots@.len() ==> st.index.entries_view()[pick].0[t] == v[st.input_slots@[
        t] as int]
    &&& forall|a: int|
        0 <= a < st.output_slots@.len() ==> st.index.entries_view()[pick].1[a] == v[st.output_slots@[
        a] as int]
}

/// A fill with globally distinct bucket positions induces, step by step, the
/// index entries the plan's steps would pick for it.
proof fn lemma_solution_steps(
    grid: Grid,
    dict: Dictionary,
    steps: Seq<SolverStep>,
    v: Seq<char>,
    wpicks: Seq<usize>,
)
    requires
        grid.wf(),
        dict.wf(),
        plan_wf(grid, dict, steps),
        steps.len() <= usize::MAX,
        valid_picks_global(grid.words_view(), dict, v, wpicks),
    ensures
        ({
            let spicks = Seq::new(steps.len(), |k: int| wpicks[steps[k].word as int]);
            &&& forall|k: int| 0 <= k < steps.len() ==> solution_matches(steps, v, spicks, k)
            &&& picks_distinct(spicks, steps.len() as int)
        }),
{
    let words = grid.words_view();
    let spicks = Seq::new(steps.len(), |k: int| wpicks[steps[k].word as int]);
    assert forall|k: int| 0 <= k < steps.len() implies solution_matches(steps, v, spicks, k) by {
        let st = steps[k];
        assert(step_wf(words, dict, st, grid.slots));
        let w = st.word as int;
        let word = words[w];
        let bucket = dict.bucket_view(st.index.word_len as int);
        let pick = wpicks[w] as int;
        assert(word_spelled(words, v, w, bucket[pick]));
        assert(st.index.entries_view().len() == bucket.len());
        assert forall|t: int| 0 <= t < st.input_slots@.len() implies st.index.entries_view()[
        pick].0[t] == v[st.input_slots@[t] as int] by {
            assert(st.index.entries_view()[pick].0 == crate::index::proj(
                bucket[pick],
                st.index.known_pos@,
            ));
            assert(st.input_slots@[t] == word[st.index.known_pos@[t] as int]);
            assert(st.index.known_pos@[t] < st.index.word_len);
        };
        assert forall|a: int| 0 <= a < st.output_slots@.len() implies st.index.entries_view()[
        pick].1[a] == v[st.output_slots@[a] as int] by {
            assert(st.index.entries_view()[pick].1 == crate::index::proj(
                bucket[pick],
                st.index.unknown_pos@,
            ));
            assert(st.output_slots@[a] == word[st.index.unknown_pos@[a] as int]);
            assert(st.index.unknown_pos@[a] < st.index.word_len);
        };
    };
    assert forall|k1: int, k2: int| 0 <= k1 < k2 < steps.len() implies spicks[k1] != spicks[k2] by {
        assert(steps[k1].word != steps[k2].word);
        assert(step_wf(words, dict, steps[k1], grid.slots));
        assert(step_wf(words, dict, steps[k2], grid.slots));
    };
}

/// A state that already carries the fill's letters at everything written so
/// far can be completed: the fill's own picks drive the remaining steps.
proof fn lemma_solution_extendable(
    steps: Seq<SolverStep>,
    v: Seq<char>,
    spicks: Seq<usize>,
    r: Seq<char>,
    w: Seq<usize>,
    k: int,
)
    requires
        steps_strong(steps),
        steps_exec_wf(steps, r.len() as int),
        steps.len() <= usize::MAX,
        spicks.len() == steps.len(),
        w.len() == steps.len(),
        forall|k2: int| 0 <= k2 < steps.len() ==> solution_matches(steps, v, spicks, k2),
        picks_distinct(spicks, steps.len() as int),
        0 <= k <= steps.len(),
        forall|j: int, a: int|
            0 <= j < k && 0 <= a < steps[j].output_slots@.len()
                ==> r[#[trigger] steps[j].output_slots@[a] as int]
                    == v[steps[j].output_slots@[a] as int],
        forall|j: int| 0 <= j < k ==> w[j] == spicks[j],
    ensures
        extendable(steps, r, w, k),
    decreases steps.len() - k,
{
    if k < steps.len() {
        let st = steps[k];
        let pick = spicks[k];
        assert(step_exec_wf(st, r.len() as int));
        assert(solution_matches(steps, v, spicks, k));
        assert(key_of(r, st) =~= st.index.entries_view()[pick as int].0) by {
            assert forall|t: int| 0 <= t < st.input_slots@.len() implies r[st.input_slots@[
            t] as int] == st.index.entries_view()[pick as int].0[t] by {
                let islot = st.input_slots@[t];
                assert(crate::planner::has_output(steps, k, islot));
                let (j, a): (int, int) = choose|j: int, a: int|
                    0 <= j < k && 0 <= a < steps[j].output_slots@.len()
                        && steps[j].output_slots@[a] == islot;
                assert(r[islot as int] == v[islot as int]);
            };
        };
        crate::index::lemma_query_spec_complete(
            st.index.entries_view(),
            key_of(r, st),
            st.index.entries_view().len() as int,
            pick as int,
        );
        let cands = cands_of(r, st);
        let ci = choose|ci: int|
            0 <= ci < cands.len() && #[trigger] cands[ci] == (
            pick,
            st.index.entries_view()[pick as int].1,
            );
        let unk = st.index.entries_view()[pick as int].1;
        assert(!(exists|j: int| 0 <= j < k && w[j] == pick)) by {
            if exists|j: int| 0 <= j < k && w[j] == pick {
                let j = choose|j: int| 0 <= j < k && w[j] == pick;
                assert(spicks[j] != spicks[k as int]);
            }
        };
        let n = st.output_slots@.len() as int;
        let rn = write_seq(r, st.output_slots@, unk, n);
        assert forall|b1: int, b2: int| 0 <= b1 < b2 < n implies st.output_slots@[b1]
            != st.output_slots@[b2] by {
            assert(steps[k].output_slots@[b1] != steps[k].output_slots@[b2]);
        };
        lemma_write_seq_len(r, st.output_slots@, unk, n);
        assert(unk.len() == n);
        assert forall|j: int, a: int|
            0 <= j < k + 1 && 0 <= a < steps[j].output_slots@.len() implies rn[
        #[trigger] steps[j].output_slots@[a] as int] == v[steps[j].output_slots@[a] as int] by {
            let oslot = steps[j].output_slots@[a];
            assert(step_exec_wf(steps[j], r.len() as int));
            if j < k {
                assert forall|b: int| 0 <= b < n implies st.output_slots@[b] as int
                    != oslot as int by {
                    assert(steps[k].output_slots@[b] != steps[j].output_slots@[a]);
                };
                lemma_write_seq_other(r, st.output_slots@, unk, n, oslot as int);
            } else {
                lemma_write_seq_at(r, st.output_slots@, unk, n, a);
            }
        };
        lemma_solution_extendable(steps, v, spicks, rn, w.update(k, pick), k + 1);
        assert(viable(steps, r, w, k, ci));
        lemma_extendable_unfold(steps, r, w, k);
    }
}

/// A slot no word references is written by no step: every output slot is a
/// slot of the step's word.
proof fn lemma_unreferenced_never_written(
    grid: Grid,
    dict: Dictionary,
    steps: Seq<SolverStep>,
    s: int,
)
    requires
        grid.wf(),
        dict.wf(),
        plan_wf(grid, dict, steps),
        slot_unreferenced(grid.words_view(), s),
    ensures
        !later_output(steps, 0, s),
{
    if later_output(steps, 0, s) {
        let (k, a): (int, int) = choose|k: int, a: int|
            0 <= k < steps.len() && 0 <= a < steps[k].output_slots@.len()
                && steps[k].output_slots@[a] == s;
        let st = steps[k];
        assert(step_wf(grid.words_view(), dict, st, grid.slots));
        let word = grid.words_view()[st.word as int];
        assert(st.output_slots@[a] == word[st.index.unknown_pos@[a] as int]);
        assert(st.index.unknown_pos@[a] < st.index.word_len) by {
            assert(st.index.wf_for(dict.bucket_view(st.index.word_len as int)));
        };
        assert(false);
    }
}

/// The sequential search: plans the steps, then runs the recursive
/// backtracking engine from the first step on a fresh state. A returned fill
/// is always valid; on a topology without repeated slots inside one word the
/// search is also complete for fills whose bucket positions are globally
/// distinct (the uniqueness rule the engine enforces, spanning length
/// buckets).
pub fn solve_sequential(grid: &Grid, dict: &Dictionary) -> (r: Option<Vec<char>>)
    requires
        grid.wf(),
        dict.wf(),
    ensures
        r matches Some(v) ==> v@.len() == grid.slots,
        r matches Some(v) ==> valid_solution(grid.words_view(), *dict, v@),
        !(forall|w: int|
            0 <= w < grid.words_view().len() ==> dict.bucket_view(
                (#[trigger] grid.words_view()[w]).len() as int,
            ).len() > 0) ==> r is None,
        (no_dup_words(grid.words_view()) && (exists|v: Seq<char>|
            valid_solution_global(grid.words_view(), *dict, v))) ==> r is Some,
        r matches Some(v) ==> (forall|s: int|
            0 <= s < grid.slots && slot_unreferenced(grid.words_view(), s) ==> v@[s] == ' '),
{
    let steps = match generate_solver_steps(grid, dict) {
        Ok(s) => s,
        Err(_) => {
            proof {
                lemma_solution_needs_buckets(*grid, *dict);
            }
            return None;
        },
    };
    proof {
        lemma_plan_exec_wf(*grid, *dict, steps@);
    }
    let mut state = SolverState::new(grid);
    let nsteps = steps.len();
    let ghost r0 = state.result@;
    let ghost w0 = state.words@;
    let found = solve_step(&mut state, &steps, 0);
    proof {
        if no_dup_words(grid.words_view()) && (exists|v: Seq<char>|
            valid_solution_global(grid.words_view(), *dict, v)) {
            assert(steps_strong(steps@));
            let v0 = choose|v: Seq<char>| valid_solution_global(grid.words_view(), *dict, v);
            let wpicks = choose|picks: Seq<usize>|
                valid_picks_global(grid.words_view(), *dict, v0, picks);
            lemma_solution_steps(*grid, *dict, steps@, v0, wpicks);
            let spicks = Seq::new(steps@.len(), |k: int| wpicks[steps@[k].word as int]);
            lemma_solution_extendable(steps@, v0, spicks, r0, w0, 0);
            assert(found);
        }
    }
    if found {
        proof {
            assert(steps@.len() == nsteps);
            lemma_steps_solution_valid(*grid, *dict, steps@, state.result@, state.words@);
            assert forall|s: int|
                0 <= s < grid.slots && slot_unreferenced(grid.words_view(), s) implies
                state.result@[s] == ' ' by {
                lemma_unreferenced_never_written(*grid, *dict, steps@, s);
            };
        }
        Some(state.result)
    } else {
        None
    }
}

/// A fill with valid picks needs a nonempty length bucket for every word, so
/// a topology with an empty needed bucket has no solution at all.
proof fn lemma_solution_needs_buckets(grid: Grid, dict: Dictionary)
    requires
        !(forall|w: int|
            0 <= w < grid.words_view().len() ==> dict.bucket_view(
                (#[trigger] grid.words_view()[w]).len() as int,
            ).len() > 0),
    ensures
        !(exists|v: Seq<char>| valid_solution_global(grid.words_view(), dict, v)),
{
    let words = grid.words_view();
    if exists|v: Seq<char>| valid_solution_global(words, dict, v) {
        let v = choose|v: Seq<char>| valid_solution_global(words, dict, v);
        let picks = choose|picks: Seq<usize>| valid_picks_global(words, dict, v, picks);
        assert forall|w: int| 0 <= w < words.len() implies dict.bucket_view(
            (#[trigger] words[w]).len() as int,
        ).len() > 0 by {
            assert((picks[w] as int) < dict.bucket_view(words[w].len() as int).len());
        };
    }
}

/// One worker of the parallel search: seeds a private state with candidate
/// `i` of the first step's length bucket, records the pick, checks the seeded
/// letters against the step's own key, and runs the sequential engine over
/// the remaining steps.
fn try_first_candidate(grid: &Grid, dict: &Dictionary, steps: &Vec<SolverStep>, i: usize) -> (r:
    Option<Vec<char>>)
    requires
        grid.wf(),
        dict.wf(),
        plan_wf(*grid, *dict, steps@),
        steps@.len() > 0,
        i < dict.bucket_view(steps@[0].index.word_len as int).len(),
    ensures
        r matches Some(v) ==> v@.len() == grid.slots,
        r matches Some(v) ==> valid_solution(grid.words_view(), *dict, v@),
        r matches Some(v) ==> (forall|s: int|
            0 <= s < grid.slots && slot_unreferenced(grid.words_view(), s) ==> v@[s] == ' '),
        steps_strong(steps@) ==> ((r is Some) <==> extendable(
            steps@,
            seeded_result(steps@[0], grid.slots as int, i as int),
            seeded_picks(steps@.len() as int, i),
            1,
        )),
{
    proof {
        lemma_plan_exec_wf(*grid, *dict, steps@);
    }
    let ghost st0 = steps@[0];
    let ghost bucket = dict.bucket_view(st0.index.word_len as int);
    let mut state = SolverState::new(grid);
    let word_len = steps[0].index.word_len;
    let letters = dict.bucket_word(word_len, i);
    proof {
        assert(letters@.len() == word_len) by {
            assert(dict.wf());
        };
        assert(step_wf(grid.words_view(), *dict, st0, grid.slots));
        assert(st0.index.entries_view().len() == bucket.len());
    }
    state.words[0] = i;
    let nout = steps[0].output_slots.len();
    for a in 0..nout
        invariant
            steps@.len() > 0,
            st0 == steps@[0],
            bucket == dict.bucket_view(st0.index.word_len as int),
            i < bucket.len(),
            st0.index.entries_view().len() == bucket.len(),
            nout == st0.output_slots@.len(),
            nout == st0.index.unknown_pos@.len(),
            word_len == st0.index.word_len,
            letters@ == bucket[i as int],
            letters@.len() == word_len,
            forall|t: int| 0 <= t < st0.index.unknown_pos@.len()
                ==> st0.index.unknown_pos@[t] < word_len,
            forall|t: int| 0 <= t < st0.output_slots@.len() ==> st0.output_slots@[t] < grid.slots,
            state.result@.len() == grid.slots,
            state.words@.len() == steps@.len(),
            state.words@[0] == i,
            forall|j: int| 1 <= j < state.words@.len() ==> state.words@[j] == 0,
            outputs_distinct(steps@),
            forall|t: int| 0 <= t < a ==> state.result@[st0.output_slots@[t] as int]
                == letters@[st0.index.unknown_pos@[t] as int],
            forall|s: int|
                0 <= s < grid.slots && !st0.output_slots@.subrange(0, a as int).contains(s as usize)
                    ==> state.result@[s] == ' ',
    {
        let slot = steps[0].output_slots[a];
        let upos = steps[0].index.unknown_pos[a];
        let c = letters[upos];
        state.result[slot] = c;
        proof {
            assert forall|t: int| 0 <= t < a + 1 implies
                state.result@[st0.output_slots@[t] as int]
                == letters@[st0.index.unknown_pos@[t] as int] by {
                if t < a {
                    assert(st0.output_slots@[t] != st0.output_slots@[a as int]);
                }
            };
            assert(st0.output_slots@.subrange(0, a as int + 1)
                == st0.output_slots@.subrange(0, a as int) + seq![st0.output_slots@[a as int]]);
            assert forall|s: int|
                0 <= s < grid.slots && !st0.output_slots@.subrange(0, a as int + 1).contains(
                s as usize) implies state.result@[s] == ' ' by {
                assert(!st0.output_slots@.subrange(0, a as int).contains(s as usize)) by {
                    if st0.output_slots@.subrange(0, a as int).contains(s as usize) {
                        let t = choose|t: int|
                            0 <= t < a && st0.output_slots@.subrange(0, a as int)[t] == s as usize;
                        assert(st0.output_slots@.subrange(0, a as int + 1)[t] == s as usize);
                    }
                };
                assert(s != st0.output_slots@[a as int] as int) by {
                    assert(st0.output_slots@.subrange(0, a as int + 1)[a as int]
                        == st0.output_slots@[a as int]);
                };
            };
        }
    }
    proof {
        // the seeded state is exactly the spec-level seed
        assert(st0.index.entries_view()[i as int].1 == crate::index::proj(
            bucket[i as int],
            st0.index.unknown_pos@,
        ));
        assert forall|t: int| 0 <= t < nout implies state.result@[st0.output_slots@[t] as int]
            == st0.index.entries_view()[i as int].1[t] by {
            assert(state.result@[st0.output_slots@[t] as int]
                == letters@[st0.index.unknown_pos@[t] as int]);
        };
        assert(state.result@ =~= seeded_result(st0, grid.slots as int, i as int)) by {
            let base = blank_result(grid.slots as int);
            let unk = st0.index.entries_view()[i as int].1;
            let n = st0.output_slots@.len() as int;
            assert(unk.len() == n);
            assert forall|b1: int, b2: int| 0 <= b1 < b2 < n implies st0.output_slots@[b1]
                != st0.output_slots@[b2] by {
                assert(steps@[0].output_slots@[b1] != steps@[0].output_slots@[b2]);
            };
            lemma_write_seq_len(base, st0.output_slots@, unk, n);
            assert forall|s: int| 0 <= s < grid.slots implies state.result@[s] == write_seq(
                base,
                st0.output_slots@,
                unk,
                n,
            )[s] by {
                if st0.output_slots@.contains(s as usize) {
                    let t = choose|t: int|
                        0 <= t < n && st0.output_slots@[t] == s as usize;
                    lemma_write_seq_at(base, st0.output_slots@, unk, n, t);
                } else {
                    assert forall|b: int| 0 <= b < n implies st0.output_slots@[b] as int != s by {
                        if st0.output_slots@[b] as int == s {
                            assert(st0.output_slots@.contains(s as usize));
                        }
                    };
                    lemma_write_seq_other(base, st0.output_slots@, unk, n, s);
                    assert(!st0.output_slots@.subrange(0, n).contains(s as usize)) by {
                        assert(st0.output_slots@.subrange(0, n) == st0.output_slots@);
                    };
                }
            };
        };
        assert(state.words@ =~= seeded_picks(steps@.len() as int, i));
    }
    // the seeded letters must agree with the step's own query key: with a
    // repeated slot inside the first word they might not
    let consistent = letters_match(
        &state.result,
        &steps[0].input_slots,
        &steps[0].index.entries[i].0,
    );
    if !consistent {
        proof {
            if steps_strong(steps@) {
                // with every input written strictly earlier, the first step
                // reads nothing, so the check cannot fail
                assert(st0.input_slots@.len() == 0) by {
                    if st0.input_slots@.len() > 0 {
                        assert(crate::planner::has_output(steps@, 0, st0.input_slots@[0]));
                    }
                };
                assert(false);
            }
        }
        return None;
    }
    proof {
        assert(step_ok(steps@, state.result@, state.words@, 0)) by {
            assert(state.words@[0] == i);
            assert(st0.index.entries_view()[i as int].0 == st0.index.entries@[i as int].0@);
        };
    }
    let ghost seeded = state.result@;
    let found = solve_step(&mut state, steps, 1);
    if found {
        let nsteps = steps.len();
        proof {
            assert(steps@.len() == nsteps);
            lemma_steps_solution_valid(*grid, *dict, steps@, state.result@, state.words@);
            assert forall|s: int|
                0 <= s < grid.slots && slot_unreferenced(grid.words_view(), s) implies
                state.result@[s] == ' ' by {
                lemma_unreferenced_never_written(*grid, *dict, steps@, s);
                assert(!later_output(steps@, 1, s));
                assert(state.result@[s] == seeded[s]);
                assert(!st0.output_slots@.contains(s as usize)) by {
                    if st0.output_slots@.contains(s as usize) {
                        let a = choose|a: int|
                            0 <= a < st0.output_slots@.len() && st0.output_slots@[a] == s as usize;
                        assert(later_output(steps@, 0, s)) by {
                            assert(steps@[0].output_slots@[a] == s as usize);
                        };
                    }
                };
                assert(!st0.output_slots@.subrange(0, st0.output_slots@.len() as int).contains(
                    s as usize,
                )) by {
                    assert(st0.output_slots@.subrange(0, st0.output_slots@.len() as int)
                        == st0.output_slots@);
                };
            };
        }
        Some(state.result)
    } else {
        None
    }
}

/// Relies on rayon: `into_par_iter().find_map_any(f)` over the range
/// `0..count` returns a value produced by `f` for some index in the range,
/// and returns `None` exactly when every index was mapped and every call
/// returned `None`; the closure only calls the verified
/// `try_first_candidate`, whose result is a function of its arguments.
#[verifier::external_body]
fn par_find_solution(
    grid: &Grid,
    dict: &Dictionary,
    steps: &Vec<SolverStep>,
    count: usize,
) -> (r: Option<Vec<char>>)
    requires
        grid.wf(),
        dict.wf(),
        plan_wf(*grid, *dict, steps@),
        steps@.len() > 0,
        count as int == dict.bucket_view(steps@[0].index.word_len as int).len(),
    ensures
        r matches Some(v) ==> v@.len() == grid.slots,
        r matches Some(v) ==> valid_solution(grid.words_view(), *dict, v@),
        r matches Some(v) ==> (forall|s: int|
            0 <= s < grid.slots && slot_unreferenced(grid.words_view(), s) ==> v@[s] == ' '),
        (r is Some) ==> (steps_strong(steps@) ==> exists|i: int|
            0 <= i < count && extendable(
                steps@,
                seeded_result(steps@[0], grid.slots as int, i),
                seeded_picks(steps@.len() as int, i as usize),
                1,
            )),
        (r is None) ==> (steps_strong(steps@) ==> !(exists|i: int|
            0 <= i < count && extendable(
                steps@,
                seeded_result(steps@[0], grid.slots as int, i),
                seeded_picks(steps@.len() as int, i as usize),
                1,
            ))),
{
    (0..count).into_par_iter().find_map_any(|i| try_first_candidate(grid, dict, steps, i))
}

/// The parallel search: plans the steps, then fans the first step's bucket
/// candidates across a worker pool; each worker runs the sequential engine on
/// a private state, and the first full solution any worker finds is returned.
/// Which solution comes back may vary between runs; whether one comes back
/// does not: a returned fill is always valid, and on a topology without
/// repeated slots inside one word the search is complete for fills whose
/// bucket positions are globally distinct.
pub fn solve(grid: &Grid, dict: &Dictionary) -> (r: Option<Vec<char>>)
    requires
        grid.wf(),
        dict.wf(),
    ensures
        r matches Some(v) ==> v@.len() == grid.slots,
        r matches Some(v) ==> valid_solution(grid.words_view(), *dict, v@),
        !(forall|w: int|
            0 <= w < grid.words_view().len() ==> dict.bucket_view(
                (#[trigger] grid.words_view()[w]).len() as int,
            ).len() > 0) ==> r is None,
        (no_dup_words(grid.words_view()) && (exists|v: Seq<char>|
            valid_solution_global(grid.words_view(), *dict, v))) ==> r is Some,
        r matches Some(v) ==> (forall|s: int|
            0 <= s < grid.slots && slot_unreferenced(grid.words_view(), s) ==> v@[s] == ' '),
{
    let steps = match generate_solver_steps(grid, dict) {
        Ok(s) => s,
        Err(_) => {
            proof {
                lemma_solution_needs_buckets(*grid, *dict);
            }
            return None;
        },
    };
    if steps.len() == 0 {
        let state = SolverState::new(grid);
        proof {
            let picks = Seq::<usize>::empty();
            assert(valid_picks(grid.words_view(), *dict, state.result@, picks));
        }
        return Some(state.result);
    }
    proof {
        lemma_plan_exec_wf(*grid, *dict, steps@);
    }
    let nsteps = steps.len();
    let count = dict.bucket_len(steps[0].index.word_len);
    let r = par_find_solution(grid, dict, &steps, count);
    proof {
        if no_dup_words(grid.words_view()) && (exists|v: Seq<char>|
            valid_solution_global(grid.words_view(), *dict, v)) {
            assert(steps_strong(steps@));
            let st0 = steps@[0];
            let v0 = choose|v: Seq<char>| valid_solution_global(grid.words_view(), *dict, v);
            let wpicks = choose|picks: Seq<usize>|
                valid_picks_global(grid.words_view(), *dict, v0, picks);
            lemma_solution_steps(*grid, *dict, steps@, v0, wpicks);
            let spicks = Seq::new(steps@.len(), |k: int| wpicks[steps@[k].word as int]);
            let r0 = blank_result(grid.slots as int);
            let w0 = zero_picks(nsteps as int);
            lemma_solution_extendable(steps@, v0, spicks, r0, w0, 0);
            lemma_extendable_unfold(steps@, r0, w0, 0);
            let ci = choose|ci: int| viable(steps@, r0, w0, 0, ci);
            let cands = cands_of(r0, st0);
            let pos = cands[ci].0;
            lemma_query_spec_sound(
                st0.index.entries_view(),
                key_of(r0, st0),
                st0.index.entries_view().len() as int,
            );
            assert(pos < st0.index.entries_view().len());
            assert(st0.index.entries_view().len() == dict.bucket_view(
                st0.index.word_len as int,
            ).len()) by {
                assert(step_wf(grid.words_view(), *dict, st0, grid.slots));
            };
            assert(cands[ci].1 == st0.index.entries_view()[pos as int].1);
            assert(extendable(
                steps@,
                seeded_result(st0, grid.slots as int, pos as int),
                seeded_picks(steps@.len() as int, pos),
                1,
            ));
            assert(r is Some);
        }
    }
    r
}

/// Over one plan, the sequential and the parallel search explore the same
/// space: from a fresh state the sequential engine can complete the steps
/// exactly when some candidate of the first step's bucket, seeded the way a
/// parallel worker seeds it, can complete the remaining steps. Together with
/// each engine's contract this rules out a satisfiability mismatch between
/// the two searches over a common plan.
pub proof fn lemma_seq_par_agree(grid: Grid, dict: Dictionary, steps: Seq<SolverStep>)
    requires
        grid.wf(),
        dict.wf(),
        plan_wf(grid, dict, steps),
        steps_strong(steps),
        steps.len() > 0,
        dict.bucket_view(steps[0].index.word_len as int).len() <= usize::MAX,
    ensures
        extendable(steps, blank_result(grid.slots as int), zero_picks(steps.len() as int), 0)
            <==> (exists|i: usize|
            (i as int) < dict.bucket_view(steps[0].index.word_len as int).len() && extendable(
                steps,
                seeded_result(steps[0], grid.slots as int, i as int),
                seeded_picks(steps.len() as int, i),
                1,
            )),
{
    lemma_plan_exec_wf(grid, dict, steps);
    let st0 = steps[0];
    let r0 = blank_result(grid.slots as int);
    let w0 = zero_picks(steps.len() as int);
    let bucket_len = dict.bucket_view(st0.index.word_len as int).len() as int;
    assert(step_wf(grid.words_view(), dict, st0, grid.slots));
    assert(st0.index.entries_view().len() == bucket_len) by {
        assert(st0.index.wf_for(dict.bucket_view(st0.index.word_len as int)));
    };
    assert(st0.input_slots@.len() == 0) by {
        if st0.input_slots@.len() > 0 {
            assert(crate::planner::has_output(steps, 0, st0.input_slots@[0]));
        }
    };
    assert(key_of(r0, st0) =~= Seq::<char>::empty());
    lemma_extendable_unfold(steps, r0, w0, 0);
    let cands0 = cands_of(r0, st0);
    lemma_query_spec_sound(st0.index.entries_view(), key_of(r0, st0), bucket_len);
    if extendable(steps, r0, w0, 0) {
        let ci = choose|ci: int| viable(steps, r0, w0, 0, ci);
        let pos = cands0[ci].0;
        assert((pos as int) < bucket_len);
        assert(cands0[ci].1 == st0.index.entries_view()[pos as int].1);
        assert(extendable(
            steps,
            seeded_result(st0, grid.slots as int, pos as int),
            seeded_picks(steps.len() as int, pos),
            1,
        ));
    }
    if exists|i: usize|
        (i as int) < bucket_len && extendable(
            steps,
            seeded_result(st0, grid.slots as int, i as int),
            seeded_picks(steps.len() as int, i),
            1,
        ) {
        let i = choose|i: usize|
            (i as int) < bucket_len && extendable(
                steps,
                seeded_result(st0, grid.slots as int, i as int),
                seeded_picks(steps.len() as int, i),
                1,
            );
        assert(st0.index.entries_view()[i as int].0 =~= key_of(r0, st0)) by {
            assert(st0.index.entries_view()[i as int].0.len() == st0.input_slots@.len());
        };
        crate::index::lemma_query_spec_complete(
            st0.index.entries_view(),
            key_of(r0, st0),
            bucket_len,
            i as int,
        );
        let t = choose|t: int|
            0 <= t < cands0.len() && #[trigger] cands0[t] == (
            i,
            st0.index.entries_view()[i as int].1,
            );
        assert(viable(steps, r0, w0, 0, t));
        assert(extendable(steps, r0, w0, 0));
    }
}

/// An unsatisfiable instance yields "no solution" from every search. Any two
/// results that meet the search contract on a topology with no valid solution
/// are both `None`: repeated sequential calls agree, and so do the sequential
/// and the parallel search.
pub proof fn lemma_unsat_searches_agree(
    words: Seq<Seq<usize>>,
    dict: Dictionary,
    r1: Option<Vec<char>>,
    r2: Option<Vec<char>>,
)
    requires
        !(exists|v: Seq<char>| valid_solution(words, dict, v)),
        r1 matches Some(v) ==> valid_solution(words, dict, v@),
        r2 matches Some(v) ==> valid_solution(words, dict, v@),
    ensures
        r1 is None,
        r2 is None,
{
    match r1 {
        Some(v) => {
            assert(valid_solution(words, dict, v@));
        },
        None => {},
    }
    match r2 {
        Some(v) => {
            assert(valid_solution(words, dict, v@));
        },
        None => {},
    }
}

} // verus!
