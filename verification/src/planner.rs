use crate::dictionary::Dictionary;
use crate::grid::Grid;
use crate::index::PatternIndex;
use crate::index::positions_wf;
use vstd::prelude::*;

verus! {

/// The slots of `word` at the given positions, in position order.
pub open spec fn proj_slots(word: Seq<usize>, pos: Seq<usize>) -> Seq<usize> {
    pos.map_values(|p: usize| word[p as int])
}

/// No word of the topology references the same slot twice.
pub open spec fn no_dup_words(words: Seq<Seq<usize>>) -> bool {
    forall|w: int, p1: int, p2: int|
        0 <= w < words.len() && 0 <= p1 < p2 < words[w].len() ==> words[w][p1] != words[w][p2]
}

/// One unit of solving work: the word it decides, the positions already
/// resolved by earlier steps (as slots, in position order), the positions it
/// newly decides (likewise), and the pattern index that answers its queries.
pub struct SolverStep {
    /// The per-step lookup structure over the word's length bucket.
    pub index: PatternIndex,
    /// Slots to read as the query key, in word-position order.
    pub input_slots: Vec<usize>,
    /// Slots this step writes, in word-position order.
    pub output_slots: Vec<usize>,
    /// The index of the word this step decides.
    pub word: usize,
}

/// The configuration faults the planner reports.
#[derive(Debug, PartialEq, Eq)]
pub enum PlanError {
    /// A step requires words of this length, but the dictionary bucket for it
    /// is empty.
    MissingBucket(usize),
}

/// One step agrees with its word and with the dictionary: the index is built
/// over the word's length bucket, and the input and output slots are the
/// word's slots at the index's known and unknown positions.
pub open spec fn step_wf(
    words: Seq<Seq<usize>>,
    dict: Dictionary,
    step: SolverStep,
    slots: usize,
) -> bool {
    let word = words[step.word as int];
    &&& step.word < words.len()
    &&& step.index.word_len == word.len()
    &&& step.index.wf_for(dict.bucket_view(step.index.word_len as int))
    &&& step.input_slots@ == proj_slots(word, step.index.known_pos@)
    &&& step.output_slots@ == proj_slots(word, step.index.unknown_pos@)
    &&& forall|a: int| 0 <= a < step.input_slots@.len() ==> step.input_slots@[a] < slots
    &&& forall|a: int| 0 <= a < step.output_slots@.len() ==> step.output_slots@[a] < slots
}

/// Some step decides word `w`.
pub open spec fn scheduled(steps: Seq<SolverStep>, w: usize) -> bool {
    exists|k: int| 0 <= k < steps.len() && (#[trigger] steps[k]).word == w
}

/// Some step among the first `upto` writes slot `s`.
pub open spec fn has_output(steps: Seq<SolverStep>, upto: int, s: usize) -> bool {
    exists|k: int, a: int|
        0 <= k < upto && 0 <= a < steps[k].output_slots@.len() && steps[k].output_slots@[a] == s
}

/// No slot is written by two different steps, nor twice by one step.
pub open spec fn outputs_distinct(steps: Seq<SolverStep>) -> bool {
    forall|k1: int, a1: int, k2: int, a2: int|
        0 <= k1 < steps.len() && 0 <= a1 < steps[k1].output_slots@.len() && 0 <= k2 < steps.len()
            && 0 <= a2 < steps[k2].output_slots@.len() && (k1 != k2 || a1 != a2)
            ==> steps[k1].output_slots@[a1] != steps[k2].output_slots@[a2]
}

/// Every slot a step reads was written by a strictly earlier step.
pub open spec fn inputs_resolved(steps: Seq<SolverStep>) -> bool {
    forall|k: int, a: int|
        0 <= k < steps.len() && 0 <= a < steps[k].input_slots@.len() ==> has_output(
            steps,
            k,
            #[trigger] steps[k].input_slots@[a],
        )
}

/// Every slot a step reads is written by that step or an earlier one.
pub open spec fn inputs_covered(steps: Seq<SolverStep>) -> bool {
    forall|k: int, a: int|
        0 <= k < steps.len() && 0 <= a < steps[k].input_slots@.len() ==> has_output(
            steps,
            k + 1,
            #[trigger] steps[k].input_slots@[a],
        )
}

/// The full planner contract: one well-formed step per word, each word
/// scheduled exactly once, every needed bucket nonempty, and no slot written
/// twice over the whole order.
pub open spec fn plan_wf(grid: Grid, dict: Dictionary, steps: Seq<SolverStep>) -> bool {
    &&& steps.len() == grid.words_view().len()
    &&& forall|k: int| 0 <= k < steps.len() ==> step_wf(
        grid.words_view(),
        dict,
        #[trigger] steps[k],
        grid.slots,
    )
    &&& forall|k1: int, k2: int| 0 <= k1 < k2 < steps.len() ==> steps[k1].word != steps[k2].word
    &&& forall|w: usize| w < grid.words_view().len() ==> #[trigger] scheduled(steps, w)
    &&& forall|k: int| 0 <= k < steps.len() ==> dict.bucket_view(
        (#[trigger] steps[k]).index.word_len as int,
    ).len() > 0
    &&& outputs_distinct(steps)
    &&& inputs_covered(steps)
}

/// How many entries of the first `n` are true.
pub open spec fn count_true(s: Seq<bool>, n: int) -> int
    decreases n,
{
    if n <= 0 {
        0
    } else {
        count_true(s, n - 1) + if s[n - 1] {
            1int
        } else {
            0int
        }
    }
}

proof fn lemma_count_true_nonneg(s: Seq<bool>, n: int)
    ensures
        count_true(s, n) >= 0,
    decreases n,
{
    if n > 0 {
        lemma_count_true_nonneg(s, n - 1);
    }
}

proof fn lemma_count_true_exists(s: Seq<bool>, n: int)
    requires
        count_true(s, n) > 0,
    ensures
        exists|t: int| 0 <= t < n && s[t],
    decreases n,
{
    if n > 0 {
        if s[n - 1] {
            assert(s[n - 1]);
        } else {
            lemma_count_true_exists(s, n - 1);
        }
    }
}

proof fn lemma_count_true_zero(s: Seq<bool>, n: int)
    requires
        count_true(s, n) == 0,
    ensures
        forall|t: int| 0 <= t < n ==> !s[t],
    decreases n,
{
    if n > 0 {
        lemma_count_true_nonneg(s, n - 1);
        lemma_count_true_zero(s, n - 1);
    }
}

proof fn lemma_count_true_update(s: Seq<bool>, t: int, n: int)
    requires
        0 <= t < n <= s.len(),
        s[t],
    ensures
        count_true(s.update(t, false), n) == count_true(s, n) - 1,
    decreases n,
{
    let s2 = s.update(t, false);
    if t == n - 1 {
        assert(count_true(s2, n - 1) == count_true(s, n - 1)) by {
            lemma_count_true_frame(s, s2, n - 1);
        };
    } else {
        lemma_count_true_update(s, t, n - 1);
    }
}

proof fn lemma_count_true_frame(s1: Seq<bool>, s2: Seq<bool>, n: int)
    requires
        forall|t: int| 0 <= t < n ==> s1[t] == s2[t],
    ensures
        count_true(s1, n) == count_true(s2, n),
    decreases n,
{
    if n > 0 {
        lemma_count_true_frame(s1, s2, n - 1);
    }
}

/// Two strictly increasing sequences with the same members are equal.
proof fn lemma_sorted_same_members(a: Seq<usize>, b: Seq<usize>)
    requires
        forall|i: int, j: int| 0 <= i < j < a.len() ==> a[i] < a[j],
        forall|i: int, j: int| 0 <= i < j < b.len() ==> b[i] < b[j],
        forall|q: usize| a.contains(q) <==> b.contains(q),
    ensures
        a == b,
    decreases a.len(),
{
    if a.len() == 0 {
        if b.len() > 0 {
            assert(b.contains(b[0]));
            assert(a.contains(b[0]));
        }
        assert(a =~= b);
    } else {
        assert(a.contains(a[0]));
        assert(b.contains(a[0]));
        let jb = choose|jb: int| 0 <= jb < b.len() && b[jb] == a[0];
        assert(b[0] <= b[jb]);
        assert(a.contains(b[0]));
        let ja = choose|ja: int| 0 <= ja < a.len() && a[ja] == b[0];
        assert(a[0] <= a[ja]);
        assert(a[0] == b[0]);
        let at = a.drop_first();
        let bt = b.drop_first();
        assert forall|q: usize| at.contains(q) <==> bt.contains(q) by {
            assert(at.contains(q) <==> (a.contains(q) && q > a[0])) by {
                if at.contains(q) {
                    let j = choose|j: int| 0 <= j < at.len() && at[j] == q;
                    assert(a[j + 1] == q);
                    assert(a[0] < a[j + 1]);
                }
                if a.contains(q) && q > a[0] {
                    let j = choose|j: int| 0 <= j < a.len() && a[j] == q;
                    assert(j != 0);
                    assert(at[j - 1] == q);
                }
            };
            assert(bt.contains(q) <==> (b.contains(q) && q > b[0])) by {
                if bt.contains(q) {
                    let j = choose|j: int| 0 <= j < bt.len() && bt[j] == q;
                    assert(b[j + 1] == q);
                    assert(b[0] < b[j + 1]);
                }
                if b.contains(q) && q > b[0] {
                    let j = choose|j: int| 0 <= j < b.len() && b[j] == q;
                    assert(j != 0);
                    assert(bt[j - 1] == q);
                }
            };
        };
        assert forall|i: int, j: int| 0 <= i < j < at.len() implies at[i] < at[j] by {
            assert(a[i + 1] < a[j + 1]);
        };
        assert forall|i: int, j: int| 0 <= i < j < bt.len() implies bt[i] < bt[j] by {
            assert(b[i + 1] < b[j + 1]);
        };
        lemma_sorted_same_members(at, bt);
        assert(a.len() == b.len());
        assert forall|i: int| 0 <= i < a.len() implies a[i] == b[i] by {
            if i > 0 {
                assert(a[i] == at[i - 1]);
                assert(b[i] == bt[i - 1]);
            }
        };
        assert(a =~= b);
    }
}

/// Orders the words into solving steps. Repeatedly selects the unscheduled
/// word with the most constraints from already-scheduled neighbours, ties
/// broken toward the longer word and then toward the lower word index,
/// partitions its positions into
/// already-known inputs and newly-decided outputs, propagates the constraint
/// counts through shared slots, and builds the step's pattern index. Fails
/// fast when a selected word needs a length bucket the dictionary lacks.
pub fn generate_solver_steps(grid: &Grid, dict: &Dictionary) -> (r: Result<
    Vec<SolverStep>,
    PlanError,
>)
    requires
        grid.wf(),
        dict.wf(),
    ensures
        r matches Ok(steps) ==> plan_wf(*grid, *dict, steps@),
        r matches Ok(steps) ==> (no_dup_words(grid.words_view()) ==> inputs_resolved(steps@)),
        (r is Ok) <==> (forall|w: int|
            0 <= w < grid.words_view().len() ==> dict.bucket_view(
                (#[trigger] grid.words_view()[w]).len() as int,
            ).len() > 0),
        r matches Err(e) ==> (e matches PlanError::MissingBucket(l) && exists|w: int|
            0 <= w < grid.words_view().len() && (#[trigger] grid.words_view()[w]).len() == l
                && dict.bucket_view(l as int).len() == 0),
{
    let ghost wordsv = grid.words_view();
    let n = grid.num_words();
    let mut constraints: Vec<usize> = vec![0; n];
    let mut remaining: Vec<bool> = vec![true; n];
    let mut remaining_count: usize = n;
    let mut known: Vec<bool> = vec![false; grid.slots];
    let mut steps: Vec<SolverStep> = Vec::new();

    proof {
        lemma_count_true_all_true(remaining@, n as int);
    }

    while remaining_count > 0
        invariant
            grid.wf(),
            dict.wf(),
            wordsv == grid.words_view(),
            n == wordsv.len(),
            constraints@.len() == n,
            remaining@.len() == n,
            known@.len() == grid.slots,
            remaining_count <= n,
            remaining_count as int == count_true(remaining@, n as int),
            steps@.len() + remaining_count == n,
            forall|w: int| 0 <= w < n ==> ((!remaining@[w]) <==> scheduled(steps@, w as usize)),
            forall|k1: int, k2: int| 0 <= k1 < k2 < steps@.len() ==> steps@[k1].word
                != steps@[k2].word,
            forall|k: int| 0 <= k < steps@.len() ==> step_wf(
                wordsv,
                *dict,
                #[trigger] steps@[k],
                grid.slots,
            ),
            forall|k: int| 0 <= k < steps@.len() ==> dict.bucket_view(
                (#[trigger] steps@[k]).index.word_len as int,
            ).len() > 0,
            forall|s: usize| s < grid.slots ==> ((#[trigger] known@[s as int]) <==> has_output(
                steps@,
                steps@.len() as int,
                s,
            )),
            outputs_distinct(steps@),
            inputs_covered(steps@),
            no_dup_words(wordsv) ==> inputs_resolved(steps@),
        decreases remaining_count,
    {
        // select the next word: most constrained, then longest, then lowest index
        let mut best: usize = 0;
        let mut have: bool = false;
        for w in 0..n
            invariant
                wordsv == grid.words_view(),
                n == wordsv.len(),
                n == remaining@.len(),
                n == constraints@.len(),
                have ==> best < n && remaining@[best as int],
                !have ==> forall|t: int| 0 <= t < w ==> !remaining@[t],
        {
            if remaining[w] {
                if !have {
                    best = w;
                    have = true;
                } else {
                    let cw = constraints[w];
                    let cb = constraints[best];
                    if cw > cb || (cw == cb && grid.words[w].len() > grid.words[best].len()) {
                        best = w;
                    }
                }
            }
        }
        proof {
            if !have {
                lemma_count_true_exists(remaining@, n as int);
            }
        }
        assert(have);

        let m = grid.words[best].len();
        proof {
            assert(m == wordsv[best as int].len());
        }
        if dict.bucket_len(m) == 0 {
            proof {
                assert(wordsv[best as int].len() == m && dict.bucket_view(m as int).len() == 0);
            }
            return Err(PlanError::MissingBucket(m));
        }

        let ghost pre_remaining = remaining@;
        remaining[best] = false;
        remaining_count = remaining_count - 1;
        proof {
            lemma_count_true_update(pre_remaining, best as int, n as int);
        }

        let word = &grid.words[best];
        proof {
            assert(word@ == wordsv[best as int]);
        }
        let mut known_positions: Vec<usize> = Vec::new();
        let mut input_slots: Vec<usize> = Vec::new();
        let mut output_slots: Vec<usize> = Vec::new();
        let ghost mut out_pos: Seq<usize> = Seq::empty();

        for p in 0..m
            invariant
                grid.wf(),
                dict.wf(),
                wordsv == grid.words_view(),
                n == wordsv.len(),
                best < n,
                word@ == wordsv[best as int],
                m == word@.len(),
                constraints@.len() == n,
                known@.len() == grid.slots,
                forall|t: int| 0 <= t < known_positions@.len() ==> known_positions@[t] < p,
                forall|i: int, j: int|
                    0 <= i < j < known_positions@.len() ==> known_positions@[i]
                        < known_positions@[j],
                input_slots@ == proj_slots(wordsv[best as int], known_positions@),
                forall|t: int| 0 <= t < out_pos.len() ==> out_pos[t] < p,
                forall|i: int, j: int| 0 <= i < j < out_pos.len() ==> out_pos[i] < out_pos[j],
                output_slots@ == proj_slots(wordsv[best as int], out_pos),
                forall|q: usize| #[trigger] out_pos.contains(q) <==> (q < p
                    && !known_positions@.contains(q)),
                forall|s: usize| s < grid.slots ==> ((#[trigger] known@[s as int]) <==> (
                has_output(steps@, steps@.len() as int, s) || output_slots@.contains(s))),
                forall|a1: int, a2: int|
                    0 <= a1 < a2 < output_slots@.len() ==> output_slots@[a1] != output_slots@[a2],
                forall|a: int| 0 <= a < output_slots@.len() ==> !has_output(
                    steps@,
                    steps@.len() as int,
                    #[trigger] output_slots@[a],
                ),
                forall|a: int|
                    0 <= a < input_slots@.len() ==> (has_output(
                        steps@,
                        steps@.len() as int,
                        #[trigger] input_slots@[a],
                    ) || output_slots@.contains(input_slots@[a])),
                no_dup_words(wordsv) ==> forall|a: int|
                    0 <= a < input_slots@.len() ==> has_output(
                        steps@,
                        steps@.len() as int,
                        #[trigger] input_slots@[a],
                    ),
        {
            let s = word[p];
            proof {
                assert(s == wordsv[best as int][p as int]);
                assert(s < grid.slots);
            }
            if known[s] {
                let ghost kp_pre = known_positions@;
                let ghost in_pre = input_slots@;
                known_positions.push(p);
                input_slots.push(s);
                proof {
                    assert(input_slots@ =~= proj_slots(wordsv[best as int], known_positions@)) by {
                        assert(known_positions@ == kp_pre.push(p as usize));
                        assert(proj_slots(wordsv[best as int], kp_pre.push(p as usize)) =~= proj_slots(
                            wordsv[best as int],
                            kp_pre,
                        ).push(wordsv[best as int][p as int]));
                    };
                    assert forall|q: usize| #[trigger] out_pos.contains(q) <==> (q < p + 1
                        && !known_positions@.contains(q)) by {
                        if out_pos.contains(q) {
                            assert(q < p);
                            if known_positions@.contains(q) {
                                let t = choose|t: int|
                                    0 <= t < known_positions@.len() && known_positions@[t] == q;
                                if t < kp_pre.len() {
                                    assert(kp_pre.contains(q));
                                } else {
                                    assert(q == p as usize);
                                }
                            }
                        } else {
                            if q < p + 1 && !known_positions@.contains(q) {
                                assert(q != p as usize) by {
                                    assert(known_positions@[known_positions@.len() - 1]
                                        == p as usize);
                                };
                                assert(!kp_pre.contains(q)) by {
                                    if kp_pre.contains(q) {
                                        let t = choose|t: int|
                                            0 <= t < kp_pre.len() && kp_pre[t] == q;
                                        assert(known_positions@[t] == q);
                                    }
                                };
                            }
                        }
                    };
                    assert forall|a: int| 0 <= a < input_slots@.len() implies (has_output(
                        steps@,
                        steps@.len() as int,
                        #[trigger] input_slots@[a],
                    ) || output_slots@.contains(input_slots@[a])) by {
                        if a < in_pre.len() {
                            assert(input_slots@[a] == in_pre[a]);
                        } else {
                            assert(input_slots@[a] == s);
                            assert(known@[s as int]);
                        }
                    };
                    if no_dup_words(wordsv) {
                        // the slot cannot be an output of this same word, so it
                        // was written by an already-planned step
                        assert(has_output(steps@, steps@.len() as int, s)) by {
                            if output_slots@.contains(s) {
                                let a = choose|a: int|
                                    0 <= a < output_slots@.len() && output_slots@[a] == s;
                                assert(output_slots@[a] == wordsv[best as int][out_pos[a] as int]);
                                assert(out_pos[a] < p);
                                assert(wordsv[best as int][out_pos[a] as int]
                                    == wordsv[best as int][p as int]);
                                assert(false);
                            }
                        };
                        assert forall|a: int| 0 <= a < input_slots@.len() implies has_output(
                            steps@,
                            steps@.len() as int,
                            #[trigger] input_slots@[a],
                        ) by {
                            if a < in_pre.len() {
                                assert(input_slots@[a] == in_pre[a]);
                            } else {
                                assert(input_slots@[a] == s);
                            }
                        };
                    }
                }
            } else {
                let ghost out_pre = out_pos;
                let ghost os_pre = output_slots@;
                known[s] = true;
                output_slots.push(s);
                proof {
                    out_pos = out_pos.push(p as usize);
                    assert(output_slots@ =~= proj_slots(wordsv[best as int], out_pos)) by {
                        assert(proj_slots(wordsv[best as int], out_pre.push(p as usize))
                            =~= proj_slots(wordsv[best as int], out_pre).push(
                            wordsv[best as int][p as int],
                        ));
                    };
                    assert(!os_pre.contains(s) && !has_output(steps@, steps@.len() as int, s));
                    assert forall|q: usize| #[trigger] out_pos.contains(q) <==> (q < p + 1
                        && !known_positions@.contains(q)) by {
                        if out_pos.contains(q) {
                            let t = choose|t: int| 0 <= t < out_pos.len() && out_pos[t] == q;
                            if t < out_pre.len() {
                                assert(out_pre.contains(q));
                            } else {
                                assert(q == p as usize);
                                assert(!known_positions@.contains(q)) by {
                                    if known_positions@.contains(q) {
                                        let t2 = choose|t2: int|
                                            0 <= t2 < known_positions@.len()
                                                && known_positions@[t2] == q;
                                        assert(known_positions@[t2] < p);
                                    }
                                };
                            }
                        } else {
                            assert(!out_pre.contains(q)) by {
                                if out_pre.contains(q) {
                                    let t = choose|t: int|
                                        0 <= t < out_pre.len() && out_pre[t] == q;
                                    assert(out_pos[t] == q);
                                }
                            };
                            if q < p {
                                assert(known_positions@.contains(q));
                            }
                            if q == p as usize {
                                assert(out_pos[out_pos.len() - 1] == q);
                                assert(out_pos.contains(q));
                            }
                        }
                    };
                    assert forall|s0: usize| s0 < grid.slots implies ((#[trigger] known@[s0 as int])
                        <==> (has_output(steps@, steps@.len() as int, s0) || output_slots@.contains(
                        s0,
                    ))) by {
                        if s0 == s {
                            assert(output_slots@[output_slots@.len() - 1] == s);
                            assert(output_slots@.contains(s0));
                        } else {
                            assert(output_slots@.contains(s0) <==> os_pre.contains(s0)) by {
                                if output_slots@.contains(s0) {
                                    let a = choose|a: int|
                                        0 <= a < output_slots@.len() && output_slots@[a] == s0;
                                    assert(a < os_pre.len());
                                }
                                if os_pre.contains(s0) {
                                    let a = choose|a: int| 0 <= a < os_pre.len() && os_pre[a] == s0;
                                    assert(output_slots@[a] == s0);
                                }
                            };
                        }
                    };
                    assert forall|a1: int, a2: int| 0 <= a1 < a2 < output_slots@.len() implies
                        output_slots@[a1] != output_slots@[a2] by {
                        if a2 == output_slots@.len() - 1 {
                            assert(!os_pre.contains(s));
                            assert(os_pre[a1] == output_slots@[a1]);
                            if output_slots@[a1] == s {
                                assert(os_pre.contains(s));
                            }
                        }
                    };
                    assert forall|a: int| 0 <= a < input_slots@.len() implies (has_output(
                        steps@,
                        steps@.len() as int,
                        #[trigger] input_slots@[a],
                    ) || output_slots@.contains(input_slots@[a])) by {
                        if os_pre.contains(input_slots@[a]) {
                            let t = choose|t: int|
                                0 <= t < os_pre.len() && os_pre[t] == input_slots@[a];
                            assert(output_slots@[t] == input_slots@[a]);
                        }
                    };
                }
            }
            // propagate constraints to every word sharing this slot
            let adj_len = grid.slot_to_words[s].len();
            for t in 0..adj_len
                invariant
                    grid.wf(),
                    wordsv == grid.words_view(),
                    n == wordsv.len(),
                    s < grid.slots,
                    adj_len == grid.slot_to_words@[s as int]@.len(),
                    constraints@.len() == n,
            {
                let w2 = grid.slot_to_words[s][t];
                proof {
                    crate::grid::lemma_adj_spec_bounds(wordsv, s, wordsv.len() as int);
                    assert(w2 < n);
                }
                let c = constraints[w2];
                if c < usize::MAX {
                    constraints[w2] = c + 1;
                }
            }
        }

        let idx = PatternIndex::new(known_positions, m, dict);
        proof {
            // the index's unknown positions are exactly the output positions
            assert forall|q: usize| out_pos.contains(q) <==> idx.unknown_pos@.contains(q) by {
                if out_pos.contains(q) {
                    assert(q < m && !idx.known_pos@.contains(q));
                }
                if idx.unknown_pos@.contains(q) {
                    let t = choose|t: int|
                        0 <= t < idx.unknown_pos@.len() && idx.unknown_pos@[t] == q;
                    assert(idx.unknown_pos@[t] < m);
                    assert(!idx.known_pos@.contains(q));
                }
            };
            lemma_sorted_same_members(out_pos, idx.unknown_pos@);
        }
        let step = SolverStep { index: idx, input_slots, output_slots, word: best };
        let ghost steps_pre = steps@;
        steps.push(step);
        proof {
            assert(steps@ == steps_pre.push(step));
            assert(step_wf(wordsv, *dict, step, grid.slots)) by {
                assert(step.output_slots@ == proj_slots(wordsv[best as int], step.index.unknown_pos@));
                assert(forall|a: int| 0 <= a < step.input_slots@.len()
                    ==> #[trigger] step.input_slots@[a] < grid.slots);
                assert(forall|a: int| 0 <= a < step.output_slots@.len()
                    ==> #[trigger] step.output_slots@[a] < grid.slots);
            };
            assert forall|s0: usize| s0 < grid.slots implies ((#[trigger] known@[s0 as int]) <==>
                has_output(steps@, steps@.len() as int, s0)) by {
                if known@[s0 as int] {
                    if has_output(steps_pre, steps_pre.len() as int, s0) {
                        let (k, a): (int, int) = choose|k: int, a: int|
                            0 <= k < steps_pre.len() && 0 <= a
                                < steps_pre[k].output_slots@.len()
                                && steps_pre[k].output_slots@[a] == s0;
                        assert(steps@[k].output_slots@[a] == s0);
                    } else {
                        let a = choose|a: int|
                            0 <= a < step.output_slots@.len() && step.output_slots@[a] == s0;
                        assert(steps@[steps_pre.len() as int].output_slots@[a] == s0);
                    }
                } else {
                    if has_output(steps@, steps@.len() as int, s0) {
                        let (k, a): (int, int) = choose|k: int, a: int|
                            0 <= k < steps@.len() && 0 <= a < steps@[k].output_slots@.len()
                                && steps@[k].output_slots@[a] == s0;
                        if k < steps_pre.len() {
                            assert(steps_pre[k].output_slots@[a] == s0);
                        } else {
                            assert(step.output_slots@[a] == s0);
                        }
                    }
                }
            };
            assert(outputs_distinct(steps@)) by {
                assert forall|k1: int, a1: int, k2: int, a2: int|
                    0 <= k1 < steps@.len() && 0 <= a1 < steps@[k1].output_slots@.len() && 0 <= k2
                        < steps@.len() && 0 <= a2 < steps@[k2].output_slots@.len() && (k1 != k2
                        || a1 != a2) implies steps@[k1].output_slots@[a1]
                    != steps@[k2].output_slots@[a2] by {
                    let last = steps_pre.len() as int;
                    if k1 < last && k2 < last {
                        assert(steps_pre[k1].output_slots@[a1] != steps_pre[k2].output_slots@[a2]);
                    } else if k1 == last && k2 == last {
                        assert(step.output_slots@[a1] != step.output_slots@[a2]);
                    } else if k1 == last {
                        assert(!has_output(steps_pre, last, step.output_slots@[a1]));
                        if steps@[k1].output_slots@[a1] == steps@[k2].output_slots@[a2] {
                            assert(has_output(steps_pre, last, step.output_slots@[a1])) by {
                                assert(steps_pre[k2].output_slots@[a2] == step.output_slots@[a1]);
                            };
                        }
                    } else {
                        assert(!has_output(steps_pre, last, step.output_slots@[a2]));
                        if steps@[k1].output_slots@[a1] == steps@[k2].output_slots@[a2] {
                            assert(has_output(steps_pre, last, step.output_slots@[a2])) by {
                                assert(steps_pre[k1].output_slots@[a1] == step.output_slots@[a2]);
                            };
                        }
                    }
                };
            };
            assert(inputs_covered(steps@)) by {
                assert forall|k: int, a: int|
                    0 <= k < steps@.len() && 0 <= a < steps@[k].input_slots@.len() implies
                    has_output(steps@, k + 1, #[trigger] steps@[k].input_slots@[a]) by {
                    let last = steps_pre.len() as int;
                    if k < last {
                        assert(has_output(steps_pre, k + 1, steps_pre[k].input_slots@[a]));
                        let (k2, a2): (int, int) = choose|k2: int, a2: int|
                            0 <= k2 < k + 1 && 0 <= a2 < steps_pre[k2].output_slots@.len()
                                && steps_pre[k2].output_slots@[a2] == steps_pre[k].input_slots@[a];
                        assert(steps@[k2].output_slots@[a2] == steps@[k].input_slots@[a]);
                    } else {
                        let islot = step.input_slots@[a];
                        assert(has_output(steps_pre, last, islot) || step.output_slots@.contains(
                            islot,
                        ));
                        if has_output(steps_pre, last, islot) {
                            let (k2, a2): (int, int) = choose|k2: int, a2: int|
                                0 <= k2 < last && 0 <= a2 < steps_pre[k2].output_slots@.len()
                                    && steps_pre[k2].output_slots@[a2] == islot;
                            assert(steps@[k2].output_slots@[a2] == islot);
                        } else {
                            let a2 = choose|a2: int|
                                0 <= a2 < step.output_slots@.len() && step.output_slots@[a2]
                                    == islot;
                            assert(steps@[last].output_slots@[a2] == islot);
                        }
                    }
                };
            };
            if no_dup_words(wordsv) {
                assert(inputs_resolved(steps@)) by {
                    assert forall|k: int, a: int|
                        0 <= k < steps@.len() && 0 <= a < steps@[k].input_slots@.len() implies
                        has_output(steps@, k, #[trigger] steps@[k].input_slots@[a]) by {
                        let last = steps_pre.len() as int;
                        if k < last {
                            assert(has_output(steps_pre, k, steps_pre[k].input_slots@[a]));
                            let (k2, a2): (int, int) = choose|k2: int, a2: int|
                                0 <= k2 < k && 0 <= a2 < steps_pre[k2].output_slots@.len()
                                    && steps_pre[k2].output_slots@[a2]
                                    == steps_pre[k].input_slots@[a];
                            assert(steps@[k2].output_slots@[a2] == steps@[k].input_slots@[a]);
                        } else {
                            assert(has_output(steps_pre, last, step.input_slots@[a]));
                            let (k2, a2): (int, int) = choose|k2: int, a2: int|
                                0 <= k2 < last && 0 <= a2 < steps_pre[k2].output_slots@.len()
                                    && steps_pre[k2].output_slots@[a2] == step.input_slots@[a];
                            assert(steps@[k2].output_slots@[a2] == steps@[k].input_slots@[a]);
                        }
                    };
                };
            }
            assert forall|w: int| 0 <= w < n implies ((!remaining@[w]) <==> scheduled(
                steps@,
                w as usize,
            )) by {
                if w == best as int {
                    assert(steps@[steps_pre.len() as int].word == best);
                    assert(scheduled(steps@, w as usize));
                } else {
                    if !remaining@[w] {
                        assert(!pre_remaining[w]);
                        assert(scheduled(steps_pre, w as usize));
                        let k = choose|k: int|
                            0 <= k < steps_pre.len() && (#[trigger] steps_pre[k]).word
                                == w as usize;
                        assert(steps@[k].word == w);
                        assert(scheduled(steps@, w as usize));
                    } else {
                        if scheduled(steps@, w as usize) {
                            let k = choose|k: int|
                                0 <= k < steps@.len() && (#[trigger] steps@[k]).word == w as usize;
                            assert(k < steps_pre.len());
                            assert(steps_pre[k].word == w);
                            assert(scheduled(steps_pre, w as usize));
                            assert(!pre_remaining[w]);
                        }
                    }
                }
            };
        }
    }

    proof {
        lemma_count_true_zero(remaining@, n as int);
        assert forall|w: usize| w < wordsv.len() implies #[trigger] scheduled(steps@, w) by {
            assert(!remaining@[w as int]);
        };
        assert forall|w: int| 0 <= w < wordsv.len() implies dict.bucket_view(
            (#[trigger] wordsv[w]).len() as int,
        ).len() > 0 by {
            assert(scheduled(steps@, w as usize));
            let k = choose|k: int| 0 <= k < steps@.len() && (#[trigger] steps@[k]).word
                == w as usize;
            assert(steps@[k].index.word_len == wordsv[w].len());
        };
    }
    Ok(steps)
}

proof fn lemma_count_true_all_true(s: Seq<bool>, n: int)
    requires
        n >= 0,
        forall|t: int| 0 <= t < n ==> s[t],
    ensures
        count_true(s, n) == n,
    decreases n,
{
    if n > 0 {
        lemma_count_true_all_true(s, n - 1);
    }
}

} // verus!
