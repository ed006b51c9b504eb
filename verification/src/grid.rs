use vstd::prelude::*;

verus! {

/// The crossword topology. Each word is an ordered list of slot (cell)
/// identifiers; intersecting words share slot ids. The grid derives the
/// total slot count and, for every slot, the set of words passing through it.
pub struct Grid {
    /// The words, in specification order. Position within a word is the
    /// letter position within that word.
    pub words: Vec<Vec<usize>>,
    /// One greater than the largest slot id referenced by any word
    /// (zero when no slot is referenced).
    pub slots: usize,
    /// For each slot id, the word indices that reference it, in increasing
    /// order, each at most once.
    pub slot_to_words: Vec<Vec<usize>>,
}

/// The word indices among the first `n` words that reference slot `s`,
/// in increasing order, each exactly once.
pub open spec fn adj_spec(words: Seq<Seq<usize>>, s: usize, n: int) -> Seq<usize>
    decreases n,
{
    if n <= 0 {
        Seq::empty()
    } else {
        adj_spec(words, s, n - 1) + if words[n - 1].contains(s) {
            seq![(n - 1) as usize]
        } else {
            Seq::empty()
        }
    }
}

impl Grid {
    /// The words as a sequence of sequences of slot ids.
    pub open spec fn words_view(self) -> Seq<Seq<usize>> {
        self.words.deep_view()
    }

    /// Every derived field agrees with the word list.
    pub open spec fn wf(self) -> bool {
        &&& self.slot_to_words@.len() == self.slots
        &&& forall|w: int, p: int|
            0 <= w < self.words_view().len() && 0 <= p < self.words_view()[w].len()
                ==> self.words_view()[w][p] < self.slots
        &&& (self.slots == 0 || exists|w: int, p: int|
            0 <= w < self.words_view().len() && 0 <= p < self.words_view()[w].len()
                && self.words_view()[w][p] == self.slots - 1)
        &&& forall|s: int| 0 <= s < self.slots
            ==> self.slot_to_words@[s]@ == adj_spec(
                self.words_view(),
                s as usize,
                self.words_view().len() as int,
            )
    }

    /// Builds the grid from the raw topology: derives the slot count and the
    /// slot-to-words adjacency. Accepts any word list, including empty and
    /// degenerate words; a duplicated slot id within one word is recorded once.
    pub fn new(words: Vec<Vec<usize>>) -> (g: Grid)
        requires
            forall|w: int, p: int|
                0 <= w < words.deep_view().len() && 0 <= p < words.deep_view()[w].len()
                    ==> words.deep_view()[w][p] < usize::MAX,
        ensures
            g.wf(),
            g.words_view() == words.deep_view(),
    {
        let n = words.len();
        let mut slots: usize = 0;
        for w in 0..n
            invariant
                n == words@.len(),
                forall|w0: int, p0: int|
                    0 <= w0 < words.deep_view().len() && 0 <= p0 < words.deep_view()[w0].len()
                        ==> words.deep_view()[w0][p0] < usize::MAX,
                forall|w0: int, p0: int|
                    0 <= w0 < w && 0 <= p0 < words.deep_view()[w0].len()
                        ==> words.deep_view()[w0][p0] < slots,
                slots == 0 || exists|w0: int, p0: int|
                    0 <= w0 < w && 0 <= p0 < words.deep_view()[w0].len()
                        && words.deep_view()[w0][p0] == slots - 1,
        {
            let m = words[w].len();
            for p in 0..m
                invariant
                    n == words@.len(),
                    w < n,
                    m == words.deep_view()[w as int].len(),
                    forall|w0: int, p0: int|
                        0 <= w0 < words.deep_view().len() && 0 <= p0 < words.deep_view()[w0].len()
                            ==> words.deep_view()[w0][p0] < usize::MAX,
                    forall|w0: int, p0: int|
                        0 <= w0 < w && 0 <= p0 < words.deep_view()[w0].len()
                            ==> words.deep_view()[w0][p0] < slots,
                    forall|p0: int| 0 <= p0 < p ==> words.deep_view()[w as int][p0] < slots,
                    slots == 0 || exists|w0: int, p0: int|
                        0 <= w0 <= w && 0 <= p0 < words.deep_view()[w0].len()
                            && words.deep_view()[w0][p0] == slots - 1,
            {
                let s = words[w][p];
                proof {
                    assert(s == words.deep_view()[w as int][p as int]);
                }
                if s + 1 > slots {
                    slots = s + 1;
                }
            }
        }

        let mut slot_to_words: Vec<Vec<usize>> = Vec::new();
        let mut i: usize = 0;
        while i < slots
            invariant
                i <= slots,
                slot_to_words@.len() == i,
                forall|s0: int| 0 <= s0 < i ==> slot_to_words@[s0]@ == adj_spec(
                    words.deep_view(),
                    s0 as usize,
                    0,
                ),
            decreases slots - i,
        {
            slot_to_words.push(Vec::new());
            i = i + 1;
        }

        for w in 0..n
            invariant
                n == words@.len(),
                slot_to_words@.len() == slots,
                forall|w0: int, p0: int|
                    0 <= w0 < words.deep_view().len() && 0 <= p0 < words.deep_view()[w0].len()
                        ==> words.deep_view()[w0][p0] < slots,
                forall|s0: int| 0 <= s0 < slots ==> slot_to_words@[s0]@ == adj_spec(
                    words.deep_view(),
                    s0 as usize,
                    w as int,
                ),
                slots == 0 || exists|w0: int, p0: int|
                    0 <= w0 < words.deep_view().len() && 0 <= p0 < words.deep_view()[w0].len()
                        && words.deep_view()[w0][p0] == slots - 1,
        {
            let m = words[w].len();
            for p in 0..m
                invariant
                    n == words@.len(),
                    w < n,
                    m == words.deep_view()[w as int].len(),
                    slot_to_words@.len() == slots,
                    forall|w0: int, p0: int|
                        0 <= w0 < words.deep_view().len() && 0 <= p0 < words.deep_view()[w0].len()
                            ==> words.deep_view()[w0][p0] < slots,
                    // each slot's adjacency covers the first w words, plus the
                    // current word exactly where a prefix position references it
                    forall|s0: int| 0 <= s0 < slots ==> slot_to_words@[s0]@ == adj_spec(
                        words.deep_view(),
                        s0 as usize,
                        w as int,
                    ) + if words.deep_view()[w as int].subrange(0, p as int).contains(s0 as usize) {
                        seq![w as usize]
                    } else {
                        Seq::<usize>::empty()
                    },
                    slots == 0 || exists|w0: int, p0: int|
                        0 <= w0 < words.deep_view().len() && 0 <= p0 < words.deep_view()[w0].len()
                            && words.deep_view()[w0][p0] == slots - 1,
            {
                let s = words[w][p];
                proof {
                    assert(s == words.deep_view()[w as int][p as int]);
                }
                let ghost pre = slot_to_words@[s as int]@;
                let len_s = slot_to_words[s].len();
                let already = len_s > 0 && slot_to_words[s][len_s - 1] == w;
                if !already {
                    proof {
                        assert(!words.deep_view()[w as int].subrange(0, p as int).contains(s)) by {
                            if words.deep_view()[w as int].subrange(0, p as int).contains(s) {
                                assert(pre == adj_spec(words.deep_view(), s, w as int)
                                    + seq![w as usize]);
                                assert(pre[pre.len() - 1] == w as usize);
                            }
                        };
                    }
                    slot_to_words[s].push(w);
                }
                proof {
                    let a = words.deep_view()[w as int].subrange(0, p as int);
                    let b = words.deep_view()[w as int].subrange(0, p as int + 1);
                    assert(b == a + seq![s]);
                    if already {
                        assert(a.contains(s)) by {
                            if !a.contains(s) {
                                assert(pre == adj_spec(words.deep_view(), s, w as int));
                                lemma_adj_spec_bounds(words.deep_view(), s, w as int);
                            }
                        };
                        assert(b.contains(s)) by {
                            assert(b[p as int] == s);
                        };
                    } else {
                        assert(b.contains(s)) by {
                            assert(b[p as int] == s);
                        };
                        assert(slot_to_words@[s as int]@ == pre + seq![w as usize]) by {
                            assert(slot_to_words@[s as int]@ == pre.push(w));
                            assert(pre.push(w) =~= pre + seq![w as usize]);
                        };
                    }
                    assert forall|s0: int| 0 <= s0 < slots implies #[trigger] slot_to_words@[s0]@
                        == adj_spec(words.deep_view(), s0 as usize, w as int) + (if b.contains(
                        s0 as usize,
                    ) {
                        seq![w as usize]
                    } else {
                        Seq::<usize>::empty()
                    }) by {
                        if s0 != s as int {
                            if b.contains(s0 as usize) {
                                let j = choose|j: int| 0 <= j < b.len() && b[j] == s0 as usize;
                                assert(j < a.len());
                                assert(a.contains(s0 as usize));
                            }
                            if a.contains(s0 as usize) {
                                let j = choose|j: int| 0 <= j < a.len() && a[j] == s0 as usize;
                                assert(b[j] == s0 as usize);
                                assert(b.contains(s0 as usize));
                            }
                        }
                    };
                }
            }
            proof {
                assert(forall|s0: int| 0 <= s0 < slots ==> slot_to_words@[s0]@ == adj_spec(
                    words.deep_view(),
                    s0 as usize,
                    w as int + 1,
                )) by {
                    assert forall|s0: int| 0 <= s0 < slots implies slot_to_words@[s0]@ == adj_spec(
                        words.deep_view(),
                        s0 as usize,
                        w as int + 1,
                    ) by {
                        let full = words.deep_view()[w as int];
                        assert(full.subrange(0, full.len() as int) == full);
                    };
                };
            }
        }

        let g = Grid { words, slots, slot_to_words };
        proof {
            assert(g.slot_to_words@.len() == g.slots);
            assert(forall|w: int, p: int|
                0 <= w < g.words_view().len() && 0 <= p < g.words_view()[w].len()
                    ==> g.words_view()[w][p] < g.slots);
            if g.slots != 0 {
                let (w0, p0): (int, int) = choose|w0: int, p0: int|
                    0 <= w0 < g.words_view().len() && 0 <= p0 < g.words_view()[w0].len()
                        && g.words_view()[w0][p0] == g.slots - 1;
                assert(0 <= w0 < g.words_view().len() && 0 <= p0 < g.words_view()[w0].len()
                    && g.words_view()[w0][p0] == g.slots - 1);
            }
            assert(forall|s: int| 0 <= s < g.slots ==> g.slot_to_words@[s]@ == adj_spec(
                g.words_view(),
                s as usize,
                g.words_view().len() as int,
            ));
        }
        g
    }

    /// The number of words in the topology.
    pub fn num_words(&self) -> (n: usize)
        ensures
            n == self.words_view().len(),
    {
        self.words.len()
    }
}

/// Building the grid twice from the same topology yields structurally
/// identical derived data: the slot count and the slot-to-words adjacency are
/// functions of the word list alone.
pub proof fn lemma_grid_deterministic(g1: Grid, g2: Grid)
    requires
        g1.wf(),
        g2.wf(),
        g1.words_view() == g2.words_view(),
    ensures
        g1.slots == g2.slots,
        g1.slot_to_words.deep_view() == g2.slot_to_words.deep_view(),
{
    assert(g1.slots == g2.slots) by {
        if g1.slots < g2.slots {
            let (w, p): (int, int) = choose|w: int, p: int|
                0 <= w < g2.words_view().len() && 0 <= p < g2.words_view()[w].len()
                    && g2.words_view()[w][p] == g2.slots - 1;
            assert(g1.words_view()[w][p] < g1.slots);
        }
        if g2.slots < g1.slots {
            let (w, p): (int, int) = choose|w: int, p: int|
                0 <= w < g1.words_view().len() && 0 <= p < g1.words_view()[w].len()
                    && g1.words_view()[w][p] == g1.slots - 1;
            assert(g2.words_view()[w][p] < g2.slots);
        }
    };
    assert(g1.slot_to_words.deep_view() =~~= g2.slot_to_words.deep_view()) by {
        assert forall|s: int| 0 <= s < g1.slots implies g1.slot_to_words.deep_view()[s]
            == g2.slot_to_words.deep_view()[s] by {
            assert(g1.slot_to_words@[s]@ == adj_spec(
                g1.words_view(),
                s as usize,
                g1.words_view().len() as int,
            ));
            assert(g2.slot_to_words@[s]@ == adj_spec(
                g2.words_view(),
                s as usize,
                g2.words_view().len() as int,
            ));
        };
    };
}

/// Every word index recorded by `adj_spec` over the first `n` words is
/// below `n`.
pub proof fn lemma_adj_spec_bounds(words: Seq<Seq<usize>>, s: usize, n: int)
    ensures
        forall|j: int| 0 <= j < adj_spec(words, s, n).len()
            ==> #[trigger] adj_spec(words, s, n)[j] < n,
    decreases n,
{
    if n > 0 {
        lemma_adj_spec_bounds(words, s, n - 1);
        let prev = adj_spec(words, s, n - 1);
        assert forall|j: int| 0 <= j < adj_spec(words, s, n).len() implies #[trigger] adj_spec(
            words,
            s,
            n,
        )[j] < n by {
            if j < prev.len() {
                assert(adj_spec(words, s, n)[j] == prev[j]);
            }
        };
    }
}

} // verus!
