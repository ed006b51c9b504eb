use crate::dictionary::Dictionary;
use vstd::prelude::*;

verus! {

/// The characters of `word` at the given positions, in position order.
pub open spec fn proj(word: Seq<char>, pos: Seq<usize>) -> Seq<char> {
    pos.map_values(|p: usize| word[p as int])
}

/// A sequence of positions that is strictly increasing and below `len`.
pub open spec fn positions_wf(pos: Seq<usize>, len: usize) -> bool {
    &&& forall|i: int| 0 <= i < pos.len() ==> pos[i] < len
    &&& forall|i: int, j: int| 0 <= i < j < pos.len() ==> pos[i] < pos[j]
}

/// The matches a query with key `key` yields from the first `n` index
/// entries: the bucket position and the unknown-position letters of every
/// entry whose known-position letters equal the key, in bucket order.
pub open spec fn query_spec(
    entries: Seq<(Seq<char>, Seq<char>)>,
    key: Seq<char>,
    n: int,
) -> Seq<(usize, Seq<char>)>
    decreases n,
{
    if n <= 0 {
        Seq::empty()
    } else {
        query_spec(entries, key, n - 1) + if entries[n - 1].0 == key {
            seq![(((n - 1) as usize), entries[n - 1].1)]
        } else {
            Seq::empty()
        }
    }
}

/// The per-step lookup structure: for one word length and one set of known
/// positions, it holds, for every entry of the matching length bucket, the
/// entry's letters at the known positions (the grouping key) and its letters
/// at the remaining positions (what a match hands to the search).
pub struct PatternIndex {
    /// Positions within the word already decided by earlier steps, increasing.
    pub known_pos: Vec<usize>,
    /// The complementary positions, increasing.
    pub unknown_pos: Vec<usize>,
    /// The word length this index serves.
    pub word_len: usize,
    /// For each bucket position: (letters at known positions, letters at
    /// unknown positions).
    pub entries: Vec<(Vec<char>, Vec<char>)>,
}

impl PatternIndex {
    /// The entries as pairs of character sequences.
    pub open spec fn entries_view(self) -> Seq<(Seq<char>, Seq<char>)> {
        Seq::new(self.entries@.len(), |i: int| (self.entries@[i].0@, self.entries@[i].1@))
    }

    /// The index agrees with the length bucket it was built from: the known
    /// and unknown positions partition the word, and entry `i` projects
    /// bucket word `i` at those positions.
    pub open spec fn wf_for(self, bucket: Seq<Seq<char>>) -> bool {
        &&& positions_wf(self.known_pos@, self.word_len)
        &&& positions_wf(self.unknown_pos@, self.word_len)
        &&& forall|p: usize| p < self.word_len
            ==> (self.known_pos@.contains(p) <==> !self.unknown_pos@.contains(p))
        &&& self.entries@.len() == bucket.len()
        &&& forall|i: int| 0 <= i < bucket.len()
            ==> self.entries_view()[i].0 == proj(bucket[i], self.known_pos@)
                && self.entries_view()[i].1 == proj(bucket[i], self.unknown_pos@)
    }

    /// Builds the index for one step: derives the unknown positions as the
    /// ordered complement of the known ones and projects every entry of the
    /// dictionary's bucket for `word_len` at both position lists.
    pub fn new(known_pos: Vec<usize>, word_len: usize, dict: &Dictionary) -> (idx: PatternIndex)
        requires
            positions_wf(known_pos@, word_len),
            dict.wf(),
        ensures
            idx.wf_for(dict.bucket_view(word_len as int)),
            idx.known_pos@ == known_pos@,
            idx.word_len == word_len,
    {
        let ghost bucket = dict.bucket_view(word_len as int);
        let mut unknown_pos: Vec<usize> = Vec::new();
        let mut j: usize = 0;
        for p in 0..word_len
            invariant
                positions_wf(known_pos@, word_len),
                j <= known_pos@.len(),
                forall|t: int| 0 <= t < j ==> known_pos@[t] < p,
                forall|t: int| j <= t < known_pos@.len() ==> known_pos@[t] >= p,
                positions_wf(unknown_pos@, word_len),
                forall|t: int| 0 <= t < unknown_pos@.len() ==> unknown_pos@[t] < p,
                forall|q: usize| q < p ==> (known_pos@.contains(q) <==> !unknown_pos@.contains(q)),
        {
            if j < known_pos.len() && known_pos[j] == p {
                j = j + 1;
                proof {
                    assert(known_pos@.contains(p as usize)) by {
                        assert(known_pos@[j - 1] == p as usize);
                    };
                    assert forall|q: usize| q < p + 1 implies (known_pos@.contains(q)
                        <==> !unknown_pos@.contains(q)) by {
                        if q == p {
                            if unknown_pos@.contains(q) {
                                let t = choose|t: int|
                                    0 <= t < unknown_pos@.len() && unknown_pos@[t] == q;
                                assert(unknown_pos@[t] < p);
                            }
                        }
                    };
                }
            } else {
                proof {
                    assert(!known_pos@.contains(p as usize)) by {
                        if known_pos@.contains(p as usize) {
                            let t = choose|t: int|
                                0 <= t < known_pos@.len() && known_pos@[t] == p as usize;
                            assert(t < j || t >= j);
                        }
                    };
                }
                let ghost pre = unknown_pos@;
                unknown_pos.push(p);
                proof {
                    assert forall|q: usize| q < p + 1 implies (known_pos@.contains(q)
                        <==> !unknown_pos@.contains(q)) by {
                        if q == p {
                            assert(unknown_pos@[unknown_pos@.len() - 1] == p as usize);
                            assert(unknown_pos@.contains(p as usize));
                        } else {
                            assert(unknown_pos@.contains(q) <==> pre.contains(q)) by {
                                if unknown_pos@.contains(q) {
                                    let t = choose|t: int|
                                        0 <= t < unknown_pos@.len() && unknown_pos@[t] == q;
                                    assert(t < pre.len());
                                }
                                if pre.contains(q) {
                                    let t = choose|t: int| 0 <= t < pre.len() && pre[t] == q;
                                    assert(unknown_pos@[t] == q);
                                }
                            };
                        }
                    };
                }
            }
        }

        let bucket_count = dict.bucket_len(word_len);
        let mut entries: Vec<(Vec<char>, Vec<char>)> = Vec::new();
        for i in 0..bucket_count
            invariant
                bucket == dict.bucket_view(word_len as int),
                bucket_count == bucket.len(),
                dict.wf(),
                positions_wf(known_pos@, word_len),
                positions_wf(unknown_pos@, word_len),
                entries@.len() == i,
                forall|t: int| 0 <= t < i
                    ==> (#[trigger] entries@[t]).0@ == proj(bucket[t], known_pos@)
                        && entries@[t].1@ == proj(bucket[t], unknown_pos@),
        {
            let wordref = dict.bucket_word(word_len, i);
            proof {
                assert(wordref@.len() == word_len);
            }
            let mut keyl: Vec<char> = Vec::new();
            let kn = known_pos.len();
            for t in 0..kn
                invariant
                    kn == known_pos@.len(),
                    wordref@ == bucket[i as int],
                    wordref@.len() == word_len,
                    positions_wf(known_pos@, word_len),
                    keyl@ == proj(bucket[i as int], known_pos@).subrange(0, t as int),
            {
                keyl.push(wordref[known_pos[t]]);
                proof {
                    assert(keyl@ =~= proj(bucket[i as int], known_pos@).subrange(0, t as int + 1));
                }
            }
            let mut unk: Vec<char> = Vec::new();
            let un = unknown_pos.len();
            for t in 0..un
                invariant
                    un == unknown_pos@.len(),
                    wordref@ == bucket[i as int],
                    wordref@.len() == word_len,
                    positions_wf(unknown_pos@, word_len),
                    unk@ == proj(bucket[i as int], unknown_pos@).subrange(0, t as int),
            {
                unk.push(wordref[unknown_pos[t]]);
                proof {
                    assert(unk@ =~= proj(bucket[i as int], unknown_pos@).subrange(0, t as int + 1));
                }
            }
            proof {
                assert(keyl@ =~= proj(bucket[i as int], known_pos@));
                assert(unk@ =~= proj(bucket[i as int], unknown_pos@));
            }
            entries.push((keyl, unk));
        }
        PatternIndex { known_pos, unknown_pos, word_len, entries }
    }

    /// Enumerates, in bucket order, every entry whose known-position letters
    /// equal `key`: its bucket position and its unknown-position letters.
    pub fn query(&self, key: &Vec<char>) -> (r: Vec<(usize, Vec<char>)>)
        ensures
            ({
                let m = query_spec(self.entries_view(), key@, self.entries_view().len() as int);
                &&& r@.len() == m.len()
                &&& forall|t: int| 0 <= t < m.len()
                    ==> (#[trigger] r@[t]).0 == m[t].0 && r@[t].1@ == m[t].1
            }),
    {
        let n = self.entries.len();
        let mut r: Vec<(usize, Vec<char>)> = Vec::new();
        for i in 0..n
            invariant
                n == self.entries@.len(),
                ({
                    let m = query_spec(self.entries_view(), key@, i as int);
                    &&& r@.len() == m.len()
                    &&& forall|t: int| 0 <= t < m.len()
                        ==> (#[trigger] r@[t]).0 == m[t].0 && r@[t].1@ == m[t].1
                }),
        {
            let ghost mpre = query_spec(self.entries_view(), key@, i as int);
            if chars_eq(&self.entries[i].0, key) {
                let letters = clone_chars(&self.entries[i].1);
                r.push((i, letters));
                proof {
                    assert(query_spec(self.entries_view(), key@, i as int + 1) =~= mpre + seq![
                        ((i as usize), self.entries_view()[i as int].1),
                    ]);
                }
            } else {
                proof {
                    assert(query_spec(self.entries_view(), key@, i as int + 1) =~= mpre);
                }
            }
        }
        r
    }
}

/// Every match `query_spec` yields points at an entry below `n` whose key
/// equals the query, and carries that entry's unknown-position letters.
pub proof fn lemma_query_spec_sound(entries: Seq<(Seq<char>, Seq<char>)>, key: Seq<char>, n: int)
    requires
        0 <= n <= entries.len(),
        n <= usize::MAX,
    ensures
        forall|t: int|
            0 <= t < query_spec(entries, key, n).len() ==> {
                let e = #[trigger] query_spec(entries, key, n)[t];
                &&& 0 <= e.0 < n
                &&& entries[e.0 as int].0 == key
                &&& e.1 == entries[e.0 as int].1
            },
    decreases n,
{
    if n > 0 {
        lemma_query_spec_sound(entries, key, n - 1);
        let prev = query_spec(entries, key, n - 1);
        assert forall|t: int| 0 <= t < query_spec(entries, key, n).len() implies {
            let e = #[trigger] query_spec(entries, key, n)[t];
            &&& 0 <= e.0 < n
            &&& entries[e.0 as int].0 == key
            &&& e.1 == entries[e.0 as int].1
        } by {
            if t < prev.len() {
                assert(query_spec(entries, key, n)[t] == prev[t]);
            } else {
                assert(query_spec(entries, key, n)[t] == (((n - 1) as usize), entries[n - 1].1));
            }
        };
    }
}

/// Every entry below `n` whose key equals the query appears among the
/// matches `query_spec` yields.
pub proof fn lemma_query_spec_complete(
    entries: Seq<(Seq<char>, Seq<char>)>,
    key: Seq<char>,
    n: int,
    p: int,
)
    requires
        0 <= p < n <= entries.len(),
        p <= usize::MAX,
        entries[p].0 == key,
    ensures
        exists|t: int|
            0 <= t < query_spec(entries, key, n).len() && #[trigger] query_spec(entries, key, n)[t]
                == (((p as usize), entries[p].1)),
    decreases n,
{
    if p == n - 1 {
        let m = query_spec(entries, key, n);
        let prev = query_spec(entries, key, n - 1);
        assert(m[prev.len() as int] == (((n - 1) as usize), entries[n - 1].1));
    } else {
        lemma_query_spec_complete(entries, key, n - 1, p);
        let prev = query_spec(entries, key, n - 1);
        let t = choose|t: int|
            0 <= t < prev.len() && #[trigger] prev[t] == (((p as usize), entries[p].1));
        assert(query_spec(entries, key, n)[t] == prev[t]);
    }
}

/// Character-by-character equality of two character vectors.
pub fn chars_eq(a: &Vec<char>, b: &Vec<char>) -> (r: bool)
    ensures
        r <==> a@ == b@,
{
    if a.len() != b.len() {
        proof {
            assert(a@ != b@);
        }
        return false;
    }
    let n = a.len();
    for i in 0..n
        invariant
            n == a@.len(),
            n == b@.len(),
            forall|t: int| 0 <= t < i ==> a@[t] == b@[t],
    {
        if a[i] != b[i] {
            return false;
        }
    }
    proof {
        assert(a@ =~= b@);
    }
    true
}

/// A fresh copy of a character vector.
pub fn clone_chars(a: &Vec<char>) -> (r: Vec<char>)
    ensures
        r@ == a@,
{
    let n = a.len();
    let mut r: Vec<char> = Vec::new();
    for i in 0..n
        invariant
            n == a@.len(),
            r@ == a@.subrange(0, i as int),
    {
        r.push(a[i]);
        proof {
            assert(r@ =~= a@.subrange(0, i as int + 1));
        }
    }
    proof {
        assert(r@ =~= a@);
    }
    r
}

} // verus!
