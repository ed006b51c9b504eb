use vstd::prelude::*;
use vstd::string::StrSliceExecFns;

verus! {

/// ASCII lower-casing of a single character; every other character is kept.
pub open spec fn lower_char_spec(c: char) -> char {
    match c {
        'A' => 'a',
        'B' => 'b',
        'C' => 'c',
        'D' => 'd',
        'E' => 'e',
        'F' => 'f',
        'G' => 'g',
        'H' => 'h',
        'I' => 'i',
        'J' => 'j',
        'K' => 'k',
        'L' => 'l',
        'M' => 'm',
        'N' => 'n',
        'O' => 'o',
        'P' => 'p',
        'Q' => 'q',
        'R' => 'r',
        'S' => 's',
        'T' => 't',
        'U' => 'u',
        'V' => 'v',
        'W' => 'w',
        'X' => 'x',
        'Y' => 'y',
        'Z' => 'z',
        _ => c,
    }
}

/// A word after ASCII lower-casing, character by character.
pub open spec fn lower_word(s: Seq<char>) -> Seq<char> {
    s.map_values(|c: char| lower_char_spec(c))
}

/// The length bucket for `len` drawn from the first `n` raw words:
/// every raw word of exactly `len` characters, lower-cased, in input order.
pub open spec fn bucket_spec(raw: Seq<Seq<char>>, len: int, n: int) -> Seq<Seq<char>>
    decreases n,
{
    if n <= 0 {
        Seq::empty()
    } else {
        bucket_spec(raw, len, n - 1) + if raw[n - 1].len() == len {
            seq![lower_word(raw[n - 1])]
        } else {
            Seq::empty()
        }
    }
}

/// The bucket a table of buckets holds for `len`: empty when out of range.
pub open spec fn bucket_in(buckets: Seq<Seq<Seq<char>>>, len: int) -> Seq<Seq<char>> {
    if 0 <= len < buckets.len() {
        buckets[len]
    } else {
        Seq::empty()
    }
}

/// The word list bucketed by character count. Bucket order is input order;
/// an entry's index within its bucket is its stable "bucket position", the
/// identity the solver uses for its no-repeated-word rule.
pub struct Dictionary {
    /// `words[len]` holds the lower-cased input words of `len` characters.
    pub words: Vec<Vec<Vec<char>>>,
}

impl Dictionary {
    /// The buckets as a sequence indexed by word length.
    pub open spec fn buckets_view(self) -> Seq<Seq<Seq<char>>> {
        self.words.deep_view()
    }

    /// The bucket for a given word length (empty when none was built).
    pub open spec fn bucket_view(self, len: int) -> Seq<Seq<char>> {
        bucket_in(self.buckets_view(), len)
    }

    /// Every entry of the bucket for `len` has exactly `len` characters.
    pub open spec fn wf(self) -> bool {
        forall|l: int, i: int|
            0 <= l && 0 <= i < self.bucket_view(l).len() ==> (#[trigger] self.bucket_view(l)[i]).len() == l
    }

    /// Builds the dictionary: each input word is lower-cased and appended to
    /// the bucket of its character count. Input order within a bucket is kept;
    /// duplicates and empty strings are accepted as they come.
    pub fn from_vec(v: Vec<String>) -> (d: Dictionary)
        ensures
            d.wf(),
            forall|l: int| 0 <= l ==> d.bucket_view(l) == bucket_spec(
                v.deep_view(),
                l,
                v.deep_view().len() as int,
            ),
    {
        let ghost raw = v.deep_view();
        let n = v.len();
        let mut words: Vec<Vec<Vec<char>>> = Vec::new();
        for k in 0..n
            invariant
                n == v@.len(),
                raw == v.deep_view(),
                forall|l: int| 0 <= l ==> bucket_in(words.deep_view(), l) == bucket_spec(
                    raw,
                    l,
                    k as int,
                ),
                forall|l: int, i: int|
                    0 <= l && 0 <= i < bucket_in(words.deep_view(), l).len()
                        ==> (#[trigger] bucket_in(words.deep_view(), l)[i]).len() == l,
        {
            let s = v[k].as_str();
            proof {
                assert(s@ == raw[k as int]);
            }
            let len = s.unicode_len();
            let mut wchars: Vec<char> = Vec::new();
            for i in 0..len
                invariant
                    len == s@.len(),
                    wchars@ == lower_word(s@).subrange(0, i as int),
            {
                let c = s.get_char(i);
                wchars.push(lower_char(c));
                proof {
                    assert(wchars@ =~= lower_word(s@).subrange(0, i as int + 1));
                }
            }
            proof {
                assert(wchars@ =~= lower_word(raw[k as int]));
            }
            while words.len() <= len
                invariant
                    forall|l: int| 0 <= l ==> bucket_in(words.deep_view(), l) == bucket_spec(
                        raw,
                        l,
                        k as int,
                    ),
                    forall|l: int, i: int|
                        0 <= l && 0 <= i < bucket_in(words.deep_view(), l).len()
                            ==> (#[trigger] bucket_in(words.deep_view(), l)[i]).len() == l,
                decreases len + 1 - words.len(),
            {
                let ghost pre = words.deep_view();
                words.push(Vec::new());
                proof {
                    assert forall|l: int| 0 <= l implies bucket_in(words.deep_view(), l)
                        == bucket_in(pre, l) by {
                        if 0 <= l < pre.len() {
                            assert(words.deep_view()[l] == pre[l]);
                        } else if l == pre.len() {
                            assert(bucket_in(words.deep_view(), l) =~= Seq::<Seq<char>>::empty());
                        }
                    };
                    assert forall|l: int, i: int|
                        0 <= l && 0 <= i < bucket_in(words.deep_view(), l).len() implies (
                    #[trigger] bucket_in(words.deep_view(), l)[i]).len() == l by {
                        assert(bucket_in(words.deep_view(), l) == bucket_in(pre, l));
                        assert(bucket_in(pre, l)[i].len() == l);
                    };
                }
            }
            let ghost pre = words.deep_view();
            let ghost preb = words@[len as int]@;
            words[len].push(wchars);
            proof {
                assert(words@[len as int]@ == preb.push(wchars));
                assert(words.deep_view()[len as int] =~= pre[len as int] + seq![wchars@]) by {
                    assert forall|i: int| 0 <= i < preb.len() implies
                        #[trigger] words.deep_view()[len as int][i] == pre[len as int][i] by {
                        assert(words@[len as int]@[i] == preb[i]);
                    };
                    assert(words.deep_view()[len as int][preb.len() as int] == wchars@);
                };
                assert forall|l: int| 0 <= l implies bucket_in(words.deep_view(), l) == bucket_spec(
                    raw,
                    l,
                    k as int + 1,
                ) by {
                    if l == len {
                        assert(bucket_in(words.deep_view(), l) =~= bucket_in(pre, l)
                            + seq![lower_word(raw[k as int])]);
                        assert(raw[k as int].len() == len);
                    } else {
                        if 0 <= l < words.deep_view().len() {
                            assert(words.deep_view()[l] == pre[l]);
                        }
                        assert(bucket_spec(raw, l, k as int + 1) =~= bucket_spec(raw, l, k as int));
                    }
                };
                assert forall|l: int, i: int|
                    0 <= l && 0 <= i < bucket_in(words.deep_view(), l).len() implies (
                #[trigger] bucket_in(words.deep_view(), l)[i]).len() == l by {
                    if l == len && i == bucket_in(words.deep_view(), l).len() - 1 {
                        assert(bucket_in(words.deep_view(), l)[i] == lower_word(raw[k as int]));
                    } else {
                        assert(bucket_in(words.deep_view(), l)[i] == bucket_in(pre, l)[i]);
                    }
                };
            }
        }
        Dictionary { words }
    }

    /// The bucket entry at position `i` for words of `len` characters.
    pub fn bucket_word(&self, len: usize, i: usize) -> (w: &Vec<char>)
        requires
            i < self.bucket_view(len as int).len(),
        ensures
            w@ == self.bucket_view(len as int)[i as int],
    {
        proof {
            assert(len < self.words@.len());
            assert(self.words@[len as int]@[i as int]@ == self.bucket_view(len as int)[i as int]);
        }
        &self.words[len][i]
    }

    /// The number of entries in the bucket for words of `len` characters.
    pub fn bucket_len(&self, len: usize) -> (n: usize)
        ensures
            n == self.bucket_view(len as int).len(),
    {
        if len < self.words.len() {
            self.words[len].len()
        } else {
            0
        }
    }
}

/// ASCII lower-casing of a single character.
pub fn lower_char(c: char) -> (r: char)
    ensures
        r == lower_char_spec(c),
{
    match c {
        'A' => 'a',
        'B' => 'b',
        'C' => 'c',
        'D' => 'd',
        'E' => 'e',
        'F' => 'f',
        'G' => 'g',
        'H' => 'h',
        'I' => 'i',
        'J' => 'j',
        'K' => 'k',
        'L' => 'l',
        'M' => 'm',
        'N' => 'n',
        'O' => 'o',
        'P' => 'p',
        'Q' => 'q',
        'R' => 'r',
        'S' => 's',
        'T' => 't',
        'U' => 'u',
        'V' => 'v',
        'W' => 'w',
        'X' => 'x',
        'Y' => 'y',
        'Z' => 'z',
        _ => c,
    }
}

} // verus!
