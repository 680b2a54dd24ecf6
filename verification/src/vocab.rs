//! The vocabulary: words sorted by (length, checksum) so that words of
//! equal length are contiguous and, inside such a run, words of equal
//! checksum are contiguous as well.  The matcher's early-terminating
//! candidate scan is correct only against this order.

use vstd::prelude::*;
use vstd::seq_lib::to_multiset_build;
use vstd::seq_lib::to_multiset_insert;
use vstd::seq_lib::to_multiset_remove;
use crate::word::Word;

verus! {

broadcast use
    vstd::multiset::group_multiset_axioms,
    vstd::multiset::group_multiset_properties;

/// The sort key of a word, compared lexicographically: length first,
/// checksum second.  Strict order.
pub open spec fn word_key_lt(a: Word, b: Word) -> bool {
    ||| a.text@.len() < b.text@.len()
    ||| (a.text@.len() == b.text@.len() && a.checksum < b.checksum)
}

/// Non-strict companion of [`word_key_lt`].
pub open spec fn word_key_le(a: Word, b: Word) -> bool {
    ||| a.text@.len() < b.text@.len()
    ||| (a.text@.len() == b.text@.len() && a.checksum <= b.checksum)
}

/// The sequence is sorted by (length, checksum) ascending.
pub open spec fn sorted_words(s: Seq<Word>) -> bool {
    forall|i: int, j: int| 0 <= i < j < s.len() ==> #[trigger] word_key_le(s[i], s[j])
}

/// Every word of the sequence is a well-formed fingerprint.
pub open spec fn all_wf(s: Seq<Word>) -> bool {
    forall|i: int| 0 <= i < s.len() ==> (#[trigger] s[i]).wf()
}

/// The texts of a sequence of words.
pub open spec fn texts_of(s: Seq<Word>) -> Seq<Seq<u8>> {
    s.map_values(|w: Word| w.text@)
}

/// The views of a sequence of raw words.
pub open spec fn views_of(s: Seq<Vec<u8>>) -> Seq<Seq<u8>> {
    s.map_values(|t: Vec<u8>| t@)
}

/// An ordered collection of word fingerprints, sorted at construction.
pub struct Vocabulary {
    pub words: Vec<Word>,
}

impl Vocabulary {
    /// All entries are well formed and the (length, checksum) order holds.
    pub open spec fn wf(self) -> bool {
        all_wf(self.words@) && sorted_words(self.words@)
    }

    /// Number of words held.
    pub fn len(&self) -> (n: usize)
        ensures
            n == self.words@.len(),
    {
        self.words.len()
    }

    /// Splits the vocabulary into its maximal runs of equal word length:
    /// half-open index ranges, in order, with no overlap and no gap.
    /// Words of different lengths can never be anagrams, so each run can
    /// be consumed independently of all others.
    #[verifier::loop_isolation(false)]
    pub fn segments(&self) -> (segs: Vec<(usize, usize)>)
        requires
            self.wf(),
        ensures
            (segs@.len() == 0 <==> self.words@.len() == 0),
            segs@.len() > 0 ==> (#[trigger] segs@[0]).0 == 0 && segs@[segs@.len() - 1].1
                == self.words@.len(),
            forall|i: int|
                0 <= i < segs@.len() ==> (#[trigger] segs@[i]).0 < segs@[i].1
                    <= self.words@.len(),
            forall|i: int| 0 < i < segs@.len() ==> (#[trigger] segs@[i]).0 == segs@[i - 1].1,
            forall|i: int, p: int, q: int|
                #![trigger segs@[i], self.words@[p], self.words@[q]]
                0 <= i < segs@.len() && segs@[i].0 <= p < q < segs@[i].1
                    ==> self.words@[p].text@.len() == self.words@[q].text@.len(),
            forall|i: int|
                0 < i < segs@.len() ==> self.words@[(#[trigger] segs@[i]).0 as int].text@.len()
                    != self.words@[segs@[i].0 - 1].text@.len(),
    {
        let mut segs: Vec<(usize, usize)> = Vec::new();
        let n = self.words.len();
        let mut start: usize = 0;
        while start < n
            invariant
                start <= n,
                (segs@.len() == 0 <==> start == 0),
                segs@.len() > 0 ==> (#[trigger] segs@[0]).0 == 0 && segs@[segs@.len() - 1].1
                    == start,
                forall|i: int|
                    0 <= i < segs@.len() ==> (#[trigger] segs@[i]).0 < segs@[i].1 <= n,
                forall|i: int| 0 < i < segs@.len() ==> (#[trigger] segs@[i]).0 == segs@[i - 1].1,
                forall|i: int, p: int, q: int|
                    #![trigger segs@[i], self.words@[p], self.words@[q]]
                    0 <= i < segs@.len() && segs@[i].0 <= p < q < segs@[i].1
                        ==> self.words@[p].text@.len() == self.words@[q].text@.len(),
                forall|i: int|
                    0 < i < segs@.len() ==> self.words@[(#[trigger] segs@[i]).0 as int].text@.len()
                        != self.words@[segs@[i].0 - 1].text@.len(),
                0 < start < n ==> self.words@[start as int].text@.len() != self.words@[start
                    - 1].text@.len(),
            decreases n - start,
        {
            let len0 = self.words[start].len();
            let mut end: usize = start + 1;
            while end < n && self.words[end].len() == len0
                invariant
                    start < end <= n,
                    forall|p: int|
                        start <= p < end ==> (#[trigger] self.words@[p]).text@.len() == len0,
                decreases n - end,
            {
                end = end + 1;
            }
            let ghost pre = segs@;
            segs.push((start, end));
            proof {
                assert forall|i: int| 0 <= i < pre.len() implies segs@[i] == pre[i] by {}
                assert(segs@[segs@.len() - 1] == (start, end));
            }
            start = end;
        }
        segs
    }

    /// Fingerprints every raw word and sorts the result by
    /// (length, checksum).  The word multiset is exactly that of the
    /// input; only the order changes.
    pub fn from_texts(texts: Vec<Vec<u8>>) -> (v: Vocabulary)
        ensures
            v.wf(),
            texts_of(v.words@).to_multiset() == views_of(texts@).to_multiset(),
    {
        let ghost orig = views_of(texts@).to_multiset();
        let mut texts = texts;
        let mut words: Vec<Word> = Vec::new();
        proof {
            assert(texts_of(words@) =~= Seq::<Seq<u8>>::empty());
            assert forall|t: Seq<u8>| texts_of(words@).to_multiset().count(t) == 0 by {
                vstd::seq_lib::to_multiset_contains(texts_of(words@), t);
            }
            assert(texts_of(words@).to_multiset().add(views_of(texts@).to_multiset())
                =~= views_of(texts@).to_multiset());
        }
        while texts.len() > 0
            invariant
                all_wf(words@),
                texts_of(words@).to_multiset().add(views_of(texts@).to_multiset()) == orig,
            decreases texts@.len(),
        {
            let ghost pre_texts = texts@;
            let ghost pre_words = words@;
            let t = texts.pop().unwrap();
            let w = Word::new(t);
            words.push(w);
            proof {
                assert(views_of(pre_texts) =~= views_of(texts@).push(t@));
                to_multiset_build(views_of(texts@), t@);
                assert(texts_of(words@) =~= texts_of(pre_words).push(w.text@));
                to_multiset_build(texts_of(pre_words), w.text@);
                assert(texts_of(words@).to_multiset().add(views_of(texts@).to_multiset())
                    =~= texts_of(pre_words).to_multiset().add(views_of(pre_texts).to_multiset()));
            }
        }
        proof {
            assert(views_of(texts@) =~= Seq::<Seq<u8>>::empty());
            assert forall|t: Seq<u8>|
                views_of(texts@).to_multiset().count(t) == 0 by {
                vstd::seq_lib::to_multiset_contains(views_of(texts@), t);
            }
            assert(texts_of(words@).to_multiset().add(views_of(texts@).to_multiset())
                =~= texts_of(words@).to_multiset());
        }
        sort_words(&mut words);
        Vocabulary { words }
    }
}

/// Exec comparison on the sort key, tied to [`word_key_lt`].
fn word_comes_before(a: &Word, b: &Word) -> (r: bool)
    ensures
        r == word_key_lt(*a, *b),
{
    a.text.len() < b.text.len() || (a.text.len() == b.text.len() && a.checksum < b.checksum)
}

/// Insertion sort by (length, checksum).  Keeps the text multiset and
/// the well-formedness of every entry.
pub fn sort_words(words: &mut Vec<Word>)
    requires
        all_wf(old(words)@),
    ensures
        all_wf(final(words)@),
        sorted_words(final(words)@),
        texts_of(final(words)@).to_multiset() == texts_of(old(words)@).to_multiset(),
        final(words)@.len() == old(words)@.len(),
{
    let ghost orig = texts_of(words@).to_multiset();
    let n = words.len();
    if n <= 1 {
        return;
    }
    let mut i: usize = 1;
    while i < n
        invariant
            1 <= i <= n,
            n == words@.len(),
            sorted_words(words@.take(i as int)),
            all_wf(words@),
            texts_of(words@).to_multiset() == orig,
        decreases n - i,
    {
        let mut p: usize = i;
        while p > 0 && word_comes_before(&words[i], &words[p - 1])
            invariant
                p <= i < words@.len(),
                forall|q: int| p <= q < i ==> word_key_lt(words@[i as int], #[trigger] words@[q]),
            decreases p,
        {
            p = p - 1;
        }
        let ghost pre = words@;
        proof {
            assert forall|a: int, b: int| 0 <= a < b < i implies word_key_le(pre[a], pre[b]) by {
                assert(pre.take(i as int)[a] == pre[a]);
                assert(pre.take(i as int)[b] == pre[b]);
                assert(word_key_le(pre.take(i as int)[a], pre.take(i as int)[b]));
            }
        }
        if p < i {
            let w = words.remove(i);
            let ghost mid = words@;
            words.insert(p, w);
            proof {
                to_multiset_remove(texts_of(pre), i as int);
                assert(texts_of(mid) =~= texts_of(pre).remove(i as int));
                to_multiset_insert(texts_of(mid), p as int, w.text@);
                assert(texts_of(words@) =~= texts_of(mid).insert(p as int, w.text@));
                assert(texts_of(pre)[i as int] == w.text@);
                vstd::seq_lib::to_multiset_contains(texts_of(pre), w.text@);
                assert(texts_of(pre).to_multiset().count(w.text@) > 0);
                assert(texts_of(words@).to_multiset() =~= orig);
                assert forall|k: int| 0 <= k < p implies words@[k] == pre[k] by {}
                assert(words@[p as int] == w);
                assert forall|k: int| p < k <= i implies words@[k] == pre[k - 1] by {}
                assert forall|k: int| i < k < pre.len() implies words@[k] == pre[k] by {}
                assert forall|k: int| 0 <= k < words@.len() implies (#[trigger] words@[k]).wf() by {
                    if k < p {
                        assert(words@[k] == pre[k]);
                        assert(pre[k].wf());
                    } else if k == p {
                        assert(words@[k] == w);
                        assert(pre[i as int].wf());
                    } else if k <= i {
                        assert(words@[k] == pre[k - 1]);
                        assert(pre[k - 1].wf());
                    } else {
                        assert(words@[k] == pre[k]);
                        assert(pre[k].wf());
                    }
                }
                assert(all_wf(words@));
                assert forall|x: int, y: int| 0 <= x < y <= i implies #[trigger] word_key_le(
                    words@.take(i as int + 1)[x],
                    words@.take(i as int + 1)[y],
                ) by {
                    assert(words@.take(i as int + 1)[x] == words@[x]);
                    assert(words@.take(i as int + 1)[y] == words@[y]);
                    if p > 0 {
                        assert(!word_key_lt(w, pre[p - 1]));
                    }
                    if y < p {
                        assert(word_key_le(pre[x], pre[y]));
                    } else if y == p {
                        assert(word_key_le(pre[x], pre[p - 1]));
                    } else if x < p {
                        assert(word_key_le(pre[x], pre[y - 1]));
                    } else if x == p {
                        assert(word_key_lt(w, pre[y - 1]));
                    } else {
                        assert(word_key_le(pre[x - 1], pre[y - 1]));
                    }
                }
                assert(sorted_words(words@.take(i as int + 1)));
            }
        } else {
            proof {
                assert forall|x: int, y: int| 0 <= x < y <= i implies #[trigger] word_key_le(
                    words@.take(i as int + 1)[x],
                    words@.take(i as int + 1)[y],
                ) by {
                    assert(words@.take(i as int + 1)[x] == words@[x]);
                    assert(words@.take(i as int + 1)[y] == words@[y]);
                    if y == i {
                        assert(!word_key_lt(words@[i as int], words@[i - 1]));
                        if x < i - 1 {
                            assert(word_key_le(words@[x], words@[i - 1]));
                        }
                    } else {
                        assert(word_key_le(words@[x], words@[y]));
                    }
                }
                assert(sorted_words(words@.take(i as int + 1)));
            }
        }
        i = i + 1;
    }
    proof {
        assert(words@.take(n as int) =~= words@);
    }
}

} // verus!
