//! The word model: an immutable fingerprint of one word, made of its
//! text, its byte-sum checksum and its byte histogram.

use vstd::prelude::*;
use vstd::seq_lib::to_multiset_build;
use vstd::seq_lib::to_multiset_contains;
use vstd::seq_lib::to_multiset_len;
use vstd::seq_lib::to_multiset_remove;

verus! {

/// Sum of all byte values of a word: a cheap prefilter for anagram
/// candidacy.  Equal checksums are necessary but not sufficient.
pub open spec fn checksum_spec(s: Seq<u8>) -> int
    decreases s.len(),
{
    if s.len() == 0 {
        0
    } else {
        checksum_spec(s.drop_last()) + s.last()
    }
}

/// Two words are anagrams exactly when their bytes form the same multiset.
pub open spec fn is_anagram(a: Seq<u8>, b: Seq<u8>) -> bool {
    a.to_multiset() == b.to_multiset()
}

/// Immutable fingerprint of a single word.  `histogram` has one slot per
/// possible byte value; slot `b` counts the occurrences of `b` in `text`.
pub struct Word {
    pub text: Vec<u8>,
    pub checksum: u128,
    pub histogram: Vec<u64>,
}

impl Word {
    /// The checksum and the histogram really are those of the text.
    pub open spec fn wf(self) -> bool {
        &&& self.histogram@.len() == 256
        &&& forall|b: u8|
            self.histogram@[b as int] == #[trigger] self.text@.to_multiset().count(b)
        &&& self.checksum == checksum_spec(self.text@)
    }

    /// Byte length of the word.
    pub fn len(&self) -> (n: usize)
        ensures
            n == self.text@.len(),
    {
        self.text.len()
    }

    /// Builds the fingerprint of `text`.  Any byte sequence is accepted,
    /// including the empty one.
    pub fn new(text: Vec<u8>) -> (w: Word)
        ensures
            w.wf(),
            w.text@ == text@,
    {
        let checksum = byte_sum(&text);
        let histogram = byte_histogram(&text);
        Word { text, checksum, histogram }
    }

    /// Anagram test: short-circuits on unequal checksums, otherwise
    /// compares the two histograms slot by slot.  The result agrees with
    /// byte-multiset equality of the two texts.
    pub fn equals(&self, other: &Word) -> (r: bool)
        requires
            self.wf(),
            other.wf(),
        ensures
            r == is_anagram(self.text@, other.text@),
    {
        if self.checksum != other.checksum {
            proof {
                if is_anagram(self.text@, other.text@) {
                    lemma_anagram_same_checksum(self.text@, other.text@);
                }
            }
            return false;
        }
        let mut i: usize = 0;
        while i < 256
            invariant
                i <= 256,
                self.wf(),
                other.wf(),
                forall|k: int| 0 <= k < i ==> self.histogram@[k] == other.histogram@[k],
            decreases 256 - i,
        {
            if self.histogram[i] != other.histogram[i] {
                proof {
                    let b = i as u8;
                    assert(self.histogram@[b as int] == self.text@.to_multiset().count(b));
                    assert(other.histogram@[b as int] == other.text@.to_multiset().count(b));
                }
                return false;
            }
            i = i + 1;
        }
        proof {
            assert forall|b: u8|
                self.text@.to_multiset().count(b) == other.text@.to_multiset().count(b) by {
                assert(self.histogram@[b as int] == other.histogram@[b as int]);
            }
            assert(self.text@.to_multiset() =~= other.text@.to_multiset());
        }
        true
    }
}

/// Computes the byte-sum checksum of `text`.
fn byte_sum(text: &Vec<u8>) -> (s: u128)
    ensures
        s == checksum_spec(text@),
{
    let mut sum: u128 = 0;
    let mut i: usize = 0;
    while i < text.len()
        invariant
            i <= text@.len(),
            sum == checksum_spec(text@.take(i as int)),
            sum <= 255 * (i as int),
        decreases text@.len() - i,
    {
        proof {
            let t = text@.take(i as int + 1);
            assert(t.drop_last() =~= text@.take(i as int));
            assert(t.last() == text@[i as int]);
        }
        sum = sum + text[i] as u128;
        i = i + 1;
    }
    proof {
        assert(text@.take(text@.len() as int) =~= text@);
    }
    sum
}

/// Counts, in one pass, how many times each byte value occurs in `text`.
fn byte_histogram(text: &Vec<u8>) -> (h: Vec<u64>)
    ensures
        h@.len() == 256,
        forall|b: u8| h@[b as int] == #[trigger] text@.to_multiset().count(b),
{
    let mut h: Vec<u64> = Vec::new();
    let mut j: usize = 0;
    while j < 256
        invariant
            h@.len() == j,
            j <= 256,
            forall|k: int| 0 <= k < j ==> h@[k] == 0,
        decreases 256 - j,
    {
        h.push(0);
        j = j + 1;
    }
    proof {
        assert forall|b: u8| text@.take(0).to_multiset().count(b) == 0 by {
            to_multiset_contains(text@.take(0), b);
        }
    }
    let mut i: usize = 0;
    while i < text.len()
        invariant
            i <= text@.len(),
            h@.len() == 256,
            forall|b: u8| h@[b as int] == #[trigger] text@.take(i as int).to_multiset().count(b),
            forall|k: int| 0 <= k < 256 ==> h@[k] <= i,
        decreases text@.len() - i,
    {
        let b = text[i];
        proof {
            let pre = text@.take(i as int);
            assert(text@.take(i as int + 1) =~= pre.push(text@[i as int]));
            to_multiset_build(pre, text@[i as int]);
            broadcast use vstd::multiset::group_multiset_properties;

            assert(pre.push(text@[i as int]).to_multiset() =~= pre.to_multiset().insert(
                text@[i as int],
            ));
        }
        let c = h[b as usize];
        h[b as usize] = c + 1;
        i = i + 1;
    }
    proof {
        assert(text@.take(text@.len() as int) =~= text@);
    }
    h
}

/// Removing one element from a word lowers its checksum by that element.
pub proof fn lemma_checksum_remove(s: Seq<u8>, i: int)
    requires
        0 <= i < s.len(),
    ensures
        checksum_spec(s) == checksum_spec(s.remove(i)) + s[i],
    decreases s.len(),
{
    if i == s.len() - 1 {
        assert(s.remove(i) =~= s.drop_last());
    } else {
        lemma_checksum_remove(s.drop_last(), i);
        assert(s.remove(i).drop_last() =~= s.drop_last().remove(i));
        assert(s.remove(i).last() == s.last());
    }
}

/// The checksum depends only on the byte multiset: anagrams always have
/// equal checksums.
pub proof fn lemma_anagram_same_checksum(a: Seq<u8>, b: Seq<u8>)
    requires
        is_anagram(a, b),
    ensures
        checksum_spec(a) == checksum_spec(b),
    decreases a.len(),
{
    to_multiset_len(a);
    to_multiset_len(b);
    if a.len() > 0 {
        let x = a.last();
        assert(a[a.len() - 1] == x);
        to_multiset_contains(a, x);
        to_multiset_contains(b, x);
        let i = choose|i: int| 0 <= i < b.len() && b[i] == x;
        to_multiset_remove(b, i);
        to_multiset_remove(a, a.len() - 1);
        assert(a.drop_last() =~= a.remove(a.len() - 1));
        assert(a.drop_last().to_multiset() == b.remove(i).to_multiset());
        lemma_anagram_same_checksum(a.drop_last(), b.remove(i));
        lemma_checksum_remove(b, i);
    }
}

/// Anagrams always have equal length: the histogram, hence the multiset,
/// carries the length.
pub proof fn lemma_anagram_same_len(a: Seq<u8>, b: Seq<u8>)
    requires
        is_anagram(a, b),
    ensures
        a.len() == b.len(),
{
    to_multiset_len(a);
    to_multiset_len(b);
}

/// The byte ordering used by the sorted-bytes oracle.
pub open spec fn byte_leq() -> spec_fn(u8, u8) -> bool {
    |x: u8, y: u8| x <= y
}

/// Oracle equivalence: two words are anagrams exactly when sorting their
/// byte sequences ascending yields the same sequence.
pub proof fn lemma_anagram_oracle(a: Seq<u8>, b: Seq<u8>)
    ensures
        is_anagram(a, b) <==> a.sort_by(byte_leq()) == b.sort_by(byte_leq()),
{
    let leq = byte_leq();
    assert(vstd::relations::total_ordering(leq));
    a.lemma_sort_by_ensures(leq);
    b.lemma_sort_by_ensures(leq);
    if is_anagram(a, b) {
        vstd::seq_lib::lemma_sorted_unique(a.sort_by(leq), b.sort_by(leq), leq);
        assert(a.sort_by(leq) =~= b.sort_by(leq));
    }
}

/// The fingerprint is a function of the text alone: two well-formed words
/// over the same text carry identical checksums and histograms.
pub proof fn lemma_fingerprint_deterministic(w1: Word, w2: Word)
    requires
        w1.wf(),
        w2.wf(),
        w1.text@ == w2.text@,
    ensures
        w1.checksum == w2.checksum,
        w1.histogram@ == w2.histogram@,
{
    assert forall|k: int| 0 <= k < 256 implies w1.histogram@[k] == w2.histogram@[k] by {
        let b = k as u8;
        assert(w1.histogram@[b as int] == w1.text@.to_multiset().count(b));
        assert(w2.histogram@[b as int] == w2.text@.to_multiset().count(b));
    }
    assert(w1.histogram@ =~= w2.histogram@);
}

} // verus!

