//! Matcher and grouper: consumes a sorted vocabulary and produces the
//! anagram groups.
//!
//! The vocabulary order (length ascending, checksum ascending) makes every
//! anagram-candidate class contiguous: a pivot taken from the high end
//! needs to scan backwards only while (length, checksum) still match, and
//! everything before that point can never be an anagram of the pivot.
//! A matched candidate is consumed and can never be matched again; a pivot
//! that matches nothing is silently dropped.

use vstd::prelude::*;
use vstd::multiset::Multiset;
use vstd::seq_lib::lemma_multiset_commutative;
use vstd::seq_lib::to_multiset_build;
use vstd::seq_lib::to_multiset_contains;
use vstd::seq_lib::to_multiset_remove;
use vstd::seq_lib::to_multiset_update;
use crate::word::Word;
use crate::word::is_anagram;
use crate::word::lemma_anagram_same_checksum;
use crate::word::lemma_anagram_same_len;
use crate::vocab::Vocabulary;
use crate::vocab::all_wf;
use crate::vocab::sorted_words;
use crate::vocab::texts_of;
use crate::vocab::views_of;
use crate::vocab::word_key_le;

verus! {

broadcast use
    vstd::multiset::group_multiset_axioms,
    vstd::multiset::group_multiset_properties;

/// One anagram cluster: an arbitrary representative word and the ordered
/// list of its discovered partners.
pub struct Group {
    pub key: Word,
    pub members: Vec<Word>,
}

/// A group always holds at least one partner, and every member is an
/// anagram of the key.
pub open spec fn group_wf(g: Group) -> bool {
    &&& g.key.wf()
    &&& g.members@.len() >= 1
    &&& forall|i: int|
        0 <= i < g.members@.len() ==> (#[trigger] g.members@[i]).wf() && is_anagram(
            g.members@[i].text@,
            g.key.text@,
        )
}

pub open spec fn all_groups_wf(gs: Seq<Group>) -> bool {
    forall|i: int| 0 <= i < gs.len() ==> group_wf(#[trigger] gs[i])
}

/// Every word recorded in one group, the key included.
pub open spec fn group_words(g: Group) -> Seq<Word> {
    g.members@.push(g.key)
}

/// Every word recorded across a sequence of groups.
pub open spec fn groups_words(gs: Seq<Group>) -> Seq<Word>
    decreases gs.len(),
{
    if gs.len() == 0 {
        Seq::empty()
    } else {
        groups_words(gs.drop_last()) + group_words(gs.last())
    }
}

/// The multiset of texts recorded across the groups: each occurrence of a
/// word in the output counts once.
pub open spec fn grouped_texts(gs: Seq<Group>) -> Multiset<Seq<u8>> {
    texts_of(groups_words(gs)).to_multiset()
}

/// `t` has an anagram partner among the other occurrences of `m`: after
/// giving up one occurrence of `t` itself, some anagram of `t` remains.
pub open spec fn has_partner(m: Multiset<Seq<u8>>, t: Seq<u8>) -> bool {
    exists|u: Seq<u8>| is_anagram(t, u) && m.remove(t).count(u) > 0
}

/// A sequence of words with no element at all has no text occurrences.
proof fn lemma_texts_empty(ws: Seq<Word>)
    requires
        ws.len() == 0,
    ensures
        texts_of(ws).to_multiset() == Multiset::<Seq<u8>>::empty(),
{
    assert forall|t: Seq<u8>| texts_of(ws).to_multiset().count(t) == 0 by {
        to_multiset_contains(texts_of(ws), t);
    }
    assert(texts_of(ws).to_multiset() =~= Multiset::<Seq<u8>>::empty());
}

/// Mapping to texts distributes over concatenation.
proof fn lemma_texts_of_concat(a: Seq<Word>, b: Seq<Word>)
    ensures
        texts_of(a + b) == texts_of(a) + texts_of(b),
{
    assert(texts_of(a + b) =~= texts_of(a) + texts_of(b));
}

/// Pushing one more group adds exactly that group's text occurrences.
proof fn lemma_grouped_texts_push(gs: Seq<Group>, g: Group)
    ensures
        grouped_texts(gs.push(g)) == grouped_texts(gs).add(
            texts_of(g.members@).to_multiset().insert(g.key.text@),
        ),
{
    let gs2 = gs.push(g);
    assert(gs2.drop_last() =~= gs);
    assert(gs2.last() == g);
    assert(groups_words(gs2) == groups_words(gs) + group_words(g));
    lemma_texts_of_concat(groups_words(gs), group_words(g));
    lemma_multiset_commutative(texts_of(groups_words(gs)), texts_of(group_words(g)));
    assert(texts_of(group_words(g)) =~= texts_of(g.members@).push(g.key.text@));
    to_multiset_build(texts_of(g.members@), g.key.text@);
}

/// If no word of `ws` is an anagram of `t`, then no anagram of `t` occurs
/// among the texts of `ws`.
proof fn lemma_no_anagram_occurrence(ws: Seq<Word>, t: Seq<u8>)
    requires
        forall|q: int| 0 <= q < ws.len() ==> !is_anagram((#[trigger] ws[q]).text@, t),
    ensures
        forall|u: Seq<u8>| is_anagram(t, u) ==> texts_of(ws).to_multiset().count(u) == 0,
{
    assert forall|u: Seq<u8>| is_anagram(t, u) implies texts_of(ws).to_multiset().count(u)
        == 0 by {
        if texts_of(ws).to_multiset().count(u) > 0 {
            to_multiset_contains(texts_of(ws), u);
            assert(texts_of(ws).contains(u));
            let q = choose|q: int| 0 <= q < texts_of(ws).len() && texts_of(ws)[q] == u;
            assert(ws[q].text@ == u);
            assert(!is_anagram(ws[q].text@, t));
        }
    }
}

/// Every word occurrence recorded in some group sits beside a partner
/// occurrence in the same group: another recorded occurrence whose text is
/// an anagram of it.
proof fn lemma_grouped_occurrence_has_partner(gs: Seq<Group>, t: Seq<u8>)
    requires
        all_groups_wf(gs),
        grouped_texts(gs).count(t) > 0,
    ensures
        exists|u: Seq<u8>|
            is_anagram(t, u) && grouped_texts(gs).remove(t).count(u) > 0,
    decreases gs.len(),
{
    if gs.len() == 0 {
        lemma_texts_empty(groups_words(gs));
        assert(false);
    } else {
        let g = gs.last();
        let rest = gs.drop_last();
        assert(group_wf(g));
        lemma_texts_of_concat(groups_words(rest), group_words(g));
        lemma_multiset_commutative(texts_of(groups_words(rest)), texts_of(group_words(g)));
        let gm = texts_of(group_words(g)).to_multiset();
        assert(grouped_texts(gs) == grouped_texts(rest).add(gm));
        assert(texts_of(group_words(g)) =~= texts_of(g.members@).push(g.key.text@));
        to_multiset_build(texts_of(g.members@), g.key.text@);
        if gm.count(t) > 0 {
            let mm = texts_of(g.members@).to_multiset();
            assert(gm == mm.insert(g.key.text@));
            assert(texts_of(g.members@)[0] == g.members@[0].text@);
            to_multiset_contains(texts_of(g.members@), g.members@[0].text@);
            assert(mm.count(g.members@[0].text@) > 0);
            if t == g.key.text@ {
                let u = g.members@[0].text@;
                assert(is_anagram(u, g.key.text@));
                assert(is_anagram(t, u));
                if u == t {
                    assert(gm.count(t) >= 2);
                } else {
                    assert(gm.count(u) > 0);
                }
                assert(gm.remove(t).count(u) > 0);
                assert(grouped_texts(gs).remove(t).count(u) > 0);
            } else {
                assert(mm.count(t) > 0);
                to_multiset_contains(texts_of(g.members@), t);
                assert(texts_of(g.members@).contains(t));
                let q = choose|q: int|
                    0 <= q < texts_of(g.members@).len() && texts_of(g.members@)[q] == t;
                assert(g.members@[q].text@ == t);
                assert(is_anagram(g.members@[q].text@, g.key.text@));
                let u = g.key.text@;
                assert(is_anagram(t, u));
                assert(gm.count(u) > 0);
                assert(gm.remove(t).count(u) > 0);
                assert(grouped_texts(gs).remove(t).count(u) > 0);
            }
        } else {
            assert(grouped_texts(rest).count(t) > 0);
            assert(all_groups_wf(rest)) by {
                assert forall|i: int| 0 <= i < rest.len() implies group_wf(#[trigger] rest[i]) by {
                    assert(rest[i] == gs[i]);
                    assert(group_wf(gs[i]));
                }
            }
            lemma_grouped_occurrence_has_partner(rest, t);
            let u = choose|u: Seq<u8>|
                is_anagram(t, u) && grouped_texts(rest).remove(t).count(u) > 0;
            assert(grouped_texts(gs).remove(t).count(u) > 0);
        }
    }
}

/// The text of every group's key is recorded in the grouped occurrences.
proof fn lemma_key_text_counted(gs: Seq<Group>, i: int)
    requires
        0 <= i < gs.len(),
    ensures
        grouped_texts(gs).count(gs[i].key.text@) > 0,
    decreases gs.len(),
{
    let g = gs.last();
    let rest = gs.drop_last();
    lemma_texts_of_concat(groups_words(rest), group_words(g));
    lemma_multiset_commutative(texts_of(groups_words(rest)), texts_of(group_words(g)));
    let gm = texts_of(group_words(g)).to_multiset();
    assert(grouped_texts(gs) == grouped_texts(rest).add(gm));
    assert(texts_of(group_words(g)) =~= texts_of(g.members@).push(g.key.text@));
    to_multiset_build(texts_of(g.members@), g.key.text@);
    if i == gs.len() - 1 {
        assert(gm.count(g.key.text@) > 0);
    } else {
        assert(rest[i] == gs[i]);
        lemma_key_text_counted(rest, i);
    }
}

/// Exec check for an identical sort key: equal length and equal checksum.
fn same_key(a: &Word, b: &Word) -> (r: bool)
    ensures
        r == (a.text@.len() == b.text@.len() && a.checksum == b.checksum),
{
    a.text.len() == b.text.len() && a.checksum == b.checksum
}

/// Scans backwards from the high end of `words` and consumes every word
/// that is an anagram of `pivot`.  Thanks to the (length, checksum) sort
/// order the scan stops at the first key mismatch: everything before it
/// has a strictly smaller key and can never match.  Unmatched candidates
/// stay in place for later pivots; afterwards no word of `words` is an
/// anagram of the pivot.
#[verifier::loop_isolation(false)]
fn collect_members(words: &mut Vec<Word>, pivot: &Word) -> (members: Vec<Word>)
    requires
        all_wf(old(words)@),
        sorted_words(old(words)@),
        pivot.wf(),
        forall|q: int|
            0 <= q < old(words)@.len() ==> word_key_le(#[trigger] old(words)@[q], *pivot),
    ensures
        all_wf(final(words)@),
        sorted_words(final(words)@),
        all_wf(members@),
        forall|q: int|
            0 <= q < members@.len() ==> is_anagram((#[trigger] members@[q]).text@, pivot.text@),
        forall|q: int|
            0 <= q < final(words)@.len() ==> !is_anagram(
                (#[trigger] final(words)@[q]).text@,
                pivot.text@,
            ),
        texts_of(old(words)@).to_multiset() == texts_of(final(words)@).to_multiset().add(
            texts_of(members@).to_multiset(),
        ),
        final(words)@.len() <= old(words)@.len(),
{
    let mut j: usize = words.len();
    while j > 0 && same_key(&words[j - 1], pivot)
        invariant
            j <= words@.len(),
            forall|q: int|
                j <= q < words@.len() ==> (#[trigger] words@[q]).text@.len() == pivot.text@.len()
                    && words@[q].checksum == pivot.checksum,
        decreases j,
    {
        j = j - 1;
    }
    let ghost snap = words@;
    proof {
        assert forall|q: int| 0 <= q < j implies !is_anagram(
            (#[trigger] snap[q]).text@,
            pivot.text@,
        ) by {
            assert(!(snap[j - 1].text@.len() == pivot.text@.len() && snap[j - 1].checksum
                == pivot.checksum));
            assert(word_key_le(snap[j - 1], *pivot));
            if q < j - 1 {
                assert(word_key_le(snap[q], snap[j - 1]));
            }
            if is_anagram(snap[q].text@, pivot.text@) {
                lemma_anagram_same_len(snap[q].text@, pivot.text@);
                lemma_anagram_same_checksum(snap[q].text@, pivot.text@);
                assert(snap[q].checksum == pivot.checksum);
                assert(snap[q].text@.len() == pivot.text@.len());
            }
        }
    }
    let mut members: Vec<Word> = Vec::new();
    proof {
        lemma_texts_empty(members@);
        assert(texts_of(snap).to_multiset() =~= texts_of(words@).to_multiset().add(
            texts_of(members@).to_multiset(),
        ));
    }
    let mut k: usize = words.len();
    while k > j
        invariant
            j <= k <= words@.len() <= snap.len(),
            forall|q: int| 0 <= q < j ==> words@[q] == snap[q],
            sorted_words(words@),
            all_wf(words@),
            all_wf(members@),
            forall|q: int|
                0 <= q < members@.len() ==> is_anagram(
                    (#[trigger] members@[q]).text@,
                    pivot.text@,
                ),
            forall|q: int|
                j <= q < words@.len() ==> (#[trigger] words@[q]).text@.len()
                    == pivot.text@.len() && words@[q].checksum == pivot.checksum,
            forall|q: int|
                k <= q < words@.len() ==> !is_anagram(
                    (#[trigger] words@[q]).text@,
                    pivot.text@,
                ),
            texts_of(snap).to_multiset() == texts_of(words@).to_multiset().add(
                texts_of(members@).to_multiset(),
            ),
        decreases k,
    {
        k = k - 1;
        if pivot.equals(&words[k]) {
            let ghost prew = words@;
            let ghost prem = members@;
            let w = words.swap_remove(k);
            members.push(w);
            proof {
                assert(words@ =~= prew.update(k as int, prew.last()).drop_last());
                assert forall|q: int| 0 <= q < words@.len() implies words@[q] == (if q == k {
                    prew[prew.len() - 1]
                } else {
                    prew[q]
                }) by {}
                assert forall|q: int| 0 <= q < words@.len() implies (#[trigger] words@[q]).wf() by {
                    if q == k {
                        assert(prew[prew.len() - 1].wf());
                    } else {
                        assert(prew[q].wf());
                    }
                }
                assert forall|x: int, y: int| 0 <= x < y < words@.len() implies
                    #[trigger] word_key_le(words@[x], words@[y]) by {
                    if x < j {
                        assert(words@[x] == prew[x]);
                        if y == k {
                            assert(word_key_le(prew[x], prew[prew.len() - 1]));
                        } else {
                            assert(word_key_le(prew[x], prew[y]));
                        }
                    } else {
                        // both sit in the equal-key block
                        assert(words@[x].text@.len() == pivot.text@.len());
                        assert(words@[y].text@.len() == pivot.text@.len());
                    }
                }
                // the moved word was already examined and retained
                assert forall|q: int| k <= q < words@.len() implies !is_anagram(
                    (#[trigger] words@[q]).text@,
                    pivot.text@,
                ) by {
                    if q == k {
                        assert(!is_anagram(prew[prew.len() - 1].text@, pivot.text@));
                    } else {
                        assert(!is_anagram(prew[q].text@, pivot.text@));
                    }
                }
                // multiset bookkeeping: one occurrence moved from words to members
                let pt = texts_of(prew);
                to_multiset_update(pt, k as int, prew.last().text@);
                assert(texts_of(prew.update(k as int, prew.last())) =~= pt.update(
                    k as int,
                    prew.last().text@,
                ));
                let ut = pt.update(k as int, prew.last().text@);
                to_multiset_remove(ut, ut.len() - 1);
                assert(texts_of(words@) =~= ut.remove(ut.len() - 1));
                assert(ut[ut.len() - 1] == prew.last().text@);
                assert(pt[k as int] == w.text@);
                to_multiset_contains(pt, w.text@);
                assert(pt.contains(w.text@)) by {
                    assert(pt[k as int] == w.text@);
                }
                assert(texts_of(words@).to_multiset() =~= pt.to_multiset().remove(w.text@));
                assert(texts_of(members@) =~= texts_of(prem).push(w.text@));
                to_multiset_build(texts_of(prem), w.text@);
                assert(texts_of(snap).to_multiset() =~= texts_of(words@).to_multiset().add(
                    texts_of(members@).to_multiset(),
                ));
            }
        }
    }
    proof {
        assert forall|q: int| 0 <= q < words@.len() implies !is_anagram(
            (#[trigger] words@[q]).text@,
            pivot.text@,
        ) by {
            if q < j {
                assert(words@[q] == snap[q]);
                assert(!is_anagram(snap[q].text@, pivot.text@));
            }
        }
    }
    members
}

/// Consumes the sorted vocabulary and returns the anagram groups.
///
/// Writing `input` for the multiset of vocabulary texts and `grouped` for
/// the multiset of texts recorded across the returned groups:
/// every group is a well-formed anagram cluster; every input occurrence is
/// recorded at most once; an occurrence is left out exactly when it has no
/// anagram partner among the other occurrences of the vocabulary.
#[verifier::loop_isolation(false)]
pub fn find_groups(vocab: Vocabulary) -> (groups: Vec<Group>)
    requires
        vocab.wf(),
    ensures
        all_groups_wf(groups@),
        grouped_texts(groups@).subset_of(texts_of(vocab.words@).to_multiset()),
        forall|t: Seq<u8>|
            texts_of(vocab.words@).to_multiset().sub(grouped_texts(groups@)).count(t) > 0
                ==> !has_partner(texts_of(vocab.words@).to_multiset(), t),
        forall|t: Seq<u8>|
            #[trigger] grouped_texts(groups@).count(t) > 0 ==> has_partner(
                texts_of(vocab.words@).to_multiset(),
                t,
            ),
        forall|a: int, b: int|
            #![trigger groups@[a], groups@[b]]
            0 <= a < b < groups@.len() ==> !is_anagram(groups@[a].key.text@, groups@[b].key.text@),
{
    let mut words = vocab.words;
    let ghost input = texts_of(words@).to_multiset();
    let ghost mut dropped = Multiset::<Seq<u8>>::empty();
    let mut groups: Vec<Group> = Vec::new();
    proof {
        assert(groups_words(groups@) == Seq::<Word>::empty());
        lemma_texts_empty(groups_words(groups@));
        assert(input =~= texts_of(words@).to_multiset().add(grouped_texts(groups@)).add(dropped));
    }
    while words.len() > 0
        invariant
            all_wf(words@),
            sorted_words(words@),
            all_groups_wf(groups@),
            input == texts_of(words@).to_multiset().add(grouped_texts(groups@)).add(dropped),
            forall|t: Seq<u8>, u: Seq<u8>|
                #![trigger grouped_texts(groups@).add(dropped).count(t), texts_of(words@).to_multiset().count(u)]
                is_anagram(t, u) && grouped_texts(groups@).add(dropped).count(t) > 0
                    ==> texts_of(words@).to_multiset().count(u) == 0,
            forall|t: Seq<u8>, u: Seq<u8>|
                is_anagram(t, u) && dropped.count(t) > 0 ==> #[trigger] dropped.remove(t).count(u)
                    == 0,
            forall|t: Seq<u8>, u: Seq<u8>|
                #![trigger dropped.count(t), grouped_texts(groups@).count(u)]
                is_anagram(t, u) && dropped.count(t) > 0 ==> grouped_texts(groups@).count(u) == 0,
            forall|a: int, b: int|
                #![trigger groups@[a], groups@[b]]
                0 <= a < b < groups@.len() ==> !is_anagram(
                    groups@[a].key.text@,
                    groups@[b].key.text@,
                ),
        decreases words@.len(),
    {
        let ghost prev = words@;
        let ghost prev_ms = texts_of(prev).to_multiset();
        let pivot = words.pop().unwrap();
        proof {
            assert(words@ =~= prev.drop_last());
            assert(prev[prev.len() - 1] == pivot);
            assert(pivot.wf());
            assert forall|q: int| 0 <= q < words@.len() implies word_key_le(
                #[trigger] words@[q],
                pivot,
            ) by {
                assert(words@[q] == prev[q]);
                assert(word_key_le(prev[q], prev[prev.len() - 1]));
            }
            assert forall|q: int| 0 <= q < words@.len() implies (#[trigger] words@[q]).wf() by {
                assert(prev[q].wf());
            }
            assert forall|x: int, y: int| 0 <= x < y < words@.len() implies #[trigger] word_key_le(
                words@[x],
                words@[y],
            ) by {
                assert(word_key_le(prev[x], prev[y]));
            }
            assert(prev.drop_last() =~= prev.remove(prev.len() - 1));
            to_multiset_remove(texts_of(prev), prev.len() - 1);
            assert(texts_of(words@) =~= texts_of(prev).remove(prev.len() - 1));
            assert(texts_of(prev)[prev.len() - 1] == pivot.text@);
            to_multiset_contains(texts_of(prev), pivot.text@);
            assert(prev_ms.count(pivot.text@) > 0) by {
                assert(texts_of(prev)[prev.len() - 1] == pivot.text@);
            }
            assert(prev_ms =~= texts_of(words@).to_multiset().insert(pivot.text@));
        }
        let ghost after_pop = words@;
        let members = collect_members(&mut words, &pivot);
        proof {
            assert(prev_ms == texts_of(after_pop).to_multiset().insert(pivot.text@));
            assert(texts_of(after_pop).to_multiset() == texts_of(words@).to_multiset().add(
                texts_of(members@).to_multiset(),
            ));
            lemma_no_anagram_occurrence(words@, pivot.text@);
        }
        if members.len() > 0 {
            let ghost old_groups = groups@;
            let g = Group { key: pivot, members };
            proof {
                assert(group_wf(g));
            }
            groups.push(g);
            proof {
                assert(groups@ == old_groups.push(g));
                lemma_grouped_texts_push(old_groups, g);
                let gm = texts_of(g.members@).to_multiset().insert(g.key.text@);
                assert(grouped_texts(groups@) == grouped_texts(old_groups).add(gm));
                assert forall|i: int| 0 <= i < groups@.len() implies group_wf(
                    #[trigger] groups@[i],
                ) by {
                    if i < old_groups.len() {
                        assert(groups@[i] == old_groups[i]);
                        assert(group_wf(old_groups[i]));
                    }
                }
                assert(input =~= texts_of(words@).to_multiset().add(grouped_texts(groups@)).add(
                    dropped,
                ));
                // keys of distinct groups are never anagrams: an earlier
                // key's whole class was consumed while the pivot was still
                // active
                assert forall|a: int, b: int|
                    0 <= a < b < groups@.len() implies !is_anagram(
                    (#[trigger] groups@[a]).key.text@,
                    (#[trigger] groups@[b]).key.text@,
                ) by {
                    if b < old_groups.len() {
                        assert(groups@[a] == old_groups[a]);
                        assert(groups@[b] == old_groups[b]);
                    } else {
                        assert(groups@[b] == g);
                        assert(groups@[a] == old_groups[a]);
                        if is_anagram(old_groups[a].key.text@, pivot.text@) {
                            lemma_key_text_counted(old_groups, a);
                            assert(grouped_texts(old_groups).add(dropped).count(
                                old_groups[a].key.text@,
                            ) > 0);
                            assert(texts_of(prev).to_multiset().count(pivot.text@) == 0);
                            assert(false);
                        }
                    }
                }
                // a processed word never has an anagram left among the active ones
                assert forall|t: Seq<u8>, u: Seq<u8>|
                    is_anagram(t, u) && grouped_texts(groups@).add(dropped).count(t) > 0 implies
                    texts_of(words@).to_multiset().count(u) == 0 by {
                    if grouped_texts(old_groups).add(dropped).count(t) > 0 {
                        assert(texts_of(prev).to_multiset().count(u) == 0);
                        assert(texts_of(words@).to_multiset().count(u) <= texts_of(
                            after_pop,
                        ).to_multiset().count(u));
                    } else {
                        assert(gm.count(t) > 0);
                        if t != g.key.text@ {
                            to_multiset_contains(texts_of(g.members@), t);
                            let q = choose|q: int|
                                0 <= q < texts_of(g.members@).len() && texts_of(g.members@)[q]
                                    == t;
                            assert(g.members@[q].text@ == t);
                            assert(is_anagram(t, g.key.text@));
                        }
                        assert(is_anagram(g.key.text@, u));
                    }
                }
                // the dropped words are untouched, and nothing anagram to them
                // was just recorded
                assert forall|t: Seq<u8>, u: Seq<u8>|
                    is_anagram(t, u) && dropped.count(t) > 0 implies grouped_texts(
                    groups@,
                ).count(u) == 0 by {
                    assert(grouped_texts(old_groups).count(u) == 0);
                    if gm.count(u) > 0 {
                        if u != g.key.text@ {
                            to_multiset_contains(texts_of(g.members@), u);
                            let q = choose|q: int|
                                0 <= q < texts_of(g.members@).len() && texts_of(g.members@)[q]
                                    == u;
                            assert(g.members@[q].text@ == u);
                            assert(is_anagram(u, g.key.text@));
                        }
                        assert(is_anagram(t, g.key.text@));
                        assert(grouped_texts(old_groups).add(dropped).count(t) > 0);
                        assert(texts_of(prev).to_multiset().count(g.key.text@) == 0);
                        assert(prev_ms.count(pivot.text@) > 0);
                        assert(false);
                    }
                }
            }
        } else {
            proof {
                let old_dropped = dropped;
                dropped = dropped.insert(pivot.text@);
                lemma_texts_empty(members@);
                assert(texts_of(after_pop).to_multiset() =~= texts_of(words@).to_multiset());
                assert(input =~= texts_of(words@).to_multiset().add(grouped_texts(groups@)).add(
                    dropped,
                ));
                // no processed word is an anagram of the pivot, since the
                // pivot was active a moment ago
                assert forall|u: Seq<u8>| is_anagram(u, pivot.text@) implies grouped_texts(
                    groups@,
                ).add(old_dropped).count(u) == 0 by {
                    if grouped_texts(groups@).add(old_dropped).count(u) > 0 {
                        assert(is_anagram(u, pivot.text@));
                        assert(texts_of(prev).to_multiset().count(pivot.text@) == 0);
                        assert(false);
                    }
                }
                assert forall|t: Seq<u8>, u: Seq<u8>|
                    is_anagram(t, u) && grouped_texts(groups@).add(dropped).count(t) > 0 implies
                    texts_of(words@).to_multiset().count(u) == 0 by {
                    if grouped_texts(groups@).add(old_dropped).count(t) > 0 {
                        assert(texts_of(prev).to_multiset().count(u) == 0);
                        assert(texts_of(words@).to_multiset().count(u) <= texts_of(
                            after_pop,
                        ).to_multiset().count(u));
                    } else {
                        assert(t == pivot.text@);
                        assert(is_anagram(pivot.text@, u));
                    }
                }
                assert forall|t: Seq<u8>, u: Seq<u8>|
                    is_anagram(t, u) && dropped.count(t) > 0 implies dropped.remove(t).count(u)
                    == 0 by {
                    if t == pivot.text@ {
                        assert(grouped_texts(groups@).add(old_dropped).count(t) == 0);
                        if u == pivot.text@ {
                            assert(old_dropped.count(u) == 0);
                        } else {
                            assert(is_anagram(u, pivot.text@));
                            assert(grouped_texts(groups@).add(old_dropped).count(u) == 0);
                            assert(old_dropped.count(u) == 0);
                        }
                    } else {
                        assert(old_dropped.count(t) > 0);
                        assert(old_dropped.remove(t).count(u) == 0);
                        if u == pivot.text@ {
                            assert(is_anagram(u, t));
                            assert(grouped_texts(groups@).add(old_dropped).count(t) > 0);
                            assert(texts_of(prev).to_multiset().count(pivot.text@) == 0);
                            assert(false);
                        }
                    }
                }
                assert forall|t: Seq<u8>, u: Seq<u8>|
                    is_anagram(t, u) && dropped.count(t) > 0 implies grouped_texts(
                    groups@,
                ).count(u) == 0 by {
                    if t == pivot.text@ {
                        assert(is_anagram(u, pivot.text@));
                        assert(grouped_texts(groups@).add(old_dropped).count(u) == 0);
                    } else {
                        assert(old_dropped.count(t) > 0);
                    }
                }
            }
        }
    }
    proof {
        lemma_texts_empty(words@);
        assert(input == grouped_texts(groups@).add(dropped)) by {
            assert(input =~= grouped_texts(groups@).add(dropped));
        }
        assert(grouped_texts(groups@).subset_of(input)) by {
            assert forall|t: Seq<u8>| grouped_texts(groups@).count(t) <= input.count(t) by {}
        }
        let grouped = grouped_texts(groups@);
        assert forall|t: Seq<u8>| input.sub(grouped).count(t) > 0 implies !has_partner(
            input,
            t,
        ) by {
            assert(dropped.count(t) == input.sub(grouped).count(t));
            if has_partner(input, t) {
                let u = choose|u: Seq<u8>| is_anagram(t, u) && input.remove(t).count(u) > 0;
                assert(grouped.count(u) == 0);
                if u == t {
                    assert(dropped.count(t) >= 2);
                    assert(dropped.remove(t).count(t) > 0);
                } else {
                    assert(dropped.count(u) > 0);
                    assert(dropped.remove(t).count(u) > 0);
                }
                assert(false);
            }
        }
        assert forall|t: Seq<u8>| #[trigger] grouped.count(t) > 0 implies has_partner(
            input,
            t,
        ) by {
            lemma_grouped_occurrence_has_partner(groups@, t);
            let u = choose|u: Seq<u8>| is_anagram(t, u) && grouped.remove(t).count(u) > 0;
            assert(input.remove(t).count(u) >= grouped.remove(t).count(u));
            assert(is_anagram(t, u) && input.remove(t).count(u) > 0);
        }
    }
    groups
}

/// Fingerprints, sorts and groups a raw vocabulary in one call.  The
/// contract is that of [`find_groups`], stated over the raw input texts.
pub fn anagram_groups(texts: Vec<Vec<u8>>) -> (groups: Vec<Group>)
    ensures
        all_groups_wf(groups@),
        grouped_texts(groups@).subset_of(views_of(texts@).to_multiset()),
        forall|t: Seq<u8>|
            views_of(texts@).to_multiset().sub(grouped_texts(groups@)).count(t) > 0
                ==> !has_partner(views_of(texts@).to_multiset(), t),
        forall|t: Seq<u8>|
            #[trigger] grouped_texts(groups@).count(t) > 0 ==> has_partner(
                views_of(texts@).to_multiset(),
                t,
            ),
        forall|a: int, b: int|
            #![trigger groups@[a], groups@[b]]
            0 <= a < b < groups@.len() ==> !is_anagram(groups@[a].key.text@, groups@[b].key.text@),
{
    let vocab = Vocabulary::from_texts(texts);
    find_groups(vocab)
}

/// No group ever holds two words of different lengths: every recorded word
/// is an anagram of the key, and anagrams have equal length.
pub proof fn lemma_group_same_len(g: Group, i: int, j: int)
    requires
        group_wf(g),
        0 <= i < group_words(g).len(),
        0 <= j < group_words(g).len(),
    ensures
        group_words(g)[i].text@.len() == group_words(g)[j].text@.len(),
{
    let ws = group_words(g);
    assert forall|q: int| 0 <= q < ws.len() implies ws[q].text@.len() == g.key.text@.len() by {
        if q < g.members@.len() {
            assert(ws[q] == g.members@[q]);
            lemma_anagram_same_len(g.members@[q].text@, g.key.text@);
        } else {
            assert(ws[q] == g.key);
        }
    }
}

} // verus!
