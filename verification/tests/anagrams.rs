use anagrams::groups::anagram_groups;
use anagrams::groups::Group;
use anagrams::vocab::Vocabulary;
use anagrams::word::Word;

fn texts(words: &[&str]) -> Vec<Vec<u8>> {
    words.iter().map(|w| w.as_bytes().to_vec()).collect()
}

fn group_texts(g: &Group) -> Vec<Vec<u8>> {
    let mut out = vec![g.key.text.clone()];
    for m in g.members.iter() {
        out.push(m.text.clone());
    }
    out
}

fn all_grouped_texts(groups: &[Group]) -> Vec<Vec<u8>> {
    let mut out = Vec::new();
    for g in groups.iter() {
        out.extend(group_texts(g));
    }
    out
}

fn count_of(haystack: &[Vec<u8>], needle: &[u8]) -> usize {
    haystack.iter().filter(|t| t.as_slice() == needle).count()
}

/// The reference predicate of the oracle: equal sorted byte sequences.
fn oracle_anagram(a: &[u8], b: &[u8]) -> bool {
    let mut sa = a.to_vec();
    let mut sb = b.to_vec();
    sa.sort();
    sb.sort();
    sa == sb
}

#[test]
fn equals_agrees_with_sorted_bytes_oracle() {
    let vocab = [
        "", "a", "b", "ab", "ba", "ad", "bc", "aab", "aba", "abb", "eat", "tea", "ate", "cat",
        "listen", "silent", "enlist",
    ];
    for x in vocab.iter() {
        for y in vocab.iter() {
            if x.len() == y.len() {
                let wx = Word::new(x.as_bytes().to_vec());
                let wy = Word::new(y.as_bytes().to_vec());
                assert_eq!(
                    wx.equals(&wy),
                    oracle_anagram(x.as_bytes(), y.as_bytes()),
                    "words {:?} and {:?}",
                    x,
                    y
                );
            }
        }
    }
}

#[test]
fn equals_rejects_checksum_collision() {
    // "ad" and "bc" share the byte sum 197 but differ as multisets: the
    // checksum prefilter alone would wrongly accept them.
    let a = Word::new(b"ad".to_vec());
    let b = Word::new(b"bc".to_vec());
    assert_eq!(a.checksum, b.checksum);
    assert!(!a.equals(&b));
}

#[test]
fn equals_accepts_repeated_bytes_and_empty() {
    let a = Word::new(b"aabb".to_vec());
    let b = Word::new(b"abab".to_vec());
    assert!(a.equals(&b));
    let e1 = Word::new(Vec::new());
    let e2 = Word::new(Vec::new());
    assert!(e1.equals(&e2));
}

#[test]
fn fingerprint_is_idempotent() {
    for text in ["", "a", "anagram", "zzzyyy"] {
        let w1 = Word::new(text.as_bytes().to_vec());
        let w2 = Word::new(text.as_bytes().to_vec());
        assert_eq!(w1.checksum, w2.checksum);
        assert_eq!(w1.histogram, w2.histogram);
        assert_eq!(w1.text, w2.text);
    }
}

#[test]
fn fingerprint_exact_values() {
    let w = Word::new(b"abca".to_vec());
    assert_eq!(w.checksum, 97 + 98 + 99 + 97);
    assert_eq!(w.histogram.len(), 256);
    assert_eq!(w.histogram[97], 2);
    assert_eq!(w.histogram[98], 1);
    assert_eq!(w.histogram[99], 1);
    assert_eq!(w.histogram[100], 0);
    let total: u64 = w.histogram.iter().sum();
    assert_eq!(total, 4);
}

#[test]
fn vocabulary_is_sorted_by_length_then_checksum() {
    let vocab = Vocabulary::from_texts(texts(&["eat", "z", "tab", "be", "cat", "a", "abcd"]));
    assert_eq!(vocab.len(), 7);
    for i in 1..vocab.words.len() {
        let a = &vocab.words[i - 1];
        let b = &vocab.words[i];
        assert!(
            a.text.len() < b.text.len()
                || (a.text.len() == b.text.len() && a.checksum <= b.checksum)
        );
    }
    // same words, only reordered
    let mut given = texts(&["eat", "z", "tab", "be", "cat", "a", "abcd"]);
    let mut held: Vec<Vec<u8>> = vocab.words.iter().map(|w| w.text.clone()).collect();
    given.sort();
    held.sort();
    assert_eq!(given, held);
}

#[test]
fn segments_are_maximal_equal_length_runs() {
    let vocab = Vocabulary::from_texts(texts(&["ddd", "b", "cc", "a"]));
    let segs = vocab.segments();
    assert_eq!(segs, vec![(0, 2), (2, 3), (3, 4)]);
    for (lo, hi) in segs.iter() {
        for p in *lo..*hi {
            assert_eq!(vocab.words[p].text.len(), vocab.words[*lo].text.len());
        }
    }
    let empty = Vocabulary::from_texts(Vec::new());
    assert_eq!(empty.segments().len(), 0);
}

#[test]
fn scenario_two_clusters_and_a_loner() {
    let input = texts(&["eat", "tea", "ate", "bat", "tab", "cat"]);
    let groups = anagram_groups(input);
    assert_eq!(groups.len(), 2);
    let mut eat_group = None;
    let mut bat_group = None;
    for g in groups.iter() {
        let ts = group_texts(g);
        if ts.contains(&b"eat".to_vec()) {
            eat_group = Some(ts.clone());
        }
        if ts.contains(&b"bat".to_vec()) {
            bat_group = Some(ts.clone());
        }
        assert!(!ts.contains(&b"cat".to_vec()));
    }
    let mut eat_group = eat_group.expect("a group holds eat");
    let mut bat_group = bat_group.expect("a group holds bat");
    eat_group.sort();
    bat_group.sort();
    assert_eq!(eat_group, vec![b"ate".to_vec(), b"eat".to_vec(), b"tea".to_vec()]);
    assert_eq!(bat_group, vec![b"bat".to_vec(), b"tab".to_vec()]);
}

#[test]
fn scenario_empty_vocabulary() {
    let groups = anagram_groups(Vec::new());
    assert_eq!(groups.len(), 0);
}

#[test]
fn scenario_all_distinct_lengths() {
    let groups = anagram_groups(texts(&["a", "bb", "ccc", "dddd", "eeeee"]));
    assert_eq!(groups.len(), 0);
}

#[test]
fn scenario_duplicate_texts_are_grouped() {
    let groups = anagram_groups(texts(&["ab", "ba", "ab"]));
    assert_eq!(groups.len(), 1);
    let ts = group_texts(&groups[0]);
    assert_eq!(ts.len(), 3);
    assert_eq!(count_of(&ts, b"ab"), 2);
    assert_eq!(count_of(&ts, b"ba"), 1);
}

#[test]
fn no_group_mixes_lengths() {
    let groups = anagram_groups(texts(&[
        "pot", "top", "opt", "stop", "pots", "tops", "spot", "a", "aa",
    ]));
    for g in groups.iter() {
        for m in g.members.iter() {
            assert_eq!(m.text.len(), g.key.text.len());
        }
    }
}

#[test]
fn each_occurrence_recorded_at_most_once() {
    let input = ["eat", "tea", "ate", "bat", "tab", "cat", "ab", "ba", "ab"];
    let groups = anagram_groups(texts(&input));
    let recorded = all_grouped_texts(&groups);
    let given = texts(&input);
    for t in recorded.iter() {
        assert!(count_of(&recorded, t) <= count_of(&given, t), "word {:?}", t);
    }
}

#[test]
fn partnered_words_are_grouped_and_loners_are_not() {
    let input = ["eat", "tea", "ate", "bat", "tab", "cat", "xyz", "ab", "ba", "ab", "q"];
    let given = texts(&input);
    let groups = anagram_groups(given.clone());
    let recorded = all_grouped_texts(&groups);
    for t in given.iter() {
        let partners = given
            .iter()
            .filter(|u| oracle_anagram(t, u))
            .count();
        if partners >= 2 {
            // every occurrence of a partnered word is recorded
            assert_eq!(count_of(&recorded, t), count_of(&given, t), "word {:?}", t);
        } else {
            assert_eq!(count_of(&recorded, t), 0, "word {:?}", t);
        }
    }
}

#[test]
fn empty_strings_are_anagrams_of_each_other() {
    let groups = anagram_groups(texts(&["", "", "a"]));
    assert_eq!(groups.len(), 1);
    let ts = group_texts(&groups[0]);
    assert_eq!(ts.len(), 2);
    assert_eq!(count_of(&ts, b""), 2);
}

#[test]
fn one_group_per_anagram_class() {
    let groups = anagram_groups(texts(&[
        "eat", "tea", "ate", "bat", "tab", "pot", "top", "opt",
    ]));
    assert_eq!(groups.len(), 3);
    for i in 0..groups.len() {
        for j in 0..groups.len() {
            if i != j {
                assert!(!oracle_anagram(&groups[i].key.text, &groups[j].key.text));
            }
        }
    }
}

#[test]
fn every_member_is_an_anagram_of_its_key() {
    let groups = anagram_groups(texts(&[
        "dear", "read", "dare", "node", "done", "ad", "da", "ad",
    ]));
    assert!(groups.len() >= 1);
    for g in groups.iter() {
        assert!(g.members.len() >= 1);
        for m in g.members.iter() {
            assert!(oracle_anagram(&m.text, &g.key.text));
            assert!(g.key.equals(m));
        }
    }
}
