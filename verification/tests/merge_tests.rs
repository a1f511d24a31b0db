use multidiff::multidiff;

fn to_items(s: &str) -> Vec<u64> {
    let mut v: Vec<u64> = Vec::new();
    for c in s.chars() {
        v.push(c as u64);
    }
    v
}

fn assert_diff_matches(data: &[&str], expected: &[(char, &[usize])]) {
    let mut sources: Vec<Vec<u64>> = Vec::new();
    for s in data {
        sources.push(to_items(s));
    }
    let actual = multidiff(&sources);
    assert_eq!(actual.len(), expected.len());

    for (i, (expected, actual)) in expected.iter().zip(actual).enumerate() {
        assert_eq!(expected.0 as u64, actual.value);
        let mut indices: Vec<usize> = Vec::new();
        let mut k: usize = 0;
        while k < actual.appears_in.card() {
            indices.push(actual.appears_in.get(k));
            k += 1;
        }
        assert_eq!(expected.1, &indices[..], "idx: {i}");
    }
}

#[test]
fn empty() {
    assert_diff_matches(&[], &[]);
}

#[test]
fn equals() {
    assert_diff_matches(&["ab", "ab", "ab"], &[('a', &[0, 1, 2]), ('b', &[0, 1, 2])]);
}

#[test]
fn different() {
    assert_diff_matches(&["a", "b", "c"], &[('a', &[0]), ('b', &[1]), ('c', &[2])]);
}

#[test]
fn one_differs() {
    assert_diff_matches(
        &["ab", "ab", "ac"],
        &[('a', &[0, 1, 2]), ('b', &[0, 1]), ('c', &[2])],
    );
}

#[test]
fn one() {
    assert_diff_matches(
        &["abbc"],
        &[('a', &[0]), ('b', &[0]), ('b', &[0]), ('c', &[0])],
    );
}

#[test]
fn two() {
    assert_diff_matches(
        &["aaabbbccc", "baacccc"],
        &[
            ('b', &[1]),
            ('a', &[0, 1]),
            ('a', &[0, 1]),
            ('a', &[0]),
            ('b', &[0]),
            ('b', &[0]),
            ('b', &[0]),
            ('c', &[1]),
            ('c', &[0, 1]),
            ('c', &[0, 1]),
            ('c', &[0, 1]),
        ],
    );
}

#[test]
fn three() {
    assert_diff_matches(
        &["abc", "bac", "bca"],
        &[
            ('a', &[0]),
            ('b', &[0, 1, 2]),
            ('a', &[1]),
            ('c', &[0, 1, 2]),
            ('a', &[2]),
        ],
    );
}

#[test]
fn avoids_similar_crash() {
    let sources = vec![vec![0u64], vec![0u64, 0u64]];
    let _ = multidiff(&sources);
}

#[test]
fn short_overlapping_sources_stay_in_bounds() {
    let sources = vec![vec![0u64], vec![0u64, 0u64]];
    let out = multidiff(&sources);
    assert!(out.len() >= 2);
    assert!(out.len() <= 3);
    for chunk in &out {
        assert!(chunk.appears_in.card() >= 1);
    }
}

#[test]
fn no_sources_yield_empty_output() {
    let sources: Vec<Vec<u64>> = Vec::new();
    let out = multidiff(&sources);
    assert_eq!(out.len(), 0);
}

#[test]
fn order_of_sources_matters() {
    assert_diff_matches(&["ab", "ba"], &[('a', &[0]), ('b', &[0, 1]), ('a', &[1])]);
    assert_diff_matches(&["ba", "ab"], &[('b', &[0]), ('a', &[0, 1]), ('b', &[1])]);
}

#[test]
fn restrict_reads_off_each_source() {
    let sources = vec![to_items("abc"), to_items("bac"), to_items("bca")];
    let out = multidiff(&sources);
    for (i, source) in sources.iter().enumerate() {
        let got = multidiff::restrict(&out, i);
        assert_eq!(&got, source);
    }
}
