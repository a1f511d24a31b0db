use multidiff::{multidiff_indexes, project};

fn to_items(s: &str) -> Vec<u64> {
    let mut v: Vec<u64> = Vec::new();
    for c in s.chars() {
        v.push(c as u64);
    }
    v
}

#[test]
fn projection_gives_positions_per_source() {
    let sources = vec![to_items("ab"), to_items("ac")];
    let (out, table) = multidiff_indexes(&sources);
    assert_eq!(out.len(), 3);
    assert_eq!(out[0].value, 'a' as u64);
    assert_eq!(out[1].value, 'b' as u64);
    assert_eq!(out[2].value, 'c' as u64);
    assert_eq!(table.len(), 3);
    assert_eq!(table[0], vec![Some(0), Some(0)]);
    assert_eq!(table[1], vec![Some(1), None]);
    assert_eq!(table[2], vec![None, Some(1)]);
}

#[test]
fn projection_counts_each_source_independently() {
    let sources = vec![to_items("abc"), to_items("bac"), to_items("bca")];
    let (out, table) = multidiff_indexes(&sources);
    assert_eq!(table.len(), out.len());
    // Each column's positions count 0, 1, 2, ... through that source.
    for (s, source) in sources.iter().enumerate() {
        let mut expected_pos: usize = 0;
        for (e, row) in table.iter().enumerate() {
            assert_eq!(row.len(), sources.len());
            if let Some(pos) = row[s] {
                assert_eq!(pos, expected_pos);
                assert_eq!(out[e].value, source[pos]);
                expected_pos += 1;
            }
        }
        assert_eq!(expected_pos, source.len());
    }
}

#[test]
fn projection_of_merged_output_alone() {
    let sources = vec![to_items("xy"), to_items("y")];
    let out = multidiff::multidiff(&sources);
    let table = project(&out, sources.len());
    assert_eq!(table.len(), out.len());
    assert_eq!(table[0], vec![Some(0), None]);
    assert_eq!(table[1], vec![Some(1), Some(0)]);
}

#[test]
fn projection_of_no_sources_is_empty() {
    let sources: Vec<Vec<u64>> = Vec::new();
    let (out, table) = multidiff_indexes(&sources);
    assert!(out.is_empty());
    assert!(table.is_empty());
}
