use oxli::hashing::hash_windows;
use oxli::{KmerCountTable, KmersAndHashesIter, TableError, TableParts};
use std::collections::HashMap;

fn table_with(counts: &[(u64, u64)]) -> KmerCountTable {
    let mut t = KmerCountTable::new(3, false);
    for &(h, c) in counts {
        for _ in 0..c {
            t.count_hash(h);
        }
    }
    t
}

#[test]
fn canonical_form_is_shared_with_reverse_complement() {
    let t = KmerCountTable::new(4, false);
    for kmer in ["AACG", "acgt", "GGTA", "TTTT", "CaTg"] {
        let rc: String = kmer
            .chars()
            .rev()
            .map(|c| match c.to_ascii_uppercase() {
                'A' => 'T',
                'T' => 'A',
                'C' => 'G',
                'G' => 'C',
                x => x,
            })
            .collect();
        assert_eq!(t.canon(kmer), t.canon(&rc));
        assert_eq!(t.hash_kmer(kmer.to_string()), t.hash_kmer(rc));
    }
    assert_eq!(t.canon("GGTA"), Ok("GGTA".to_string()));
    assert_eq!(t.canon("tacc"), Ok("GGTA".to_string()));
    assert_eq!(t.canon("TTTT"), Ok("AAAA".to_string()));
    assert_eq!(t.canon("ANNA"), Err(TableError::InvalidCharacter));
    assert_eq!(t.canon("ACG"), Err(TableError::WrongLength));
}

#[test]
fn fresh_table_counts_nothing_and_count_hash_accumulates() {
    let mut t = KmerCountTable::new(21, false);
    for h in [0u64, 1, 42, u64::MAX] {
        assert_eq!(t.get_hash(h), 0);
    }
    for i in 1..=5u64 {
        assert_eq!(t.count_hash(42), i);
    }
    assert_eq!(t.get_hash(42), 5);
    assert_eq!(t.get_hash(43), 0);
    assert_eq!(t.get_hash_array(vec![42, 43, 42]), vec![5, 0, 5]);
}

#[test]
fn mincut_twice_removes_nothing_more() {
    let mut t = table_with(&[(1, 1), (2, 2), (3, 3), (4, 1)]);
    assert_eq!(t.mincut(2), 2);
    assert_eq!(t.mincut(2), 0);
    assert_eq!(t.len(), 2);
    assert_eq!(t.get_hash(1), 0);
    assert_eq!(t.get_hash(3), 3);
    assert_eq!(t.maxcut(2), 1);
    assert_eq!(t.maxcut(2), 0);
    assert_eq!(t.hashes(), vec![2]);
}

#[test]
fn jaccard_against_empty_tables() {
    let a = table_with(&[(1, 1), (2, 5)]);
    let empty = KmerCountTable::new(3, false);
    assert_eq!(a.jaccard_ratio(&empty), Ok((0, 2)));
    assert_eq!(empty.jaccard_ratio(&empty), Ok((1, 1)));
    let b = table_with(&[(2, 1), (3, 1)]);
    assert_eq!(a.jaccard_ratio(&b), Ok((1, 3)));
    let other_k = KmerCountTable::new(4, false);
    assert_eq!(a.jaccard_ratio(&other_k), Err(TableError::IncompatibleTables));
}

#[test]
fn dot_product_with_self_is_sum_of_squares() {
    let a = table_with(&[(1, 1), (2, 3), (7, 2)]);
    assert_eq!(a.dot_product(&a), Ok(Some(1 + 9 + 4)));
    let b = table_with(&[(2, 2), (9, 4)]);
    assert_eq!(a.dot_product(&b), Ok(Some(6)));
    let mut parts = KmerCountTable::new(3, false).to_parts();
    parts.counts.insert(5, u64::MAX);
    let huge = KmerCountTable::from_parts(parts);
    let mut two = KmerCountTable::new(3, false);
    two.count_hash(5);
    two.count_hash(5);
    assert_eq!(huge.dot_product(&two), Ok(None));
    assert_eq!(huge.dot_product(&a), Ok(Some(0)));
}

#[test]
fn add_twice_doubles_and_adds_no_new_keys() {
    let mut a = table_with(&[(1, 1), (2, 2)]);
    let b = table_with(&[(2, 3), (5, 4)]);
    assert_eq!(a.add(&b), Ok((7, 1)));
    assert_eq!(a.add(&b), Ok((7, 0)));
    assert_eq!(a.get_hash(1), 1);
    assert_eq!(a.get_hash(2), 2 + 2 * 3);
    assert_eq!(a.get_hash(5), 2 * 4);
    let mut c = KmerCountTable::new(4, false);
    assert_eq!(c.add(&b), Err(TableError::IncompatibleTables));
}

#[test]
fn add_keeps_existing_kmer_text() {
    let mut a = KmerCountTable::new(3, true);
    let mut b = KmerCountTable::new(3, true);
    a.count("AAC".to_string()).unwrap();
    b.count("GTT".to_string()).unwrap();
    b.count("CCA".to_string()).unwrap();
    let h_aac = a.hash_kmer("AAC".to_string()).unwrap();
    let h_cca = a.hash_kmer("CCA".to_string()).unwrap();
    assert_eq!(a.add(&b), Ok((2, 1)));
    assert_eq!(a.unhash(h_aac), Ok("AAC".to_string()));
    assert_eq!(a.unhash(h_cca), Ok("CCA".to_string()));
    assert_eq!(a.get("GTT".to_string()), Ok(2));
}

#[test]
fn parts_round_trip_reproduces_table() {
    let mut t = KmerCountTable::new(3, true);
    t.consume("ACGTTGCAAC", true).unwrap();
    let back = KmerCountTable::from_parts(t.to_parts());
    assert_eq!(back.dump(false, true), t.dump(false, true));
    assert_eq!(back.ksize(), 3);
    assert_eq!(back.consumed(), 10);
    assert_eq!(back.version(), t.version());
    assert_eq!(back.dump_kmers(false, true), t.dump_kmers(false, true));
}

#[test]
fn from_parts_drops_zero_counts() {
    let mut counts = HashMap::new();
    counts.insert(1u64, 0u64);
    counts.insert(2u64, 3u64);
    let t = KmerCountTable::from_parts(TableParts {
        counts,
        ksize: 5,
        version: "0.0.1".to_string(),
        consumed: 9,
        store_kmers: false,
        hash_to_kmer: None,
    });
    assert_eq!(t.dump(false, false), Ok(vec![(2, 3)]));
    assert_eq!(t.version(), "0.0.1");
}

#[test]
fn consume_counts_all_clean_windows() {
    let mut t = KmerCountTable::new(3, false);
    let n = t.consume("ACGTACGT", true).unwrap();
    let windows = hash_windows("ACGTACGT".as_bytes(), 3);
    assert_eq!(windows.len(), 6);
    let nonzero = windows.iter().filter(|&&h| h != 0).count() as u64;
    assert_eq!(n, nonzero);
    assert_eq!(n, 6);
    assert_eq!(t.consumed(), 8);
    assert_eq!(t.sum_counts(), 6);
    // ACG and CGT share a canonical form, as do GTA and TAC.
    assert_eq!(t.get("ACG".to_string()), Ok(4));
    assert_eq!(t.get("TAC".to_string()), Ok(2));
}

#[test]
fn consume_stops_at_first_bad_window() {
    let mut t = KmerCountTable::new(3, false);
    assert_eq!(t.consume("ACGNACG", false), Err(TableError::BadKmer(1)));
    assert_eq!(t.consumed(), 0);
    assert_eq!(t.get("ACG".to_string()), Ok(1));
    let mut s = KmerCountTable::new(3, false);
    assert_eq!(s.consume("ACGNACG", true), Ok(2));
    assert_eq!(s.consumed(), 7);
    assert_eq!(s.get("ACG".to_string()), Ok(2));
}

#[test]
fn consume_with_kmer_text_records_canonical_forms() {
    let mut t = KmerCountTable::new(3, true);
    assert_eq!(t.consume("acgNttt", false), Err(TableError::BadKmer(1)));
    assert_eq!(t.consumed(), 0);
    assert_eq!(t.get("ACG".to_string()), Ok(1));
    let h_acg = t.hash_kmer("ACG".to_string()).unwrap();
    assert_eq!(t.unhash(h_acg), Ok("ACG".to_string()));
    assert_eq!(t.consume("acgNttt", true), Ok(2));
    assert_eq!(t.consumed(), 7);
    let h = t.hash_kmer("AAA".to_string()).unwrap();
    assert_eq!(t.unhash(h), Ok("AAA".to_string()));
    assert_eq!(t.get("TTT".to_string()), Ok(1));
    assert_eq!(t.get("ACG".to_string()), Ok(2));
    assert_eq!(t.sum_counts(), 3);
    assert_eq!(t.unhash(12345), Err(TableError::NotFound));
}

#[test]
fn histogram_with_and_without_zero() {
    let t = table_with(&[(10, 1), (11, 1), (12, 2)]);
    assert_eq!(t.histo(true), vec![(0, 0), (1, 2), (2, 1)]);
    assert_eq!(t.histo(false), vec![(1, 2), (2, 1)]);
    let empty = KmerCountTable::new(3, false);
    assert_eq!(empty.histo(true), vec![(0, 0)]);
    assert_eq!(empty.histo(false), vec![]);
}

#[test]
fn dump_refuses_two_orders() {
    let t = table_with(&[(1, 1)]);
    assert_eq!(t.dump(true, true), Err(TableError::UnsupportedOperation));
    let k = KmerCountTable::new(3, true);
    assert_eq!(k.dump_kmers(true, true), Err(TableError::UnsupportedOperation));
}

#[test]
fn dump_orders() {
    let t = table_with(&[(30, 1), (10, 2), (20, 1)]);
    assert_eq!(t.dump(false, true), Ok(vec![(10, 2), (20, 1), (30, 1)]));
    assert_eq!(t.dump(true, false), Ok(vec![(20, 1), (30, 1), (10, 2)]));
    let mut unsorted = t.dump(false, false).unwrap();
    unsorted.sort();
    assert_eq!(unsorted, vec![(10, 2), (20, 1), (30, 1)]);
}

#[test]
fn dump_kmers_orders() {
    let mut t = KmerCountTable::new(3, true);
    t.count("TTG".to_string()).unwrap();
    t.count("CAA".to_string()).unwrap();
    t.count("ACG".to_string()).unwrap();
    t.count("GGG".to_string()).unwrap();
    assert_eq!(
        t.dump_kmers(false, true),
        Ok(vec![
            ("ACG".to_string(), 1),
            ("CAA".to_string(), 2),
            ("CCC".to_string(), 1)
        ])
    );
    assert_eq!(
        t.dump_kmers(true, false),
        Ok(vec![
            ("ACG".to_string(), 1),
            ("CCC".to_string(), 1),
            ("CAA".to_string(), 2)
        ])
    );
    let plain = KmerCountTable::new(3, false);
    assert_eq!(plain.dump_kmers(false, false), Err(TableError::UnsupportedOperation));
}

#[test]
fn kmers_and_hashes_skips_or_marks_bad_windows() {
    let t = KmerCountTable::new(3, false);
    let skipped = t.kmers_and_hashes("ACGNTTT", true).unwrap();
    let texts: Vec<&str> = skipped.iter().map(|(s, _)| s.as_str()).collect();
    assert_eq!(texts, vec!["ACG", "AAA"]);
    assert_eq!(skipped[0].1, t.hash_kmer("ACG".to_string()).unwrap());
    let marked = t.kmers_and_hashes("ACGNTTT", false).unwrap();
    assert_eq!(marked.len(), 5);
    assert_eq!(marked[1], (String::new(), 0));
    assert_eq!(marked[4].0, "AAA");
    let mut iter = KmersAndHashesIter::new("ggg", 3, true);
    assert_eq!(iter.next().map(|r| r.unwrap().0), Some("CCC".to_string()));
    assert!(iter.next().is_none());
}

#[test]
fn kmer_operations_check_length_and_letters() {
    let mut t = KmerCountTable::new(3, false);
    assert_eq!(t.count("AC".to_string()), Err(TableError::WrongLength));
    assert_eq!(t.count("ANA".to_string()), Err(TableError::InvalidCharacter));
    assert_eq!(t.get("ACGT".to_string()), Err(TableError::WrongLength));
    assert_eq!(t.drop("AXA".to_string()), Err(TableError::InvalidCharacter));
    assert_eq!(t.consumed(), 0);
    assert_eq!(t.count("acg".to_string()), Ok(1));
    assert_eq!(t.count("CGT".to_string()), Ok(2));
    assert_eq!(t.consumed(), 6);
    assert_eq!(t.drop("ACG".to_string()), Ok(()));
    assert_eq!(t.get("ACG".to_string()), Ok(0));
    assert_eq!(t.drop("ACG".to_string()), Ok(()));
    assert_eq!(t.set("TTT".to_string(), 9), Ok(()));
    assert_eq!(t.get("AAA".to_string()), Ok(9));
    assert_eq!(t.set("TTT".to_string(), 0), Ok(()));
    assert_eq!(t.len(), 0);
    assert_eq!(t.unhash(1), Err(TableError::UnsupportedOperation));
}

#[test]
fn set_operations_on_hashes() {
    let a = table_with(&[(1, 1), (2, 1), (3, 1)]);
    let b = table_with(&[(3, 1), (4, 1)]);
    let sorted = |s: std::collections::HashSet<u64>| {
        let mut v: Vec<u64> = s.into_iter().collect();
        v.sort();
        v
    };
    assert_eq!(sorted(a.union(&b).unwrap()), vec![1, 2, 3, 4]);
    assert_eq!(sorted(a.intersection(&b).unwrap()), vec![3]);
    assert_eq!(sorted(a.difference(&b).unwrap()), vec![1, 2]);
    assert_eq!(sorted(a.symmetric_difference(&b).unwrap()), vec![1, 2, 4]);
    let c = KmerCountTable::new(5, false);
    assert_eq!(a.union(&c), Err(TableError::IncompatibleTables));
}

#[test]
fn extremes_sums_and_iteration() {
    let mut t = table_with(&[(1, 4), (2, 1), (3, 7)]);
    assert_eq!(t.min(), 1);
    assert_eq!(t.max(), 7);
    assert_eq!(t.sum_counts(), 12);
    let mut seen = Vec::new();
    let mut it = t.iter();
    while let Some(e) = it.next() {
        seen.push(e);
    }
    seen.sort();
    assert_eq!(seen, vec![(1, 4), (2, 1), (3, 7)]);
    let mut hashes = t.hashes();
    hashes.sort();
    assert_eq!(hashes, vec![1, 2, 3]);
    t.drop_hash(3);
    t.drop_hash(3);
    assert_eq!(t.max(), 4);
    let empty = KmerCountTable::new(3, false);
    assert_eq!(empty.min(), 0);
    assert_eq!(empty.max(), 0);
    assert_eq!(empty.sum_counts(), 0);
}

#[test]
fn consume_grows_sum_by_windows_counted() {
    let mut t = table_with(&[(1, 5)]);
    let before = t.sum_counts();
    let n = t.consume("GATTACANNGATTACA", true).unwrap();
    assert_eq!(n, 10);
    assert_eq!(t.sum_counts(), before + n);
    assert_eq!(t.consumed(), 16);
}

#[test]
fn count_with_a_full_count_elsewhere() {
    let mut parts = KmerCountTable::new(3, false).to_parts();
    parts.counts.insert(7, u64::MAX);
    let mut t = KmerCountTable::from_parts(parts);
    assert_eq!(t.count("ACG".to_string()), Ok(1));
    assert_eq!(t.count("AC".to_string()), Err(TableError::WrongLength));
    assert_eq!(t.get_hash(7), u64::MAX);
}
