use mini_lsm::error::Error;
use mini_lsm::iterators::merge_iterator::MergeIterator;
use mini_lsm::iterators::two_merge_iterator::TwoMergeIterator;
use mini_lsm::iterators::StorageIterator;
use mini_lsm::mem_table::{MemTable, MemTableIterator};
use std::ops::Bound;

fn source(entries: &[(&str, &str)]) -> MemTableIterator {
    let mut table = MemTable::create();
    for (k, v) in entries {
        table.put(k.as_bytes(), v.as_bytes());
    }
    table.scan(Bound::Unbounded, Bound::Unbounded)
}

fn drain<I: StorageIterator>(iter: &mut I) -> Vec<(String, String)> {
    let mut out = Vec::new();
    while iter.is_valid() {
        out.push((
            String::from_utf8(iter.key().to_vec()).unwrap(),
            String::from_utf8(iter.value().to_vec()).unwrap(),
        ));
        iter.next().unwrap();
    }
    out
}

fn pairs(entries: &[(&str, &str)]) -> Vec<(String, String)> {
    entries.iter().map(|(k, v)| (k.to_string(), v.to_string())).collect()
}

/// A source that gives its entries as they are, sorted or not, and fails
/// at a chosen step.
struct Scripted {
    entries: Vec<(Vec<u8>, Vec<u8>)>,
    idx: usize,
    fail_at: Option<usize>,
}

impl Scripted {
    fn new(entries: &[(&str, &str)], fail_at: Option<usize>) -> Self {
        Scripted {
            entries: entries
                .iter()
                .map(|(k, v)| (k.as_bytes().to_vec(), v.as_bytes().to_vec()))
                .collect(),
            idx: 0,
            fail_at,
        }
    }
}

impl StorageIterator for Scripted {
    fn key(&self) -> &[u8] {
        &self.entries[self.idx].0
    }

    fn value(&self) -> &[u8] {
        &self.entries[self.idx].1
    }

    fn is_valid(&self) -> bool {
        self.idx < self.entries.len()
    }

    fn next(&mut self) -> Result<(), Error> {
        if self.fail_at == Some(self.idx) {
            self.idx = self.entries.len();
            return Err(Error::Io);
        }
        if self.idx < self.entries.len() {
            self.idx += 1;
        }
        Ok(())
    }
}

#[test]
fn merge_three_sources_prefers_the_earliest() {
    let i0 = source(&[("a", "1"), ("c", "3")]);
    let i1 = source(&[("a", "10"), ("b", "20")]);
    let i2 = source(&[("b", "200")]);
    let mut merged = MergeIterator::create(vec![Box::new(i0), Box::new(i1), Box::new(i2)]);
    assert_eq!(drain(&mut merged), pairs(&[("a", "1"), ("b", "20"), ("c", "3")]));
    assert!(!merged.is_valid());
    merged.next().unwrap();
    assert!(!merged.is_valid());
}

#[test]
fn merge_of_no_sources_is_empty() {
    let mut merged = MergeIterator::<MemTableIterator>::create(vec![]);
    assert!(!merged.is_valid());
    merged.next().unwrap();
    assert!(!merged.is_valid());
    let mut merged = MergeIterator::create(vec![Box::new(source(&[])), Box::new(source(&[]))]);
    assert_eq!(drain(&mut merged), pairs(&[]));
}

#[test]
fn merge_interleaves_disjoint_sources() {
    let i0 = source(&[("b", "1"), ("e", "1")]);
    let i1 = source(&[("a", "2"), ("d", "2"), ("f", "2")]);
    let i2 = source(&[("c", "3")]);
    let mut merged = MergeIterator::create(vec![Box::new(i0), Box::new(i1), Box::new(i2)]);
    assert_eq!(
        drain(&mut merged),
        pairs(&[("a", "2"), ("b", "1"), ("c", "3"), ("d", "2"), ("e", "1"), ("f", "2")])
    );
}

#[test]
fn merge_gives_each_key_once_when_all_sources_hold_it() {
    let i0 = source(&[("a", "0"), ("b", "0")]);
    let i1 = source(&[("a", "1"), ("b", "1")]);
    let i2 = source(&[("a", "2"), ("b", "2"), ("c", "2")]);
    let mut merged = MergeIterator::create(vec![Box::new(i2), Box::new(i1), Box::new(i0)]);
    assert_eq!(drain(&mut merged), pairs(&[("a", "2"), ("b", "2"), ("c", "2")]));
}

#[test]
fn merge_ends_at_the_failure_of_a_source() {
    let good = Scripted::new(&[("a", "1"), ("c", "1")], None);
    let bad = Scripted::new(&[("b", "2"), ("d", "2")], Some(0));
    let mut merged = MergeIterator::create(vec![Box::new(good), Box::new(bad)]);
    assert_eq!(merged.key(), b"a");
    merged.next().unwrap();
    assert_eq!(merged.key(), b"b");
    assert_eq!(merged.next(), Err(Error::Io));
    assert!(!merged.is_valid());
    assert_eq!(merged.next(), Ok(()));
}

#[test]
fn two_merge_prefers_the_first_source() {
    let a = source(&[("a", "A"), ("c", "A")]);
    let b = source(&[("a", "B"), ("b", "B"), ("c", "B")]);
    let mut merged = TwoMergeIterator::create(a, b).unwrap();
    assert_eq!(drain(&mut merged), pairs(&[("a", "A"), ("b", "B"), ("c", "A")]));
    assert!(!merged.is_valid());
}

#[test]
fn two_merge_with_an_empty_side() {
    let mut merged = TwoMergeIterator::create(source(&[]), source(&[("a", "B")])).unwrap();
    assert_eq!(drain(&mut merged), pairs(&[("a", "B")]));
    let mut merged = TwoMergeIterator::create(source(&[("a", "A")]), source(&[])).unwrap();
    assert_eq!(drain(&mut merged), pairs(&[("a", "A")]));
    let mut merged = TwoMergeIterator::create(source(&[]), source(&[])).unwrap();
    assert!(!merged.is_valid());
    merged.next().unwrap();
    assert!(!merged.is_valid());
}

#[test]
fn two_merge_second_source_first() {
    let a = source(&[("d", "A"), ("e", "A")]);
    let b = source(&[("a", "B"), ("b", "B"), ("e", "B"), ("f", "B")]);
    let mut merged = TwoMergeIterator::create(a, b).unwrap();
    assert_eq!(
        drain(&mut merged),
        pairs(&[("a", "B"), ("b", "B"), ("d", "A"), ("e", "A"), ("f", "B")])
    );
}

#[test]
fn two_merge_fails_where_the_second_source_fails_on_a_shared_key() {
    let a = Scripted::new(&[("a", "A")], None);
    let b = Scripted::new(&[("a", "B"), ("b", "B")], Some(0));
    assert!(matches!(TwoMergeIterator::create(a, b), Err(Error::Io)));
}

#[test]
fn two_merge_ends_at_a_failure() {
    let a = Scripted::new(&[("a", "A"), ("c", "A")], Some(1));
    let b = Scripted::new(&[("b", "B"), ("d", "B")], None);
    let mut merged = TwoMergeIterator::create(a, b).unwrap();
    assert_eq!(merged.key(), b"a");
    merged.next().unwrap();
    assert_eq!(merged.key(), b"b");
    merged.next().unwrap();
    assert_eq!(merged.key(), b"c");
    assert_eq!(merged.next(), Err(Error::Io));
    assert!(!merged.is_valid());
    assert_eq!(merged.next(), Ok(()));
}

#[test]
fn merge_of_merges() {
    let m0 = MergeIterator::create(vec![
        Box::new(source(&[("a", "1"), ("b", "1")])),
        Box::new(source(&[("b", "2"), ("c", "2")])),
    ]);
    let m1 = MergeIterator::create(vec![Box::new(source(&[("a", "3"), ("d", "3")]))]);
    let mut merged = TwoMergeIterator::create(m0, m1).unwrap();
    assert_eq!(
        drain(&mut merged),
        pairs(&[("a", "1"), ("b", "1"), ("c", "2"), ("d", "3")])
    );
}

fn level_table(entries: &[(&str, &str)]) -> std::sync::Arc<mini_lsm::table::SsTable> {
    let mut builder = mini_lsm::table::builder::SsTableBuilder::new(32);
    for (k, v) in entries {
        builder.add(k.as_bytes(), v.as_bytes());
    }
    std::sync::Arc::new(builder.build(0, None))
}

#[test]
fn concat_walks_the_tables_in_turn() {
    let tables = vec![
        level_table(&[("a", "1"), ("b", "1"), ("c", "1")]),
        level_table(&[]),
        level_table(&[("d", "2")]),
        level_table(&[("e", "3"), ("f", "3")]),
    ];
    let all = pairs(&[("a", "1"), ("b", "1"), ("c", "1"), ("d", "2"), ("e", "3"), ("f", "3")]);
    let mut iter =
        mini_lsm::iterators::concat_iterator::SstConcatIterator::create_and_seek_to_first(
            tables.clone(),
        )
        .unwrap();
    assert_eq!(drain(&mut iter), all);
    assert!(!iter.is_valid());
    iter.next().unwrap();
    assert!(!iter.is_valid());
    let mut iter = mini_lsm::iterators::concat_iterator::SstConcatIterator::create_and_seek_from(
        tables.clone(),
        Bound::Included(b"c"),
    )
    .unwrap();
    assert_eq!(drain(&mut iter), all[2..].to_vec());
    let mut iter = mini_lsm::iterators::concat_iterator::SstConcatIterator::create_and_seek_from(
        tables.clone(),
        Bound::Excluded(b"c"),
    )
    .unwrap();
    assert_eq!(drain(&mut iter), all[3..].to_vec());
    let mut iter = mini_lsm::iterators::concat_iterator::SstConcatIterator::create_and_seek_from(
        tables.clone(),
        Bound::Excluded(b"f"),
    )
    .unwrap();
    assert!(!iter.is_valid());
    let mut iter = mini_lsm::iterators::concat_iterator::SstConcatIterator::create_and_seek_from(
        vec![],
        Bound::Unbounded,
    )
    .unwrap();
    assert!(!iter.is_valid());
    assert_eq!(drain(&mut iter), pairs(&[]));
}
