use neb::query::statistics::chunk::{partition_statistics, summarize, ChunkStatistics};
use neb::query::statistics::histogram::{FieldHistogram, HistogramKey};
use neb::query::statistics::merge::build_histogram;
use neb::query::statistics::tally::{tally, CellReading, CellSample};

fn key(n: u64) -> HistogramKey {
    n.to_be_bytes()
}

fn numbers(keys: &[HistogramKey]) -> Vec<u64> {
    keys.iter().map(|k| u64::from_be_bytes(*k)).collect()
}

fn sample(schema: u32, size: usize, seg: u64, values: &[(u64, Option<u64>)]) -> CellReading {
    let fields: Vec<u64> = values.iter().map(|v| v.0).collect();
    let keys: Vec<Option<HistogramKey>> = values.iter().map(|v| v.1.map(key)).collect();
    let whole = if keys.len() == 1 { keys[0] } else { None };
    let items = if keys.len() == 1 { None } else { Some(keys) };
    CellReading::Sample(CellSample { schema, size, seg, fields, whole, items })
}

#[test]
fn a_small_partition_has_one_bound_and_the_last() {
    let h = FieldHistogram::compile(&vec![key(9), key(3), key(7)]);
    assert_eq!((h.count, h.depth), (3, 0));
    let tiles = numbers(&h.tiles);
    assert_eq!(tiles.len(), 257);
    assert!(tiles[..256].iter().all(|t| *t == 3));
    assert_eq!(tiles[256], 9);
    let one = FieldHistogram::compile(&vec![key(5)]);
    assert_eq!(numbers(&one.tiles), vec![5; 256]);
}

#[test]
fn a_large_partition_is_cut_evenly() {
    let items: Vec<HistogramKey> = (0..1024u64).rev().map(key).collect();
    let h = FieldHistogram::compile(&items);
    assert_eq!((h.count, h.depth), (1024, 4));
    let mut expected: Vec<u64> = (0..256).map(|t| t * 4).collect();
    expected.push(1023);
    assert_eq!(numbers(&h.tiles), expected);
}

#[test]
fn histograms_are_merged() {
    let low = FieldHistogram::compile(&(0..1000u64).map(key).collect());
    let high = FieldHistogram::compile(&(1000..2000u64).map(key).collect());
    let bounds = numbers(&build_histogram(&vec![&high, &low]));
    assert_eq!(bounds.len(), 101);
    assert_eq!(bounds[0], 0);
    assert!(bounds.windows(2).all(|w| w[0] <= w[1]));
    assert_eq!(*bounds.last().unwrap(), 1999);
    // each bound after the first stands behind keys that stand for twenty values, three at a time
    assert_eq!(bounds[1] - bounds[0], 24);
}

#[test]
fn few_values_fill_the_bounds_one_by_one() {
    let h = FieldHistogram::compile(&vec![key(4), key(8)]);
    let bounds = numbers(&build_histogram(&vec![&h]));
    assert_eq!(bounds, vec![4; 101]);
    let none = build_histogram(&vec![]);
    assert_eq!(none, vec![[0u8; 8]; 101]);
    let empty = FieldHistogram { tiles: vec![], count: 0, depth: 0 };
    let two = FieldHistogram { tiles: vec![key(1), key(2)], count: 2, depth: 0 };
    let bounds = numbers(&build_histogram(&vec![&empty, &two]));
    assert_eq!(bounds[..3], [1, 2, 2]);
}

#[test]
fn a_part_without_keys_leaves_the_depths_of_the_others() {
    let one = FieldHistogram { tiles: vec![key(1), key(2), key(3)], count: 300, depth: 3 };
    let none = FieldHistogram { tiles: vec![], count: 0, depth: 1000 };
    let bounds = build_histogram(&vec![&none, &one]);
    assert_eq!(bounds, build_histogram(&vec![&one]));
    assert_eq!(bounds, build_histogram(&vec![&one, &none]));
}

#[test]
fn cells_are_counted_by_schema() {
    let cells = vec![
        sample(1, 10, 100, &[(7, Some(5))]),
        CellReading::NoLocation,
        CellReading::NoHeader,
        CellReading::NoSchema,
        CellReading::NoValues,
        sample(1, 20, 100, &[(7, None)]),
        sample(1, 30, 101, &[(7, Some(2))]),
        sample(2, 5, 100, &[(8, Some(1)), (9, Some(3))]),
        CellReading::Sample(CellSample {
            schema: 3,
            size: 9,
            seg: 1,
            fields: vec![1, 2],
            whole: Some(key(1)),
            items: None,
        }),
    ];
    let t = tally(&cells, 0, cells.len());
    assert_eq!(t.len(), 2);
    assert_eq!(t[&1].bytes, 60);
    assert_eq!(t[&1].segs.len(), 2);
    assert_eq!(numbers(&t[&1].keys[&7]), vec![5, 2]);
    assert_eq!(t[&2].keys.len(), 2);
    let part = tally(&cells, 6, 7);
    assert_eq!(part[&1].bytes, 30);
}

#[test]
fn a_chunk_is_summed_up() {
    let cells: Vec<CellReading> =
        (0..3000u64).map(|i| sample(4, 2, i / 500, &[(1, Some(i)), (2, if i % 2 == 0 { Some(3000 - i) } else { None })])).collect();
    let stats = ChunkStatistics::from_chunk(&cells);
    assert_eq!(stats.schemas.len(), 1);
    let s = &stats.schemas[&4];
    assert_eq!(s.bytes, 6000);
    // the segments of the partitions of 1024 cells: 0..=2, 2..=4, 4..=5
    assert_eq!(s.segs, 3 + 3 + 2);
    assert_eq!(s.histograms.len(), 2);
    let bounds = numbers(&s.histograms[&1]);
    assert_eq!(bounds.len(), 101);
    assert_eq!(bounds[0], 0);
    assert!(bounds.windows(2).all(|w| w[0] <= w[1]));
    assert!(numbers(&s.histograms[&2])[0] >= 2);
    assert!(ChunkStatistics::from_chunk(&vec![]).schemas.is_empty());
}

#[test]
fn partitions_can_be_made_apart() {
    let cells: Vec<CellReading> = (0..2048u64).map(|i| sample((i % 2) as u32, 1, 0, &[(1, Some(i))])).collect();
    let parts = vec![partition_statistics(&cells, 0, 1024), partition_statistics(&cells, 1024, 2048)];
    let sums = summarize(&parts);
    let whole = ChunkStatistics::from_chunk(&cells).schemas;
    assert_eq!(sums.len(), 2);
    for s in [0u32, 1] {
        assert_eq!(sums[&s].bytes, 1024);
        assert_eq!(sums[&s].segs, 2);
        assert_eq!(sums[&s].histograms[&1], whole[&s].histograms[&1]);
    }
}

#[test]
fn an_array_in_the_only_field_is_one_value() {
    let cells = vec![CellReading::Sample(CellSample {
        schema: 1,
        size: 10,
        seg: 3,
        fields: vec![7],
        whole: Some(key(4)),
        items: Some(vec![Some(key(1)), Some(key(2)), None]),
    })];
    let t = tally(&cells, 0, 1);
    assert_eq!(t[&1].bytes, 10);
    assert_eq!(numbers(&t[&1].keys[&7]), vec![4]);
    let parts = vec![partition_statistics(&cells, 0, 1)];
    assert!(summarize(&parts).contains_key(&1));
}
