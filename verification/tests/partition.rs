use docstore::aggregation::collector::{
    AggregationError, SegmentDistinctAggReq, SegmentDistinctAggReqData, SegmentDistinctCollector,
};
use docstore::aggregation::column::{Column, ColumnType};
use docstore::aggregation::limits::{AggregationLimits, MemoryExceeded};
use docstore::aggregation::results::IntermediateAggregationResults;
use docstore::collector::partition::PartitionError;
use docstore::collector::{
    collect_segment_partition, count_segment, partition_ranges, PartitionDrive,
};
use docstore::store::AliveBitSet;

/// 2047 documents: cat_k occurs 2^k times for k = 0..=10.
fn build_fixture() -> SegmentDistinctAggReqData {
    let mut rows: Vec<Vec<u64>> = Vec::new();
    for k in 0u32..=10 {
        for _ in 0..(1u64 << k) {
            rows.push(vec![k as u64]);
        }
    }
    SegmentDistinctAggReqData {
        accessor: Column { rows, max_value: 10, addresses: None },
        column_type: ColumnType::Str,
        name: "cats".to_string(),
        segment_id: 1,
        req: SegmentDistinctAggReq::from_field_name("cat".to_string()),
    }
}

fn categories(docs: &[u32], alive: Option<&AliveBitSet>, partitions: u32) -> u64 {
    let data = build_fixture();
    let mut limits = AggregationLimits::new(None);
    let mut merged = IntermediateAggregationResults::new();
    for (start, end) in partition_ranges(2047, partitions) {
        let mut collector = SegmentDistinctCollector::from_req_data(&data);
        collect_segment_partition(&mut collector, docs, alive, start, end, &mut limits, false)
            .unwrap();
        collector.add_intermediate_aggregation_result(&mut limits, &mut merged, 0).unwrap();
    }
    merged.remove("cats").map_or(0, |values| values.finalize())
}

fn query_shapes() -> Vec<(&'static str, Vec<u32>)> {
    vec![
        ("match_all", (0..2047).collect()),
        ("term", (31..63).collect()),
        ("union", (7..2047).collect()),
        // Every document has the word that has to be there.
        ("must_union", (0..2047).collect()),
        ("phrase", (0..2047).step_by(2).collect()),
    ]
}

#[test]
fn partition_parity_across_query_shapes() {
    for (name, docs) in query_shapes() {
        let reference = categories(&docs, None, 1);
        for k in [2u32, 3, 8, 64] {
            assert_eq!(reference, categories(&docs, None, k), "query={name} partitions={k}");
        }
    }
}

#[test]
fn partition_boundaries() {
    // cat_0 occurs once: most parts match nothing.
    assert_eq!(categories(&[0], None, 1), categories(&[0], None, 64));
    assert_eq!(categories(&[0], None, 64), 1);
    assert_eq!(categories(&[], None, 1), categories(&[], None, 8));
    assert_eq!(categories(&[], None, 8), 0);
}

#[test]
fn partition_determinism() {
    let docs: Vec<u32> = (0..2047).collect();
    let first = categories(&docs, None, 8);
    for _ in 0..4 {
        assert_eq!(first, categories(&docs, None, 8));
    }
}

#[test]
fn partition_parity_with_deletes() {
    // cat_6 is documents 63..127.
    let deleted: Vec<u32> = (63..127).collect();
    let alive = AliveBitSet::from_deleted_docs(&deleted, 2047);
    for (name, docs) in query_shapes() {
        let reference = categories(&docs, Some(&alive), 1);
        for k in [2u32, 8] {
            assert_eq!(
                reference,
                categories(&docs, Some(&alive), k),
                "deletes query={name} partitions={k}"
            );
        }
    }
    let all: Vec<u32> = (0..2047).collect();
    assert_eq!(categories(&all, Some(&alive), 8), 10);
}

#[test]
fn scoring_collector_rejected() {
    let docs: Vec<u32> = (0..2047).collect();
    let err = PartitionDrive::new(&docs, None, 0, 2047, true).err().unwrap();
    assert!(
        err.message().contains("does not support scoring"),
        "unexpected error: {err:?}"
    );
}

#[test]
fn cancellation_pre_set_and_mid_flight() {
    let docs: Vec<u32> = (0..2047).collect();

    // Pre-set.
    let mut drive = PartitionDrive::new(&docs, None, 0, 2047, false).ok().unwrap();
    let err = drive.next_block(true).unwrap_err();
    assert!(
        err.message().contains("collection cancelled"),
        "unexpected error: {err:?}"
    );

    // Mid-flight: the flag is set after two blocks of the 32.
    let mut drive = PartitionDrive::new(&docs, None, 0, 2047, false).ok().unwrap();
    let mut flag = false;
    let mut blocks_seen = 0;
    let err = loop {
        match drive.next_block(flag) {
            Ok(Some(block)) => {
                assert_eq!(block.len(), 64);
                blocks_seen += 1;
                if blocks_seen == 2 {
                    flag = true;
                }
            }
            Ok(None) => panic!("the drive must abort"),
            Err(err) => break err,
        }
    };
    assert!(
        err.message().contains("collection cancelled"),
        "unexpected error: {err:?}"
    );
    assert!(flag);
    assert_eq!(blocks_seen, 2);
}

#[test]
fn a_cancelled_part_collects_nothing() {
    let data = build_fixture();
    let mut limits = AggregationLimits::new(None);
    let mut collector = SegmentDistinctCollector::from_req_data(&data);
    let docs: Vec<u32> = (0..2047).collect();
    assert_eq!(
        collect_segment_partition(&mut collector, &docs, None, 0, 2047, &mut limits, true),
        Err(PartitionError::Cancelled)
    );
    assert_eq!(limits.memory_consumed, 0);
}

#[test]
fn ranges_cover_all_documents_once() {
    assert_eq!(partition_ranges(10, 3), vec![(0, 4), (4, 8), (8, 10)]);
    assert_eq!(partition_ranges(2, 5), vec![(0, 1), (1, 2)]);
    assert_eq!(partition_ranges(0, 5), vec![]);
    assert_eq!(partition_ranges(2047, 4), vec![(0, 512), (512, 1024), (1024, 1536), (1536, 2047)]);
}

#[test]
fn blocks_of_a_part_follow_each_other() {
    let docs: Vec<u32> = (0..300).step_by(2).collect();
    let alive = AliveBitSet::from_deleted_docs(&[20, 22], 300);
    let mut drive = PartitionDrive::new(&docs, Some(&alive), 10, 250, false).ok().unwrap();
    let mut seen = Vec::new();
    while let Some(block) = drive.next_block(false).unwrap() {
        seen.extend(block);
    }
    let expected: Vec<u32> = (10..250).step_by(2).filter(|doc| *doc != 20 && *doc != 22).collect();
    assert_eq!(seen, expected);
}

#[test]
fn parts_count_like_the_whole_segment() {
    let data = build_fixture();
    let alive = AliveBitSet::from_deleted_docs(&[0, 1, 2, 100], 2047);
    for (name, docs) in query_shapes() {
        for bits in [None, Some(&alive)] {
            let count = |partitions: Option<u32>| {
                let mut limits = AggregationLimits::new(None);
                count_segment(&data, &docs, bits, 2047, partitions, &mut limits).unwrap()
            };
            let whole = count(None);
            assert_eq!(whole, categories(&docs, bits, 1), "query={name}");
            for k in [1u32, 2, 3, 8, 64, 5000] {
                assert_eq!(whole, count(Some(k)), "query={name} partitions={k}");
            }
        }
    }
    let mut limits = AggregationLimits::new(None);
    assert_eq!(count_segment(&data, &[], None, 0, Some(3), &mut limits), Ok(0));
}

#[test]
fn parts_are_within_the_budget() {
    let data = build_fixture();
    let docs: Vec<u32> = (0..2047).collect();
    // Eleven categories take 176 bytes, and 65 bytes for a moment.
    let mut limits = AggregationLimits::new(Some(241));
    assert_eq!(count_segment(&data, &docs, None, 2047, None, &mut limits), Ok(11));
    let mut limits = AggregationLimits::new(Some(240));
    assert_eq!(
        count_segment(&data, &docs, None, 2047, None, &mut limits),
        Err(PartitionError::Aggregation(AggregationError::MemoryExceeded(MemoryExceeded {
            limit: 240,
            current: 241,
        })))
    );
}

#[test]
fn a_part_that_is_too_large_stops_at_its_block() {
    let data = build_fixture();
    let docs: Vec<u32> = (0..2047).collect();
    // The first 64 documents have seven categories, the first 128 have eight.
    let mut limits = AggregationLimits::new(Some(120));
    let mut collector = SegmentDistinctCollector::from_req_data(&data);
    assert_eq!(
        collect_segment_partition(&mut collector, &docs, None, 0, 2047, &mut limits, false),
        Err(PartitionError::Aggregation(AggregationError::MemoryExceeded(MemoryExceeded {
            limit: 120,
            current: 128,
        })))
    );
    assert_eq!(limits.memory_consumed, 128);
    let mut results = IntermediateAggregationResults::new();
    limits.memory_limit = 1_000;
    collector.add_intermediate_aggregation_result(&mut limits, &mut results, 0).unwrap();
    assert_eq!(results.remove("cats").unwrap().finalize(), 8);
}
