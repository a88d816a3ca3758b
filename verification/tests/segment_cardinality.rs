use docstore::aggregation::collector::{
    AggregationError, Key, SegmentDistinctAggReq, SegmentDistinctAggReqData,
    SegmentDistinctCollector,
};
use docstore::aggregation::column::{Column, ColumnType};
use docstore::aggregation::limits::{AggregationLimits, MemoryExceeded, DEFAULT_MEMORY_LIMIT};
use docstore::aggregation::ord_set::{AdaptiveOrdSetSerde, CapacityMismatch, OrdSetRepr};
use docstore::aggregation::results::IntermediateAggregationResults;
use docstore::aggregation::segment_distinct::{
    IntermediateSegmentDistinct, SegmentDistinctEntry, SegmentDistinctParts,
};
use docstore::collector::{collect_segment_partition, partition_ranges};

fn req_data(
    field: &str,
    column_type: ColumnType,
    segment_id: u128,
    rows: Vec<Vec<u64>>,
) -> SegmentDistinctAggReqData {
    let max_value = rows.iter().flatten().copied().max().unwrap_or(0);
    SegmentDistinctAggReqData {
        accessor: Column { rows, max_value, addresses: None },
        column_type,
        name: "sc".to_string(),
        segment_id,
        req: SegmentDistinctAggReq::from_field_name(field.to_string()),
    }
}

/// A column of terms, each by its position among all terms of the segment.
fn terms_data(segment_id: u128, docs: &[Vec<&str>]) -> SegmentDistinctAggReqData {
    let mut dictionary: Vec<&str> = docs.iter().flatten().copied().collect();
    dictionary.sort();
    dictionary.dedup();
    let rows = docs
        .iter()
        .map(|terms| {
            terms.iter().map(|term| dictionary.binary_search(term).unwrap() as u64).collect()
        })
        .collect();
    req_data("string_id", ColumnType::Str, segment_id, rows)
}

fn collect_into(
    data: &SegmentDistinctAggReqData,
    docs: &[u32],
    limits: &mut AggregationLimits,
    results: &mut IntermediateAggregationResults,
) -> Result<(), AggregationError> {
    let mut collector = SegmentDistinctCollector::from_req_data(data);
    for block in docs.chunks(64) {
        collector.collect(0, block, limits)?;
    }
    collector.add_intermediate_aggregation_result(limits, results, 0)
}

/// The number of distinct values under the name that all requests here have.
fn finalized(mut results: IntermediateAggregationResults) -> u64 {
    results.remove("sc").map_or(0, |values| values.finalize())
}

fn count_docs(columns: &[SegmentDistinctAggReqData], matches: fn(u32) -> bool) -> u64 {
    let mut limits = AggregationLimits::new(None);
    let mut results = IntermediateAggregationResults::new();
    for data in columns {
        let docs: Vec<u32> =
            (0..data.accessor.rows.len() as u32).filter(|doc| matches(*doc)).collect();
        collect_into(data, &docs, &mut limits, &mut results).unwrap();
    }
    finalized(results)
}

fn count(columns: &[SegmentDistinctAggReqData]) -> u64 {
    count_docs(columns, |_| true)
}

#[test]
fn seg_card_str_exact() {
    let terms = vec![
        vec!["terma"],
        vec!["termb"],
        vec!["termc"],
        vec!["terma"],
        vec!["terma"],
        vec!["termb"],
    ];
    assert_eq!(count(&[terms_data(1, &terms)]) as f64, 3.0);
}

#[test]
fn seg_card_empty_and_zero_match() {
    assert_eq!(count(&[terms_data(1, &[])]) as f64, 0.0);
    assert_eq!(count_docs(&[terms_data(1, &[vec!["terma"]])], |_| false) as f64, 0.0);
    assert_eq!(count(&[]) as f64, 0.0);
}

#[test]
fn seg_card_multi_segment_upper_bound() {
    let unmerged = [terms_data(1, &[vec!["dup"]]), terms_data(2, &[vec!["dup"]])];
    assert_eq!(count(&unmerged) as f64, 2.0, "per-segment sum counts dup twice");
    let merged = [terms_data(3, &[vec!["dup"], vec!["dup"]])];
    assert_eq!(count(&merged) as f64, 1.0, "single segment is exact");
}

#[test]
fn seg_card_selective_filter() {
    let terms = vec![vec!["terma"], vec!["terma"], vec!["termb"]];
    assert_eq!(count_docs(&[terms_data(1, &terms)], |doc| doc < 2) as f64, 1.0);
}

/// The order-preserving integer for a floating point number.
fn f64_bits(value: f64) -> u64 {
    let bits = value.to_bits();
    if value.is_sign_positive() {
        bits ^ (1u64 << 63)
    } else {
        !bits
    }
}

/// The order-preserving integer for a signed one.
fn i64_bits(value: i64) -> u64 {
    (value as u64) ^ (1u64 << 63)
}

#[test]
fn seg_card_column_types() {
    let v_i64 = req_data(
        "v_i64",
        ColumnType::I64,
        1,
        vec![vec![i64_bits(-3)], vec![i64_bits(-3)], vec![i64_bits(7), i64_bits(7), i64_bits(9)]],
    );
    let v_u64 = req_data("v_u64", ColumnType::U64, 1, vec![vec![u64::MAX], vec![1], vec![1]]);
    let v_date = req_data(
        "v_date",
        ColumnType::DateTime,
        1,
        vec![vec![i64_bits(-86_400)], vec![i64_bits(-86_400)], vec![i64_bits(0)]],
    );
    let v_bool = req_data("v_bool", ColumnType::Bool, 1, vec![vec![1], vec![0], vec![1]]);
    assert_eq!(count(&[v_i64]) as f64, 3.0);
    assert_eq!(count(&[v_u64]) as f64, 2.0);
    assert_eq!(count(&[v_date]) as f64, 2.0);
    assert_eq!(count(&[v_bool]) as f64, 2.0);
    // The two zeros are different numbers here, and not a number is a value too.
    let v_f64 = req_data(
        "v_f64",
        ColumnType::F64,
        1,
        vec![vec![f64_bits(0.0)], vec![f64_bits(-0.0)], vec![f64_bits(f64::NAN)]],
    );
    assert_eq!(count(&[v_f64]) as f64, 3.0);
    // 127.0.0.1 and 10.0.0.1, the first one twice.
    let mut v_ip = req_data("v_ip", ColumnType::IpAddr, 1, vec![vec![1], vec![0], vec![1]]);
    v_ip.accessor.addresses = Some(vec![0xFFFF_0A00_0001, 0xFFFF_7F00_0001]);
    assert_eq!(count(&[v_ip]) as f64, 2.0);
}

#[test]
fn seg_card_json_bool_int_salt() {
    let bools = req_data("json.value", ColumnType::Bool, 1, vec![vec![0], vec![1], vec![], vec![]]);
    let ints = req_data("json.value", ColumnType::I64, 1, vec![vec![], vec![], vec![0], vec![1]]);
    assert_eq!(count(&[bools, ints]) as f64, 4.0);
}

#[test]
fn seg_card_json_mixed_types() {
    let texts = terms_data(
        1,
        &[vec!["hello"], vec!["world"], vec!["hello"], vec![], vec![], vec![]],
    );
    let ints = req_data(
        "json.value",
        ColumnType::I64,
        1,
        vec![
            vec![],
            vec![],
            vec![],
            vec![i64_bits(7)],
            vec![i64_bits(42)],
            vec![i64_bits(7)],
        ],
    );
    assert_eq!(count(&[texts, ints]) as f64, 4.0, "hello, world, 7, 42");

    let ints = req_data(
        "json.value",
        ColumnType::I64,
        1,
        vec![vec![i64_bits(2)], vec![], vec![i64_bits(2)]],
    );
    let floats =
        req_data("json.value", ColumnType::F64, 1, vec![vec![], vec![1.5f64.to_bits()], vec![]]);
    assert_eq!(count(&[ints, floats]) as f64, 2.0, "i64 2 and f64 1.5");
}

#[test]
fn seg_card_field_absent() {
    let absent = req_data("no_such_field", ColumnType::U64, 1, vec![vec![]]);
    assert_eq!(count(&[absent]) as f64, 0.0);
}

#[test]
fn seg_card_multivalued_str() {
    assert_eq!(count(&[terms_data(1, &[vec!["a", "b"], vec!["b", "c"]])]) as f64, 3.0);
}

#[test]
fn seg_card_nesting_rejected() {
    let req = SegmentDistinctAggReq::from_field_name("string_id".to_string());
    let err = req.validate(false, false).unwrap_err();
    assert!(err.message().contains("top-level"), "unexpected error: {err:?}");
}

#[test]
fn seg_card_missing_rejected() {
    let req = SegmentDistinctAggReq {
        field: "string_id".to_string(),
        missing: Some(Key::Str("X".to_string())),
    };
    let err = req.validate(true, false).unwrap_err();
    assert!(err.message().contains("missing"), "unexpected error: {err:?}");
}

#[test]
fn seg_card_subagg_rejected() {
    let req = SegmentDistinctAggReq::from_field_name("string_id".to_string());
    let err = req.validate(true, true).unwrap_err();
    assert!(err.message().contains("sub-aggregations"), "unexpected error: {err:?}");
    assert_eq!(req.validate(true, false), Ok(()));
}

/// "common" in every document, and v0..v7 for 64 documents each.
fn build_straddle_data() -> SegmentDistinctAggReqData {
    let names: Vec<String> = (0..512).map(|i| format!("v{}", i / 64)).collect();
    let docs: Vec<Vec<&str>> = names.iter().map(|name| vec!["common", name.as_str()]).collect();
    terms_data(77, &docs)
}

fn run_partitioned(
    data: &SegmentDistinctAggReqData,
    matching: &[u32],
    partitions: u32,
) -> (u64, Vec<IntermediateSegmentDistinct>) {
    let max_doc = data.accessor.rows.len() as u32;
    let mut limits = AggregationLimits::new(None);
    let mut merged = IntermediateSegmentDistinct::new();
    let mut fruits = Vec::new();
    for (start, end) in partition_ranges(max_doc, partitions) {
        for keep in [false, true] {
            let mut collector = SegmentDistinctCollector::from_req_data(data);
            collect_segment_partition(
                &mut collector, matching, None, start, end, &mut limits, false,
            )
            .unwrap();
            let mut results = IntermediateAggregationResults::new();
            collector.add_intermediate_aggregation_result(&mut limits, &mut results, 0).unwrap();
            let fruit = results.remove("sc").unwrap();
            if keep {
                fruits.push(fruit);
            } else {
                merged.merge_fruits(fruit).unwrap();
            }
        }
    }
    (merged.finalize(), fruits)
}

#[test]
fn seg_card_partition_parity_straddling() {
    let data = build_straddle_data();
    let all: Vec<u32> = (0..512).collect();
    let (k8, fruits) = run_partitioned(&data, &all, 8);
    let (k1, _) = run_partitioned(&data, &all, 1);
    assert_eq!(fruits.len(), 8);
    assert_eq!(k8 as f64, 9.0);
    assert_eq!(k1, k8);

    let v3: Vec<u32> = (192..256).collect();
    let (k8, _) = run_partitioned(&data, &v3, 8);
    assert_eq!(k8 as f64, 2.0, "common + v3");
}

/// Whether the ordinals are kept as a bitmap, and the list of ordinals or of words.
fn ord_list(repr: &OrdSetRepr) -> (bool, Vec<u64>) {
    match repr {
        OrdSetRepr::Sparse(ords) => (false, ords.clone()),
        OrdSetRepr::Dense(words) => (true, words.clone()),
    }
}

fn to_json(segment_id: u128, parts: &SegmentDistinctParts) -> String {
    let ords = parts.str_ords.as_ref().map(|ords| (ords.capacity, ord_list(&ords.repr)));
    serde_json::to_string(&(segment_id, ords, &parts.numeric, &parts.ip)).unwrap()
}

type Ords = Option<(u64, (bool, Vec<u64>))>;

fn from_json(json: &str) -> (u128, SegmentDistinctParts) {
    let (segment_id, ords, numeric, ip): (u128, Ords, Vec<(u8, u64)>, Vec<u128>) =
        serde_json::from_str(json).unwrap();
    let str_ords = ords.map(|(capacity, (dense, list))| AdaptiveOrdSetSerde {
        capacity,
        repr: if dense { OrdSetRepr::Dense(list) } else { OrdSetRepr::Sparse(list) },
    });
    (segment_id, SegmentDistinctParts { str_ords, numeric, ip })
}

#[test]
fn seg_card_intermediate_serde_roundtrip() {
    let data = build_straddle_data();
    let all: Vec<u32> = (0..512).collect();
    let (direct, fruits) = run_partitioned(&data, &all, 8);
    let mut merged = IntermediateSegmentDistinct::new();
    let mut num_terms = 0;
    for fruit in fruits {
        for (segment_id, parts) in fruit.into_parts() {
            let json = to_json(segment_id, &parts);
            num_terms += parts.str_ords.map_or(0, |ords| ord_list(&ords.repr).1.len());
            let (segment_id, round) = from_json(&json);
            let entry = SegmentDistinctEntry::from_parts(round).unwrap();
            merged.merge_fruits(IntermediateSegmentDistinct::from_entry(segment_id, entry)).unwrap();
        }
    }
    assert!(num_terms > 0);
    assert_eq!(merged.finalize(), direct);
}

#[test]
fn seg_card_limits_registration() {
    let data = build_straddle_data();
    let mut limits = AggregationLimits::new(None);
    let mut results = IntermediateAggregationResults::new();
    let docs: Vec<u32> = (0..512).collect();
    collect_into(&data, &docs, &mut limits, &mut results).unwrap();
    assert!(limits.peak_memory > 0, "collection must register memory against the shared budget");
    // Nine terms, sixteen bytes each; the bitmap was counted for a moment on top.
    assert_eq!(limits.memory_consumed, 144);
    assert_eq!(limits.peak_memory, 144 + 9 / 8 + 64);
    assert_eq!(limits.memory_limit, DEFAULT_MEMORY_LIMIT);
}

#[test]
fn seg_card_limit_exceeded_clean_error() {
    let data = terms_data(1, &[vec!["a"], vec!["b"], vec!["c"], vec!["d"]]);
    let mut limits = AggregationLimits::new(Some(1));
    let mut results = IntermediateAggregationResults::new();
    let err = collect_into(&data, &[0, 1, 2, 3], &mut limits, &mut results).unwrap_err();
    let msg = err.message();
    assert!(
        msg.to_lowercase().contains("memory") || msg.contains("Aborting"),
        "unexpected error: {msg}"
    );
    assert_eq!(err, AggregationError::MemoryExceeded(MemoryExceeded { limit: 1, current: 64 }));
}

#[test]
fn memory_is_estimated_by_kind() {
    let mut limits = AggregationLimits::new(None);
    let numbers = req_data("n", ColumnType::U64, 1, vec![vec![1, 2, 2]]);
    let mut collector = SegmentDistinctCollector::from_req_data(&numbers);
    collector.collect(0, &[0], &mut limits).unwrap();
    assert_eq!(limits.memory_consumed, 48);
    collector.collect(0, &[0], &mut limits).unwrap();
    assert_eq!(limits.memory_consumed, 48);

    let mut limits = AggregationLimits::new(None);
    let mut addresses = req_data("ip", ColumnType::IpAddr, 1, vec![vec![0, 1]]);
    addresses.accessor.addresses = Some(vec![10, 11]);
    let mut collector = SegmentDistinctCollector::from_req_data(&addresses);
    collector.collect(0, &[0], &mut limits).unwrap();
    assert_eq!(limits.memory_consumed, 64);
}

#[test]
fn states_are_used_once() {
    let mut limits = AggregationLimits::new(None);
    let mut results = IntermediateAggregationResults::new();
    let data = req_data("n", ColumnType::U64, 1, vec![vec![1]]);
    let mut collector = SegmentDistinctCollector::from_req_data(&data);
    assert_eq!(
        collector.collect(3, &[0], &mut limits),
        Err(AggregationError::UnexpectedBucket)
    );
    assert_eq!(collector.prepare_max_bucket(1), Err(AggregationError::UnexpectedBucket));
    assert_eq!(collector.prepare_max_bucket(0), Ok(()));
    assert_eq!(collector.compute_metric_value(), None);
    assert_eq!(
        collector.add_intermediate_aggregation_result(&mut limits, &mut results, 9),
        Err(AggregationError::UnexpectedBucket)
    );
    collector.add_intermediate_aggregation_result(&mut limits, &mut results, 0).unwrap();
    assert_eq!(
        collector.add_intermediate_aggregation_result(&mut limits, &mut results, 0),
        Err(AggregationError::FinalizedTwice)
    );
    assert_eq!(
        collector.collect(0, &[0], &mut limits),
        Err(AggregationError::CollectedAfterFinalization)
    );
}

#[test]
fn address_columns_need_their_table() {
    let mut limits = AggregationLimits::new(None);
    let data = req_data("ip", ColumnType::IpAddr, 1, vec![vec![0]]);
    let mut collector = SegmentDistinctCollector::from_req_data(&data);
    assert_eq!(collector.collect(0, &[0], &mut limits), Err(AggregationError::TypeMismatch));
}

#[test]
fn one_segment_has_one_dictionary() {
    let mut limits = AggregationLimits::new(None);
    let mut results = IntermediateAggregationResults::new();
    let small = terms_data(5, &[vec!["a"]]);
    let large = terms_data(5, &[vec!["a"], vec!["b"]]);
    collect_into(&small, &[0], &mut limits, &mut results).unwrap();
    assert_eq!(
        collect_into(&large, &[0], &mut limits, &mut results),
        Err(AggregationError::CapacityMismatch(CapacityMismatch { left: 1, right: 2 }))
    );
    assert_eq!(finalized(results), 1);
}

#[test]
fn merging_is_idempotent_and_commutative() {
    let entry = |ords: Vec<u64>, numeric: Vec<(u8, u64)>, ip: Vec<u128>| {
        SegmentDistinctEntry::from_parts(SegmentDistinctParts {
            str_ords: Some(AdaptiveOrdSetSerde {
                capacity: 1000,
                repr: OrdSetRepr::Sparse(ords),
            }),
            numeric,
            ip,
        })
        .unwrap()
    };
    let left = || entry(vec![1, 2], vec![(0, 5)], vec![7]);
    let right = || entry(vec![2, 3], vec![(1, 5)], vec![7, 8]);
    let mut twice = left();
    twice.merge(left()).unwrap();
    assert_eq!(twice.count(), 4);
    let mut forward = left();
    forward.merge(right()).unwrap();
    let mut backward = right();
    backward.merge(left()).unwrap();
    assert_eq!(forward.count(), 7);
    assert_eq!(backward.count(), 7);
}

#[test]
fn column_types_have_fixed_codes() {
    assert_eq!(ColumnType::I64.code(), 0);
    assert_eq!(ColumnType::F64.code(), 2);
    assert_eq!(ColumnType::Bool.code(), 5);
    assert_eq!(ColumnType::DateTime.code(), 7);
}

#[test]
fn requests_keep_their_field() {
    let req = SegmentDistinctAggReq::from_field_name("price".to_string());
    assert_eq!(req.field_name(), "price");
    assert!(req.missing.is_none());
    let data = req_data("price", ColumnType::U64, 1, vec![]);
    assert_eq!(
        data.get_memory_consumption(),
        std::mem::size_of::<SegmentDistinctAggReqData>()
    );
}

#[test]
fn results_are_kept_under_the_names_of_their_requests() {
    let mut limits = AggregationLimits::new(None);
    let mut results = IntermediateAggregationResults::new();
    let mut prices = req_data("price", ColumnType::U64, 1, vec![vec![10, 20, 30]]);
    prices.name = "prices".to_string();
    let mut sizes = req_data("size", ColumnType::U64, 1, vec![vec![1, 2]]);
    sizes.name = "sizes".to_string();
    let mut others = req_data("size", ColumnType::U64, 2, vec![vec![2]]);
    others.name = "sizes".to_string();
    for data in [&prices, &sizes, &others, &sizes] {
        collect_into(data, &[0], &mut limits, &mut results).unwrap();
    }
    assert!(results.remove("sc").is_none());
    assert_eq!(results.remove("prices").unwrap().finalize(), 3);
    assert!(results.remove("prices").is_none());
    // The values of segment one count once, those of segment two again.
    let sizes = results.remove("sizes").unwrap();
    assert_eq!(sizes.finalize(), 3);
    let mut segments: Vec<u128> = sizes.into_parts().into_iter().map(|(id, _)| id).collect();
    segments.sort();
    assert_eq!(segments, vec![1, 2]);
}

#[test]
fn only_the_documents_matter() {
    let data = terms_data(1, &[vec!["a", "b"], vec!["b"], vec!["c"]]);
    let count = |docs: &[u32]| {
        let mut limits = AggregationLimits::new(None);
        let mut results = IntermediateAggregationResults::new();
        collect_into(&data, docs, &mut limits, &mut results).unwrap();
        finalized(results)
    };
    assert_eq!(count(&[0, 2]), 3);
    assert_eq!(count(&[2, 0, 2, 0, 0]), 3);
    assert_eq!(count(&[1, 1]), 1);
}

#[test]
fn a_lone_set_of_terms_is_kept_as_it_is() {
    // A list that is long enough for a bitmap stays a list as long as nothing is added.
    let parts = |ords: Vec<u64>| SegmentDistinctParts {
        str_ords: Some(AdaptiveOrdSetSerde { capacity: 8, repr: OrdSetRepr::Sparse(ords) }),
        numeric: vec![],
        ip: vec![],
    };
    let repr = |entry: SegmentDistinctEntry| ord_list(&entry.into_parts().str_ords.unwrap().repr);
    let mut entry = SegmentDistinctEntry::new();
    entry.merge(SegmentDistinctEntry::from_parts(parts(vec![1, 2, 3])).unwrap()).unwrap();
    entry.merge(SegmentDistinctEntry::new()).unwrap();
    assert_eq!(repr(entry), (false, vec![1, 2, 3]));

    let mut entry = SegmentDistinctEntry::from_parts(parts(vec![1, 2, 3])).unwrap();
    entry.merge(SegmentDistinctEntry::from_parts(parts(vec![2])).unwrap()).unwrap();
    assert_eq!(repr(entry), (true, vec![0b1110]));
}

#[test]
fn address_columns_without_values_need_no_addresses() {
    let mut limits = AggregationLimits::new(None);
    let mut results = IntermediateAggregationResults::new();
    let mut data = req_data("ip", ColumnType::IpAddr, 1, vec![vec![], vec![]]);
    data.accessor.addresses = Some(vec![]);
    collect_into(&data, &[0, 1], &mut limits, &mut results).unwrap();
    assert_eq!(finalized(results), 0);
}

#[test]
fn reported_memory_outlives_a_refused_bucket() {
    let mut limits = AggregationLimits::new(None);
    let mut results = IntermediateAggregationResults::new();
    let data = req_data("n", ColumnType::U64, 1, vec![vec![1], vec![2]]);
    let mut collector = SegmentDistinctCollector::from_req_data(&data);
    collector.collect(0, &[0], &mut limits).unwrap();
    assert!(collector.add_intermediate_aggregation_result(&mut limits, &mut results, 7).is_err());
    collector.collect(0, &[1], &mut limits).unwrap();
    assert_eq!(limits.memory_consumed, 48);
}
