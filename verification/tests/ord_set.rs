use docstore::aggregation::ord_set::{
    AdaptiveOrdSet, AdaptiveOrdSetSerde, CapacityMismatch, OrdSetPartsError, OrdSetRepr,
};

fn sparse(ords: &[u64], capacity: u64) -> AdaptiveOrdSet {
    AdaptiveOrdSet::try_from(AdaptiveOrdSetSerde {
        capacity,
        repr: OrdSetRepr::Sparse(ords.to_vec()),
    })
    .unwrap()
}

#[test]
fn adaptive_ord_set_merge_arms() {
    // sparse + sparse, staying sparse.
    let mut a = sparse(&[1, 5, 9], 1024);
    a.merge(sparse(&[2, 5, 700], 1024)).unwrap();
    assert_eq!(a.count(), 5);
    // sparse + sparse crossing the promotion threshold.
    let many: Vec<u64> = (0..40).map(|i| i * 2).collect();
    let more: Vec<u64> = (0..40).map(|i| i * 2 + 1).collect();
    let mut b = sparse(&many, 1024);
    b.merge(sparse(&more, 1024)).unwrap();
    assert_eq!(b.count(), 80);
    assert!(matches!(b.repr(), OrdSetRepr::Dense(_)));
    // dense + sparse and sparse + dense fold identically.
    let mut c = b.clone();
    c.merge(sparse(&[999], 1024)).unwrap();
    assert_eq!(c.count(), 81);
    let mut d = sparse(&[999], 1024);
    d.merge(b.clone()).unwrap();
    assert_eq!(d.count(), 81);
    // dense + dense ORs.
    let mut e = b.clone();
    e.merge(d).unwrap();
    assert_eq!(e.count(), 81);
    // capacity mismatch errors.
    let mut f = sparse(&[1], 64);
    assert!(f.merge(sparse(&[1], 128)).is_err());
}

#[test]
fn adaptive_ord_set_threshold_boundary() {
    // capacity 3200, ratio 32: <= 100 distinct stays sparse.
    let at_threshold: Vec<u64> = (0..100).collect();
    let set = AdaptiveOrdSet::from_unique_ords(at_threshold, 100, 3200);
    assert!(matches!(set.repr(), OrdSetRepr::Sparse(_)));
    let over: Vec<u64> = (0..101).collect();
    let set = AdaptiveOrdSet::from_unique_ords(over, 101, 3200);
    assert!(matches!(set.repr(), OrdSetRepr::Dense(_)));
    assert_eq!(set.count(), 101);
}

fn to_json(set: &AdaptiveOrdSet) -> String {
    let parts = set.clone().into_parts();
    let (name, values) = match parts.repr {
        OrdSetRepr::Sparse(values) => ("Sparse", values),
        OrdSetRepr::Dense(values) => ("Dense", values),
    };
    let values = serde_json::to_string(&values).unwrap();
    format!("{{\"capacity\":{},\"repr\":{{\"{}\":{}}}}}", parts.capacity, name, values)
}

fn numbers(value: &serde_json::Value) -> Vec<u64> {
    value.as_array().unwrap().iter().map(|n| n.as_u64().unwrap()).collect()
}

fn from_json(json: &str) -> Result<AdaptiveOrdSet, OrdSetPartsError> {
    let value: serde_json::Value = serde_json::from_str(json).unwrap();
    let repr = match value["repr"].get("Sparse") {
        Some(ords) => OrdSetRepr::Sparse(numbers(ords)),
        None => OrdSetRepr::Dense(numbers(&value["repr"]["Dense"])),
    };
    AdaptiveOrdSet::try_from(AdaptiveOrdSetSerde {
        capacity: value["capacity"].as_u64().unwrap(),
        repr,
    })
}

#[test]
fn adaptive_ord_set_serde_validates() {
    let good = sparse(&[1, 2, 3], 64);
    let json = to_json(&good);
    let round = from_json(&json).unwrap();
    assert_eq!(good, round);

    // Unsorted sparse form is rejected.
    let bad = json.replace("[1,2,3]", "[3,2,1]");
    assert_ne!(bad, json);
    assert!(from_json(&bad).is_err());
    // Dense with wrong word count is rejected.
    let dense = AdaptiveOrdSet::try_from(AdaptiveOrdSetSerde {
        capacity: 128,
        repr: OrdSetRepr::Dense(vec![0u64; 2]),
    })
    .unwrap();
    let json = to_json(&dense);
    let bad = json.replace("\"capacity\":128", "\"capacity\":129");
    assert_ne!(bad, json);
    assert!(from_json(&bad).is_err());
}

#[test]
fn each_flaw_of_a_representation_is_named() {
    let parts = |capacity: u64, repr: OrdSetRepr| {
        AdaptiveOrdSet::try_from(AdaptiveOrdSetSerde { capacity, repr }).err()
    };
    assert_eq!(
        parts(10, OrdSetRepr::Sparse(vec![1, 1])),
        Some(OrdSetPartsError::NotSorted)
    );
    assert_eq!(
        parts(10, OrdSetRepr::Sparse(vec![1, 10])),
        Some(OrdSetPartsError::SparseOrdExceedsCapacity)
    );
    assert_eq!(
        parts(65, OrdSetRepr::Dense(vec![0])),
        Some(OrdSetPartsError::DenseLengthMismatch)
    );
    assert_eq!(
        parts(65, OrdSetRepr::Dense(vec![0, 2])),
        Some(OrdSetPartsError::DenseOrdExceedsCapacity)
    );
    assert_eq!(parts(66, OrdSetRepr::Dense(vec![0, 2])), None);
}

#[test]
fn unsorted_ords_are_sorted_and_deduplicated() {
    let set = AdaptiveOrdSet::from_unique_ords(vec![9, 3, 7, 3], 4, 1024);
    assert_eq!(set.count(), 3);
    assert_eq!(set.capacity(), 1024);
    assert_eq!(*set.repr(), OrdSetRepr::Sparse(vec![3, 7, 9]));
}

#[test]
fn dense_words_hold_one_bit_per_ord() {
    let set = AdaptiveOrdSet::from_unique_ords(vec![0, 63, 64, 126, 127], 5, 128);
    assert_eq!(set.count(), 5);
    assert_eq!(
        *set.repr(),
        OrdSetRepr::Dense(vec![0x8000_0000_0000_0001, 0xC000_0000_0000_0001])
    );
}

#[test]
fn merge_of_different_dictionaries_names_both() {
    let mut set = sparse(&[1], 64);
    assert_eq!(
        set.merge(sparse(&[1], 128)),
        Err(CapacityMismatch { left: 64, right: 128 })
    );
    assert_eq!(set.count(), 1);
}
