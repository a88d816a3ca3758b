//! Walking over the matching documents of a segment.

pub mod partition;

pub use self::partition::{
    collect_segment_partition, count_segment, partition_ranges, PartitionDrive,
};
