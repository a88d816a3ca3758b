//! The versions of the store format.

use vstd::bytes::{u32_from_le_bytes, u32_to_le_bytes};
use vstd::prelude::*;

use crate::error::StoreError;

verus! {

/// The format version of a document store.
///
/// Since `V3` each block ends in a trailer with a field-id remap. An empty remap leaves field
/// ids as they are, as in `V2`. `V1` differs from `V2` in the unit of datetime values.
#[derive(Clone, Copy, Debug, PartialEq, Eq, PartialOrd, Structural)]
pub enum DocStoreVersion {
    V1,
    V2,
    V3,
}

/// The version that new stores are written in.
pub const DOC_STORE_VERSION: DocStoreVersion = DocStoreVersion::V3;

impl DocStoreVersion {
    /// The number that stands for this version on disk.
    pub open spec fn spec_number(self) -> u32 {
        match self {
            DocStoreVersion::V1 => 1,
            DocStoreVersion::V2 => 2,
            DocStoreVersion::V3 => 3,
        }
    }

    /// The number that stands for this version on disk.
    #[verifier::when_used_as_spec(spec_number)]
    pub fn number(self) -> (number: u32)
        ensures
            number == self.spec_number(),
    {
        match self {
            DocStoreVersion::V1 => 1,
            DocStoreVersion::V2 => 2,
            DocStoreVersion::V3 => 3,
        }
    }

    /// The name of this version.
    pub fn name(self) -> (name: &'static str)
        ensures
            self is V1 ==> name@ == "V1"@,
            self is V2 ==> name@ == "V2"@,
            self is V3 ==> name@ == "V3"@,
    {
        match self {
            DocStoreVersion::V1 => "V1",
            DocStoreVersion::V2 => "V2",
            DocStoreVersion::V3 => "V3",
        }
    }

    /// Appends the number of this version to `writer`.
    pub fn serialize(self, writer: &mut Vec<u8>)
        ensures
            final(writer)@ == old(writer)@ + vstd::bytes::spec_u32_to_le_bytes(self.spec_number()),
    {
        let mut number: Vec<u8> = u32_to_le_bytes(self.number());
        writer.append(&mut number);
        assert(writer@ =~= old(writer)@ + vstd::bytes::spec_u32_to_le_bytes(self.spec_number()));
    }

    /// What the first four bytes of `bytes` say about the version.
    pub open spec fn spec_deserialize(bytes: Seq<u8>) -> Result<DocStoreVersion, StoreError> {
        if bytes.len() < 4 {
            Err(StoreError::UnexpectedEof)
        } else {
            let number = vstd::bytes::spec_u32_from_le_bytes(bytes.take(4));
            if number == 1 {
                Ok(DocStoreVersion::V1)
            } else if number == 2 {
                Ok(DocStoreVersion::V2)
            } else if number == 3 {
                Ok(DocStoreVersion::V3)
            } else {
                Err(StoreError::InvalidDocStoreVersion { number })
            }
        }
    }

    /// Reads a version from the front of `reader`.
    pub fn deserialize(reader: &[u8]) -> (result: Result<DocStoreVersion, StoreError>)
        ensures
            result == Self::spec_deserialize(reader@),
    {
        if reader.len() < 4 {
            return Err(StoreError::UnexpectedEof);
        }
        let head: &[u8] = vstd::slice::slice_subrange(reader, 0, 4);
        assert(head@ =~= reader@.take(4));
        match u32_from_le_bytes(head) {
            1 => Ok(DocStoreVersion::V1),
            2 => Ok(DocStoreVersion::V2),
            3 => Ok(DocStoreVersion::V3),
            number => Err(StoreError::InvalidDocStoreVersion { number }),
        }
    }

    /// A version is read back as it was written, whatever follows it.
    pub proof fn lemma_roundtrip(self, rest: Seq<u8>)
        ensures
            Self::spec_deserialize(vstd::bytes::spec_u32_to_le_bytes(self.spec_number()) + rest)
                == Ok::<DocStoreVersion, StoreError>(self),
    {
        vstd::bytes::lemma_auto_spec_u32_to_from_le_bytes();
        let number = vstd::bytes::spec_u32_to_le_bytes(self.spec_number());
        assert((number + rest).take(4) =~= number);
    }
}

} // verus!
