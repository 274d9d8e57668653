use std::sync::Arc;
use vstd::prelude::*;
use vstd::string::StringExecFns;
use crate::db::TableMetaData;

pub mod row_data;
pub mod round_trip;
pub mod index;
pub mod index_laws;
pub mod search;

verus! {

pub const ID_ROW_TOMBSTONE: u8 = 0;

pub const ID_ROW_REGULAR: u8 = 1;

pub const ID_KEY_BOUND_NONE: u8 = 0;

pub const ID_KEY_BOUND_INCLUSIVE: u8 = 1;

pub const ID_KEY_BOUND_EXCLUSIVE: u8 = 2;

pub const ID_CELL_DATA_TOMBSTONE: u8 = 0;

pub const ID_CELL_DATA_REGULAR: u8 = 1;

/// Ties the two files of one build together: the table they belong to, the
/// build's own id, and the folder that the files are kept in.
#[derive(Clone)]
pub struct SstableMetaData {
    pub table_metadata: Arc<TableMetaData>,
    pub sstable_uuid: u128,
    pub folder: String,
}

/// The sixteen lower-case hexadecimal digits, by their value.
pub open spec fn hex_digits() -> Seq<char> {
    seq!['0', '1', '2', '3', '4', '5', '6', '7', '8', '9', 'a', 'b', 'c', 'd', 'e', 'f']
}

/// `id` without its `k` lowest hexadecimal digits.
pub open spec fn without_low_digits(id: int, k: nat) -> int
    decreases k,
{
    if k == 0 {
        id
    } else {
        without_low_digits(id / 16, (k - 1) as nat)
    }
}

/// The hyphenated form of a 128-bit id: 36 characters, hyphens at 8, 13,
/// 18 and 23, and everywhere else the id's 32 lower-case hexadecimal
/// digits, the most significant first.
pub open spec fn uuid_hyphenated(id: u128) -> Seq<char> {
    Seq::new(
        36,
        |i: int|
            if i == 8 || i == 13 || i == 18 || i == 23 {
                '-'
            } else {
                let hyphens_before: int = if i > 23 {
                    4
                } else if i > 18 {
                    3
                } else if i > 13 {
                    2
                } else if i > 8 {
                    1
                } else {
                    0
                };
                hex_digits()[without_low_digits(id as int, (31 - (i - hyphens_before)) as nat)
                    % 16]
            },
    )
}

/// Calls `uuid::Uuid::from_u128`, which takes the id's bytes in big-endian
/// order, and formats the result with `to_hyphenated`, which writes each
/// byte as two lower-case hexadecimal digits and puts hyphens behind the
/// groups of 8, 4, 4 and 4 digits.
#[verifier::external_body]
fn hyphenated(id: u128) -> (text: String)
    ensures
        text@ == uuid_hyphenated(id),
{
    uuid::Uuid::from_u128(id).to_hyphenated().to_string()
}

impl SstableMetaData {
    /// The name that a file of this build has, inside the build's folder,
    /// for the given extension: the build's id, the table's name and the
    /// table's id, joined by underscores, then a dot and the extension.
    pub open spec fn spec_filename(&self, extension: Seq<char>) -> Seq<char> {
        uuid_hyphenated(self.sstable_uuid) + seq!['_'] + self.table_metadata.name@ + seq!['_']
            + uuid_hyphenated(self.table_metadata.id) + seq!['.'] + extension
    }

    /// The name of the build's data file.
    pub fn data_filename(&self) -> (name: String)
        ensures
            name@ == self.spec_filename(seq!['d', 'a', 't', 'a']),
    {
        proof {
            reveal_strlit("data");
        }
        assert("data"@ =~= seq!['d', 'a', 't', 'a']);
        self.filename("data")
    }

    /// The name of the build's index file.
    pub fn index_filename(&self) -> (name: String)
        ensures
            name@ == self.spec_filename(seq!['i', 'n', 'd', 'e', 'x']),
    {
        proof {
            reveal_strlit("index");
        }
        assert("index"@ =~= seq!['i', 'n', 'd', 'e', 'x']);
        self.filename("index")
    }

    fn filename(&self, extension: &str) -> (name: String)
        ensures
            name@ == self.spec_filename(extension@),
    {
        proof {
            reveal_strlit("_");
            reveal_strlit(".");
        }
        assert("_"@ =~= seq!['_']);
        assert("."@ =~= seq!['.']);
        let mut name = hyphenated(self.sstable_uuid);
        name.append("_");
        name.append(self.table_metadata.name.as_str());
        name.append("_");
        let table_id = hyphenated(self.table_metadata.id);
        name.append(table_id.as_str());
        name.append(".");
        name.append(extension);
        name
    }
}

} // verus!
