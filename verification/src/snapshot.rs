//! Snapshots: the cache as two parallel columns, the name of the file that holds
//! them, and their encoding as a columnar file with a two-field schema.

use std::sync::Arc;
use arrow::array::{ArrayRef, StringArray};
use arrow::datatypes::{DataType, Field, Schema};
use arrow::error::ArrowError;
use arrow::ipc::writer::FileWriter;
use arrow::record_batch::RecordBatch;
use vstd::prelude::*;
use vstd::string::*;
use vstd::utf8::encode_utf8;
use crate::store::{Entries, lookup, lemma_position_at};
use crate::text::{decimal, decimal_string};

verus! {

/// Name of the column that holds the keys.
pub const KEY_FIELD: &'static str = "key";

/// Name of the column that holds the values.
pub const VALUE_FIELD: &'static str = "value";

/// Most bytes of text that one column can hold: its offsets are 32 bits wide.
pub const COLUMN_LIMIT: usize = 0x7fff_ffff;

/// The error type of the columnar codec, carried through as it comes.
#[verifier::external_type_specification]
#[verifier::external_body]
pub struct ExArrowError(ArrowError);

/// Why a snapshot could not be encoded.
#[derive(Debug, Clone, PartialEq, Eq)]
pub enum SnapshotError {
    /// A column holds more text than its offsets can address.
    TooLarge,
    /// The codec refused the batch; the text is its own account of why.
    Codec(String),
}

/// The rows that two columns make, place for place.
pub open spec fn rows(keys: Seq<Seq<char>>, values: Seq<Seq<char>>) -> Entries {
    Seq::new(keys.len(), |i: int| (keys[i], values[i]))
}

/// The keys of the rows, as a column.
pub open spec fn key_column(entries: Entries) -> Seq<Seq<char>> {
    entries.map_values(|e: (Seq<char>, Seq<char>)| e.0)
}

/// The values of the rows, as a column.
pub open spec fn value_column(entries: Entries) -> Seq<Seq<char>> {
    entries.map_values(|e: (Seq<char>, Seq<char>)| e.1)
}

/// The number of bytes that the texts of a column take in UTF-8.
pub open spec fn column_bytes(column: Seq<Seq<char>>) -> nat
    decreases column.len(),
{
    if column.len() == 0 {
        0
    } else {
        column_bytes(column.drop_last()) + encode_utf8(column.last()).len()
    }
}

/// Whether both columns of the rows fit the codec's 32-bit offsets.
pub open spec fn fits(entries: Entries) -> bool {
    &&& column_bytes(key_column(entries)) <= COLUMN_LIMIT
    &&& column_bytes(value_column(entries)) <= COLUMN_LIMIT
}

/// The six bytes `ARROW1` that open and close a columnar file.
pub open spec fn magic() -> Seq<u8> {
    seq![0x41u8, 0x52u8, 0x52u8, 0x4Fu8, 0x57u8, 0x31u8]
}

/// Whether `bytes` open and close as a columnar file does.
pub open spec fn framed(bytes: Seq<u8>) -> bool {
    &&& bytes.len() >= 12
    &&& bytes.take(6) == magic()
    &&& bytes.skip(bytes.len() - 6) == magic()
}

/// The file that the columnar codec makes of one record batch: two columns of
/// text, `keys` and `values`, under a schema of the two named fields, both of
/// text and nullable or not; `None` where the codec refuses the batch. The codec
/// lays the column buffers out in the byte order of the machine it runs on, so
/// the file is a function of that order too: `little_endian` tells which it is.
pub uninterp spec fn arrow_file(
    little_endian: bool,
    key_field: Seq<char>,
    value_field: Seq<char>,
    nullable: bool,
    keys: Seq<Seq<char>>,
    values: Seq<Seq<char>>,
) -> Option<Seq<u8>>;

/// Whether `file` is what the codec makes of `entries` as a snapshot: their keys
/// and their values, row for row, under the fields `key` and `value`, not
/// nullable, in the byte order of some machine.
pub open spec fn snapshot_file(entries: Entries, file: Option<Seq<u8>>) -> bool {
    exists|little_endian: bool|
        #[trigger] arrow_file(
            little_endian,
            KEY_FIELD@,
            VALUE_FIELD@,
            false,
            key_column(entries),
            value_column(entries),
        ) == file
}

/// The name of the snapshot file of the node that serves commands on `port`.
pub open spec fn path_text(port: nat) -> Seq<char> {
    "node_"@ + decimal(port) + "_cache.arrow"@
}

/// A column holds at least as many bytes as any of its beginnings.
pub proof fn lemma_column_bytes_grow(column: Seq<Seq<char>>, n: int)
    requires
        0 <= n <= column.len(),
    ensures
        column_bytes(column.take(n)) <= column_bytes(column),
    decreases column.len(),
{
    if n == column.len() {
        assert(column.take(n) =~= column);
    } else {
        lemma_column_bytes_grow(column.drop_last(), n);
        assert(column.drop_last().take(n) =~= column.take(n));
    }
}

/// A point-in-time copy of a cache: the keys and, place for place, their values.
#[derive(Debug)]
pub struct Snapshot {
    keys: Vec<String>,
    values: Vec<String>,
}

impl View for Snapshot {
    type V = Entries;

    closed spec fn view(&self) -> Entries {
        rows(self.keys.deep_view(), self.values.deep_view())
    }
}

impl Snapshot {
    #[verifier::type_invariant]
    spec fn same_length(self) -> bool {
        self.keys.len() == self.values.len()
    }

    /// Makes a snapshot of two columns of one length.
    pub fn of_columns(keys: Vec<String>, values: Vec<String>) -> (s: Self)
        requires
            keys.len() == values.len(),
        ensures
            s@ == rows(keys.deep_view(), values.deep_view()),
    {
        Snapshot { keys, values }
    }

    /// Makes a snapshot of two columns; `None` when their lengths differ.
    pub fn from_columns(keys: Vec<String>, values: Vec<String>) -> (r: Option<Self>)
        ensures
            match r {
                Some(s) => keys.len() == values.len() && s@ == rows(
                    keys.deep_view(),
                    values.deep_view(),
                ),
                None => keys.len() != values.len(),
            },
    {
        if keys.len() == values.len() {
            Some(Self::of_columns(keys, values))
        } else {
            None
        }
    }

    /// The number of rows.
    pub fn len(&self) -> (n: usize)
        ensures
            n == self@.len(),
    {
        self.keys.len()
    }

    /// The column of keys.
    pub fn keys(&self) -> (column: &Vec<String>)
        ensures
            column.deep_view() == key_column(self@),
    {
        assert(self.keys.deep_view() =~= key_column(self@));
        &self.keys
    }

    /// The column of values.
    pub fn values(&self) -> (column: &Vec<String>)
        ensures
            column.deep_view() == value_column(self@),
    {
        proof {
            use_type_invariant(self);
        }
        assert(self.values.deep_view() =~= value_column(self@));
        &self.values
    }

    /// The value in the first row whose key is `key`.
    pub fn lookup(&self, key: &str) -> (r: Option<&String>)
        ensures
            match r {
                Some(v) => lookup(self@, key@) == Some(v@),
                None => lookup(self@, key@).is_none(),
            },
    {
        proof {
            use_type_invariant(self);
        }
        let owned = key.to_owned();
        let mut i: usize = 0;
        while i < self.keys.len()
            invariant
                0 <= i <= self.keys.len(),
                self.keys.len() == self.values.len(),
                owned@ == key@,
                forall|k: int| 0 <= k < i ==> self@[k].0 != key@,
            decreases self.keys.len() - i,
        {
            if self.keys[i].eq(&owned) {
                proof {
                    lemma_position_at(self@, key@, i as int);
                }
                return Some(&self.values[i]);
            }
            i += 1;
        }
        proof {
            lemma_position_at(self@, key@, i as int);
        }
        None
    }
}

/// What reading one record batch of a snapshot file gave.
#[derive(Debug)]
pub enum BatchRead {
    /// The batch, with its first two columns both of text.
    Rows(Snapshot),
    /// A batch whose first two columns are not both of text.
    NotText,
    /// The batch could not be read.
    Failed,
}

/// The mathematical form of a `BatchRead`.
pub enum BatchView {
    Rows(Entries),
    NotText,
    Failed,
}

impl View for BatchRead {
    type V = BatchView;

    open spec fn view(&self) -> BatchView {
        match self {
            BatchRead::Rows(rows) => BatchView::Rows(rows@),
            BatchRead::NotText => BatchView::NotText,
            BatchRead::Failed => BatchView::Failed,
        }
    }
}

impl DeepView for BatchRead {
    type V = BatchView;

    open spec fn deep_view(&self) -> BatchView {
        self@
    }
}

/// The value under `key` in the batches of a file, read in order: that of the
/// first row under the key. A batch that is not of text is passed over; a batch
/// that failed ends the search with nothing.
pub open spec fn found_in(batches: Seq<BatchView>, key: Seq<char>) -> Option<Seq<char>>
    decreases batches.len(),
{
    if batches.len() == 0 {
        None
    } else {
        match batches.first() {
            BatchView::Failed => None,
            BatchView::NotText => found_in(batches.drop_first(), key),
            BatchView::Rows(rows) => match lookup(rows, key) {
                Some(value) => Some(value),
                None => found_in(batches.drop_first(), key),
            },
        }
    }
}

/// Looks `key` up in the batches read from a snapshot file.
pub fn find_in_batches<'a>(batches: &'a Vec<BatchRead>, key: &str) -> (r: Option<&'a String>)
    ensures
        match r {
            Some(value) => found_in(batches.deep_view(), key@) == Some(value@),
            None => found_in(batches.deep_view(), key@).is_none(),
        },
{
    let mut i: usize = 0;
    assert(batches.deep_view().skip(0) =~= batches.deep_view());
    while i < batches.len()
        invariant
            0 <= i <= batches.len(),
            found_in(batches.deep_view(), key@) == found_in(batches.deep_view().skip(i as int), key@),
        decreases batches.len() - i,
    {
        let ghost rest = batches.deep_view().skip(i as int);
        assert(rest.first() == batches[i as int]@);
        assert(rest.drop_first() =~= batches.deep_view().skip(i + 1));
        match &batches[i] {
            BatchRead::Failed => {
                return None;
            },
            BatchRead::NotText => {},
            BatchRead::Rows(rows) => {
                match rows.lookup(key) {
                    Some(value) => {
                        return Some(value);
                    },
                    None => {},
                }
            },
        }
        i += 1;
    }
    None
}

/// Writes the name of the snapshot file of the node that serves commands on `port`.
pub fn snapshot_path(port: u16) -> (r: String)
    ensures
        r@ == path_text(port as nat),
{
    let mut r = "node_".to_owned();
    let digits = decimal_string(port as u64);
    r.append(digits.as_str());
    r.append("_cache.arrow");
    r
}

/// Tells whether the texts of `column` take no more than `COLUMN_LIMIT` bytes.
pub fn column_fits(column: &Vec<String>) -> (b: bool)
    ensures
        b == (column_bytes(column.deep_view()) <= COLUMN_LIMIT),
{
    let mut total: usize = 0;
    let mut i: usize = 0;
    assert(column.deep_view().take(0) =~= Seq::<Seq<char>>::empty());
    while i < column.len()
        invariant
            0 <= i <= column.len(),
            total == column_bytes(column.deep_view().take(i as int)),
            total <= COLUMN_LIMIT,
        decreases column.len() - i,
    {
        let n: usize = column[i].as_str().as_bytes().len();
        proof {
            let next = column.deep_view().take(i + 1);
            assert(next.drop_last() =~= column.deep_view().take(i as int));
            assert(next.last() == column[i as int]@);
            lemma_column_bytes_grow(column.deep_view(), i + 1);
        }
        if n > COLUMN_LIMIT - total {
            return false;
        }
        total = total + n;
        i += 1;
    }
    assert(column.deep_view().take(i as int) =~= column.deep_view());
    true
}

/// Tells whether `bytes` open and close as a columnar file does.
pub fn has_frame(bytes: &Vec<u8>) -> (b: bool)
    ensures
        b == framed(bytes@),
{
    let n: usize = bytes.len();
    if n < 12 {
        return false;
    }
    let head = bytes[0] == 0x41 && bytes[1] == 0x52 && bytes[2] == 0x52 && bytes[3] == 0x4F
        && bytes[4] == 0x57 && bytes[5] == 0x31;
    let tail = bytes[n - 6] == 0x41 && bytes[n - 5] == 0x52 && bytes[n - 4] == 0x52 && bytes[n
        - 3] == 0x4F && bytes[n - 2] == 0x57 && bytes[n - 1] == 0x31;
    proof {
        let first = bytes@.take(6);
        let last = bytes@.skip(n - 6);
        if head {
            assert(first =~= magic());
        } else {
            assert(first[0] == bytes@[0] && first[1] == bytes@[1] && first[2] == bytes@[2]
                && first[3] == bytes@[3] && first[4] == bytes@[4] && first[5] == bytes@[5]);
        }
        if tail {
            assert(last =~= magic());
        } else {
            assert(last[0] == bytes@[n - 6] && last[1] == bytes@[n - 5] && last[2] == bytes@[n
                - 4] && last[3] == bytes@[n - 3] && last[4] == bytes@[n - 2] && last[5]
                == bytes@[n - 1]);
        }
    }
    head && tail
}

/// Encodes two columns of text as one record batch in a columnar file held in
/// memory: `StringArray::from_iter_values` makes the columns, `Schema::new` and
/// `RecordBatch::try_new` the batch under the two named fields of text, and
/// `FileWriter::try_new`, `write` and `into_inner` of `arrow::ipc::writer` the
/// file. Trusted: the outcome is `arrow_file` of what was handed in, in the byte
/// order of the machine, and a file that was written opens and closes with the
/// format's magic bytes. The text of each column must fit 32-bit offsets, as the
/// array constructor asks.
#[verifier::external_body]
fn write_columns(
    key_field: &str,
    value_field: &str,
    nullable: bool,
    keys: &Vec<String>,
    values: &Vec<String>,
) -> (r: Result<Vec<u8>, ArrowError>)
    requires
        column_bytes(keys.deep_view()) <= COLUMN_LIMIT,
        column_bytes(values.deep_view()) <= COLUMN_LIMIT,
    ensures
        r matches Ok(bytes) ==> framed(bytes@),
        exists|little_endian: bool|
            #[trigger] arrow_file(
                little_endian,
                key_field@,
                value_field@,
                nullable,
                keys.deep_view(),
                values.deep_view(),
            ) == match r {
                Ok(bytes) => Some(bytes@),
                Err(_) => None,
            },
{
    let fields = vec![
        Field::new(key_field, DataType::Utf8, nullable),
        Field::new(value_field, DataType::Utf8, nullable),
    ];
    let schema = Arc::new(Schema::new(fields));
    let key_column: ArrayRef = Arc::new(StringArray::from_iter_values(keys.iter()));
    let value_column: ArrayRef = Arc::new(StringArray::from_iter_values(values.iter()));
    let batch = RecordBatch::try_new(schema.clone(), vec![key_column, value_column])?;
    let mut writer = FileWriter::try_new(Vec::new(), &schema)?;
    writer.write(&batch)?;
    writer.into_inner()
}

/// The codec's own account of an error, from `ArrowError`'s `Display`. Trusted;
/// nothing is claimed of the text.
#[verifier::external_body]
fn error_text(error: &ArrowError) -> String {
    error.to_string()
}

/// Settles what comes of an encoding that the codec has answered: the file it
/// wrote, or its account of why it wrote none.
pub fn encoded(answer: Result<Vec<u8>, String>) -> (r: Result<Vec<u8>, SnapshotError>)
    ensures
        match answer {
            Ok(bytes) => r matches Ok(out) && out@ == bytes@,
            Err(text) => r matches Err(SnapshotError::Codec(reason)) && reason@ == text@,
        },
{
    match answer {
        Ok(bytes) => Ok(bytes),
        Err(text) => Err(SnapshotError::Codec(text)),
    }
}

/// Encodes a snapshot as a columnar file: one record batch of the snapshot's
/// keys and values, row for row, under the schema `key`, `value`, both text and
/// not nullable. A snapshot too large for the format is refused before the codec
/// is called; one that fits is the codec's to write or to refuse.
pub fn encode_snapshot(snapshot: &Snapshot) -> (r: Result<Vec<u8>, SnapshotError>)
    ensures
        match r {
            Ok(bytes) => {
                &&& fits(snapshot@)
                &&& framed(bytes@)
                &&& snapshot_file(snapshot@, Some(bytes@))
            },
            Err(SnapshotError::TooLarge) => !fits(snapshot@),
            Err(SnapshotError::Codec(_)) => fits(snapshot@) && snapshot_file(snapshot@, None),
        },
{
    let keys = snapshot.keys();
    let values = snapshot.values();
    if !column_fits(keys) || !column_fits(values) {
        return Err(SnapshotError::TooLarge);
    }
    let answer = match write_columns(KEY_FIELD, VALUE_FIELD, false, keys, values) {
        Ok(bytes) => Ok(bytes),
        Err(error) => Err(error_text(&error)),
    };
    encoded(answer)
}

} // verus!
