//! Rows of a table file, and the decisions a table makes while it walks its
//! file: where a record starts, which record it stops at, and how far it
//! moves back before the next read.

use crate::codec::{native_is_little, native_little, read_u32_in_at, text_eq, u32_in_at};
use crate::post::{lemma_post_roundtrip, parse_post, post_bytes, Post, PostView};
use crate::user::{lemma_user_roundtrip, parse_user, user_bytes, User, UserView};
use vstd::prelude::*;

verus! {

pub enum Row {
    User(User),
    Post(Post),
}

/// The abstract value of a row.
pub enum RowView {
    User(UserView),
    Post(PostView),
}

impl View for Row {
    type V = RowView;

    open spec fn view(&self) -> RowView {
        match self {
            Row::User(u) => RowView::User(u@),
            Row::Post(p) => RowView::Post(p@),
        }
    }
}

/// Why bytes could not be read as a row.
#[derive(Debug)]
pub enum RowDecodeError {
    /// The table's item type is neither "post" nor "user".
    UnknownItemType,
    /// The bytes do not start with a well-formed record of that type.
    Malformed,
}

/// The record of a row.
pub open spec fn row_bytes(r: RowView) -> Seq<u8> {
    match r {
        RowView::User(u) => user_bytes(u),
        RowView::Post(p) => post_bytes(p),
    }
}

/// The row of the given item type whose record starts `b`, with the record's
/// length.
pub open spec fn parse_row(b: Seq<u8>, item_type: Seq<char>) -> Option<(RowView, int)> {
    if item_type == "post"@ {
        match parse_post(b) {
            Some((p, n)) => Some((RowView::Post(p), n)),
            None => None,
        }
    } else if item_type == "user"@ {
        match parse_user(b) {
            Some((u, n)) => Some((RowView::User(u), n)),
            None => None,
        }
    } else {
        None
    }
}

/// Whether the item type is one that rows can be read as.
pub open spec fn known_item_type(item_type: Seq<char>) -> bool {
    item_type == "post"@ || item_type == "user"@
}

impl RowView {
    /// The item type that a table of rows like this one has.
    pub open spec fn item_type(self) -> Seq<char> {
        match self {
            RowView::User(_) => "user"@,
            RowView::Post(_) => "post"@,
        }
    }

    /// Every text that the record stores fits its length prefix.
    pub open spec fn fits_record(self) -> bool {
        match self {
            RowView::User(u) => u.fits_record(),
            RowView::Post(p) => p.fits_record(),
        }
    }

    /// The row as it comes back from its record.
    pub open spec fn as_stored(self) -> RowView {
        match self {
            RowView::User(u) => RowView::User(u.as_stored()),
            RowView::Post(p) => RowView::Post(p.as_stored()),
        }
    }
}

/// A row's record, read in a table of the row's item type, gives back the
/// row (without its source id), and reading stops right after the record.
pub proof fn lemma_row_roundtrip(r: RowView, rest: Seq<u8>)
    requires
        r.fits_record(),
    ensures
        parse_row(row_bytes(r) + rest, r.item_type()) == Some((r.as_stored(), row_bytes(r).len() as int)),
{
    reveal_strlit("user");
    reveal_strlit("post");
    assert("user"@ != "post"@) by {
        assert("user"@[0] != "post"@[0]);
    }
    match r {
        RowView::User(u) => lemma_user_roundtrip(u, rest),
        RowView::Post(p) => lemma_post_roundtrip(p, rest),
    }
}

impl Row {
    /// The row of type `item_type` whose record starts `bytes`, with the
    /// record's length.
    pub fn parse(bytes: &[u8], item_type: &String) -> (r: Result<(Row, u64), RowDecodeError>)
        ensures
            !known_item_type(item_type@) <==> r matches Err(RowDecodeError::UnknownItemType),
            match parse_row(bytes@, item_type@) {
                Some((row, n)) => r matches Ok((q, m)) && q@ == row && m == n,
                None => r is Err,
            },
    {
        if text_eq(item_type.as_str(), "post") {
            match Post::parse(bytes) {
                Some((p, n)) => Ok((Row::Post(p), n)),
                None => Err(RowDecodeError::Malformed),
            }
        } else if text_eq(item_type.as_str(), "user") {
            match User::parse(bytes) {
                Some((u, n)) => Ok((Row::User(u), n)),
                None => Err(RowDecodeError::Malformed),
            }
        } else {
            Err(RowDecodeError::UnknownItemType)
        }
    }

    /// The row of type `item_type` whose record starts `bytes`, with the
    /// record's length.
    pub fn from_bytes(bytes: &[u8], item_type: &String) -> (r: (Row, u64))
        requires
            parse_row(bytes@, item_type@) is Some,
        ensures
            r.0@ == parse_row(bytes@, item_type@).unwrap().0,
            r.1 == parse_row(bytes@, item_type@).unwrap().1,
    {
        Row::parse(bytes, item_type).unwrap()
    }

    /// The record of this row.
    pub fn to_bytes(&self) -> (r: Vec<u8>)
        ensures
            r@ == row_bytes(self@),
    {
        match self {
            Row::User(row) => row.to_bytes(),
            Row::Post(row) => row.to_bytes(),
        }
    }
}

/// What a lookup by position does after one read of the table file.
pub enum GetAction {
    /// The record just read is the one asked for.
    Found(Row),
    /// Nothing more could be read: no such record.
    NotFound,
    /// Not this record: count it and move by `offset` bytes from where the
    /// read left off, to the start of the next record.
    Skip { next_index: i32, offset: i64 },
}

/// One step of looking up the `index`-th record (counting from 1): the read
/// filled `buffer` with `bytes_read` bytes, and the record just read is the
/// `idx`-th.
pub fn get_step(buffer: &[u8], bytes_read: usize, item_type: &String, idx: i32, index: i32) -> (r:
    GetAction)
    requires
        bytes_read <= buffer@.len(),
        buffer@.len() <= i64::MAX,
        bytes_read > 0 ==> parse_row(buffer@, item_type@) is Some,
        bytes_read > 0 && idx != index ==> idx < i32::MAX,
    ensures
        bytes_read == 0 ==> r is NotFound,
        bytes_read > 0 ==> match r {
            GetAction::Found(row) => idx == index && row@ == parse_row(buffer@, item_type@).unwrap().0,
            GetAction::Skip { next_index, offset } => idx != index && next_index == idx + 1
                && offset == parse_row(buffer@, item_type@).unwrap().1 - bytes_read,
            GetAction::NotFound => false,
        },
{
    if bytes_read == 0 {
        return GetAction::NotFound;
    }
    let (entry, cursor) = Row::from_bytes(buffer, item_type);
    if idx == index {
        return GetAction::Found(entry);
    }
    GetAction::Skip { next_index: idx + 1, offset: cursor as i64 - bytes_read as i64 }
}

/// What listing every record does after one read of the table file.
pub enum ScanAction {
    /// The listing is complete.
    Stop,
    /// Move back this many bytes from where the read left off, to the start
    /// of the next record, and read again.
    Rewind(u64),
}

/// One step of listing every record: the read filled `buffer` with
/// `bytes_read` bytes; the record it starts with joins `entries`.
pub fn all_step(entries: &mut Vec<Row>, buffer: &[u8], bytes_read: usize, item_type: &String) -> (r:
    ScanAction)
    requires
        bytes_read <= buffer@.len(),
        buffer@.len() <= i64::MAX,
        bytes_read > 0 ==> parse_row(buffer@, item_type@) is Some,
    ensures
        bytes_read == 0 ==> r is Stop && final(entries)@ == old(entries)@,
        bytes_read > 0 ==> {
            let (row, end) = parse_row(buffer@, item_type@).unwrap();
            &&& final(entries)@.len() == old(entries)@.len() + 1
            &&& final(entries)@.drop_last() == old(entries)@
            &&& final(entries)@.last()@ == row
            &&& end < bytes_read ==> r == ScanAction::Rewind((bytes_read - end) as u64)
            &&& end >= bytes_read ==> r is Stop
        },
{
    if bytes_read == 0 {
        return ScanAction::Stop;
    }
    let (entry, cursor) = Row::from_bytes(buffer, item_type);
    entries.push(entry);
    let buffer_offset: i64 = bytes_read as i64 - cursor as i64;
    if buffer_offset > 0 {
        ScanAction::Rewind(buffer_offset as u64)
    } else {
        ScanAction::Stop
    }
}

/// Where a record of `len` bytes starts when writing it left the file at
/// `end`, as the table reports it (truncated to 32 bits).
pub fn record_start(end: u64, len: usize) -> (r: i32)
    requires
        len <= end,
    ensures
        r == (end - len) as i32,
{
    #[verifier::truncate]
    ((end - len as u64) as i32)
}

/// The `i32` stored in the machine's byte order in the first four bytes.
pub fn read_ne_i32(input: &[u8]) -> (r: i32)
    requires
        input@.len() >= 4,
    ensures
        r == u32_in_at(input@, 0, native_little()).unwrap() as i32,
{
    let little = native_is_little();
    let n = read_u32_in_at(input, 0, little).unwrap();
    #[verifier::truncate]
    (n as i32)
}

} // verus!
