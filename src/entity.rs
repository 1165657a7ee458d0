//! One capture file: where it is, its name, its timestamp and its size.
use vstd::prelude::*;
use crate::MatchError;
use crate::timestamp::{stamp_of, parse_timestamp, Timestamp, STAMP_LEN};

verus! {

/// What the file system tells about one file, before its name is read.
pub struct FileInfo {
    pub path: String,
    pub name: String,
    pub stem: String,
    pub bytes: u64,
}

/// A capture file whose name starts with its timestamp.
pub struct IIQFile {
    path: String,
    name: String,
    stem: String,
    datetime: Timestamp,
    bytes: u64,
}

/// The value of an `IIQFile`.
pub struct FileView {
    pub path: Seq<char>,
    pub name: Seq<char>,
    pub stem: Seq<char>,
    pub datetime: Timestamp,
    pub bytes: u64,
}

impl View for IIQFile {
    type V = FileView;

    closed spec fn view(&self) -> FileView {
        FileView {
            path: self.path@,
            name: self.name@,
            stem: self.stem@,
            datetime: self.datetime,
            bytes: self.bytes,
        }
    }
}

/// The first sixteen characters of a stem, where the timestamp is written.
pub open spec fn stamp_prefix(stem: Seq<char>) -> Seq<char> {
    stem.subrange(0, STAMP_LEN as int)
}

/// The file's timestamp is the one its stem starts with.
pub open spec fn is_stamped(f: FileView) -> bool {
    f.stem.len() >= STAMP_LEN && stamp_of(stamp_prefix(f.stem)) == Some(f.datetime)
}

/// The file's time, in milliseconds since the Unix epoch.
pub open spec fn key(f: FileView) -> int {
    f.datetime.instant as int
}

/// The stem of `info` starts with a timestamp that chrono reads.
pub open spec fn info_parses(info: FileInfo) -> bool {
    info.stem@.len() >= STAMP_LEN && stamp_of(stamp_prefix(info.stem@)) is Some
}

/// The file that `info` describes, when its stem parses.
pub open spec fn entity_of(info: FileInfo) -> FileView {
    FileView {
        path: info.path@,
        name: info.name@,
        stem: info.stem@,
        datetime: stamp_of(stamp_prefix(info.stem@))->0,
        bytes: info.bytes,
    }
}

/// `|a - b|`.
pub open spec fn abs_diff_spec(a: int, b: int) -> int {
    if a >= b {
        a - b
    } else {
        b - a
    }
}

/// `|a - b|` for two millisecond instants; it always fits in a `u64`.
pub fn abs_diff_millis(a: i64, b: i64) -> (r: u64)
    ensures
        r as int == abs_diff_spec(a as int, b as int),
{
    let d: i128 = (a as i128) - (b as i128);
    if d >= 0 {
        d as u64
    } else {
        (-d) as u64
    }
}

impl IIQFile {
    /// Builds the file that `info` describes, reading its timestamp from the
    /// first sixteen characters of its stem.
    pub fn new(info: &FileInfo) -> (r: Result<IIQFile, MatchError>)
        ensures
            r is Ok <==> info_parses(*info),
            r matches Ok(f) ==> f@ == entity_of(*info) && is_stamped(f@),
            r matches Err(e) ==> e == MatchError::Parse,
    {
        let stem = info.stem.as_str();
        if stem.unicode_len() < STAMP_LEN {
            return Err(MatchError::Parse);
        }
        let prefix = stem.substring_char(0, STAMP_LEN);
        match parse_timestamp(prefix) {
            Some(datetime) => Ok(
                IIQFile {
                    path: info.path.clone(),
                    name: info.name.clone(),
                    stem: info.stem.clone(),
                    datetime,
                    bytes: info.bytes,
                },
            ),
            None => Err(MatchError::Parse),
        }
    }

    pub fn path(&self) -> (r: String)
        ensures
            r@ == self@.path,
    {
        self.path.clone()
    }

    pub fn name(&self) -> (r: String)
        ensures
            r@ == self@.name,
    {
        self.name.clone()
    }

    pub fn stem(&self) -> (r: String)
        ensures
            r@ == self@.stem,
    {
        self.stem.clone()
    }

    pub fn datetime(&self) -> (r: Timestamp)
        ensures
            r == self@.datetime,
    {
        self.datetime
    }

    pub fn bytes(&self) -> (r: u64)
        ensures
            r == self@.bytes,
    {
        self.bytes
    }

    /// This file's time in milliseconds since the Unix epoch.
    pub fn instant(&self) -> (r: i64)
        ensures
            r as int == key(self@),
    {
        self.datetime.instant
    }

    /// A copy of this file.
    pub fn duplicate(&self) -> (r: IIQFile)
        ensures
            r@ == self@,
    {
        IIQFile {
            path: self.path.clone(),
            name: self.name.clone(),
            stem: self.stem.clone(),
            datetime: self.datetime,
            bytes: self.bytes,
        }
    }

    /// Milliseconds from `other` to this file's time (negative when this file
    /// is earlier).
    pub fn diff(&self, other: &Timestamp) -> (r: i128)
        ensures
            r == key(self@) - other.instant,
    {
        (self.datetime.instant as i128) - (other.instant as i128)
    }

    /// Milliseconds between this file's time and `other`.
    pub fn abs_diff(&self, other: &Timestamp) -> (r: u64)
        ensures
            r as int == abs_diff_spec(key(self@), other.instant as int),
    {
        abs_diff_millis(self.datetime.instant, other.instant)
    }
}

} // verus!
