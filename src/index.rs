//! Index records (where one capture lies inside a remote archive file), the
//! requests that fetch them, and what becomes of a fetched segment.
use vstd::prelude::*;
use crate::json::{json_field, json_field_of};
use crate::num::{char_codes, decimal_of, parse_u64};

verus! {

/// One line of the crawl index: a capture of `url` stored in the archive file
/// `filename`, `length` bytes from `offset` on.
pub struct IndexRecord {
    pub url: String,
    pub filename: String,
    pub offset: u64,
    pub length: u64,
}

/// The record that an index line describes: its `url` and `filename`
/// members, and its `offset` and `length` members read as decimal numbers.
/// All four must be JSON strings.
pub open spec fn index_record_of(line: Seq<char>) -> Option<(Seq<char>, Seq<char>, u64, u64)> {
    match (
        json_field_of(line, "url"@),
        json_field_of(line, "filename"@),
        json_field_of(line, "offset"@),
        json_field_of(line, "length"@),
    ) {
        (Some((u, true)), Some((f, true)), Some((o, true)), Some((l, true))) => match (
            decimal_of(char_codes(o)),
            decimal_of(char_codes(l)),
        ) {
            (Some(ov), Some(lv)) => Some((u, f, ov, lv)),
            _ => None,
        },
        _ => None,
    }
}

pub open spec fn record_view(r: Option<IndexRecord>) -> Option<(Seq<char>, Seq<char>, u64, u64)> {
    match r {
        Some(rec) => Some((rec.url@, rec.filename@, rec.offset, rec.length)),
        None => None,
    }
}

/// Reads one index line; nothing when it is not a JSON object with string
/// `url` and `filename` members and `offset` and `length` members that are
/// strings of decimal digits.
pub fn parse_index_line(line: &str) -> (r: Option<IndexRecord>)
    ensures
        record_view(r) == index_record_of(line@),
{
    let url = match json_field(line, "url") {
        Some((u, true)) => u,
        _ => return None,
    };
    let filename = match json_field(line, "filename") {
        Some((f, true)) => f,
        _ => return None,
    };
    let offset_text = match json_field(line, "offset") {
        Some((o, true)) => o,
        _ => return None,
    };
    let length_text = match json_field(line, "length") {
        Some((l, true)) => l,
        _ => return None,
    };
    let offset = match parse_u64(offset_text.as_str()) {
        Some(v) => v,
        None => return None,
    };
    let length = match parse_u64(length_text.as_str()) {
        Some(v) => v,
        None => return None,
    };
    Some(IndexRecord { url, filename, offset, length })
}

/// Reads every line of an index answer. The whole batch fails, with the
/// position of the first bad line, when any line does not parse.
pub fn parse_index(lines: &Vec<String>) -> (r: Result<Vec<IndexRecord>, usize>)
    ensures
        match r {
            Ok(recs) => recs@.len() == lines@.len() && forall|i: int|
                0 <= i < lines@.len() ==> record_view(Some(#[trigger] recs@[i]))
                    == index_record_of(lines@[i]@),
            Err(k) => k < lines@.len() && index_record_of(lines@[k as int]@) is None && forall|i: int|
                0 <= i < k ==> #[trigger] index_record_of(lines@[i]@) is Some,
        },
{
    let mut recs: Vec<IndexRecord> = Vec::new();
    let mut i: usize = 0;
    while i < lines.len()
        invariant
            i <= lines@.len(),
            recs@.len() == i,
            forall|j: int| 0 <= j < i ==> record_view(Some(#[trigger] recs@[j])) == index_record_of(
                lines@[j]@,
            ),
            forall|j: int| 0 <= j < i ==> #[trigger] index_record_of(lines@[j]@) is Some,
        decreases lines@.len() - i,
    {
        match parse_index_line(lines[i].as_str()) {
            Some(rec) => {
                recs.push(rec);
            },
            None => {
                return Err(i);
            },
        }
        i = i + 1;
    }
    Ok(recs)
}

/// The first and last byte of a record's span, when it has at least one
/// byte and its last byte has a 64-bit position.
pub open spec fn byte_range_of(offset: u64, length: u64) -> Option<(u64, u64)> {
    if length > 0 && offset + length - 1 <= u64::MAX {
        Some((offset, (offset + length - 1) as u64))
    } else {
        None
    }
}

pub fn byte_range(rec: &IndexRecord) -> (r: Option<(u64, u64)>)
    ensures
        r == byte_range_of(rec.offset, rec.length),
{
    if rec.length == 0 || rec.length - 1 > u64::MAX - rec.offset {
        None
    } else {
        Some((rec.offset, rec.offset + (rec.length - 1)))
    }
}

pub open spec fn digit_char(d: nat) -> char {
    if d == 0 {
        '0'
    } else if d == 1 {
        '1'
    } else if d == 2 {
        '2'
    } else if d == 3 {
        '3'
    } else if d == 4 {
        '4'
    } else if d == 5 {
        '5'
    } else if d == 6 {
        '6'
    } else if d == 7 {
        '7'
    } else if d == 8 {
        '8'
    } else {
        '9'
    }
}

/// The decimal notation of `v`, without leading zeros.
pub open spec fn decimal_text(v: nat) -> Seq<char>
    decreases v,
{
    if v < 10 {
        seq![digit_char(v)]
    } else {
        decimal_text(v / 10).push(digit_char(v % 10))
    }
}

fn digit_str(d: u64) -> (r: &'static str)
    requires
        d < 10,
    ensures
        r@ == seq![digit_char(d as nat)],
{
    proof {
        reveal_strlit("0");
        reveal_strlit("1");
        reveal_strlit("2");
        reveal_strlit("3");
        reveal_strlit("4");
        reveal_strlit("5");
        reveal_strlit("6");
        reveal_strlit("7");
        reveal_strlit("8");
        reveal_strlit("9");
    }
    if d == 0 {
        "0"
    } else if d == 1 {
        "1"
    } else if d == 2 {
        "2"
    } else if d == 3 {
        "3"
    } else if d == 4 {
        "4"
    } else if d == 5 {
        "5"
    } else if d == 6 {
        "6"
    } else if d == 7 {
        "7"
    } else if d == 8 {
        "8"
    } else {
        "9"
    }
}

/// Writes `v` in decimal.
pub fn decimal_string(v: u64) -> (r: String)
    ensures
        r@ == decimal_text(v as nat),
    decreases v,
{
    if v < 10 {
        String::from_str(digit_str(v))
    } else {
        let mut s = decimal_string(v / 10);
        s.append(digit_str(v % 10));
        s
    }
}

/// The `Range` header value that asks for the bytes `first..=last`.
pub open spec fn range_header_text(first: u64, last: u64) -> Seq<char> {
    "bytes="@ + decimal_text(first as nat) + "-"@ + decimal_text(last as nat)
}

/// The `Range` header value for a record's span, when it has one (see
/// `byte_range_of`).
pub fn range_header(rec: &IndexRecord) -> (r: Option<String>)
    ensures
        match byte_range_of(rec.offset, rec.length) {
            Some((a, b)) => r is Some && r->0@ == range_header_text(a, b),
            None => r is None,
        },
{
    match byte_range(rec) {
        Some((first, last)) => {
            let mut s = String::from_str("bytes=");
            let a = decimal_string(first);
            let b = decimal_string(last);
            s.append(a.as_str());
            s.append("-");
            s.append(b.as_str());
            Some(s)
        },
        None => None,
    }
}

pub open spec fn index_url_text(crawl: Seq<char>) -> Seq<char> {
    "https://index.commoncrawl.org/"@ + crawl + "-index?url=*.se/*&output=json"@
}

/// The index query that lists the captures of `.se` hosts in a crawl.
pub fn build_index_url(cc_crawl: &String) -> (r: String)
    ensures
        r@ == index_url_text(cc_crawl@),
{
    let mut s = String::from_str("https://index.commoncrawl.org/");
    s.append(cc_crawl.as_str());
    s.append("-index?url=*.se/*&output=json");
    s
}

pub open spec fn output_file_text(crawl: Seq<char>) -> Seq<char> {
    "/mnt/data_ssd/"@ + crawl + ".warc"@
}

/// The archive file that collects the decompressed captures of a crawl.
pub fn build_output_file(cc_crawl: &String) -> (r: String)
    ensures
        r@ == output_file_text(cc_crawl@),
{
    let mut s = String::from_str("/mnt/data_ssd/");
    s.append(cc_crawl.as_str());
    s.append(".warc");
    s
}

pub open spec fn archive_url_text(filename: Seq<char>) -> Seq<char> {
    "https://data.commoncrawl.org/"@ + filename
}

/// Where the archive file of a record is served from.
pub fn archive_url(rec: &IndexRecord) -> (r: String)
    ensures
        r@ == archive_url_text(rec.filename@),
{
    let mut s = String::from_str("https://data.commoncrawl.org/");
    s.append(rec.filename.as_str());
    s
}

/// What the gzip stream `data` decompresses to, when it is a valid one.
pub uninterp spec fn gunzip_of(data: Seq<u8>) -> Option<Seq<u8>>;

pub open spec fn bytes_view(r: Option<Vec<u8>>) -> Option<Seq<u8>> {
    match r {
        Some(v) => Some(v@),
        None => None,
    }
}

/// Relies on `flate2::read::GzDecoder` read to its end: the decompressed
/// bytes, or nothing when the stream is corrupt.
#[verifier::external_body]
fn gunzip(data: &[u8]) -> (r: Option<Vec<u8>>)
    ensures
        bytes_view(r) == gunzip_of(data@),
{
    let mut out = Vec::new();
    match std::io::Read::read_to_end(&mut flate2::read::GzDecoder::new(data), &mut out) {
        Ok(_) => Some(out),
        Err(_) => None,
    }
}

/// What to do with the answer to a segment request.
pub enum FetchOutcome {
    /// Append these decompressed bytes to the output archive.
    Append(Vec<u8>),
    /// The server answered with this status outside 200..=299: skip.
    BadStatus(u16),
    /// The body was no valid gzip stream: skip.
    Corrupt,
}

pub open spec fn is_success(status: u16) -> bool {
    200 <= status <= 299
}

/// Decides on the answer to a segment request: a success status with a
/// gzip body gives the decompressed bytes to append.
pub fn fetch_outcome(status: u16, body: &[u8]) -> (r: FetchOutcome)
    ensures
        !is_success(status) ==> r == FetchOutcome::BadStatus(status),
        is_success(status) ==> match gunzip_of(body@) {
            Some(x) => r is Append && r->Append_0@ == x,
            None => r is Corrupt,
        },
{
    if status < 200 || status > 299 {
        return FetchOutcome::BadStatus(status);
    }
    match gunzip(body) {
        Some(bytes) => FetchOutcome::Append(bytes),
        None => FetchOutcome::Corrupt,
    }
}

} // verus!
