//! Walks a decompressed archive as a sequence of records. Each record is a
//! block of header lines ended by a blank line, then a body of the length that
//! its `Content-Length` header declares, then a four-byte terminator.
use vstd::prelude::*;
use crate::num::{all_digits, byte_codes, decimal_of, digits_value, parse_u64_bytes, unsigned_digits};

verus! {

/// The bytes that `str::trim` removes at the ends of an ASCII line.
pub open spec fn is_space(b: u8) -> bool {
    b == 9 || b == 10 || b == 11 || b == 12 || b == 13 || b == 32
}

/// The end of the line that starts at `pos`: just past its `\n`, or the end of
/// the data when no `\n` follows.
pub open spec fn line_end(d: Seq<u8>, pos: int) -> int
    decreases d.len() - pos,
{
    if pos < 0 || pos >= d.len() {
        d.len() as int
    } else if d[pos] == 10 {
        pos + 1
    } else {
        line_end(d, pos + 1)
    }
}

pub open spec fn is_blank(d: Seq<u8>, a: int, b: int) -> bool {
    forall|i: int| a <= i < b ==> is_space(#[trigger] d[i])
}

/// The end of `d[a..b]` once trailing white space is taken off.
pub open spec fn trim_end(d: Seq<u8>, a: int, b: int) -> int
    decreases b - a,
{
    if b <= a {
        a
    } else if is_space(d[b - 1]) {
        trim_end(d, a, b - 1)
    } else {
        b
    }
}

/// `Content-Length: ` in ASCII.
pub open spec fn length_prefix() -> Seq<u8> {
    seq![67u8, 111, 110, 116, 101, 110, 116, 45, 76, 101, 110, 103, 116, 104, 58, 32]
}

/// The body length in force after the header line `d[a..b]`: a
/// `Content-Length: ` line sets it to its number, or to zero when the rest of
/// the line is no number; any other line leaves `clen` as it is.
pub open spec fn header_length(d: Seq<u8>, a: int, b: int, clen: nat) -> nat {
    let t = trim_end(d, a, b);
    if t - a >= 16 && d.subrange(a, a + 16) == length_prefix() {
        match decimal_of(byte_codes(d.subrange(a + 16, t))) {
            Some(v) => v as nat,
            None => 0,
        }
    } else {
        clen
    }
}

/// The body spans `(start, end)` found from `pos` on, where `count` header
/// lines of the current record and a body length of `clen` have been read, and
/// whether the data ended cleanly (`false`: a declared body runs past the end).
/// The scan ends only at the end of the data. A blank line that no header
/// line precedes (such as the terminator of a record without a body) is
/// passed over, and a record whose length is zero or absent has no body.
pub open spec fn scan_from(d: Seq<u8>, pos: int, count: nat, clen: nat) -> (Seq<(int, int)>, bool)
    decreases d.len() - pos,
{
    if pos < 0 || pos >= d.len() {
        (Seq::empty(), true)
    } else {
        let e = line_end(d, pos);
        if e <= pos || e > d.len() {
            (Seq::empty(), true)
        } else if !is_blank(d, pos, e) {
            scan_from(d, e, count + 1, header_length(d, pos, e, clen))
        } else if count == 0 || clen == 0 {
            scan_from(d, e, 0, 0)
        } else if e + clen + 4 > d.len() {
            (Seq::empty(), false)
        } else {
            let rest = scan_from(d, e + clen + 4, 0, 0);
            (seq![(e, e + clen)] + rest.0, rest.1)
        }
    }
}

/// The bodies of all records in `d`, and whether it ended cleanly.
pub open spec fn scan(d: Seq<u8>) -> (Seq<(int, int)>, bool) {
    scan_from(d, 0, 0, 0)
}

pub open spec fn spans(v: Seq<(usize, usize)>) -> Seq<(int, int)> {
    v.map_values(|p: (usize, usize)| (p.0 as int, p.1 as int))
}

/// What a scan of an archive found: the span of each record body, in order,
/// and whether the data ended cleanly rather than inside a declared body.
pub struct ScanReport {
    pub bodies: Vec<(usize, usize)>,
    pub complete: bool,
}

proof fn lemma_line_end_bounds(d: Seq<u8>, pos: int)
    requires
        0 <= pos < d.len(),
    ensures
        pos < line_end(d, pos) <= d.len(),
    decreases d.len() - pos,
{
    if d[pos] != 10 {
        if pos + 1 < d.len() {
            lemma_line_end_bounds(d, pos + 1);
        } else {
            assert(line_end(d, pos + 1) == d.len());
        }
    }
}

fn find_line_end(d: &[u8], pos: usize) -> (r: usize)
    requires
        pos < d@.len(),
    ensures
        r as int == line_end(d@, pos as int),
        pos < r <= d@.len(),
{
    proof {
        lemma_line_end_bounds(d@, pos as int);
    }
    let mut j: usize = pos;
    while j < d.len()
        invariant
            pos <= j <= d@.len(),
            line_end(d@, pos as int) == line_end(d@, j as int),
        decreases d@.len() - j,
    {
        if d[j] == 10 {
            return j + 1;
        }
        j = j + 1;
    }
    j
}

fn blank_line(d: &[u8], a: usize, b: usize) -> (r: bool)
    requires
        a <= b <= d@.len(),
    ensures
        r == is_blank(d@, a as int, b as int),
{
    let mut i: usize = a;
    while i < b
        invariant
            a <= i <= b <= d@.len(),
            is_blank(d@, a as int, i as int),
        decreases b - i,
    {
        let c = d[i];
        if !(c == 9 || c == 10 || c == 11 || c == 12 || c == 13 || c == 32) {
            return false;
        }
        i = i + 1;
    }
    true
}

fn trimmed_end(d: &[u8], a: usize, b: usize) -> (r: usize)
    requires
        a <= b <= d@.len(),
    ensures
        r as int == trim_end(d@, a as int, b as int),
        a <= r <= b,
{
    let mut t: usize = b;
    while t > a
        invariant
            a <= t <= b <= d@.len(),
            trim_end(d@, a as int, b as int) == trim_end(d@, a as int, t as int),
        decreases t,
    {
        let c = d[t - 1];
        if !(c == 9 || c == 10 || c == 11 || c == 12 || c == 13 || c == 32) {
            return t;
        }
        t = t - 1;
    }
    t
}

fn line_length(d: &[u8], a: usize, b: usize, clen: u64) -> (r: u64)
    requires
        a <= b <= d@.len(),
    ensures
        r as nat == header_length(d@, a as int, b as int, clen as nat),
{
    let t = trimmed_end(d, a, b);
    if t - a < 16 {
        return clen;
    }
    let p: Vec<u8> = vec![67u8, 111, 110, 116, 101, 110, 116, 45, 76, 101, 110, 103, 116, 104, 58, 32];
    assert(p@ =~= length_prefix());
    let mut i: usize = 0;
    while i < 16
        invariant
            i <= 16,
            a + 16 <= t <= d@.len(),
            p@ == length_prefix(),
            forall|j: int| 0 <= j < i ==> d@[a + j] == p@[j],
        decreases 16 - i,
    {
        if d[a + i] != p[i] {
            assert(d@.subrange(a as int, a + 16)[i as int] != length_prefix()[i as int]);
            return clen;
        }
        i = i + 1;
    }
    assert(d@.subrange(a as int, a + 16) =~= length_prefix());
    match parse_u64_bytes(d, a + 16, t) {
        Some(v) => v,
        None => 0,
    }
}

/// Where a streaming scan stands between lines: the header lines read for
/// the current record and the body length they declare.
pub struct ScanState {
    pub count: u64,
    pub clen: u64,
}

/// What to do after one line.
pub enum LineStep {
    /// Read the next line, from this state.
    Next(ScanState),
    /// Read a body of this many bytes and its four-byte terminator, then go
    /// on from the start state.
    Body(u64),
}

/// The decision `scan_from` takes on the line `line` (with its line feed)
/// from the state `count`, `clen`: a header line updates the state; a blank
/// line goes back to the start state when no header precedes it or the
/// length is zero, and otherwise calls for the body (`None`).
pub open spec fn line_step_of(line: Seq<u8>, count: nat, clen: nat) -> Option<(nat, nat)> {
    if !is_blank(line, 0, line.len() as int) {
        Some((count + 1, header_length(line, 0, line.len() as int, clen)))
    } else if count == 0 || clen == 0 {
        Some((0, 0))
    } else {
        None
    }
}

/// One step of a streaming scan: the line just read (the end of the data,
/// which is not a line, ends the scan). The header count saturates, which only matters
/// for being zero or not.
pub fn scan_line(state: &ScanState, line: &[u8]) -> (r: LineStep)
    ensures
        match line_step_of(line@, state.count as nat, state.clen as nat) {
            Some((c, l)) => r is Next && r->Next_0.clen as nat == l && (r->Next_0.count == 0 <==> c
                == 0),
            None => r == LineStep::Body(state.clen),
        },
{
    let n = line.len();
    if !blank_line(line, 0, n) {
        let clen = line_length(line, 0, n, state.clen);
        let count = if state.count < u64::MAX {
            state.count + 1
        } else {
            state.count
        };
        LineStep::Next(ScanState { count, clen })
    } else if state.count == 0 || state.clen == 0 {
        LineStep::Next(ScanState { count: 0, clen: 0 })
    } else {
        LineStep::Body(state.clen)
    }
}

/// Finds the body of every record in `data`, in order. A record whose
/// `Content-Length` is zero, absent or no number has no body; the four bytes
/// after a body are its terminator and belong to no body.
pub fn scan_records(data: &[u8]) -> (r: ScanReport)
    ensures
        spans(r.bodies@) == scan(data@).0,
        r.complete == scan(data@).1,
{
    let n = data.len();
    let mut bodies: Vec<(usize, usize)> = Vec::new();
    let mut pos: usize = 0;
    let mut count: usize = 0;
    let mut clen: u64 = 0;
    while pos < n
        invariant
            n == data@.len(),
            pos <= n,
            scan(data@) == (spans(bodies@) + scan_from(data@, pos as int, count as nat, clen as nat).0,
                scan_from(data@, pos as int, count as nat, clen as nat).1),
            count <= pos,
        decreases n - pos,
    {
        let ghost d = data@;
        let ghost before = spans(bodies@);
        let e = find_line_end(data, pos);
        if !blank_line(data, pos, e) {
            clen = line_length(data, pos, e, clen);
            count = count + 1;
            pos = e;
        } else if count == 0 || clen == 0 {
            count = 0;
            clen = 0;
            pos = e;
        } else if clen > (n - e) as u64 || n - e - (clen as usize) < 4 {
            assert(spans(bodies@) + Seq::<(int, int)>::empty() =~= spans(bodies@));
            return ScanReport { bodies, complete: false };
        } else {
            let start = e;
            let end = e + clen as usize;
            bodies.push((start, end));
            let ghost rest = scan_from(d, end + 4, 0, 0);
            assert(spans(bodies@) =~= before.push((start as int, end as int)));
            assert(before + (seq![(start as int, end as int)] + rest.0) =~= spans(bodies@) + rest.0);
            pos = end + 4;
            count = 0;
            clen = 0;
        }
    }
    assert(spans(bodies@) + Seq::<(int, int)>::empty() =~= spans(bodies@));
    ScanReport { bodies, complete: true }
}

pub open spec fn crlf() -> Seq<u8> {
    seq![13u8, 10]
}

/// Header lines, each followed by CR LF.
pub open spec fn header_lines(hs: Seq<Seq<u8>>) -> Seq<u8>
    decreases hs.len(),
{
    if hs.len() == 0 {
        Seq::empty()
    } else {
        hs[0] + crlf() + header_lines(hs.skip(1))
    }
}

/// The decimal digits of `n` in ASCII.
pub open spec fn decimal_bytes(n: nat) -> Seq<u8>
    decreases n,
{
    if n < 10 {
        seq![(48 + n) as u8]
    } else {
        decimal_bytes(n / 10).push((48 + n % 10) as u8)
    }
}

/// The `Content-Length` line for `n` and the blank line after it.
pub open spec fn length_lines(n: nat) -> Seq<u8> {
    length_prefix() + decimal_bytes(n) + crlf() + crlf()
}

/// The `Content-Length` line for `n`.
pub open spec fn length_line(n: nat) -> Seq<u8> {
    length_prefix() + decimal_bytes(n) + crlf()
}

/// A record as an archive writer lays it out: header lines `hs`, a
/// `Content-Length` line that gives the body's length, more header lines
/// `ts`, a blank line, the body and a CR LF CR LF terminator.
pub open spec fn record_bytes(hs: Seq<Seq<u8>>, ts: Seq<Seq<u8>>, body: Seq<u8>) -> Seq<u8> {
    header_lines(hs) + length_line(body.len()) + header_lines(ts) + crlf() + body + crlf() + crlf()
}

/// A header line holds no line feed and is not blank.
pub open spec fn well_formed_header(h: Seq<u8>) -> bool {
    (forall|i: int| 0 <= i < h.len() ==> #[trigger] h[i] != 10) && exists|i: int|
        0 <= i < h.len() && !is_space(#[trigger] h[i])
}

/// Well-formed header lines, none after the length line another
/// `Content-Length` line, and a body of at least one byte.
pub open spec fn well_formed_record(hs: Seq<Seq<u8>>, ts: Seq<Seq<u8>>, body: Seq<u8>) -> bool {
    (forall|k: int| 0 <= k < hs.len() ==> well_formed_header(#[trigger] hs[k])) && (forall|k: int|
        0 <= k < ts.len() ==> other_header(#[trigger] ts[k])) && 0 < body.len() <= u64::MAX
}

pub open spec fn archive_bytes(rs: Seq<(Seq<Seq<u8>>, Seq<Seq<u8>>, Seq<u8>)>) -> Seq<u8>
    decreases rs.len(),
{
    if rs.len() == 0 {
        Seq::empty()
    } else {
        record_bytes(rs[0].0, rs[0].1, rs[0].2) + archive_bytes(rs.skip(1))
    }
}

pub open spec fn head_len(hs: Seq<Seq<u8>>, ts: Seq<Seq<u8>>, body: Seq<u8>) -> int {
    (header_lines(hs).len() + 16 + decimal_bytes(body.len()).len() + 2 + header_lines(ts).len() + 2) as int
}

/// Where the bodies of the records `rs` lie when they are laid out from `pos` on.
pub open spec fn body_spans(rs: Seq<(Seq<Seq<u8>>, Seq<Seq<u8>>, Seq<u8>)>, pos: int) -> Seq<(int, int)>
    decreases rs.len(),
{
    if rs.len() == 0 {
        Seq::empty()
    } else {
        let b = pos + head_len(rs[0].0, rs[0].1, rs[0].2);
        seq![(b, b + rs[0].2.len())] + body_spans(rs.skip(1), b + rs[0].2.len() + 4)
    }
}

/// The body length that the header lines `hs`, laid out from `pos`, leave in force.
pub open spec fn headers_clen(d: Seq<u8>, pos: int, hs: Seq<Seq<u8>>, clen: nat) -> nat
    decreases hs.len(),
{
    if hs.len() == 0 {
        clen
    } else {
        headers_clen(
            d,
            pos + hs[0].len() + 2,
            hs.skip(1),
            header_length(d, pos, pos + hs[0].len() + 2, clen),
        )
    }
}

proof fn lemma_line_end_from(d: Seq<u8>, pos: int, h: Seq<u8>, i: int)
    requires
        0 <= pos,
        pos + h.len() + 2 <= d.len(),
        0 <= i <= h.len() + 1,
        d.subrange(pos, pos + h.len() + 2) == h + crlf(),
        forall|j: int| 0 <= j < h.len() ==> #[trigger] h[j] != 10,
    ensures
        line_end(d, pos + i) == pos + h.len() + 2,
    decreases h.len() + 1 - i,
{
    assert(d[pos + i] == (h + crlf())[i]);
    if i < h.len() + 1 {
        lemma_line_end_from(d, pos, h, i + 1);
    }
}

proof fn lemma_decimal_bytes(n: nat)
    ensures
        decimal_bytes(n).len() > 0,
        all_digits(byte_codes(decimal_bytes(n))),
        digits_value(byte_codes(decimal_bytes(n))) == n,
    decreases n,
{
    if n >= 10 {
        lemma_decimal_bytes(n / 10);
        let x = decimal_bytes(n / 10);
        let b = (48 + n % 10) as u8;
        let c = byte_codes(x.push(b));
        assert(decimal_bytes(n) == x.push(b));
        assert(c =~= byte_codes(x).push(b as u32));
        assert(c.drop_last() =~= byte_codes(x));
        assert(c.last() == b as u32);
        assert(b as u32 as int - 48 == n % 10);
        assert((n / 10) * 10 + n % 10 == n);
        assert(digits_value(c) == digits_value(byte_codes(x)) * 10 + (c.last() as int - 48));
        assert(all_digits(c)) by {
            assert forall|i: int| 0 <= i < c.len() implies crate::num::is_digit_code(
                #[trigger] c[i],
            ) by {
                if i < c.len() - 1 {
                    assert(c[i] == byte_codes(x)[i]);
                }
            }
        }
    } else {
        let c = byte_codes(decimal_bytes(n));
        assert(c.drop_last() =~= Seq::<u32>::empty());
        assert(c[0] == (48 + n) as u32);
        assert(c.last() == c[0]);
        assert(digits_value(Seq::<u32>::empty()) == 0);
        assert(digits_value(c) == digits_value(c.drop_last()) * 10 + (c.last() as int - 48));
    }
}

proof fn lemma_decimal_of_bytes(n: nat)
    requires
        n <= u64::MAX,
    ensures
        decimal_of(byte_codes(decimal_bytes(n))) == Some(n as u64),
{
    lemma_decimal_bytes(n);
    let c = byte_codes(decimal_bytes(n));
    assert(all_digits(c));
    assert(c[0] != 43);
    assert(unsigned_digits(c) == c);
}

proof fn lemma_scan_headers(d: Seq<u8>, pos: int, hs: Seq<Seq<u8>>, count: nat, clen: nat)
    requires
        0 <= pos,
        pos + header_lines(hs).len() < d.len(),
        d.subrange(pos, pos + header_lines(hs).len()) == header_lines(hs),
        forall|k: int| 0 <= k < hs.len() ==> well_formed_header(#[trigger] hs[k]),
    ensures
        scan_from(d, pos, count, clen) == scan_from(
            d,
            pos + header_lines(hs).len(),
            count + hs.len(),
            headers_clen(d, pos, hs, clen),
        ),
    decreases hs.len(),
{
    if hs.len() > 0 {
        let h = hs[0];
        let rest = hs.skip(1);
        let e = pos + h.len() + 2;
        assert(header_lines(hs) == h + crlf() + header_lines(rest));
        assert(well_formed_header(h));
        assert(d.subrange(pos, e) =~= h + crlf()) by {
            assert forall|j: int| 0 <= j < h.len() + 2 implies d.subrange(pos, e)[j] == (h
                + crlf())[j] by {
                assert(d.subrange(pos, e)[j] == d.subrange(pos, pos + header_lines(hs).len())[j]);
            }
        }
        lemma_line_end_from(d, pos, h, 0);
        let i = choose|i: int| 0 <= i < h.len() && !is_space(#[trigger] h[i]);
        assert(d[pos + i] == d.subrange(pos, e)[i]);
        assert(!is_blank(d, pos, e));
        assert(d.subrange(e, e + header_lines(rest).len()) =~= header_lines(rest)) by {
            assert forall|j: int| 0 <= j < header_lines(rest).len() implies d.subrange(
                e,
                e + header_lines(rest).len(),
            )[j] == header_lines(rest)[j] by {
                assert(d.subrange(e, e + header_lines(rest).len())[j] == d.subrange(
                    pos,
                    pos + header_lines(hs).len(),
                )[h.len() + 2 + j]);
            }
        }
        assert forall|k: int| 0 <= k < rest.len() implies well_formed_header(#[trigger] rest[k]) by {
            assert(rest[k] == hs[k + 1]);
        }
        lemma_scan_headers(d, e, rest, count + 1, header_length(d, pos, e, clen));
    }
}

/// The `Content-Length` line sets the body length.
#[verifier::rlimit(40)]
proof fn lemma_scan_len_line(d: Seq<u8>, q: int, count: nat, clen: nat, n: nat)
    requires
        0 <= q,
        n <= u64::MAX,
        q + length_line(n).len() <= d.len(),
        d.subrange(q, q + length_line(n).len()) == length_line(n),
    ensures
        scan_from(d, q, count, clen) == scan_from(d, q + length_line(n).len(), count + 1, n),
{
    let digits = decimal_bytes(n);
    lemma_decimal_bytes(n);
    let lline = length_prefix() + digits;
    let e = q + lline.len() + 2;
    let whole = length_line(n);
    assert(whole =~= lline + crlf());
    assert forall|j: int| 0 <= j < whole.len() implies d[q + j] == #[trigger] whole[j] by {
        assert(d[q + j] == d.subrange(q, q + whole.len())[j]);
    }
    assert(d.subrange(q, e) =~= lline + crlf());
    assert forall|j: int| 0 <= j < lline.len() implies #[trigger] lline[j] != 10 by {
        if j >= 16 {
            assert(lline[j] == digits[j - 16]);
            assert(byte_codes(digits)[j - 16] == digits[j - 16] as u32);
        }
    }
    lemma_line_end_from(d, q, lline, 0);
    assert(d[q] == whole[0]);
    assert(!is_blank(d, q, e));
    assert(d[e - 1] == whole[e - 1 - q]);
    assert(d[e - 2] == whole[e - 2 - q]);
    assert(d[e - 3] == whole[e - 3 - q]);
    assert(d[e - 3] == digits[digits.len() - 1]);
    assert(byte_codes(digits)[digits.len() - 1] == digits[digits.len() - 1] as u32);
    assert(crate::num::is_digit_code(byte_codes(digits)[digits.len() - 1]));
    assert(!is_space(d[e - 3]));
    assert(trim_end(d, q, e - 2) == e - 2);
    assert(trim_end(d, q, e - 1) == e - 2);
    assert(trim_end(d, q, e) == e - 2);
    assert(d.subrange(q, q + 16) =~= length_prefix());
    assert forall|j: int| 0 <= j < digits.len() implies d.subrange(q + 16, e - 2)[j] == digits[j] by {
        assert(d[q + 16 + j] == whole[16 + j]);
    }
    assert(d.subrange(q + 16, e - 2) =~= digits);
    lemma_decimal_of_bytes(n);
    assert(header_length(d, q, e, clen) == n);
    assert(line_end(d, q) == e);
}

/// The blank line after headers that declare `n > 0` bytes, then the body.
proof fn lemma_scan_blank_body(d: Seq<u8>, e: int, count: nat, n: nat)
    requires
        0 <= e,
        count > 0,
        n > 0,
        e + 2 + n + 4 <= d.len(),
        d[e] == 13,
        d[e + 1] == 10,
    ensures
        ({
            let rest = scan_from(d, e + 2 + n + 4, 0, 0);
            scan_from(d, e, count, n) == (seq![(e + 2, e + 2 + n)] + rest.0, rest.1)
        }),
{
    assert(d.subrange(e, e + 2) =~= Seq::<u8>::empty() + crlf());
    lemma_line_end_from(d, e, Seq::<u8>::empty(), 0);
    assert(line_end(d, e) == e + 2);
    assert(is_blank(d, e, e + 2));
}

#[verifier::spinoff_prover]
#[verifier::rlimit(40)]
proof fn lemma_scan_record(d: Seq<u8>, pos: int, hs: Seq<Seq<u8>>, ts: Seq<Seq<u8>>, body: Seq<u8>)
    requires
        0 <= pos,
        pos + record_bytes(hs, ts, body).len() <= d.len(),
        d.subrange(pos, pos + record_bytes(hs, ts, body).len()) == record_bytes(hs, ts, body),
        well_formed_record(hs, ts, body),
    ensures
        ({
            let b = pos + head_len(hs, ts, body);
            let next = pos + record_bytes(hs, ts, body).len();
            let rest = scan_from(d, next, 0, 0);
            &&& next == b + body.len() + 4
            &&& scan_from(d, pos, 0, 0) == (seq![(b, b + body.len())] + rest.0, rest.1)
        }),
{
    let n = body.len();
    let rec = record_bytes(hs, ts, body);
    let hl = header_lines(hs);
    let ll = length_line(n);
    let tl = header_lines(ts);
    let q = pos + hl.len();
    let q2 = q + ll.len();
    let e = q2 + tl.len();
    assert forall|j: int| 0 <= j < rec.len() implies d[pos + j] == #[trigger] rec[j] by {
        assert(d[pos + j] == d.subrange(pos, pos + rec.len())[j]);
    }
    assert(d.subrange(pos, q) =~= hl) by {
        assert forall|j: int| 0 <= j < hl.len() implies d.subrange(pos, q)[j] == hl[j] by {
            assert(d[pos + j] == rec[j]);
        }
    }
    assert(d.subrange(q, q2) =~= ll) by {
        assert forall|j: int| 0 <= j < ll.len() implies d.subrange(q, q2)[j] == ll[j] by {
            assert(d[pos + hl.len() + j] == rec[hl.len() + j]);
        }
    }
    assert(d.subrange(q2, e) =~= tl) by {
        assert forall|j: int| 0 <= j < tl.len() implies d.subrange(q2, e)[j] == tl[j] by {
            assert(d[pos + hl.len() + ll.len() + j] == rec[hl.len() + ll.len() + j]);
        }
    }
    assert(d[e] == rec[e - pos]);
    assert(d[e + 1] == rec[e + 1 - pos]);
    assert forall|k: int| 0 <= k < ts.len() implies well_formed_header(#[trigger] ts[k]) by {
        assert(other_header(ts[k]));
    }
    lemma_scan_headers(d, pos, hs, 0, 0);
    lemma_scan_len_line(d, q, hs.len(), headers_clen(d, pos, hs, 0), n);
    lemma_scan_headers(d, q2, ts, hs.len() + 1, n);
    lemma_other_headers_clen(d, q2, ts, n);
    lemma_scan_blank_body(d, e, hs.len() + 1 + ts.len(), n);
}

#[verifier::rlimit(40)]
proof fn lemma_scan_archive(d: Seq<u8>, pos: int, rs: Seq<(Seq<Seq<u8>>, Seq<Seq<u8>>, Seq<u8>)>)
    requires
        0 <= pos,
        pos + archive_bytes(rs).len() == d.len(),
        d.subrange(pos, d.len() as int) == archive_bytes(rs),
        forall|k: int| 0 <= k < rs.len() ==> well_formed_record(#[trigger] rs[k].0, rs[k].1, rs[k].2),
    ensures
        scan_from(d, pos, 0, 0) == (body_spans(rs, pos), true),
        body_spans(rs, pos).len() == rs.len(),
        forall|k: int| 0 <= k < rs.len() ==> d.subrange(
            (#[trigger] body_spans(rs, pos)[k]).0,
            body_spans(rs, pos)[k].1,
        ) == rs[k].2,
    decreases rs.len(),
{
    if rs.len() > 0 {
        let hs = rs[0].0;
        let ts = rs[0].1;
        let body = rs[0].2;
        let rest = rs.skip(1);
        assert(well_formed_record(hs, ts, body));
        let rec = record_bytes(hs, ts, body);
        assert(archive_bytes(rs) == rec + archive_bytes(rest));
        assert(d.subrange(pos, pos + rec.len()) =~= rec) by {
            assert forall|j: int| 0 <= j < rec.len() implies d.subrange(pos, pos + rec.len())[j]
                == rec[j] by {
                assert(d.subrange(pos, pos + rec.len())[j] == d.subrange(pos, d.len() as int)[j]);
            }
        }
        lemma_scan_record(d, pos, hs, ts, body);
        let next = pos + rec.len();
        assert(d.subrange(next, d.len() as int) =~= archive_bytes(rest)) by {
            assert forall|j: int| 0 <= j < archive_bytes(rest).len() implies d.subrange(
                next,
                d.len() as int,
            )[j] == archive_bytes(rest)[j] by {
                assert(d.subrange(next, d.len() as int)[j] == d.subrange(pos, d.len() as int)[rec.len()
                    + j]);
            }
        }
        assert forall|k: int| 0 <= k < rest.len() implies well_formed_record(
            #[trigger] rest[k].0,
            rest[k].1,
            rest[k].2,
        ) by {
            assert(rest[k] == rs[k + 1]);
        }
        lemma_scan_archive(d, next, rest);
        let b = pos + head_len(hs, ts, body);
        assert(d.subrange(b, b + body.len()) =~= body) by {
            assert forall|j: int| 0 <= j < body.len() implies d.subrange(b, b + body.len())[j]
                == body[j] by {
                assert(d.subrange(b, b + body.len())[j] == d.subrange(pos, pos + rec.len())[b - pos
                    + j]);
                assert(rec[b - pos + j] == body[j]);
            }
        }
        assert forall|k: int| 0 <= k < rs.len() implies d.subrange(
            (#[trigger] body_spans(rs, pos)[k]).0,
            body_spans(rs, pos)[k].1,
        ) == rs[k].2 by {
            if k > 0 {
                assert(body_spans(rs, pos)[k] == body_spans(rest, next)[k - 1]);
                assert(rest[k - 1] == rs[k]);
            }
        }
    } else {
        assert(d.len() == pos);
    }
}

proof fn lemma_body_spans_shape(rs: Seq<(Seq<Seq<u8>>, Seq<Seq<u8>>, Seq<u8>)>, pos: int)
    ensures
        body_spans(rs, pos).len() == rs.len(),
        rs.len() > 0 ==> body_spans(rs, pos)[rs.len() - 1].1 + 4 == pos + archive_bytes(rs).len(),
    decreases rs.len(),
{
    if rs.len() > 0 {
        let rest = rs.skip(1);
        let next = pos + head_len(rs[0].0, rs[0].1, rs[0].2) + rs[0].2.len() + 4;
        lemma_body_spans_shape(rest, next);
        let rec = record_bytes(rs[0].0, rs[0].1, rs[0].2);
        assert(rec.len() == head_len(rs[0].0, rs[0].1, rs[0].2) + rs[0].2.len() + 4);
        assert(archive_bytes(rs) == rec + archive_bytes(rest));
        if rs.len() == 1 {
            assert(archive_bytes(rest).len() == 0);
        } else {
            assert(body_spans(rs, pos)[rs.len() - 1] == body_spans(rest, next)[rest.len() - 1]);
        }
    }
}

/// Scanning an archive made of well-formed records finds exactly one body per
/// record, in order, each span holding exactly that record's body, the last
/// ending just before the final terminator, and reaches the end of the data
/// cleanly.
pub proof fn lemma_scan_well_formed(rs: Seq<(Seq<Seq<u8>>, Seq<Seq<u8>>, Seq<u8>)>)
    requires
        forall|k: int| 0 <= k < rs.len() ==> well_formed_record(#[trigger] rs[k].0, rs[k].1, rs[k].2),
    ensures
        scan(archive_bytes(rs)).0.len() == rs.len(),
        scan(archive_bytes(rs)).1,
        rs.len() > 0 ==> scan(archive_bytes(rs)).0[rs.len() - 1].1 + 4 == archive_bytes(rs).len(),
        forall|k: int| 0 <= k < rs.len() ==> archive_bytes(rs).subrange(
            (#[trigger] scan(archive_bytes(rs)).0[k]).0,
            scan(archive_bytes(rs)).0[k].1,
        ) == rs[k].2,
{
    let d = archive_bytes(rs);
    assert(d.subrange(0, d.len() as int) =~= d);
    lemma_scan_archive(d, 0, rs);
    lemma_body_spans_shape(rs, 0);
}

/// A record whose last length line declares zero: header lines,
/// `Content-Length: 0`, the blank line and the four-byte terminator.
pub open spec fn empty_record_bytes(hs: Seq<Seq<u8>>) -> Seq<u8> {
    header_lines(hs) + length_lines(0) + crlf() + crlf()
}

/// A record without a `Content-Length` line: header lines, the blank line and
/// the terminator.
pub open spec fn bare_record_bytes(hs: Seq<Seq<u8>>) -> Seq<u8> {
    header_lines(hs) + crlf() + crlf() + crlf()
}

/// A blank line between records is passed over.
proof fn lemma_skip_blank(d: Seq<u8>, p: int, clen: nat)
    requires
        0 <= p,
        p + 2 <= d.len(),
        d[p] == 13,
        d[p + 1] == 10,
    ensures
        scan_from(d, p, 0, clen) == scan_from(d, p + 2, 0, 0),
{
    assert(d.subrange(p, p + 2) =~= Seq::<u8>::empty() + crlf());
    lemma_line_end_from(d, p, Seq::<u8>::empty(), 0);
    assert(line_end(d, p) == p + 2);
    assert(is_blank(d, p, p + 2));
}

proof fn lemma_scan_zero_line(d: Seq<u8>, q: int, count: nat, clen: nat)
    requires
        0 <= q,
        q + 21 <= d.len(),
        d.subrange(q, q + 21) == length_lines(0),
    ensures
        scan_from(d, q, count, clen) == scan_from(d, q + 21, 0, 0),
{
    let digits = decimal_bytes(0);
    lemma_decimal_bytes(0);
    let lline = length_prefix() + digits;
    let e = q + 19;
    let whole = lline + crlf() + crlf();
    assert forall|j: int| 0 <= j < whole.len() implies d[q + j] == #[trigger] whole[j] by {
        assert(d[q + j] == d.subrange(q, q + 21)[j]);
    }
    assert(d.subrange(q, e) =~= lline + crlf()) by {
        assert forall|j: int| 0 <= j < 19 implies d.subrange(q, e)[j] == (lline + crlf())[j] by {
            assert(whole[j] == (lline + crlf())[j]);
        }
    }
    assert forall|j: int| 0 <= j < lline.len() implies #[trigger] lline[j] != 10 by {
        if j >= 16 {
            assert(lline[j] == digits[j - 16]);
        }
    }
    lemma_line_end_from(d, q, lline, 0);
    assert(d[q] == whole[0]);
    assert(!is_blank(d, q, e));
    assert(d[e - 1] == whole[18]);
    assert(d[e - 2] == whole[17]);
    assert(d[e - 3] == whole[16]);
    assert(trim_end(d, q, e - 2) == e - 2);
    assert(trim_end(d, q, e - 1) == e - 2);
    assert(trim_end(d, q, e) == e - 2);
    assert(d.subrange(q, q + 16) =~= length_prefix());
    assert(d.subrange(q + 16, e - 2) =~= digits) by {
        assert(d[q + 16] == whole[16]);
    }
    lemma_decimal_of_bytes(0);
    assert(header_length(d, q, e, clen) == 0);
    assert(d[e] == whole[19]);
    assert(d[e + 1] == whole[20]);
    assert(d.subrange(e, e + 2) =~= Seq::<u8>::empty() + crlf());
    lemma_line_end_from(d, e, Seq::<u8>::empty(), 0);
    assert(is_blank(d, e, e + 2));
    assert(line_end(d, q) == e);
    assert(line_end(d, e) == e + 2);
    assert(scan_from(d, q, count, clen) == scan_from(d, e, count + 1, 0));
}

proof fn lemma_scan_archive_prefix(d: Seq<u8>, pos: int, rs: Seq<(Seq<Seq<u8>>, Seq<Seq<u8>>, Seq<u8>)>)
    requires
        0 <= pos,
        pos + archive_bytes(rs).len() <= d.len(),
        d.subrange(pos, pos + archive_bytes(rs).len()) == archive_bytes(rs),
        forall|k: int| 0 <= k < rs.len() ==> well_formed_record(#[trigger] rs[k].0, rs[k].1, rs[k].2),
    ensures
        ({
            let x = scan_from(d, pos + archive_bytes(rs).len(), 0, 0);
            scan_from(d, pos, 0, 0) == (body_spans(rs, pos) + x.0, x.1)
        }),
    decreases rs.len(),
{
    let x = scan_from(d, pos + archive_bytes(rs).len(), 0, 0);
    if rs.len() > 0 {
        let hs = rs[0].0;
        let ts = rs[0].1;
        let body = rs[0].2;
        let rest = rs.skip(1);
        assert(well_formed_record(hs, ts, body));
        let rec = record_bytes(hs, ts, body);
        let all = archive_bytes(rs);
        assert(all == rec + archive_bytes(rest));
        assert(d.subrange(pos, pos + rec.len()) =~= rec) by {
            assert forall|j: int| 0 <= j < rec.len() implies d.subrange(pos, pos + rec.len())[j]
                == rec[j] by {
                assert(d.subrange(pos, pos + rec.len())[j] == d.subrange(pos, pos + all.len())[j]);
            }
        }
        lemma_scan_record(d, pos, hs, ts, body);
        let next = pos + rec.len();
        let ar = archive_bytes(rest);
        assert(d.subrange(next, next + ar.len()) =~= ar) by {
            assert forall|j: int| 0 <= j < ar.len() implies d.subrange(next, next + ar.len())[j]
                == ar[j] by {
                assert(d.subrange(next, next + ar.len())[j] == d.subrange(pos, pos + all.len())[rec.len()
                    + j]);
            }
        }
        assert forall|k: int| 0 <= k < rest.len() implies well_formed_record(
            #[trigger] rest[k].0,
            rest[k].1,
            rest[k].2,
        ) by {
            assert(rest[k] == rs[k + 1]);
        }
        lemma_scan_archive_prefix(d, next, rest);
        let b = pos + head_len(hs, ts, body);
        assert(body_spans(rs, pos) == seq![(b, b + body.len())] + body_spans(rest, next));
        assert(seq![(b, b + body.len())] + (body_spans(rest, next) + x.0) =~= body_spans(rs, pos)
            + x.0);
    } else {
        assert(body_spans(rs, pos) + x.0 =~= x.0);
    }
}

/// The headers of a record whose body runs past the end of the data.
pub open spec fn record_head(hs: Seq<Seq<u8>>, ts: Seq<Seq<u8>>, n: nat) -> Seq<u8> {
    header_lines(hs) + length_line(n) + header_lines(ts) + crlf()
}

#[verifier::spinoff_prover]
#[verifier::rlimit(40)]
proof fn lemma_scan_truncated_record(
    d: Seq<u8>,
    pos: int,
    hs: Seq<Seq<u8>>,
    ts: Seq<Seq<u8>>,
    n: nat,
)
    requires
        0 <= pos,
        pos + record_head(hs, ts, n).len() <= d.len() < pos + record_head(hs, ts, n).len() + n + 4,
        d.subrange(pos, pos + record_head(hs, ts, n).len()) == record_head(hs, ts, n),
        forall|k: int| 0 <= k < hs.len() ==> well_formed_header(#[trigger] hs[k]),
        forall|k: int| 0 <= k < ts.len() ==> other_header(#[trigger] ts[k]),
        0 < n <= u64::MAX,
    ensures
        scan_from(d, pos, 0, 0) == (Seq::<(int, int)>::empty(), false),
{
    let h = record_head(hs, ts, n);
    let hl = header_lines(hs);
    let ll = length_line(n);
    let tl = header_lines(ts);
    let q = pos + hl.len();
    let q2 = q + ll.len();
    let e = q2 + tl.len();
    assert forall|j: int| 0 <= j < h.len() implies d[pos + j] == #[trigger] h[j] by {
        assert(d[pos + j] == d.subrange(pos, pos + h.len())[j]);
    }
    assert(d.subrange(pos, q) =~= hl) by {
        assert forall|j: int| 0 <= j < hl.len() implies d.subrange(pos, q)[j] == hl[j] by {
            assert(d[pos + j] == h[j]);
        }
    }
    assert(d.subrange(q, q2) =~= ll) by {
        assert forall|j: int| 0 <= j < ll.len() implies d.subrange(q, q2)[j] == ll[j] by {
            assert(d[pos + hl.len() + j] == h[hl.len() + j]);
        }
    }
    assert(d.subrange(q2, e) =~= tl) by {
        assert forall|j: int| 0 <= j < tl.len() implies d.subrange(q2, e)[j] == tl[j] by {
            assert(d[pos + hl.len() + ll.len() + j] == h[hl.len() + ll.len() + j]);
        }
    }
    assert(d[e] == h[e - pos]);
    assert(d[e + 1] == h[e + 1 - pos]);
    assert forall|k: int| 0 <= k < ts.len() implies well_formed_header(#[trigger] ts[k]) by {
        assert(other_header(ts[k]));
    }
    lemma_scan_headers(d, pos, hs, 0, 0);
    lemma_scan_len_line(d, q, hs.len(), headers_clen(d, pos, hs, 0), n);
    lemma_scan_headers(d, q2, ts, hs.len() + 1, n);
    lemma_other_headers_clen(d, q2, ts, n);
    assert(d.subrange(e, e + 2) =~= Seq::<u8>::empty() + crlf());
    lemma_line_end_from(d, e, Seq::<u8>::empty(), 0);
    assert(line_end(d, e) == e + 2);
    assert(is_blank(d, e, e + 2));
    assert(e + 2 == pos + h.len());
}

/// Scanning an archive of well-formed records followed by a record whose
/// declared body (with its terminator) runs past the end of the data finds
/// the bodies of the well-formed records, in order, and reports that the data
/// did not end cleanly.
pub proof fn lemma_scan_truncated_tail(
    rs: Seq<(Seq<Seq<u8>>, Seq<Seq<u8>>, Seq<u8>)>,
    hs: Seq<Seq<u8>>,
    ts: Seq<Seq<u8>>,
    n: nat,
    partial: Seq<u8>,
)
    requires
        forall|k: int| 0 <= k < rs.len() ==> well_formed_record(#[trigger] rs[k].0, rs[k].1, rs[k].2),
        forall|k: int| 0 <= k < hs.len() ==> well_formed_header(#[trigger] hs[k]),
        forall|k: int| 0 <= k < ts.len() ==> other_header(#[trigger] ts[k]),
        0 < n <= u64::MAX,
        partial.len() < n + 4,
    ensures
        scan(archive_bytes(rs) + record_head(hs, ts, n) + partial) == (body_spans(rs, 0), false),
{
    let a = archive_bytes(rs);
    let h = record_head(hs, ts, n);
    let d = a + h + partial;
    assert(d.subrange(0, a.len() as int) =~= a);
    lemma_scan_archive_prefix(d, 0, rs);
    assert(d.subrange(a.len() as int, (a.len() + h.len()) as int) =~= h);
    lemma_scan_truncated_record(d, a.len() as int, hs, ts, n);
    assert(body_spans(rs, 0) + Seq::<(int, int)>::empty() =~= body_spans(rs, 0));
}

/// Spans moved `k` bytes further on.
pub open spec fn shift_spans(v: Seq<(int, int)>, k: int) -> Seq<(int, int)> {
    v.map_values(|x: (int, int)| (x.0 + k, x.1 + k))
}

proof fn lemma_line_end_shift(p: Seq<u8>, r: Seq<u8>, i: int)
    requires
        0 <= i <= r.len(),
    ensures
        line_end(p + r, p.len() + i) == p.len() + line_end(r, i),
    decreases r.len() - i,
{
    if i < r.len() {
        assert((p + r)[p.len() + i] == r[i]);
        if r[i] != 10 {
            lemma_line_end_shift(p, r, i + 1);
        }
    }
}

proof fn lemma_trim_end_shift(p: Seq<u8>, r: Seq<u8>, a: int, b: int)
    requires
        0 <= a <= b <= r.len(),
    ensures
        trim_end(p + r, p.len() + a, p.len() + b) == p.len() + trim_end(r, a, b),
    decreases b - a,
{
    if b > a {
        assert((p + r)[p.len() + b - 1] == r[b - 1]);
        if is_space(r[b - 1]) {
            lemma_trim_end_shift(p, r, a, b - 1);
        }
    }
}

proof fn lemma_header_length_shift(p: Seq<u8>, r: Seq<u8>, a: int, b: int, clen: nat)
    requires
        0 <= a <= b <= r.len(),
    ensures
        header_length(p + r, p.len() + a, p.len() + b, clen) == header_length(r, a, b, clen),
{
    let d = p + r;
    let k = p.len() as int;
    lemma_trim_end_shift(p, r, a, b);
    lemma_trim_end_le(r, a, b);
    let t = trim_end(r, a, b);
    if t - a >= 16 {
        assert(d.subrange(k + a, k + a + 16) =~= r.subrange(a, a + 16));
        assert(d.subrange(k + a + 16, k + t) =~= r.subrange(a + 16, t));
    }
}

/// Scanning data placed after a prefix finds the same bodies, moved by the
/// prefix's length, and ends the same way.
proof fn lemma_scan_shift(p: Seq<u8>, r: Seq<u8>, i: int, count: nat, clen: nat)
    requires
        0 <= i <= r.len(),
    ensures
        scan_from(p + r, p.len() + i, count, clen) == (
            shift_spans(scan_from(r, i, count, clen).0, p.len() as int),
            scan_from(r, i, count, clen).1,
        ),
    decreases r.len() - i,
{
    let d = p + r;
    let k = p.len() as int;
    if i < r.len() {
        lemma_line_end_bounds(r, i);
        lemma_line_end_shift(p, r, i);
        let e = line_end(r, i);
        assert(is_blank(d, k + i, k + e) == is_blank(r, i, e)) by {
            if is_blank(r, i, e) {
                assert forall|j: int| k + i <= j < k + e implies is_space(#[trigger] d[j]) by {
                    assert(d[j] == r[j - k]);
                }
            }
            if is_blank(d, k + i, k + e) {
                assert forall|j: int| i <= j < e implies is_space(#[trigger] r[j]) by {
                    assert(d[k + j] == r[j]);
                }
            }
        }
        if !is_blank(r, i, e) {
            lemma_header_length_shift(p, r, i, e, clen);
            lemma_scan_shift(p, r, e, count + 1, header_length(r, i, e, clen));
        } else if count == 0 || clen == 0 {
            lemma_scan_shift(p, r, e, 0, 0);
        } else if e + clen + 4 > r.len() {
            assert(shift_spans(Seq::<(int, int)>::empty(), k) =~= Seq::<(int, int)>::empty());
        } else {
            lemma_scan_shift(p, r, e + clen + 4, 0, 0);
            let rest = scan_from(r, e + clen + 4, 0, 0);
            assert(shift_spans(seq![(e, e + clen)] + rest.0, k) =~= seq![(k + e, k + e + clen)]
                + shift_spans(rest.0, k));
        }
    } else {
        assert(shift_spans(Seq::<(int, int)>::empty(), k) =~= Seq::<(int, int)>::empty());
    }
}

/// A record whose `Content-Length` is zero yields no body: the scan of an
/// archive that starts with one, terminator included, finds exactly the
/// bodies of the rest, at their places after it, and ends the same way.
pub proof fn lemma_zero_length_no_body(hs: Seq<Seq<u8>>, rest: Seq<u8>)
    requires
        forall|k: int| 0 <= k < hs.len() ==> well_formed_header(#[trigger] hs[k]),
    ensures
        scan(empty_record_bytes(hs) + rest) == (
            shift_spans(scan(rest).0, empty_record_bytes(hs).len() as int),
            scan(rest).1,
        ),
{
    let rec = empty_record_bytes(hs);
    let d = rec + rest;
    let hl = header_lines(hs);
    let tail = length_lines(0);
    lemma_decimal_bytes(0);
    assert(decimal_bytes(0).len() == 1);
    assert(rec =~= hl + tail + crlf() + crlf());
    assert(d.subrange(0, hl.len() as int) =~= hl) by {
        assert forall|j: int| 0 <= j < hl.len() implies d.subrange(0, hl.len() as int)[j] == hl[j] by {
            assert(d[j] == rec[j]);
        }
    }
    assert(d.subrange(hl.len() as int, (hl.len() + 21) as int) =~= tail) by {
        assert forall|j: int| 0 <= j < 21 implies d.subrange(hl.len() as int, (hl.len() + 21) as int)[j]
            == tail[j] by {
            assert(d[hl.len() + j] == rec[hl.len() + j]);
        }
    }
    lemma_scan_headers(d, 0, hs, 0, 0);
    lemma_scan_zero_line(d, hl.len() as int, hs.len(), headers_clen(d, 0, hs, 0));
    let t = (hl.len() + 21) as int;
    assert(d[t] == rec[t]);
    assert(d[t + 1] == rec[t + 1]);
    assert(d[t + 2] == rec[t + 2]);
    assert(d[t + 3] == rec[t + 3]);
    lemma_skip_blank(d, t, 0);
    lemma_skip_blank(d, t + 2, 0);
    lemma_scan_shift(rec, rest, 0, 0, 0);
    assert(t + 4 == rec.len());
}

/// A header line that is not a `Content-Length` line.
pub open spec fn other_header(h: Seq<u8>) -> bool {
    well_formed_header(h) && (h.len() >= 16 ==> h.subrange(0, 16) != length_prefix())
}

proof fn lemma_trim_end_le(d: Seq<u8>, a: int, b: int)
    ensures
        trim_end(d, a, b) <= if b <= a { a } else { b },
    decreases b - a,
{
    if b > a && is_space(d[b - 1]) {
        lemma_trim_end_le(d, a, b - 1);
    }
}

proof fn lemma_other_headers_clen(d: Seq<u8>, pos: int, hs: Seq<Seq<u8>>, clen: nat)
    requires
        0 <= pos,
        pos + header_lines(hs).len() <= d.len(),
        d.subrange(pos, pos + header_lines(hs).len()) == header_lines(hs),
        forall|k: int| 0 <= k < hs.len() ==> other_header(#[trigger] hs[k]),
    ensures
        headers_clen(d, pos, hs, clen) == clen,
    decreases hs.len(),
{
    if hs.len() > 0 {
        let h = hs[0];
        let rest = hs.skip(1);
        let e = pos + h.len() + 2;
        assert(header_lines(hs) == h + crlf() + header_lines(rest));
        assert(other_header(h));
        assert forall|j: int| 0 <= j < h.len() + 2 implies d[pos + j] == (h + crlf())[j] by {
            assert(d[pos + j] == d.subrange(pos, pos + header_lines(hs).len())[j]);
        }
        assert(d[e - 1] == (h + crlf())[(h.len() + 1) as int]);
        assert(d[e - 2] == (h + crlf())[h.len() as int]);
        assert(is_space(d[e - 1]) && is_space(d[e - 2]));
        assert(trim_end(d, pos, e) == trim_end(d, pos, e - 1));
        assert(trim_end(d, pos, e - 1) == trim_end(d, pos, e - 2));
        lemma_trim_end_le(d, pos, e - 2);
        if h.len() >= 16 {
            assert forall|j: int| 0 <= j < 16 implies d.subrange(pos, pos + 16)[j] == h.subrange(
                0,
                16,
            )[j] by {
                assert(d[pos + j] == (h + crlf())[j]);
            }
            assert(d.subrange(pos, pos + 16) =~= h.subrange(0, 16));
        }
        assert(header_length(d, pos, e, clen) == clen);
        assert(d.subrange(e, e + header_lines(rest).len()) =~= header_lines(rest)) by {
            assert forall|j: int| 0 <= j < header_lines(rest).len() implies d.subrange(
                e,
                e + header_lines(rest).len(),
            )[j] == header_lines(rest)[j] by {
                assert(d.subrange(e, e + header_lines(rest).len())[j] == d.subrange(
                    pos,
                    pos + header_lines(hs).len(),
                )[h.len() + 2 + j]);
            }
        }
        assert forall|k: int| 0 <= k < rest.len() implies other_header(#[trigger] rest[k]) by {
            assert(rest[k] == hs[k + 1]);
        }
        lemma_other_headers_clen(d, e, rest, clen);
    }
}

/// A record without a `Content-Length` line yields no body: the scan of an
/// archive that starts with one, terminator included, finds exactly the
/// bodies of the rest, at their places after it, and ends the same way.
pub proof fn lemma_no_length_no_body(hs: Seq<Seq<u8>>, rest: Seq<u8>)
    requires
        forall|k: int| 0 <= k < hs.len() ==> other_header(#[trigger] hs[k]),
    ensures
        scan(bare_record_bytes(hs) + rest) == (
            shift_spans(scan(rest).0, bare_record_bytes(hs).len() as int),
            scan(rest).1,
        ),
{
    let hl = header_lines(hs);
    let rec = bare_record_bytes(hs);
    let d = rec + rest;
    let q = hl.len() as int;
    assert(d.subrange(0, q) =~= hl) by {
        assert forall|j: int| 0 <= j < q implies d.subrange(0, q)[j] == hl[j] by {
            assert(d[j] == rec[j]);
        }
    }
    assert forall|j: int| 0 <= j < 6 implies d[q + j] == #[trigger] rec[q + j] by {}
    assert(d[q] == 13u8 && d[q + 1] == 10u8 && d[q + 2] == 13u8 && d[q + 3] == 10u8 && d[q + 4]
        == 13u8 && d[q + 5] == 10u8);
    if hs.len() > 0 {
        assert forall|k: int| 0 <= k < hs.len() implies well_formed_header(#[trigger] hs[k]) by {
            assert(other_header(hs[k]));
        }
        lemma_scan_headers(d, 0, hs, 0, 0);
        lemma_other_headers_clen(d, 0, hs, 0);
        assert(d.subrange(q, q + 2) =~= Seq::<u8>::empty() + crlf());
        lemma_line_end_from(d, q, Seq::<u8>::empty(), 0);
        assert(is_blank(d, q, q + 2));
        assert(scan_from(d, q, hs.len(), 0) == scan_from(d, q + 2, 0, 0));
    } else {
        lemma_skip_blank(d, q, 0);
    }
    lemma_skip_blank(d, q + 2, 0);
    lemma_skip_blank(d, q + 4, 0);
    lemma_scan_shift(rec, rest, 0, 0, 0);
}

} // verus!
