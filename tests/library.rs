use std::io::Write;

use warc_harvest::domain::{domain_of_host, extract_domain, reverse_domain};
use warc_harvest::filter::{accept_document, evaluate_extraction, exceeds_threshold, Extraction};
use warc_harvest::index::{
    archive_url, build_index_url, build_output_file, byte_range, decimal_string, fetch_outcome,
    parse_index, parse_index_line, range_header, FetchOutcome, IndexRecord,
};
use warc_harvest::num::{parse_u64, parse_u64_bytes};
use warc_harvest::ranking::{find_host, parse_ranking_line, select_records, DomainRecord, RankingLine};
use warc_harvest::scan::{scan_line, scan_records, LineStep, ScanState};

fn gzip(data: &[u8]) -> Vec<u8> {
    let mut enc = flate2::write::GzEncoder::new(Vec::new(), flate2::Compression::default());
    enc.write_all(data).unwrap();
    enc.finish().unwrap()
}

fn record(headers: &[&str], body: &[u8]) -> Vec<u8> {
    let mut out = Vec::new();
    for h in headers {
        out.extend_from_slice(h.as_bytes());
        out.extend_from_slice(b"\r\n");
    }
    out.extend_from_slice(b"\r\n");
    out.extend_from_slice(body);
    out.extend_from_slice(b"\r\n\r\n");
    out
}

fn domain_row(host: &str) -> DomainRecord {
    DomainRecord {
        harmonicc_pos: 1,
        harmonicc_val: "1.0".to_string(),
        pr_pos: 1,
        pr_val: "0.5".to_string(),
        host: host.to_string(),
        n_hosts: 1,
    }
}

fn long_text() -> String {
    "a".repeat(101)
}

#[test]
fn extract_domain_multi_label_suffix() {
    assert_eq!(extract_domain("http://sub.example.co.uk/page"), Some("example.co.uk".to_string()));
}

#[test]
fn extract_domain_two_labels() {
    assert_eq!(extract_domain("https://news.google.com"), Some("google.com".to_string()));
}

#[test]
fn extract_domain_single_label_host() {
    assert_eq!(extract_domain("http://localhost/"), Some("localhost".to_string()));
}

#[test]
fn extract_domain_unparsable_url() {
    assert_eq!(extract_domain("not a url"), None);
}

#[test]
fn domain_of_host_suffix_without_third_label() {
    assert_eq!(domain_of_host("co.uk"), "co.uk");
    assert_eq!(domain_of_host("a.b.example.com.au"), "example.com.au");
    assert_eq!(domain_of_host("www.example.se"), "example.se");
}

#[test]
fn reverse_domain_example() {
    assert_eq!(reverse_domain("se.example.www"), "www.example.se");
}

#[test]
fn reverse_domain_twice_is_identity() {
    for h in ["se.example.www", "a", "", "a..b", ".x.", "www.example.co.uk"] {
        assert_eq!(reverse_domain(&reverse_domain(h)), h);
    }
}

#[test]
fn scan_counts_well_formed_records() {
    let mut data = Vec::new();
    let bodies: [&[u8]; 3] = [b"<html>one</html>", b"two", b"three\r\n\r\nwith blank lines"];
    for b in bodies.iter() {
        let len = format!("Content-Length: {}", b.len());
        data.extend(record(&["WARC/1.0", "WARC-Type: response", &len], b));
    }
    let report = scan_records(&data);
    assert!(report.complete);
    assert_eq!(report.bodies.len(), 3);
    for (k, b) in bodies.iter().enumerate() {
        let (s, e) = report.bodies[k];
        assert_eq!(&data[s..e], *b);
    }
    assert_eq!(report.bodies[2].1 + 4, data.len());
}

#[test]
fn scan_zero_length_has_no_body() {
    let data = record(&["WARC/1.0", "Content-Length: 0"], b"");
    let report = scan_records(&data);
    assert!(report.complete);
    assert!(report.bodies.is_empty());
}

#[test]
fn scan_missing_length_has_no_body() {
    let data = b"WARC/1.0\r\nWARC-Type: warcinfo\r\n\r\n".to_vec();
    let report = scan_records(&data);
    assert!(report.complete);
    assert!(report.bodies.is_empty());
}

#[test]
fn scan_unparsable_length_counts_as_zero() {
    let data = b"WARC/1.0\r\nContent-Length: abc\r\n\r\n".to_vec();
    let report = scan_records(&data);
    assert!(report.complete);
    assert!(report.bodies.is_empty());
}

#[test]
fn scan_truncated_body_is_incomplete() {
    let data = b"WARC/1.0\r\nContent-Length: 50\r\n\r\nshort".to_vec();
    let report = scan_records(&data);
    assert!(!report.complete);
    assert!(report.bodies.is_empty());
}

#[test]
fn scan_empty_stream() {
    let report = scan_records(&[]);
    assert!(report.complete);
    assert!(report.bodies.is_empty());
}

#[test]
fn filter_boundary_exactly_point_eight_rejected() {
    assert!(!accept_document("sv", "0.8", &long_text(), "sv"));
}

#[test]
fn filter_boundary_just_above_accepted() {
    assert!(accept_document("sv", "0.8000001", &long_text(), "sv"));
}

#[test]
fn filter_needs_language_and_length() {
    assert!(!accept_document("en", "0.99", &long_text(), "sv"));
    assert!(!accept_document("sv", "0.99", &"a".repeat(100), "sv"));
    assert!(accept_document("sv", "1", &long_text(), "sv"));
}

#[test]
fn threshold_digits() {
    assert!(exceeds_threshold("0.9"));
    assert!(exceeds_threshold("0.81"));
    assert!(!exceeds_threshold("0.80000"));
    assert!(!exceeds_threshold("0.79"));
    assert!(exceeds_threshold("2"));
    assert!(!exceeds_threshold("abc"));
    assert!(!exceeds_threshold("."));
    assert!(!exceeds_threshold("0.9.1"));
}

#[test]
fn threshold_signs_and_exponents() {
    assert!(exceeds_threshold("+0.9"));
    assert!(exceeds_threshold("9e-1"));
    assert!(exceeds_threshold("8.5E-1"));
    assert!(exceeds_threshold("0.09e+1"));
    assert!(!exceeds_threshold("0.08e+1"));
    assert!(exceeds_threshold(".9"));
    assert!(exceeds_threshold("1e400"));
    assert!(exceeds_threshold("0.00000001e100000000000000000000000000000"));
    assert!(!exceeds_threshold("8e-1"));
    assert!(!exceeds_threshold("80E-2"));
    assert!(!exceeds_threshold("-0.9"));
    assert!(!exceeds_threshold("9e-2"));
    assert!(!exceeds_threshold("9e-100000000000000000000000000000"));
    assert!(!exceeds_threshold("0e5"));
    assert!(!exceeds_threshold("0.9e"));
    assert!(!exceeds_threshold("0.9e+"));
    assert!(!exceeds_threshold("+"));
    assert!(accept_document("sv", "+0.9", &long_text(), "sv"));
}

#[test]
fn index_numbers_must_be_strings() {
    assert!(parse_index_line(r#"{"url":"u","filename":"f","offset":100,"length":"1"}"#).is_none());
    assert!(parse_index_line(r#"{"url":7,"filename":"f","offset":"1","length":"1"}"#).is_none());
}

#[test]
fn ranking_unicode_white_space() {
    match parse_ranking_line("1\u{a0}2\u{3000}3 4\u{2003}se.example.www 5", "se") {
        RankingLine::Entry(d) => {
            assert_eq!(d.host, "www.example.se");
            assert_eq!(d.n_hosts, 5);
        }
        _ => panic!("expected a row"),
    }
}

#[test]
fn extraction_accepted_with_compact_line() {
    let doc = format!("{{ \"lang\": \"sv\", \"lang_prob\": \"0.95\", \"text\": \"{}\" }}", long_text());
    match evaluate_extraction(&doc, "sv") {
        Extraction::Accepted(line) => {
            assert_eq!(line, format!("{{\"lang\":\"sv\",\"lang_prob\":\"0.95\",\"text\":\"{}\"}}", long_text()));
        }
        _ => panic!("expected the document to be kept"),
    }
}

#[test]
fn extraction_numeric_probability() {
    let doc = format!("{{\"lang\":\"sv\",\"lang_prob\":0.95,\"text\":\"{}\"}}", long_text());
    assert!(matches!(evaluate_extraction(&doc, "sv"), Extraction::Accepted(_)));
}

#[test]
fn extraction_rejected_and_malformed() {
    let doc = format!("{{\"lang\":\"sv\",\"lang_prob\":\"0.8\",\"text\":\"{}\"}}", long_text());
    assert!(matches!(evaluate_extraction(&doc, "sv"), Extraction::Rejected));
    assert!(matches!(evaluate_extraction("{}", "sv"), Extraction::Rejected));
    assert!(matches!(evaluate_extraction("not json", "sv"), Extraction::Malformed));
}

#[test]
fn index_line_parses() {
    let rec = parse_index_line(
        r#"{"url":"http://a.example.se/","filename":"f.warc.gz","offset":"0","length":"100"}"#,
    )
    .unwrap();
    assert_eq!(rec.url, "http://a.example.se/");
    assert_eq!(rec.filename, "f.warc.gz");
    assert_eq!(rec.offset, 0);
    assert_eq!(rec.length, 100);
}

#[test]
fn index_line_bad_number_fails() {
    assert!(parse_index_line(r#"{"url":"u","filename":"f","offset":"x","length":"1"}"#).is_none());
    assert!(parse_index_line(r#"{"url":"u","filename":"f","offset":"1"}"#).is_none());
    assert!(parse_index_line("garbage").is_none());
}

#[test]
fn index_batch_fails_on_one_bad_line() {
    let good = r#"{"url":"u","filename":"f","offset":"1","length":"2"}"#.to_string();
    let lines = vec![good.clone(), "oops".to_string(), good.clone()];
    assert_eq!(parse_index(&lines).err(), Some(1));
    let ok = parse_index(&vec![good.clone(), good]).unwrap();
    assert_eq!(ok.len(), 2);
}

#[test]
fn range_and_urls() {
    let rec = IndexRecord { url: "u".to_string(), filename: "crawl/f.warc.gz".to_string(), offset: 1000, length: 250 };
    assert_eq!(byte_range(&rec), Some((1000, 1249)));
    assert_eq!(range_header(&rec), Some("bytes=1000-1249".to_string()));
    assert_eq!(archive_url(&rec), "https://data.commoncrawl.org/crawl/f.warc.gz");
    let empty = IndexRecord { url: "u".to_string(), filename: "f".to_string(), offset: 5, length: 0 };
    assert_eq!(range_header(&empty), None);
    let wide = IndexRecord { url: "u".to_string(), filename: "f".to_string(), offset: u64::MAX, length: 2 };
    assert_eq!(byte_range(&wide), None);
    assert_eq!(decimal_string(0), "0");
    assert_eq!(decimal_string(u64::MAX), u64::MAX.to_string());
}

#[test]
fn crawl_paths() {
    let id = "CC-MAIN-2013-20".to_string();
    assert_eq!(build_index_url(&id), "https://index.commoncrawl.org/CC-MAIN-2013-20-index?url=*.se/*&output=json");
    assert_eq!(build_output_file(&id), "/mnt/data_ssd/CC-MAIN-2013-20.warc");
}

#[test]
fn fetch_appends_decompressed_segment() {
    let x = b"WARC/1.0\r\nContent-Length: 3\r\n\r\nabc\r\n\r\n".to_vec();
    match fetch_outcome(206, &gzip(&x)) {
        FetchOutcome::Append(bytes) => assert_eq!(bytes, x),
        _ => panic!("expected decompressed bytes"),
    }
}

#[test]
fn fetch_bad_status_and_corrupt_body() {
    assert!(matches!(fetch_outcome(404, &gzip(b"x")), FetchOutcome::BadStatus(404)));
    assert!(matches!(fetch_outcome(200, b"not gzip"), FetchOutcome::Corrupt));
}

#[test]
fn end_to_end_index_line_to_archive_bytes() {
    let line = r#"{"url":"http://a.example.se/","filename":"f.warc.gz","offset":"0","length":"100"}"#;
    let rec = parse_index_line(line).unwrap();
    let allow = vec![domain_row("example.se")];
    assert_eq!(select_records(&vec![rec], &allow), vec![0]);
    let rec = parse_index_line(line).unwrap();
    assert_eq!(range_header(&rec), Some("bytes=0-99".to_string()));
    let x = b"decompressed segment".to_vec();
    let mut archive: Vec<u8> = Vec::new();
    if let FetchOutcome::Append(bytes) = fetch_outcome(206, &gzip(&x)) {
        archive.extend_from_slice(&bytes);
    }
    assert_eq!(archive, x);
}

#[test]
fn ranking_lines() {
    match parse_ranking_line("12\t3.5E-1\t7\t0.000012\tse.example.www\t4", "se") {
        RankingLine::Entry(d) => {
            assert_eq!(d.harmonicc_pos, 12);
            assert_eq!(d.harmonicc_val, "3.5E-1");
            assert_eq!(d.pr_pos, 7);
            assert_eq!(d.pr_val, "0.000012");
            assert_eq!(d.host, "www.example.se");
            assert_eq!(d.n_hosts, 4);
        }
        _ => panic!("expected a row"),
    }
    assert!(matches!(parse_ranking_line("1 2 3 4 com.example 5", "se"), RankingLine::Foreign));
    assert!(matches!(parse_ranking_line("1 2 3 4 sex.example 5", "se"), RankingLine::Foreign));
    assert!(matches!(parse_ranking_line("#harmonicc_pos #host", "se"), RankingLine::Ignored));
    assert!(matches!(parse_ranking_line("   ", "se"), RankingLine::Ignored));
    assert!(matches!(parse_ranking_line("1 2 3 se.x 5", "se"), RankingLine::Malformed));
    assert!(matches!(parse_ranking_line("x 2 3 4 se.x 5", "se"), RankingLine::Malformed));
}

#[test]
fn allow_list_lookup_last_wins() {
    let allow = vec![domain_row("a.se"), domain_row("b.se"), domain_row("a.se")];
    assert_eq!(find_host(&allow, "a.se"), Some(2));
    assert_eq!(find_host(&allow, "b.se"), Some(1));
    assert_eq!(find_host(&allow, "c.se"), None);
}

#[test]
fn selection_skips_unlisted_domains() {
    let recs = vec![
        IndexRecord { url: "http://x.example.se/".to_string(), filename: "f".to_string(), offset: 0, length: 1 },
        IndexRecord { url: "http://other.se/".to_string(), filename: "f".to_string(), offset: 0, length: 1 },
        IndexRecord { url: "::bad".to_string(), filename: "f".to_string(), offset: 0, length: 1 },
        IndexRecord { url: "https://www.example.se/a".to_string(), filename: "f".to_string(), offset: 0, length: 1 },
    ];
    assert_eq!(select_records(&recs, &vec![domain_row("example.se")]), vec![0, 3]);
}

#[test]
fn decimal_parsing() {
    assert_eq!(parse_u64("123"), Some(123));
    assert_eq!(parse_u64("+7"), Some(7));
    assert_eq!(parse_u64("18446744073709551615"), Some(u64::MAX));
    assert_eq!(parse_u64("18446744073709551616"), None);
    assert_eq!(parse_u64(""), None);
    assert_eq!(parse_u64("+"), None);
    assert_eq!(parse_u64("-1"), None);
    assert_eq!(parse_u64("1 2"), None);
    assert_eq!(parse_u64_bytes(b"xx42yy", 2, 4), Some(42));
}

#[test]
fn ranking_file_round_trip() {
    let rows: [(u64, f64, u64, f64, &str, u64); 3] = [
        (1, 3.4567891e-2, 10, 0.000123456789012345, "www.example.se", 3),
        (2, 1.0, 20, 0.5, "example.se", 1),
        (30, 7.25e5, 4, 1.5e-10, "a.b.c.se", 12),
    ];
    let mut file = String::from("#harmonicc_pos\t#harmonicc_val\t#pr_pos\t#pr_val\t#host\t#n_hosts\n");
    for (hp, hv, pp, pv, host, nh) in rows.iter() {
        file.push_str(&format!("{}\t{:.7E}\t{}\t{:.18}\t{}\t{}\n", hp, hv, pp, pv, reverse_domain(host), nh));
    }
    let mut read = Vec::new();
    for line in file.lines() {
        match parse_ranking_line(line, "se") {
            RankingLine::Entry(d) => read.push(d),
            RankingLine::Ignored => {}
            _ => panic!("unexpected line {:?}", line),
        }
    }
    assert_eq!(read.len(), rows.len());
    for (d, (hp, hv, pp, pv, host, nh)) in read.iter().zip(rows.iter()) {
        assert_eq!(d.harmonicc_pos, *hp);
        assert_eq!(d.pr_pos, *pp);
        assert_eq!(d.n_hosts, *nh);
        assert_eq!(d.host, *host);
        let hv2: f64 = d.harmonicc_val.parse().unwrap();
        let pv2: f64 = d.pr_val.parse().unwrap();
        assert!((hv2 - hv).abs() <= hv.abs() * 1e-7);
        assert!((pv2 - pv).abs() <= 1e-17);
    }
}

#[test]
fn scan_skips_zero_length_record_between_bodies() {
    let mut data = record(&["WARC/1.0", "Content-Length: 5"], b"first");
    let mut empty = b"WARC/1.0\r\nContent-Length: 999\r\nContent-Length: 0\r\n\r\n".to_vec();
    data.append(&mut empty);
    data.extend(record(&["WARC/1.0", "Content-Length: 6"], b"second"));
    let report = scan_records(&data);
    assert!(report.complete);
    assert_eq!(report.bodies.len(), 2);
    let (s0, e0) = report.bodies[0];
    let (s1, e1) = report.bodies[1];
    assert_eq!(&data[s0..e0], b"first");
    assert_eq!(&data[s1..e1], b"second");
    assert_eq!(e1 + 4, data.len());
}

#[test]
fn scan_passes_over_leading_blank_line() {
    let mut data = b"\r\n".to_vec();
    data.extend(record(&["WARC/1.0", "Content-Length: 3"], b"abc"));
    let report = scan_records(&data);
    assert!(report.complete);
    assert_eq!(report.bodies.len(), 1);
    let (s, e) = report.bodies[0];
    assert_eq!(&data[s..e], b"abc");
}

#[test]
fn scan_continues_after_zero_length_record_with_terminator() {
    let mut data = record(&["WARC/1.0", "WARC-Type: request", "Content-Length: 0"], b"");
    data.extend(record(&["WARC/1.0", "Content-Length: 5"], b"after"));
    data.extend(record(&["WARC/1.0"], b""));
    data.extend(record(&["WARC/1.0", "Content-Length: 4"], b"last"));
    let report = scan_records(&data);
    assert!(report.complete);
    let found: Vec<&[u8]> = report.bodies.iter().map(|&(s, e)| &data[s..e]).collect();
    assert_eq!(found, vec![&b"after"[..], &b"last"[..]]);
}

#[test]
fn streaming_steps_match_whole_scan() {
    let mut data = record(&["WARC/1.0", "Content-Length: 5"], b"first");
    data.extend(b"WARC/1.0\r\nContent-Length: 0\r\n\r\n");
    data.extend(record(&["WARC/1.0", "Content-Length: 6", "X: y"], b"second"));
    let mut bodies: Vec<Vec<u8>> = Vec::new();
    let mut state = ScanState { count: 0, clen: 0 };
    let mut pos = 0;
    while pos < data.len() {
        let end = data[pos..].iter().position(|&b| b == b'\n').map(|i| pos + i + 1).unwrap_or(data.len());
        match scan_line(&state, &data[pos..end]) {
            LineStep::Next(next) => {
                state = next;
                pos = end;
            }
            LineStep::Body(n) => {
                let n = n as usize;
                bodies.push(data[end..end + n].to_vec());
                pos = end + n + 4;
                state = ScanState { count: 0, clen: 0 };
            }
        }
    }
    assert_eq!(bodies, vec![b"first".to_vec(), b"second".to_vec()]);
    let report = scan_records(&data);
    let whole: Vec<Vec<u8>> = report.bodies.iter().map(|&(s, e)| data[s..e].to_vec()).collect();
    assert_eq!(whole, bodies);
}

#[test]
fn streaming_passes_over_leading_blank_line() {
    let state = ScanState { count: 0, clen: 0 };
    assert!(matches!(scan_line(&state, b"\r\n"), LineStep::Next(ScanState { count: 0, clen: 0 })));
    let state = ScanState { count: 2, clen: 7 };
    assert!(matches!(scan_line(&state, b"\r\n"), LineStep::Body(7)));
    match scan_line(&state, b"Content-Length: 12\r\n") {
        LineStep::Next(next) => {
            assert_eq!(next.clen, 12);
            assert_eq!(next.count, 3);
        }
        _ => panic!("expected a header step"),
    }
}

#[test]
fn scan_record_without_length_then_body() {
    let mut data = b"WARC/1.0\r\nWARC-Type: warcinfo\r\n\r\n".to_vec();
    data.extend(record(&["WARC/1.0", "Content-Length: 4"], b"body"));
    let report = scan_records(&data);
    assert!(report.complete);
    assert_eq!(report.bodies.len(), 1);
    let (s, e) = report.bodies[0];
    assert_eq!(&data[s..e], b"body");
}

#[test]
fn scan_truncated_tail_keeps_earlier_bodies() {
    let mut data = record(&["WARC/1.0", "Content-Length: 3"], b"one");
    data.extend(record(&["WARC/1.0", "Content-Length: 3"], b"two"));
    data.extend(b"WARC/1.0\r\nContent-Length: 10\r\n\r\nshort\r\n");
    let report = scan_records(&data);
    assert!(!report.complete);
    let found: Vec<&[u8]> = report.bodies.iter().map(|&(s, e)| &data[s..e]).collect();
    assert_eq!(found, vec![&b"one"[..], &b"two"[..]]);
}
