//! The host ranking file: one host per line in reverse label order with its
//! rank columns, filtered to one national suffix and turned into an
//! allow-list of hosts in conventional order.
use vstd::prelude::*;
use crate::domain::{domain_of, extract_domain, reverse_domain, reversed_host, url_host_of};
use crate::index::IndexRecord;
use crate::num::{char_codes, decimal_of, parse_u64};

verus! {

/// The characters for which `char::is_whitespace` holds (Unicode White_Space).
pub open spec fn is_blank_char(c: char) -> bool {
    ('\u{9}' <= c <= '\u{d}') || c == ' ' || c == '\u{85}' || c == '\u{a0}' || c == '\u{1680}'
        || ('\u{2000}' <= c <= '\u{200a}') || c == '\u{2028}' || c == '\u{2029}' || c == '\u{202f}'
        || c == '\u{205f}' || c == '\u{3000}'
}

fn blank_char(c: char) -> (r: bool)
    ensures
        r == is_blank_char(c),
{
    ('\u{9}' <= c && c <= '\u{d}') || c == ' ' || c == '\u{85}' || c == '\u{a0}' || c == '\u{1680}'
        || ('\u{2000}' <= c && c <= '\u{200a}') || c == '\u{2028}' || c == '\u{2029}' || c
        == '\u{202f}' || c == '\u{205f}' || c == '\u{3000}'
}

/// The white-space separated fields of `s`, in order.
pub open spec fn fields(s: Seq<char>) -> Seq<Seq<char>>
    decreases s.len(),
{
    if s.len() == 0 {
        Seq::empty()
    } else {
        let p = fields(s.drop_last());
        let c = s.last();
        if is_blank_char(c) {
            p
        } else if s.len() == 1 || is_blank_char(s[s.len() - 2]) {
            p.push(seq![c])
        } else {
            p.update(p.len() - 1, p.last().push(c))
        }
    }
}

/// One accepted row of the ranking file. The two rank values are kept as the
/// text of their columns.
pub struct DomainRecord {
    pub harmonicc_pos: u64,
    pub harmonicc_val: String,
    pub pr_pos: u64,
    pub pr_val: String,
    pub host: String,
    pub n_hosts: u64,
}

/// How one line of the ranking file is taken.
pub enum RankingLine {
    /// Empty, blank or a comment (`#` first): nothing to read.
    Ignored,
    /// Fewer than six fields, or a position or count that is no number.
    Malformed,
    /// A well-formed row whose host lies outside the wanted suffix.
    Foreign,
    /// A row of the wanted suffix, with its host in conventional order.
    Entry(DomainRecord),
}

pub open spec fn starts_with(s: Seq<char>, p: Seq<char>) -> bool {
    p.len() <= s.len() && s.subrange(0, p.len() as int) == p
}

/// The reading of a ranking-file line for the top-level label `suffix`:
/// `None` for ignored and malformed lines, `Some(None)` for a row of another
/// suffix, and `Some(Some(..))` with the row's values otherwise.
pub open spec fn ranking_line_of(line: Seq<char>, suffix: Seq<char>) -> Option<
    Option<(u64, Seq<char>, u64, Seq<char>, Seq<char>, u64)>,
> {
    let fs = fields(line);
    if fs.len() == 0 || fs[0][0] == '#' || fs.len() < 6 {
        None
    } else {
        match (
            decimal_of(char_codes(fs[0])),
            decimal_of(char_codes(fs[2])),
            decimal_of(char_codes(fs[5])),
        ) {
            (Some(hp), Some(pp), Some(nh)) => if starts_with(fs[4], suffix.push('.')) {
                Some(Some((hp, fs[1], pp, fs[3], reversed_host(fs[4]), nh)))
            } else {
                Some(None)
            },
            _ => None,
        }
    }
}

/// Whether the line is ignored (rather than malformed) when it has no row.
pub open spec fn ignored_line(line: Seq<char>) -> bool {
    fields(line).len() == 0 || fields(line)[0][0] == '#'
}

pub open spec fn ranking_view(r: RankingLine) -> Option<
    Option<(u64, Seq<char>, u64, Seq<char>, Seq<char>, u64)>,
> {
    match r {
        RankingLine::Entry(d) => Some(
            Some((d.harmonicc_pos, d.harmonicc_val@, d.pr_pos, d.pr_val@, d.host@, d.n_hosts)),
        ),
        RankingLine::Foreign => Some(None),
        _ => None,
    }
}

proof fn lemma_fields_nonempty(s: Seq<char>)
    ensures
        forall|k: int| 0 <= k < fields(s).len() ==> (#[trigger] fields(s)[k]).len() > 0,
        s.len() > 0 && !is_blank_char(s.last()) ==> fields(s).len() > 0,
    decreases s.len(),
{
    if s.len() > 0 {
        let p = fields(s.drop_last());
        lemma_fields_nonempty(s.drop_last());
        if s.len() > 1 {
            assert(s.drop_last().last() == s[s.len() - 2]);
        }
        assert forall|k: int| 0 <= k < fields(s).len() implies (#[trigger] fields(s)[k]).len()
            > 0 by {
            if k < p.len() && k != p.len() - 1 {
                assert(fields(s)[k] == p[k]);
            } else if k < p.len() {
                assert(p[k].len() > 0);
            }
        }
    }
}

/// The fields of a line, each as a string of its own.
fn split_fields(s: &str) -> (r: Vec<String>)
    ensures
        crate::domain::views(r@) == fields(s@),
{
    let n = s.unicode_len();
    let mut parts: Vec<String> = Vec::new();
    let mut start: usize = 0;
    let mut in_field = false;
    let mut i: usize = 0;
    assert(s@.subrange(0, 0) =~= Seq::<char>::empty());
    while i < n
        invariant
            n == s@.len(),
            start <= i <= n,
            in_field ==> start < i && !is_blank_char(s@[i - 1]),
            !in_field ==> i == 0 || is_blank_char(s@[i - 1]),
            in_field ==> crate::domain::views(parts@).push(s@.subrange(start as int, i as int))
                == fields(s@.subrange(0, i as int)),
            !in_field ==> crate::domain::views(parts@) == fields(s@.subrange(0, i as int)),
        decreases n - i,
    {
        let c = s.get_char(i);
        let ghost pre = s@.subrange(0, i as int);
        assert(s@.subrange(0, i + 1).drop_last() =~= pre);
        assert(s@.subrange(0, i + 1).last() == c);
        let blank = blank_char(c);
        if blank {
            if in_field {
                let ghost before = crate::domain::views(parts@);
                parts.push(String::from_str(s.substring_char(start, i)));
                assert(crate::domain::views(parts@) =~= before.push(s@.subrange(start as int, i as int)));
                in_field = false;
            }
        } else {
            if in_field {
                assert(s@.subrange(0, i + 1)[i - 1] == s@[i - 1]);
                assert(s@.subrange(start as int, i + 1) =~= s@.subrange(start as int, i as int).push(c));
                assert(crate::domain::views(parts@).push(s@.subrange(start as int, i + 1)) =~= fields(
                    s@.subrange(0, i + 1),
                ));
            } else {
                if i > 0 {
                    assert(s@.subrange(0, i + 1)[i - 1] == s@[i - 1]);
                }
                start = i;
                assert(s@.subrange(start as int, i + 1) =~= seq![c]);
                in_field = true;
            }
        }
        i = i + 1;
    }
    assert(s@.subrange(0, n as int) =~= s@);
    if in_field {
        let ghost before = crate::domain::views(parts@);
        parts.push(String::from_str(s.substring_char(start, n)));
        assert(crate::domain::views(parts@) =~= before.push(s@.subrange(start as int, n as int)));
    }
    parts
}

fn has_prefix_dot(s: &String, suffix: &str) -> (r: bool)
    ensures
        r == starts_with(s@, suffix@.push('.')),
{
    let n = s.as_str().unicode_len();
    let m = suffix.unicode_len();
    if m >= n {
        return false;
    }
    let mut i: usize = 0;
    while i < m
        invariant
            i <= m < n,
            n == s@.len(),
            m == suffix@.len(),
            forall|j: int| 0 <= j < i ==> s@[j] == suffix@[j],
        decreases m - i,
    {
        if s.as_str().get_char(i) != suffix.get_char(i) {
            assert(s@.subrange(0, m + 1)[i as int] != suffix@.push('.')[i as int]);
            return false;
        }
        i = i + 1;
    }
    if s.as_str().get_char(m) != '.' {
        assert(s@.subrange(0, m + 1)[m as int] != suffix@.push('.')[m as int]);
        return false;
    }
    assert(s@.subrange(0, m + 1) =~= suffix@.push('.'));
    true
}

/// Reads one line of the ranking file, keeping rows whose reverse-order host
/// begins with `suffix` and a dot (`se.` for `se`).
pub fn parse_ranking_line(line: &str, suffix: &str) -> (r: RankingLine)
    ensures
        ranking_view(r) == ranking_line_of(line@, suffix@),
        r is Ignored <==> ignored_line(line@),
{
    let cols = split_fields(line);
    proof {
        lemma_fields_nonempty(line@);
    }
    let ghost fs = fields(line@);
    if cols.len() == 0 {
        return RankingLine::Ignored;
    }
    assert(crate::domain::views(cols@)[0] == cols@[0]@);
    if cols[0].as_str().get_char(0) == '#' {
        return RankingLine::Ignored;
    }
    if cols.len() < 6 {
        return RankingLine::Malformed;
    }
    assert(crate::domain::views(cols@)[1] == cols@[1]@);
    assert(crate::domain::views(cols@)[2] == cols@[2]@);
    assert(crate::domain::views(cols@)[3] == cols@[3]@);
    assert(crate::domain::views(cols@)[4] == cols@[4]@);
    assert(crate::domain::views(cols@)[5] == cols@[5]@);
    let hp = match parse_u64(cols[0].as_str()) {
        Some(v) => v,
        None => return RankingLine::Malformed,
    };
    let pp = match parse_u64(cols[2].as_str()) {
        Some(v) => v,
        None => return RankingLine::Malformed,
    };
    let nh = match parse_u64(cols[5].as_str()) {
        Some(v) => v,
        None => return RankingLine::Malformed,
    };
    if !has_prefix_dot(&cols[4], suffix) {
        return RankingLine::Foreign;
    }
    RankingLine::Entry(
        DomainRecord {
            harmonicc_pos: hp,
            harmonicc_val: String::from_str(cols[1].as_str()),
            pr_pos: pp,
            pr_val: String::from_str(cols[3].as_str()),
            host: reverse_domain(cols[4].as_str()),
            n_hosts: nh,
        },
    )
}

/// Looks a host up in the allow-list.
pub fn find_host(records: &Vec<DomainRecord>, host: &str) -> (r: Option<usize>)
    ensures
        match r {
            Some(i) => i < records@.len() && records@[i as int].host@ == host@ && forall|j: int|
                i < j < records@.len() ==> records@[j].host@ != host@,
            None => forall|j: int| 0 <= j < records@.len() ==> records@[j].host@ != host@,
        },
{
    let h = String::from_str(host);
    let mut k: usize = records.len();
    while k > 0
        invariant
            k <= records@.len(),
            h@ == host@,
            forall|j: int| k <= j < records@.len() ==> records@[j].host@ != host@,
        decreases k,
    {
        if records[k - 1].host == h {
            return Some(k - 1);
        }
        k = k - 1;
    }
    None
}

/// Whether a URL's registrable domain is on the allow-list.
pub open spec fn admitted(url: Seq<char>, records: Seq<DomainRecord>) -> bool {
    match url_host_of(url) {
        Some(h) => exists|j: int| 0 <= j < records.len() && records[j].host@ == domain_of(h),
        None => false,
    }
}

/// The positions, in order, of the index records whose URL's domain is on
/// the allow-list; the others are left out.
pub fn select_records(recs: &Vec<IndexRecord>, allow: &Vec<DomainRecord>) -> (r: Vec<usize>)
    ensures
        forall|k: int| 0 <= k < r@.len() ==> #[trigger] r@[k] < recs@.len(),
        forall|a: int, b: int| 0 <= a < b < r@.len() ==> r@[a] < r@[b],
        forall|i: int|
            0 <= i < recs@.len() ==> (admitted(recs@[i].url@, allow@) <==> r@.contains(i as usize)),
{
    let mut out: Vec<usize> = Vec::new();
    let mut i: usize = 0;
    while i < recs.len()
        invariant
            i <= recs@.len(),
            forall|k: int| 0 <= k < out@.len() ==> #[trigger] out@[k] < i,
            forall|a: int, b: int| 0 <= a < b < out@.len() ==> out@[a] < out@[b],
            forall|j: int|
                0 <= j < i ==> (admitted(recs@[j].url@, allow@) <==> out@.contains(j as usize)),
        decreases recs@.len() - i,
    {
        let keep = match extract_domain(recs[i].url.as_str()) {
            Some(d) => find_host(allow, d.as_str()).is_some(),
            None => false,
        };
        let ghost before = out@;
        if keep {
            out.push(i);
        }
        assert forall|j: int|
            0 <= j <= i implies (admitted(recs@[j].url@, allow@) <==> out@.contains(j as usize)) by {
            if j < i {
                if out@.contains(j as usize) {
                    let k = choose|k: int| 0 <= k < out@.len() && out@[k] == j as usize;
                    if k < before.len() {
                        assert(before[k] == j as usize);
                    }
                }
                if before.contains(j as usize) {
                    let k = choose|k: int| 0 <= k < before.len() && before[k] == j as usize;
                    assert(out@[k] == j as usize);
                }
            } else {
                if keep {
                    assert(out@[out@.len() - 1] == i);
                } else {
                    assert(!before.contains(i));
                }
            }
        }
        i = i + 1;
    }
    out
}

} // verus!
