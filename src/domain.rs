//! Host names as sequences of dot-separated labels: reversal between
//! ranking-file order (`se.example.www`) and conventional order, and the
//! registrable domain of a URL's host.
use vstd::prelude::*;

verus! {

/// The labels of `s`, split on every `.`; a string without dots is one label,
/// and the empty string is one empty label.
pub open spec fn split_labels(s: Seq<char>) -> Seq<Seq<char>>
    decreases s.len(),
{
    if s.len() == 0 {
        seq![Seq::<char>::empty()]
    } else {
        let p = split_labels(s.drop_last());
        if s.last() == '.' {
            p.push(Seq::<char>::empty())
        } else {
            p.update(p.len() - 1, p.last().push(s.last()))
        }
    }
}

/// The labels joined with `.` between neighbours.
pub open spec fn join_labels(ls: Seq<Seq<char>>) -> Seq<char>
    decreases ls.len(),
{
    if ls.len() == 0 {
        Seq::<char>::empty()
    } else if ls.len() == 1 {
        ls[0]
    } else {
        join_labels(ls.drop_last()) + seq!['.'] + ls.last()
    }
}

/// The host with its labels in the opposite order.
pub open spec fn reversed_host(s: Seq<char>) -> Seq<char> {
    join_labels(split_labels(s).reverse())
}

pub open spec fn views(v: Seq<String>) -> Seq<Seq<char>> {
    v.map_values(|x: String| x@)
}

pub open spec fn dot_free(l: Seq<char>) -> bool {
    forall|i: int| 0 <= i < l.len() ==> l[i] != '.'
}

/// Two-label public suffixes under which a registrable domain has three labels.
pub open spec fn is_multi_label_suffix(s: Seq<char>) -> bool {
    s == "co.uk"@ || s == "org.uk"@ || s == "gov.uk"@ || s == "com.au"@ || s == "co.jp"@
}

/// The registrable domain of a host: the host itself when it has fewer than
/// two labels, the last three labels when the last two form a multi-label
/// suffix and there are at least three, otherwise the last two labels.
pub open spec fn domain_of(host: Seq<char>) -> Seq<char> {
    let ls = split_labels(host);
    let n = ls.len() as int;
    if n < 2 {
        host
    } else if n >= 3 && is_multi_label_suffix(join_labels(ls.subrange(n - 2, n))) {
        join_labels(ls.subrange(n - 3, n))
    } else {
        join_labels(ls.subrange(n - 2, n))
    }
}

pub open spec fn opt_view(r: Option<String>) -> Option<Seq<char>> {
    match r {
        Some(s) => Some(s@),
        None => None,
    }
}

/// The host of a URL as the `url` crate parses it, if it has one.
pub uninterp spec fn url_host_of(url: Seq<char>) -> Option<Seq<char>>;

pub proof fn lemma_split_nonempty(s: Seq<char>)
    ensures
        split_labels(s).len() >= 1,
    decreases s.len(),
{
    if s.len() > 0 {
        lemma_split_nonempty(s.drop_last());
    }
}

pub proof fn lemma_split_dot_free(s: Seq<char>)
    ensures
        forall|k: int| 0 <= k < split_labels(s).len() ==> dot_free(#[trigger] split_labels(s)[k]),
    decreases s.len(),
{
    if s.len() > 0 {
        lemma_split_dot_free(s.drop_last());
        lemma_split_nonempty(s.drop_last());
        let p = split_labels(s.drop_last());
        if s.last() != '.' {
            assert forall|k: int| 0 <= k < split_labels(s).len() implies dot_free(
                #[trigger] split_labels(s)[k],
            ) by {
                if k == p.len() - 1 {
                    let l = p.last().push(s.last());
                    assert(dot_free(p[k]));
                    assert forall|i: int| 0 <= i < l.len() implies l[i] != '.' by {
                        if i < p.last().len() {
                            assert(l[i] == p[k][i]);
                        }
                    }
                }
            }
        }
    }
}

/// Joining the labels of a string gives the string back.
pub proof fn lemma_join_split(s: Seq<char>)
    ensures
        join_labels(split_labels(s)) == s,
    decreases s.len(),
{
    if s.len() > 0 {
        let t = s.drop_last();
        lemma_join_split(t);
        lemma_split_nonempty(t);
        let p = split_labels(t);
        if s.last() == '.' {
            assert(split_labels(s).drop_last() =~= p);
            assert(join_labels(split_labels(s)) =~= s);
        } else {
            let q = split_labels(s);
            if p.len() == 1 {
                assert(join_labels(q) =~= s);
            } else {
                assert(q.drop_last() =~= p.drop_last());
                assert(q.last() == p.last().push(s.last()));
                assert(join_labels(p) == join_labels(p.drop_last()) + seq!['.'] + p.last());
                assert(join_labels(q) == join_labels(q.drop_last()) + seq!['.'] + q.last());
                assert(s =~= t.push(s.last()));
                assert(join_labels(q) =~= s);
            }
        }
    }
}

/// Appending a dot-free tail to a string extends its last label.
proof fn lemma_split_append_label(a: Seq<char>, b: Seq<char>)
    requires
        dot_free(b),
    ensures
        split_labels(a + b) == split_labels(a).update(
            split_labels(a).len() - 1,
            split_labels(a).last() + b,
        ),
    decreases b.len(),
{
    lemma_split_nonempty(a);
    if b.len() == 0 {
        assert(a + b =~= a);
        assert(split_labels(a).last() + b =~= split_labels(a).last());
        assert(split_labels(a).update(split_labels(a).len() - 1, split_labels(a).last())
            =~= split_labels(a));
    } else {
        let b0 = b.drop_last();
        assert(dot_free(b0));
        lemma_split_append_label(a, b0);
        assert((a + b).drop_last() =~= a + b0);
        assert((a + b).last() == b.last());
        assert(b.last() != '.');
        assert(split_labels(a).last() + b =~= (split_labels(a).last() + b0).push(b.last()));
        assert(split_labels(a + b) =~= split_labels(a).update(
            split_labels(a).len() - 1,
            split_labels(a).last() + b,
        ));
    }
}

/// Splitting a join of dot-free labels gives the labels back.
pub proof fn lemma_split_join(ls: Seq<Seq<char>>)
    requires
        ls.len() >= 1,
        forall|k: int| 0 <= k < ls.len() ==> dot_free(#[trigger] ls[k]),
    ensures
        split_labels(join_labels(ls)) == ls,
    decreases ls.len(),
{
    if ls.len() == 1 {
        lemma_split_append_label(Seq::<char>::empty(), ls[0]);
        assert(Seq::<char>::empty() + ls[0] =~= ls[0]);
        assert(split_labels(Seq::<char>::empty()).last() + ls[0] =~= ls[0]);
        assert(split_labels(join_labels(ls)) =~= ls);
    } else {
        let init = ls.drop_last();
        assert forall|k: int| 0 <= k < init.len() implies dot_free(#[trigger] init[k]) by {
            assert(init[k] == ls[k]);
        }
        lemma_split_join(init);
        let a = join_labels(init) + seq!['.'];
        assert(a.drop_last() =~= join_labels(init));
        assert(split_labels(a) == init.push(Seq::<char>::empty()));
        assert(dot_free(ls.last()));
        lemma_split_append_label(a, ls.last());
        assert(Seq::<char>::empty() + ls.last() =~= ls.last());
        assert(split_labels(join_labels(ls)) =~= ls);
    }
}

/// Reversing the labels of a host twice gives the host back.
pub proof fn lemma_reverse_involutive(h: Seq<char>)
    ensures
        reversed_host(reversed_host(h)) == h,
{
    let ls = split_labels(h);
    lemma_split_nonempty(h);
    lemma_split_dot_free(h);
    let r = ls.reverse();
    assert(r.len() == ls.len());
    assert forall|k: int| 0 <= k < r.len() implies dot_free(#[trigger] r[k]) by {
        assert(r[k] == ls[ls.len() - 1 - k]);
    }
    lemma_split_join(r);
    assert(r.reverse() =~= ls);
    lemma_join_split(h);
}

/// The labels of `s`, each as a string of its own.
pub(crate) fn split_dots(s: &str) -> (r: Vec<String>)
    ensures
        views(r@) == split_labels(s@),
{
    let n = s.unicode_len();
    let mut parts: Vec<String> = Vec::new();
    let mut start: usize = 0;
    let mut i: usize = 0;
    assert(s@.subrange(0, 0) =~= Seq::<char>::empty());
    assert(views(parts@).push(s@.subrange(0, 0)) =~= split_labels(s@.subrange(0, 0)));
    while i < n
        invariant
            n == s@.len(),
            start <= i <= n,
            views(parts@).push(s@.subrange(start as int, i as int)) == split_labels(
                s@.subrange(0, i as int),
            ),
        decreases n - i,
    {
        let c = s.get_char(i);
        let ghost pre = s@.subrange(0, i as int);
        assert(s@.subrange(0, i + 1).drop_last() =~= pre);
        assert(s@.subrange(0, i + 1).last() == c);
        if c == '.' {
            let label = String::from_str(s.substring_char(start, i));
            let ghost before = views(parts@);
            parts.push(label);
            assert(views(parts@) =~= before.push(s@.subrange(start as int, i as int)));
            start = i + 1;
            assert(s@.subrange(start as int, i + 1) =~= Seq::<char>::empty());
        } else {
            assert(s@.subrange(start as int, i + 1) =~= s@.subrange(start as int, i as int).push(c));
            assert(views(parts@).push(s@.subrange(start as int, i + 1)) =~= split_labels(
                s@.subrange(0, i + 1),
            ));
        }
        i = i + 1;
    }
    let last = String::from_str(s.substring_char(start, n));
    let ghost before = views(parts@);
    parts.push(last);
    assert(views(parts@) =~= before.push(s@.subrange(start as int, n as int)));
    assert(s@.subrange(0, n as int) =~= s@);
    parts
}

/// The labels `parts[from..to]` joined with `.`.
fn join_range(parts: &Vec<String>, from: usize, to: usize) -> (r: String)
    requires
        from <= to <= parts@.len(),
    ensures
        r@ == join_labels(views(parts@).subrange(from as int, to as int)),
{
    let mut out = String::new();
    let mut k: usize = from;
    while k < to
        invariant
            from <= k <= to <= parts@.len(),
            out@ == join_labels(views(parts@).subrange(from as int, k as int)),
        decreases to - k,
    {
        let ghost sub = views(parts@).subrange(from as int, k + 1);
        assert(sub.drop_last() =~= views(parts@).subrange(from as int, k as int));
        assert(sub.last() == parts@[k as int]@);
        let ghost prev = out@;
        proof {
            reveal_strlit(".");
        }
        if k > from {
            out.append(".");
        }
        out.append(parts[k].as_str());
        if k == from {
            assert(sub.len() == 1);
            assert(out@ =~= join_labels(sub));
        } else {
            assert(out@ =~= prev + seq!['.'] + sub.last());
            assert(out@ =~= join_labels(sub));
        }
        k = k + 1;
    }
    out
}

/// Turns a host between ranking-file order and conventional order:
/// `se.example.www` becomes `www.example.se`.
pub fn reverse_domain(host_rev: &str) -> (r: String)
    ensures
        r@ == reversed_host(host_rev@),
{
    let parts = split_dots(host_rev);
    let n = parts.len();
    let ghost ls = views(parts@);
    let mut out = String::new();
    let mut m: usize = 0;
    while m < n
        invariant
            n == parts@.len(),
            ls == views(parts@),
            m <= n,
            out@ == join_labels(ls.reverse().take(m as int)),
        decreases n - m,
    {
        let ghost rv = ls.reverse();
        assert(rv.take(m + 1).drop_last() =~= rv.take(m as int));
        assert(rv.take(m + 1).last() == parts@[n - 1 - m]@);
        let ghost prev = out@;
        proof {
            reveal_strlit(".");
        }
        if m > 0 {
            out.append(".");
        }
        out.append(parts[n - 1 - m].as_str());
        if m == 0 {
            assert(rv.take(1).len() == 1);
            assert(out@ =~= join_labels(rv.take(m + 1)));
        } else {
            assert(out@ =~= prev + seq!['.'] + rv.take(m + 1).last());
            assert(out@ =~= join_labels(rv.take(m + 1)));
        }
        m = m + 1;
    }
    assert(ls.reverse().take(n as int) =~= ls.reverse());
    out
}

/// Relies on `url::Url::parse` and `url::Url::host_str`: the host of the
/// parsed URL, or nothing when the URL does not parse or has no host.
#[verifier::external_body]
fn url_host(url: &str) -> (r: Option<String>)
    ensures
        opt_view(r) == url_host_of(url@),
{
    match url::Url::parse(url) {
        Ok(u) => u.host_str().map(|h| h.to_string()),
        Err(_) => None,
    }
}

/// The registrable domain of a host (see `domain_of`).
pub fn domain_of_host(host: &str) -> (r: String)
    ensures
        r@ == domain_of(host@),
{
    let parts = split_dots(host);
    let n = parts.len();
    if n < 2 {
        return String::from_str(host);
    }
    let last_two = join_range(&parts, n - 2, n);
    if n >= 3 && is_suffix_pair(&last_two) {
        join_range(&parts, n - 3, n)
    } else {
        last_two
    }
}

fn is_suffix_pair(s: &String) -> (r: bool)
    ensures
        r == is_multi_label_suffix(s@),
{
    proof {
        reveal_strlit("co.uk");
        reveal_strlit("org.uk");
        reveal_strlit("gov.uk");
        reveal_strlit("com.au");
        reveal_strlit("co.jp");
    }
    let a = String::from_str("co.uk");
    let b = String::from_str("org.uk");
    let c = String::from_str("gov.uk");
    let d = String::from_str("com.au");
    let e = String::from_str("co.jp");
    *s == a || *s == b || *s == c || *s == d || *s == e
}

/// The registrable domain of a URL's host: `https://news.google.com` gives
/// `google.com`. Nothing when the URL does not parse or has no host.
pub fn extract_domain(url_str: &str) -> (r: Option<String>)
    ensures
        opt_view(r) == match url_host_of(url_str@) {
            Some(h) => Some(domain_of(h)),
            None => None::<Seq<char>>,
        },
{
    match url_host(url_str) {
        Some(h) => Some(domain_of_host(h.as_str())),
        None => None,
    }
}

} // verus!
