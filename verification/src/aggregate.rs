//! The result aggregator: a deterministic fold of a scan result into a
//! language-coverage report.
//!
//! For every successful outcome, the endpoint's title is filed under each
//! language code its metadata advertises. Failed outcomes contribute
//! nothing. Locales and the titles under each locale are kept strictly
//! sorted, so they are free of duplicates and render identically from one
//! run to the next.

use vstd::prelude::*;

use crate::model::OutcomeView;
use crate::model::ProbeOutcome;
use crate::model::ScanResult;
use crate::order::lex_lt;
use crate::order::lemma_lex_antisym;
use crate::order::lemma_lex_total;
use crate::order::lemma_lex_trans;
use crate::order::str_lt;

verus! {

/// One line of the report: a language code and every distinct endpoint title
/// that advertises it.
#[derive(Clone, Debug, PartialEq, Eq)]
pub struct ReportEntry {
    pub locale: String,
    pub titles: Vec<String>,
}

/// The language-coverage report: one entry per advertised locale, locales
/// sorted, titles sorted within each entry.
#[derive(Clone, Debug, PartialEq, Eq)]
pub struct Report {
    pub entries: Vec<ReportEntry>,
}

/// The character sequences of a vector of strings.
pub open spec fn string_views(v: Seq<String>) -> Seq<Seq<char>> {
    Seq::new(v.len(), |i: int| v[i]@)
}

/// Strictly ascending in lexicographic order — sorted and duplicate-free.
pub open spec fn strictly_sorted(s: Seq<Seq<char>>) -> bool {
    forall|i: int, j: int| 0 <= i < j < s.len() ==> lex_lt(s[i], s[j])
}

/// Shape invariant of a report's entry list: locales strictly sorted, every
/// entry's titles strictly sorted and nonempty.
pub open spec fn entries_wf(es: Seq<ReportEntry>) -> bool {
    &&& (forall|i: int, j: int|
        0 <= i < j < es.len() ==> lex_lt(es[i].locale@, es[j].locale@))
    &&& (forall|i: int|
        0 <= i < es.len() ==> strictly_sorted(string_views(#[trigger] es[i].titles@)))
    &&& (forall|i: int| 0 <= i < es.len() ==> (#[trigger] es[i].titles@).len() > 0)
}

/// The entry list files `title` under `locale`.
pub open spec fn entries_map(es: Seq<ReportEntry>, locale: Seq<char>, title: Seq<char>) -> bool {
    exists|i: int|
        0 <= i < es.len() && (#[trigger] es[i]).locale@ == locale && string_views(
            es[i].titles@,
        ).contains(title)
}

impl Report {
    /// The report's shape invariant: locales strictly sorted, every entry's
    /// titles strictly sorted and nonempty.
    pub open spec fn wf(self) -> bool {
        entries_wf(self.entries@)
    }

    /// The report files `title` under `locale`.
    pub open spec fn maps(self, locale: Seq<char>, title: Seq<char>) -> bool {
        entries_map(self.entries@, locale, title)
    }
}

/// Some successful outcome of the scan has title `title` and advertises
/// `locale`.
pub open spec fn scan_offers(scan: Seq<OutcomeView>, locale: Seq<char>, title: Seq<char>) -> bool {
    exists|i: int|
        0 <= i < scan.len() && ((#[trigger] scan[i]) matches OutcomeView::Success {
            descriptor,
            metadata,
        } && descriptor.title == title && metadata.supported_languages.contains(locale))
}

/// Like `scan_offers`, restricted to the first `n` outcomes.
pub open spec fn scan_offers_upto(
    scan: Seq<OutcomeView>,
    n: int,
    locale: Seq<char>,
    title: Seq<char>,
) -> bool {
    exists|i: int|
        0 <= i < n && i < scan.len() && ((#[trigger] scan[i]) matches OutcomeView::Success {
            descriptor,
            metadata,
        } && descriptor.title == title && metadata.supported_languages.contains(locale))
}

/// Builds the language-coverage report of a scan: `title` stands under
/// `locale` exactly when some successful outcome has that title and
/// advertises that locale. Failed outcomes contribute nothing, and the
/// report's order does not depend on the scan's: locales and titles come out
/// strictly sorted.
pub fn build_report(scan: &ScanResult) -> (r: Report)
    ensures
        r.wf(),
        forall|l: Seq<char>, t: Seq<char>| r.maps(l, t) <==> scan_offers(scan@, l, t),
{
    let mut entries: Vec<ReportEntry> = Vec::new();
    let n = scan.outcomes.len();
    let mut i: usize = 0;
    while i < n
        invariant
            i <= n,
            n == scan.outcomes@.len(),
            entries_wf(entries@),
            forall|l: Seq<char>, t: Seq<char>|
                entries_map(entries@, l, t) <==> scan_offers_upto(scan@, i as int, l, t),
        decreases n - i,
    {
        match &scan.outcomes[i] {
            ProbeOutcome::Success { descriptor, metadata } => {
                let m = metadata.supported_languages.len();
                let mut j: usize = 0;
                proof {
                    assert(scan@[i as int] == (OutcomeView::Success {
                        descriptor: descriptor@,
                        metadata: metadata@,
                    }));
                }
                while j < m
                    invariant
                        j <= m,
                        i < n,
                        n == scan.outcomes@.len(),
                        m == metadata.supported_languages@.len(),
                        scan@[i as int] == (OutcomeView::Success {
                            descriptor: descriptor@,
                            metadata: metadata@,
                        }),
                        entries_wf(entries@),
                        forall|l: Seq<char>, t: Seq<char>|
                            entries_map(entries@, l, t) <==> (scan_offers_upto(
                                scan@,
                                i as int,
                                l,
                                t,
                            ) || (t == descriptor.title@ && (exists|q: int|
                                0 <= q < j && (#[trigger] metadata.supported_languages@[q])@
                                    == l))),
                    decreases m - j,
                {
                    insert_pair(&mut entries, &metadata.supported_languages[j], &descriptor.title);
                    proof {
                        assert forall|l: Seq<char>, t: Seq<char>|
                            entries_map(entries@, l, t) <==> (scan_offers_upto(
                                scan@,
                                i as int,
                                l,
                                t,
                            ) || (t == descriptor.title@ && (exists|q: int|
                                0 <= q < j + 1 && (#[trigger] metadata.supported_languages@[q])@
                                    == l))) by {
                            if entries_map(entries@, l, t) {
                                if !scan_offers_upto(scan@, i as int, l, t) && l
                                    == metadata.supported_languages@[j as int]@ && t
                                    == descriptor.title@ {
                                    assert(metadata.supported_languages@[j as int]@ == l);
                                }
                            }
                        }
                    }
                    j = j + 1;
                }
                proof {
                    lemma_offers_step_success(
                        scan@,
                        i as int,
                        descriptor@,
                        metadata@,
                        metadata.supported_languages@,
                    );
                    assert forall|l: Seq<char>, t: Seq<char>|
                        entries_map(entries@, l, t) <==> scan_offers_upto(scan@, i + 1, l, t) by {
                        assert(entries_map(entries@, l, t) <==> (scan_offers_upto(
                            scan@,
                            i as int,
                            l,
                            t,
                        ) || (t == descriptor.title@ && (exists|q: int|
                            0 <= q < m && (#[trigger] metadata.supported_languages@[q])@ == l))));
                        assert(scan_offers_upto(scan@, i + 1, l, t) <==> (scan_offers_upto(
                            scan@,
                            i as int,
                            l,
                            t,
                        ) || (t == descriptor@.title && (exists|q: int|
                            0 <= q < metadata.supported_languages@.len() && (#[trigger] metadata.supported_languages@[q])@ == l))));
                    }
                }
            },
            ProbeOutcome::Failure { .. } => {
                proof {
                    assert(scan@[i as int] is Failure);
                    assert forall|l: Seq<char>, t: Seq<char>|
                        scan_offers_upto(scan@, i + 1, l, t) <==> scan_offers_upto(
                            scan@,
                            i as int,
                            l,
                            t,
                        ) by {
                        if scan_offers_upto(scan@, i + 1, l, t) {
                            let w = choose|w: int|
                                0 <= w < i + 1 && w < scan@.len() && ((#[trigger] scan@[w]) matches
                                    OutcomeView::Success { descriptor, metadata }
                                    && descriptor.title == t
                                    && metadata.supported_languages.contains(l));
                            assert(w != i);
                            assert(scan_offers_upto(scan@, i as int, l, t));
                        }
                    }
                }
            },
        }
        i = i + 1;
    }
    proof {
        assert forall|l: Seq<char>, t: Seq<char>|
            scan_offers_upto(scan@, n as int, l, t) == scan_offers(scan@, l, t) by {}
    }
    Report { entries }
}

/// After the inner loop has filed every language of the successful outcome
/// at position `i`, covering one more outcome covers exactly those pairs.
proof fn lemma_offers_step_success(
    scan: Seq<OutcomeView>,
    i: int,
    d: crate::model::DescriptorView,
    md: crate::model::MetadataView,
    langs: Seq<String>,
)
    requires
        0 <= i < scan.len(),
        scan[i] == (OutcomeView::Success { descriptor: d, metadata: md }),
        md.supported_languages == string_views(langs),
    ensures
        forall|l: Seq<char>, t: Seq<char>|
            scan_offers_upto(scan, i + 1, l, t) <==> (scan_offers_upto(scan, i, l, t) || (t
                == d.title && (exists|q: int|
                0 <= q < langs.len() && (#[trigger] langs[q])@ == l))),
{
    assert forall|l: Seq<char>, t: Seq<char>|
        scan_offers_upto(scan, i + 1, l, t) <==> (scan_offers_upto(scan, i, l, t) || (t == d.title
            && (exists|q: int| 0 <= q < langs.len() && (#[trigger] langs[q])@ == l))) by {
        if scan_offers_upto(scan, i + 1, l, t) {
            let w = choose|w: int|
                0 <= w < i + 1 && w < scan.len() && ((#[trigger] scan[w]) matches
                    OutcomeView::Success { descriptor, metadata } && descriptor.title == t
                    && metadata.supported_languages.contains(l));
            if w == i {
                assert(md.supported_languages.contains(l));
                let q = choose|q: int|
                    0 <= q < md.supported_languages.len() && md.supported_languages[q] == l;
                assert(langs[q]@ == l);
            } else {
                assert(scan_offers_upto(scan, i, l, t));
            }
        }
        if scan_offers_upto(scan, i, l, t) {
            assert(scan_offers_upto(scan, i + 1, l, t));
        }
        if t == d.title && (exists|q: int| 0 <= q < langs.len() && (#[trigger] langs[q])@ == l) {
            let q = choose|q: int| 0 <= q < langs.len() && (#[trigger] langs[q])@ == l;
            assert(md.supported_languages[q] == l);
            assert(md.supported_languages.contains(l));
            assert(scan_offers_upto(scan, i + 1, l, t));
        }
    }
}

/// Strict order is irreflexive, so strictly sorted sequences never repeat
/// an element.
proof fn lemma_lex_lt_neq(a: Seq<char>, b: Seq<char>)
    requires
        lex_lt(a, b),
    ensures
        a != b,
{
}

/// Two strictly sorted sequences with the same members are the same
/// sequence.
pub proof fn lemma_sorted_unique(s1: Seq<Seq<char>>, s2: Seq<Seq<char>>)
    requires
        strictly_sorted(s1),
        strictly_sorted(s2),
        forall|x: Seq<char>| s1.contains(x) <==> s2.contains(x),
    ensures
        s1 == s2,
    decreases s1.len(),
{
    if s1.len() == 0 {
        if s2.len() > 0 {
            assert(s2.contains(s2[0]));
            assert(false);
        }
        assert(s1 =~= s2);
    } else if s2.len() == 0 {
        assert(s1.contains(s1[0]));
        assert(false);
    } else {
        // the heads agree: each is a member of the other sequence, and a
        // disagreement would put each strictly below the other
        if s1[0] != s2[0] {
            assert(s1.contains(s1[0]));
            let k = choose|k: int| 0 <= k < s2.len() && s2[k] == s1[0];
            assert(k > 0);
            assert(lex_lt(s2[0], s1[0]));
            assert(s2.contains(s2[0]));
            let w = choose|w: int| 0 <= w < s1.len() && s1[w] == s2[0];
            assert(w > 0);
            assert(lex_lt(s1[0], s2[0]));
            lemma_lex_antisym(s1[0], s2[0]);
            assert(false);
        }
        let t1 = s1.skip(1);
        let t2 = s2.skip(1);
        assert forall|i: int, j: int| 0 <= i < j < t1.len() implies lex_lt(t1[i], t1[j]) by {
            assert(t1[i] == s1[i + 1] && t1[j] == s1[j + 1]);
        }
        assert forall|i: int, j: int| 0 <= i < j < t2.len() implies lex_lt(t2[i], t2[j]) by {
            assert(t2[i] == s2[i + 1] && t2[j] == s2[j + 1]);
        }
        assert forall|x: Seq<char>| t1.contains(x) <==> t2.contains(x) by {
            if t1.contains(x) {
                let w = choose|w: int| 0 <= w < t1.len() && t1[w] == x;
                assert(s1[w + 1] == x);
                assert(s1.contains(x));
                assert(lex_lt(s1[0], s1[w + 1]));
                lemma_lex_lt_neq(s1[0], x);
                let v = choose|v: int| 0 <= v < s2.len() && s2[v] == x;
                assert(v != 0);
                assert(t2[v - 1] == x);
                assert(t2.contains(x));
            }
            if t2.contains(x) {
                let w = choose|w: int| 0 <= w < t2.len() && t2[w] == x;
                assert(s2[w + 1] == x);
                assert(s2.contains(x));
                assert(lex_lt(s2[0], s2[w + 1]));
                lemma_lex_lt_neq(s2[0], x);
                let v = choose|v: int| 0 <= v < s1.len() && s1[v] == x;
                assert(v != 0);
                assert(t1[v - 1] == x);
                assert(t1.contains(x));
            }
        }
        lemma_sorted_unique(t1, t2);
        assert(s1 =~= seq![s1[0]] + t1);
        assert(s2 =~= seq![s2[0]] + t2);
    }
}

/// The locale column of an entry list.
pub open spec fn locales_of(es: Seq<ReportEntry>) -> Seq<Seq<char>> {
    Seq::new(es.len(), |i: int| es[i].locale@)
}

/// Aggregation is a pure function of the scan's content: any two
/// well-formed reports that file exactly the same locale/title pairs are the
/// same report, entry for entry and title for title. In particular, building
/// the report twice from one scan result gives identical reports.
pub proof fn lemma_report_deterministic(r1: Report, r2: Report)
    requires
        r1.wf(),
        r2.wf(),
        forall|l: Seq<char>, t: Seq<char>| r1.maps(l, t) <==> r2.maps(l, t),
    ensures
        r1.entries@.len() == r2.entries@.len(),
        forall|i: int|
            0 <= i < r1.entries@.len() ==> (#[trigger] r1.entries@[i]).locale@
                == r2.entries@[i].locale@ && string_views(r1.entries@[i].titles@) == string_views(
                r2.entries@[i].titles@,
            ),
{
    let e1 = r1.entries@;
    let e2 = r2.entries@;
    let l1 = locales_of(e1);
    let l2 = locales_of(e2);
    // a locale stands in a report exactly when it files some title; titles
    // are nonempty, so the first title is always a witness
    assert forall|x: Seq<char>| l1.contains(x) <==> l2.contains(x) by {
        lemma_locale_member(r1, x);
        lemma_locale_member(r2, x);
        if l1.contains(x) {
            let t = choose|t: Seq<char>| entries_map(e1, x, t);
            assert(r1.maps(x, t));
            assert(r2.maps(x, t));
        }
        if l2.contains(x) {
            let t = choose|t: Seq<char>| entries_map(e2, x, t);
            assert(r2.maps(x, t));
            assert(r1.maps(x, t));
        }
    }
    assert forall|i: int, j: int| 0 <= i < j < l1.len() implies lex_lt(l1[i], l1[j]) by {}
    assert forall|i: int, j: int| 0 <= i < j < l2.len() implies lex_lt(l2[i], l2[j]) by {}
    lemma_sorted_unique(l1, l2);
    assert(e1.len() == e2.len());
    assert forall|i: int|
        0 <= i < e1.len() implies (#[trigger] e1[i]).locale@ == e2[i].locale@ && string_views(
        e1[i].titles@,
    ) == string_views(e2[i].titles@) by {
        assert(l1[i] == l2[i]);
        let loc = e1[i].locale@;
        // within one report an entry's locale picks that entry out uniquely,
        // so a title stands under `loc` exactly when this entry holds it
        assert forall|t: Seq<char>|
            string_views(e1[i].titles@).contains(t) <==> string_views(
            e2[i].titles@,
        ).contains(t) by {
            lemma_entry_member(r1, i, t);
            lemma_entry_member(r2, i, t);
            assert(string_views(e1[i].titles@).contains(t) <==> r1.maps(loc, t));
            assert(string_views(e2[i].titles@).contains(t) <==> r2.maps(loc, t));
        }
        lemma_sorted_unique(string_views(e1[i].titles@), string_views(e2[i].titles@));
    }
}

/// A scan result reloaded from the persisted format aggregates to the very
/// report of the original scan: aggregation depends only on the scan's
/// content, and two scans with the same content admit only one well-formed
/// report between them.
pub proof fn lemma_persisted_report(s1: ScanResult, s2: ScanResult, r1: Report, r2: Report)
    requires
        s1@ == s2@,
        r1.wf(),
        r2.wf(),
        forall|l: Seq<char>, t: Seq<char>| r1.maps(l, t) <==> scan_offers(s1@, l, t),
        forall|l: Seq<char>, t: Seq<char>| r2.maps(l, t) <==> scan_offers(s2@, l, t),
    ensures
        r1.entries@.len() == r2.entries@.len(),
        forall|i: int|
            0 <= i < r1.entries@.len() ==> (#[trigger] r1.entries@[i]).locale@
                == r2.entries@[i].locale@ && string_views(r1.entries@[i].titles@) == string_views(
                r2.entries@[i].titles@,
            ),
{
    assert forall|l: Seq<char>, t: Seq<char>| r1.maps(l, t) <==> r2.maps(l, t) by {
        assert(r1.maps(l, t) <==> scan_offers(s1@, l, t));
        assert(r2.maps(l, t) <==> scan_offers(s2@, l, t));
    }
    lemma_report_deterministic(r1, r2);
}

/// A locale stands in a well-formed report's locale column exactly when the
/// report files some title under it.
proof fn lemma_locale_member(r: Report, x: Seq<char>)
    requires
        r.wf(),
    ensures
        locales_of(r.entries@).contains(x) <==> exists|t: Seq<char>| entries_map(r.entries@, x, t),
{
    let es = r.entries@;
    let ls = locales_of(es);
    if ls.contains(x) {
        let i = choose|i: int| 0 <= i < ls.len() && ls[i] == x;
        assert(es[i].titles@.len() > 0);
        let t = string_views(es[i].titles@)[0];
        assert(string_views(es[i].titles@).contains(t));
        assert(entries_map(es, x, t));
    }
    if exists|t: Seq<char>| entries_map(es, x, t) {
        let t = choose|t: Seq<char>| entries_map(es, x, t);
        let i = choose|i: int|
            0 <= i < es.len() && (#[trigger] es[i]).locale@ == x && string_views(
                es[i].titles@,
            ).contains(t);
        assert(ls[i] == x);
        assert(ls.contains(x));
    }
}

/// In a well-formed report a title stands under entry `i`'s locale exactly
/// when entry `i` itself holds it: strictly sorted locales pick entries out
/// uniquely.
proof fn lemma_entry_member(r: Report, i: int, t: Seq<char>)
    requires
        r.wf(),
        0 <= i < r.entries@.len(),
    ensures
        string_views(r.entries@[i].titles@).contains(t) <==> r.maps(r.entries@[i].locale@, t),
{
    let es = r.entries@;
    let loc = es[i].locale@;
    if r.maps(loc, t) {
        let w = choose|w: int|
            0 <= w < es.len() && (#[trigger] es[w]).locale@ == loc && string_views(
                es[w].titles@,
            ).contains(t);
        if w != i {
            if w < i {
                assert(lex_lt(es[w].locale@, es[i].locale@));
            } else {
                assert(lex_lt(es[i].locale@, es[w].locale@));
            }
            lemma_lex_lt_neq(loc, loc);
            assert(false);
        }
    }
}

/// Inserts `title` into a strictly sorted title list, keeping it sorted and
/// adding nothing else: afterwards the list holds exactly the old titles and
/// `title`.
fn insert_title(titles: &mut Vec<String>, title: &String)
    requires
        strictly_sorted(string_views(old(titles)@)),
    ensures
        strictly_sorted(string_views(final(titles)@)),
        forall|t: Seq<char>|
            string_views(final(titles)@).contains(t) <==> (string_views(old(titles)@).contains(t)
                || t == title@),
        final(titles)@.len() > 0,
{
    let n = titles.len();
    let mut k: usize = 0;
    while k < n && str_lt(titles[k].as_str(), title.as_str())
        invariant
            k <= n,
            n == titles@.len(),
            strictly_sorted(string_views(titles@)),
            forall|i: int| 0 <= i < k ==> lex_lt(string_views(titles@)[i], title@),
        decreases n - k,
    {
        k = k + 1;
    }
    let ghost olds = string_views(titles@);
    if k < n {
        let back_lt = str_lt(title.as_str(), titles[k].as_str());
        if !back_lt {
            // neither order is strict, so this is the same title: nothing to add
            proof {
                if title@ != olds[k as int] {
                    lemma_lex_total(title@, olds[k as int]);
                }
                assert(olds.contains(title@)) by {
                    assert(olds[k as int] == title@);
                }
            }
            return ;
        }
        assert(lex_lt(title@, olds[k as int]));
    }
    // title is absent: everything below k is smaller, everything at or past
    // k is larger
    proof {
        assert forall|i: int| k <= i < n implies lex_lt(title@, olds[i]) by {
            if i > k {
                assert(lex_lt(olds[k as int], olds[i]));
                lemma_lex_trans(title@, olds[k as int], olds[i]);
            }
        }
    }
    titles.insert(k, title.clone());
    proof {
        let news = string_views(titles@);
        assert(news =~= olds.insert(k as int, title@));
        assert forall|i: int, j: int| 0 <= i < j < news.len() implies lex_lt(news[i], news[j]) by {
            if i < k && j == k {
            } else if i == k && j > k {
            } else if j < k {
            } else if i > k {
            } else if i < k && j > k {
                lemma_lex_trans(news[i], title@, news[j]);
            }
        }
        assert forall|t: Seq<char>|
            news.contains(t) <==> (olds.contains(t) || t == title@) by {
            if news.contains(t) {
                let w = choose|w: int| 0 <= w < news.len() && news[w] == t;
                if w < k {
                    assert(olds[w] == t);
                } else if w > k {
                    assert(olds[w - 1] == t);
                }
            }
            if olds.contains(t) {
                let w = choose|w: int| 0 <= w < olds.len() && olds[w] == t;
                if w < k {
                    assert(news[w] == t);
                } else {
                    assert(news[w + 1] == t);
                }
            }
            if t == title@ {
                assert(news[k as int] == t);
            }
        }
    }
}

/// Files `title` under `locale` in a well-formed entry list, keeping it
/// well-formed and changing nothing else: afterwards the list maps exactly
/// the old pairs and `(locale, title)`.
fn insert_pair(entries: &mut Vec<ReportEntry>, locale: &String, title: &String)
    requires
        entries_wf(old(entries)@),
    ensures
        entries_wf(final(entries)@),
        forall|l: Seq<char>, t: Seq<char>|
            entries_map(final(entries)@, l, t) <==> (entries_map(old(entries)@, l, t) || (l
                == locale@ && t == title@)),
{
    let ghost olds = entries@;
    let n = entries.len();
    let mut k: usize = 0;
    while k < n && str_lt(entries[k].locale.as_str(), locale.as_str())
        invariant
            k <= n,
            n == entries@.len(),
            entries@ == olds,
            entries_wf(entries@),
            forall|i: int| 0 <= i < k ==> lex_lt((#[trigger] olds[i]).locale@, locale@),
        decreases n - k,
    {
        k = k + 1;
    }
    if k < n {
        let back_lt = str_lt(locale.as_str(), entries[k].locale.as_str());
        if !back_lt {
            // same locale: extend that entry's title set
            proof {
                if locale@ != olds[k as int].locale@ {
                    lemma_lex_total(locale@, olds[k as int].locale@);
                }
                assert(olds[k as int].locale@ == locale@);
            }
            let mut e = entries.remove(k);
            let ghost old_titles = e.titles@;
            insert_title(&mut e.titles, title);
            let ghost new_entry = e;
            entries.insert(k, e);
            proof {
                assert(entries@ =~= olds.update(k as int, new_entry));
                let news = entries@;
                assert forall|i: int, j: int|
                    0 <= i < j < news.len() implies lex_lt(
                    news[i].locale@,
                    news[j].locale@,
                ) by {
                    assert(news[i].locale@ == olds[i].locale@);
                    assert(news[j].locale@ == olds[j].locale@);
                }
                assert forall|l: Seq<char>, t: Seq<char>|
                    entries_map(news, l, t) <==> (entries_map(olds, l, t) || (l == locale@ && t
                        == title@)) by {
                    if entries_map(news, l, t) {
                        let w = choose|w: int|
                            0 <= w < news.len() && news[w].locale@ == l && string_views(
                                news[w].titles@,
                            ).contains(t);
                        if w != k {
                            assert(olds[w] == news[w]);
                            assert(entries_map(olds, l, t));
                        } else {
                            if string_views(old_titles).contains(t) {
                                assert(olds[k as int].locale@ == l);
                                assert(entries_map(olds, l, t));
                            } else {
                                assert(t == title@ && l == locale@);
                            }
                        }
                    }
                    if entries_map(olds, l, t) {
                        let w = choose|w: int|
                            0 <= w < olds.len() && olds[w].locale@ == l && string_views(
                                olds[w].titles@,
                            ).contains(t);
                        if w != k {
                            assert(news[w] == olds[w]);
                            assert(entries_map(news, l, t));
                        } else {
                            assert(news[w].locale@ == l);
                            assert(string_views(news[w].titles@).contains(t));
                            assert(entries_map(news, l, t));
                        }
                    }
                    if l == locale@ && t == title@ {
                        assert(news[k as int].locale@ == l);
                        assert(string_views(news[k as int].titles@).contains(t));
                        assert(entries_map(news, l, t));
                    }
                }
            }
            return ;
        }
        assert(lex_lt(locale@, olds[k as int].locale@));
    }
    // locale is absent: a fresh entry goes in at position k
    proof {
        assert forall|i: int| k <= i < n implies lex_lt(locale@, olds[i].locale@) by {
            if i > k {
                assert(lex_lt(olds[k as int].locale@, olds[i].locale@));
                lemma_lex_trans(locale@, olds[k as int].locale@, olds[i].locale@);
            }
        }
    }
    let mut ts: Vec<String> = Vec::new();
    ts.push(title.clone());
    let e = ReportEntry { locale: locale.clone(), titles: ts };
    let ghost new_entry = e;
    entries.insert(k, e);
    proof {
        let news = entries@;
        assert(news =~= olds.insert(k as int, new_entry));
        assert(string_views(new_entry.titles@) =~= seq![title@]);
        assert forall|t: Seq<char>|
            string_views(new_entry.titles@).contains(t) <==> t == title@ by {
            if t == title@ {
                assert(string_views(new_entry.titles@)[0] == t);
            }
        }
        assert forall|i: int, j: int|
            0 <= i < j < news.len() implies lex_lt(news[i].locale@, news[j].locale@) by {
            if j < k {
            } else if i > k {
            } else if i < k && j == k {
            } else if i == k && j > k {
            } else if i < k && j > k {
                lemma_lex_trans(news[i].locale@, locale@, news[j].locale@);
            }
        }
        assert forall|l: Seq<char>, t: Seq<char>|
            entries_map(news, l, t) <==> (entries_map(olds, l, t) || (l == locale@ && t
                == title@)) by {
            if entries_map(news, l, t) {
                let w = choose|w: int|
                    0 <= w < news.len() && news[w].locale@ == l && string_views(
                        news[w].titles@,
                    ).contains(t);
                if w < k {
                    assert(olds[w] == news[w]);
                    assert(entries_map(olds, l, t));
                } else if w > k {
                    assert(olds[w - 1] == news[w]);
                    assert(entries_map(olds, l, t));
                }
            }
            if entries_map(olds, l, t) {
                let w = choose|w: int|
                    0 <= w < olds.len() && olds[w].locale@ == l && string_views(
                        olds[w].titles@,
                    ).contains(t);
                if w < k {
                    assert(news[w] == olds[w]);
                    assert(entries_map(news, l, t));
                } else {
                    assert(news[w + 1] == olds[w]);
                    assert(entries_map(news, l, t));
                }
            }
            if l == locale@ && t == title@ {
                assert(news[k as int].locale@ == l);
                assert(entries_map(news, l, t));
            }
        }
    }
}

} // verus!
