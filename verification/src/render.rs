//! Textual rendering of a report.
//!
//! Every locale gets a block of its own: the locale, the number of endpoint
//! titles under it, then one indented line per title; blocks are separated
//! by a blank line. The report's entries are already sorted, so the text is
//! identical from one run to the next.

use vstd::prelude::*;

use crate::aggregate::Report;
use crate::aggregate::ReportEntry;
use crate::aggregate::string_views;
use crate::codec::digit_char;
use crate::codec::push_char;

verus! {

/// `n` in ordinary decimal, without leading zeros.
pub open spec fn dec_min(n: int) -> Seq<char>
    decreases n,
{
    if n < 10 {
        seq![digit_char(n)]
    } else {
        dec_min(n / 10).push(digit_char(n % 10))
    }
}

/// The elements of `v` with `sep` between each two neighbours.
pub open spec fn spec_join(v: Seq<Seq<char>>, sep: Seq<char>) -> Seq<char>
    decreases v.len(),
{
    if v.len() == 0 {
        Seq::empty()
    } else if v.len() == 1 {
        v[0]
    } else {
        v[0] + sep + spec_join(v.skip(1), sep)
    }
}

/// Joining one more element appends a separator and the element.
pub proof fn lemma_spec_join_push(v: Seq<Seq<char>>, sep: Seq<char>, x: Seq<char>)
    requires
        v.len() >= 1,
    ensures
        spec_join(v.push(x), sep) == spec_join(v, sep) + sep + x,
    decreases v.len(),
{
    if v.len() == 1 {
        assert(v.push(x)[0] == v[0]);
        assert(v.push(x).skip(1) =~= seq![x]);
        assert(spec_join(v.push(x).skip(1), sep) == x);
        assert(spec_join(v.push(x), sep) == v[0] + sep + x);
    } else {
        assert(v.push(x)[0] == v[0]);
        assert(v.push(x).skip(1) =~= v.skip(1).push(x));
        lemma_spec_join_push(v.skip(1), sep, x);
        assert(v[0] + sep + (spec_join(v.skip(1), sep) + sep + x) =~= (v[0] + sep + spec_join(
            v.skip(1),
            sep,
        )) + sep + x);
    }
}

/// One entry's block of text.
pub open spec fn render_entry(e: ReportEntry) -> Seq<char> {
    e.locale@ + " ("@ + dec_min(e.titles@.len() as int) + "):\n  "@ + spec_join(
        string_views(e.titles@),
        "\n  "@,
    ) + "\n\n"@
}

/// The whole report: every entry's block, blocks separated by a blank line.
pub open spec fn spec_render_report(es: Seq<ReportEntry>) -> Seq<char> {
    spec_join(Seq::new(es.len(), |i: int| render_entry(es[i])), "\n"@)
}

/// Appends `n` in ordinary decimal.
fn push_dec(out: &mut String, n: usize)
    ensures
        final(out)@ == old(out)@ + dec_min(n as int),
    decreases n,
{
    if n < 10 {
        let c = (48 + (n as u8)) as char;
        assert(c == digit_char(n as int));
        push_char(out, c);
        assert(old(out)@.push(c) =~= old(out)@ + seq![c]);
    } else {
        push_dec(out, n / 10);
        let d = n % 10;
        let c = (48 + (d as u8)) as char;
        assert(c == digit_char(d as int));
        push_char(out, c);
        assert((old(out)@ + dec_min((n / 10) as int)).push(c) =~= old(out)@ + dec_min(n as int));
    }
}

/// Appends one entry's block.
fn push_entry(out: &mut String, e: &ReportEntry)
    ensures
        final(out)@ == old(out)@ + render_entry(*e),
{
    out.append(e.locale.as_str());
    out.append(" (");
    push_dec(out, e.titles.len());
    out.append("):\n  ");
    let ghost views = string_views(e.titles@);
    let ghost base = out@;
    let n = e.titles.len();
    let mut i: usize = 0;
    while i < n
        invariant
            i <= n,
            n == e.titles@.len(),
            views == string_views(e.titles@),
            out@ == base + spec_join(views.take(i as int), "\n  "@),
        decreases n - i,
    {
        if i > 0 {
            out.append("\n  ");
        }
        out.append(e.titles[i].as_str());
        proof {
            if i == 0 {
                assert(views.take(1) =~= seq![views[0]]);
                assert(spec_join(views.take(0), "\n  "@) == Seq::<char>::empty());
                assert(base + Seq::<char>::empty() =~= base);
                assert(base + spec_join(views.take(1), "\n  "@) =~= base + views[0]);
            } else {
                assert(views.take(i + 1) =~= views.take(i as int).push(views[i as int]));
                lemma_spec_join_push(views.take(i as int), "\n  "@, views[i as int]);
                assert(((base + spec_join(views.take(i as int), "\n  "@)) + "\n  "@)
                    + views[i as int] =~= base + spec_join(views.take(i + 1), "\n  "@));
            }
        }
        i = i + 1;
    }
    out.append("\n\n");
    proof {
        assert(views.take(n as int) =~= views);
        assert(final(out)@ =~= old(out)@ + render_entry(*e));
    }
}

/// Renders the whole report as text, one block per locale.
pub fn render_report(r: &Report) -> (out: String)
    ensures
        out@ == spec_render_report(r.entries@),
{
    let mut out = String::new();
    let ghost blocks = Seq::new(r.entries@.len(), |i: int| render_entry(r.entries@[i]));
    let n = r.entries.len();
    let mut i: usize = 0;
    while i < n
        invariant
            i <= n,
            n == r.entries@.len(),
            blocks == Seq::new(r.entries@.len(), |j: int| render_entry(r.entries@[j])),
            out@ == spec_join(blocks.take(i as int), "\n"@),
        decreases n - i,
    {
        if i > 0 {
            out.append("\n");
        }
        push_entry(&mut out, &r.entries[i]);
        proof {
            if i == 0 {
                assert(blocks.take(1) =~= seq![blocks[0]]);
                assert(spec_join(blocks.take(0), "\n"@) == Seq::<char>::empty());
                assert(Seq::<char>::empty() + render_entry(r.entries@[0]) =~= blocks[0]);
            } else {
                assert(blocks.take(i + 1) =~= blocks.take(i as int).push(blocks[i as int]));
                lemma_spec_join_push(blocks.take(i as int), "\n"@, blocks[i as int]);
                assert((spec_join(blocks.take(i as int), "\n"@) + "\n"@) + render_entry(
                    r.entries@[i as int],
                ) =~= spec_join(blocks.take(i + 1), "\n"@));
            }
        }
        i = i + 1;
    }
    proof {
        assert(blocks.take(n as int) =~= blocks);
    }
    out
}

} // verus!
