//! The persisted scan format.
//!
//! A scan result can be written out as text and read back later to build a
//! report without scanning again. Every piece of the format is
//! length-prefixed with a fixed-width decimal count, so the format is
//! canonical: decoding accepts exactly the encodings, and decoding an
//! encoding gives back the very scan that was written.

use vstd::prelude::*;

use crate::model::DescriptorView;
use crate::model::EndpointDescriptor;
use crate::model::MetadataRecord;
use crate::model::MetadataView;
use crate::model::OutcomeView;
use crate::model::ProbeError;
use crate::model::ProbeOutcome;
use crate::model::ScanResult;
use crate::model::opt_string_view;
use vstd::arithmetic::div_mod::lemma_div_pos_is_pos;
use vstd::arithmetic::div_mod::lemma_fundamental_div_mod;
use vstd::arithmetic::div_mod::lemma_fundamental_div_mod_converse;
use vstd::arithmetic::div_mod::lemma_mod_bound;
use vstd::arithmetic::div_mod::lemma_multiply_divide_lt;
use vstd::utf8::char_u32_cast;
use vstd::string::StrSliceExecFns;
use vstd::string::StringExecFns;
use crate::aggregate::string_views;

verus! {

/// Width of every number in the format: enough decimal digits for any
/// machine-sized length.
pub open spec fn num_width() -> nat {
    20
}

/// The decimal digit character for `d`.
pub open spec fn digit_char(d: int) -> char {
    ((48 + d) as u8) as char
}

/// The value of a decimal digit character.
pub open spec fn digit_val(c: char) -> int {
    (c as u32) - 48
}

pub open spec fn is_digit(c: char) -> bool {
    48 <= (c as u32) <= 57
}

pub open spec fn all_digits(ds: Seq<char>) -> bool {
    forall|i: int| 0 <= i < ds.len() ==> is_digit(#[trigger] ds[i])
}

/// `n` written as exactly `w` decimal digits, most significant first.
pub open spec fn dec_fixed(n: int, w: nat) -> Seq<char>
    decreases w,
{
    if w == 0 {
        Seq::empty()
    } else {
        dec_fixed(n / 10, (w - 1) as nat).push(digit_char(n % 10))
    }
}

/// The number a digit string denotes.
pub open spec fn digits_val(ds: Seq<char>) -> int
    decreases ds.len(),
{
    if ds.len() == 0 {
        0
    } else {
        digits_val(ds.drop_last()) * 10 + digit_val(ds.last())
    }
}

pub open spec fn pow10(w: nat) -> int
    decreases w,
{
    if w == 0 {
        1
    } else {
        10 * pow10((w - 1) as nat)
    }
}

/// Fixed-width rendering has the announced width, is all digits, and
/// denotes `n` again whenever `n` fits the width.
pub proof fn lemma_dec_fixed_props(n: int, w: nat)
    requires
        0 <= n,
    ensures
        dec_fixed(n, w).len() == w,
        all_digits(dec_fixed(n, w)),
        n < pow10(w) ==> digits_val(dec_fixed(n, w)) == n,
    decreases w,
{
    if w > 0 {
        let d = n % 10;
        let q = n / 10;
        lemma_mod_bound(n, 10);
        lemma_div_pos_is_pos(n, 10);
        lemma_dec_fixed_props(q, (w - 1) as nat);
        let ds = dec_fixed(n, w);
        assert(ds.drop_last() =~= dec_fixed(q, (w - 1) as nat));
        assert(ds.last() == digit_char(d));
        assert(is_digit(digit_char(d)));
        assert forall|i: int| 0 <= i < ds.len() implies is_digit(#[trigger] ds[i]) by {
            if i < ds.len() - 1 {
                assert(ds[i] == dec_fixed(q, (w - 1) as nat)[i]);
            }
        }
        if n < pow10(w) {
            lemma_multiply_divide_lt(n, 10, pow10((w - 1) as nat));
            assert(q < pow10((w - 1) as nat));
            assert(digit_val(digit_char(d)) == d);
            assert(digits_val(ds) == q * 10 + d);
            lemma_fundamental_div_mod(n, 10);
            assert(q * 10 + d == n);
        }
    }
}

/// A digit string is the fixed-width rendering of its own value: the format
/// has one spelling per number.
pub proof fn lemma_digits_canonical(ds: Seq<char>)
    requires
        all_digits(ds),
    ensures
        0 <= digits_val(ds) < pow10(ds.len()),
        dec_fixed(digits_val(ds), ds.len()) == ds,
    decreases ds.len(),
{
    if ds.len() == 0 {
        assert(dec_fixed(0, 0) =~= ds);
    } else {
        let dl = ds.drop_last();
        let c = ds.last();
        assert(is_digit(c));
        let d = digit_val(c);
        lemma_digits_canonical(dl);
        let a = digits_val(dl);
        let v = digits_val(ds);
        assert(v == a * 10 + d);
        lemma_pow10_pos(dl.len());
        lemma_fundamental_div_mod_converse(v, 10, a, d);
        assert(0 <= v && v < 10 * pow10(dl.len()) && v / 10 == a && v % 10 == d);
        char_u32_cast(c, c as u32);
        assert(digit_char(digit_val(c)) == c);
        assert(dec_fixed(v, ds.len()) =~= dec_fixed(a, dl.len()).push(digit_char(d)));
        assert(dec_fixed(v, ds.len()) =~= ds);
    }
}

/// Every machine-sized number fits the format's fixed width.
pub proof fn lemma_pow10_width()
    ensures
        u64::MAX < pow10(num_width()),
{
    reveal_with_fuel(pow10, 21);
    assert(pow10(20) == 100000000000000000000int);
}

pub proof fn lemma_pow10_pos(w: nat)
    ensures
        pow10(w) >= 1,
    decreases w,
{
    if w > 0 {
        lemma_pow10_pos((w - 1) as nat);
    }
}

/// A digit string's prefixes denote no more than the whole.
pub proof fn lemma_digits_val_take_le(ds: Seq<char>, q: int)
    requires
        all_digits(ds),
        0 <= q <= ds.len(),
    ensures
        0 <= digits_val(ds.take(q)) <= digits_val(ds),
    decreases ds.len(),
{
    lemma_digits_canonical(ds);
    if q == ds.len() {
        assert(ds.take(q) =~= ds);
    } else {
        let dl = ds.drop_last();
        assert(forall|i: int| 0 <= i < dl.len() ==> dl[i] == ds[i]);
        lemma_digits_val_take_le(dl, q);
        assert(ds.take(q) =~= dl.take(q));
        lemma_digits_canonical(dl);
        assert(digits_val(dl) * 10 + digit_val(ds.last()) >= digits_val(dl));
    }
}

/// Relies on `String::push`: appends one character at the end of the
/// string.
#[verifier::external_body]
pub(crate) fn push_char(out: &mut String, c: char)
    ensures
        final(out)@ == old(out)@.push(c),
{
    out.push(c);
}

/// Appends `n` as exactly `w` decimal digits.
fn push_nat_fixed(out: &mut String, n: u64, w: u64)
    ensures
        final(out)@ == old(out)@ + dec_fixed(n as int, w as nat),
    decreases w,
{
    if w == 0 {
        assert(old(out)@ + dec_fixed(n as int, 0) =~= old(out)@);
    } else {
        let q = n / 10;
        let d = n % 10;
        push_nat_fixed(out, q, w - 1);
        let c = (48 + (d as u8)) as char;
        assert(c == digit_char(d as int));
        push_char(out, c);
        assert(old(out)@ + dec_fixed(n as int, w as nat) =~= (old(out)@ + dec_fixed(
            q as int,
            (w - 1) as nat,
        )).push(digit_char(d as int)));
    }
}

/// A string in the format: its character count, then its characters.
pub open spec fn enc_str(s: Seq<char>) -> Seq<char> {
    dec_fixed(s.len() as int, num_width()) + s
}

/// An optional string: `-` for absent, `+` and the string for present.
pub open spec fn enc_opt_str(o: Option<Seq<char>>) -> Seq<char> {
    match o {
        Option::None => seq!['-'],
        Option::Some(s) => seq!['+'] + enc_str(s),
    }
}

/// A run of strings, one after the other.
pub open spec fn enc_str_list(v: Seq<Seq<char>>) -> Seq<char>
    decreases v.len(),
{
    if v.len() == 0 {
        Seq::empty()
    } else {
        enc_str(v[0]) + enc_str_list(v.skip(1))
    }
}

/// A counted list of strings.
pub open spec fn enc_langs(v: Seq<Seq<char>>) -> Seq<char> {
    dec_fixed(v.len() as int, num_width()) + enc_str_list(v)
}

/// A descriptor: its four fields in order.
pub open spec fn enc_descriptor(d: DescriptorView) -> Seq<char> {
    enc_opt_str(d.onion_name) + enc_str(d.title) + enc_str(d.landing_page_url) + enc_str(
        d.onion_address,
    )
}

/// A probe error: one tag character.
pub open spec fn enc_error(e: ProbeError) -> Seq<char> {
    match e {
        ProbeError::Unreachable => seq!['u'],
        ProbeError::Timeout => seq!['t'],
        ProbeError::Malformed => seq!['m'],
        ProbeError::HttpError => seq!['h'],
    }
}

/// A metadata record: its six fields in order.
pub open spec fn enc_metadata(m: MetadataView) -> Seq<char> {
    enc_str(m.sd_version) + enc_str(m.server_os) + enc_str(m.gpg_fpr) + enc_opt_str(
        m.v2_source_url,
    ) + enc_str(m.v3_source_url) + enc_langs(m.supported_languages)
}

/// An outcome: `S` with descriptor and metadata, or `F` with descriptor and
/// error tag.
pub open spec fn enc_outcome(o: OutcomeView) -> Seq<char> {
    match o {
        OutcomeView::Success { descriptor, metadata } => seq!['S'] + enc_descriptor(descriptor)
            + enc_metadata(metadata),
        OutcomeView::Failure { descriptor, error } => seq!['F'] + enc_descriptor(descriptor)
            + enc_error(error),
    }
}

/// A run of outcomes, one after the other.
pub open spec fn enc_outcome_list(v: Seq<OutcomeView>) -> Seq<char>
    decreases v.len(),
{
    if v.len() == 0 {
        Seq::empty()
    } else {
        enc_outcome(v[0]) + enc_outcome_list(v.skip(1))
    }
}

/// The whole persisted scan: the outcome count, then every outcome.
pub open spec fn spec_encode_scan(v: Seq<OutcomeView>) -> Seq<char> {
    dec_fixed(v.len() as int, num_width()) + enc_outcome_list(v)
}

/// `p` stands at position `pos` of `s`.
pub open spec fn has_prefix(s: Seq<char>, pos: int, p: Seq<char>) -> bool {
    0 <= pos && pos + p.len() <= s.len() && s.subrange(pos, pos + p.len()) == p
}

/// A prefix made of two parts puts the first part at `pos` and the second
/// right behind it.
pub proof fn lemma_prefix_split(s: Seq<char>, pos: int, a: Seq<char>, b: Seq<char>)
    requires
        has_prefix(s, pos, a + b),
    ensures
        has_prefix(s, pos, a),
        has_prefix(s, pos + a.len(), b),
{
    assert(s.subrange(pos, pos + a.len()) =~= (a + b).subrange(0, a.len() as int));
    assert((a + b).subrange(0, a.len() as int) =~= a);
    assert(s.subrange(pos + a.len(), pos + a.len() + b.len()) =~= (a + b).subrange(
        a.len() as int,
        (a + b).len() as int,
    ));
    assert((a + b).subrange(a.len() as int, (a + b).len() as int) =~= b);
}

/// Growing a string list grows its encoding at the end.
pub proof fn lemma_enc_str_list_push(v: Seq<Seq<char>>, x: Seq<char>)
    ensures
        enc_str_list(v.push(x)) == enc_str_list(v) + enc_str(x),
    decreases v.len(),
{
    if v.len() == 0 {
        assert(v.push(x)[0] == x);
        assert(v.push(x).skip(1) =~= Seq::<Seq<char>>::empty());
        assert(v.push(x).skip(1) == Seq::<Seq<char>>::empty());
        assert(enc_str_list(Seq::<Seq<char>>::empty()) == Seq::<char>::empty());
        assert(enc_str_list(v.push(x)) == enc_str(x) + Seq::<char>::empty());
        assert(enc_str(x) + Seq::<char>::empty() =~= enc_str(x));
        assert(enc_str_list(v) + enc_str(x) =~= enc_str(x));
    } else {
        assert(v.push(x)[0] == v[0]);
        assert(v.push(x).skip(1) =~= v.skip(1).push(x));
        lemma_enc_str_list_push(v.skip(1), x);
        assert(enc_str_list(v.push(x)) =~= enc_str_list(v) + enc_str(x));
    }
}

/// Growing an outcome list grows its encoding at the end.
pub proof fn lemma_enc_outcome_list_push(v: Seq<OutcomeView>, x: OutcomeView)
    ensures
        enc_outcome_list(v.push(x)) == enc_outcome_list(v) + enc_outcome(x),
    decreases v.len(),
{
    if v.len() == 0 {
        assert(v.push(x)[0] == x);
        assert(v.push(x).skip(1) =~= Seq::<OutcomeView>::empty());
        assert(v.push(x).skip(1) == Seq::<OutcomeView>::empty());
        assert(enc_outcome_list(Seq::<OutcomeView>::empty()) == Seq::<char>::empty());
        assert(enc_outcome_list(v.push(x)) == enc_outcome(x) + Seq::<char>::empty());
        assert(enc_outcome(x) + Seq::<char>::empty() =~= enc_outcome(x));
        assert(enc_outcome_list(v) + enc_outcome(x) =~= enc_outcome(x));
    } else {
        assert(v.push(x)[0] == v[0]);
        assert(v.push(x).skip(1) =~= v.skip(1).push(x));
        lemma_enc_outcome_list_push(v.skip(1), x);
        assert(enc_outcome_list(v.push(x)) =~= enc_outcome_list(v) + enc_outcome(x));
    }
}

/// Reads the fixed-width number at `pos`: exactly the fixed-width digit
/// strings are accepted, each denoting one number.
fn parse_nat(s: &Vec<char>, pos: usize) -> (r: Option<(u64, usize)>)
    requires
        pos <= s@.len(),
    ensures
        (r matches Some(p) ==> p.1 == pos + num_width() && p.1 <= s@.len() && s@.subrange(
            pos as int,
            p.1 as int,
        ) == dec_fixed(p.0 as int, num_width())),
        forall|v: u64|
            (pos + num_width() <= s@.len() && s@.subrange(pos as int, pos + num_width()) == dec_fixed(
                v as int,
                num_width(),
            )) ==> r == Some((v, (pos + num_width()) as usize)),
{
    if s.len() - pos < 20 {
        return Option::None;
    }
    let ghost goal: Seq<char> = s@.subrange(pos as int, pos + num_width());
    proof {
        assert(goal.len() == num_width());
    }
    let n_len = s.len();
    let mut acc: u64 = 0;
    let mut q: usize = 0;
    while q < 20
        invariant
            0 <= q <= 20,
            n_len == s@.len(),
            pos + 20 <= s@.len(),
            goal == s@.subrange(pos as int, pos + 20),
            all_digits(goal.take(q as int)),
            acc as int == digits_val(goal.take(q as int)),
        decreases 20 - q,
    {
        let c = s[pos + q];
        proof {
            assert(goal[q as int] == c);
        }
        let cv = c as u32;
        if cv < 48 || cv > 57 {
            proof {
                assert(!is_digit(c));
                assert forall|v: u64|
                    !(pos + num_width() <= s@.len() && s@.subrange(pos as int, pos + num_width())
                        == dec_fixed(v as int, num_width())) by {
                    if s@.subrange(pos as int, pos + num_width()) == dec_fixed(
                        v as int,
                        num_width(),
                    ) {
                        lemma_dec_fixed_props(v as int, num_width());
                        assert(is_digit(goal[q as int]));
                        assert(false);
                    }
                }
            }
            return Option::None;
        }
        let d = (cv - 48) as u64;
        proof {
            assert(is_digit(c));
            assert(d as int == digit_val(c));
            assert(goal.take(q + 1).drop_last() =~= goal.take(q as int));
            assert(goal.take(q + 1).last() == c);
        }
        if acc > (u64::MAX - d) / 10 {
            proof {
                assert forall|v: u64|
                    !(pos + num_width() <= s@.len() && s@.subrange(pos as int, pos + num_width())
                        == dec_fixed(v as int, num_width())) by {
                    if s@.subrange(pos as int, pos + num_width()) == dec_fixed(
                        v as int,
                        num_width(),
                    ) {
                        lemma_pow10_width();
                        lemma_dec_fixed_props(v as int, num_width());
                        lemma_digits_val_take_le(goal, q + 1);
                        assert(digits_val(goal) == v);
                        assert(digits_val(goal.take(q + 1)) == acc * 10 + d);
                        assert(acc * 10 + d <= v as int);
                        assert(acc as int <= ((u64::MAX - d) / 10) as int) by (nonlinear_arith)
                            requires
                                acc * 10 + d <= u64::MAX as int,
                                0 <= d <= 9,
                                0 <= acc,
                        ;
                        assert(false);
                    }
                }
            }
            return Option::None;
        }
        acc = acc * 10 + d;
        q = q + 1;
    }
    proof {
        assert(goal.take(20) =~= goal);
        lemma_digits_canonical(goal);
        assert(dec_fixed(acc as int, num_width()) == goal);
        assert forall|v: u64|
            (pos + num_width() <= s@.len() && s@.subrange(pos as int, pos + num_width()) == dec_fixed(
                v as int,
                num_width(),
            )) implies acc == v by {
            lemma_pow10_width();
            lemma_dec_fixed_props(v as int, num_width());
            assert(digits_val(goal) == v as int);
        }
    }
    Option::Some((acc, pos + 20))
}

/// Appends a length-prefixed string.
fn push_string(out: &mut String, s: &String)
    ensures
        final(out)@ == old(out)@ + enc_str(s@),
{
    let n = s.as_str().unicode_len();
    push_nat_fixed(out, n as u64, 20);
    out.append(s.as_str());
    proof {
        assert((old(out)@ + dec_fixed(n as int, num_width())) + s@ =~= old(out)@ + enc_str(s@));
    }
}

/// Appends an optional string behind its presence tag.
fn push_opt_string(out: &mut String, o: &Option<String>)
    ensures
        final(out)@ == old(out)@ + enc_opt_str(opt_string_view(*o)),
{
    match o {
        Option::None => {
            push_char(out, '-');
            proof {
                assert(old(out)@.push('-') =~= old(out)@ + seq!['-']);
            }
        },
        Option::Some(s) => {
            push_char(out, '+');
            let ghost mid = out@;
            proof {
                assert(mid =~= old(out)@ + seq!['+']);
            }
            push_string(out, s);
            proof {
                assert((old(out)@ + seq!['+']) + enc_str(s@) =~= old(out)@ + (seq!['+'] + enc_str(
                    s@,
                )));
            }
        },
    }
}

/// Appends a probe error's tag character.
fn push_error(out: &mut String, e: &ProbeError)
    ensures
        final(out)@ == old(out)@ + enc_error(*e),
{
    let c = match e {
        ProbeError::Unreachable => 'u',
        ProbeError::Timeout => 't',
        ProbeError::Malformed => 'm',
        ProbeError::HttpError => 'h',
    };
    push_char(out, c);
    proof {
        assert(old(out)@.push(c) =~= old(out)@ + seq![c]);
        assert(seq![c] =~= enc_error(*e));
    }
}

/// Appends a descriptor, field by field.
fn push_descriptor(out: &mut String, d: &EndpointDescriptor)
    ensures
        final(out)@ == old(out)@ + enc_descriptor(d@),
{
    push_opt_string(out, &d.onion_name);
    push_string(out, &d.title);
    push_string(out, &d.landing_page_url);
    push_string(out, &d.onion_address);
    proof {
        assert(final(out)@ =~= old(out)@ + enc_descriptor(d@));
    }
}

/// Appends a counted list of language codes.
fn push_langs(out: &mut String, v: &Vec<String>)
    ensures
        final(out)@ == old(out)@ + enc_langs(string_views(v@)),
{
    let n = v.len();
    push_nat_fixed(out, n as u64, 20);
    let ghost base = out@;
    let ghost views = string_views(v@);
    let mut i: usize = 0;
    while i < n
        invariant
            i <= n,
            n == v@.len(),
            views == string_views(v@),
            base == old(out)@ + dec_fixed(n as int, num_width()),
            out@ == base + enc_str_list(views.take(i as int)),
        decreases n - i,
    {
        push_string(out, &v[i]);
        proof {
            lemma_enc_str_list_push(views.take(i as int), views[i as int]);
            assert(views.take(i + 1) =~= views.take(i as int).push(views[i as int]));
            assert((base + enc_str_list(views.take(i as int))) + enc_str(v@[i as int]@) =~= base
                + enc_str_list(views.take(i + 1)));
        }
        i = i + 1;
    }
    proof {
        assert(views.take(n as int) =~= views);
        assert(base + enc_str_list(views) =~= old(out)@ + enc_langs(views));
    }
}

/// Appends a metadata record, field by field.
fn push_metadata(out: &mut String, m: &MetadataRecord)
    ensures
        final(out)@ == old(out)@ + enc_metadata(m@),
{
    push_string(out, &m.sd_version);
    push_string(out, &m.server_os);
    push_string(out, &m.gpg_fpr);
    push_opt_string(out, &m.v2_source_url);
    push_string(out, &m.v3_source_url);
    push_langs(out, &m.supported_languages);
    proof {
        assert(m@.supported_languages =~= string_views(m.supported_languages@));
        assert(enc_langs(string_views(m.supported_languages@)) == enc_langs(
            m@.supported_languages,
        ));
        assert(final(out)@ =~= old(out)@ + enc_metadata(m@));
    }
}

/// Appends one outcome behind its success-or-failure tag.
fn push_outcome(out: &mut String, o: &ProbeOutcome)
    ensures
        final(out)@ == old(out)@ + enc_outcome(o@),
{
    match o {
        ProbeOutcome::Success { descriptor, metadata } => {
            push_char(out, 'S');
            push_descriptor(out, descriptor);
            push_metadata(out, metadata);
            proof {
                assert(old(out)@.push('S') =~= old(out)@ + seq!['S']);
                assert(final(out)@ =~= old(out)@ + enc_outcome(o@));
            }
        },
        ProbeOutcome::Failure { descriptor, error } => {
            push_char(out, 'F');
            push_descriptor(out, descriptor);
            push_error(out, error);
            proof {
                assert(old(out)@.push('F') =~= old(out)@ + seq!['F']);
                assert(final(out)@ =~= old(out)@ + enc_outcome(o@));
            }
        },
    }
}

/// Writes a scan result out in the persisted format.
pub fn encode_scan(scan: &ScanResult) -> (r: String)
    ensures
        r@ == spec_encode_scan(scan@),
{
    let mut out = String::new();
    let n = scan.outcomes.len();
    push_nat_fixed(&mut out, n as u64, 20);
    let ghost base = out@;
    let ghost views = scan@;
    let mut i: usize = 0;
    while i < n
        invariant
            i <= n,
            n == scan.outcomes@.len(),
            views == scan@,
            base == dec_fixed(n as int, num_width()),
            out@ == base + enc_outcome_list(views.take(i as int)),
        decreases n - i,
    {
        push_outcome(&mut out, &scan.outcomes[i]);
        proof {
            assert(views[i as int] == scan.outcomes@[i as int]@);
            lemma_enc_outcome_list_push(views.take(i as int), views[i as int]);
            assert(views.take(i + 1) =~= views.take(i as int).push(views[i as int]));
            assert((base + enc_outcome_list(views.take(i as int))) + enc_outcome(
                scan.outcomes@[i as int]@,
            ) =~= base + enc_outcome_list(views.take(i + 1)));
        }
        i = i + 1;
    }
    proof {
        assert(views.take(n as int) =~= views);
        assert(base + enc_outcome_list(views) =~= spec_encode_scan(scan@));
    }
    out
}

/// Reads the length-prefixed string at `pos`: exactly the string encodings
/// are accepted, each the encoding of the returned string.
fn parse_string(s: &Vec<char>, pos: usize) -> (r: Option<(String, usize)>)
    requires
        pos <= s@.len(),
    ensures
        (r matches Some(p) ==> pos <= p.1 <= s@.len() && s@.subrange(pos as int, p.1 as int)
            == enc_str(p.0@)),
        forall|g: Seq<char>|
            has_prefix(s@, pos as int, enc_str(g)) ==> (r matches Some(p) && p.0@ == g && p.1
                == pos + enc_str(g).len()),
{
    let total = s.len();
    let r_nat = parse_nat(s, pos);
    match r_nat {
        Option::None => {
            proof {
                assert forall|g: Seq<char>| !has_prefix(s@, pos as int, enc_str(g)) by {
                    if has_prefix(s@, pos as int, enc_str(g)) {
                        lemma_prefix_split(
                            s@,
                            pos as int,
                            dec_fixed(g.len() as int, num_width()),
                            g,
                        );
                        lemma_dec_fixed_props(g.len() as int, num_width());
                        let v = g.len() as u64;
                        assert(v as int == g.len() as int);
                        assert(s@.subrange(pos as int, pos + num_width()) == dec_fixed(
                            v as int,
                            num_width(),
                        ));
                        assert(false);
                    }
                }
            }
            Option::None
        },
        Option::Some((count, p1)) => {
            if count > (total - p1) as u64 {
                proof {
                    assert forall|g: Seq<char>| !has_prefix(s@, pos as int, enc_str(g)) by {
                        if has_prefix(s@, pos as int, enc_str(g)) {
                            lemma_prefix_split(
                                s@,
                                pos as int,
                                dec_fixed(g.len() as int, num_width()),
                                g,
                            );
                            lemma_dec_fixed_props(g.len() as int, num_width());
                            let v = g.len() as u64;
                            assert(v as int == g.len() as int);
                            assert(s@.subrange(pos as int, pos + num_width()) == dec_fixed(
                                v as int,
                                num_width(),
                            ));
                            assert(count == v);
                            assert(false);
                        }
                    }
                }
                Option::None
            } else {
                let cnt = count as usize;
                let mut out = String::new();
                let mut j: usize = 0;
                while j < cnt
                    invariant
                        j <= cnt,
                        p1 + cnt <= total,
                        total == s@.len(),
                        out@ == s@.subrange(p1 as int, p1 + j),
                    decreases cnt - j,
                {
                    let c = s[p1 + j];
                    push_char(&mut out, c);
                    proof {
                        assert(s@.subrange(p1 as int, p1 + j + 1) =~= s@.subrange(
                            p1 as int,
                            p1 + j,
                        ).push(c));
                    }
                    j = j + 1;
                }
                let p2 = p1 + cnt;
                proof {
                    assert(out@.len() == count as int);
                    assert(s@.subrange(pos as int, p2 as int) =~= s@.subrange(pos as int, p1 as int)
                        + s@.subrange(p1 as int, p2 as int));
                    assert(s@.subrange(pos as int, p2 as int) == enc_str(out@));
                    assert forall|g: Seq<char>|
                        has_prefix(s@, pos as int, enc_str(g)) implies (out@ == g && p2 == pos
                        + enc_str(g).len()) by {
                        lemma_prefix_split(
                            s@,
                            pos as int,
                            dec_fixed(g.len() as int, num_width()),
                            g,
                        );
                        lemma_dec_fixed_props(g.len() as int, num_width());
                        let v = g.len() as u64;
                        assert(v as int == g.len() as int);
                        assert(s@.subrange(pos as int, pos + num_width()) == dec_fixed(
                            v as int,
                            num_width(),
                        ));
                        assert(count == v);
                        assert(out@ =~= g);
                    }
                }
                Option::Some((out, p2))
            }
        },
    }
}

/// Reads the optional string at `pos` behind its presence tag.
fn parse_opt_string(s: &Vec<char>, pos: usize) -> (r: Option<(Option<String>, usize)>)
    requires
        pos <= s@.len(),
    ensures
        (r matches Some(p) ==> pos <= p.1 <= s@.len() && s@.subrange(pos as int, p.1 as int)
            == enc_opt_str(opt_string_view(p.0))),
        forall|g: Option<Seq<char>>|
            has_prefix(s@, pos as int, enc_opt_str(g)) ==> (r matches Some(p) && opt_string_view(
                p.0,
            ) == g && p.1 == pos + enc_opt_str(g).len()),
{
    let total = s.len();
    if pos >= total {
        proof {
            assert forall|g: Option<Seq<char>>|
                !has_prefix(s@, pos as int, enc_opt_str(g)) by {
                assert(enc_opt_str(g).len() >= 1);
            }
        }
        return Option::None;
    }
    let c = s[pos];
    if c == '-' {
        proof {
            assert(s@.subrange(pos as int, pos + 1) =~= seq!['-']);
            assert forall|g: Option<Seq<char>>|
                has_prefix(s@, pos as int, enc_opt_str(g)) implies g is None by {
                match g {
                    Option::Some(inner) => {
                        assert(enc_opt_str(g)[0] == '+');
                        assert(s@[pos as int] == '+');
                    },
                    Option::None => {},
                }
            }
        }
        Option::Some((Option::None, pos + 1))
    } else if c == '+' {
        match parse_string(s, pos + 1) {
            Option::None => {
                proof {
                    assert forall|g: Option<Seq<char>>|
                        !has_prefix(s@, pos as int, enc_opt_str(g)) by {
                        if has_prefix(s@, pos as int, enc_opt_str(g)) {
                            match g {
                                Option::Some(inner) => {
                                    lemma_prefix_split(s@, pos as int, seq!['+'], enc_str(inner));
                                    assert(false);
                                },
                                Option::None => {
                                    assert(enc_opt_str(g)[0] == '-');
                                    assert(s@[pos as int] == '-');
                                    assert(false);
                                },
                            }
                        }
                    }
                }
                Option::None
            },
            Option::Some((st, p2)) => {
                proof {
                    assert(s@.subrange(pos as int, p2 as int) =~= seq!['+'] + s@.subrange(
                        pos + 1,
                        p2 as int,
                    ));
                    assert(s@.subrange(pos as int, p2 as int) == enc_opt_str(
                        opt_string_view(Option::Some(st)),
                    ));
                    assert forall|g: Option<Seq<char>>|
                        has_prefix(s@, pos as int, enc_opt_str(g)) implies (opt_string_view(
                        Option::Some(st),
                    ) == g && p2 == pos + enc_opt_str(g).len()) by {
                        match g {
                            Option::Some(inner) => {
                                lemma_prefix_split(s@, pos as int, seq!['+'], enc_str(inner));
                                assert(st@ == inner);
                            },
                            Option::None => {
                                assert(enc_opt_str(g)[0] == '-');
                                assert(s@[pos as int] == '-');
                                assert(false);
                            },
                        }
                    }
                }
                Option::Some((Option::Some(st), p2))
            },
        }
    } else {
        proof {
            assert forall|g: Option<Seq<char>>|
                !has_prefix(s@, pos as int, enc_opt_str(g)) by {
                if has_prefix(s@, pos as int, enc_opt_str(g)) {
                    match g {
                        Option::Some(inner) => {
                            assert(enc_opt_str(g)[0] == '+');
                            assert(s@[pos as int] == '+');
                        },
                        Option::None => {
                            assert(enc_opt_str(g)[0] == '-');
                            assert(s@[pos as int] == '-');
                        },
                    }
                }
            }
        }
        Option::None
    }
}

/// Reads the probe-error tag at `pos`.
fn parse_error(s: &Vec<char>, pos: usize) -> (r: Option<(ProbeError, usize)>)
    requires
        pos <= s@.len(),
    ensures
        (r matches Some(p) ==> pos <= p.1 <= s@.len() && s@.subrange(pos as int, p.1 as int)
            == enc_error(p.0)),
        forall|g: ProbeError|
            has_prefix(s@, pos as int, enc_error(g)) ==> (r matches Some(p) && p.0 == g && p.1
                == pos + enc_error(g).len()),
{
    let total = s.len();
    if pos >= total {
        proof {
            assert forall|g: ProbeError| !has_prefix(s@, pos as int, enc_error(g)) by {
                assert(enc_error(g).len() == 1);
            }
        }
        return Option::None;
    }
    let c = s[pos];
    let e = if c == 'u' {
        ProbeError::Unreachable
    } else if c == 't' {
        ProbeError::Timeout
    } else if c == 'm' {
        ProbeError::Malformed
    } else if c == 'h' {
        ProbeError::HttpError
    } else {
        proof {
            assert forall|g: ProbeError| !has_prefix(s@, pos as int, enc_error(g)) by {
                if has_prefix(s@, pos as int, enc_error(g)) {
                    assert(s@[pos as int] == enc_error(g)[0]);
                }
            }
        }
        return Option::None;
    };
    proof {
        assert(s@.subrange(pos as int, pos + 1) =~= seq![c]);
        assert(s@.subrange(pos as int, pos + 1) == enc_error(e));
        assert forall|g: ProbeError|
            has_prefix(s@, pos as int, enc_error(g)) implies (e == g && pos + 1 == pos + enc_error(
            g,
        ).len()) by {
            assert(s@[pos as int] == enc_error(g)[0]);
        }
    }
    Option::Some((e, pos + 1))
}

/// A list's encoding splits at any point into the encodings of its two
/// halves.
pub proof fn lemma_enc_str_list_cat(v: Seq<Seq<char>>, j: int)
    requires
        0 <= j <= v.len(),
    ensures
        enc_str_list(v) == enc_str_list(v.take(j)) + enc_str_list(v.skip(j)),
    decreases j,
{
    if j == 0 {
        assert(v.take(0) =~= Seq::<Seq<char>>::empty());
        assert(v.skip(0) =~= v);
        assert(enc_str_list(v.take(0)) == Seq::<char>::empty());
        assert(Seq::<char>::empty() + enc_str_list(v) =~= enc_str_list(v));
    } else {
        lemma_enc_str_list_cat(v.skip(1), j - 1);
        assert(v.skip(1).take(j - 1) =~= v.take(j).skip(1));
        assert(v.skip(1).skip(j - 1) =~= v.skip(j));
        assert(v.take(j)[0] == v[0]);
        assert(enc_str_list(v.take(j)) == enc_str(v[0]) + enc_str_list(v.take(j).skip(1)));
        assert(enc_str(v[0]) + (enc_str_list(v.take(j).skip(1)) + enc_str_list(v.skip(j))) =~= (
        enc_str(v[0]) + enc_str_list(v.take(j).skip(1))) + enc_str_list(v.skip(j)));
    }
}

/// A list's encoding splits at any point into the encodings of its two
/// halves.
pub proof fn lemma_enc_outcome_list_cat(v: Seq<OutcomeView>, j: int)
    requires
        0 <= j <= v.len(),
    ensures
        enc_outcome_list(v) == enc_outcome_list(v.take(j)) + enc_outcome_list(v.skip(j)),
    decreases j,
{
    if j == 0 {
        assert(v.take(0) =~= Seq::<OutcomeView>::empty());
        assert(v.skip(0) =~= v);
        assert(enc_outcome_list(v.take(0)) == Seq::<char>::empty());
        assert(Seq::<char>::empty() + enc_outcome_list(v) =~= enc_outcome_list(v));
    } else {
        lemma_enc_outcome_list_cat(v.skip(1), j - 1);
        assert(v.skip(1).take(j - 1) =~= v.take(j).skip(1));
        assert(v.skip(1).skip(j - 1) =~= v.skip(j));
        assert(v.take(j)[0] == v[0]);
        assert(enc_outcome_list(v.take(j)) == enc_outcome(v[0]) + enc_outcome_list(
            v.take(j).skip(1),
        ));
        assert(enc_outcome(v[0]) + (enc_outcome_list(v.take(j).skip(1)) + enc_outcome_list(
            v.skip(j),
        )) =~= (enc_outcome(v[0]) + enc_outcome_list(v.take(j).skip(1))) + enc_outcome_list(
            v.skip(j),
        ));
    }
}

/// A string list's encoding is at least as long as the list.
pub proof fn lemma_enc_str_list_len_ge(v: Seq<Seq<char>>)
    ensures
        enc_str_list(v).len() >= v.len(),
    decreases v.len(),
{
    if v.len() > 0 {
        lemma_enc_str_list_len_ge(v.skip(1));
    }
}

/// An outcome list's encoding is at least as long as the list.
pub proof fn lemma_enc_outcome_list_len_ge(v: Seq<OutcomeView>)
    ensures
        enc_outcome_list(v).len() >= v.len(),
    decreases v.len(),
{
    if v.len() > 0 {
        lemma_enc_outcome_list_len_ge(v.skip(1));
        assert(enc_outcome(v[0]).len() >= 1);
    }
}

/// Reads the descriptor at `pos`, field by field.
fn parse_descriptor(s: &Vec<char>, pos: usize) -> (r: Option<(EndpointDescriptor, usize)>)
    requires
        pos <= s@.len(),
    ensures
        (r matches Some(p) ==> pos <= p.1 <= s@.len() && s@.subrange(pos as int, p.1 as int)
            == enc_descriptor(p.0@)),
        forall|g: DescriptorView|
            has_prefix(s@, pos as int, enc_descriptor(g)) ==> (r matches Some(p) && p.0@ == g
                && p.1 == pos + enc_descriptor(g).len()),
{
    proof {
        assert forall|g: DescriptorView|
            has_prefix(s@, pos as int, enc_descriptor(g)) implies has_prefix(
            s@,
            pos as int,
            enc_opt_str(g.onion_name),
        ) && has_prefix(
            s@,
            pos + enc_opt_str(g.onion_name).len(),
            enc_str(g.title),
        ) && has_prefix(
            s@,
            pos + enc_opt_str(g.onion_name).len() + enc_str(g.title).len(),
            enc_str(g.landing_page_url),
        ) && has_prefix(
            s@,
            pos + enc_opt_str(g.onion_name).len() + enc_str(g.title).len() + enc_str(
                g.landing_page_url,
            ).len(),
            enc_str(g.onion_address),
        ) by {
            let a = enc_opt_str(g.onion_name);
            let b = enc_str(g.title);
            let c = enc_str(g.landing_page_url);
            let d = enc_str(g.onion_address);
            assert(enc_descriptor(g) =~= a + (b + (c + d)));
            lemma_prefix_split(s@, pos as int, a, b + (c + d));
            lemma_prefix_split(s@, pos + a.len(), b, c + d);
            lemma_prefix_split(s@, pos + a.len() + b.len(), c, d);
        }
    }
    let r0 = parse_opt_string(s, pos);
    match r0 {
        Option::None => Option::None,
        Option::Some((onion_name, p1)) => {
            let r1 = parse_string(s, p1);
            match r1 {
                Option::None => Option::None,
                Option::Some((title, p2)) => {
                    let r2 = parse_string(s, p2);
                    match r2 {
                        Option::None => Option::None,
                        Option::Some((landing, p3)) => {
                            let r3 = parse_string(s, p3);
                            match r3 {
                                Option::None => Option::None,
                                Option::Some((address, p4)) => {
                                    let d = EndpointDescriptor {
                                        onion_name,
                                        title,
                                        landing_page_url: landing,
                                        onion_address: address,
                                    };
                                    proof {
                                        assert(s@.subrange(pos as int, p4 as int) =~= s@.subrange(
                                            pos as int,
                                            p1 as int,
                                        ) + s@.subrange(p1 as int, p2 as int) + s@.subrange(
                                            p2 as int,
                                            p3 as int,
                                        ) + s@.subrange(p3 as int, p4 as int));
                                        assert(s@.subrange(pos as int, p4 as int)
                                            == enc_descriptor(d@));
                                        assert forall|g: DescriptorView|
                                            has_prefix(s@, pos as int, enc_descriptor(g)) implies (
                                        d@ == g && p4 == pos + enc_descriptor(g).len()) by {
                                            assert(opt_string_view(d.onion_name) == g.onion_name);
                                            assert(d.title@ == g.title);
                                            assert(d.landing_page_url@ == g.landing_page_url);
                                            assert(d.onion_address@ == g.onion_address);
                                            assert(d@ =~= g);
                                            assert(enc_descriptor(g).len() == enc_opt_str(
                                                g.onion_name,
                                            ).len() + enc_str(g.title).len() + enc_str(
                                                g.landing_page_url,
                                            ).len() + enc_str(g.onion_address).len());
                                        }
                                    }
                                    Option::Some((d, p4))
                                },
                            }
                        },
                    }
                },
            }
        },
    }
}

/// Reads the counted language list at `pos`.
fn parse_langs(s: &Vec<char>, pos: usize) -> (r: Option<(Vec<String>, usize)>)
    requires
        pos <= s@.len(),
    ensures
        (r matches Some(p) ==> pos <= p.1 <= s@.len() && s@.subrange(pos as int, p.1 as int)
            == enc_langs(string_views(p.0@))),
        forall|g: Seq<Seq<char>>|
            has_prefix(s@, pos as int, enc_langs(g)) ==> (r matches Some(p) && string_views(p.0@)
                == g && p.1 == pos + enc_langs(g).len()),
{
    let total = s.len();
    let r_nat = parse_nat(s, pos);
    match r_nat {
        Option::None => {
            proof {
                assert forall|g: Seq<Seq<char>>| !has_prefix(s@, pos as int, enc_langs(g)) by {
                    if has_prefix(s@, pos as int, enc_langs(g)) {
                        lemma_enc_str_list_len_ge(g);
                        lemma_prefix_split(
                            s@,
                            pos as int,
                            dec_fixed(g.len() as int, num_width()),
                            enc_str_list(g),
                        );
                        lemma_dec_fixed_props(g.len() as int, num_width());
                        let v = g.len() as u64;
                        assert(v as int == g.len() as int);
                        assert(s@.subrange(pos as int, pos + num_width()) == dec_fixed(
                            v as int,
                            num_width(),
                        ));
                        assert(false);
                    }
                }
            }
            Option::None
        },
        Option::Some((count, p1)) => {
            proof {
                assert forall|g: Seq<Seq<char>>|
                    has_prefix(s@, pos as int, enc_langs(g)) implies count == g.len() && has_prefix(
                    s@,
                    p1 as int,
                    enc_str_list(g),
                ) by {
                    lemma_enc_str_list_len_ge(g);
                    lemma_prefix_split(
                        s@,
                        pos as int,
                        dec_fixed(g.len() as int, num_width()),
                        enc_str_list(g),
                    );
                    lemma_dec_fixed_props(g.len() as int, num_width());
                    let v = g.len() as u64;
                    assert(v as int == g.len() as int);
                    assert(s@.subrange(pos as int, pos + num_width()) == dec_fixed(
                        v as int,
                        num_width(),
                    ));
                }
            }
            let mut acc: Vec<String> = Vec::new();
            let mut cur = p1;
            let mut j: u64 = 0;
            while j < count
                invariant
                    0 <= j <= count,
                    total == s@.len(),
                    p1 == pos + num_width(),
                    p1 <= cur <= total,
                    acc@.len() == j,
                    s@.subrange(p1 as int, cur as int) == enc_str_list(string_views(acc@)),
                    forall|g: Seq<Seq<char>>|
                        #[trigger] has_prefix(s@, pos as int, enc_langs(g)) ==> (count == g.len()
                            && string_views(acc@) == g.take(j as int) && cur as int == p1
                            + enc_str_list(g.take(j as int)).len()),
                decreases count - j,
            {
                proof {
                    assert forall|g: Seq<Seq<char>>|
                        has_prefix(s@, pos as int, enc_langs(g)) implies has_prefix(
                        s@,
                        cur as int,
                        enc_str(g[j as int]),
                    ) by {
                        assert(count == g.len() && string_views(acc@) == g.take(j as int)
                            && cur as int == p1 + enc_str_list(g.take(j as int)).len());
                        lemma_dec_fixed_props(g.len() as int, num_width());
                        lemma_prefix_split(
                            s@,
                            pos as int,
                            dec_fixed(g.len() as int, num_width()),
                            enc_str_list(g),
                        );
                        lemma_enc_str_list_cat(g, j as int);
                        lemma_prefix_split(
                            s@,
                            p1 as int,
                            enc_str_list(g.take(j as int)),
                            enc_str_list(g.skip(j as int)),
                        );
                        assert(g.skip(j as int)[0] == g[j as int]);
                        assert(enc_str_list(g.skip(j as int)) == enc_str(g[j as int])
                            + enc_str_list(g.skip(j as int).skip(1)));
                        lemma_prefix_split(
                            s@,
                            cur as int,
                            enc_str(g[j as int]),
                            enc_str_list(g.skip(j as int).skip(1)),
                        );
                    }
                }
                let rs = parse_string(s, cur);
                match rs {
                    Option::None => {
                        return Option::None;
                    },
                    Option::Some((st, nxt)) => {
                        proof {
                            let ghost old_views = string_views(acc@);
                            assert(string_views(acc@.push(st)) =~= old_views.push(st@));
                            lemma_enc_str_list_push(old_views, st@);
                            assert(s@.subrange(p1 as int, nxt as int) =~= s@.subrange(
                                p1 as int,
                                cur as int,
                            ) + s@.subrange(cur as int, nxt as int));
                            assert forall|g: Seq<Seq<char>>|
                                has_prefix(s@, pos as int, enc_langs(g)) implies (string_views(
                                acc@.push(st),
                            ) == g.take(j + 1) && nxt as int == p1 + enc_str_list(
                                g.take(j + 1),
                            ).len()) by {
                                assert(st@ == g[j as int]);
                                assert(g.take(j + 1) =~= g.take(j as int).push(g[j as int]));
                                lemma_enc_str_list_push(g.take(j as int), g[j as int]);
                            }
                        }
                        acc.push(st);
                        cur = nxt;
                        j = j + 1;
                    },
                }
            }
            proof {
                assert forall|g: Seq<Seq<char>>|
                    has_prefix(s@, pos as int, enc_langs(g)) implies (string_views(acc@) == g
                    && cur as int == pos + enc_langs(g).len()) by {
                    assert(g.take(j as int) =~= g);
                }
                assert(s@.subrange(pos as int, cur as int) =~= s@.subrange(pos as int, p1 as int)
                    + s@.subrange(p1 as int, cur as int));
                assert(s@.subrange(pos as int, cur as int) == enc_langs(string_views(acc@)));
            }
            Option::Some((acc, cur))
        },
    }
}

/// Reads the metadata record at `pos`, field by field.
#[verifier::rlimit(100)]
fn parse_metadata(s: &Vec<char>, pos: usize) -> (r: Option<(MetadataRecord, usize)>)
    requires
        pos <= s@.len(),
    ensures
        (r matches Some(p) ==> pos <= p.1 <= s@.len() && s@.subrange(pos as int, p.1 as int)
            == enc_metadata(p.0@)),
        forall|g: MetadataView|
            has_prefix(s@, pos as int, enc_metadata(g)) ==> (r matches Some(p) && p.0@ == g && p.1
                == pos + enc_metadata(g).len()),
{
    proof {
        assert forall|g: MetadataView|
            has_prefix(s@, pos as int, enc_metadata(g)) implies has_prefix(
            s@,
            pos as int,
            enc_str(g.sd_version),
        ) && has_prefix(
            s@,
            pos + enc_str(g.sd_version).len(),
            enc_str(g.server_os),
        ) && has_prefix(
            s@,
            pos + enc_str(g.sd_version).len() + enc_str(g.server_os).len(),
            enc_str(g.gpg_fpr),
        ) && has_prefix(
            s@,
            pos + enc_str(g.sd_version).len() + enc_str(g.server_os).len() + enc_str(
                g.gpg_fpr,
            ).len(),
            enc_opt_str(g.v2_source_url),
        ) && has_prefix(
            s@,
            pos + enc_str(g.sd_version).len() + enc_str(g.server_os).len() + enc_str(
                g.gpg_fpr,
            ).len() + enc_opt_str(g.v2_source_url).len(),
            enc_str(g.v3_source_url),
        ) && has_prefix(
            s@,
            pos + enc_str(g.sd_version).len() + enc_str(g.server_os).len() + enc_str(
                g.gpg_fpr,
            ).len() + enc_opt_str(g.v2_source_url).len() + enc_str(g.v3_source_url).len(),
            enc_langs(g.supported_languages),
        ) by {
            let a = enc_str(g.sd_version);
            let b = enc_str(g.server_os);
            let c = enc_str(g.gpg_fpr);
            let d = enc_opt_str(g.v2_source_url);
            let e = enc_str(g.v3_source_url);
            let f = enc_langs(g.supported_languages);
            assert(enc_metadata(g) =~= a + (b + (c + (d + (e + f)))));
            lemma_prefix_split(s@, pos as int, a, b + (c + (d + (e + f))));
            lemma_prefix_split(s@, pos + a.len(), b, c + (d + (e + f)));
            lemma_prefix_split(s@, pos + a.len() + b.len(), c, d + (e + f));
            lemma_prefix_split(s@, pos + a.len() + b.len() + c.len(), d, e + f);
            lemma_prefix_split(s@, pos + a.len() + b.len() + c.len() + d.len(), e, f);
        }
    }
    let r0 = parse_string(s, pos);
    match r0 {
        Option::None => Option::None,
        Option::Some((sd_version, p1)) => {
            let r1 = parse_string(s, p1);
            match r1 {
                Option::None => Option::None,
                Option::Some((server_os, p2)) => {
                    let r2 = parse_string(s, p2);
                    match r2 {
                        Option::None => Option::None,
                        Option::Some((gpg_fpr, p3)) => {
                            let r3 = parse_opt_string(s, p3);
                            match r3 {
                                Option::None => Option::None,
                                Option::Some((v2_source_url, p4)) => {
                                    let r4 = parse_string(s, p4);
                                    match r4 {
                                        Option::None => Option::None,
                                        Option::Some((v3_source_url, p5)) => {
                                            let r5 = parse_langs(s, p5);
                                            match r5 {
                                                Option::None => Option::None,
                                                Option::Some((supported_languages, p6)) => {
                                                    let m = MetadataRecord {
                                                        sd_version,
                                                        server_os,
                                                        gpg_fpr,
                                                        v2_source_url,
                                                        v3_source_url,
                                                        supported_languages,
                                                    };
                                                    proof {
                                                        assert(m@.supported_languages
                                                            =~= string_views(
                                                            m.supported_languages@,
                                                        ));
                                                        assert(s@.subrange(pos as int, p6 as int)
                                                            =~= s@.subrange(pos as int, p1 as int)
                                                            + s@.subrange(p1 as int, p2 as int)
                                                            + s@.subrange(p2 as int, p3 as int)
                                                            + s@.subrange(p3 as int, p4 as int)
                                                            + s@.subrange(p4 as int, p5 as int)
                                                            + s@.subrange(p5 as int, p6 as int));
                                                        assert(s@.subrange(pos as int, p6 as int)
                                                            == enc_metadata(m@));
                                                        assert forall|g: MetadataView|
                                                            has_prefix(
                                                                s@,
                                                                pos as int,
                                                                enc_metadata(g),
                                                            ) implies (m@ == g && p6 == pos
                                                            + enc_metadata(g).len()) by {
                                                            assert(m@.supported_languages
                                                                == g.supported_languages);
                                                            assert(m@ =~= g);
                                                            assert(enc_metadata(g).len()
                                                                == enc_str(g.sd_version).len()
                                                                + enc_str(g.server_os).len()
                                                                + enc_str(g.gpg_fpr).len()
                                                                + enc_opt_str(
                                                                g.v2_source_url,
                                                            ).len() + enc_str(
                                                                g.v3_source_url,
                                                            ).len() + enc_langs(
                                                                g.supported_languages,
                                                            ).len());
                                                        }
                                                    }
                                                    Option::Some((m, p6))
                                                },
                                            }
                                        },
                                    }
                                },
                            }
                        },
                    }
                },
            }
        },
    }
}

/// The outcome views of a vector of outcomes.
pub open spec fn outcome_views(v: Seq<ProbeOutcome>) -> Seq<OutcomeView> {
    Seq::new(v.len(), |i: int| v[i]@)
}

/// Reads the outcome at `pos` behind its success-or-failure tag.
#[verifier::rlimit(100)]
#[verifier::spinoff_prover]
fn parse_outcome(s: &Vec<char>, pos: usize) -> (r: Option<(ProbeOutcome, usize)>)
    requires
        pos <= s@.len(),
    ensures
        (r matches Some(p) ==> pos <= p.1 <= s@.len() && s@.subrange(pos as int, p.1 as int)
            == enc_outcome(p.0@)),
        forall|g: OutcomeView|
            has_prefix(s@, pos as int, enc_outcome(g)) ==> (r matches Some(p) && p.0@ == g && p.1
                == pos + enc_outcome(g).len()),
{
    let total = s.len();
    if pos >= total {
        proof {
            assert forall|g: OutcomeView| !has_prefix(s@, pos as int, enc_outcome(g)) by {
                match g {
                    OutcomeView::Success { descriptor, metadata } => {
                        assert(enc_outcome(g).len() >= 1);
                    },
                    OutcomeView::Failure { descriptor, error } => {
                        assert(enc_outcome(g).len() >= 1);
                    },
                }
            }
        }
        return Option::None;
    }
    let c = s[pos];
    if c == 'S' {
        proof {
            assert forall|g: OutcomeView|
                has_prefix(s@, pos as int, enc_outcome(g)) implies (g is Success && has_prefix(
                s@,
                pos + 1,
                enc_descriptor(g->Success_descriptor),
            ) && has_prefix(
                s@,
                pos + 1 + enc_descriptor(g->Success_descriptor).len(),
                enc_metadata(g->Success_metadata),
            )) by {
                match g {
                    OutcomeView::Success { descriptor, metadata } => {
                        assert(enc_outcome(g) =~= seq!['S'] + (enc_descriptor(descriptor)
                            + enc_metadata(metadata)));
                        lemma_prefix_split(
                            s@,
                            pos as int,
                            seq!['S'],
                            enc_descriptor(descriptor) + enc_metadata(metadata),
                        );
                        lemma_prefix_split(
                            s@,
                            pos + 1,
                            enc_descriptor(descriptor),
                            enc_metadata(metadata),
                        );
                    },
                    OutcomeView::Failure { descriptor, error } => {
                        assert(enc_outcome(g)[0] == 'F');
                        assert(s@[pos as int] == 'F');
                        assert(false);
                    },
                }
            }
        }
        let r0 = parse_descriptor(s, pos + 1);
        match r0 {
            Option::None => Option::None,
            Option::Some((d, p1)) => {
                let r1 = parse_metadata(s, p1);
                match r1 {
                    Option::None => Option::None,
                    Option::Some((m, p2)) => {
                        let o = ProbeOutcome::Success { descriptor: d, metadata: m };
                        proof {
                            assert(s@.subrange(pos as int, p2 as int) =~= seq!['S'] + s@.subrange(
                                pos + 1,
                                p1 as int,
                            ) + s@.subrange(p1 as int, p2 as int));
                            assert(s@.subrange(pos as int, p2 as int) =~= enc_outcome(o@));
                            assert forall|g: OutcomeView|
                                has_prefix(s@, pos as int, enc_outcome(g)) implies (o@ == g && p2
                                == pos + enc_outcome(g).len()) by {
                                match g {
                                    OutcomeView::Success { descriptor, metadata } => {
                                        assert(d@ == descriptor);
                                        assert(m@ == metadata);
                                        assert(o@ =~= g);
                                        assert(enc_outcome(g).len() == 1 + enc_descriptor(
                                            descriptor,
                                        ).len() + enc_metadata(metadata).len());
                                    },
                                    OutcomeView::Failure { descriptor, error } => {
                                        assert(false);
                                    },
                                }
                            }
                        }
                        Option::Some((o, p2))
                    },
                }
            },
        }
    } else if c == 'F' {
        proof {
            assert forall|g: OutcomeView|
                has_prefix(s@, pos as int, enc_outcome(g)) implies (g is Failure && has_prefix(
                s@,
                pos + 1,
                enc_descriptor(g->Failure_descriptor),
            ) && has_prefix(
                s@,
                pos + 1 + enc_descriptor(g->Failure_descriptor).len(),
                enc_error(g->Failure_error),
            )) by {
                match g {
                    OutcomeView::Failure { descriptor, error } => {
                        assert(enc_outcome(g) =~= seq!['F'] + (enc_descriptor(descriptor)
                            + enc_error(error)));
                        lemma_prefix_split(
                            s@,
                            pos as int,
                            seq!['F'],
                            enc_descriptor(descriptor) + enc_error(error),
                        );
                        lemma_prefix_split(
                            s@,
                            pos + 1,
                            enc_descriptor(descriptor),
                            enc_error(error),
                        );
                    },
                    OutcomeView::Success { descriptor, metadata } => {
                        assert(enc_outcome(g)[0] == 'S');
                        assert(s@[pos as int] == 'S');
                        assert(false);
                    },
                }
            }
        }
        let r0 = parse_descriptor(s, pos + 1);
        match r0 {
            Option::None => Option::None,
            Option::Some((d, p1)) => {
                let r1 = parse_error(s, p1);
                match r1 {
                    Option::None => Option::None,
                    Option::Some((e, p2)) => {
                        let o = ProbeOutcome::Failure { descriptor: d, error: e };
                        proof {
                            assert(s@.subrange(pos as int, p2 as int) =~= seq!['F'] + s@.subrange(
                                pos + 1,
                                p1 as int,
                            ) + s@.subrange(p1 as int, p2 as int));
                            assert(s@.subrange(pos as int, p2 as int) =~= enc_outcome(o@));
                            assert forall|g: OutcomeView|
                                has_prefix(s@, pos as int, enc_outcome(g)) implies (o@ == g && p2
                                == pos + enc_outcome(g).len()) by {
                                match g {
                                    OutcomeView::Failure { descriptor, error } => {
                                        assert(d@ == descriptor);
                                        assert(e == error);
                                        assert(o@ =~= g);
                                        assert(enc_outcome(g).len() == 1 + enc_descriptor(
                                            descriptor,
                                        ).len() + enc_error(error).len());
                                    },
                                    OutcomeView::Success { descriptor, metadata } => {
                                        assert(false);
                                    },
                                }
                            }
                        }
                        Option::Some((o, p2))
                    },
                }
            },
        }
    } else {
        proof {
            assert forall|g: OutcomeView| !has_prefix(s@, pos as int, enc_outcome(g)) by {
                if has_prefix(s@, pos as int, enc_outcome(g)) {
                    match g {
                        OutcomeView::Success { descriptor, metadata } => {
                            assert(enc_outcome(g)[0] == 'S');
                            assert(s@[pos as int] == 'S');
                        },
                        OutcomeView::Failure { descriptor, error } => {
                            assert(enc_outcome(g)[0] == 'F');
                            assert(s@[pos as int] == 'F');
                        },
                    }
                }
            }
        }
        Option::None
    }
}

/// Reads a scan result back from the persisted format. Exactly the outputs
/// of `encode_scan` are accepted: decoding succeeds precisely on the
/// encoding of some scan, and then returns a scan with that very content.
#[verifier::rlimit(100)]
pub fn decode_scan(text: &str) -> (r: Option<ScanResult>)
    ensures
        (r matches Some(sr) ==> text@ == spec_encode_scan(sr@)),
        forall|g: Seq<OutcomeView>|
            text@ == spec_encode_scan(g) ==> (r matches Some(sr) && sr@ == g),
{
    let n_chars = text.unicode_len();
    let mut cs: Vec<char> = Vec::new();
    let mut i: usize = 0;
    while i < n_chars
        invariant
            i <= n_chars,
            n_chars == text@.len(),
            cs@ == text@.take(i as int),
        decreases n_chars - i,
    {
        let c = text.get_char(i);
        cs.push(c);
        proof {
            assert(text@.take(i + 1) =~= text@.take(i as int).push(c));
        }
        i = i + 1;
    }
    proof {
        assert(text@.take(n_chars as int) =~= text@);
    }
    let s = cs;
    let total = s.len();
    let r_nat = parse_nat(&s, 0);
    match r_nat {
        Option::None => {
            proof {
                assert forall|g: Seq<OutcomeView>| text@ != spec_encode_scan(g) by {
                    if text@ == spec_encode_scan(g) {
                        assert(s@.subrange(0, spec_encode_scan(g).len() as int) =~= s@);
                        assert(has_prefix(s@, 0, spec_encode_scan(g)));
                        lemma_enc_outcome_list_len_ge(g);
                        lemma_prefix_split(
                            s@,
                            0,
                            dec_fixed(g.len() as int, num_width()),
                            enc_outcome_list(g),
                        );
                        lemma_dec_fixed_props(g.len() as int, num_width());
                        let v = g.len() as u64;
                        assert(v as int == g.len() as int);
                        assert(s@.subrange(0, num_width() as int) == dec_fixed(
                            v as int,
                            num_width(),
                        ));
                        assert(false);
                    }
                }
            }
            Option::None
        },
        Option::Some((count, p1)) => {
            proof {
                assert forall|g: Seq<OutcomeView>|
                    #[trigger] has_prefix(s@, 0, spec_encode_scan(g)) implies count == g.len()
                    && has_prefix(s@, p1 as int, enc_outcome_list(g)) by {
                    lemma_enc_outcome_list_len_ge(g);
                    lemma_prefix_split(
                        s@,
                        0,
                        dec_fixed(g.len() as int, num_width()),
                        enc_outcome_list(g),
                    );
                    lemma_dec_fixed_props(g.len() as int, num_width());
                    let v = g.len() as u64;
                    assert(v as int == g.len() as int);
                    assert(s@.subrange(0, num_width() as int) == dec_fixed(v as int, num_width()));
                }
            }
            let mut acc: Vec<ProbeOutcome> = Vec::new();
            let mut cur = p1;
            let mut j: u64 = 0;
            while j < count
                invariant
                    0 <= j <= count,
                    total == s@.len(),
                    text@ == s@,
                    p1 == num_width(),
                    p1 <= cur <= total,
                    acc@.len() == j,
                    s@.subrange(p1 as int, cur as int) == enc_outcome_list(outcome_views(acc@)),
                    forall|g: Seq<OutcomeView>|
                        #[trigger] has_prefix(s@, 0, spec_encode_scan(g)) ==> (count == g.len()
                            && outcome_views(acc@) == g.take(j as int) && cur as int == p1
                            + enc_outcome_list(g.take(j as int)).len()),
                decreases count - j,
            {
                proof {
                    assert forall|g: Seq<OutcomeView>|
                        #[trigger] has_prefix(s@, 0, spec_encode_scan(g)) implies has_prefix(
                        s@,
                        cur as int,
                        enc_outcome(g[j as int]),
                    ) by {
                        assert(count == g.len() && outcome_views(acc@) == g.take(j as int)
                            && cur as int == p1 + enc_outcome_list(g.take(j as int)).len());
                        lemma_dec_fixed_props(g.len() as int, num_width());
                        lemma_prefix_split(
                            s@,
                            0,
                            dec_fixed(g.len() as int, num_width()),
                            enc_outcome_list(g),
                        );
                        lemma_enc_outcome_list_cat(g, j as int);
                        lemma_prefix_split(
                            s@,
                            p1 as int,
                            enc_outcome_list(g.take(j as int)),
                            enc_outcome_list(g.skip(j as int)),
                        );
                        assert(g.skip(j as int)[0] == g[j as int]);
                        assert(enc_outcome_list(g.skip(j as int)) == enc_outcome(g[j as int])
                            + enc_outcome_list(g.skip(j as int).skip(1)));
                        lemma_prefix_split(
                            s@,
                            cur as int,
                            enc_outcome(g[j as int]),
                            enc_outcome_list(g.skip(j as int).skip(1)),
                        );
                    }
                }
                let ro = parse_outcome(&s, cur);
                match ro {
                    Option::None => {
                        proof {
                            assert forall|g: Seq<OutcomeView>| text@ != spec_encode_scan(g) by {
                                if text@ == spec_encode_scan(g) {
                                    assert(s@.subrange(0, spec_encode_scan(g).len() as int)
                                        =~= s@);
                                    assert(has_prefix(s@, 0, spec_encode_scan(g)));
                                }
                            }
                        }
                        return Option::None;
                    },
                    Option::Some((o, nxt)) => {
                        proof {
                            let ghost old_views = outcome_views(acc@);
                            assert(outcome_views(acc@.push(o)) =~= old_views.push(o@));
                            lemma_enc_outcome_list_push(old_views, o@);
                            assert(s@.subrange(p1 as int, nxt as int) =~= s@.subrange(
                                p1 as int,
                                cur as int,
                            ) + s@.subrange(cur as int, nxt as int));
                            assert forall|g: Seq<OutcomeView>|
                                #[trigger] has_prefix(s@, 0, spec_encode_scan(g)) implies (
                            outcome_views(acc@.push(o)) == g.take(j + 1) && nxt as int == p1
                                + enc_outcome_list(g.take(j + 1)).len()) by {
                                assert(o@ == g[j as int]);
                                assert(g.take(j + 1) =~= g.take(j as int).push(g[j as int]));
                                lemma_enc_outcome_list_push(g.take(j as int), g[j as int]);
                            }
                        }
                        acc.push(o);
                        cur = nxt;
                        j = j + 1;
                    },
                }
            }
            if cur != total {
                proof {
                    assert forall|g: Seq<OutcomeView>| text@ != spec_encode_scan(g) by {
                        if text@ == spec_encode_scan(g) {
                            assert(s@.subrange(0, spec_encode_scan(g).len() as int) =~= s@);
                            assert(has_prefix(s@, 0, spec_encode_scan(g)));
                            assert(g.take(j as int) =~= g);
                            assert(cur as int == p1 + enc_outcome_list(g).len());
                            lemma_dec_fixed_props(g.len() as int, num_width());
                            assert(spec_encode_scan(g).len() == num_width()
                                + enc_outcome_list(g).len());
                        }
                    }
                }
                return Option::None;
            }
            let sr = ScanResult { outcomes: acc };
            proof {
                assert(sr@ =~= outcome_views(sr.outcomes@));
                assert(s@.subrange(0, total as int) =~= s@.subrange(0, p1 as int) + s@.subrange(
                    p1 as int,
                    total as int,
                ));
                assert(s@.subrange(0, total as int) =~= s@);
                assert(text@ == spec_encode_scan(sr@));
                assert forall|g: Seq<OutcomeView>|
                    text@ == spec_encode_scan(g) implies sr@ == g by {
                    assert(s@.subrange(0, spec_encode_scan(g).len() as int) =~= s@);
                    assert(has_prefix(s@, 0, spec_encode_scan(g)));
                    assert(g.take(j as int) =~= g);
                    assert(sr@ =~= g);
                }
            }
            Option::Some(sr)
        },
    }
}

} // verus!
