//! Countdown text for one arrival, relative to the feed's reference
//! timestamp.

use crate::text::{decimal_digits, decimal_text};
use vstd::prelude::*;
use vstd::string::{StrSliceExecFns, StringExecFns};

verus! {

/// The instant, in whole seconds since the Unix epoch, that an RFC 3339
/// timestamp (with its UTC offset) denotes; `None` where the text is not one.
pub uninterp spec fn rfc3339_instant(s: Seq<char>) -> Option<i64>;

/// Relies on chrono's `DateTime::parse_from_rfc3339`, and on
/// `DateTime::timestamp` for the whole seconds since the Unix epoch of what
/// it parsed; the result depends on the text alone.
#[verifier::external_body]
pub(crate) fn parse_timestamp(s: &str) -> (r: Option<i64>)
    ensures
        r == rfc3339_instant(s@),
{
    match chrono::DateTime::parse_from_rfc3339(s) {
        Ok(t) => Some(t.timestamp()),
        Err(_) => None,
    }
}

pub open spec fn leaving_text() -> Seq<char> {
    seq!['L', 'E', 'A', 'V', 'I', 'N', 'G']
}

/// `s` preceded by spaces up to `width` characters.
pub open spec fn pad_left(s: Seq<char>, width: nat) -> Seq<char> {
    if s.len() < width {
        Seq::new((width - s.len()) as nat, |i: int| ' ') + s
    } else {
        s
    }
}

/// The countdown form: minutes right-aligned in three characters, then `m `,
/// then seconds right-aligned in two characters, then `s`.
pub open spec fn minutes_seconds_text(minutes: nat, seconds: nat) -> Seq<char> {
    pad_left(decimal_digits(minutes), 3) + seq!['m', ' '] + pad_left(decimal_digits(seconds), 2)
        + seq!['s']
}

/// What is shown for an arrival `delta` seconds after the reference instant.
pub open spec fn countdown_text(delta: int) -> Seq<char> {
    if delta <= 0 {
        leaving_text()
    } else {
        minutes_seconds_text((delta / 60) as nat, (delta % 60) as nat)
    }
}

/// What is shown for an arrival timestamp that may be absent or unreadable.
pub open spec fn eta_cell(eta: Option<Seq<char>>, reference: i64) -> Seq<char> {
    match eta {
        Some(s) => match rfc3339_instant(s) {
            Some(t) => countdown_text(t - reference),
            None => Seq::empty(),
        },
        None => Seq::empty(),
    }
}

/// `LEAVING` is shown exactly for arrivals not later than the reference
/// instant.
pub proof fn lemma_leaving_iff_not_later(delta: int)
    ensures
        countdown_text(delta) == leaving_text() <==> delta <= 0,
{
    if delta > 0 {
        let t = countdown_text(delta);
        assert(t.last() == 's');
        assert(leaving_text().last() == 'G');
    }
}

/// For a fixed reference instant a later arrival is never shown as sooner
/// than an earlier one: where the later one shows `LEAVING` so does the
/// earlier, and where both show a countdown the later one's minutes and
/// seconds are the greater pair.
pub proof fn lemma_countdown_monotone(earlier: int, later: int, reference: int)
    requires
        earlier < later,
    ensures
        countdown_text(later - reference) == leaving_text() ==> countdown_text(earlier - reference)
            == leaving_text(),
        earlier - reference > 0 ==> ({
            let d1 = earlier - reference;
            let d2 = later - reference;
            &&& countdown_text(d1) == minutes_seconds_text((d1 / 60) as nat, (d1 % 60) as nat)
            &&& countdown_text(d2) == minutes_seconds_text((d2 / 60) as nat, (d2 % 60) as nat)
            &&& d1 / 60 < d2 / 60 || (d1 / 60 == d2 / 60 && d1 % 60 < d2 % 60)
        }),
{
    lemma_leaving_iff_not_later(later - reference);
    lemma_leaving_iff_not_later(earlier - reference);
    let d1 = earlier - reference;
    let d2 = later - reference;
    if d1 > 0 {
        assert(d1 / 60 <= d2 / 60) by (nonlinear_arith)
            requires
                0 < d1 < d2,
        ;
        if d1 / 60 == d2 / 60 {
            assert(d1 % 60 < d2 % 60) by (nonlinear_arith)
                requires
                    0 < d1 < d2,
                    d1 / 60 == d2 / 60,
            ;
        }
    }
}

fn pad_to(s: String, width: usize) -> (r: String)
    ensures
        r@ == pad_left(s@, width as nat),
{
    let n = s.as_str().unicode_len();
    let mut out = String::new();
    let mut i: usize = n;
    while i < width
        invariant
            n == s@.len(),
            n <= i <= width || (n > width && i == n),
            out@ == Seq::new((i - n) as nat, |k: int| ' '),
        decreases width - i,
    {
        proof {
            reveal_strlit(" ");
            assert(" "@ =~= seq![' ']);
        }
        out.append(" ");
        assert(out@ =~= Seq::new((i + 1 - n) as nat, |k: int| ' '));
        i = i + 1;
    }
    out.append(s.as_str());
    assert(out@ =~= pad_left(s@, width as nat));
    out
}

/// The countdown text for an arrival at `arrival` seconds since the epoch,
/// seen from the reference instant `reference`: `LEAVING` when the arrival
/// is not later than the reference, else minutes and seconds.
pub fn countdown(arrival: i64, reference: i64) -> (r: String)
    ensures
        r@ == countdown_text(arrival - reference),
{
    let delta: i128 = arrival as i128 - reference as i128;
    if delta <= 0 {
        proof {
            reveal_strlit("LEAVING");
            assert("LEAVING"@ =~= leaving_text());
        }
        "LEAVING".to_owned()
    } else {
        let minutes = (delta / 60) as u64;
        let seconds = (delta % 60) as u64;
        let mut out = pad_to(decimal_text(minutes), 3);
        out.append("m ");
        out.append(pad_to(decimal_text(seconds), 2).as_str());
        out.append("s");
        proof {
            reveal_strlit("m ");
            reveal_strlit("s");
            assert("m "@ =~= seq!['m', ' ']);
            assert("s"@ =~= seq!['s']);
        }
        out
    }
}

/// The text shown for one arrival timestamp: empty where it is absent or not
/// an RFC 3339 timestamp, else its countdown from `reference`.
pub fn format_eta(eta: &Option<String>, reference: i64) -> (r: String)
    ensures
        r@ == eta_cell(
            match eta {
                Some(s) => Some(s@),
                None => None,
            },
            reference,
        ),
{
    match eta {
        Some(s) => match parse_timestamp(s.as_str()) {
            Some(t) => countdown(t, reference),
            None => String::new(),
        },
        None => String::new(),
    }
}

} // verus!
