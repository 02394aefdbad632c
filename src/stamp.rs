//! UTC instants and their stored textual form.
//!
//! An instant is kept as whole seconds since the Unix epoch plus the
//! nanoseconds within that second. Its stored form is ASCII text of fixed
//! width: a sign, nineteen digits of seconds, a dot and nine digits of
//! nanoseconds, e.g. `+0000000001700000000.000000123`. The form is exact
//! (no precision is lost) and carries no time zone: it is always UTC.
use vstd::prelude::*;
use chrono::{DateTime, Utc};

verus! {

/// Number of nanoseconds in one second.
pub const NANOS_PER_SEC: u32 = 1_000_000_000;

/// Length in bytes of the stored form of an instant.
pub const STAMP_LEN: usize = 30;

/// Digits used for the magnitude of the seconds.
pub const SECS_DIGITS: usize = 19;

/// Digits used for the nanoseconds.
pub const NANOS_DIGITS: usize = 9;

/// ASCII `0`.
pub const ZERO: u8 = 48;

/// ASCII `9`.
pub const NINE: u8 = 57;

/// ASCII `+`, the sign of instants at or after the epoch.
pub const PLUS: u8 = 43;

/// ASCII `-`, the sign of instants before the epoch.
pub const MINUS: u8 = 45;

/// ASCII `.`, between seconds and nanoseconds.
pub const DOT: u8 = 46;

/// Seconds of 0000-01-01T00:00:00Z, the first instant that RFC 2822 can write.
pub const RFC2822_FIRST_SECS: i64 = -62167219200;

/// Seconds of 9999-12-31T23:59:59Z, the last second that RFC 2822 can write.
pub const RFC2822_LAST_SECS: i64 = 253402300799;

/// The RFC 2822 rendering of the instant `secs` seconds and `nanos`
/// nanoseconds after the epoch, in UTC, as chrono writes it.
pub uninterp spec fn rfc2822_of(secs: int, nanos: int) -> Seq<char>;

/// Relies on chrono's `DateTime::<Utc>::from_timestamp`, which gives a
/// value for every second in years 0 to 9999 and nanoseconds below one
/// second, and `DateTime::to_rfc2822`, which renders such a value (it panics
/// only for years outside 0 to 9999, which `requires` excludes).
#[verifier::external_body]
fn rfc2822_text(secs: i64, nanos: u32) -> (r: String)
    requires
        RFC2822_FIRST_SECS <= secs <= RFC2822_LAST_SECS,
        nanos < NANOS_PER_SEC,
    ensures
        r@ == rfc2822_of(secs as int, nanos as int),
{
    match DateTime::<Utc>::from_timestamp(secs, nanos) {
        Some(d) => d.to_rfc2822(),
        None => String::new(),
    }
}

/// A UTC instant with nanosecond precision.
#[derive(Clone, Copy, Debug, PartialEq, Eq, Structural)]
pub struct Instant {
    /// Whole seconds since 1970-01-01T00:00:00Z; negative before it.
    pub secs: i64,
    /// Nanoseconds past `secs`, below one second when well formed.
    pub nanos: u32,
}

impl Instant {
    /// A valid instant has fewer nanoseconds than one second.
    pub open spec fn wf(self) -> bool {
        self.nanos < NANOS_PER_SEC
    }

    /// The instant `secs` seconds and `nanos` nanoseconds after the epoch,
    /// or `None` where `nanos` is a second or more.
    pub fn new(secs: i64, nanos: u32) -> (r: Option<Instant>)
        ensures
            nanos < NANOS_PER_SEC ==> r == Some(Instant { secs, nanos }),
            nanos >= NANOS_PER_SEC ==> r is None,
    {
        if nanos < NANOS_PER_SEC {
            Some(Instant { secs, nanos })
        } else {
            None
        }
    }

    /// Renders the instant in its stored form.
    pub fn to_stamp(&self) -> (r: Vec<u8>)
        ensures
            r@ == stamp_text(*self),
    {
        let mut out: Vec<u8> = Vec::new();
        if self.secs < 0 {
            out.push(MINUS);
        } else {
            out.push(PLUS);
        }
        let magnitude: u64 = if self.secs < 0 {
            ((-(self.secs + 1)) as u64) + 1
        } else {
            self.secs as u64
        };
        push_digits(&mut out, magnitude, SECS_DIGITS);
        out.push(DOT);
        push_digits(&mut out, self.nanos as u64, NANOS_DIGITS);
        proof {
            assert(out@ =~= stamp_text(*self));
        }
        out
    }

    /// The instant in RFC 2822 form, for people to read (whole seconds,
    /// `+0000` as offset), or `None` where its year lies outside 0 to 9999,
    /// which that form cannot write.
    pub fn to_rfc2822(&self) -> (r: Option<String>)
        requires
            self.wf(),
        ensures
            r is Some <==> RFC2822_FIRST_SECS <= self.secs <= RFC2822_LAST_SECS,
            r matches Some(s) ==> s@ == rfc2822_of(self.secs as int, self.nanos as int),
    {
        if RFC2822_FIRST_SECS <= self.secs && self.secs <= RFC2822_LAST_SECS {
            Some(rfc2822_text(self.secs, self.nanos))
        } else {
            None
        }
    }

    /// Reads an instant back from its stored form; `None` where the text is
    /// not the stored form of any instant.
    pub fn parse_stamp(s: &[u8]) -> (r: Option<Instant>)
        ensures
            r == stamp_parse(s@),
            r matches Some(t) ==> t.wf(),
    {
        if s.len() != STAMP_LEN {
            return None;
        }
        let sign = s[0];
        if sign != PLUS && sign != MINUS {
            return None;
        }
        if s[20] != DOT {
            return None;
        }
        let m = match read_digits(s, 1, 20) {
            Some(v) => v,
            None => return None,
        };
        let n = match read_digits(s, 21, 30) {
            Some(v) => v,
            None => return None,
        };
        proof {
            lemma_value_bound(s@.subrange(21, 30));
            lemma_pow10_widths();
        }
        let nanos = n as u32;
        if sign == PLUS {
            if m <= i64::MAX as u64 {
                Some(Instant { secs: m as i64, nanos })
            } else {
                None
            }
        } else {
            if 1 <= m && m <= (i64::MAX as u64) + 1 {
                let secs: i64 = -((m - 1) as i64) - 1;
                Some(Instant { secs, nanos })
            } else {
                None
            }
        }
    }
}

/// Ten to the power `w`.
pub open spec fn pow10(w: nat) -> nat
    decreases w,
{
    if w == 0 {
        1
    } else {
        10 * pow10((w - 1) as nat)
    }
}

/// Whether a byte is an ASCII decimal digit.
pub open spec fn is_digit(b: u8) -> bool {
    ZERO <= b && b <= NINE
}

/// Whether every byte of `s` is an ASCII decimal digit.
pub open spec fn all_digits(s: Seq<u8>) -> bool {
    forall|i: int| 0 <= i < s.len() ==> is_digit(#[trigger] s[i])
}

/// The `w` lowest decimal digits of `n`, most significant first, as ASCII.
pub open spec fn digits(n: nat, w: nat) -> Seq<u8>
    decreases w,
{
    if w == 0 {
        Seq::empty()
    } else {
        digits(n / 10, (w - 1) as nat).push((ZERO + n % 10) as u8)
    }
}

/// The number that a string of ASCII decimal digits denotes.
pub open spec fn digits_value(s: Seq<u8>) -> nat
    decreases s.len(),
{
    if s.len() == 0 {
        0
    } else {
        digits_value(s.drop_last()) * 10 + (s.last() - ZERO) as nat
    }
}

/// The absolute value of the seconds of an instant.
pub open spec fn secs_magnitude(t: Instant) -> nat {
    if t.secs < 0 {
        (-t.secs) as nat
    } else {
        t.secs as nat
    }
}

/// The stored form of `t`.
pub open spec fn stamp_text(t: Instant) -> Seq<u8> {
    seq![if t.secs < 0 { MINUS } else { PLUS }] + digits(secs_magnitude(t), 19) + seq![DOT]
        + digits(t.nanos as nat, 9)
}

/// The instant whose stored form is `s`, if there is one.
pub open spec fn stamp_parse(s: Seq<u8>) -> Option<Instant> {
    if s.len() == 30 && (s[0] == PLUS || s[0] == MINUS) && s[20] == DOT && all_digits(
        s.subrange(1, 20),
    ) && all_digits(s.subrange(21, 30)) {
        let m = digits_value(s.subrange(1, 20));
        let n = digits_value(s.subrange(21, 30));
        if s[0] == PLUS && m <= i64::MAX {
            Some(Instant { secs: m as i64, nanos: n as u32 })
        } else if s[0] == MINUS && 1 <= m <= i64::MAX + 1 {
            Some(Instant { secs: (-m) as i64, nanos: n as u32 })
        } else {
            None
        }
    } else {
        None
    }
}

proof fn lemma_digits_shape(n: nat, w: nat)
    ensures
        digits(n, w).len() == w,
        all_digits(digits(n, w)),
    decreases w,
{
    if w > 0 {
        lemma_digits_shape(n / 10, (w - 1) as nat);
    }
}

proof fn lemma_digits_value(n: nat, w: nat)
    requires
        n < pow10(w),
    ensures
        digits_value(digits(n, w)) == n,
    decreases w,
{
    if w > 0 {
        let d = digits(n, w);
        assert(d.drop_last() =~= digits(n / 10, (w - 1) as nat));
        assert(n / 10 < pow10((w - 1) as nat));
        lemma_digits_value(n / 10, (w - 1) as nat);
    }
}

proof fn lemma_value_bound(s: Seq<u8>)
    requires
        all_digits(s),
    ensures
        digits_value(s) < pow10(s.len()),
    decreases s.len(),
{
    if s.len() > 0 {
        let p = s.drop_last();
        assert(all_digits(p)) by {
            assert forall|i: int| 0 <= i < p.len() implies is_digit(#[trigger] p[i]) by {
                assert(p[i] == s[i]);
            }
        }
        assert(is_digit(s[s.len() - 1]));
        lemma_value_bound(p);
    }
}

/// Reading the stored form of a valid instant gives back that instant.
pub proof fn lemma_stamp_round_trip(t: Instant)
    requires
        t.wf(),
    ensures
        stamp_parse(stamp_text(t)) == Some(t),
{
    let s = stamp_text(t);
    let m = secs_magnitude(t);
    lemma_digits_shape(m, 19);
    lemma_digits_shape(t.nanos as nat, 9);
    lemma_pow10_widths();
    lemma_digits_value(m, 19);
    lemma_digits_value(t.nanos as nat, 9);
    assert(s.subrange(1, 20) =~= digits(m, 19));
    assert(s.subrange(21, 30) =~= digits(t.nanos as nat, 9));
}

proof fn lemma_value_digits(s: Seq<u8>)
    requires
        all_digits(s),
    ensures
        digits(digits_value(s), s.len()) == s,
    decreases s.len(),
{
    if s.len() > 0 {
        let d = s.drop_last();
        assert(all_digits(d)) by {
            assert forall|i: int| 0 <= i < d.len() implies is_digit(#[trigger] d[i]) by {
                assert(d[i] == s[i]);
            }
        }
        assert(is_digit(s[s.len() - 1]));
        lemma_value_digits(d);
        let v = digits_value(s);
        assert(v / 10 == digits_value(d));
        assert(v % 10 == (s.last() - ZERO) as nat);
        assert(digits(v, s.len()) =~= d.push(s.last()));
        assert(d.push(s.last()) =~= s);
    }
}

/// Each instant has one stored form: text that reads back as an instant is
/// exactly that instant's stored form.
pub proof fn lemma_stamp_unique(s: Seq<u8>)
    requires
        stamp_parse(s) is Some,
    ensures
        stamp_text(stamp_parse(s)->Some_0) == s,
        stamp_parse(s)->Some_0.wf(),
{
    let t = stamp_parse(s)->Some_0;
    let m = s.subrange(1, 20);
    let n = s.subrange(21, 30);
    lemma_value_digits(m);
    lemma_value_digits(n);
    lemma_value_bound(n);
    lemma_pow10_widths();
    assert(secs_magnitude(t) == digits_value(m));
    assert(t.nanos as nat == digits_value(n));
    assert(stamp_text(t) =~= s);
}

/// Appends the `width` lowest decimal digits of `n` to `out`.
fn push_digits(out: &mut Vec<u8>, n: u64, width: usize)
    ensures
        final(out)@ == old(out)@ + digits(n as nat, width as nat),
    decreases width,
{
    if width > 0 {
        push_digits(out, n / 10, width - 1);
        out.push(ZERO + (n % 10) as u8);
        proof {
            assert(final(out)@ =~= old(out)@ + digits(n as nat, width as nat));
        }
    }
}

/// The number that `s[from..to]` denotes, if those bytes are all digits.
fn read_digits(s: &[u8], from: usize, to: usize) -> (r: Option<u64>)
    requires
        from <= to <= s@.len(),
        to - from <= 19,
    ensures
        r is Some <==> all_digits(s@.subrange(from as int, to as int)),
        r matches Some(v) ==> v as nat == digits_value(s@.subrange(from as int, to as int)),
{
    let mut v: u64 = 0;
    let mut i: usize = from;
    proof {
        lemma_pow10_widths();
    }
    while i < to
        invariant
            from <= i <= to <= s@.len(),
            to - from <= 19,
            all_digits(s@.subrange(from as int, i as int)),
            v as nat == digits_value(s@.subrange(from as int, i as int)),
            pow10(19) == 10_000_000_000_000_000_000,
        decreases to - i,
    {
        let b = s[i];
        if b < ZERO || b > NINE {
            assert(!is_digit(s@.subrange(from as int, to as int)[i - from]));
            return None;
        }
        proof {
            let next = s@.subrange(from as int, i + 1);
            assert(next.drop_last() =~= s@.subrange(from as int, i as int));
            assert(next.last() == b);
            assert(all_digits(next));
            lemma_value_bound(next);
            lemma_pow10_mono((i + 1 - from) as nat, 19);
        }
        v = v * 10 + (b - ZERO) as u64;
        i = i + 1;
    }
    Some(v)
}

proof fn lemma_pow10_widths()
    ensures
        pow10(9) == 1_000_000_000,
        pow10(19) == 10_000_000_000_000_000_000,
{
    reveal_with_fuel(pow10, 20);
}

proof fn lemma_pow10_mono(a: nat, b: nat)
    requires
        a <= b,
    ensures
        pow10(a) <= pow10(b),
    decreases b,
{
    if a < b {
        lemma_pow10_mono(a, (b - 1) as nat);
    }
}

} // verus!
