//! Durations in whole seconds: reading them from text and rendering them as
//! zero-padded `HH:MM:SS`.

use vstd::prelude::*;
use vstd::string::StrSliceExecFns;
use vstd::string::StringExecFns;
use vstd::arithmetic::div_mod::{lemma_fundamental_div_mod, lemma_mod_mod};

verus! {

/// A decimal digit.
pub open spec fn is_digit(c: char) -> bool {
    '0' <= c && c <= '9'
}

/// The value of a decimal digit.
pub open spec fn digit_value(c: char) -> nat {
    (c as int - '0' as int) as nat
}

/// Every character of `s` is a decimal digit.
pub open spec fn all_digits(s: Seq<char>) -> bool {
    forall|i: int| 0 <= i < s.len() ==> is_digit(#[trigger] s[i])
}

/// The value of a string of decimal digits, most significant first.
pub open spec fn digits_value(s: Seq<char>) -> nat
    decreases s.len(),
{
    if s.len() == 0 {
        0
    } else {
        digits_value(s.drop_last()) * 10 + digit_value(s.last())
    }
}

/// The digits of an unsigned number: the text without one leading `+`.
pub open spec fn unsigned_digits(s: Seq<char>) -> Seq<char> {
    if s.len() > 0 && s[0] == '+' {
        s.drop_first()
    } else {
        s
    }
}

/// The value of `s` read as a non-negative integer that fits in 64 bits: one or
/// more decimal digits, optionally after a `+`; `None` for any other text.
pub open spec fn number_of(s: Seq<char>) -> Option<nat> {
    let d = unsigned_digits(s);
    if d.len() > 0 && all_digits(d) && digits_value(d) <= u64::MAX {
        Some(digits_value(d))
    } else {
        None
    }
}

proof fn lemma_prefix_value_le(t: Seq<char>, k: int)
    requires
        0 <= k <= t.len(),
    ensures
        digits_value(t.subrange(0, k)) <= digits_value(t),
    decreases t.len(),
{
    if k < t.len() {
        lemma_prefix_value_le(t.drop_last(), k);
        assert(t.drop_last().subrange(0, k) =~= t.subrange(0, k));
    } else {
        assert(t.subrange(0, k) =~= t);
    }
}

/// Reads the characters `from..to` of `s` as a non-negative integer.
fn number_in(s: &str, from: usize, to: usize) -> (r: Option<u64>)
    requires
        from <= to <= s@.len(),
    ensures
        r matches Some(v) ==> number_of(s@.subrange(from as int, to as int)) == Some(v as nat),
        r is None ==> number_of(s@.subrange(from as int, to as int)) is None,
{
    let ghost t = s@.subrange(from as int, to as int);
    let mut start: usize = from;
    if from < to && s.get_char(from) == '+' {
        start = from + 1;
    }
    let ghost d = s@.subrange(start as int, to as int);
    assert(d =~= unsigned_digits(t));
    if start == to {
        return None;
    }
    let mut value: u64 = 0;
    let mut i: usize = start;
    while i < to
        invariant
            from <= start <= i <= to <= s@.len(),
            d == s@.subrange(start as int, to as int),
            t == s@.subrange(from as int, to as int),
            d == unsigned_digits(t),
            d.len() > 0,
            all_digits(d.subrange(0, i - start)),
            value as nat == digits_value(d.subrange(0, i - start)),
        decreases to - i,
    {
        let c = s.get_char(i);
        if c < '0' || c > '9' {
            assert(d[i - start] == c);
            assert(!all_digits(d));
            return None;
        }
        let digit: u64 = (c as u32 - '0' as u32) as u64;
        let ghost next = d.subrange(0, i + 1 - start);
        assert(next.drop_last() =~= d.subrange(0, i - start));
        assert(next.last() == c);
        assert(digit_value(c) == digit as nat);
        assert(digits_value(next) == value as nat * 10 + digit as nat);
        let scaled = value.checked_mul(10);
        match scaled {
            Some(m) => {
                match m.checked_add(digit) {
                    Some(v) => {
                        value = v;
                    },
                    None => {
                        proof {
                            lemma_prefix_value_le(d, i + 1 - start);
                            assert(digits_value(d) > u64::MAX);
                        }
                        return None;
                    },
                }
            },
            None => {
                proof {
                    lemma_prefix_value_le(d, i + 1 - start);
                    assert(value as nat * 10 > u64::MAX);
                    assert(digits_value(d) > u64::MAX);
                }
                return None;
            },
        }
        i = i + 1;
    }
    assert(d.subrange(0, i - start) =~= d);
    Some(value)
}

/// Where the last `:`-separated field of `s` starts: just after the last `:`,
/// or at 0 when `s` holds none.
pub open spec fn last_field_start(s: Seq<char>) -> nat
    decreases s.len(),
{
    if s.len() == 0 {
        0
    } else if s.last() == ':' {
        s.len()
    } else {
        last_field_start(s.drop_last())
    }
}

/// The text after the last `:` of `s` (all of `s` when it holds none).
pub open spec fn last_field(s: Seq<char>) -> Seq<char> {
    s.subrange(last_field_start(s) as int, s.len() as int)
}

/// The text before the last `:` of `s`, if it holds one.
pub open spec fn before_last_field(s: Seq<char>) -> Option<Seq<char>> {
    if last_field_start(s) == 0 {
        None
    } else {
        Some(s.subrange(0, last_field_start(s) - 1))
    }
}

/// Why a text is not a duration, as a value: `Some(token)` for a field that is
/// not a number, `None` for a total beyond 64 bits of seconds.
pub type Fault = Option<Seq<char>>;

/// The optional field `f` read as a number scaled by `unit`: 0 when absent,
/// a fault when it is not a number or the scaled value passes `u64::MAX`.
pub open spec fn scaled_field(f: Option<Seq<char>>, unit: nat) -> Result<nat, Fault> {
    match f {
        None => Ok(0),
        Some(t) => match number_of(t) {
            Some(v) => if v * unit <= u64::MAX {
                Ok(v * unit)
            } else {
                Err(None)
            },
            None => Err(Some(t)),
        },
    }
}

/// The number of seconds that `s` denotes.
///
/// A plain number counts minutes. Any other text is read as
/// `[[hours:]minutes:]seconds`, fields taken from the right; fields before the
/// hours are ignored and no field is range-checked. The first field that is
/// not a number, or whose scaled value passes `u64::MAX`, taken in the order
/// hours, minutes, seconds, is the fault; so is a total beyond `u64::MAX`.
pub open spec fn duration_of(s: Seq<char>) -> Result<nat, Fault> {
    match number_of(s) {
        Some(minutes) => if minutes * 60 <= u64::MAX {
            Ok(minutes * 60)
        } else {
            Err(None)
        },
        None => {
            let seconds = last_field(s);
            let rest = before_last_field(s);
            let minutes = match rest {
                Some(r) => Some(last_field(r)),
                None => None,
            };
            let hours = match rest {
                Some(r) => match before_last_field(r) {
                    Some(q) => Some(last_field(q)),
                    None => None,
                },
                None => None,
            };
            match scaled_field(hours, 3600) {
                Err(e) => Err(e),
                Ok(h) => match scaled_field(minutes, 60) {
                    Err(e) => Err(e),
                    Ok(m) => match scaled_field(Some(seconds), 1) {
                        Err(e) => Err(e),
                        Ok(sec) => if h + m + sec <= u64::MAX {
                            Ok(h + m + sec)
                        } else {
                            Err(None)
                        },
                    },
                },
            }
        },
    }
}

/// Why a text could not be read as a duration.
#[derive(Debug, PartialEq, Eq)]
pub enum ParseError {
    /// A field is not a non-negative integer; it carries that field.
    InvalidNumber { token: String },
    /// The duration does not fit in 64 bits of seconds.
    TooLarge,
}

impl ParseError {
    /// This error as a value of `Fault`.
    pub open spec fn fault(&self) -> Fault {
        match self {
            ParseError::InvalidNumber { token } => Some(token@),
            ParseError::TooLarge => None,
        }
    }
}

/// Where the field that ends at `end` starts.
fn field_start(s: &str, end: usize) -> (r: usize)
    requires
        end <= s@.len(),
    ensures
        r == last_field_start(s@.subrange(0, end as int)),
        r <= end,
{
    let mut i: usize = end;
    while i > 0 && s.get_char(i - 1) != ':'
        invariant
            i <= end <= s@.len(),
            last_field_start(s@.subrange(0, i as int)) == last_field_start(s@.subrange(0, end as int)),
        decreases i,
    {
        assert(s@.subrange(0, i as int).drop_last() =~= s@.subrange(0, i - 1));
        i = i - 1;
    }
    i
}

/// Reads the characters `a..b` of `s`, when `field` is `Some((a, b))`, as a
/// number scaled by `unit`.
fn read_field(s: &str, field: Option<(usize, usize)>, unit: u64) -> (r: Result<u64, ParseError>)
    requires
        field matches Some((a, b)) ==> a <= b <= s@.len(),
        1 <= unit <= 3600,
    ensures
        ({
            let f = match field {
                Some((a, b)) => Some(s@.subrange(a as int, b as int)),
                None => None,
            };
            match r {
                Ok(v) => scaled_field(f, unit as nat) == Ok::<nat, Fault>(v as nat),
                Err(e) => scaled_field(f, unit as nat) == Err::<nat, Fault>(e.fault()),
            }
        }),
{
    match field {
        None => Ok(0),
        Some((a, b)) => match number_in(s, a, b) {
            None => Err(ParseError::InvalidNumber { token: s.substring_char(a, b).to_owned() }),
            Some(v) => match v.checked_mul(unit) {
                Some(x) => Ok(x),
                None => Err(ParseError::TooLarge),
            },
        },
    }
}


/// Reads a duration in whole seconds from `duration`: a plain number counts
/// minutes, any other text is `[[hours:]minutes:]seconds` (see `duration_of`).
pub fn parse_duration_string(duration: &str) -> (r: Result<u64, ParseError>)
    ensures
        match r {
            Ok(v) => duration_of(duration@) == Ok::<nat, Fault>(v as nat),
            Err(e) => duration_of(duration@) == Err::<nat, Fault>(e.fault()),
        },
{
    let n = duration.unicode_len();
    assert(duration@.subrange(0, n as int) =~= duration@);
    if let Some(minutes) = number_in(duration, 0, n) {
        return match minutes.checked_mul(60) {
            Some(v) => Ok(v),
            None => Err(ParseError::TooLarge),
        };
    }
    let ghost s = duration@;
    let sec_start = field_start(duration, n);
    let mut minutes: Option<(usize, usize)> = None;
    let mut hours: Option<(usize, usize)> = None;
    if sec_start > 0 {
        let min_end = sec_start - 1;
        let min_start = field_start(duration, min_end);
        let ghost r = s.subrange(0, min_end as int);
        assert(before_last_field(s) == Some(r));
        assert(r.subrange(0, min_end as int) =~= r);
        assert(r.subrange(min_start as int, min_end as int) =~= s.subrange(
            min_start as int,
            min_end as int,
        ));
        minutes = Some((min_start, min_end));
        if min_start > 0 {
            let h_end = min_start - 1;
            let h_start = field_start(duration, h_end);
            let ghost q = s.subrange(0, h_end as int);
            assert(r.subrange(0, h_end as int) =~= q);
            assert(before_last_field(r) == Some(q));
            assert(q.subrange(h_start as int, h_end as int) =~= s.subrange(
                h_start as int,
                h_end as int,
            ));
            hours = Some((h_start, h_end));
        }
    }
    let h = match read_field(duration, hours, 3600) {
        Ok(v) => v,
        Err(e) => return Err(e),
    };
    let m = match read_field(duration, minutes, 60) {
        Ok(v) => v,
        Err(e) => return Err(e),
    };
    let sec = match read_field(duration, Some((sec_start, n)), 1) {
        Ok(v) => v,
        Err(e) => return Err(e),
    };
    match h.checked_add(m) {
        Some(hm) => match hm.checked_add(sec) {
            Some(total) => Ok(total),
            None => Err(ParseError::TooLarge),
        },
        None => Err(ParseError::TooLarge),
    }
}

/// The decimal digit for `d < 10`.
pub open spec fn digit_char(d: nat) -> char {
    seq!['0', '1', '2', '3', '4', '5', '6', '7', '8', '9'][d as int]
}

/// `n` in decimal, without leading zeros.
pub open spec fn decimal(n: nat) -> Seq<char>
    decreases n,
{
    if n < 10 {
        seq![digit_char(n)]
    } else {
        decimal(n / 10).push(digit_char(n % 10))
    }
}

/// `n` in decimal, with a leading zero when it has one digit only.
pub open spec fn two_digits(n: nat) -> Seq<char> {
    if n < 10 {
        seq!['0', digit_char(n)]
    } else {
        decimal(n)
    }
}

/// `secs` as `HH:MM:SS`: each field zero-padded to two digits, the hours
/// unbounded.
pub open spec fn clock_text(secs: nat) -> Seq<char> {
    two_digits(secs / 3600) + seq![':'] + two_digits((secs % 3600) / 60) + seq![':'] + two_digits(
        secs % 60,
    )
}

/// The one-character text of the digit `d`.
fn digit_text(d: u64) -> (r: &'static str)
    requires
        d < 10,
    ensures
        r@ == seq![digit_char(d as nat)],
{
    proof {
        reveal_strlit("0");
        reveal_strlit("1");
        reveal_strlit("2");
        reveal_strlit("3");
        reveal_strlit("4");
        reveal_strlit("5");
        reveal_strlit("6");
        reveal_strlit("7");
        reveal_strlit("8");
        reveal_strlit("9");
    }
    let r = match d {
        0 => "0",
        1 => "1",
        2 => "2",
        3 => "3",
        4 => "4",
        5 => "5",
        6 => "6",
        7 => "7",
        8 => "8",
        _ => "9",
    };
    assert(r@ =~= seq![digit_char(d as nat)]);
    r
}

/// Appends `n` in decimal to `out`.
fn push_decimal(out: &mut String, n: u64)
    ensures
        final(out)@ == old(out)@ + decimal(n as nat),
    decreases n,
{
    if n >= 10 {
        push_decimal(out, n / 10);
    }
    out.append(digit_text(n % 10));
    assert(final(out)@ =~= old(out)@ + decimal(n as nat));
}

/// Appends `n` in decimal, zero-padded to two digits, to `out`.
fn push_two_digits(out: &mut String, n: u64)
    ensures
        final(out)@ == old(out)@ + two_digits(n as nat),
{
    if n < 10 {
        out.append(digit_text(0));
    }
    push_decimal(out, n);
    assert(final(out)@ =~= old(out)@ + two_digits(n as nat));
}

/// Renders `secs` seconds as `HH:MM:SS`, the hours unbounded.
pub fn duration_to_string(secs: u64) -> (r: String)
    ensures
        r@ == clock_text(secs as nat),
{
    let mut out = String::new();
    push_two_digits(&mut out, secs / 3600);
    proof {
        reveal_strlit(":");
    }
    out.append(":");
    push_two_digits(&mut out, (secs % 3600) / 60);
    out.append(":");
    push_two_digits(&mut out, secs % 60);
    assert(out@ =~= clock_text(secs as nat));
    out
}

proof fn lemma_digit_char(k: nat)
    requires
        k < 10,
    ensures
        is_digit(digit_char(k)),
        digit_value(digit_char(k)) == k,
{
    if k == 0 {
    } else if k == 1 {
    } else if k == 2 {
    } else if k == 3 {
    } else if k == 4 {
    } else if k == 5 {
    } else if k == 6 {
    } else if k == 7 {
    } else if k == 8 {
    } else {
    }
}

proof fn lemma_decimal(n: nat)
    ensures
        decimal(n).len() > 0,
        all_digits(decimal(n)),
        digits_value(decimal(n)) == n,
    decreases n,
{
    if n < 10 {
        lemma_digit_char(n);
        assert(decimal(n).drop_last() =~= Seq::<char>::empty());
        assert(digits_value(Seq::<char>::empty()) == 0);
    } else {
        lemma_decimal(n / 10);
        lemma_digit_char(n % 10);
        assert(decimal(n).drop_last() =~= decimal(n / 10));
    }
}

proof fn lemma_two_digits(n: nat)
    requires
        n <= u64::MAX,
    ensures
        two_digits(n).len() > 0,
        all_digits(two_digits(n)),
        number_of(two_digits(n)) == Some(n),
        forall|i: int| 0 <= i < two_digits(n).len() ==> #[trigger] two_digits(n)[i] != ':',
{
    lemma_decimal(n);
    if n < 10 {
        lemma_digit_char(n);
        let t = two_digits(n);
        assert(t.drop_last() =~= seq!['0']);
        assert(seq!['0'].drop_last() =~= Seq::<char>::empty());
        assert(digits_value(Seq::<char>::empty()) == 0);
        assert(digit_value('0') == 0);
        assert(digits_value(seq!['0']) == 0);
    }
    let t = two_digits(n);
    assert(is_digit(t[0]));
    assert(unsigned_digits(t) == t);
}

proof fn lemma_start_skips(p: Seq<char>, q: Seq<char>)
    requires
        forall|i: int| 0 <= i < q.len() ==> #[trigger] q[i] != ':',
    ensures
        last_field_start(p + q) == last_field_start(p),
    decreases q.len(),
{
    if q.len() == 0 {
        assert(p + q =~= p);
    } else {
        assert((p + q).drop_last() =~= p + q.drop_last());
        assert(q.drop_last().len() < q.len());
        assert forall|i: int| 0 <= i < q.drop_last().len() implies #[trigger] q.drop_last()[i]
            != ':' by {
            assert(q.drop_last()[i] == q[i]);
        }
        lemma_start_skips(p, q.drop_last());
        assert((p + q).last() == q.last());
    }
}

/// The field that follows a `:` starts right after it.
proof fn lemma_field_after_colon(p: Seq<char>, q: Seq<char>)
    requires
        forall|i: int| 0 <= i < q.len() ==> #[trigger] q[i] != ':',
    ensures
        last_field_start(p.push(':') + q) == p.len() + 1,
        last_field(p.push(':') + q) == q,
        before_last_field(p.push(':') + q) == Some(p),
{
    lemma_start_skips(p.push(':'), q);
    let s = p.push(':') + q;
    assert(s.subrange(p.len() + 1 as int, s.len() as int) =~= q);
    assert(s.subrange(0, p.len() as int) =~= p);
}

/// Reading back a rendered duration gives that duration: `HH:MM:SS` from
/// `duration_to_string` parses to the same number of seconds.
pub proof fn lemma_parse_inverts_format(secs: u64)
    ensures
        duration_of(clock_text(secs as nat)) == Ok::<nat, Fault>(secs as nat),
{
    let d = secs as nat;
    let h = d / 3600;
    let m = (d % 3600) / 60;
    let sc = d % 60;
    let a = two_digits(h);
    let b = two_digits(m);
    let c = two_digits(sc);
    lemma_two_digits(h);
    lemma_two_digits(m);
    lemma_two_digits(sc);
    let text = clock_text(d);
    let r = a.push(':') + b;
    assert(text =~= r.push(':') + c);
    assert(a =~= Seq::<char>::empty() + a);
    lemma_start_skips(Seq::<char>::empty(), a);
    assert(last_field_start(Seq::<char>::empty()) == 0);
    assert(last_field(a) =~= a);
    lemma_field_after_colon(a, b);
    lemma_field_after_colon(r, c);
    assert(text[a.len() as int] == ':');
    assert(unsigned_digits(text) == text);
    assert(!all_digits(text));
    assert(number_of(text) is None);
    lemma_fundamental_div_mod(d as int, 3600);
    lemma_fundamental_div_mod(d as int % 3600, 60);
    lemma_mod_mod(d as int, 60, 60);
    assert(h * 3600 + m * 60 + sc == d);
}

} // verus!
