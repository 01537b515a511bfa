//! Durations and rates as they are stored and displayed: a duration is an
//! integer with a unit suffix (`ms`, `s`, `m`, `h`, `d`), a rate is an
//! event count over a duration, written `count/duration`. Rendering picks
//! the largest unit that divides the value evenly.

use vstd::prelude::*;
use crate::text::{all_digits, dec_rep, dec_val, dec_string, parse_u64};

verus! {

pub const MS_PER_SECOND: u64 = 1000;

pub const MS_PER_MINUTE: u64 = 60000;

pub const MS_PER_HOUR: u64 = 3600000;

pub const MS_PER_DAY: u64 = 86400000;

/// The value of a digit string scaled by a unit factor, when the digits
/// are well formed and the product fits.
pub open spec fn num_times(digits: Seq<char>, factor: u64) -> Option<u64> {
    if digits.len() > 0 && all_digits(digits) && dec_val(digits) * factor <= u64::MAX {
        Some((dec_val(digits) * factor) as u64)
    } else {
        None
    }
}

/// The milliseconds a stored duration denotes: digits followed by one of
/// the suffixes `ms`, `s`, `m`, `h`, `d`; anything else is rejected.
pub open spec fn parse_duration_spec(s: Seq<char>) -> Option<u64> {
    if s.len() >= 2 && s[s.len() - 2] == 'm' && s[s.len() - 1] == 's' {
        num_times(s.take(s.len() - 2), 1)
    } else if s.len() >= 1 && s[s.len() - 1] == 's' {
        num_times(s.take(s.len() - 1), MS_PER_SECOND)
    } else if s.len() >= 1 && s[s.len() - 1] == 'm' {
        num_times(s.take(s.len() - 1), MS_PER_MINUTE)
    } else if s.len() >= 1 && s[s.len() - 1] == 'h' {
        num_times(s.take(s.len() - 1), MS_PER_HOUR)
    } else if s.len() >= 1 && s[s.len() - 1] == 'd' {
        num_times(s.take(s.len() - 1), MS_PER_DAY)
    } else {
        None
    }
}

/// How a duration in milliseconds is displayed: under the largest unit
/// that divides it evenly.
pub open spec fn format_duration_spec(ms: u64) -> Seq<char> {
    if ms % MS_PER_DAY == 0 {
        dec_rep((ms / MS_PER_DAY) as nat) + seq!['d']
    } else if ms % MS_PER_HOUR == 0 {
        dec_rep((ms / MS_PER_HOUR) as nat) + seq!['h']
    } else if ms % MS_PER_MINUTE == 0 {
        dec_rep((ms / MS_PER_MINUTE) as nat) + seq!['m']
    } else if ms % MS_PER_SECOND == 0 {
        dec_rep((ms / MS_PER_SECOND) as nat) + seq!['s']
    } else {
        dec_rep(ms as nat) + seq!['m', 's']
    }
}

fn parse_scaled(digits: &str, factor: u64) -> (r: Option<u64>)
    requires
        factor >= 1,
    ensures
        r == num_times(digits@, factor),
{
    match parse_u64(digits) {
        Some(v) => {
            proof {
                if dec_val(digits@) * factor > u64::MAX {
                    assert(v * factor > u64::MAX);
                }
            }
            v.checked_mul(factor)
        },
        None => {
            proof {
                if digits@.len() > 0 && all_digits(digits@) {
                    assert(dec_val(digits@) > u64::MAX);
                    assert(dec_val(digits@) * factor >= dec_val(digits@) * 1)
                        by (nonlinear_arith)
                        requires
                            factor >= 1,
                    ;
                }
            }
            None
        },
    }
}

/// Parses a stored duration into milliseconds.
pub fn parse_duration(s: &str) -> (r: Option<u64>)
    ensures
        r == parse_duration_spec(s@),
{
    let n = s.unicode_len();
    if n >= 2 && s.get_char(n - 2) == 'm' && s.get_char(n - 1) == 's' {
        let digits = s.substring_char(0, n - 2);
        proof {
            assert(digits@ =~= s@.take(n as int - 2));
        }
        parse_scaled(digits, 1)
    } else if n >= 1 && s.get_char(n - 1) == 's' {
        let digits = s.substring_char(0, n - 1);
        proof {
            assert(digits@ =~= s@.take(n as int - 1));
        }
        parse_scaled(digits, MS_PER_SECOND)
    } else if n >= 1 && s.get_char(n - 1) == 'm' {
        let digits = s.substring_char(0, n - 1);
        proof {
            assert(digits@ =~= s@.take(n as int - 1));
        }
        parse_scaled(digits, MS_PER_MINUTE)
    } else if n >= 1 && s.get_char(n - 1) == 'h' {
        let digits = s.substring_char(0, n - 1);
        proof {
            assert(digits@ =~= s@.take(n as int - 1));
        }
        parse_scaled(digits, MS_PER_HOUR)
    } else if n >= 1 && s.get_char(n - 1) == 'd' {
        let digits = s.substring_char(0, n - 1);
        proof {
            assert(digits@ =~= s@.take(n as int - 1));
        }
        parse_scaled(digits, MS_PER_DAY)
    } else {
        None
    }
}

/// Renders a duration in milliseconds under its largest even unit.
pub fn format_duration(ms: u64) -> (r: String)
    ensures
        r@ == format_duration_spec(ms),
{
    proof {
        reveal_strlit("d");
        reveal_strlit("h");
        reveal_strlit("m");
        reveal_strlit("s");
        reveal_strlit("ms");
        assert("d"@ =~= seq!['d']);
        assert("h"@ =~= seq!['h']);
        assert("m"@ =~= seq!['m']);
        assert("s"@ =~= seq!['s']);
        assert("ms"@ =~= seq!['m', 's']);
    }
    if ms % MS_PER_DAY == 0 {
        let mut r = dec_string(ms / MS_PER_DAY);
        r.append("d");
        r
    } else if ms % MS_PER_HOUR == 0 {
        let mut r = dec_string(ms / MS_PER_HOUR);
        r.append("h");
        r
    } else if ms % MS_PER_MINUTE == 0 {
        let mut r = dec_string(ms / MS_PER_MINUTE);
        r.append("m");
        r
    } else if ms % MS_PER_SECOND == 0 {
        let mut r = dec_string(ms / MS_PER_SECOND);
        r.append("s");
        r
    } else {
        let mut r = dec_string(ms);
        r.append("ms");
        r
    }
}

/// The first position of `c` in `s`, or the length when absent.
pub open spec fn first_index_of(s: Seq<char>, c: char) -> int
    decreases s.len(),
{
    if s.len() == 0 {
        0
    } else if s[0] == c {
        0
    } else {
        1 + first_index_of(s.drop_first(), c)
    }
}

proof fn lemma_first_index_of(s: Seq<char>, c: char)
    ensures
        0 <= first_index_of(s, c) <= s.len(),
        first_index_of(s, c) < s.len() ==> s[first_index_of(s, c)] == c,
        forall|j: int| 0 <= j < first_index_of(s, c) ==> s[j] != c,
    decreases s.len(),
{
    if s.len() == 0 {
    } else if s[0] == c {
    } else {
        lemma_first_index_of(s.drop_first(), c);
        assert forall|j: int| 0 <= j < first_index_of(s, c) implies s[j] != c by {
            if j > 0 {
                assert(s.drop_first()[j - 1] == s[j]);
            }
        }
    }
}

/// The count and period a stored rate denotes: digits, a slash, then a
/// duration.
pub open spec fn parse_rate_spec(s: Seq<char>) -> Option<(u64, u64)> {
    let i = first_index_of(s, '/');
    if i >= s.len() {
        None
    } else {
        let digits = s.take(i);
        let dur = s.skip(i + 1);
        if digits.len() > 0 && all_digits(digits) && dec_val(digits) <= u64::MAX {
            match parse_duration_spec(dur) {
                Some(ms) => Some((dec_val(digits) as u64, ms)),
                None => None,
            }
        } else {
            None
        }
    }
}

/// How a rate is displayed: the count, a slash, and the period.
pub open spec fn format_rate_spec(count: u64, ms: u64) -> Seq<char> {
    dec_rep(count as nat) + seq!['/'] + format_duration_spec(ms)
}

fn find_slash(s: &str) -> (r: usize)
    ensures
        r == first_index_of(s@, '/'),
{
    proof {
        lemma_first_index_of(s@, '/');
    }
    let n = s.unicode_len();
    let mut i: usize = 0;
    while i < n
        invariant
            0 <= i <= n,
            n == s@.len(),
            forall|j: int| 0 <= j < i ==> s@[j] != '/',
        decreases n - i,
    {
        if s.get_char(i) == '/' {
            proof {
                lemma_first_index_unique(s@, '/', i as int);
            }
            return i;
        }
        i += 1;
    }
    proof {
        lemma_first_index_absent(s@, '/');
    }
    n
}

proof fn lemma_first_index_unique(s: Seq<char>, c: char, i: int)
    requires
        0 <= i < s.len(),
        s[i] == c,
        forall|j: int| 0 <= j < i ==> s[j] != c,
    ensures
        first_index_of(s, c) == i,
    decreases i,
{
    if i == 0 {
    } else {
        assert(forall|j: int| 0 <= j < s.len() - 1 ==> s.drop_first()[j] == s[j + 1]);
        lemma_first_index_unique(s.drop_first(), c, i - 1);
    }
}

proof fn lemma_first_index_absent(s: Seq<char>, c: char)
    requires
        forall|j: int| 0 <= j < s.len() ==> s[j] != c,
    ensures
        first_index_of(s, c) == s.len(),
    decreases s.len(),
{
    if s.len() == 0 {
    } else {
        assert(forall|j: int| 0 <= j < s.len() - 1 ==> s.drop_first()[j] == s[j + 1]);
        lemma_first_index_absent(s.drop_first(), c);
    }
}

/// Parses a stored rate into its count and period in milliseconds.
pub fn parse_rate(s: &str) -> (r: Option<(u64, u64)>)
    ensures
        r == parse_rate_spec(s@),
{
    let n = s.unicode_len();
    let i = find_slash(s);
    proof {
        lemma_first_index_of(s@, '/');
    }
    if i >= n {
        return None;
    }
    let digits = s.substring_char(0, i);
    let dur = s.substring_char(i + 1, n);
    proof {
        assert(digits@ =~= s@.take(i as int));
        assert(dur@ =~= s@.skip(i as int + 1));
    }
    match parse_u64(digits) {
        Some(count) => match parse_duration(dur) {
            Some(ms) => Some((count, ms)),
            None => None,
        },
        None => None,
    }
}

/// Renders a rate as `count/period`.
pub fn format_rate(count: u64, ms: u64) -> (r: String)
    ensures
        r@ == format_rate_spec(count, ms),
{
    proof {
        reveal_strlit("/");
        assert("/"@ =~= seq!['/']);
    }
    let mut r = dec_string(count);
    r.append("/");
    let d = format_duration(ms);
    r.append(d.as_str());
    r
}

} // verus!
