use crate::ema::DurationSec;
use vstd::prelude::*;
use vstd::string::StrSliceExecFns;

verus! {

/// The character that parts an asset identifier from a smoothing period, as
/// in `wrap.near#3600`.
pub const PERIOD_SEPARATOR: char = '#';

pub open spec fn is_digit(c: char) -> bool {
    '0' <= c && c <= '9'
}

/// The value of a string of decimal digits.
pub open spec fn decimal_value(s: Seq<char>) -> nat
    decreases s.len(),
{
    if s.len() == 0 {
        0
    } else {
        10 * decimal_value(s.drop_last()) + (s.last() as nat - '0' as nat) as nat
    }
}

pub open spec fn all_digits(s: Seq<char>) -> bool {
    forall|i: int| 0 <= i < s.len() ==> is_digit(#[trigger] s[i])
}

/// A `u32` written in decimal: an optional `+`, then one digit or more, with
/// a value that fits.
pub open spec fn parse_u32(s: Seq<char>) -> Option<u32> {
    let d = if s.len() > 0 && s[0] == '+' {
        s.drop_first()
    } else {
        s
    };
    if d.len() > 0 && all_digits(d) && decimal_value(d) <= u32::MAX {
        Some(decimal_value(d) as u32)
    } else {
        None
    }
}

/// The position of the first separator in `id`, or -1 when there is none.
pub open spec fn separator_pos(id: Seq<char>) -> int
    decreases id.len(),
{
    if id.len() == 0 {
        -1
    } else if id[0] == PERIOD_SEPARATOR {
        0
    } else {
        let p = separator_pos(id.drop_first());
        if p < 0 {
            -1
        } else {
            p + 1
        }
    }
}

/// What an asset identifier asks for: the base identifier with no period
/// (its median), or with the period of one of its moving averages. `None`
/// when the text after the separator is not a period.
pub open spec fn query_of(id: Seq<char>) -> Option<(Seq<char>, Option<DurationSec>)> {
    let p = separator_pos(id);
    if p < 0 {
        Some((id, None))
    } else {
        match parse_u32(id.subrange(p + 1, id.len() as int)) {
            Some(n) => Some((id.subrange(0, p), Some(n))),
            None => None,
        }
    }
}

/// A query for one asset identifier.
#[derive(Clone, Debug)]
pub struct AssetQuery {
    pub base_asset_id: String,
    pub period_sec: Option<DurationSec>,
}

/// Why an identifier could not be read.
#[derive(Clone, Copy, Debug, PartialEq, Eq, Structural)]
pub enum QueryError {
    /// The text after the separator is not a period in seconds.
    BadEmaPeriod,
}

/// Reads an optional `+` and decimal digits as a `u32`.
pub fn parse_period(s: &str) -> (r: Option<u32>)
    ensures
        r == parse_u32(s@),
{
    let n = s.unicode_len();
    let mut i: usize = 0;
    if n > 0 && s.get_char(0) == '+' {
        i = 1;
    }
    let ghost d = s@.subrange(i as int, n as int);
    proof {
        if i == 1 {
            assert(d =~= s@.drop_first());
        } else {
            assert(d =~= s@);
        }
        assert(d == (if s@.len() > 0 && s@[0] == '+' {
            s@.drop_first()
        } else {
            s@
        }));
    }
    if i == n {
        return None;
    }
    let start = i;
    let mut value: u64 = 0;
    let limit: u64 = 4294967296;
    while i < n
        invariant
            start <= i <= n,
            n == s@.len(),
            d == s@.subrange(start as int, n as int),
            d == (if s@.len() > 0 && s@[0] == '+' {
                s@.drop_first()
            } else {
                s@
            }),
            forall|j: int| start <= j < i ==> is_digit(#[trigger] s@[j]),
            value == if decimal_value(s@.subrange(start as int, i as int)) < limit {
                decimal_value(s@.subrange(start as int, i as int))
            } else {
                limit as nat
            },
            limit == u32::MAX + 1,
        decreases n - i,
    {
        let c = s.get_char(i);
        if c < '0' || c > '9' {
            proof {
                assert(d[i - start] == c);
                assert(!is_digit(d[i - start]));
                assert(!all_digits(d));
            }
            return None;
        }
        let digit = (c as u32 - '0' as u32) as u64;
        proof {
            let pre = s@.subrange(start as int, i as int);
            assert(s@.subrange(start as int, i + 1).drop_last() =~= pre);
            assert(s@.subrange(start as int, i + 1).last() == c);
        }
        value = if value >= limit {
            limit
        } else {
            let v = value * 10 + digit;
            if v > limit {
                limit
            } else {
                v
            }
        };
        i = i + 1;
    }
    proof {
        assert(s@.subrange(start as int, n as int) =~= d);
        assert forall|j: int| 0 <= j < d.len() implies is_digit(#[trigger] d[j]) by {
            assert(d[j] == s@[start + j]);
        }
        assert(all_digits(d));
    }
    if value >= limit {
        None
    } else {
        Some(value as u32)
    }
}

/// Reads an asset identifier: the part before the first separator is the base
/// identifier, the part after it a period in seconds.
pub fn parse_asset_query(id: &String) -> (r: Result<AssetQuery, QueryError>)
    ensures
        match query_of(id@) {
            Some((base, period)) => r matches Ok(q) && q.base_asset_id@ == base && q.period_sec
                == period,
            None => r == Err::<AssetQuery, QueryError>(QueryError::BadEmaPeriod),
        },
{
    let s = id.as_str();
    let n = s.unicode_len();
    let mut i: usize = 0;
    proof {
        assert(s@.subrange(0, n as int) =~= s@);
    }
    while i < n
        invariant
            i <= n,
            n == s@.len(),
            s@ == id@,
            separator_pos(id@) == (if separator_pos(s@.subrange(i as int, n as int)) < 0 {
                -1
            } else {
                separator_pos(s@.subrange(i as int, n as int)) + i
            }),
        decreases n - i,
    {
        proof {
            assert(s@.subrange(i as int, n as int).drop_first() =~= s@.subrange(i + 1, n as int));
        }
        if s.get_char(i) == PERIOD_SEPARATOR {
            let base = s.substring_char(0, i).to_owned();
            let suffix = s.substring_char(i + 1, n);
            return match parse_period(suffix) {
                Some(p) => Ok(AssetQuery { base_asset_id: base, period_sec: Some(p) }),
                None => Err(QueryError::BadEmaPeriod),
            };
        }
        i = i + 1;
    }
    proof {
        assert(s@.subrange(n as int, n as int) =~= Seq::<char>::empty());
    }
    Ok(AssetQuery { base_asset_id: s.to_owned(), period_sec: None })
}

} // verus!
