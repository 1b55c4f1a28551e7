use crate::text::{find_char, find_char_exec};
use vstd::prelude::*;

verus! {

pub open spec fn is_digit(c: char) -> bool {
    '0' <= c && c <= '9'
}

pub open spec fn all_digits(s: Seq<char>) -> bool {
    forall|i: int| 0 <= i < s.len() ==> #[trigger] is_digit(s[i])
}

/// The number that a string of decimal digits stands for.
pub open spec fn decimal_value(s: Seq<char>) -> nat
    decreases s.len(),
{
    if s.len() == 0 {
        0
    } else {
        decimal_value(s.drop_last()) * 10 + ((s.last() as nat) - ('0' as nat)) as nat
    }
}

/// A decimal number: at least one digit, and no more than a `u64` holds.
pub open spec fn is_number(s: Seq<char>) -> bool {
    s.len() > 0 && all_digits(s) && decimal_value(s) <= u64::MAX
}

/// What a `Range` header value means, if it is one of the two accepted forms
/// `unit=start-end` and `unit=start-`: the unit, the first byte and the last
/// byte. A value with a comma (several ranges), a last byte before the first
/// one, or a length that does not fit in a `u64` is refused.
pub open spec fn range_of(s: Seq<char>) -> Option<(Seq<char>, nat, Option<nat>)> {
    if find_char(s, ',', 0) is Some {
        None
    } else {
        match find_char(s, '=', 0) {
            None => None,
            Some(eq) => match find_char(s, '-', eq + 1) {
                None => None,
                Some(dash) => {
                    let unit = s.subrange(0, eq);
                    let first = s.subrange(eq + 1, dash);
                    let last = s.subrange(dash + 1, s.len() as int);
                    if !is_number(first) {
                        None
                    } else if last.len() == 0 {
                        Some((unit, decimal_value(first), None))
                    } else if is_number(last) && decimal_value(first) <= decimal_value(last)
                        && decimal_value(last) - decimal_value(first) < u64::MAX {
                        Some((unit, decimal_value(first), Some(decimal_value(last))))
                    } else {
                        None
                    }
                },
            },
        }
    }
}

/// A parsed `Range` header: `unit=start-end`, or `unit=start-` up to the end.
#[derive(Debug)]
pub struct Range {
    pub typ: String,
    pub start: u64,
    pub end: Option<u64>,
}

/// A `Range` header that is not one of the accepted forms.
#[derive(Debug, PartialEq, Eq)]
pub struct RangeError;

impl Range {
    /// The last byte is not before the first, and the length fits in a `u64`.
    pub open spec fn wf(&self) -> bool {
        match self.end {
            Some(e) => self.start <= e && e - self.start < u64::MAX,
            None => true,
        }
    }

    /// The number of bytes asked for, where the range has an end.
    pub open spec fn spec_len(&self) -> Option<nat> {
        match self.end {
            Some(e) => Some((e - self.start + 1) as nat),
            None => None,
        }
    }

    pub fn len(&self) -> (r: Option<u64>)
        requires
            self.wf(),
        ensures
            r matches Some(n) ==> self.spec_len() == Some(n as nat),
            r is None <==> self.spec_len() is None,
    {
        match self.end {
            Some(end) => Some(end - self.start + 1),
            None => None,
        }
    }

    /// Parses a `Range` header value; `None` where it is not an accepted form.
    pub fn parse(s: &str) -> (r: Option<Range>)
        ensures
            r is Some <==> range_of(s@) is Some,
            r matches Some(range) ==> {
                &&& range.wf()
                &&& range_of(s@) == Some((range.typ@, range.start as nat, match range.end {
                    Some(e) => Some(e as nat),
                    None => None,
                }))
            },
    {
        let n = s.unicode_len();
        if find_char_exec(s, n, ',', 0).is_some() {
            return None;
        }
        let eq = match find_char_exec(s, n, '=', 0) {
            Some(i) => i,
            None => {
                return None;
            },
        };
        let dash = match find_char_exec(s, n, '-', eq + 1) {
            Some(i) => i,
            None => {
                return None;
            },
        };
        let start = match parse_decimal(s, eq + 1, dash) {
            Some(v) => v,
            None => {
                return None;
            },
        };
        let typ = s.substring_char(0, eq).to_owned();
        if dash + 1 == n {
            return Some(Range { typ, start, end: None });
        }
        match parse_decimal(s, dash + 1, n) {
            Some(end) => {
                if start <= end && end - start < u64::MAX {
                    Some(Range { typ, start, end: Some(end) })
                } else {
                    None
                }
            },
            None => None,
        }
    }
}

impl std::str::FromStr for Range {
    type Err = RangeError;

    fn from_str(s: &str) -> Result<Range, RangeError> {
        match Range::parse(s) {
            Some(r) => Ok(r),
            None => Err(RangeError),
        }
    }
}

proof fn lemma_decimal_grows(s: Seq<char>, i: int, j: int)
    requires
        0 <= i <= j <= s.len(),
        all_digits(s),
    ensures
        decimal_value(s.subrange(0, i)) <= decimal_value(s.subrange(0, j)),
    decreases j - i,
{
    if i < j {
        lemma_decimal_grows(s, i, j - 1);
        assert(s.subrange(0, j).drop_last() =~= s.subrange(0, j - 1));
        assert(is_digit(s[j - 1]));
    }
}

/// The number written by the characters `from..to` of `s`, if it is one.
fn parse_decimal(s: &str, from: usize, to: usize) -> (r: Option<u64>)
    requires
        from <= to <= s@.len(),
    ensures
        r is Some <==> is_number(s@.subrange(from as int, to as int)),
        r matches Some(v) ==> v == decimal_value(s@.subrange(from as int, to as int)),
{
    let ghost digits = s@.subrange(from as int, to as int);
    if from == to {
        return None;
    }
    let mut i = from;
    while i < to
        invariant
            from <= i <= to <= s@.len(),
            digits == s@.subrange(from as int, to as int),
            forall|k: int| 0 <= k < i - from ==> #[trigger] is_digit(digits[k]),
        decreases to - i,
    {
        let c = s.get_char(i);
        if !('0' <= c && c <= '9') {
            assert(!is_digit(digits[i - from]));
            return None;
        }
        i = i + 1;
    }
    assert(all_digits(digits));
    let mut value: u64 = 0;
    let mut i = from;
    while i < to
        invariant
            from <= i <= to <= s@.len(),
            digits == s@.subrange(from as int, to as int),
            all_digits(digits),
            value == decimal_value(digits.subrange(0, i - from)),
        decreases to - i,
    {
        let c = s.get_char(i);
        assert(is_digit(digits[i - from]));
        let d = (c as u32 - '0' as u32) as u64;
        assert(digits.subrange(0, i + 1 - from).drop_last() =~= digits.subrange(0, i - from));
        if value > (u64::MAX - d) / 10 {
            proof {
                lemma_decimal_grows(digits, i + 1 - from, digits.len() as int);
                assert(digits.subrange(0, digits.len() as int) =~= digits);
            }
            return None;
        }
        value = value * 10 + d;
        i = i + 1;
    }
    assert(digits.subrange(0, to - from) =~= digits);
    Some(value)
}

} // verus!
