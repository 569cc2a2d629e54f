use vstd::prelude::*;
use vstd::string::*;
use crate::stream::Point3;

verus! {

/// Why a coordinate triple could not be read.
#[derive(Clone, Copy, Debug, PartialEq, Eq, Structural)]
pub enum PointParseError {
    /// A field is not an integer that fits in `i64`.
    NotANumber,
    /// There are not exactly three fields.
    WrongCount,
}

pub open spec fn is_separator(c: char) -> bool {
    c == ' ' || c == ',' || c == ';'
}

/// Scanning `s` left to right: the fields completed so far and the one
/// under way. Every separator ends a field, so fields may be empty.
pub open spec fn scan_fields(s: Seq<char>) -> (Seq<Seq<char>>, Seq<char>)
    decreases s.len(),
{
    if s.len() == 0 {
        (Seq::empty(), Seq::empty())
    } else {
        let prev = scan_fields(s.drop_last());
        if is_separator(s.last()) {
            (prev.0.push(prev.1), Seq::empty())
        } else {
            (prev.0, prev.1.push(s.last()))
        }
    }
}

/// The pieces of `s` between separators (one more than there are separators).
pub open spec fn fields(s: Seq<char>) -> Seq<Seq<char>> {
    scan_fields(s).0.push(scan_fields(s).1)
}

pub open spec fn is_digit(c: char) -> bool {
    '0' <= c <= '9'
}

pub open spec fn all_digits(d: Seq<char>) -> bool {
    forall|i: int| 0 <= i < d.len() ==> is_digit(#[trigger] d[i])
}

/// The value of a string of decimal digits.
pub open spec fn digits_value(d: Seq<char>) -> int
    decreases d.len(),
{
    if d.len() == 0 {
        0
    } else {
        digits_value(d.drop_last()) * 10 + (d.last() as int - '0' as int)
    }
}

/// The integer a field denotes: an optional sign and at least one decimal
/// digit, within the range of `i64`.
pub open spec fn field_value(f: Seq<char>) -> Option<int> {
    let signed = f.len() > 0 && (f[0] == '-' || f[0] == '+');
    let d = if signed {
        f.skip(1)
    } else {
        f
    };
    let v = if signed && f[0] == '-' {
        -digits_value(d)
    } else {
        digits_value(d)
    };
    if d.len() > 0 && all_digits(d) && i64::MIN <= v <= i64::MAX {
        Some(v)
    } else {
        None
    }
}

/// The point a text of three integer coordinates denotes.
pub open spec fn point_of(s: Seq<char>) -> Result<Point3, PointParseError> {
    let fs = fields(s);
    if exists|k: int| 0 <= k < fs.len() && #[trigger] field_value(fs[k]) is None {
        Err(PointParseError::NotANumber)
    } else if fs.len() != 3 {
        Err(PointParseError::WrongCount)
    } else {
        Ok(
            Point3 {
                x: field_value(fs[0])->Some_0 as i64,
                y: field_value(fs[1])->Some_0 as i64,
                z: field_value(fs[2])->Some_0 as i64,
            },
        )
    }
}

proof fn lemma_digits_nonneg(d: Seq<char>)
    requires
        all_digits(d),
    ensures
        0 <= digits_value(d),
    decreases d.len(),
{
    if d.len() > 0 {
        assert(all_digits(d.drop_last())) by {
            assert forall|i: int| 0 <= i < d.drop_last().len() implies is_digit(
                #[trigger] d.drop_last()[i],
            ) by {
                assert(d.drop_last()[i] == d[i]);
            }
        }
        lemma_digits_nonneg(d.drop_last());
        assert(is_digit(d[d.len() - 1]));
    }
}

proof fn lemma_digits_grow(d: Seq<char>, n: int)
    requires
        all_digits(d),
        0 <= n <= d.len(),
    ensures
        digits_value(d.take(n)) <= digits_value(d),
        0 <= digits_value(d.take(n)),
    decreases d.len() - n,
{
    if n == d.len() {
        assert(d.take(n) =~= d);
        lemma_digits_nonneg(d);
    }
    if n < d.len() {
        lemma_digits_grow(d, n + 1);
        assert(d.take(n + 1).drop_last() =~= d.take(n));
        assert(is_digit(d[n]));
        assert(all_digits(d.take(n))) by {
            assert forall|i: int| 0 <= i < d.take(n).len() implies is_digit(#[trigger] d.take(n)[i]) by {
                assert(d.take(n)[i] == d[i]);
            }
        }
        lemma_digits_nonneg(d.take(n));
        assert(d.take(n + 1).last() == d[n]);
    }
}

/// The value of the digits `s[lo..hi]`, if they are all digits and their
/// value is at most 2^63.
fn digits_in(s: &str, lo: usize, hi: usize) -> (r: Option<u64>)
    requires
        lo <= hi <= s@.len(),
    ensures
        ({
            let d = s@.subrange(lo as int, hi as int);
            match r {
                Some(v) => all_digits(d) && v == digits_value(d) && v <= 0x8000_0000_0000_0000u64,
                None => !all_digits(d) || digits_value(d) > 0x8000_0000_0000_0000u64,
            }
        }),
{
    let mut acc: u64 = 0;
    let mut i: usize = lo;
    while i < hi
        invariant
            lo <= i <= hi <= s@.len(),
            all_digits(s@.subrange(lo as int, i as int)),
            acc == digits_value(s@.subrange(lo as int, i as int)),
            acc <= 0x8000_0000_0000_0000u64,
        decreases hi - i,
    {
        let c = s.get_char(i);
        let ghost prev = s@.subrange(lo as int, i as int);
        let ghost next = s@.subrange(lo as int, i + 1);
        proof {
            assert(next.drop_last() =~= prev);
            assert(next.last() == c);
        }
        if !('0' <= c && c <= '9') {
            proof {
                assert(!is_digit(s@.subrange(lo as int, hi as int)[i - lo]));
            }
            return None;
        }
        let digit = (c as u32 - '0' as u32) as u64;
        if acc > (0x8000_0000_0000_0000u64 - digit) / 10 {
            proof {
                let d = s@.subrange(lo as int, hi as int);
                assert(all_digits(next)) by {
                    assert forall|j: int| 0 <= j < next.len() implies is_digit(#[trigger] next[j]) by {
                        if j < prev.len() {
                            assert(next[j] == prev[j]);
                        }
                    }
                }
                if all_digits(d) {
                    assert(d.take(i + 1 - lo) =~= next);
                    lemma_digits_grow(d, i + 1 - lo);
                }
                assert(digits_value(next) > 0x8000_0000_0000_0000u64) by (nonlinear_arith)
                    requires
                        digits_value(next) == acc * 10 + digit,
                        acc > (0x8000_0000_0000_0000u64 - digit) / 10,
                        digit <= 9,
                ;
            }
            return None;
        }
        acc = acc * 10 + digit;
        proof {
            assert(all_digits(next)) by {
                assert forall|j: int| 0 <= j < next.len() implies is_digit(#[trigger] next[j]) by {
                    if j < prev.len() {
                        assert(next[j] == prev[j]);
                    }
                }
            }
        }
        i = i + 1;
    }
    Some(acc)
}

/// Reads the integer of the field `s[lo..hi]`.
pub fn field_in(s: &str, lo: usize, hi: usize) -> (r: Option<i64>)
    requires
        lo <= hi <= s@.len(),
    ensures
        r is Some <==> field_value(s@.subrange(lo as int, hi as int)) is Some,
        r matches Some(v) ==> v as int == field_value(s@.subrange(lo as int, hi as int))->Some_0,
{
    let ghost f = s@.subrange(lo as int, hi as int);
    let mut start = lo;
    let mut negative = false;
    if lo < hi {
        let c = s.get_char(lo);
        if c == '-' || c == '+' {
            negative = c == '-';
            start = lo + 1;
        }
    }
    proof {
        assert(start > lo ==> f.skip(1) =~= s@.subrange(start as int, hi as int));
        assert(start == lo ==> f =~= s@.subrange(start as int, hi as int));
    }
    if start == hi {
        return None;
    }
    match digits_in(s, start, hi) {
        None => None,
        Some(v) => {
            if negative {
                if v == 0x8000_0000_0000_0000u64 {
                    Some(i64::MIN)
                } else {
                    Some(-(v as i64))
                }
            } else if v <= 0x7fff_ffff_ffff_ffffu64 {
                Some(v as i64)
            } else {
                None
            }
        },
    }
}

/// Reads a point from three integer coordinates separated by spaces,
/// commas or semicolons; a field that is no integer is reported before a
/// wrong number of fields.
pub fn parse_point3(s: &str) -> (r: Result<Point3, PointParseError>)
    ensures
        r == point_of(s@),
{
    let n = s.unicode_len();
    let mut values: Vec<i64> = Vec::new();
    let mut start: usize = 0;
    let mut i: usize = 0;
    while i < n
        invariant
            start <= i <= n,
            n == s@.len(),
            scan_fields(s@.subrange(0, i as int)).1 == s@.subrange(start as int, i as int),
            values@.len() == scan_fields(s@.subrange(0, i as int)).0.len(),
            forall|k: int|
                0 <= k < values@.len() ==> field_value(
                    #[trigger] scan_fields(s@.subrange(0, i as int)).0[k],
                ) == Some(values@[k] as int),
        decreases n - i,
    {
        let ch = s.get_char(i);
        let ghost before = scan_fields(s@.subrange(0, i as int));
        proof {
            assert(s@.subrange(0, i + 1).drop_last() =~= s@.subrange(0, i as int));
            assert(s@.subrange(0, i + 1).last() == ch);
        }
        if ch == ' ' || ch == ',' || ch == ';' {
            match field_in(s, start, i) {
                Some(v) => {
                    values.push(v);
                },
                None => {
                    proof {
                        let fs = fields(s@);
                        lemma_scan_prefix(s@, i + 1, n as int);
                        let k = before.0.len() as int;
                        assert(fs[k] == s@.subrange(start as int, i as int));
                    }
                    return Err(PointParseError::NotANumber);
                },
            }
            start = i + 1;
            proof {
                assert(s@.subrange(start as int, i + 1) =~= Seq::<char>::empty());
            }
        } else {
            assert(s@.subrange(start as int, i + 1) =~= s@.subrange(start as int, i as int).push(ch));
        }
        i = i + 1;
    }
    proof {
        assert(s@.subrange(0, n as int) =~= s@);
    }
    let ghost fs = fields(s@);
    match field_in(s, start, n) {
        None => {
            proof {
                assert(field_value(fs[values@.len() as int]) is None);
            }
            Err(PointParseError::NotANumber)
        },
        Some(v) => {
            values.push(v);
            proof {
                assert forall|k: int| 0 <= k < fs.len() implies #[trigger] field_value(fs[k]) is Some by {
                    if k < fs.len() - 1 {
                        assert(fs[k] == scan_fields(s@).0[k]);
                    }
                }
            }
            if values.len() != 3 {
                Err(PointParseError::WrongCount)
            } else {
                proof {
                    assert(fs[0] == scan_fields(s@).0[0]);
                    assert(fs[1] == scan_fields(s@).0[1]);
                }
                Ok(Point3 { x: values[0], y: values[1], z: values[2] })
            }
        },
    }
}

/// The fields completed within a prefix of `s` are fields of `s`.
proof fn lemma_scan_prefix(s: Seq<char>, i: int, n: int)
    requires
        0 <= i <= n == s.len(),
    ensures
        scan_fields(s.take(i)).0.len() <= scan_fields(s).0.len(),
        forall|k: int|
            0 <= k < scan_fields(s.take(i)).0.len() ==> #[trigger] fields(s)[k]
                == scan_fields(s.take(i)).0[k],
    decreases n - i,
{
    if i < n {
        lemma_scan_prefix(s, i + 1, n);
        assert(s.take(i + 1).drop_last() =~= s.take(i));
        let a = scan_fields(s.take(i));
        let b = scan_fields(s.take(i + 1));
        assert forall|k: int| 0 <= k < a.0.len() implies #[trigger] fields(s)[k] == a.0[k] by {
            assert(b.0[k] == a.0[k]);
            assert(fields(s)[k] == b.0[k]);
        }
    } else {
        assert(s.take(i) =~= s);
    }
}

} // verus!
