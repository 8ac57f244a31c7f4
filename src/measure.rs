//! Snapshots from the browser's measurements of an element: its bounding box,
//! its offset parent's bounding box and its computed margins.
use vstd::prelude::*;
use vstd::string::StrSliceExecFns;
use crate::position::{fits_i64, ElementSnapshot, Extent, Position};

verus! {

/// Why a measurement could not be turned into a snapshot.
#[derive(Clone, Copy, Debug, PartialEq, Eq, Structural)]
pub enum SnapshotError {
    /// A margin is not a number of pixels, such as `12.5px`.
    NotPixels,
    /// A length does not fit the snapshot's range.
    OutOfRange,
}

/// Whether `c` is a decimal digit.
pub open spec fn is_digit(c: char) -> bool {
    '0' <= c && c <= '9'
}

/// The value of a decimal digit.
pub open spec fn digit_value(c: char) -> nat {
    (c as int - '0' as int) as nat
}

/// A non-empty run of decimal digits.
pub open spec fn all_digits(d: Seq<char>) -> bool {
    d.len() > 0 && forall|i: int| 0 <= i < d.len() ==> is_digit(#[trigger] d[i])
}

/// The value of a run of decimal digits.
pub open spec fn digits_value(d: Seq<char>) -> nat
    decreases d.len(),
{
    if d.len() == 0 {
        0
    } else {
        digits_value(d.drop_last()) * 10 + digit_value(d.last())
    }
}

/// Hundredths given by the first one or two digits after the decimal point;
/// later digits are dropped.
pub open spec fn frac_hundredths(f: Seq<char>) -> nat {
    digit_value(f[0]) * 10 + if f.len() > 1 {
        digit_value(f[1])
    } else {
        0
    }
}

/// `u` splits at `i` into whole digits, a decimal point and fraction digits.
pub open spec fn dot_split(u: Seq<char>, i: int) -> bool {
    &&& 0 < i < u.len() - 1
    &&& u[i] == '.'
    &&& all_digits(u.subrange(0, i))
    &&& all_digits(u.subrange(i + 1, u.len() as int))
}

/// The value in hundredths of an unsigned decimal number such as `12` or
/// `12.5`, if `u` is one.
pub open spec fn unsigned_hundredths(u: Seq<char>) -> Option<int> {
    if all_digits(u) {
        Some((digits_value(u) * 100) as int)
    } else if exists|i: int| dot_split(u, i) {
        let i = choose|i: int| dot_split(u, i);
        Some(
            (digits_value(u.subrange(0, i)) * 100 + frac_hundredths(
                u.subrange(i + 1, u.len() as int),
            )) as int,
        )
    } else {
        None
    }
}

/// The value in hundredths of a pixel of a CSS length such as `-3.25px`, if
/// `t` is one: an optional minus sign, an unsigned decimal number and `px`.
pub open spec fn px_value(t: Seq<char>) -> Option<int> {
    if t.len() >= 2 && t[t.len() - 2] == 'p' && t[t.len() - 1] == 'x' {
        let b = t.subrange(0, t.len() - 2);
        if b.len() > 0 && b[0] == '-' {
            match unsigned_hundredths(b.drop_first()) {
                Some(v) => Some(-v),
                None => None,
            }
        } else {
            unsigned_hundredths(b)
        }
    } else {
        None
    }
}

/// Whole-digit values above this cannot make a length in range.
const DIGITS_LIMIT: u128 = 100_000_000_000_000_000;

fn chars_of(s: &str) -> (r: Vec<char>)
    ensures
        r@ == s@,
{
    let n = s.unicode_len();
    let mut r: Vec<char> = Vec::new();
    let mut i: usize = 0;
    while i < n
        invariant
            n == s@.len(),
            i <= n,
            r@ == s@.subrange(0, i as int),
        decreases n - i,
    {
        r.push(s.get_char(i));
        i = i + 1;
        assert(r@ =~= s@.subrange(0, i as int));
    }
    assert(s@.subrange(0, n as int) =~= s@);
    r
}

fn char_digit(c: char) -> (r: Option<u128>)
    ensures
        is_digit(c) ==> r == Some(digit_value(c) as u128),
        !is_digit(c) ==> r.is_none(),
{
    if '0' <= c && c <= '9' {
        Some(((c as u32) - ('0' as u32)) as u128)
    } else {
        None
    }
}

proof fn lemma_digits_prefix(u: Seq<char>, n: int)
    requires
        0 < n <= u.len(),
        forall|i: int| 0 <= i < n ==> is_digit(#[trigger] u[i]),
    ensures
        all_digits(u.subrange(0, n)),
{
    assert forall|i: int| 0 <= i < u.subrange(0, n).len() implies is_digit(
        #[trigger] u.subrange(0, n)[i],
    ) by {
        assert(u.subrange(0, n)[i] == u[i]);
    }
}

/// No split point in `u` when the character at `k` is neither a digit nor,
/// with digits on both sides, the only decimal point.
proof fn lemma_no_split_at_bad(u: Seq<char>, k: int)
    requires
        0 <= k < u.len(),
        !is_digit(u[k]),
        u[k] != '.' || !(forall|i: int| k < i < u.len() ==> is_digit(#[trigger] u[i])) || k
            == u.len() - 1 || k == 0,
        forall|i: int| 0 <= i < k ==> is_digit(#[trigger] u[i]),
    ensures
        !all_digits(u),
        !exists|i: int| dot_split(u, i),
{
    assert(!is_digit(u[k]));
    if exists|i: int| dot_split(u, i) {
        let i = choose|i: int| dot_split(u, i);
        if i < k {
            assert(u.subrange(i + 1, u.len() as int)[k - i - 1] == u[k]);
        } else if i > k {
            assert(u.subrange(0, i)[k] == u[k]);
        } else {
            if k < u.len() - 1 && k > 0 {
                assert forall|m: int| k < m < u.len() implies is_digit(#[trigger] u[m]) by {
                    assert(u.subrange(i + 1, u.len() as int)[m - i - 1] == u[m]);
                }
            }
        }
    }
}

/// Parses a CSS length in pixels, such as `12px`, `-3.25px` or `0.5px`, into
/// hundredths of a pixel; decimals past the second are dropped.
pub fn parse_px(s: &str) -> (r: Result<i64, SnapshotError>)
    ensures
        match px_value(s@) {
            None => r == Err::<i64, SnapshotError>(SnapshotError::NotPixels),
            Some(v) => if fits_i64(v) {
                r == Ok::<i64, SnapshotError>(v as i64)
            } else {
                r == Err::<i64, SnapshotError>(SnapshotError::OutOfRange)
            },
        },
{
    let c = chars_of(s);
    let n = c.len();
    if n < 2 || c[n - 2] != 'p' || c[n - 1] != 'x' {
        return Err(SnapshotError::NotPixels);
    }
    let end = n - 2;
    let ghost b = c@.subrange(0, end as int);
    let neg = end > 0 && c[0] == '-';
    let start: usize = if neg { 1 } else { 0 };
    let ghost u = if neg { b.drop_first() } else { b };
    assert(u =~= c@.subrange(start as int, end as int));
    let mut acc: u128 = 0;
    let mut big = false;
    let mut i: usize = start;
    while i < end && char_digit(c[i]).is_some()
        invariant
            start <= i <= end,
            end == n - 2,
            n == c@.len(),
            u == c@.subrange(start as int, end as int),
            forall|m: int| start <= m < i ==> is_digit(#[trigger] c@[m]),
            big ==> digits_value(u.subrange(0, i - start)) > DIGITS_LIMIT,
            !big ==> acc == digits_value(u.subrange(0, i - start)) && acc <= DIGITS_LIMIT,
        decreases end - i,
    {
        let d = char_digit(c[i]).unwrap();
        proof {
            assert(u.subrange(0, i + 1 - start).drop_last() =~= u.subrange(0, i - start));
            assert(u.subrange(0, i + 1 - start).last() == c@[i as int]);
        }
        if !big {
            acc = acc * 10 + d;
            if acc > DIGITS_LIMIT {
                big = true;
            }
        }
        i = i + 1;
    }
    let int_end = i;
    proof {
        assert forall|m: int| 0 <= m < int_end - start implies is_digit(#[trigger] u[m]) by {
            assert(u[m] == c@[m + start]);
        }
    }
    if int_end == start {
        proof {
            if u.len() > 0 {
                lemma_no_split_at_bad(u, 0);
            }
        }
        return Err(SnapshotError::NotPixels);
    }
    let mut frac: u128 = 0;
    if int_end < end {
        if c[int_end] != '.' || int_end + 1 == end {
            proof {
                lemma_no_split_at_bad(u, int_end - start);
            }
            return Err(SnapshotError::NotPixels);
        }
        let mut j: usize = int_end + 1;
        while j < end
            invariant
                int_end + 1 <= j <= end,
                int_end < end,
                end == n - 2,
                n == c@.len(),
                forall|m: int| int_end < m < j ==> is_digit(#[trigger] c@[m]),
                start <= int_end,
                c@ == s@,
                b == c@.subrange(0, end as int),
                neg == (end > 0 && c@[0] == '-'),
                u == (if neg { b.drop_first() } else { b }),
                u == c@.subrange(start as int, end as int),
                c@[int_end as int] == '.',
                forall|m: int| 0 <= m < int_end - start ==> is_digit(#[trigger] u[m]),
            decreases end - j,
        {
            if char_digit(c[j]).is_none() {
                proof {
                    assert(!(forall|m: int| int_end - start < m < u.len() ==> is_digit(#[trigger] u[m]))) by {
                        assert(u[j - start] == c@[j as int]);
                    }
                    lemma_no_split_at_bad(u, int_end - start);
                }
                return Err(SnapshotError::NotPixels);
            }
            j = j + 1;
        }
        let d1 = char_digit(c[int_end + 1]).unwrap();
        let d2 = if int_end + 2 < end { char_digit(c[int_end + 2]).unwrap() } else { 0 };
        frac = d1 * 10 + d2;
        proof {
            let k = int_end - start;
            assert(u.subrange(0, k) =~= u.subrange(0, int_end - start));
            lemma_digits_prefix(u, k);
            let f = u.subrange(k + 1, u.len() as int);
            assert forall|m: int| 0 <= m < f.len() implies is_digit(#[trigger] f[m]) by {
                assert(f[m] == c@[m + int_end + 1]);
            }
            assert(dot_split(u, k));
            assert(!all_digits(u));
            assert forall|i2: int| dot_split(u, i2) implies i2 == k by {
                if i2 < k {
                    assert(u.subrange(i2 + 1, u.len() as int)[k - i2 - 1] == u[k]);
                } else if i2 > k {
                    assert(u.subrange(0, i2)[k] == u[k]);
                }
            }
            assert(f[0] == c@[int_end + 1]);
            if int_end + 2 < end {
                assert(f[1] == c@[int_end + 2]);
            }
            assert(frac == frac_hundredths(f));
        }
    } else {
        proof {
            assert(u.subrange(0, int_end - start) =~= u);
            lemma_digits_prefix(u, u.len() as int);
            assert(u.subrange(0, u.len() as int) =~= u);
        }
    }
    if big {
        return Err(SnapshotError::OutOfRange);
    }
    let mag: i128 = (acc * 100 + frac) as i128;
    let v: i128 = if neg { -mag } else { mag };
    if v < i64::MIN as i128 || v > i64::MAX as i128 {
        return Err(SnapshotError::OutOfRange);
    }
    Ok(v as i64)
}

/// The snapshot measured from an element's bounding box origin `el`, its
/// offset parent's bounding box origin `parent`, its computed left and top
/// margins and, where the size is recorded, its bounding box size. The
/// position excludes the margins, so that pinning the element at it with
/// absolute positioning does not shift it.
pub open spec fn measured_snapshot(
    el: Position,
    parent: Position,
    margin_left: Seq<char>,
    margin_top: Seq<char>,
    extent: Option<Extent>,
) -> Result<ElementSnapshot, SnapshotError> {
    match (px_value(margin_left), px_value(margin_top)) {
        (Some(ml), Some(mt)) => {
            let x = el.x - parent.x - ml;
            let y = el.y - parent.y - mt;
            if fits_i64(ml) && fits_i64(mt) && fits_i64(x) && fits_i64(y) {
                Ok(ElementSnapshot { position: Position { x: x as i64, y: y as i64 }, extent })
            } else {
                Err(SnapshotError::OutOfRange)
            }
        },
        _ => Err(SnapshotError::NotPixels),
    }
}

/// Takes the snapshot of an element from its measurements.
pub fn snapshot_from_measures(
    el: Position,
    parent: Position,
    margin_left: &str,
    margin_top: &str,
    extent: Option<Extent>,
) -> (r: Result<ElementSnapshot, SnapshotError>)
    ensures
        r == measured_snapshot(el, parent, margin_left@, margin_top@, extent),
{
    let ml = parse_px(margin_left);
    let mt = parse_px(margin_top);
    match (ml, mt) {
        (Ok(ml), Ok(mt)) => {
            let x: i128 = el.x as i128 - parent.x as i128 - ml as i128;
            let y: i128 = el.y as i128 - parent.y as i128 - mt as i128;
            if x < i64::MIN as i128 || x > i64::MAX as i128 || y < i64::MIN as i128 || y
                > i64::MAX as i128 {
                Err(SnapshotError::OutOfRange)
            } else {
                Ok(ElementSnapshot { position: Position { x: x as i64, y: y as i64 }, extent })
            }
        },
        (Err(SnapshotError::NotPixels), _) => Err(SnapshotError::NotPixels),
        (_, Err(SnapshotError::NotPixels)) => Err(SnapshotError::NotPixels),
        _ => Err(SnapshotError::OutOfRange),
    }
}

} // verus!
