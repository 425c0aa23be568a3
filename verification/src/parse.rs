//! The textual curve encoding: a comma-separated list of `load:speed`
//! entries, the load a decimal fraction in [0, 1] and the speed an integer
//! in [0, 255].
//!
//! Loads are read at the library's resolution of thousandths: the value is
//! the integer part times 1000 plus the first three fractional digits, and
//! fractional digits beyond the third are ignored.

use vstd::prelude::*;
use crate::curve::{distinct_loads, loads_in_range, Breakpoint, CurveError, FanSpeedTable};

verus! {

/// An ASCII decimal digit.
pub open spec fn is_digit(b: u8) -> bool {
    48 <= b && b <= 57
}

pub open spec fn all_digits(s: Seq<u8>) -> bool {
    forall|i: int| 0 <= i < s.len() ==> is_digit(#[trigger] s[i])
}

/// The number written by a digit string, most significant digit first.
pub open spec fn digits_value(s: Seq<u8>) -> int
    decreases s.len(),
{
    if s.len() == 0 {
        0
    } else {
        digits_value(s.drop_last()) * 10 + (s.last() - 48)
    }
}

/// The i-th fractional digit, or 0 when the string is too short.
pub open spec fn frac_digit(s: Seq<u8>, i: int) -> int {
    if 0 <= i < s.len() {
        s[i] - 48
    } else {
        0
    }
}

/// The first three fractional digits, read as thousandths.
pub open spec fn frac_millis(s: Seq<u8>) -> int {
    frac_digit(s, 0) * 100 + frac_digit(s, 1) * 10 + frac_digit(s, 2)
}

/// Index of the first occurrence of `b`, or -1.
pub open spec fn find_byte(s: Seq<u8>, b: u8) -> int
    decreases s.len(),
{
    if s.len() == 0 {
        -1
    } else if s[0] == b {
        0
    } else {
        let r = find_byte(s.drop_first(), b);
        if r < 0 {
            -1
        } else {
            r + 1
        }
    }
}

/// A load literal: digits with at most one '.', and not '.' alone.
pub open spec fn load_wf(s: Seq<u8>) -> bool {
    let d = find_byte(s, 46u8);
    if d < 0 {
        s.len() >= 1 && all_digits(s)
    } else {
        all_digits(s.subrange(0, d)) && all_digits(s.subrange(d + 1, s.len() as int))
            && s.len() >= 2
    }
}

/// The load literal's value in thousandths.
pub open spec fn load_millis_of(s: Seq<u8>) -> int {
    let d = find_byte(s, 46u8);
    if d < 0 {
        digits_value(s) * 1000
    } else {
        digits_value(s.subrange(0, d)) * 1000 + frac_millis(s.subrange(d + 1, s.len() as int))
    }
}

/// A speed literal: a digit string whose value fits a duty-cycle byte.
pub open spec fn speed_wf(s: Seq<u8>) -> bool {
    s.len() >= 1 && all_digits(s) && digits_value(s) <= 255
}

/// Why a curve encoding is refused; `entry` counts entries from zero.
#[derive(Clone, Copy, Debug, PartialEq, Eq, Structural)]
pub enum ParseError {
    /// The entry has no ':' between load and speed.
    MissingSeparator { entry: usize },
    /// The part before the ':' is not a decimal number.
    BadLoad { entry: usize },
    /// The load lies above 1.0.
    LoadOutOfRange { entry: usize },
    /// The part after the ':' is not an integer in [0, 255].
    BadSpeed { entry: usize },
    /// Two entries name the same load (at thousandths resolution).
    DuplicateLoad,
}

/// One `load:speed` entry, split at its first ':'.
pub open spec fn parse_entry(e: Seq<u8>, idx: usize) -> Result<Breakpoint, ParseError> {
    let c = find_byte(e, 58u8);
    if c < 0 {
        Err(ParseError::MissingSeparator { entry: idx })
    } else {
        let ls = e.subrange(0, c);
        let ss = e.subrange(c + 1, e.len() as int);
        if !load_wf(ls) {
            Err(ParseError::BadLoad { entry: idx })
        } else if load_millis_of(ls) > 1000 {
            Err(ParseError::LoadOutOfRange { entry: idx })
        } else if !speed_wf(ss) {
            Err(ParseError::BadSpeed { entry: idx })
        } else {
            Ok((load_millis_of(ls) as u16, digits_value(ss) as u8))
        }
    }
}

/// The whole encoding, split at commas; the first bad entry decides the
/// error.
pub open spec fn parse_points(s: Seq<u8>, idx: usize) -> Result<Seq<Breakpoint>, ParseError>
    decreases s.len(),
    via parse_points_decreases
{
    let c = find_byte(s, 44u8);
    if c < 0 {
        match parse_entry(s, idx) {
            Ok(p) => Ok(seq![p]),
            Err(e) => Err(e),
        }
    } else {
        match parse_entry(s.subrange(0, c), idx) {
            Ok(p) => match parse_points(s.subrange(c + 1, s.len() as int), (idx + 1) as usize) {
                Ok(r) => Ok(seq![p] + r),
                Err(e) => Err(e),
            },
            Err(e) => Err(e),
        }
    }
}

#[via_fn]
proof fn parse_points_decreases(s: Seq<u8>, idx: usize) {
    lemma_find_byte_props(s, 44u8);
}

/// Bounds and meaning of `find_byte`.
pub proof fn lemma_find_byte_props(s: Seq<u8>, b: u8)
    ensures
        -1 <= find_byte(s, b) < s.len(),
        find_byte(s, b) >= 0 ==> s[find_byte(s, b)] == b,
    decreases s.len(),
{
    if s.len() > 0 && s[0] != b {
        lemma_find_byte_props(s.drop_first(), b);
    }
}

/// A scan that saw no `b` before `i` can start there.
proof fn lemma_find_byte_skip(s: Seq<u8>, b: u8, i: int)
    requires
        0 <= i <= s.len(),
        forall|k: int| 0 <= k < i ==> s[k] != b,
    ensures
        find_byte(s, b) == (if find_byte(s.skip(i), b) < 0 {
            -1int
        } else {
            i + find_byte(s.skip(i), b)
        }),
    decreases i,
{
    if i == 0 {
        assert(s.skip(0) =~= s);
    } else {
        lemma_find_byte_skip(s, b, i - 1);
        let t = s.skip(i - 1);
        assert(t[0] == s[i - 1]);
        assert(t.drop_first() =~= s.skip(i));
        lemma_find_byte_props(s.skip(i), b);
    }
}

/// A digit string's value is non-negative.
proof fn lemma_digits_value_nonneg(s: Seq<u8>)
    requires
        all_digits(s),
    ensures
        digits_value(s) >= 0,
    decreases s.len(),
{
    if s.len() > 0 {
        assert(all_digits(s.drop_last())) by {
            assert(forall|i: int| 0 <= i < s.len() - 1 ==> s.drop_last()[i] == s[i]);
        }
        lemma_digits_value_nonneg(s.drop_last());
        assert(is_digit(s.last()));
    }
}

/// The value of a digit string, computed left to right and capped: the
/// exact value when it does not exceed `cap`, and `cap + 1` otherwise.
fn digits_value_capped(s: &[u8], lo: usize, hi: usize, cap: u32) -> (r: u32)
    requires
        lo <= hi <= s@.len(),
        1 <= cap <= 100000,
        all_digits(s@.subrange(lo as int, hi as int)),
    ensures
        ({
            let ds = s@.subrange(lo as int, hi as int);
            &&& (digits_value(ds) <= cap ==> r == digits_value(ds))
            &&& (digits_value(ds) > cap ==> r == cap + 1)
            &&& r <= cap + 1
        }),
{
    let ghost ds = s@.subrange(lo as int, hi as int);
    let mut acc: u32 = 0;
    let mut k: usize = lo;
    proof {
        assert(ds.take(0) =~= Seq::<u8>::empty());
    }
    while k < hi
        invariant
            lo <= k <= hi <= s@.len(),
            1 <= cap <= 100000,
            ds == s@.subrange(lo as int, hi as int),
            all_digits(ds),
            digits_value(ds.take(k - lo)) <= cap ==> acc == digits_value(ds.take(k - lo)),
            digits_value(ds.take(k - lo)) > cap ==> acc == cap + 1,
            acc <= cap + 1,
            digits_value(ds.take(k - lo)) >= 0,
        decreases hi - k,
    {
        let ghost pre = ds.take(k - lo);
        let d = s[k];
        proof {
            assert(ds[k - lo] == s@[k as int]);
            assert(is_digit(d));
            assert(ds.take(k - lo + 1).drop_last() =~= pre);
            assert(ds.take(k - lo + 1).last() == ds[k - lo]);
            assert(digits_value(ds.take(k - lo + 1)) == digits_value(pre) * 10 + (d - 48));
        }
        let next: u32 = acc * 10 + ((d - 48) as u32);
        if next > cap {
            acc = cap + 1;
            proof {
                if digits_value(pre) <= cap {
                    assert(digits_value(ds.take(k - lo + 1)) == next);
                } else {
                    assert(digits_value(pre) >= cap + 1);
                    assert(digits_value(pre) * 10 >= (cap + 1) * 10);
                    assert(digits_value(ds.take(k - lo + 1)) > cap);
                }
            }
        } else {
            proof {
                assert(digits_value(pre) <= cap) by {
                    if digits_value(pre) > cap {
                        assert(acc == cap + 1);
                        assert(next >= (cap + 1) * 10);
                    }
                }
            }
            acc = next;
        }
        k += 1;
    }
    proof {
        assert(ds.take(hi - lo) =~= ds);
    }
    acc
}

/// Why a load literal is refused.
enum LoadErr {
    Syntax,
    Range,
}

/// Reads the load literal in `s[lo..hi]`.
fn parse_load(s: &[u8], lo: usize, hi: usize) -> (r: Result<u16, LoadErr>)
    requires
        lo <= hi <= s@.len(),
    ensures
        ({
            let ls = s@.subrange(lo as int, hi as int);
            match r {
                Ok(v) => load_wf(ls) && v as int == load_millis_of(ls) && v <= 1000,
                Err(LoadErr::Syntax) => !load_wf(ls),
                Err(LoadErr::Range) => load_wf(ls) && load_millis_of(ls) > 1000,
            }
        }),
{
    let ghost ls = s@.subrange(lo as int, hi as int);
    // Locate the first '.'.
    let mut d: usize = lo;
    while d < hi && s[d] != 46
        invariant
            lo <= d <= hi <= s@.len(),
            forall|k: int| lo <= k < d ==> s@[k] != 46u8,
        decreases hi - d,
    {
        d += 1;
    }
    let has_dot = d < hi;
    proof {
        assert(forall|k: int| 0 <= k < d - lo ==> ls[k] == s@[lo + k] && ls[k] != 46u8);
        lemma_find_byte_skip(ls, 46u8, d as int - lo as int);
        if has_dot {
            assert(ls.skip(d as int - lo as int)[0] == s@[d as int]);
            assert(find_byte(ls, 46u8) == d - lo);
        } else {
            assert(ls.skip(d as int - lo as int) =~= Seq::<u8>::empty());
            assert(find_byte(ls, 46u8) == -1);
        }
    }
    // Check the digit shape.
    if !has_dot && lo == hi {
        return Err(LoadErr::Syntax);
    }
    if has_dot && hi - lo < 2 {
        return Err(LoadErr::Syntax);
    }
    let int_hi = if has_dot {
        d
    } else {
        hi
    };
    let mut k: usize = lo;
    while k < int_hi
        invariant
            lo <= k <= int_hi <= hi <= s@.len(),
            int_hi == (if has_dot { d } else { hi }),
            has_dot == (d < hi),
            lo <= d <= hi,
            ls == s@.subrange(lo as int, hi as int),
            find_byte(ls, 46u8) == (if has_dot { d as int - lo as int } else { -1int }),
            has_dot ==> hi - lo >= 2,
            !has_dot ==> hi > lo,
            forall|j: int| lo <= j < k ==> is_digit(#[trigger] s@[j]),
        decreases int_hi - k,
    {
        let b = s[k];
        if b < 48 || b > 57 {
            proof {
                if has_dot {
                    assert(ls.subrange(0, d - lo)[k - lo] == s@[k as int]);
                    assert(!all_digits(ls.subrange(0, d as int - lo as int)));
                } else {
                    assert(ls[k - lo] == s@[k as int]);
                    assert(!all_digits(ls));
                }
            }
            return Err(LoadErr::Syntax);
        }
        k += 1;
    }
    if has_dot {
        let mut k2: usize = d + 1;
        while k2 < hi
            invariant
                lo <= d < k2 <= hi <= s@.len(),
                ls == s@.subrange(lo as int, hi as int),
                find_byte(ls, 46u8) == d as int - lo as int,
                hi - lo >= 2,
                forall|j: int| d < j < k2 ==> is_digit(#[trigger] s@[j]),
            decreases hi - k2,
        {
            let b = s[k2];
            if b < 48 || b > 57 {
                proof {
                    assert(ls.subrange(d + 1 - lo, ls.len() as int)[k2 - d - 1] == s@[k2 as int]);
                    assert(!all_digits(ls.subrange(d as int + 1 - lo as int, ls.len() as int)));
                }
                return Err(LoadErr::Syntax);
            }
            k2 += 1;
        }
    }
    let ghost ints = ls.subrange(0, int_hi as int - lo as int);
    let ghost fracs = ls.subrange(
        if has_dot { d as int + 1 - lo as int } else { ls.len() as int },
        ls.len() as int,
    );
    proof {
        assert(forall|j: int| 0 <= j < ints.len() ==> ints[j] == s@[lo + j]);
        assert(all_digits(ints));
        if has_dot {
            assert(fracs =~= ls.subrange(d as int + 1 - lo as int, ls.len() as int));
            assert(forall|j: int| 0 <= j < fracs.len() ==> fracs[j] == s@[d + 1 + j]);
            assert(all_digits(fracs));
            assert(load_wf(ls));
            assert(load_millis_of(ls) == digits_value(ints) * 1000 + frac_millis(fracs));
        } else {
            assert(ints =~= ls);
            assert(load_wf(ls));
            assert(frac_millis(fracs) == 0);
            assert(load_millis_of(ls) == digits_value(ints) * 1000);
        }
        lemma_digits_value_nonneg(ints);
        assert(ints =~= s@.subrange(lo as int, int_hi as int));
    }
    let intval = digits_value_capped(s, lo, int_hi, 1000);
    let mut frac: u32 = 0;
    if has_dot {
        if d + 1 < hi {
            frac = ((s[d + 1] - 48) as u32) * 100;
            proof {
                assert(fracs[0] == s@[d as int + 1]);
            }
            if d + 2 < hi {
                frac = frac + ((s[d + 2] - 48) as u32) * 10;
                proof {
                    assert(fracs[1] == s@[d as int + 2]);
                }
                if d + 3 < hi {
                    frac = frac + ((s[d + 3] - 48) as u32);
                    proof {
                        assert(fracs[2] == s@[d as int + 3]);
                    }
                }
            }
        }
    }
    assert(frac == frac_millis(fracs));
    assert(0 <= frac_millis(fracs) <= 999);
    if intval > 1000 {
        proof {
            assert(digits_value(ints) > 1000);
            assert(digits_value(ints) * 1000 > 1000000);
        }
        return Err(LoadErr::Range);
    }
    let total: u32 = intval * 1000 + frac;
    assert(total as int == load_millis_of(ls));
    if total > 1000 {
        return Err(LoadErr::Range);
    }
    Ok(total as u16)
}

/// Reads the speed literal in `s[lo..hi]`; None when it is not a digit
/// string valued in [0, 255].
fn parse_speed(s: &[u8], lo: usize, hi: usize) -> (r: Option<u8>)
    requires
        lo <= hi <= s@.len(),
    ensures
        ({
            let ss = s@.subrange(lo as int, hi as int);
            match r {
                Some(v) => speed_wf(ss) && v as int == digits_value(ss),
                None => !speed_wf(ss),
            }
        }),
{
    let ghost ss = s@.subrange(lo as int, hi as int);
    if lo == hi {
        return None;
    }
    let mut k: usize = lo;
    while k < hi
        invariant
            lo <= k <= hi <= s@.len(),
            ss == s@.subrange(lo as int, hi as int),
            forall|j: int| lo <= j < k ==> is_digit(#[trigger] s@[j]),
        decreases hi - k,
    {
        let b = s[k];
        if b < 48 || b > 57 {
            proof {
                assert(ss[k - lo] == s@[k as int]);
                assert(!all_digits(ss));
            }
            return None;
        }
        k += 1;
    }
    proof {
        assert(forall|j: int| 0 <= j < ss.len() ==> ss[j] == s@[lo + j]);
        assert(all_digits(ss));
        lemma_digits_value_nonneg(ss);
    }
    let v = digits_value_capped(s, lo, hi, 255);
    if v > 255 {
        None
    } else {
        Some(v as u8)
    }
}

/// Reads the entry in `s[lo..hi]`, split at its first ':'.
fn parse_entry_exec(s: &[u8], lo: usize, hi: usize, idx: usize) -> (r: Result<Breakpoint, ParseError>)
    requires
        lo <= hi <= s@.len(),
    ensures
        r == parse_entry(s@.subrange(lo as int, hi as int), idx),
        (r matches Ok(p) ==> p.0 <= 1000),
{
    let ghost e = s@.subrange(lo as int, hi as int);
    let mut c: usize = lo;
    while c < hi && s[c] != 58
        invariant
            lo <= c <= hi <= s@.len(),
            forall|k: int| lo <= k < c ==> s@[k] != 58u8,
        decreases hi - c,
    {
        c += 1;
    }
    proof {
        assert(forall|k: int| 0 <= k < c - lo ==> e[k] == s@[lo + k] && e[k] != 58u8);
        lemma_find_byte_skip(e, 58u8, c as int - lo as int);
        if c < hi {
            assert(e.skip(c as int - lo as int)[0] == s@[c as int]);
            assert(find_byte(e, 58u8) == c - lo);
        } else {
            assert(e.skip(c as int - lo as int) =~= Seq::<u8>::empty());
            assert(find_byte(e, 58u8) == -1);
        }
    }
    if c == hi {
        return Err(ParseError::MissingSeparator { entry: idx });
    }
    proof {
        assert(e.subrange(0, c as int - lo as int) =~= s@.subrange(lo as int, c as int));
        assert(e.subrange(c as int - lo as int + 1, e.len() as int)
            =~= s@.subrange(c as int + 1, hi as int));
    }
    match parse_load(s, lo, c) {
        Err(LoadErr::Syntax) => Err(ParseError::BadLoad { entry: idx }),
        Err(LoadErr::Range) => Err(ParseError::LoadOutOfRange { entry: idx }),
        Ok(load) => match parse_speed(s, c + 1, hi) {
            None => Err(ParseError::BadSpeed { entry: idx }),
            Some(speed) => Ok((load, speed)),
        },
    }
}

/// Parses a comma-separated curve encoding and builds the table, sorting
/// the points and refusing duplicate loads.
pub fn parse_fan_speed_table(s: &[u8]) -> (r: Result<FanSpeedTable, ParseError>)
    ensures
        ({
            let pr = parse_points(s@, 0);
            match r {
                Ok(c) => pr matches Ok(pts) && c.wf() && distinct_loads(pts)
                    && c@.to_multiset() == pts.to_multiset(),
                Err(ParseError::DuplicateLoad) => pr matches Ok(pts) && !distinct_loads(pts),
                Err(e) => pr == Err::<Seq<Breakpoint>, ParseError>(e),
            }
        }),
{
    let n = s.len();
    let mut points: Vec<Breakpoint> = Vec::new();
    let mut pos: usize = 0;
    let mut idx: usize = 0;
    proof {
        assert(s@.skip(0) =~= s@);
        assert(Seq::<Breakpoint>::empty() + parse_points(s@, 0)->Ok_0 =~= parse_points(s@, 0)->Ok_0);
    }
    loop
        invariant_except_break
            ({
                let rest = parse_points(s@.skip(pos as int), idx);
                let whole = parse_points(s@, 0);
                match rest {
                    Ok(ps) => whole == Ok::<Seq<Breakpoint>, ParseError>(points@ + ps),
                    Err(e) => whole == Err::<Seq<Breakpoint>, ParseError>(e),
                }
            }),
        invariant
            n == s@.len(),
            0 <= pos <= n,
            idx <= pos,
            loads_in_range(points@),
        ensures
            parse_points(s@, 0) == Ok::<Seq<Breakpoint>, ParseError>(points@),
            loads_in_range(points@),
        decreases n - pos,
    {
        let ghost suffix = s@.skip(pos as int);
        let mut c: usize = pos;
        while c < n && s[c] != 44
            invariant
                pos <= c <= n == s@.len(),
                forall|k: int| pos <= k < c ==> s@[k] != 44u8,
            decreases n - c,
        {
            c += 1;
        }
        let has_comma = c < n;
        proof {
            assert(forall|k: int| 0 <= k < c - pos ==> suffix[k] == s@[pos + k] && suffix[k] != 44u8);
            lemma_find_byte_skip(suffix, 44u8, c as int - pos as int);
            if has_comma {
                assert(suffix.skip(c as int - pos as int)[0] == s@[c as int]);
                assert(find_byte(suffix, 44u8) == c - pos);
            } else {
                assert(suffix.skip(c as int - pos as int) =~= Seq::<u8>::empty());
                assert(find_byte(suffix, 44u8) == -1);
            }
            assert(s@.subrange(pos as int, c as int) =~= suffix.subrange(0, c as int - pos as int));
            if !has_comma {
                assert(s@.subrange(pos as int, c as int) =~= suffix);
            }
        }
        let entry = parse_entry_exec(s, pos, c, idx);
        match entry {
            Err(e) => {
                return Err(e);
            },
            Ok(p) => {
                let ghost before = points@;
                points.push(p);
                if !has_comma {
                    proof {
                        assert(parse_points(suffix, idx)
                            == Ok::<Seq<Breakpoint>, ParseError>(seq![p]));
                        assert(before + seq![p] =~= points@);
                    }
                    break;
                }
                proof {
                    let tail = suffix.subrange(c as int - pos as int + 1, suffix.len() as int);
                    assert(tail =~= s@.skip(c as int + 1));
                    let rest2 = parse_points(s@.skip(c as int + 1), (idx + 1) as usize);
                    match rest2 {
                        Ok(ps2) => {
                            assert(parse_points(suffix, idx)
                                == Ok::<Seq<Breakpoint>, ParseError>(seq![p] + ps2));
                            assert(before + (seq![p] + ps2) =~= points@ + ps2);
                        },
                        Err(_) => {},
                    }
                }
                pos = c + 1;
                idx = idx + 1;
            },
        }
    }
    match FanSpeedTable::new(points) {
        Ok(curve) => Ok(curve),
        Err(err) => {
            proof {
                assert(err == CurveError::DuplicateLoad);
            }
            Err(ParseError::DuplicateLoad)
        },
    }
}

} // verus!
