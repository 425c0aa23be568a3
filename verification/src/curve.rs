//! The calibration curve: a sorted table of (load, duty-cycle) breakpoints
//! and piecewise-linear interpolation between them.
//!
//! Loads are measured in thousandths of full scale: 1000 stands for a
//! normalized load of 1.0.

use vstd::prelude::*;
use vstd::arithmetic::div_mod::{lemma_div_is_ordered, lemma_div_multiples_vanish, lemma_div_pos_is_pos};

verus! {

/// One calibration point: a load in thousandths, and the duty-cycle byte
/// commanded at that load.
pub type Breakpoint = (u16, u8);

/// All breakpoint loads lie in [0, 1000].
pub open spec fn loads_in_range(s: Seq<Breakpoint>) -> bool {
    forall|i: int| 0 <= i < s.len() ==> (#[trigger] s[i]).0 <= 1000
}

/// No two breakpoints share a load value.
pub open spec fn distinct_loads(s: Seq<Breakpoint>) -> bool {
    forall|i: int, j: int| 0 <= i < j < s.len() ==> (#[trigger] s[i]).0 != (#[trigger] s[j]).0
}

/// Strictly ascending by load.
pub open spec fn table_sorted(s: Seq<Breakpoint>) -> bool {
    forall|i: int, j: int| 0 <= i < j < s.len() ==> (#[trigger] s[i]).0 < (#[trigger] s[j]).0
}

/// A well-formed table: strictly sorted, with loads in range.
pub open spec fn table_wf(s: Seq<Breakpoint>) -> bool {
    table_sorted(s) && loads_in_range(s)
}

/// Loads outside [0, 1000] are clamped before lookup.
pub open spec fn clamp_load(load: int) -> int {
    if load < 0 {
        0
    } else if load > 1000 {
        1000
    } else {
        load
    }
}

/// The first breakpoint strictly above `load`, as (load, speed); the
/// virtual point (1000, 255) when none exists.
pub open spec fn upper_point(s: Seq<Breakpoint>, load: int) -> (int, int)
    decreases s.len(),
{
    if s.len() == 0 {
        (1000int, 255int)
    } else if load < s[0].0 {
        (s[0].0 as int, s[0].1 as int)
    } else {
        upper_point(s.drop_first(), load)
    }
}

/// The last breakpoint strictly below `load`, as (load, speed); the
/// virtual point (0, 0) when none exists.
pub open spec fn lower_point(s: Seq<Breakpoint>, load: int) -> (int, int)
    decreases s.len(),
{
    if s.len() == 0 {
        (0int, 0int)
    } else if s.last().0 < load {
        (s.last().0 as int, s.last().1 as int)
    } else {
        lower_point(s.drop_last(), load)
    }
}

/// Linear interpolation between the points `lo` and `hi` at position
/// `load`, with the quotient rounded down.
pub open spec fn interp(lo: (int, int), hi: (int, int), load: int) -> int {
    (hi.1 * (load - lo.0) + lo.1 * (hi.0 - load)) / (hi.0 - lo.0)
}

/// What `FanSpeedTable::lookup_speed` returns: clamp, bracket, interpolate.
pub open spec fn lookup_spec(s: Seq<Breakpoint>, load: int) -> int {
    let c = clamp_load(load);
    interp(lower_point(s, c), upper_point(s, c), c)
}

/// Why a set of calibration points is refused.
#[derive(Clone, Copy, Debug, PartialEq, Eq, Structural)]
pub enum CurveError {
    /// Some load lies outside [0, 1000].
    LoadOutOfRange,
    /// Two points share the same load, which would leave the interpolation
    /// segment between them empty.
    DuplicateLoad,
}

/// An immutable calibration table, sorted ascending by load.
#[derive(Clone, Debug)]
pub struct FanSpeedTable {
    table: Vec<Breakpoint>,
}

impl View for FanSpeedTable {
    type V = Seq<Breakpoint>;

    closed spec fn view(&self) -> Seq<Breakpoint> {
        self.table@
    }
}

impl FanSpeedTable {
    pub open spec fn wf(&self) -> bool {
        table_wf(self@)
    }

    /// Builds a table from points in any order: sorts them ascending by
    /// load, refusing loads above 1000 and duplicate loads.
    pub fn new(points: Vec<Breakpoint>) -> (r: Result<FanSpeedTable, CurveError>)
        ensures
            match r {
                Ok(c) => c.wf() && c@.to_multiset() == points@.to_multiset()
                    && loads_in_range(points@) && distinct_loads(points@),
                Err(e) => match e {
                    CurveError::LoadOutOfRange => !loads_in_range(points@),
                    CurveError::DuplicateLoad => loads_in_range(points@)
                        && !distinct_loads(points@),
                },
            },
    {
        let n = points.len();
        let mut i: usize = 0;
        while i < n
            invariant
                n == points@.len(),
                0 <= i <= n,
                forall|k: int| 0 <= k < i ==> (#[trigger] points@[k]).0 <= 1000,
            decreases n - i,
        {
            if points[i].0 > 1000 {
                proof {
                    assert(!loads_in_range(points@)) by {
                        assert(points@[i as int].0 > 1000);
                    }
                }
                return Err(CurveError::LoadOutOfRange);
            }
            i += 1;
        }
        let mut a: usize = 0;
        while a < n
            invariant
                n == points@.len(),
                0 <= a <= n,
                loads_in_range(points@),
                forall|p: int, q: int| 0 <= p < q < points@.len() && p < a
                    ==> (#[trigger] points@[p]).0 != (#[trigger] points@[q]).0,
            decreases n - a,
        {
            let mut b: usize = a + 1;
            while b < n
                invariant
                    n == points@.len(),
                    0 <= a < b <= n,
                    loads_in_range(points@),
                    forall|q: int| a < q < b ==> (#[trigger] points@[q]).0 != points@[a as int].0,
                decreases n - b,
            {
                if points[b].0 == points[a].0 {
                    proof {
                        assert(!distinct_loads(points@)) by {
                            assert(0 <= a < b < points@.len());
                            assert(points@[a as int].0 == points@[b as int].0);
                        }
                        assert(loads_in_range(points@));
                    }
                    return Err(CurveError::DuplicateLoad);
                }
                b += 1;
            }
            a += 1;
        }
        let sorted = sort_points(points);
        proof {
            lemma_sorted_distinct_is_strict(sorted@, points@);
        }
        Ok(FanSpeedTable { table: sorted })
    }

    /// Interpolated duty cycle for a load given in thousandths; inputs
    /// outside [0, 1000] are clamped.
    pub fn lookup_speed(&self, load_millis: i64) -> (r: u8)
        requires
            self.wf(),
        ensures
            r as int == lookup_spec(self@, load_millis as int),
    {
        let load: u16 = if load_millis < 0 {
            0
        } else if load_millis > 1000 {
            1000
        } else {
            load_millis as u16
        };
        let ghost t = self@;
        let ghost c = clamp_load(load_millis as int);
        assert(c == load as int);
        let n = self.table.len();

        // First breakpoint strictly above the clamped load.
        let mut i: usize = 0;
        while i < n && self.table[i].0 <= load
            invariant
                n == t.len(),
                0 <= i <= n,
                c == load as int,
                forall|k: int| 0 <= k < i ==> !(c < (#[trigger] t[k]).0),
                self.wf(),
                t == self@,
            decreases n - i,
        {
            i += 1;
        }
        let upper: Breakpoint = if i < n {
            self.table[i]
        } else {
            (1000, 255)
        };
        proof {
            lemma_upper_unfold(t, c, i as int);
            if i < n {
                assert(t.skip(i as int)[0] == t[i as int]);
            } else {
                assert(t.skip(i as int) =~= Seq::<Breakpoint>::empty());
            }
        }
        let ghost up = upper_point(t, c);
        assert(up == (upper.0 as int, upper.1 as int));

        // Last breakpoint strictly below the clamped load.
        let mut j: usize = n;
        while j > 0 && self.table[j - 1].0 >= load
            invariant
                n == t.len(),
                0 <= j <= n,
                c == load as int,
                forall|k: int| j <= k < n ==> !((#[trigger] t[k]).0 < c),
                self.wf(),
                t == self@,
            decreases j,
        {
            j -= 1;
        }
        let lower: Breakpoint = if j > 0 {
            self.table[j - 1]
        } else {
            (0, 0)
        };
        proof {
            lemma_lower_unfold(t, c, j as int);
            if j > 0 {
                assert(t.take(j as int).last() == t[j as int - 1]);
            } else {
                assert(t.take(0) =~= Seq::<Breakpoint>::empty());
            }
        }
        let ghost lo = lower_point(t, c);
        assert(lo == (lower.0 as int, lower.1 as int));

        proof {
            lemma_bracket(t, c);
            assert(lo.0 == lower.0 as int && lo.1 == lower.1 as int);
            assert(up.0 == upper.0 as int && up.1 == upper.1 as int);
            assert(lower.0 as int <= c);
            assert(c <= upper.0 as int);
            assert((lower.0 as int) < (upper.0 as int));
            assert(load as int == c && c <= 1000);
            vstd::arithmetic::mul::lemma_mul_upper_bound(
                upper.1 as int, 255, load as int - lower.0 as int, 1000);
            vstd::arithmetic::mul::lemma_mul_upper_bound(
                lower.1 as int, 255, upper.0 as int - load as int, 1000);
            vstd::arithmetic::mul::lemma_mul_nonnegative(
                upper.1 as int, load as int - lower.0 as int);
            vstd::arithmetic::mul::lemma_mul_nonnegative(
                lower.1 as int, upper.0 as int - load as int);
        }
        let num: u32 = (upper.1 as u32) * ((load - lower.0) as u32)
            + (lower.1 as u32) * ((upper.0 - load) as u32);
        let den: u32 = (upper.0 - lower.0) as u32;
        let speed: u32 = num / den;
        proof {
            lemma_interp_bounds(lo, up, c);
            assert(speed as int == interp(lo, up, c));
        }
        speed as u8
    }
}

/// The built-in calibration curve, in thousandths of full load.
pub open spec fn default_table_spec() -> Seq<Breakpoint> {
    seq![(300u16, 0u8), (400u16, 70u8), (600u16, 120u8), (700u16, 170u8), (800u16, 210u8), (950u16, 255u8)]
}

/// The curve used when no calibration table is configured.
pub fn default_fan_speed_table() -> (r: FanSpeedTable)
    ensures
        r.wf(),
        r@ == default_table_spec(),
{
    let mut table: Vec<Breakpoint> = Vec::new();
    table.push((300, 0));
    table.push((400, 70));
    table.push((600, 120));
    table.push((700, 170));
    table.push((800, 210));
    table.push((950, 255));
    proof {
        assert(table@ =~= default_table_spec());
    }
    FanSpeedTable { table }
}

/// Insertion sort by load, ascending; keeps exactly the given points.
fn sort_points(points: Vec<Breakpoint>) -> (r: Vec<Breakpoint>)
    ensures
        r@.to_multiset() == points@.to_multiset(),
        forall|p: int, q: int| 0 <= p < q < r@.len()
            ==> (#[trigger] r@[p]).0 <= (#[trigger] r@[q]).0,
{
    let n = points.len();
    let mut out: Vec<Breakpoint> = Vec::new();
    let mut i: usize = 0;
    proof {
        assert(points@.take(0) =~= Seq::<Breakpoint>::empty());
        Seq::<Breakpoint>::empty().to_multiset_ensures();
    }
    while i < n
        invariant
            n == points@.len(),
            0 <= i <= n,
            out@.to_multiset() == points@.take(i as int).to_multiset(),
            out@.len() == i,
            forall|p: int, q: int| 0 <= p < q < out@.len()
                ==> (#[trigger] out@[p]).0 <= (#[trigger] out@[q]).0,
        decreases n - i,
    {
        let x = points[i];
        let m = out.len();
        let mut pos: usize = 0;
        while pos < m && out[pos].0 <= x.0
            invariant
                0 <= pos <= m,
                m == out@.len(),
                forall|k: int| 0 <= k < pos ==> (#[trigger] out@[k]).0 <= x.0,
            decreases m - pos,
        {
            pos += 1;
        }
        let ghost before = out@;
        out.insert(pos, x);
        proof {
            before.insert_ensures(pos as int, x);
            assert forall|p: int, q: int| 0 <= p < q < out@.len()
                implies (#[trigger] out@[p]).0 <= (#[trigger] out@[q]).0 by {
                if q < pos {
                    assert(out@[p] == before[p] && out@[q] == before[q]);
                } else if p < pos && q == pos {
                    assert(out@[p] == before[p] && out@[q] == x);
                } else if p < pos && q > pos {
                    assert(out@[p] == before[p] && out@[q] == before[q - 1]);
                    assert(p < q - 1 || p == q - 1);
                } else if p == pos {
                    assert(out@[p] == x && out@[q] == before[q - 1]);
                    assert(pos <= q - 1 < before.len());
                    assert(before[pos as int].0 > x.0);
                    assert(pos == q - 1 || before[pos as int].0 <= before[q - 1].0);
                } else {
                    assert(out@[p] == before[p - 1] && out@[q] == before[q - 1]);
                }
            }
            lemma_insert_to_multiset(before, pos as int, x);
            assert(points@.take(i as int + 1) =~= points@.take(i as int).push(points@[i as int]));
            points@.take(i as int).to_multiset_ensures();
            assert(points@.take(i as int + 1).to_multiset()
                == points@.take(i as int).to_multiset().insert(x));
        }
        i += 1;
    }
    proof {
        assert(points@.take(n as int) =~= points@);
    }
    out
}

/// Inserting an element adds exactly it to the sequence's multiset.
proof fn lemma_insert_to_multiset<A>(s: Seq<A>, i: int, x: A)
    requires
        0 <= i <= s.len(),
    ensures
        s.insert(i, x).to_multiset() == s.to_multiset().insert(x),
{
    let t = s.insert(i, x);
    t.to_multiset_ensures();
    s.to_multiset_ensures();
    assert(t.remove(i) =~= s);
    assert(t.remove(i).to_multiset() == t.to_multiset().remove(t[i]));
    assert(t[i] == x);
    assert(t.contains(x));
    assert(t.to_multiset().count(x) > 0);
    assert(t.to_multiset() =~= s.to_multiset().insert(x)) by {
        assert(t.to_multiset().remove(x).insert(x) =~= t.to_multiset());
    }
}

/// A sorted sequence whose loads are distinct is strictly sorted.
proof fn lemma_sorted_distinct_is_strict(s: Seq<Breakpoint>, orig: Seq<Breakpoint>)
    requires
        s.to_multiset() == orig.to_multiset(),
        loads_in_range(orig),
        distinct_loads(orig),
        forall|p: int, q: int| 0 <= p < q < s.len()
            ==> (#[trigger] s[p]).0 <= (#[trigger] s[q]).0,
    ensures
        table_wf(s),
{
    lemma_distinct_loads_permutation(orig, s);
    lemma_loads_in_range_permutation(orig, s);
    assert forall|i: int, j: int| 0 <= i < j < s.len()
        implies (#[trigger] s[i]).0 < (#[trigger] s[j]).0 by {
        assert(s[i].0 <= s[j].0);
        assert(s[i].0 != s[j].0);
    }
}

/// An element that occurs at two indices counts at least twice in the multiset.
proof fn lemma_two_indices_count(s: Seq<Breakpoint>, i: int, j: int)
    requires
        0 <= i < j < s.len(),
        s[i] == s[j],
    ensures
        s.to_multiset().count(s[i]) >= 2,
{
    let s0 = s.subrange(0, j);
    let s1 = s.subrange(j, s.len() as int);
    assert(s =~= s0 + s1);
    vstd::seq_lib::lemma_multiset_commutative(s0, s1);
    s0.to_multiset_ensures();
    s1.to_multiset_ensures();
    assert(s0[i] == s[i]);
    assert(s0.contains(s[i]));
    assert(s1[0] == s[j]);
    assert(s1.contains(s[i]));
    assert(s0.to_multiset().count(s[i]) > 0);
    assert(s1.to_multiset().count(s[i]) > 0);
}

/// An element counted at least twice occurs at two indices.
proof fn lemma_count_two_indices(s: Seq<Breakpoint>, x: Breakpoint)
    requires
        s.to_multiset().count(x) >= 2,
    ensures
        exists|i: int, j: int| 0 <= i < j < s.len() && s[i] == x && s[j] == x,
{
    s.to_multiset_ensures();
    assert(s.contains(x));
    let i = choose|i: int| 0 <= i < s.len() && s[i] == x;
    let rest = s.remove(i);
    assert(rest.to_multiset() == s.to_multiset().remove(s[i]));
    assert(rest.to_multiset().count(x) >= 1);
    rest.to_multiset_ensures();
    assert(rest.contains(x));
    let k = choose|k: int| 0 <= k < rest.len() && rest[k] == x;
    if k < i {
        assert(s[k] == x);
        assert(0 <= k < i < s.len() && s[k] == x && s[i] == x);
    } else {
        assert(s[k + 1] == x);
        assert(0 <= i < k + 1 < s.len() && s[i] == x && s[k + 1] == x);
    }
}

/// Whether some load occurs twice depends only on which points are present,
/// not on their order.
proof fn lemma_dup_one_way(a: Seq<Breakpoint>, b: Seq<Breakpoint>)
    requires
        a.to_multiset() == b.to_multiset(),
        !distinct_loads(a),
    ensures
        !distinct_loads(b),
{
    a.to_multiset_ensures();
    b.to_multiset_ensures();
    let (i, j): (int, int) = choose|i: int, j: int|
        0 <= i < j < a.len() && (#[trigger] a[i]).0 == (#[trigger] a[j]).0;
    let x = a[i];
    let y = a[j];
    if x == y {
        lemma_two_indices_count(a, i, j);
        lemma_count_two_indices(b, x);
        let (p, q): (int, int) = choose|p: int, q: int|
            0 <= p < q < b.len() && b[p] == x && b[q] == x;
        assert(b[p].0 == b[q].0);
    } else {
        assert(a.contains(x));
        assert(a.contains(y));
        assert(b.to_multiset().count(x) > 0);
        assert(b.to_multiset().count(y) > 0);
        assert(b.contains(x));
        assert(b.contains(y));
        let p = choose|p: int| 0 <= p < b.len() && b[p] == x;
        let q = choose|q: int| 0 <= q < b.len() && b[q] == y;
        assert(p != q);
        if p < q {
            assert(b[p].0 == b[q].0);
        } else {
            assert(b[q].0 == b[p].0);
        }
    }
}

/// Load distinctness is invariant under reordering.
pub proof fn lemma_distinct_loads_permutation(a: Seq<Breakpoint>, b: Seq<Breakpoint>)
    requires
        a.to_multiset() == b.to_multiset(),
    ensures
        distinct_loads(a) == distinct_loads(b),
{
    if !distinct_loads(a) {
        lemma_dup_one_way(a, b);
    }
    if !distinct_loads(b) {
        lemma_dup_one_way(b, a);
    }
}

/// Load range is invariant under reordering.
pub proof fn lemma_loads_in_range_permutation(a: Seq<Breakpoint>, b: Seq<Breakpoint>)
    requires
        a.to_multiset() == b.to_multiset(),
    ensures
        loads_in_range(a) == loads_in_range(b),
{
    a.to_multiset_ensures();
    b.to_multiset_ensures();
    assert forall|s: Seq<Breakpoint>, t: Seq<Breakpoint>| s.to_multiset() == t.to_multiset()
        && loads_in_range(s) implies loads_in_range(t) by {
        s.to_multiset_ensures();
        t.to_multiset_ensures();
        assert forall|i: int| 0 <= i < t.len() implies (#[trigger] t[i]).0 <= 1000 by {
            assert(t.contains(t[i]));
            assert(t.to_multiset().count(t[i]) > 0);
            assert(s.contains(t[i]));
            let k = choose|k: int| 0 <= k < s.len() && s[k] == t[i];
            assert(s[k].0 <= 1000);
        }
    }
}

/// The prefix of a table left of the first match can be dropped when
/// looking for the upper bracket point.
proof fn lemma_upper_unfold(s: Seq<Breakpoint>, load: int, i: int)
    requires
        0 <= i <= s.len(),
        forall|k: int| 0 <= k < i ==> !(load < (#[trigger] s[k]).0),
    ensures
        upper_point(s, load) == upper_point(s.skip(i), load),
    decreases i,
{
    if i == 0 {
        assert(s.skip(0) =~= s);
    } else {
        lemma_upper_unfold(s, load, i - 1);
        let t = s.skip(i - 1);
        assert(t[0] == s[i - 1]);
        assert(!(load < t[0].0));
        assert(upper_point(t, load) == upper_point(t.drop_first(), load));
        assert(t.drop_first() =~= s.skip(i));
    }
}

/// The suffix of a table right of the last match can be dropped when
/// looking for the lower bracket point.
proof fn lemma_lower_unfold(s: Seq<Breakpoint>, load: int, i: int)
    requires
        0 <= i <= s.len(),
        forall|k: int| i <= k < s.len() ==> !((#[trigger] s[k]).0 < load),
    ensures
        lower_point(s, load) == lower_point(s.take(i), load),
    decreases s.len() - i,
{
    if i == s.len() {
        assert(s.take(i) =~= s);
    } else {
        lemma_lower_unfold(s, load, i + 1);
        let t = s.take(i + 1);
        assert(t.last() == s[i]);
        assert(!(t.last().0 < load));
        assert(lower_point(t, load) == lower_point(t.drop_last(), load));
        assert(t.drop_last() =~= s.take(i));
    }
}

/// The upper bracket point lies strictly above the load, or is the virtual
/// end point (1000, 255); its coordinates are in range.
proof fn lemma_upper_props(s: Seq<Breakpoint>, load: int)
    requires
        table_wf(s),
        load <= 1000,
    ensures
        load <= upper_point(s, load).0 <= 1000,
        0 <= upper_point(s, load).1 <= 255,
        load < upper_point(s, load).0 || upper_point(s, load) == (1000int, 255int),
    decreases s.len(),
{
    if s.len() == 0 {
    } else if load < s[0].0 {
    } else {
        assert forall|i: int, j: int| 0 <= i < j < s.drop_first().len()
            implies (#[trigger] s.drop_first()[i]).0 < (#[trigger] s.drop_first()[j]).0 by {
            assert(s.drop_first()[i] == s[i + 1]);
            assert(s.drop_first()[j] == s[j + 1]);
        }
        assert forall|i: int| 0 <= i < s.drop_first().len()
            implies (#[trigger] s.drop_first()[i]).0 <= 1000 by {
            assert(s.drop_first()[i] == s[i + 1]);
        }
        lemma_upper_props(s.drop_first(), load);
    }
}

/// The lower bracket point lies strictly below the load, or is the virtual
/// start point (0, 0); its coordinates are in range.
proof fn lemma_lower_props(s: Seq<Breakpoint>, load: int)
    requires
        table_wf(s),
        0 <= load,
    ensures
        0 <= lower_point(s, load).0 <= load,
        0 <= lower_point(s, load).1 <= 255,
        lower_point(s, load).0 < load || lower_point(s, load) == (0int, 0int),
    decreases s.len(),
{
    if s.len() == 0 {
    } else if s.last().0 < load {
    } else {
        assert forall|i: int, j: int| 0 <= i < j < s.drop_last().len()
            implies (#[trigger] s.drop_last()[i]).0 < (#[trigger] s.drop_last()[j]).0 by {
            assert(s.drop_last()[i] == s[i]);
            assert(s.drop_last()[j] == s[j]);
        }
        assert forall|i: int| 0 <= i < s.drop_last().len()
            implies (#[trigger] s.drop_last()[i]).0 <= 1000 by {
            assert(s.drop_last()[i] == s[i]);
        }
        lemma_lower_props(s.drop_last(), load);
    }
}

/// For a clamped load the bracket points straddle it, with distinct loads
/// and speeds in [0, 255].
pub proof fn lemma_bracket(s: Seq<Breakpoint>, load: int)
    requires
        table_wf(s),
        0 <= load <= 1000,
    ensures
        0 <= lower_point(s, load).0 <= load,
        load <= upper_point(s, load).0 <= 1000,
        lower_point(s, load).0 < upper_point(s, load).0,
        0 <= lower_point(s, load).1 <= 255,
        0 <= upper_point(s, load).1 <= 255,
{
    lemma_upper_props(s, load);
    lemma_lower_props(s, load);
    let lo = lower_point(s, load);
    let up = upper_point(s, load);
    if lo.0 < load {
        assert(lo.0 < up.0);
    } else {
        assert(lo == (0int, 0int));
        if load < up.0 {
            assert(lo.0 < up.0);
        } else {
            assert(up == (1000int, 255int));
            assert(load == 1000);
        }
    }
}

/// Truncated linear interpolation stays within [0, 255] for speeds in
/// [0, 255] whenever the load lies between the bracket points.
pub proof fn lemma_interp_bounds(lo: (int, int), hi: (int, int), load: int)
    requires
        lo.0 <= load <= hi.0,
        lo.0 < hi.0,
        0 <= lo.1 <= 255,
        0 <= hi.1 <= 255,
    ensures
        0 <= interp(lo, hi, load) <= 255,
{
    let num = hi.1 * (load - lo.0) + lo.1 * (hi.0 - load);
    let den = hi.0 - lo.0;
    assert(num >= 0) by (nonlinear_arith)
        requires
            lo.0 <= load <= hi.0,
            0 <= lo.1,
            0 <= hi.1,
            num == hi.1 * (load - lo.0) + lo.1 * (hi.0 - load),
    ;
    assert(num <= 255 * den) by (nonlinear_arith)
        requires
            lo.0 <= load <= hi.0,
            lo.1 <= 255,
            hi.1 <= 255,
            num == hi.1 * (load - lo.0) + lo.1 * (hi.0 - load),
            den == hi.0 - lo.0,
    ;
    lemma_div_pos_is_pos(num, den);
    lemma_div_is_ordered(num, 255 * den, den);
    lemma_div_multiples_vanish(255, den);
}

/// Below the lowest breakpoint nothing is selected: the lower bracket point
/// of a clamped zero load is the virtual (0, 0).
proof fn lemma_lower_at_zero(s: Seq<Breakpoint>)
    ensures
        lower_point(s, 0) == (0int, 0int),
    decreases s.len(),
{
    if s.len() > 0 {
        lemma_lower_at_zero(s.drop_last());
    }
}

/// Above every breakpoint nothing is selected: the upper bracket point of
/// a clamped full load is the virtual (1000, 255).
proof fn lemma_upper_at_full(s: Seq<Breakpoint>)
    requires
        loads_in_range(s),
    ensures
        upper_point(s, 1000) == (1000int, 255int),
    decreases s.len(),
{
    if s.len() > 0 {
        assert(forall|i: int| 0 <= i < s.drop_first().len()
            ==> (#[trigger] s.drop_first()[i]).0 <= 1000);
        lemma_upper_at_full(s.drop_first());
    }
}

/// Any load at or below zero looks up a duty cycle of exactly 0, for every
/// well-formed table.
pub proof fn lemma_lookup_at_zero(s: Seq<Breakpoint>, load: int)
    requires
        table_wf(s),
        load <= 0,
    ensures
        lookup_spec(s, load) == 0,
{
    lemma_lower_at_zero(s);
    lemma_bracket(s, 0);
    let up = upper_point(s, 0);
    assert(interp((0int, 0int), up, 0) == 0int / up.0);
    vstd::arithmetic::div_mod::lemma_div_of0(up.0);
}

/// Any load at or above full scale looks up a duty cycle of exactly 255,
/// for every well-formed table.
pub proof fn lemma_lookup_at_full(s: Seq<Breakpoint>, load: int)
    requires
        table_wf(s),
        load >= 1000,
    ensures
        lookup_spec(s, load) == 255,
{
    lemma_upper_at_full(s);
    lemma_bracket(s, 1000);
    let lo = lower_point(s, 1000);
    let d = 1000 - lo.0;
    let num = 255 * (1000 - lo.0) + lo.1 * (1000 - 1000);
    assert(lo.1 * 0 == 0) by (nonlinear_arith);
    assert(num == 255 * d);
    assert(interp(lo, (1000int, 255int), 1000) == num / d);
    lemma_div_multiples_vanish(255, d);
}

/// The lookup result lies in [0, 255] for every input, clamped or not.
pub proof fn lemma_lookup_range(s: Seq<Breakpoint>, load: int)
    requires
        table_wf(s),
    ensures
        0 <= lookup_spec(s, load) <= 255,
        lookup_spec(s, load) == lookup_spec(s, clamp_load(load)),
{
    let c = clamp_load(load);
    lemma_bracket(s, c);
    lemma_interp_bounds(lower_point(s, c), upper_point(s, c), c);
}

/// Strictly sorted sequences with the same points are the same sequence:
/// sorting distinct loads has exactly one result.
proof fn lemma_sorted_distinct_unique(a: Seq<Breakpoint>, b: Seq<Breakpoint>)
    requires
        table_sorted(a),
        table_sorted(b),
        a.to_multiset() == b.to_multiset(),
    ensures
        a == b,
    decreases a.len(),
{
    a.to_multiset_ensures();
    b.to_multiset_ensures();
    if a.len() == 0 {
        assert(a =~= b);
    } else {
        assert(a.contains(a[0]));
        assert(b.to_multiset().count(a[0]) > 0);
        assert(b.contains(a[0]));
        let j = choose|j: int| 0 <= j < b.len() && b[j] == a[0];
        assert(b.contains(b[0]));
        assert(a.to_multiset().count(b[0]) > 0);
        assert(a.contains(b[0]));
        let i = choose|i: int| 0 <= i < a.len() && a[i] == b[0];
        assert(j == 0 || b[0].0 < b[j].0);
        assert(i == 0 || a[0].0 < a[i].0);
        assert(a[0].0 == b[0].0);
        assert(j == 0);
        assert(b[0] == a[0]);
        let at = a.drop_first();
        let bt = b.drop_first();
        assert(a.remove(0) =~= at);
        assert(b.remove(0) =~= bt);
        assert(a.remove(0).to_multiset() == a.to_multiset().remove(a[0]));
        assert(b.remove(0).to_multiset() == b.to_multiset().remove(b[0]));
        assert(at.to_multiset() == bt.to_multiset());
        assert(forall|p: int| 0 <= p < at.len() ==> #[trigger] at[p] == a[p + 1]);
        assert(forall|p: int| 0 <= p < bt.len() ==> #[trigger] bt[p] == b[p + 1]);
        assert(table_sorted(at));
        assert(table_sorted(bt));
        lemma_sorted_distinct_unique(at, bt);
        assert(a.len() == a.to_multiset().len());
        assert(b.len() == b.to_multiset().len());
        assert forall|k: int| 0 <= k < a.len() implies a[k] == b[k] by {
            if k > 0 {
                assert(a[k] == at[k - 1]);
                assert(b[k] == bt[k - 1]);
            }
        }
        assert(a =~= b);
    }
}

/// Two tables built from the same points in any order answer every lookup
/// identically: building sorts, and sorting distinct loads is canonical.
pub proof fn lemma_same_points_same_lookup(c1: FanSpeedTable, c2: FanSpeedTable, load: int)
    requires
        c1.wf(),
        c2.wf(),
        c1@.to_multiset() == c2@.to_multiset(),
    ensures
        c1@ == c2@,
        lookup_spec(c1@, load) == lookup_spec(c2@, load),
{
    lemma_sorted_distinct_unique(c1@, c2@);
}

/// The speeds never decrease along the table.
pub open spec fn speeds_nondecreasing(s: Seq<Breakpoint>) -> bool {
    forall|i: int, j: int| 0 <= i <= j < s.len() ==> (#[trigger] s[i]).1 <= (#[trigger] s[j]).1
}

/// `load` does not sit exactly on a breakpoint strictly inside the scale.
/// On such a breakpoint the strict bracketing skips the point itself and
/// interpolates across it, which can dip below the neighbouring results.
pub open spec fn off_interior_breakpoints(s: Seq<Breakpoint>, load: int) -> bool {
    forall|k: int| 0 <= k < s.len()
        ==> ((#[trigger] s[k]).0 as int) != load || s[k].0 == 0 || s[k].0 == 1000
}

/// Index of the first breakpoint strictly above `load` (the table's length
/// when none is).
spec fn upper_idx(s: Seq<Breakpoint>, load: int) -> int
    decreases s.len(),
{
    if s.len() == 0 {
        0
    } else if load < s[0].0 {
        0
    } else {
        1 + upper_idx(s.drop_first(), load)
    }
}

/// One past the index of the last breakpoint strictly below `load` (0 when
/// none is).
spec fn lower_idx(s: Seq<Breakpoint>, load: int) -> int
    decreases s.len(),
{
    if s.len() == 0 {
        0
    } else if s.last().0 < load {
        s.len() as int
    } else {
        lower_idx(s.drop_last(), load)
    }
}

proof fn lemma_upper_idx_char(s: Seq<Breakpoint>, load: int)
    ensures
        0 <= upper_idx(s, load) <= s.len(),
        forall|k: int| 0 <= k < upper_idx(s, load) ==> !(load < (#[trigger] s[k]).0),
        upper_idx(s, load) < s.len() ==> load < s[upper_idx(s, load)].0,
        upper_point(s, load) == (if upper_idx(s, load) < s.len() {
            (s[upper_idx(s, load)].0 as int, s[upper_idx(s, load)].1 as int)
        } else {
            (1000int, 255int)
        }),
    decreases s.len(),
{
    if s.len() > 0 && !(load < s[0].0) {
        let t = s.drop_first();
        lemma_upper_idx_char(t, load);
        assert(forall|p: int| 0 <= p < t.len() ==> #[trigger] t[p] == s[p + 1]);
        let i = upper_idx(s, load);
        assert(i == 1 + upper_idx(t, load));
        assert forall|k: int| 0 <= k < i implies !(load < (#[trigger] s[k]).0) by {
            if k > 0 {
                assert(t[k - 1] == s[k]);
                assert(!(load < t[k - 1].0));
            }
        }
        if i < s.len() {
            assert(t[i - 1] == s[i]);
            assert(load < t[i - 1].0);
        }
        assert(upper_point(s, load) == upper_point(t, load));
    }
}

proof fn lemma_lower_idx_char(s: Seq<Breakpoint>, load: int)
    ensures
        0 <= lower_idx(s, load) <= s.len(),
        forall|k: int| lower_idx(s, load) <= k < s.len() ==> !((#[trigger] s[k]).0 < load),
        lower_idx(s, load) > 0 ==> s[lower_idx(s, load) - 1].0 < load,
        lower_point(s, load) == (if lower_idx(s, load) > 0 {
            (s[lower_idx(s, load) - 1].0 as int, s[lower_idx(s, load) - 1].1 as int)
        } else {
            (0int, 0int)
        }),
    decreases s.len(),
{
    if s.len() > 0 && !(s.last().0 < load) {
        let t = s.drop_last();
        lemma_lower_idx_char(t, load);
        assert(forall|p: int| 0 <= p < t.len() ==> #[trigger] t[p] == s[p]);
        let i = lower_idx(s, load);
        assert(i == lower_idx(t, load));
        assert forall|k: int| i <= k < s.len() implies !((#[trigger] s[k]).0 < load) by {
            if k < s.len() - 1 {
                assert(t[k] == s[k]);
            } else {
                assert(s[k] == s.last());
            }
        }
        assert(lower_point(s, load) == lower_point(t, load));
    }
}

/// With non-decreasing speeds, the selected bracket points' speeds are
/// ordered too.
proof fn lemma_selected_speeds_ordered(s: Seq<Breakpoint>, load: int)
    requires
        table_wf(s),
        speeds_nondecreasing(s),
        0 <= load <= 1000,
    ensures
        lower_point(s, load).1 <= upper_point(s, load).1,
{
    lemma_bracket(s, load);
    lemma_upper_idx_char(s, load);
    lemma_lower_idx_char(s, load);
    let li = lower_idx(s, load);
    let ui = upper_idx(s, load);
    if li > 0 && ui < s.len() {
        assert(!(s[li - 1].0 < load) || li - 1 < ui || !(load < s[li - 1].0));
        assert(li - 1 < ui) by {
            if li - 1 >= ui {
                assert(!(load < s[li - 1].0));
                assert(s[li - 1].0 < load);
                assert(forall|k: int| 0 <= k < ui ==> !(load < (#[trigger] s[k]).0));
                assert(forall|k: int| li <= k < s.len() ==> !((#[trigger] s[k]).0 < load));
                assert(load < s[ui].0);
                assert(ui < li);
                assert(!(s[ui].0 < load));
            }
        }
        assert(s[li - 1].1 <= s[ui].1);
    }
}

/// Truncated interpolation stays at or below the upper speed and at or
/// above the lower speed when the speeds are ordered.
proof fn lemma_interp_between(lo: (int, int), hi: (int, int), load: int)
    requires
        lo.0 <= load <= hi.0,
        lo.0 < hi.0,
        lo.1 <= hi.1,
        0 <= lo.1,
    ensures
        lo.1 <= interp(lo, hi, load) <= hi.1,
{
    let num = hi.1 * (load - lo.0) + lo.1 * (hi.0 - load);
    let den = hi.0 - lo.0;
    assert(lo.1 * den <= num && num <= hi.1 * den) by (nonlinear_arith)
        requires
            lo.0 <= load <= hi.0,
            lo.1 <= hi.1,
            num == hi.1 * (load - lo.0) + lo.1 * (hi.0 - load),
            den == hi.0 - lo.0,
    ;
    lemma_div_is_ordered(lo.1 * den, num, den);
    lemma_div_is_ordered(num, hi.1 * den, den);
    lemma_div_multiples_vanish(lo.1, den);
    lemma_div_multiples_vanish(hi.1, den);
}

/// On one segment the truncated interpolation is monotone in the load.
proof fn lemma_interp_monotone(lo: (int, int), hi: (int, int), q1: int, q2: int)
    requires
        lo.0 <= q1 <= q2 <= hi.0,
        lo.0 < hi.0,
        lo.1 <= hi.1,
    ensures
        interp(lo, hi, q1) <= interp(lo, hi, q2),
{
    let num1 = hi.1 * (q1 - lo.0) + lo.1 * (hi.0 - q1);
    let num2 = hi.1 * (q2 - lo.0) + lo.1 * (hi.0 - q2);
    assert(num1 <= num2) by (nonlinear_arith)
        requires
            q1 <= q2,
            lo.1 <= hi.1,
            num1 == hi.1 * (q1 - lo.0) + lo.1 * (hi.0 - q1),
            num2 == hi.1 * (q2 - lo.0) + lo.1 * (hi.0 - q2),
    ;
    lemma_div_is_ordered(num1, num2, hi.0 - lo.0);
}

/// Monotonicity of the lookup: away from breakpoints strictly inside the
/// scale, a larger load never looks up a smaller duty cycle on a curve
/// whose speeds never decrease.  (On an interior breakpoint itself the
/// strict bracketing interpolates across the point and can dip; such loads
/// are excluded here.)
pub proof fn lemma_lookup_monotonic(s: Seq<Breakpoint>, l1: int, l2: int)
    requires
        table_wf(s),
        speeds_nondecreasing(s),
        l1 <= l2,
        off_interior_breakpoints(s, clamp_load(l1)),
        off_interior_breakpoints(s, clamp_load(l2)),
    ensures
        lookup_spec(s, l1) <= lookup_spec(s, l2),
{
    let c1 = clamp_load(l1);
    let c2 = clamp_load(l2);
    if c1 == 0 {
        lemma_lookup_at_zero(s, 0);
        lemma_lookup_range(s, l2);
        assert(lookup_spec(s, l1) == lookup_spec(s, c1));
    } else if c2 == 1000 {
        lemma_lookup_at_full(s, 1000);
        lemma_lookup_range(s, l1);
        assert(lookup_spec(s, l2) == lookup_spec(s, c2));
    } else {
        assert(0 < c1 <= c2 < 1000);
        assert(forall|k: int| 0 <= k < s.len() ==> ((#[trigger] s[k]).0 as int) != c1);
        assert(forall|k: int| 0 <= k < s.len() ==> ((#[trigger] s[k]).0 as int) != c2);
        lemma_bracket(s, c1);
        lemma_bracket(s, c2);
        lemma_upper_idx_char(s, c1);
        lemma_lower_idx_char(s, c1);
        lemma_upper_idx_char(s, c2);
        lemma_lower_idx_char(s, c2);
        lemma_selected_speeds_ordered(s, c1);
        lemma_selected_speeds_ordered(s, c2);
        let lo1 = lower_point(s, c1);
        let up1 = upper_point(s, c1);
        let lo2 = lower_point(s, c2);
        let up2 = upper_point(s, c2);
        if lo1 == lo2 && up1 == up2 {
            lemma_interp_monotone(lo1, up1, c1, c2);
        } else {
            let i1 = upper_idx(s, c1);
            let j2 = lower_idx(s, c2) - 1;
            // The segments differ, so both the first point above c1 and the
            // last point below c2 are real, and they are ordered.
            assert(i1 < s.len()) by {
                if i1 == s.len() {
                    // no point above c1: every load is below c1, so both
                    // loads share the full final segment
                    assert(forall|k: int| 0 <= k < s.len()
                        ==> ((#[trigger] s[k]).0 as int) < c1);
                    assert(lower_idx(s, c1) == s.len() && lower_idx(s, c2) == s.len()) by {
                        if lower_idx(s, c1) < s.len() {
                            assert(!(s[lower_idx(s, c1)].0 < c1));
                        }
                        if lower_idx(s, c2) < s.len() {
                            assert(!(s[lower_idx(s, c2)].0 < c2));
                        }
                    }
                    assert(upper_idx(s, c2) == s.len()) by {
                        if upper_idx(s, c2) < s.len() {
                            assert(c2 < s[upper_idx(s, c2)].0);
                        }
                    }
                }
            }
            assert(j2 >= 0) by {
                if j2 < 0 {
                    // no point below c2: every load is above c2, so both
                    // loads share the full first segment
                    assert(forall|k: int| 0 <= k < s.len()
                        ==> ((#[trigger] s[k]).0 as int) > c2);
                    assert(upper_idx(s, c1) == 0 && upper_idx(s, c2) == 0) by {
                        if upper_idx(s, c1) > 0 {
                            assert(!(c1 < s[0].0));
                        }
                        if upper_idx(s, c2) > 0 {
                            assert(!(c2 < s[0].0));
                        }
                    }
                    assert(lower_idx(s, c1) == 0) by {
                        if lower_idx(s, c1) > 0 {
                            assert(s[lower_idx(s, c1) - 1].0 < c1);
                        }
                    }
                }
            }
            assert(i1 <= j2) by {
                if i1 > j2 {
                    // then every point sits strictly below c1 or strictly
                    // above c2, and the two segments coincide after all
                    assert(forall|k: int| 0 <= k < i1 ==> ((#[trigger] s[k]).0 as int) < c1);
                    assert(forall|k: int| i1 <= k < s.len()
                        ==> ((#[trigger] s[k]).0 as int) > c2) by {
                        assert(forall|k: int| lower_idx(s, c2) <= k < s.len()
                            ==> !((#[trigger] s[k]).0 < c2));
                    }
                    assert(lower_idx(s, c1) == i1) by {
                        if lower_idx(s, c1) < i1 {
                            assert(!(s[lower_idx(s, c1)].0 < c1));
                        }
                        if lower_idx(s, c1) > i1 {
                            assert(s[lower_idx(s, c1) - 1].0 < c1);
                        }
                    }
                    assert(lower_idx(s, c2) == i1) by {
                        if lower_idx(s, c2) < i1 {
                            assert(!(s[lower_idx(s, c2)].0 < c2));
                        }
                    }
                    assert(upper_idx(s, c2) == i1) by {
                        if upper_idx(s, c2) < i1 {
                            assert(c2 < s[upper_idx(s, c2)].0);
                        }
                        if upper_idx(s, c2) > i1 {
                            assert(!(c2 < s[i1 as int].0));
                        }
                    }
                }
            }
            assert(up1.1 <= lo2.1) by {
                assert(up1 == (s[i1].0 as int, s[i1].1 as int));
                assert(lo2 == (s[j2].0 as int, s[j2].1 as int));
                assert(s[i1].1 <= s[j2].1);
            }
            lemma_interp_between(lo1, up1, c1);
            lemma_interp_between(lo2, up2, c2);
        }
    }
}

} // verus!
