use vstd::prelude::*;

verus! {

/// The byte that ends a line.
pub const NEWLINE: u8 = 10u8;

/// What a node or a slice knows of the text it holds: its length in bytes and
/// its number of line breaks.
#[derive(Clone, Copy)]
pub struct Summary {
    pub bytes: usize,
    pub line_breaks: usize,
}

/// Number of line breaks in `s`.
pub open spec fn count_newlines(s: Seq<u8>) -> nat
    decreases s.len(),
{
    if s.len() == 0 {
        0
    } else {
        (if s[0] == NEWLINE { 1nat } else { 0nat }) + count_newlines(s.drop_first())
    }
}

/// `sum` describes `s`.
pub open spec fn summarizes(sum: Summary, s: Seq<u8>) -> bool {
    &&& sum.bytes == s.len()
    &&& sum.line_breaks == count_newlines(s)
}

/// A way of cutting a text into consecutive units: a unit ends just after
/// every byte for which `spec_ends_unit` holds.
pub trait Metric: Sized {
    spec fn spec_ends_unit(b: u8) -> bool;

    /// The number of unit-ending bytes in a text.
    spec fn spec_count(s: Seq<u8>) -> nat;

    /// The number of units a summary accounts for.
    spec fn spec_measure(s: Summary) -> nat;

    fn ends_unit(b: u8) -> (r: bool)
        ensures
            r == Self::spec_ends_unit(b),
    ;

    fn measure(s: &Summary) -> (r: usize)
        ensures
            r == Self::spec_measure(*s),
    ;

    proof fn lemma_count_step(s: Seq<u8>)
        ensures
            s.len() == 0 ==> Self::spec_count(s) == 0,
            s.len() > 0 ==> Self::spec_count(s) == (if Self::spec_ends_unit(s[0]) {
                1nat
            } else {
                0nat
            }) + Self::spec_count(s.drop_first()),
    ;

    proof fn lemma_measure(text: Seq<u8>, s: Summary)
        requires
            summarizes(s, text),
        ensures
            Self::spec_measure(s) == Self::spec_count(text),
    ;
}

/// Units made of one byte each.
pub struct ByteMetric;

/// Units made of one line each, its line break included.
pub struct LineMetric;

/// Number of unit-ending bytes in `s`.
pub open spec fn count_units<M: Metric>(s: Seq<u8>) -> nat {
    M::spec_count(s)
}

/// Offset at which the unit after the `k`-th one starts: just past the `k`-th
/// unit-ending byte of `s`, or the end of `s` when it has fewer such bytes.
pub open spec fn unit_boundary<M: Metric>(s: Seq<u8>, k: nat) -> int
    decreases s.len(),
{
    if k == 0 || s.len() == 0 {
        0
    } else if M::spec_ends_unit(s[0]) {
        1 + unit_boundary::<M>(s.drop_first(), (k - 1) as nat)
    } else {
        1 + unit_boundary::<M>(s.drop_first(), k)
    }
}

/// Offset at which line `k` of `s` starts.
pub open spec fn line_start(s: Seq<u8>, k: nat) -> int {
    unit_boundary::<LineMetric>(s, k)
}

impl Metric for ByteMetric {
    open spec fn spec_ends_unit(b: u8) -> bool {
        true
    }

    open spec fn spec_count(s: Seq<u8>) -> nat {
        s.len()
    }

    open spec fn spec_measure(s: Summary) -> nat {
        s.bytes as nat
    }

    fn ends_unit(b: u8) -> (r: bool) {
        true
    }

    fn measure(s: &Summary) -> (r: usize) {
        s.bytes
    }

    proof fn lemma_count_step(s: Seq<u8>) {
    }

    proof fn lemma_measure(text: Seq<u8>, s: Summary) {
    }
}

impl Metric for LineMetric {
    open spec fn spec_ends_unit(b: u8) -> bool {
        b == NEWLINE
    }

    open spec fn spec_count(s: Seq<u8>) -> nat {
        count_newlines(s)
    }

    open spec fn spec_measure(s: Summary) -> nat {
        s.line_breaks as nat
    }

    fn ends_unit(b: u8) -> (r: bool) {
        b == NEWLINE
    }

    fn measure(s: &Summary) -> (r: usize) {
        s.line_breaks
    }

    proof fn lemma_count_step(s: Seq<u8>) {
    }

    proof fn lemma_measure(text: Seq<u8>, s: Summary) {
    }
}

pub proof fn lemma_count_units_concat<M: Metric>(a: Seq<u8>, b: Seq<u8>)
    ensures
        count_units::<M>(a + b) == count_units::<M>(a) + count_units::<M>(b),
    decreases a.len(),
{
    M::lemma_count_step(a);
    M::lemma_count_step(a + b);
    if a.len() == 0 {
        assert(a + b =~= b);
    } else {
        lemma_count_units_concat::<M>(a.drop_first(), b);
        assert((a + b).drop_first() =~= a.drop_first() + b);
    }
}

pub proof fn lemma_count_units_bound<M: Metric>(s: Seq<u8>)
    ensures
        count_units::<M>(s) <= s.len(),
    decreases s.len(),
{
    M::lemma_count_step(s);
    if s.len() > 0 {
        lemma_count_units_bound::<M>(s.drop_first());
    }
}

/// Counting over one more byte.
pub proof fn lemma_count_units_push<M: Metric>(s: Seq<u8>, i: int)
    requires
        0 <= i < s.len(),
    ensures
        count_units::<M>(s.take(i + 1)) == count_units::<M>(s.take(i)) + (if M::spec_ends_unit(
            s[i],
        ) {
            1nat
        } else {
            0nat
        }),
{
    let one = seq![s[i]];
    assert(s.take(i + 1) =~= s.take(i) + one);
    lemma_count_units_concat::<M>(s.take(i), one);
    assert(one.drop_first() =~= Seq::<u8>::empty());
    M::lemma_count_step(one);
    M::lemma_count_step(one.drop_first());
}

pub proof fn lemma_unit_boundary_concat<M: Metric>(a: Seq<u8>, b: Seq<u8>, k: nat)
    ensures
        k <= count_units::<M>(a) ==> unit_boundary::<M>(a + b, k) == unit_boundary::<M>(a, k),
        k > count_units::<M>(a) ==> unit_boundary::<M>(a + b, k) == a.len() + unit_boundary::<M>(
            b,
            (k - count_units::<M>(a)) as nat,
        ),
    decreases a.len(),
{
    M::lemma_count_step(a);
    if a.len() == 0 {
        assert(a + b =~= b);
    } else {
        assert((a + b).drop_first() =~= a.drop_first() + b);
        assert((a + b)[0] == a[0]);
        if k > 0 {
            if M::spec_ends_unit(a[0]) {
                lemma_unit_boundary_concat::<M>(a.drop_first(), b, (k - 1) as nat);
            } else {
                lemma_unit_boundary_concat::<M>(a.drop_first(), b, k);
            }
        }
    }
}

/// A boundary lies within the text.
pub proof fn lemma_unit_boundary_bound<M: Metric>(s: Seq<u8>, k: nat)
    ensures
        0 <= unit_boundary::<M>(s, k) <= s.len(),
        k > count_units::<M>(s) ==> unit_boundary::<M>(s, k) == s.len(),
        k == 0 ==> unit_boundary::<M>(s, k) == 0,
    decreases s.len(),
{
    M::lemma_count_step(s);
    if k > 0 && s.len() > 0 {
        if M::spec_ends_unit(s[0]) {
            lemma_unit_boundary_bound::<M>(s.drop_first(), (k - 1) as nat);
        } else {
            lemma_unit_boundary_bound::<M>(s.drop_first(), k);
        }
    }
}

/// Later units end later.
pub proof fn lemma_unit_boundary_mono<M: Metric>(s: Seq<u8>, j: nat, k: nat)
    requires
        j <= k,
    ensures
        unit_boundary::<M>(s, j) <= unit_boundary::<M>(s, k),
    decreases s.len(),
{
    lemma_unit_boundary_bound::<M>(s, j);
    lemma_unit_boundary_bound::<M>(s, k);
    if j > 0 && s.len() > 0 {
        if M::spec_ends_unit(s[0]) {
            lemma_unit_boundary_mono::<M>(s.drop_first(), (j - 1) as nat, (k - 1) as nat);
        } else {
            lemma_unit_boundary_mono::<M>(s.drop_first(), j, k);
        }
    }
}

/// The first unit ends just past the first unit-ending byte.
pub proof fn lemma_first_unit_end<M: Metric>(s: Seq<u8>, j: int)
    requires
        0 <= j < s.len(),
        count_units::<M>(s.take(j)) == 0,
        M::spec_ends_unit(s[j]),
    ensures
        unit_boundary::<M>(s, 1) == j + 1,
    decreases j,
{
    if j == 0 {
        lemma_unit_boundary_bound::<M>(s.drop_first(), 0);
    } else {
        let t = s.take(j);
        M::lemma_count_step(t);
        assert(t[0] == s[0]);
        assert(t.drop_first() =~= s.drop_first().take(j - 1));
        assert(s.drop_first()[j - 1] == s[j]);
        lemma_first_unit_end::<M>(s.drop_first(), j - 1);
    }
}

/// From offset `f`, the next unit ends just past the first unit-ending byte
/// at or after `f`.
pub proof fn lemma_next_unit_end<M: Metric>(t: Seq<u8>, f: int, j: int)
    requires
        0 <= f <= j < t.len(),
        count_units::<M>(t.subrange(f, j)) == 0,
        M::spec_ends_unit(t[j]),
    ensures
        unit_boundary::<M>(t, count_units::<M>(t.take(f)) + 1) == j + 1,
        count_units::<M>(t.take(j + 1)) == count_units::<M>(t.take(f)) + 1,
{
    let a = t.take(f);
    let b = t.skip(f);
    assert(t =~= a + b);
    lemma_unit_boundary_concat::<M>(a, b, count_units::<M>(a) + 1);
    assert(b.take(j - f) =~= t.subrange(f, j));
    assert(b[j - f] == t[j]);
    lemma_first_unit_end::<M>(b, j - f);
    let one = seq![t[j]];
    assert(t.take(j + 1) =~= a + (t.subrange(f, j) + one));
    lemma_count_units_concat::<M>(a, t.subrange(f, j) + one);
    lemma_count_units_concat::<M>(t.subrange(f, j), one);
    M::lemma_count_step(one);
    assert(one.drop_first() =~= Seq::<u8>::empty());
    M::lemma_count_step(one.drop_first());
}

/// Once no unit-ending byte is left, the next unit runs to the end.
pub proof fn lemma_rest_unit_end<M: Metric>(t: Seq<u8>, f: int)
    requires
        0 <= f <= t.len(),
        count_units::<M>(t.take(f)) == count_units::<M>(t),
    ensures
        unit_boundary::<M>(t, count_units::<M>(t.take(f)) + 1) == t.len(),
{
    lemma_unit_boundary_bound::<M>(t, count_units::<M>(t.take(f)) + 1);
}

/// Counting up to `f` and then on to the end.
pub proof fn lemma_count_split<M: Metric>(t: Seq<u8>, f: int)
    requires
        0 <= f <= t.len(),
    ensures
        count_units::<M>(t) == count_units::<M>(t.take(f)) + count_units::<M>(t.skip(f)),
{
    assert(t =~= t.take(f) + t.skip(f));
    lemma_count_units_concat::<M>(t.take(f), t.skip(f));
}

/// From an offset short of the end, the next unit ends further on.
pub proof fn lemma_next_boundary_after<M: Metric>(t: Seq<u8>, f: int)
    requires
        0 <= f < t.len(),
    ensures
        f < unit_boundary::<M>(t, count_units::<M>(t.take(f)) + 1) <= t.len(),
{
    let a = t.take(f);
    let b = t.skip(f);
    assert(t =~= a + b);
    lemma_unit_boundary_concat::<M>(a, b, count_units::<M>(a) + 1);
    lemma_unit_boundary_bound::<M>(b.drop_first(), 1);
    lemma_unit_boundary_bound::<M>(b.drop_first(), 0);
    lemma_unit_boundary_bound::<M>(t, count_units::<M>(a) + 1);
}

/// A boundary past at least one unit lies at the end of the text or just
/// past a unit-ending byte.
pub proof fn lemma_unit_boundary_shape<M: Metric>(s: Seq<u8>, k: nat)
    requires
        k >= 1,
    ensures
        unit_boundary::<M>(s, k) == s.len() || (0 < unit_boundary::<M>(s, k) && M::spec_ends_unit(
            s[unit_boundary::<M>(s, k) - 1],
        )),
    decreases s.len(),
{
    lemma_unit_boundary_bound::<M>(s, k);
    if s.len() > 0 {
        let t = s.drop_first();
        if M::spec_ends_unit(s[0]) {
            if k > 1 {
                lemma_unit_boundary_shape::<M>(t, (k - 1) as nat);
                let q = unit_boundary::<M>(t, (k - 1) as nat);
                if q < t.len() {
                    assert(s[1 + q - 1] == t[q - 1]);
                }
            } else {
                lemma_unit_boundary_bound::<M>(t, 0);
            }
        } else {
            lemma_unit_boundary_shape::<M>(t, k);
            let q = unit_boundary::<M>(t, k);
            if q < t.len() {
                assert(s[1 + q - 1] == t[q - 1]);
            }
        }
    }
}

/// The boundary after all the units that end within the first `x` bytes
/// lies within them.
pub proof fn lemma_boundary_within_prefix<M: Metric>(t: Seq<u8>, x: int)
    requires
        0 <= x <= t.len(),
    ensures
        0 <= unit_boundary::<M>(t, count_units::<M>(t.take(x))) <= x,
{
    let a = t.take(x);
    assert(t =~= a + t.skip(x));
    lemma_unit_boundary_concat::<M>(a, t.skip(x), count_units::<M>(a));
    lemma_unit_boundary_bound::<M>(a, count_units::<M>(a));
}

/// Text whose last byte ends a unit: the boundary after all its units is
/// its end.
pub proof fn lemma_boundary_full<M: Metric>(a: Seq<u8>)
    requires
        a.len() > 0,
        M::spec_ends_unit(a.last()),
    ensures
        count_units::<M>(a) >= 1,
        unit_boundary::<M>(a, count_units::<M>(a)) == a.len(),
    decreases a.len(),
{
    M::lemma_count_step(a);
    let t = a.drop_first();
    if a.len() == 1 {
        assert(a.last() == a[0]);
        assert(t.len() == 0);
        M::lemma_count_step(t);
        lemma_unit_boundary_bound::<M>(t, 0);
    } else {
        assert(t.last() == a.last());
        lemma_boundary_full::<M>(t);
    }
}

/// Just past a unit-ending byte is the boundary after the units that end up
/// to there.
pub proof fn lemma_boundary_at_count<M: Metric>(t: Seq<u8>, x: int)
    requires
        0 < x <= t.len(),
        M::spec_ends_unit(t[x - 1]),
    ensures
        unit_boundary::<M>(t, count_units::<M>(t.take(x))) == x,
{
    let a = t.take(x);
    assert(a.last() == t[x - 1]);
    lemma_boundary_full::<M>(a);
    assert(t =~= a + t.skip(x));
    lemma_unit_boundary_concat::<M>(a, t.skip(x), count_units::<M>(a));
}

/// Counting over a longer prefix counts no fewer units.
pub proof fn lemma_count_prefix_mono<M: Metric>(t: Seq<u8>, x: int, y: int)
    requires
        0 <= x <= y <= t.len(),
    ensures
        count_units::<M>(t.take(x)) <= count_units::<M>(t.take(y)),
        y > x && M::spec_ends_unit(t[y - 1]) ==> count_units::<M>(t.take(x)) < count_units::<M>(
            t.take(y),
        ),
{
    assert(t.take(y) =~= t.take(x) + t.subrange(x, y));
    lemma_count_units_concat::<M>(t.take(x), t.subrange(x, y));
    if y > x && M::spec_ends_unit(t[y - 1]) {
        let m = t.subrange(x, y);
        assert(m =~= m.drop_last() + seq![t[y - 1]]);
        lemma_count_units_concat::<M>(m.drop_last(), seq![t[y - 1]]);
        M::lemma_count_step(seq![t[y - 1]]);
        assert(seq![t[y - 1]].drop_first() =~= Seq::<u8>::empty());
        M::lemma_count_step(Seq::<u8>::empty());
    }
}

/// Up to the boundary after `k` units, exactly `k` units end.
pub proof fn lemma_count_at_boundary<M: Metric>(s: Seq<u8>, k: nat)
    requires
        k <= count_units::<M>(s),
    ensures
        count_units::<M>(s.take(unit_boundary::<M>(s, k))) == k,
    decreases s.len(),
{
    M::lemma_count_step(s);
    lemma_unit_boundary_bound::<M>(s, k);
    if k == 0 {
        assert(s.take(0) =~= Seq::<u8>::empty());
        M::lemma_count_step(s.take(0));
    } else {
        let t = s.drop_first();
        if M::spec_ends_unit(s[0]) {
            lemma_count_at_boundary::<M>(t, (k - 1) as nat);
            lemma_unit_boundary_bound::<M>(t, (k - 1) as nat);
            let q = unit_boundary::<M>(t, (k - 1) as nat);
            assert(s.take(1 + q).drop_first() =~= t.take(q));
            assert(s.take(1 + q)[0] == s[0]);
            M::lemma_count_step(s.take(1 + q));
        } else {
            lemma_count_at_boundary::<M>(t, k);
            lemma_unit_boundary_bound::<M>(t, k);
            let q = unit_boundary::<M>(t, k);
            assert(s.take(1 + q).drop_first() =~= t.take(q));
            assert(s.take(1 + q)[0] == s[0]);
            M::lemma_count_step(s.take(1 + q));
        }
    }
}

/// While units are left to end, their boundary comes before the end.
pub proof fn lemma_boundary_before_end<M: Metric>(s: Seq<u8>, k: nat)
    requires
        k < count_units::<M>(s),
    ensures
        unit_boundary::<M>(s, k) < s.len(),
    decreases s.len(),
{
    M::lemma_count_step(s);
    lemma_count_units_bound::<M>(s);
    if k > 0 {
        let t = s.drop_first();
        if M::spec_ends_unit(s[0]) {
            lemma_boundary_before_end::<M>(t, (k - 1) as nat);
        } else {
            lemma_boundary_before_end::<M>(t, k);
        }
    }
}

} // verus!
