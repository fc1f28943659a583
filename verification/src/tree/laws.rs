use vstd::prelude::*;
use super::text::{
    Metric, count_units, unit_boundary, lemma_next_boundary_after, lemma_unit_boundary_shape,
    lemma_count_split, lemma_next_unit_end, lemma_count_units_concat, lemma_count_units_bound,
    lemma_unit_boundary_bound, lemma_boundary_at_count, lemma_count_prefix_mono,
    lemma_count_at_boundary, lemma_count_units_push, lemma_boundary_within_prefix,
};
use super::units::{at_boundary, lemma_forward_step_within, lemma_backward_step_within};

verus! {

/// Where the unit that starts at `f` ends: just past the first unit-ending
/// byte at or after `f`, or at the end of `t`.
pub open spec fn next_unit_end<M: Metric>(t: Seq<u8>, f: int) -> int {
    unit_boundary::<M>(t, count_units::<M>(t.take(f)) + 1)
}

/// Where the unit that ends at `b` starts: just past the last unit-ending
/// byte before `b - 1`, or at the start of `t`.
pub open spec fn prev_unit_start<M: Metric>(t: Seq<u8>, b: int) -> int {
    unit_boundary::<M>(t, count_units::<M>(t.take(b - 1)))
}

/// The units of `t` from offset `f` on, as the forward walk yields them.
pub open spec fn units_from<M: Metric>(t: Seq<u8>, f: int) -> Seq<Seq<u8>>
    decreases t.len() - f,
{
    if f < 0 || f >= t.len() {
        Seq::empty()
    } else {
        proof {
            lemma_next_boundary_after::<M>(t, f);
        }
        seq![t.subrange(f, next_unit_end::<M>(t, f))] + units_from::<M>(t, next_unit_end::<M>(t, f))
    }
}

/// The units between offsets `f` and `b`, front to back: the first runs
/// from `f` to where the unit that starts there ends, and so on up to `b`.
pub open spec fn units_between<M: Metric>(t: Seq<u8>, f: int, b: int) -> Seq<Seq<u8>>
    decreases b - f,
{
    if f < 0 || f >= b || b > t.len() {
        Seq::empty()
    } else {
        let e = next_unit_end::<M>(t, f);
        if e <= f || e > b {
            Seq::empty()
        } else {
            seq![t.subrange(f, e)] + units_between::<M>(t, e, b)
        }
    }
}

/// The pieces of `ps`, joined.
pub open spec fn flatten(ps: Seq<Seq<u8>>) -> Seq<u8>
    decreases ps.len(),
{
    if ps.len() == 0 {
        Seq::empty()
    } else {
        ps[0] + flatten(ps.drop_first())
    }
}

/// A unit holds no unit-ending byte but its last, and ends with one unless it
/// runs to the end of the text.
pub open spec fn is_unit<M: Metric>(u: Seq<u8>, at_end: bool) -> bool {
    &&& u.len() > 0
    &&& count_units::<M>(u.drop_last()) == 0
    &&& !at_end ==> M::spec_ends_unit(u.last())
}

/// Each step of the forward walk yields a non-empty unit that ends at a unit
/// boundary: past a unit-ending byte, with none before it in the unit, or at
/// the end of the text.
pub proof fn law_unit_step<M: Metric>(t: Seq<u8>, f: int)
    requires
        0 <= f < t.len(),
    ensures
        f < next_unit_end::<M>(t, f) <= t.len(),
        is_unit::<M>(t.subrange(f, next_unit_end::<M>(t, f)), next_unit_end::<M>(t, f) == t.len()),
        at_boundary::<M>(t, next_unit_end::<M>(t, f)),
{
    let c = count_units::<M>(t.take(f));
    let e = next_unit_end::<M>(t, f);
    lemma_next_boundary_after::<M>(t, f);
    lemma_unit_boundary_shape::<M>(t, c + 1);
    let u = t.subrange(f, e);
    assert(u.drop_last() =~= t.subrange(f, e - 1));
    assert(u.last() == t[e - 1]);
    lemma_count_prefix_mono::<M>(t, f, e - 1);
    lemma_count_units_push::<M>(t, e - 1);
    if c + 1 <= count_units::<M>(t) {
        lemma_count_at_boundary::<M>(t, c + 1);
        if !M::spec_ends_unit(t[e - 1]) {
            lemma_boundary_within_prefix::<M>(t, e - 1);
            assert(false);
        }
    } else {
        lemma_unit_boundary_bound::<M>(t, c + 1);
        assert(t.take(t.len() as int) =~= t);
        lemma_count_prefix_mono::<M>(t, e - 1, t.len() as int);
    }
    assert(t.take(e - 1) =~= t.take(f) + t.subrange(f, e - 1));
    lemma_count_units_concat::<M>(t.take(f), t.subrange(f, e - 1));
}

/// The units the forward walk yields from a boundary on cover the rest of
/// the text exactly, in order, each of them a unit.
pub proof fn law_units_cover<M: Metric>(t: Seq<u8>, f: int)
    requires
        0 <= f <= t.len(),
    ensures
        flatten(units_from::<M>(t, f)) == t.subrange(f, t.len() as int),
        forall|i: int|
            0 <= i < units_from::<M>(t, f).len() ==> is_unit::<M>(
                #[trigger] units_from::<M>(t, f)[i],
                i == units_from::<M>(t, f).len() - 1,
            ),
    decreases t.len() - f,
{
    if f == t.len() {
        assert(t.subrange(f, f) =~= Seq::<u8>::empty());
    } else {
        let e = next_unit_end::<M>(t, f);
        law_unit_step::<M>(t, f);
        law_units_cover::<M>(t, e);
        let rest = units_from::<M>(t, e);
        let us = units_from::<M>(t, f);
        assert(us == seq![t.subrange(f, e)] + rest);
        assert(us.drop_first() =~= rest);
        assert(us[0] == t.subrange(f, e));
        assert(t.subrange(f, t.len() as int) =~= t.subrange(f, e) + t.subrange(e, t.len() as int));
        assert forall|i: int| 0 <= i < us.len() implies is_unit::<M>(#[trigger] us[i], i == us.len() - 1) by {
            if i > 0 {
                assert(us[i] == rest[i - 1]);
            } else if rest.len() > 0 {
                // the first unit is not the last one, so the text goes on past it
                assert(e < t.len());
            } else {
                assert(e == t.len()) by {
                    if e < t.len() {
                        lemma_next_boundary_after::<M>(t, e);
                    }
                }
            }
        }
    }
}

/// Walking back one unit from a boundary and then forward one unit returns
/// to that boundary: both ends of the iterator cut the text into the same
/// units.
pub proof fn law_back_then_forward<M: Metric>(t: Seq<u8>, b: int)
    requires
        0 < b <= t.len(),
        at_boundary::<M>(t, b),
    ensures
        0 <= prev_unit_start::<M>(t, b) < b,
        next_unit_end::<M>(t, prev_unit_start::<M>(t, b)) == b,
{
    let s = prev_unit_start::<M>(t, b);
    let c = count_units::<M>(t.take(b - 1));
    lemma_backward_step_within::<M>(t, 0, b);
    lemma_count_prefix_mono::<M>(t, b - 1, t.len() as int);
    assert(t.take(t.len() as int) =~= t);
    lemma_count_at_boundary::<M>(t, c);
    lemma_count_units_push::<M>(t, b - 1);
    if M::spec_ends_unit(t[b - 1]) {
        lemma_boundary_at_count::<M>(t, b);
    } else {
        lemma_unit_boundary_bound::<M>(t, c + 1);
    }
}

/// Up to a boundary `b`, the units the walk yields join back into the text
/// from `f` to `b`, in order, and each is a whole unit, save that the last
/// one may run to the end of the text without a unit-ending byte.
pub proof fn law_units_between_cover<M: Metric>(t: Seq<u8>, f: int, b: int)
    requires
        0 <= f <= b <= t.len(),
        at_boundary::<M>(t, b),
    ensures
        flatten(units_between::<M>(t, f, b)) == t.subrange(f, b),
        forall|i: int|
            0 <= i < units_between::<M>(t, f, b).len() ==> is_unit::<M>(
                #[trigger] units_between::<M>(t, f, b)[i],
                i == units_between::<M>(t, f, b).len() - 1 && b == t.len(),
            ),
    decreases b - f,
{
    if f == b {
        assert(t.subrange(f, b) =~= Seq::<u8>::empty());
    } else {
        let e = next_unit_end::<M>(t, f);
        lemma_forward_step_within::<M>(t, f, b);
        law_unit_step::<M>(t, f);
        law_units_between_cover::<M>(t, e, b);
        let rest = units_between::<M>(t, e, b);
        let us = units_between::<M>(t, f, b);
        assert(us == seq![t.subrange(f, e)] + rest);
        assert(us.drop_first() =~= rest);
        assert(t.subrange(f, b) =~= t.subrange(f, e) + t.subrange(e, b));
        assert forall|i: int| 0 <= i < us.len() implies is_unit::<M>(
            #[trigger] us[i],
            i == us.len() - 1 && b == t.len(),
        ) by {
            if i > 0 {
                assert(us[i] == rest[i - 1]);
            } else if e < b {
                assert(rest.len() > 0);
            }
        }
    }
}

/// Taking a unit from the back of the units between two boundaries takes
/// the last of them and leaves the others as they were; with a forward step
/// taking the first, both ends of the walk cut the same units, however
/// their calls interleave.
pub proof fn law_back_takes_last<M: Metric>(t: Seq<u8>, f: int, b: int)
    requires
        0 <= f < b <= t.len(),
        at_boundary::<M>(t, f),
        at_boundary::<M>(t, b),
    ensures
        f <= prev_unit_start::<M>(t, b) < b,
        at_boundary::<M>(t, prev_unit_start::<M>(t, b)),
        units_between::<M>(t, f, b).len() > 0,
        units_between::<M>(t, f, b).last() == t.subrange(prev_unit_start::<M>(t, b), b),
        units_between::<M>(t, f, prev_unit_start::<M>(t, b)) == units_between::<M>(t, f, b).drop_last(),
    decreases b - f,
{
    let p = prev_unit_start::<M>(t, b);
    let e = next_unit_end::<M>(t, f);
    lemma_backward_step_within::<M>(t, f, b);
    lemma_forward_step_within::<M>(t, f, b);
    law_back_then_forward::<M>(t, b);
    let us = units_between::<M>(t, f, b);
    if e == b {
        if f < p {
            lemma_forward_step_within::<M>(t, f, p);
            assert(false);
        }
        assert(us == seq![t.subrange(f, b)] + units_between::<M>(t, b, b));
        assert(units_between::<M>(t, p, p) =~= Seq::<Seq<u8>>::empty());
        assert(us.drop_last() =~= Seq::<Seq<u8>>::empty());
    } else {
        law_back_takes_last::<M>(t, e, b);
        let rest = units_between::<M>(t, e, b);
        assert(us == seq![t.subrange(f, e)] + rest);
        assert(units_between::<M>(t, f, p) == seq![t.subrange(f, e)] + units_between::<M>(t, e, p));
        assert(us.drop_last() =~= seq![t.subrange(f, e)] + rest.drop_last());
    }
}

/// From a position on, the walk yields one piece per unit-ending byte, and
/// one more when the text does not end with such a byte: the tail after
/// its last unit.
pub proof fn law_units_count<M: Metric>(t: Seq<u8>, f: int)
    requires
        0 <= f <= t.len(),
    ensures
        units_between::<M>(t, f, t.len() as int).len() == count_units::<M>(t.subrange(f, t.len() as int))
            + (if f < t.len() && !M::spec_ends_unit(t.last()) { 1int } else { 0int }),
    decreases t.len() - f,
{
    let n = t.len() as int;
    if f == n {
        assert(t.subrange(f, n) =~= Seq::<u8>::empty());
        M::lemma_count_step(t.subrange(f, n));
    } else {
        let e = next_unit_end::<M>(t, f);
        law_unit_step::<M>(t, f);
        lemma_forward_step_within::<M>(t, f, n);
        law_units_count::<M>(t, e);
        let u = t.subrange(f, e);
        assert(units_between::<M>(t, f, n) == seq![u] + units_between::<M>(t, e, n));
        assert(u.take(u.len() - 1) =~= u.drop_last());
        assert(u.take(u.len() as int) =~= u);
        lemma_count_units_push::<M>(u, u.len() - 1);
        assert(t.subrange(f, n) =~= u + t.subrange(e, n));
        lemma_count_units_concat::<M>(u, t.subrange(e, n));
        assert(u.last() == t[e - 1]);
        if e == n {
            assert(t.subrange(e, n) =~= Seq::<u8>::empty());
            M::lemma_count_step(t.subrange(e, n));
        }
    }
}

} // verus!
