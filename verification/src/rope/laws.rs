use vstd::prelude::*;
use super::rope_slice::RopeSlice;
use crate::tree::text::{
    LineMetric, NEWLINE, count_newlines, line_start, count_units, lemma_unit_boundary_bound,
    lemma_unit_boundary_mono, lemma_boundary_at_count, lemma_boundary_within_prefix,
    lemma_next_boundary_after, lemma_count_at_boundary, lemma_count_prefix_mono,
};

verus! {

/// The number of lines of a text whose final line break, when `closed`,
/// closes its last line instead of opening a new one.
pub open spec fn line_count(t: Seq<u8>, closed: bool) -> int {
    count_newlines(t) + 1 - (if closed { 1int } else { 0int })
}

/// The lines cut the text into consecutive pieces from its start to its end:
/// joined in order, `line(0)`, ..., `line(line_len() - 1)` give back the
/// whole slice.
pub proof fn law_lines_partition(t: Seq<u8>, closed: bool)
    requires
        closed ==> t.len() > 0 && t.last() == NEWLINE,
    ensures
        line_start(t, 0) == 0,
        line_start(t, line_count(t, closed) as nat) == t.len(),
        forall|i: nat|
            i < line_count(t, closed) ==> line_start(t, i) <= #[trigger] line_start(t, i + 1),
{
    lemma_unit_boundary_bound::<LineMetric>(t, 0);
    if closed {
        assert(t.take(t.len() as int) =~= t);
        lemma_boundary_at_count::<LineMetric>(t, t.len() as int);
    } else {
        lemma_unit_boundary_bound::<LineMetric>(t, count_newlines(t) + 1);
    }
    assert forall|i: nat| i < line_count(t, closed) implies line_start(t, i) <= #[trigger] line_start(t, i + 1) by {
        lemma_unit_boundary_mono::<LineMetric>(t, i, i + 1);
    }
}

/// Byte `b` lies in the line `line_of_byte(b)` names: at or after its start
/// and before the start of the next line.
pub proof fn law_byte_in_its_line(t: Seq<u8>, b: int)
    requires
        0 <= b < t.len(),
    ensures
        line_start(t, count_newlines(t.take(b))) <= b < line_start(t, count_newlines(t.take(b)) + 1),
{
    lemma_boundary_within_prefix::<LineMetric>(t, b);
    lemma_next_boundary_after::<LineMetric>(t, b);
}

/// The line that starts at `byte_of_line(i)` is line `i`: counting the line
/// breaks before it gives `i` back.
pub proof fn law_line_of_line_start(t: Seq<u8>, i: nat)
    requires
        i <= count_newlines(t),
    ensures
        count_newlines(t.take(line_start(t, i))) == i,
{
    lemma_count_at_boundary::<LineMetric>(t, i);
}

/// A slice has one line more than it has line breaks, less one exactly
/// when it counts a line break that ends it as closing its last line; so
/// its lines are those `law_lines_partition` cuts the text into.
pub proof fn law_line_len(s: RopeSlice)
    ensures
        s.spec_line_len() == count_newlines(s@) + 1 - (if s.spec_last_byte_is_newline() { 1int } else { 0int }),
        s.spec_line_len() == line_count(s@, s.spec_last_byte_is_newline()),
{
}

} // verus!
