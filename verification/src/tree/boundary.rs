use vstd::prelude::*;
use vstd::utf8::{
    valid_utf8, is_char_boundary, is_continuation_byte, encode_utf8, valid_first_scalar,
    pop_first_scalar, length_of_first_scalar,
};
use super::text::{NEWLINE, LineMetric, Metric, unit_boundary};

verus! {

/// A valid encoding never starts with a continuation byte.
pub proof fn lemma_valid_starts_with_leading(s: Seq<u8>)
    requires
        valid_utf8(s),
        s.len() > 0,
    ensures
        !is_continuation_byte(s[0]),
{
    reveal_with_fuel(valid_utf8, 1);
    assert(valid_first_scalar(s));
}

/// The slice `o..o + n` of a valid text cut at character boundaries is valid,
/// and its boundaries are those of the text, shifted.
pub proof fn lemma_sub_boundaries(g: Seq<u8>, o: int, n: int)
    requires
        valid_utf8(g),
        0 <= o,
        0 <= n,
        o + n <= g.len(),
        is_char_boundary(g, o),
        is_char_boundary(g, o + n),
    ensures
        valid_utf8(g.subrange(o, o + n)),
        forall|i: int|
            0 <= i <= n ==> (is_char_boundary(g, o + i) <==> #[trigger] is_char_boundary(
                g.subrange(o, o + n),
                i,
            )),
{
    vstd::utf8::valid_utf8_split(g, o);
    let tail = g.subrange(o, g.len() as int);
    let v = g.subrange(o, o + n);
    assert(v =~= tail.subrange(0, n));
    vstd::utf8::is_char_boundary_start_end_of_seq(tail);
    if n < tail.len() {
        assert(tail[n] == g[o + n]);
        vstd::utf8::is_char_boundary_iff_not_is_continuation_byte(tail, n);
        vstd::utf8::is_char_boundary_iff_not_is_continuation_byte(g, o + n);
    }
    vstd::utf8::valid_utf8_split(tail, n);
    vstd::utf8::is_char_boundary_start_end_of_seq(v);
    assert forall|i: int| 0 <= i <= n implies (is_char_boundary(g, o + i) <==> #[trigger] is_char_boundary(v, i)) by {
        if 0 < i < n {
            assert(v[i] == g[o + i]);
            vstd::utf8::is_char_boundary_iff_not_is_continuation_byte(v, i);
            vstd::utf8::is_char_boundary_iff_not_is_continuation_byte(g, o + i);
        }
    }
}

/// Two valid texts joined are cut at a character boundary where they meet.
pub proof fn lemma_concat_boundary(a: Seq<u8>, b: Seq<u8>)
    requires
        valid_utf8(a),
        valid_utf8(b),
    ensures
        valid_utf8(a + b),
        is_char_boundary(a + b, a.len() as int),
{
    vstd::utf8::valid_utf8_concat(a, b);
    vstd::utf8::is_char_boundary_start_end_of_seq(a + b);
    if b.len() == 0 {
        assert(a + b =~= a);
    } else {
        lemma_valid_starts_with_leading(b);
        assert((a + b)[a.len() as int] == b[0]);
        vstd::utf8::is_char_boundary_iff_not_is_continuation_byte(a + b, a.len() as int);
    }
}

/// Just past a line break is a character boundary.
pub proof fn lemma_after_newline_boundary(s: Seq<u8>, q: int)
    requires
        valid_utf8(s),
        0 <= q < s.len(),
        s[q] == NEWLINE,
    ensures
        is_char_boundary(s, q + 1),
{
    vstd::utf8::is_char_boundary_iff_not_is_continuation_byte(s, q);
    vstd::utf8::valid_utf8_split(s, q);
    let w = s.subrange(q, s.len() as int);
    reveal_with_fuel(valid_utf8, 1);
    assert(w[0] == NEWLINE);
    assert(valid_first_scalar(w));
    assert(length_of_first_scalar(w) == 1);
    let rest = pop_first_scalar(w);
    assert(valid_utf8(rest));
    if q + 1 < s.len() {
        assert(rest.len() > 0);
        lemma_valid_starts_with_leading(rest);
        assert(rest[0] == s[q + 1]);
        vstd::utf8::is_char_boundary_iff_not_is_continuation_byte(s, q + 1);
    } else {
        vstd::utf8::is_char_boundary_start_end_of_seq(s);
    }
}

/// Where a line starts is a character boundary.
pub proof fn lemma_line_start_boundary(s: Seq<u8>, k: nat)
    requires
        valid_utf8(s),
    ensures
        is_char_boundary(s, unit_boundary::<LineMetric>(s, k)),
{
    lemma_line_start_shape(s, k);
    vstd::utf8::is_char_boundary_start_end_of_seq(s);
    let p = unit_boundary::<LineMetric>(s, k);
    if 0 < p < s.len() {
        lemma_after_newline_boundary(s, p - 1);
    }
}

/// A line starts at the beginning, at the end, or just past a line break.
pub proof fn lemma_line_start_shape(s: Seq<u8>, k: nat)
    ensures
        0 <= unit_boundary::<LineMetric>(s, k) <= s.len(),
        k == 0 ==> unit_boundary::<LineMetric>(s, k) == 0,
        k > 0 && s.len() > 0 ==> unit_boundary::<LineMetric>(s, k) > 0,
        k > 0 && 0 < unit_boundary::<LineMetric>(s, k) < s.len() ==> s[unit_boundary::<LineMetric>(s, k) - 1] == NEWLINE,
    decreases s.len(),
{
    if k > 0 && s.len() > 0 {
        let t = s.drop_first();
        if s[0] == NEWLINE {
            lemma_line_start_shape(t, (k - 1) as nat);
            let q = unit_boundary::<LineMetric>(t, (k - 1) as nat);
            assert(unit_boundary::<LineMetric>(s, k) == 1 + q);
            if q > 0 && q < t.len() {
                assert(s[1 + q - 1] == t[q - 1]);
            }
        } else {
            lemma_line_start_shape(t, k);
            let q = unit_boundary::<LineMetric>(t, k);
            assert(unit_boundary::<LineMetric>(s, k) == 1 + q);
            if q > 0 && q < t.len() {
                assert(s[1 + q - 1] == t[q - 1]);
            }
        }
    }
}

/// Encoding distributes over concatenation.
pub proof fn lemma_encode_concat(a: Seq<char>, b: Seq<char>)
    ensures
        encode_utf8(a + b) == encode_utf8(a) + encode_utf8(b),
    decreases a.len(),
{
    if a.len() == 0 {
        assert(a + b =~= b);
        assert(encode_utf8(a) =~= Seq::<u8>::empty());
        assert(encode_utf8(a) + encode_utf8(b) =~= encode_utf8(b));
    } else {
        lemma_encode_concat(a.drop_first(), b);
        assert((a + b).drop_first() =~= a.drop_first() + b);
        assert((a + b)[0] == a[0]);
        assert(encode_utf8(a + b) =~= encode_utf8(a) + encode_utf8(b));
    }
}

/// A character boundary of a valid text that falls inside a valid stretch
/// of it is a character boundary of the stretch.
pub proof fn lemma_boundary_in_stretch(g: Seq<u8>, q: int, m: int, x: int)
    requires
        valid_utf8(g),
        0 <= q,
        0 <= m,
        q + m <= g.len(),
        valid_utf8(g.subrange(q, q + m)),
        q <= x <= q + m,
        is_char_boundary(g, x),
    ensures
        is_char_boundary(g.subrange(q, q + m), x - q),
{
    let sub = g.subrange(q, q + m);
    vstd::utf8::is_char_boundary_start_end_of_seq(sub);
    if q < x < q + m {
        vstd::utf8::is_char_boundary_iff_not_is_continuation_byte(sub, x - q);
        vstd::utf8::is_char_boundary_iff_not_is_continuation_byte(g, x);
        assert(sub[x - q] == g[x]);
    }
}

} // verus!
