use vstd::prelude::*;
use std::borrow::Cow;
use vstd::std_specs::cmp::PartialEqSpec;
use vstd::string::StringSliceAdditionalSpecFns;
use vstd::utf8::encode_utf8;
use super::rope_slice::RopeSlice;

verus! {

/// Two slices are `==` exactly when they hold the same bytes, however their
/// trees cut them into chunks; the comparison is symmetric.
pub proof fn law_eq_slices<'a, 'b>(x: RopeSlice<'a>, y: RopeSlice<'b>)
    ensures
        x.eq_spec(&y) <==> x@ == y@,
        x.eq_spec(&y) <==> y.eq_spec(&x),
{
}

/// A slice is `==` to a string exactly when it holds the string's UTF-8
/// bytes, in whichever form the string comes and on either side of `==`.
pub proof fn law_eq_strings<'a, 'b>(x: RopeSlice<'a>, s: &'b str, o: String, c: Cow<'b, str>)
    ensures
        x.eq_spec(s) <==> x@ == s.spec_bytes(),
        x.eq_spec(&s) <==> x@ == s.spec_bytes(),
        x.eq_spec(&o) <==> x@ == encode_utf8(o@),
        x.eq_spec(&c) <==> x@ == encode_utf8(c@),
        s.eq_spec(&x) <==> x@ == s.spec_bytes(),
        (&s).eq_spec(&x) <==> x@ == s.spec_bytes(),
        o.eq_spec(&x) <==> x@ == encode_utf8(o@),
        c.eq_spec(&x) <==> x@ == encode_utf8(c@),
{
}

/// Comparing with a `String` gives what comparing with a `str` of the
/// same text gives.
pub proof fn law_eq_string_is_eq_str<'a, 'b>(x: RopeSlice<'a>, s: &'b str, o: String)
    requires
        s@ == o@,
    ensures
        x.eq_spec(&o) == x.eq_spec(s),
        o.eq_spec(&x) == s.eq_spec(&x),
{
}

} // verus!
