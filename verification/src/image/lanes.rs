use vstd::prelude::*;
use wide::u16x8;

verus! {

/// `wide::u16x8`, a vector of eight lanes of sixteen bits. Nothing of its
/// layout is known here; what it holds is spoken of through `lanes`.
#[verifier::external_type_specification]
#[verifier::external_body]
pub struct ExU16x8(wide::u16x8);

/// The eight lanes that a `wide::u16x8` holds, in the order of the array it
/// is made from and turned back into.
pub uninterp spec fn lanes(v: u16x8) -> Seq<u16>;

/// `u16x8::from` on an array: the vector whose lanes are the elements of the
/// array, in order.
#[verifier::external_body]
pub(crate) fn pack_lanes(values: [u16; 8]) -> (v: u16x8)
    ensures
        lanes(v) == values@,
{
    u16x8::from(values)
}

/// `u16x8::to_array`: the lanes of the vector as an array, in order.
#[verifier::external_body]
pub(crate) fn unpack_lanes(v: u16x8) -> (values: [u16; 8])
    ensures
        values@ == lanes(v),
{
    v.to_array()
}

/// The `*` of two `wide::u16x8`: each lane of the result is the product of
/// the two lanes in its place, of which the low sixteen bits are kept.
#[verifier::external_body]
pub(crate) fn lane_products(a: u16x8, b: u16x8) -> (p: u16x8)
    ensures
        lanes(p).len() == 8,
        forall|i: int| 0 <= i < 8 ==> #[trigger] lanes(p)[i] == (lanes(a)[i] * lanes(b)[i]) % 0x1_0000,
{
    a * b
}

} // verus!
