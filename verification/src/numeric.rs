use vstd::prelude::*;

verus! {

/// What the tolerance test reports for two bit patterns: whether the 64-bit
/// binary floating-point values they encode differ by more than the near-zero
/// tolerance (the machine epsilon of that type).
pub uninterp spec fn bits_far_apart(a: u64, b: u64) -> bool;

/// A stored value and an incoming value, both given as 64-bit float bit
/// patterns, count as changed only when the encoded values differ by more
/// than the near-zero tolerance. Equal bit patterns encode the same value and
/// never count as changed.
pub open spec fn value_changed(a: u64, b: u64) -> bool {
    a != b && bits_far_apart(a, b)
}

/// Relies on arrow's `sub` and `gt` compute kernels (arrow-arith and
/// arrow-ord): element-wise IEEE 754 subtraction on two-element Float64
/// arrays built from the given bit patterns, then comparison against the
/// machine epsilon in both directions. Reports whether either difference
/// exceeds the tolerance; the result depends on the two bit patterns alone.
#[verifier::external_body]
fn bits_differ(a: u64, b: u64) -> (r: bool)
    ensures
        r == bits_far_apart(a, b),
{
    let eps: u64 = 0x3CB0000000000000;
    let fwd = arrow::array::Float64Array::new(arrow::buffer::ScalarBuffer::new(arrow::buffer::Buffer::from_vec(vec![a, b]), 0, 2), None);
    let rev = arrow::array::Float64Array::new(arrow::buffer::ScalarBuffer::new(arrow::buffer::Buffer::from_vec(vec![b, a]), 0, 2), None);
    let tol = arrow::array::Float64Array::new(arrow::buffer::ScalarBuffer::new(arrow::buffer::Buffer::from_vec(vec![eps, eps]), 0, 2), None);
    let diff = arrow::compute::kernels::numeric::sub(&fwd, &rev).unwrap();
    let above = arrow::compute::kernels::cmp::gt(&diff, &tol).unwrap();
    above.true_count() > 0
}

/// Change detection for one metric value: equal bit patterns are never a
/// change; distinct patterns are a change exactly when the encoded values are
/// farther apart than the near-zero tolerance.
pub fn values_differ(a: u64, b: u64) -> (r: bool)
    ensures
        r == value_changed(a, b),
{
    a != b && bits_differ(a, b)
}

/// The tolerance only ever admits: a value whose bit pattern equals the
/// stored one never counts as a change, whatever the tolerance test would
/// say of other pairs.
pub proof fn lemma_equal_bits_never_change(a: u64)
    ensures
        !value_changed(a, a),
{
}

/// Change detection for an optional value pair: two absent values are
/// unchanged, one absent and one present is a change, two present values are
/// compared with the near-zero tolerance.
pub open spec fn opt_value_changed(a: Option<u64>, b: Option<u64>) -> bool {
    match (a, b) {
        (Some(x), Some(y)) => value_changed(x, y),
        (None, None) => false,
        _ => true,
    }
}

/// Executable form of `opt_value_changed`.
pub fn opt_values_differ(a: &Option<u64>, b: &Option<u64>) -> (r: bool)
    ensures
        r == opt_value_changed(*a, *b),
{
    match (a, b) {
        (Some(x), Some(y)) => values_differ(*x, *y),
        (None, None) => false,
        _ => true,
    }
}

} // verus!
