//! Where in an image the flash map is looked for, and which of several
//! signatures is the one that is found.
use crate::fmap::{found, parsed, FMapError, FMapView, IoFailure, HEADER_SIZE, SIGNATURE};
use vstd::arithmetic::div_mod::lemma_fundamental_div_mod;
use vstd::prelude::*;

verus! {

/// The eight bytes at `at` are the signature.
pub open spec fn has_signature(data: Seq<u8>, at: int) -> bool {
    0 <= at && at + 8 <= data.len() && data.subrange(at, at + 8) == SIGNATURE@
}

/// The largest offset at which a header still fits into the image.
pub open spec fn limit(data: Seq<u8>) -> int {
    data.len() - HEADER_SIZE
}

/// The alignment of pass `e`: two to the power of `e`.
pub open spec fn stride(e: nat) -> int
    decreases e,
{
    if e == 0 {
        1
    } else {
        2 * stride((e - 1) as nat)
    }
}

/// There is a pass `e`: its alignment is at least four and at most the
/// limit. The passes are made from the one with the largest alignment down.
pub open spec fn is_pass(data: Seq<u8>, e: nat) -> bool {
    e >= 2 && stride(e) <= limit(data)
}

/// Pass `e` looks at offset `k`: a multiple of its alignment, above zero
/// and not above the limit.
pub open spec fn in_pass(data: Seq<u8>, e: nat, k: int) -> bool {
    0 < k <= limit(data) && k % stride(e) == 0
}

/// Pass `e` finds no signature.
pub open spec fn pass_misses(data: Seq<u8>, e: nat) -> bool {
    forall|k: int| in_pass(data, e, k) ==> !#[trigger] has_signature(data, k)
}

/// Pass `e` is the one that finds a signature, and finds it at `k`: every
/// pass with a larger alignment finds none, and pass `e` finds none before
/// `k`.
pub open spec fn hit_in_pass(data: Seq<u8>, e: nat, k: int) -> bool {
    &&& is_pass(data, e)
    &&& in_pass(data, e, k)
    &&& has_signature(data, k)
    &&& forall|j: int| 0 < j < k && j % stride(e) == 0 ==> !#[trigger] has_signature(data, j)
    &&& forall|c: nat| c > e && #[trigger] is_pass(data, c) ==> pass_misses(data, c)
}

/// The search finds the flash map at `k`: at offset zero if the signature
/// is there; if not, at the first signature that the passes come to.
pub open spec fn is_hit(data: Seq<u8>, k: int) -> bool {
    if k == 0 {
        has_signature(data, 0)
    } else {
        !has_signature(data, 0) && exists|e: nat| hit_in_pass(data, e, k)
    }
}

/// The search finds a flash map somewhere.
pub open spec fn has_hit(data: Seq<u8>) -> bool {
    exists|k: int| is_hit(data, k)
}

/// Where the search finds the flash map, if it finds one.
pub open spec fn hit_offset(data: Seq<u8>) -> int {
    choose|k: int| is_hit(data, k)
}

/// A larger exponent gives a larger alignment: an earlier pass has a
/// larger alignment than a later one.
pub proof fn lemma_stride_grows(e: nat, c: nat)
    requires
        e < c,
    ensures
        0 < stride(e) < stride(c),
        stride(c) > c,
    decreases c,
{
    if e + 1 < c {
        lemma_stride_grows(e, (c - 1) as nat);
    } else {
        lemma_stride_positive(e);
    }
}

/// Every alignment is above its exponent, hence positive.
pub proof fn lemma_stride_positive(e: nat)
    ensures
        stride(e) > e,
    decreases e,
{
    if e > 0 {
        lemma_stride_positive((e - 1) as nat);
    }
}

/// No multiple of `a` lies strictly between two neighbouring multiples of
/// `a`.
pub proof fn lemma_no_multiple_between(a: int, low: int, j: int)
    requires
        a > 0,
        low % a == 0,
        low < j < low + a,
    ensures
        j % a != 0,
{
    lemma_fundamental_div_mod(j, a);
    lemma_fundamental_div_mod(low, a);
    if j % a == 0 {
        let q = j / a;
        let p = low / a;
        assert(p < q && q < p + 1) by (nonlinear_arith)
            requires
                a > 0,
                a * p < a * q,
                a * q < a * p + a,
        ;
    }
}

/// The multiple of `a` after a multiple of `a` is `a` further.
pub proof fn lemma_next_multiple(a: int, low: int)
    requires
        a > 0,
        low % a == 0,
    ensures
        (low + a) % a == 0,
{
    lemma_fundamental_div_mod(low, a);
    let p = low / a;
    assert(low + a == a * (p + 1)) by (nonlinear_arith)
        requires
            low == a * p,
    ;
    vstd::arithmetic::div_mod::lemma_mod_multiples_basic(p + 1, a);
    assert((p + 1) * a == a * (p + 1)) by (nonlinear_arith);
}

/// Where the search finds the flash map in an image that is long enough
/// for a header, the signature stands, a header fits, and the offset is
/// zero or a multiple of four.
pub proof fn lemma_hit_is_candidate(data: Seq<u8>, k: int)
    requires
        data.len() >= HEADER_SIZE,
        is_hit(data, k),
    ensures
        has_signature(data, k),
        0 <= k <= limit(data),
        k % 4 == 0,
{
    if k != 0 {
        let e = choose|e: nat| hit_in_pass(data, e, k);
        reveal_with_fuel(stride, 3);
        let m = stride((e - 2) as nat);
        let a = stride(e);
        assert(a == 4 * m);
        lemma_stride_positive(e);
        lemma_fundamental_div_mod(k, a);
        let q = k / a;
        assert(k == (m * q) * 4) by (nonlinear_arith)
            requires
                k == a * q,
                a == 4 * m,
        ;
        vstd::arithmetic::div_mod::lemma_mod_multiples_basic(m * q, 4);
    }
}

/// The search finds the flash map at one offset at most.
pub proof fn lemma_hit_unique(data: Seq<u8>, first: int, second: int)
    requires
        is_hit(data, first),
        is_hit(data, second),
    ensures
        first == second,
{
    if first != 0 && second != 0 {
        let e = choose|e: nat| hit_in_pass(data, e, first);
        let c = choose|c: nat| hit_in_pass(data, c, second);
        if e < c {
            assert(is_pass(data, c));
            assert(pass_misses(data, c));
            assert(in_pass(data, c, second));
        } else if c < e {
            assert(is_pass(data, e));
            assert(pass_misses(data, e));
            assert(in_pass(data, e, first));
        }
    }
}

/// A signature at offset zero is where the search finds the flash map.
pub proof fn lemma_signature_at_start(data: Seq<u8>)
    requires
        has_signature(data, 0),
    ensures
        has_hit(data),
        hit_offset(data) == 0,
{
    assert(is_hit(data, 0));
    lemma_hit_unique(data, 0, hit_offset(data));
}

/// The pass with the largest alignment, not above `e`, that looks at `k`;
/// `e` itself stands for the pass with alignment four where none does.
pub open spec fn widest_pass(data: Seq<u8>, k: int, e: nat) -> nat
    decreases e,
{
    if e <= 2 || (is_pass(data, e) && k % stride(e) == 0) {
        e
    } else {
        widest_pass(data, k, (e - 1) as nat)
    }
}

/// The widest pass that looks at `k`, where the pass with alignment four
/// does: no pass between it and `e` looks at `k`.
proof fn lemma_widest_pass(data: Seq<u8>, k: int, e: nat)
    requires
        e >= 2,
        is_pass(data, 2),
        k % 4 == 0,
    ensures
        is_pass(data, widest_pass(data, k, e)),
        k % stride(widest_pass(data, k, e)) == 0,
        2 <= widest_pass(data, k, e) <= e,
        forall|c: nat|
            widest_pass(data, k, e) < c <= e ==> !(#[trigger] is_pass(data, c) && k % stride(c) == 0),
    decreases e,
{
    reveal_with_fuel(stride, 3);
    if !(e <= 2 || (is_pass(data, e) && k % stride(e) == 0)) {
        lemma_widest_pass(data, k, (e - 1) as nat);
    }
}

/// A signature that stands alone, at a multiple of four above zero and not
/// above the limit, is where the search finds the flash map.
pub proof fn lemma_lone_signature(data: Seq<u8>, k: int)
    requires
        has_signature(data, k),
        forall|j: int| j != k ==> !#[trigger] has_signature(data, j),
        0 < k <= limit(data),
        k % 4 == 0,
    ensures
        has_hit(data),
        hit_offset(data) == k,
{
    reveal_with_fuel(stride, 3);
    let top = limit(data) as nat;
    assert(stride(2) == 4);
    assert(is_pass(data, 2));
    lemma_stride_positive(2);
    lemma_widest_pass(data, k, if top < 2 {
        2
    } else {
        top
    });
    let e = widest_pass(data, k, if top < 2 {
        2
    } else {
        top
    });
    assert forall|c: nat| c > e && #[trigger] is_pass(data, c) implies pass_misses(data, c) by {
        lemma_stride_positive(c);
        assert(c <= top);
        assert(k % stride(c) != 0);
    }
    assert(hit_in_pass(data, e, k));
    assert(is_hit(data, k));
    lemma_hit_unique(data, k, hit_offset(data));
}

/// Where no candidate offset has the signature, the search finds nothing.
pub proof fn lemma_no_signature(data: Seq<u8>)
    requires
        forall|j: int| !#[trigger] has_signature(data, j),
    ensures
        !has_hit(data),
{
    assert forall|k: int| !is_hit(data, k) by {
        if k != 0 && is_hit(data, k) {
            let e = choose|e: nat| hit_in_pass(data, e, k);
            assert(has_signature(data, k));
        }
    }
}

/// What decoding at the offset `k` gives, as the result of a search that
/// finds the flash map there.
pub open spec fn decoded_at(data: Seq<u8>, k: int) -> Result<(FMapView, int), FMapError> {
    match parsed(data.skip(k)) {
        Ok(map) => Ok((map, k)),
        Err(e) => Err(e),
    }
}

/// Where the search finds the flash map, it gives what decoding at that
/// offset gives.
pub proof fn lemma_found_at_hit(data: Seq<u8>, k: int)
    requires
        data.len() >= HEADER_SIZE,
        is_hit(data, k),
    ensures
        found(data) == decoded_at(data, k),
{
    lemma_hit_unique(data, k, hit_offset(data));
}

/// An image that starts with the signature has its flash map at offset
/// zero: the search gives what decoding the start of the image gives,
/// whatever else the image holds.
pub proof fn lemma_found_at_start(data: Seq<u8>)
    requires
        data.len() >= HEADER_SIZE,
        has_signature(data, 0),
    ensures
        found(data) == decoded_at(data, 0),
{
    lemma_signature_at_start(data);
}

/// An image that holds the signature at one offset only, a multiple of four
/// above zero and not above the limit, has its flash map there: the search
/// gives what decoding at that offset gives.
pub proof fn lemma_found_at_lone_signature(data: Seq<u8>, k: int)
    requires
        has_signature(data, k),
        forall|j: int| j != k ==> !#[trigger] has_signature(data, j),
        0 < k <= limit(data),
        k % 4 == 0,
    ensures
        found(data) == decoded_at(data, k),
{
    lemma_lone_signature(data, k);
}

/// An image that is long enough for a header and holds the signature
/// nowhere has no flash map.
pub proof fn lemma_not_found(data: Seq<u8>)
    requires
        data.len() >= HEADER_SIZE,
        forall|j: int| !#[trigger] has_signature(data, j),
    ensures
        found(data) == Err::<(FMapView, int), FMapError>(FMapError::NotFound),
{
    lemma_no_signature(data);
}

/// An image that is shorter than a header is refused as too small, whatever
/// it holds.
pub proof fn lemma_too_small(data: Seq<u8>)
    requires
        data.len() < HEADER_SIZE,
    ensures
        found(data) == Err::<(FMapView, int), FMapError>(
            FMapError::IOError { source: IoFailure::NotEnoughData },
        ),
{
}

} // verus!
