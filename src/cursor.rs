//! Primitive reads over a byte buffer at a position, and the bounded
//! repetition that every counted list of the layout goes through.

use vstd::prelude::*;

verus! {

/// The one way decoding fails: a read needed `needed` bytes at `offset`
/// and only `available` were left.
#[derive(Debug, Clone, Copy, PartialEq, Eq)]
pub enum DecodeError {
    InsufficientData { offset: usize, needed: usize, available: usize },
}

/// The error that a read of `n` bytes at `pos` of `data` reports.
pub open spec fn short_read(data: Seq<u8>, pos: int, n: int) -> DecodeError {
    DecodeError::InsufficientData {
        offset: pos as usize,
        needed: n as usize,
        available: (data.len() - pos) as usize,
    }
}

/// The little-endian value of four bytes.
pub open spec fn le_value(b0: u8, b1: u8, b2: u8, b3: u8) -> u32 {
    (b0 as int + 256 * (b1 as int) + 65536 * (b2 as int) + 16777216 * (b3 as int)) as u32
}

/// Reading a little-endian `u32` at `pos`: the value and the position after it.
pub open spec fn spec_u32(data: Seq<u8>, pos: int) -> Result<(u32, int), DecodeError> {
    if pos + 4 <= data.len() {
        Ok((le_value(data[pos], data[pos + 1], data[pos + 2], data[pos + 3]), pos + 4))
    } else {
        Err(short_read(data, pos, 4))
    }
}

/// Reading `n` raw bytes at `pos`.
pub open spec fn spec_bytes(data: Seq<u8>, pos: int, n: int) -> Result<(Seq<u8>, int), DecodeError> {
    if pos + n <= data.len() {
        Ok((data.subrange(pos, pos + n), pos + n))
    } else {
        Err(short_read(data, pos, n))
    }
}

/// An executable decoding result seen through the values' views, with the
/// position as an integer.
pub open spec fn lift<T: View>(r: Result<(T, usize), DecodeError>) -> Result<(T::V, int), DecodeError> {
    match r {
        Ok((v, p)) => Ok((v@, p as int)),
        Err(e) => Err(e),
    }
}

/// Reads a little-endian `u32` at `pos`.
pub fn read_u32(data: &[u8], pos: usize) -> (r: Result<(u32, usize), DecodeError>)
    requires
        pos <= data@.len(),
    ensures
        lift(r) == spec_u32(data@, pos as int),
{
    let len = data.len();
    if len - pos < 4 {
        return Err(DecodeError::InsufficientData { offset: pos, needed: 4, available: len - pos });
    }
    let v: u32 = data[pos] as u32 + (data[pos + 1] as u32) * 256 + (data[pos + 2] as u32) * 65536
        + (data[pos + 3] as u32) * 16777216;
    Ok((v, pos + 4))
}

/// Reads `n` raw bytes at `pos`.
pub fn read_bytes(data: &[u8], pos: usize, n: usize) -> (r: Result<(Vec<u8>, usize), DecodeError>)
    requires
        pos <= data@.len(),
    ensures
        lift(r) == spec_bytes(data@, pos as int, n as int),
{
    let len = data.len();
    if len - pos < n {
        return Err(DecodeError::InsufficientData { offset: pos, needed: n, available: len - pos });
    }
    let end: usize = pos + n;
    let mut out: Vec<u8> = Vec::with_capacity(n);
    let mut i: usize = pos;
    while i < end
        invariant
            end == pos + n,
            pos <= i <= end <= data@.len(),
            out@ == data@.subrange(pos as int, i as int),
        decreases end - i,
    {
        out.push(data[i]);
        i += 1;
    }
    Ok((out, end))
}

/// A spec-level element decoder: from a buffer and a position to a value and
/// the position after it.
pub type SpecStep<V> = spec_fn(Seq<u8>, int) -> Result<(V, int), DecodeError>;

/// Reading `n` elements with `step`, one after another from `pos`; the first
/// failing read ends the whole.
pub open spec fn spec_repeat<V>(step: SpecStep<V>, data: Seq<u8>, pos: int, n: nat) -> Result<(Seq<V>, int), DecodeError>
    decreases n,
{
    if n == 0 {
        Ok((Seq::empty(), pos))
    } else {
        match spec_repeat(step, data, pos, (n - 1) as nat) {
            Err(e) => Err(e),
            Ok((vs, p)) => match step(data, p) {
                Err(e) => Err(e),
                Ok((v, q)) => Ok((vs.push(v), q)),
            },
        }
    }
}

/// A sequence of values seen through their views.
pub open spec fn views<T: View>(s: Seq<T>) -> Seq<T::V> {
    s.map_values(|v: T| v@)
}

/// An executable list result seen through its elements' views.
pub open spec fn lift_all<T: View>(r: Result<(Vec<T>, usize), DecodeError>) -> Result<(Seq<T::V>, int), DecodeError> {
    match r {
        Ok((vs, p)) => Ok((views(vs@), p as int)),
        Err(e) => Err(e),
    }
}

/// `step` decodes exactly as `spec` says, from any position of `data`, and
/// never moves backwards or past the end.
pub open spec fn decodes_as<T: View, F: Fn(&[u8], usize) -> Result<(T, usize), DecodeError>>(
    element: F,
    data: &[u8],
    spec: SpecStep<T::V>,
) -> bool {
    &&& forall|p: usize| p <= data@.len() ==> #[trigger] element.requires((data, p))
    &&& forall|p: usize, r: Result<(T, usize), DecodeError>|
        p <= data@.len() && #[trigger] element.ensures((data, p), r) ==> {
            &&& lift(r) == spec(data@, p as int)
            &&& r is Ok ==> p <= r->Ok_0.1 <= data@.len()
        }
}

/// Once a repetition fails, every longer one fails with the same error.
pub proof fn lemma_repeat_err_stays<V>(step: SpecStep<V>, data: Seq<u8>, pos: int, i: nat, n: nat)
    requires
        i <= n,
        spec_repeat(step, data, pos, i) is Err,
    ensures
        spec_repeat(step, data, pos, n) == spec_repeat(step, data, pos, i),
    decreases n - i,
{
    if i < n {
        lemma_repeat_err_stays(step, data, pos, i, (n - 1) as nat);
    }
}

/// Decodes `count` elements with `element`, one after another from `pos`.
pub fn decode_repeated<T: View, F: Fn(&[u8], usize) -> Result<(T, usize), DecodeError>>(
    data: &[u8],
    pos: usize,
    count: u32,
    element: F,
    Ghost(spec): Ghost<SpecStep<T::V>>,
) -> (r: Result<(Vec<T>, usize), DecodeError>)
    requires
        pos <= data@.len(),
        decodes_as(element, data, spec),
    ensures
        lift_all(r) == spec_repeat(spec, data@, pos as int, count as nat),
        r is Ok ==> r->Ok_0.0@.len() == count && pos <= r->Ok_0.1 <= data@.len(),
{
    let mut out: Vec<T> = Vec::new();
    let mut cur: usize = pos;
    let mut i: u32 = 0;
    assert(views(out@) =~= Seq::<T::V>::empty());
    while i < count
        invariant
            i <= count,
            pos <= cur <= data@.len(),
            decodes_as(element, data, spec),
            out@.len() == i,
            spec_repeat(spec, data@, pos as int, i as nat) == Ok::<(Seq<T::V>, int), DecodeError>(
                (views(out@), cur as int),
            ),
        decreases count - i,
    {
        let res = element(data, cur);
        match res {
            Err(e) => {
                proof {
                    assert(spec_repeat(spec, data@, pos as int, (i + 1) as nat) == Err::<(Seq<T::V>, int), DecodeError>(e));
                    lemma_repeat_err_stays(spec, data@, pos as int, (i + 1) as nat, count as nat);
                }
                return Err(e);
            },
            Ok((v, next)) => {
                let ghost before = out@;
                proof {
                    assert(spec_repeat(spec, data@, pos as int, (i + 1) as nat) == Ok::<(Seq<T::V>, int), DecodeError>(
                        (views(before).push(v@), next as int),
                    ));
                }
                out.push(v);
                proof {
                    assert(views(out@) =~= views(before).push(v@));
                }
                cur = next;
                i += 1;
            },
        }
    }
    Ok((out, cur))
}

/// A count-prefixed list result seen through its elements' views.
pub open spec fn lift_section<T: View>(r: Result<(u32, Vec<T>, usize), DecodeError>) -> Result<(u32, Seq<T::V>, int), DecodeError> {
    match r {
        Ok((count, vs, p)) => Ok((count, views(vs@), p as int)),
        Err(e) => Err(e),
    }
}

/// Reading a `u32` count at `pos`, then `bound` elements with `step`.
#[verifier::opaque]
pub open spec fn spec_bounded<V>(step: SpecStep<V>, data: Seq<u8>, pos: int, bound: nat) -> Result<(u32, Seq<V>, int), DecodeError> {
    match spec_u32(data, pos) {
        Err(e) => Err(e),
        Ok((count, p)) => match spec_repeat(step, data, p, bound) {
            Err(e) => Err(e),
            Ok((vs, q)) => Ok((count, vs, q)),
        },
    }
}

/// Reading a `u32` count at `pos`, then that many elements with `step`.
#[verifier::opaque]
pub open spec fn spec_counted<V>(step: SpecStep<V>, data: Seq<u8>, pos: int) -> Result<(u32, Seq<V>, int), DecodeError> {
    match spec_u32(data, pos) {
        Err(e) => Err(e),
        Ok((count, p)) => match spec_repeat(step, data, p, count as nat) {
            Err(e) => Err(e),
            Ok((vs, q)) => Ok((count, vs, q)),
        },
    }
}

/// Decodes a `u32` count at `pos`, then `bound` elements with `element`,
/// whatever the count read.
pub fn decode_bounded<T: View, F: Fn(&[u8], usize) -> Result<(T, usize), DecodeError>>(
    data: &[u8],
    pos: usize,
    bound: u32,
    element: F,
    Ghost(spec): Ghost<SpecStep<T::V>>,
) -> (r: Result<(u32, Vec<T>, usize), DecodeError>)
    requires
        pos <= data@.len(),
        decodes_as(element, data, spec),
    ensures
        lift_section(r) == spec_bounded(spec, data@, pos as int, bound as nat),
        r is Ok ==> r->Ok_0.1@.len() == bound && pos <= r->Ok_0.2 <= data@.len(),
{
    proof {
        reveal(spec_bounded);
    }
    let (count, p) = match read_u32(data, pos) {
        Err(e) => return Err(e),
        Ok(x) => x,
    };
    match decode_repeated(data, p, bound, element, Ghost(spec)) {
        Err(e) => Err(e),
        Ok((vs, q)) => Ok((count, vs, q)),
    }
}

/// Decodes a `u32` count at `pos`, then that many elements with `element`.
pub fn decode_counted<T: View, F: Fn(&[u8], usize) -> Result<(T, usize), DecodeError>>(
    data: &[u8],
    pos: usize,
    element: F,
    Ghost(spec): Ghost<SpecStep<T::V>>,
) -> (r: Result<(u32, Vec<T>, usize), DecodeError>)
    requires
        pos <= data@.len(),
        decodes_as(element, data, spec),
    ensures
        lift_section(r) == spec_counted(spec, data@, pos as int),
        r is Ok ==> r->Ok_0.1@.len() == r->Ok_0.0 && pos <= r->Ok_0.2 <= data@.len(),
{
    proof {
        reveal(spec_counted);
    }
    let (count, p) = match read_u32(data, pos) {
        Err(e) => return Err(e),
        Ok(x) => x,
    };
    match decode_repeated(data, p, count, element, Ghost(spec)) {
        Err(e) => Err(e),
        Ok((vs, q)) => Ok((count, vs, q)),
    }
}

} // verus!
