//! Narrowing the input's 64-bit ids to the 32-bit ids that the index holds.
use vstd::prelude::*;

verus! {

/// The first id that is not accepted: ids must lie in `[0, 2^31)`.
pub const ID_LIMIT: i64 = 0x8000_0000;

pub open spec fn id_ok(id: i64) -> bool {
    0 <= id < ID_LIMIT
}

/// The ids as `u32`, or the position of the first id outside `[0, 2^31)`.
pub fn narrow_ids(ids: &[i64]) -> (r: Result<Vec<u32>, usize>)
    ensures
        r matches Ok(v) ==> v@.len() == ids@.len() && forall|i: int|
            0 <= i < ids@.len() ==> v@[i] as int == #[trigger] ids@[i] as int,
        r is Ok <==> forall|i: int| 0 <= i < ids@.len() ==> id_ok(#[trigger] ids@[i]),
        r matches Err(p) ==> p < ids@.len() && !id_ok(ids@[p as int]) && forall|i: int|
            0 <= i < p ==> id_ok(#[trigger] ids@[i]),
{
    let mut out: Vec<u32> = Vec::with_capacity(ids.len());
    for i in 0..ids.len()
        invariant
            out@.len() == i,
            forall|j: int| 0 <= j < i ==> id_ok(#[trigger] ids@[j]),
            forall|j: int| 0 <= j < i ==> out@[j] as int == #[trigger] ids@[j] as int,
    {
        let id = ids[i];
        if id < 0 || id >= ID_LIMIT {
            return Err(i);
        }
        out.push(id as u32);
    }
    Ok(out)
}

} // verus!
