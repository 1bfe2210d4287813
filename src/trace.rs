//! Integer choices made while scoring a trace.
use vstd::prelude::*;

verus! {

/// The entity that serves as the coordination center: the least identifier,
/// or `None` when the trace has no entity.
pub fn reference_entity(ids: &Vec<u32>) -> (r: Option<u32>)
    ensures
        r is None <==> ids@.len() == 0,
        r matches Some(m) ==> ids@.contains(m) && forall|i: int| 0 <= i < ids@.len() ==> m <= #[trigger] ids@[i],
{
    if ids.len() == 0 {
        return None;
    }
    let mut m = ids[0];
    let mut i: usize = 1;
    while i < ids.len()
        invariant
            1 <= i <= ids@.len(),
            exists|k: int| 0 <= k < i && ids@[k] == m,
            forall|k: int| 0 <= k < i ==> m <= #[trigger] ids@[k],
        decreases ids@.len() - i,
    {
        if ids[i] < m {
            m = ids[i];
        }
        i = i + 1;
    }
    Some(m)
}

} // verus!
