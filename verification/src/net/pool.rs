//! Which worker gets the next job.
use vstd::prelude::*;

verus! {

/// The worker with the fewest jobs, the first of them where there are several; 0
/// where there is no worker.
pub fn least_loaded(pressure: &Vec<usize>) -> (worker: usize)
    ensures
        pressure@.len() == 0 ==> worker == 0,
        pressure@.len() > 0 ==> {
            &&& worker < pressure@.len()
            &&& forall|i: int|
                0 <= i < pressure@.len() ==> pressure@[worker as int] <= #[trigger] pressure@[i]
            &&& forall|i: int| 0 <= i < worker ==> pressure@[worker as int] < #[trigger] pressure@[i]
        },
{
    let mut worker: usize = 0;
    let mut i: usize = 0;
    while i < pressure.len()
        invariant
            i <= pressure@.len(),
            pressure@.len() > 0 ==> worker < pressure@.len(),
            pressure@.len() == 0 ==> worker == 0,
            forall|k: int| 0 <= k < i ==> pressure@[worker as int] <= #[trigger] pressure@[k],
            forall|k: int| 0 <= k < worker ==> pressure@[worker as int] < #[trigger] pressure@[k],
        decreases pressure@.len() - i,
    {
        if pressure[i] < pressure[worker] {
            worker = i;
        }
        i = i + 1;
    }
    worker
}

} // verus!
