//! A cell holding a lazily created pool, for use as a process-wide
//! default away from the hot path.

use vstd::prelude::*;

verus! {

use crate::Pool;

/// A cell that holds a pool once one is wanted. `subpools` records the
/// shard count `P` so that unverified callers can check it against another
/// cell's before exchanging pools.
#[derive(Debug)]
pub struct PoolCell<const P: usize> {
    pub pool: Option<Pool<P>>,
    pub subpools: usize,
}

impl<const P: usize> PoolCell<P> {
    pub open spec fn wf(self) -> bool {
        &&& self.subpools == P
        &&& match self.pool {
            Some(p) => p.wf(),
            None => true,
        }
    }

    /// An empty cell: no pool until one is asked for.
    pub fn new() -> (r: Self)
        ensures
            r.wf(),
            r.pool is None,
            r.subpools == P,
    {
        PoolCell { pool: None, subpools: P }
    }

    /// Swaps the inner pool with a new one.
    pub fn swap(&mut self, pool: Pool<P>)
        requires
            old(self).wf(),
            pool.wf(),
        ensures
            final(self).wf(),
            final(self).pool == Some(pool),
            final(self).subpools == old(self).subpools,
    {
        self.pool = Some(pool);
    }

    /// Retrieves the inner pool, creating it on first access.
    pub fn pool(&mut self) -> (r: &Pool<P>)
        requires
            old(self).wf(),
            P >= 1,
            P & ((P - 1) as usize) == 0,
        ensures
            final(self).wf(),
            final(self).subpools == old(self).subpools,
            final(self).pool == Some(*r),
            r.wf(),
            old(self).pool is Some ==> final(self).pool == old(self).pool,
            old(self).pool is None ==> r.inner.ref_count == 1,
    {
        if self.pool.is_none() {
            self.pool = Some(Pool::new());
        }
        self.pool.as_ref().unwrap()
    }
}

} // verus!
