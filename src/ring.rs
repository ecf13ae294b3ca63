use vstd::prelude::*;

use crate::config::{may_grow, Config};
use crate::slab::{has_fit, region_stripes, stripes_for, Region, Slab};

verus! {

#[verifier::external_type_specification]
#[verifier::external_body]
pub struct ExLayoutError(std::alloc::LayoutError);

/// Relies on `std::alloc::Layout::array::<u8>`: a layout of `n` bytes exists
/// exactly when `n` does not exceed `isize::MAX`.
#[verifier::external_body]
fn check_byte_layout(n: usize) -> (r: Result<(), std::alloc::LayoutError>)
    ensures
        r.is_ok() <==> n <= isize::MAX,
{
    std::alloc::Layout::array::<u8>(n).map(|_| ())
}

/// The settings that a ring works with: the bypass size lowered to the slab
/// size where it was larger.
pub open spec fn clamp(c: Config) -> Config {
    Config {
        maximum_allocation_size: if c.slab_size < c.maximum_allocation_size {
            c.slab_size
        } else {
            c.maximum_allocation_size
        },
        ..c
    }
}

/// The cursor moved back by one place in a ring of `len` slabs.
pub open spec fn step_back_spec(c: int, len: int) -> int {
    if c == 0 {
        len - 1
    } else {
        c - 1
    }
}

/// The slab visited at step `t` of a lap over `len` slabs that starts at
/// `start`.
pub open spec fn lap_index(start: int, len: int, t: int) -> int {
    if start + t < len {
        start + t
    } else {
        start + t - len
    }
}

/// Moves the cursor back by one place, wrapping from the first slab to the
/// last.
pub fn step_back(current: usize, len: usize) -> (r: usize)
    requires
        len > 0,
    ensures
        r == step_back_spec(current as int, len as int),
{
    if current == 0 {
        len - 1
    } else {
        current - 1
    }
}

/// The slab that a lap starting at `start` visits after `position` (the
/// first slab when `position` is `None`), or `None` once the lap is done.
pub fn next_position(position: Option<usize>, start: usize, len: usize) -> (r: Option<usize>)
    requires
        start < len || len == 0,
        position matches Some(p) ==> p < len,
    ensures
        position.is_none() ==> r == if len == 0 {
            None::<usize>
        } else {
            Some(start)
        },
        position matches Some(p) ==> {
            let n = if p + 1 == len {
                0
            } else {
                p + 1
            };
            r == if n == start {
                None::<usize>
            } else {
                Some(n as usize)
            }
        },
{
    match position {
        Some(p) => {
            let next = if p + 1 == len {
                0
            } else {
                p + 1
            };
            if next == start {
                None
            } else {
                Some(next)
            }
        },
        None => {
            if len == 0 {
                None
            } else {
                Some(start)
            }
        },
    }
}

/// A growable set of slabs, each with its own free-span bookkeeping, and a
/// cursor that moves back by one place before each lap, so that laps start
/// at different slabs.
#[derive(Debug)]
pub struct SlabRing {
    slabs: Vec<Slab>,
    cycle: usize,
    config: Config,
}

impl SlabRing {
    pub closed spec fn slabs(&self) -> Seq<Slab> {
        self.slabs@
    }

    pub closed spec fn cycle(&self) -> int {
        self.cycle as int
    }

    pub closed spec fn settings(&self) -> Config {
        self.config
    }

    pub open spec fn count(&self) -> int {
        self.slabs().len() as int
    }

    /// Slab `s` has this ring's stripes and is well formed.
    pub open spec fn fits_ring(&self, s: Slab) -> bool {
        &&& s.wf()
        &&& s.stripe_size() == self.settings().minimum_allocation_size
        &&& s.total_stripes() == self.settings().slab_size / self.settings().minimum_allocation_size
    }

    /// Stripes needed for a request of `length` bytes.
    pub open spec fn need(&self, length: int) -> int {
        stripes_for(length, self.settings().minimum_allocation_size as int)
    }

    pub open spec fn wf(&self) -> bool {
        &&& self.settings().minimum_allocation_size > 0
        &&& self.settings().maximum_allocation_size <= self.settings().slab_size
        &&& self.settings().slab_size <= isize::MAX
        &&& if self.count() == 0 {
            self.cycle() == 0
        } else {
            self.cycle() < self.count()
        }
        &&& forall|k: int| 0 <= k < self.count() ==> self.fits_ring(#[trigger] self.slabs()[k])
        &&& self.count() == 0 || may_grow(
            self.count() - 1,
            self.settings().slab_size as int,
            self.settings().memory_limit,
        )
    }

    /// Makes an empty ring with the given settings, the bypass size lowered
    /// to the slab size where it was larger. Fails when no layout of the slab
    /// size exists.
    pub fn new(config: Config) -> (r: Result<Self, std::alloc::LayoutError>)
        requires
            config.minimum_allocation_size > 0,
        ensures
            r.is_ok() <==> config.slab_size <= isize::MAX,
            r matches Ok(ring) ==> {
                &&& ring.wf()
                &&& ring.settings() == clamp(config)
                &&& ring.count() == 0
            },
    {
        match check_byte_layout(config.slab_size) {
            Ok(()) => {
                let config = config.clamped();
                Ok(SlabRing { slabs: Vec::new(), cycle: 0, config })
            },
            Err(e) => Err(e),
        }
    }

    pub fn config(&self) -> (r: &Config)
        ensures
            r == self.settings(),
    {
        &self.config
    }

    pub fn slab_count(&self) -> (r: usize)
        ensures
            r == self.count(),
    {
        self.slabs.len()
    }

    /// The slab at `index`.
    pub fn slab(&self, index: usize) -> (r: &Slab)
        requires
            index < self.count(),
        ensures
            *r == self.slabs()[index as int],
    {
        &self.slabs[index]
    }

    /// Gives a region back to the slab at `index`.
    pub fn free(&mut self, index: usize, region: Region)
        requires
            old(self).wf(),
            index < old(self).count(),
            old(self).slabs()[index as int].releasable(region),
        ensures
            final(self).wf(),
            final(self).settings() == old(self).settings(),
            final(self).cycle() == old(self).cycle(),
            final(self).count() == old(self).count(),
            final(self).slabs()[index as int].free_stripes() == old(self).slabs()[index as int].free_stripes().union(
                region_stripes(region, old(self).settings().minimum_allocation_size as int),
            ),
            forall|j: int| 0 <= j < old(self).count() && j != index ==> final(self).slabs()[j] == old(self).slabs()[j],
    {
        assert(self.fits_ring(self.slabs()[index as int]));
        self.slabs[index].free(region);
        proof {
            assert forall|j: int| 0 <= j < self.count() implies self.fits_ring(
                #[trigger] self.slabs()[j],
            ) by {
                if j != index {
                    assert(self.slabs()[j] == old(self).slabs()[j]);
                }
            }
        }
    }

    /// Adds a slab with all stripes free, unless the cap forbids it; returns
    /// its index.
    pub fn new_slab(&mut self) -> (r: Option<usize>)
        requires
            old(self).wf(),
        ensures
            final(self).wf(),
            final(self).settings() == old(self).settings(),
            final(self).cycle() == old(self).cycle(),
            r.is_some() == may_grow(
                old(self).count(),
                old(self).settings().slab_size as int,
                old(self).settings().memory_limit,
            ),
            r.is_none() ==> final(self).slabs() == old(self).slabs(),
            r matches Some(k) ==> {
                &&& k == old(self).count()
                &&& final(self).count() == k + 1
                &&& final(self).slabs().take(k as int) == old(self).slabs()
                &&& final(self).slabs()[k as int].free_stripes() == Set::new(
                    |x: int| 0 <= x < final(self).slabs()[k as int].total_stripes(),
                )
            },
    {
        if self.config.may_add_slab(self.slabs.len()) {
            let slab = Slab::new(self.config.slab_size, self.config.minimum_allocation_size);
            let k = self.slabs.len();
            self.slabs.push(slab);
            proof {
                assert(self.slabs@.take(k as int) =~= old(self).slabs@);
                assert forall|j: int| 0 <= j < self.count() implies self.fits_ring(
                    #[trigger] self.slabs()[j],
                ) by {
                    if j < k {
                        assert(self.slabs()[j] == old(self).slabs()[j]);
                    }
                }
            }
            Some(k)
        } else {
            None
        }
    }

    /// Moves the cursor back by one place and returns the order in which a
    /// lap from there visits the slabs: each index once, from the cursor up,
    /// wrapping to 0.
    pub fn iter(&mut self) -> (order: Vec<usize>)
        requires
            old(self).wf(),
        ensures
            final(self).wf(),
            final(self).slabs() == old(self).slabs(),
            final(self).settings() == old(self).settings(),
            old(self).count() == 0 ==> final(self).cycle() == old(self).cycle(),
            old(self).count() > 0 ==> final(self).cycle() == step_back_spec(
                old(self).cycle(),
                old(self).count(),
            ),
            order@.len() == old(self).count(),
            forall|t: int|
                0 <= t < order@.len() ==> order@[t] == lap_index(
                    final(self).cycle(),
                    final(self).count(),
                    t,
                ),
    {
        let len = self.slabs.len();
        let start = if len == 0 {
            0
        } else {
            let c = step_back(self.cycle, len);
            self.cycle = c;
            c
        };
        let mut order: Vec<usize> = Vec::new();
        let mut position: Option<usize> = None;
        let mut done = false;
        while !done
            invariant
                start == self.cycle,
                start < len || len == 0,
                len == self.slabs@.len(),
                order@.len() <= len,
                done ==> order@.len() == len,
                forall|t: int| 0 <= t < order@.len() ==> order@[t] == lap_index(start as int, len as int, t),
                position == if order@.len() == 0 {
                    None::<usize>
                } else {
                    Some(lap_index(start as int, len as int, order@.len() - 1) as usize)
                },
            decreases len + 1 - order@.len() - if done { 1int } else { 0int },
        {
            match next_position(position, start, len) {
                None => {
                    done = true;
                },
                Some(p) => {
                    order.push(p);
                    position = Some(p);
                },
            }
        }
        order
    }

    /// Serves `length` bytes from the slabs. A request at or over the bypass
    /// size is declined at once. Otherwise the slabs are tried in the order of
    /// a fresh lap and the first that fits serves the request; when none
    /// does, a new slab is made (if the cap allows) and serves it. A request
    /// that even an empty slab cannot hold is declined. Returns the slab's
    /// index and the region carved from it.
    #[verifier::rlimit(60)]
    pub fn allocate(&mut self, length: usize) -> (r: Option<(usize, Region)>)
        requires
            old(self).wf(),
        ensures
            final(self).wf(),
            final(self).settings() == old(self).settings(),
            final(self).count() >= old(self).count(),
            length >= old(self).settings().maximum_allocation_size ==> r.is_none() && *final(self)
                == *old(self),
            length < old(self).settings().maximum_allocation_size && (exists|j: int|
                0 <= j < old(self).count() && has_fit(
                    #[trigger] old(self).slabs()[j].spans(),
                    old(self).need(length as int),
                )) ==> (r matches Some((k, _)) && k < old(self).count()),
            length > old(self).settings().slab_size ==> r.is_none(),
            length < old(self).settings().maximum_allocation_size ==> final(self).cycle() == if old(
                self,
            ).count() == 0 {
                old(self).cycle()
            } else {
                step_back_spec(old(self).cycle(), old(self).count())
            },
            length < old(self).settings().maximum_allocation_size && may_grow(
                old(self).count(),
                old(self).settings().slab_size as int,
                old(self).settings().memory_limit,
            ) && 0 < old(self).settings().slab_size / old(self).settings().minimum_allocation_size
                && old(self).need(length as int) <= old(self).settings().slab_size
                / old(self).settings().minimum_allocation_size ==> r.is_some(),
            r.is_none() ==> final(self).count() == old(self).count() || length
                < old(self).settings().maximum_allocation_size,
            r.is_none() && length < old(self).settings().maximum_allocation_size ==> {
                &&& forall|j: int|
                    0 <= j < old(self).count() ==> !has_fit(
                        #[trigger] old(self).slabs()[j].spans(),
                        old(self).need(length as int),
                    )
                &&& (!may_grow(
                    old(self).count(),
                    old(self).settings().slab_size as int,
                    old(self).settings().memory_limit,
                ) || old(self).settings().slab_size / old(self).settings().minimum_allocation_size == 0
                    || old(self).need(length as int) > old(self).settings().slab_size
                    / old(self).settings().minimum_allocation_size)
            },
            r matches Some((k, reg)) ==> {
                let s = old(self).settings().minimum_allocation_size as int;
                let before = if k < old(self).count() {
                    old(self).slabs()[k as int].free_stripes()
                } else {
                    Set::new(|x: int| 0 <= x < old(self).settings().slab_size as int / s)
                };
                &&& k < final(self).count()
                &&& reg.len == old(self).need(length as int) * s
                &&& region_stripes(reg, s).subset_of(before)
                &&& final(self).slabs()[k as int].free_stripes() == before.difference(
                    region_stripes(reg, s),
                )
                &&& forall|j: int|
                    0 <= j < old(self).count() && j != k ==> final(self).slabs()[j]
                        == old(self).slabs()[j]
                &&& k < old(self).count() ==> exists|t: int|
                    0 <= t < old(self).count() && k == lap_index(
                        final(self).cycle(),
                        old(self).count(),
                        t,
                    ) && forall|u: int|
                        0 <= u < t ==> !has_fit(
                            old(self).slabs()[lap_index(
                                final(self).cycle(),
                                old(self).count(),
                                u,
                            )].spans(),
                            old(self).need(length as int),
                        )
            },
    {
        if !self.config.serves_from_slabs(length) {
            return None;
        }
        let ghost need = self.need(length as int);
        let order = self.iter();
        let ghost slabs0 = self.slabs@;
        let ghost start = self.cycle as int;
        let mut t: usize = 0;
        while t < order.len()
            invariant
                self.wf(),
                self.slabs@ == slabs0,
                self.settings() == old(self).settings(),
                self.cycle == start,
                start == if old(self).count() == 0 {
                    old(self).cycle()
                } else {
                    step_back_spec(old(self).cycle(), old(self).count())
                },
                slabs0 == old(self).slabs(),
                need == self.need(length as int),
                length < self.config.maximum_allocation_size,
                order@.len() == slabs0.len(),
                forall|u: int| 0 <= u < order@.len() ==> order@[u] == lap_index(start, slabs0.len() as int, u),
                t <= order@.len(),
                forall|u: int|
                    0 <= u < t ==> !has_fit(
                        #[trigger] slabs0[lap_index(start, slabs0.len() as int, u)].spans(),
                        need,
                    ),
            decreases order@.len() - t,
        {
            let k = order[t];
            assert(0 <= k < slabs0.len());
            assert(self.fits_ring(self.slabs()[k as int]));
            let res = self.slabs[k].allocate(length);
            match res {
                Some(reg) => {
                    proof {
                        assert forall|j: int| 0 <= j < self.count() implies self.fits_ring(
                            #[trigger] self.slabs()[j],
                        ) by {
                            if j != k {
                                assert(self.slabs()[j] == slabs0[j]);
                            }
                        }
                        assert(exists|t2: int|
                            0 <= t2 < old(self).count() && k == lap_index(start, old(self).count(), t2)
                                && forall|u: int|
                                0 <= u < t2 ==> !has_fit(
                                    old(self).slabs()[lap_index(start, old(self).count(), u)].spans(),
                                    need,
                                )) by {
                            assert(k == lap_index(start, old(self).count(), t as int));
                        }
                    }
                    return Some((k, reg));
                },
                None => {
                    assert(self.slabs@ =~= slabs0);
                },
            }
            t += 1;
        }
        proof {
            let len = slabs0.len() as int;
            assert forall|j: int| 0 <= j < len implies !has_fit(#[trigger] slabs0[j].spans(), need) by {
                let u = if j >= start { j - start } else { j + len - start };
                assert(lap_index(start, len, u) == j);
            }
        }
        match self.new_slab() {
            Some(k) => {
                proof {
                    assert(self.fits_ring(self.slabs()[k as int]));
                    let s = self.config.minimum_allocation_size as int;
                    let sl = self.slabs()[k as int];
                    if 0 < self.config.slab_size as int / s && need <= self.config.slab_size as int / s {
                        assert(sl.spans().len() > 0 && sl.spans()[0].stripes >= need) by {
                            assert(sl.free_stripes().contains(0));
                            let w = choose|w: int| 0 <= w < sl.spans().len() && #[trigger] crate::slab::in_span(sl.spans()[w], 0);
                            if w > 0 {
                                assert(crate::slab::span_end(sl.spans()[0]) < sl.spans()[w].first);
                            }
                            let e = crate::slab::span_end(sl.spans()[0]);
                            if e < sl.total_stripes() {
                                assert(sl.free_stripes().contains(e));
                                let w2 = choose|w2: int| 0 <= w2 < sl.spans().len() && #[trigger] crate::slab::in_span(sl.spans()[w2], e);
                                if w2 > 0 {
                                    assert(crate::slab::span_end(sl.spans()[0]) < sl.spans()[w2].first);
                                }
                            }
                        }
                    }
                }
                let res = self.slabs[k].allocate(length);
                proof {
                    assert forall|j: int| 0 <= j < self.count() implies self.fits_ring(
                        #[trigger] self.slabs()[j],
                    ) by {
                        if j != k {
                            assert(self.slabs()[j] == slabs0[j]);
                        }
                    }
                }
                match res {
                    Some(reg) => Some((k, reg)),
                    None => None,
                }
            },
            None => None,
        }
    }
}

impl Config {
    /// Checks the settings and makes the ring that serves them, with the
    /// bypass size lowered to the slab size where it was larger.
    pub fn finish(self) -> (r: Result<SlabRing, std::alloc::LayoutError>)
        requires
            self.minimum_allocation_size > 0,
        ensures
            r.is_ok() <==> self.slab_size <= isize::MAX,
            r matches Ok(ring) ==> {
                &&& ring.wf()
                &&& ring.settings() == clamp(self)
                &&& ring.count() == 0
            },
    {
        SlabRing::new(self.clamped())
    }
}

/// When the cap is a whole number of slabs, a ring never holds more slabs
/// than the cap divided by the slab size.
pub proof fn lemma_slab_count_within_cap(ring: SlabRing, cap: usize)
    requires
        ring.wf(),
        ring.settings().memory_limit == Some(cap),
        ring.settings().slab_size > 0,
        cap % ring.settings().slab_size == 0,
    ensures
        ring.count() <= cap / ring.settings().slab_size,
{
    let s = ring.settings().slab_size as int;
    let c = ring.count();
    if c > 0 {
        vstd::arithmetic::div_mod::lemma_fundamental_div_mod(cap as int, s);
        let q = cap as int / s;
        assert((c - 1) * s < s * q);
        assert(c <= q) by (nonlinear_arith)
            requires
                (c - 1) * s < s * q,
                s > 0,
        ;
    }
}

} // verus!
