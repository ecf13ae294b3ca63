use vstd::prelude::*;

verus! {

/// A run of consecutive free stripes: `stripes` stripes starting at stripe
/// index `first`.
#[derive(Debug, Clone, Copy, PartialEq, Eq, Structural)]
pub struct Span {
    pub first: usize,
    pub stripes: usize,
}

/// A byte range handed out by a slab: `len` bytes starting `offset` bytes
/// after the slab's base.
#[derive(Debug, Clone, Copy, PartialEq, Eq, Structural)]
pub struct Region {
    pub offset: usize,
    pub len: usize,
}

/// One past the last stripe of `s`.
pub open spec fn span_end(s: Span) -> int {
    s.first + s.stripes
}

pub open spec fn in_span(s: Span, x: int) -> bool {
    s.first <= x < span_end(s)
}

/// Stripe `x` lies in one of the spans.
pub open spec fn covers(spans: Seq<Span>, x: int) -> bool {
    exists|k: int| 0 <= k < spans.len() && #[trigger] in_span(spans[k], x)
}

/// The spans are non-empty, lie within `total` stripes, are ordered by
/// position, pairwise disjoint and never touch (fully coalesced).
pub open spec fn spans_wf(spans: Seq<Span>, total: int) -> bool {
    &&& forall|k: int| 0 <= k < spans.len() ==> #[trigger] spans[k].stripes > 0
    &&& forall|k: int| 0 <= k < spans.len() ==> span_end(#[trigger] spans[k]) <= total
    &&& forall|i: int, j: int|
        0 <= i < j < spans.len() ==> span_end(#[trigger] spans[i]) < (#[trigger] spans[j]).first
}

/// As `spans_wf`, except that span `index` may end exactly where the next one
/// starts.
pub open spec fn spans_wf_but_one(spans: Seq<Span>, total: int, index: int) -> bool {
    &&& forall|k: int| 0 <= k < spans.len() ==> #[trigger] spans[k].stripes > 0
    &&& forall|k: int| 0 <= k < spans.len() ==> span_end(#[trigger] spans[k]) <= total
    &&& forall|i: int, j: int|
        0 <= i < j < spans.len() ==> span_end(#[trigger] spans[i]) < (#[trigger] spans[j]).first
            || (i == index && j == index + 1 && span_end(spans[i]) == spans[j].first)
}

/// Number of stripes needed to hold `n` bytes: `n / s` rounded up.
pub open spec fn stripes_for(n: int, s: int) -> int {
    n / s + if n % s == 0 { 0int } else { 1int }
}

/// The stripes that a byte region occupies in a slab of stripe size `s`.
pub open spec fn region_stripes(r: Region, s: int) -> Set<int> {
    Set::new(|x: int| r.offset as int / s <= x < r.offset as int / s + r.len as int / s)
}

/// The stripes `first`, `first + 1`, ..., `first + n - 1`.
pub open spec fn stripe_range(first: int, n: int) -> Set<int> {
    Set::new(|x: int| first <= x < first + n)
}

/// A region of `n` stripes starting at stripe `first` covers exactly those
/// stripes, and is stripe-aligned.
proof fn lemma_region_of_stripes(first: int, n: int, s: int)
    requires
        s > 0,
        first >= 0,
        n >= 0,
        first * s <= usize::MAX,
        n * s <= usize::MAX,
    ensures
        (first * s) / s == first,
        (n * s) / s == n,
        (first * s) % s == 0,
        (n * s) % s == 0,
        region_stripes(Region { offset: (first * s) as usize, len: (n * s) as usize }, s)
            == stripe_range(first, n),
{
    vstd::arithmetic::div_mod::lemma_div_multiples_vanish(first, s);
    vstd::arithmetic::div_mod::lemma_div_multiples_vanish(n, s);
    vstd::arithmetic::div_mod::lemma_mod_multiples_basic(first, s);
    vstd::arithmetic::div_mod::lemma_mod_multiples_basic(n, s);
    assert(first * s == s * first) by (nonlinear_arith);
    assert(n * s == s * n) by (nonlinear_arith);
    assert(region_stripes(Region { offset: (first * s) as usize, len: (n * s) as usize }, s)
        =~= stripe_range(first, n));
}

/// Span `k` fits `need` stripes with the least residual, and is the first
/// such span.
pub open spec fn is_best_fit(spans: Seq<Span>, need: int, k: int) -> bool {
    &&& 0 <= k < spans.len()
    &&& spans[k].stripes >= need
    &&& forall|j: int|
        0 <= j < k ==> (#[trigger] spans[j]).stripes < need || spans[j].stripes > spans[k].stripes
    &&& forall|j: int|
        k < j < spans.len() ==> (#[trigger] spans[j]).stripes < need || spans[j].stripes
            >= spans[k].stripes
}

/// Some span holds at least `need` stripes.
pub open spec fn has_fit(spans: Seq<Span>, need: int) -> bool {
    exists|k: int| 0 <= k < spans.len() && (#[trigger] spans[k]).stripes >= need
}

/// The free-space bookkeeping of one slab: a byte region of fixed length cut
/// into stripes of `minimum_allocation_size` bytes, of which the free ones are
/// kept as an ordered, coalesced list of spans.
#[derive(Debug)]
pub struct Slab {
    spans: Vec<Span>,
    minimum_allocation_size: usize,
    total_stripes: usize,
}

impl Slab {
    pub closed spec fn spans(&self) -> Seq<Span> {
        self.spans@
    }

    pub closed spec fn stripe_size(&self) -> int {
        self.minimum_allocation_size as int
    }

    /// Number of whole stripes in the slab; a remainder is never used.
    pub closed spec fn total_stripes(&self) -> int {
        self.total_stripes as int
    }

    /// The indices of the free stripes.
    pub open spec fn free_stripes(&self) -> Set<int> {
        Set::new(|x: int| covers(self.spans(), x))
    }

    /// The stripe size is positive, the stripes fit in memory, and the free
    /// spans are ordered, disjoint and coalesced.
    pub open spec fn wf(&self) -> bool {
        &&& self.stripe_size() > 0
        &&& self.total_stripes() * self.stripe_size() <= usize::MAX
        &&& spans_wf(self.spans(), self.total_stripes())
    }

    /// A region that `free` takes back: stripe-aligned, non-empty, inside the
    /// slab, and with no stripe that is free already.
    pub open spec fn releasable(&self, r: Region) -> bool {
        let s = self.stripe_size();
        &&& r.offset as int % s == 0
        &&& r.len as int % s == 0
        &&& r.len > 0
        &&& r.offset as int / s + r.len as int / s <= self.total_stripes()
        &&& region_stripes(r, s).disjoint(self.free_stripes())
    }

    /// Makes the bookkeeping of a slab of `length` bytes cut into stripes of
    /// `minimum_allocation_size` bytes, all of them free.
    pub fn new(length: usize, minimum_allocation_size: usize) -> (r: Self)
        requires
            minimum_allocation_size > 0,
        ensures
            r.wf(),
            r.stripe_size() == minimum_allocation_size,
            r.total_stripes() == length / minimum_allocation_size,
            r.free_stripes() == Set::new(|x: int| 0 <= x < r.total_stripes()),
            r.spans() == if r.total_stripes() > 0 {
                seq![Span { first: 0, stripes: (length / minimum_allocation_size) as usize }]
            } else {
                Seq::<Span>::empty()
            },
    {
        let total_stripes = length / minimum_allocation_size;
        proof {
            assert(total_stripes * minimum_allocation_size <= length) by (nonlinear_arith)
                requires
                    total_stripes == length / minimum_allocation_size,
                    minimum_allocation_size > 0,
            ;
        }
        let mut spans: Vec<Span> = Vec::new();
        if total_stripes > 0 {
            spans.push(Span { first: 0, stripes: total_stripes });
        }
        let r = Slab { spans, minimum_allocation_size, total_stripes };
        proof {
            if total_stripes > 0 {
                assert(r.spans() =~= seq![Span { first: 0, stripes: total_stripes }]);
            } else {
                assert(r.spans() =~= Seq::<Span>::empty());
            }
            assert forall|x: int| #[trigger] covers(r.spans(), x) <==> 0 <= x < r.total_stripes() by {
                if 0 <= x < r.total_stripes() {
                    assert(in_span(r.spans()[0], x));
                }
            }
            assert(r.free_stripes() =~= Set::new(|x: int| 0 <= x < r.total_stripes()));
        }
        r
    }

    /// Carves `length` bytes, rounded up to whole stripes, from the front of
    /// the free span that fits them with the fewest stripes to spare (the
    /// first such span on a tie). Returns `None`, and changes nothing, when no
    /// free span is large enough.
    #[verifier::rlimit(60)]
    pub fn allocate(&mut self, length: usize) -> (r: Option<Region>)
        requires
            old(self).wf(),
        ensures
            final(self).wf(),
            final(self).stripe_size() == old(self).stripe_size(),
            final(self).total_stripes() == old(self).total_stripes(),
            r.is_none() <==> !has_fit(old(self).spans(), stripes_for(length as int, old(self).stripe_size())),
            r.is_none() ==> *final(self) == *old(self),
            r.is_some() ==> {
                let s = old(self).stripe_size();
                let need = stripes_for(length as int, s);
                let reg = r.unwrap();
                &&& exists|k: int| is_best_fit(old(self).spans(), need, k)
                    && reg.offset == old(self).spans()[k].first * s
                &&& reg.len == need * s
                &&& reg.offset as int % s == 0
                &&& region_stripes(reg, s).subset_of(old(self).free_stripes())
                &&& final(self).free_stripes() == old(self).free_stripes().difference(region_stripes(reg, s))
                &&& reg.len > 0 ==> final(self).releasable(reg)
            },
    {
        let s = self.minimum_allocation_size;
        let need: usize = if length % s == 0 {
            length / s
        } else {
            proof {
                assert(length / s < usize::MAX) by (nonlinear_arith)
                    requires s >= 2;
            }
            length / s + 1
        };
        assert(need == stripes_for(length as int, s as int));
        let ghost old_spans = self.spans@;
        let mut best: Option<usize> = None;
        let mut best_extra: usize = 0;
        let mut perfect = false;
        let mut i: usize = 0;
        while i < self.spans.len() && !perfect
            invariant
                self.spans@ == old_spans,
                i <= old_spans.len(),
                perfect ==> best.is_some() && best_extra == 0,
                best.is_none() ==> forall|j: int| 0 <= j < i ==> (#[trigger] old_spans[j]).stripes < need,
                best.is_some() ==> {
                    let b = best.unwrap() as int;
                    &&& b < i
                    &&& old_spans[b].stripes >= need
                    &&& best_extra == old_spans[b].stripes - need
                    &&& forall|j: int| 0 <= j < b ==> (#[trigger] old_spans[j]).stripes < need
                        || old_spans[j].stripes > old_spans[b].stripes
                    &&& forall|j: int| b < j < i ==> (#[trigger] old_spans[j]).stripes < need
                        || old_spans[j].stripes >= old_spans[b].stripes
                },
            decreases old_spans.len() - i,
        {
            let stripes = self.spans[i].stripes;
            if stripes >= need {
                let extra = stripes - need;
                if best.is_none() || extra < best_extra {
                    best = Some(i);
                    best_extra = extra;
                    if extra == 0 {
                        perfect = true;
                    }
                }
            }
            i += 1;
        }
        match best {
            None => None,
            Some(b) => {
                let span = self.spans[b];
                assert(is_best_fit(old_spans, need as int, b as int));
                proof {
                    let t = self.total_stripes as int;
                    assert(span.first * s <= t * s) by (nonlinear_arith)
                        requires span.first <= t, s > 0;
                    assert(need * s <= t * s) by (nonlinear_arith)
                        requires need <= t, s > 0;
                    lemma_region_of_stripes(span.first as int, need as int, s as int);
                }
                let offset = span.first * s;
                let len = need * s;
                let rest = Span { first: span.first + need, stripes: span.stripes - need };
                if rest.stripes == 0 {
                    self.spans.remove(b);
                } else {
                    self.spans.set(b, rest);
                }
                let reg = Region { offset, len };
                proof {
                    let new_spans = self.spans@;
                    let range = stripe_range(span.first as int, need as int);
                    assert forall|x: int| #[trigger] covers(new_spans, x)
                        <==> covers(old_spans, x) && !range.contains(x) by {
                        if covers(new_spans, x) {
                            let k = choose|k: int| 0 <= k < new_spans.len() && #[trigger] in_span(new_spans[k], x);
                            if rest.stripes == 0 {
                                if k < b {
                                    assert(in_span(old_spans[k], x));
                                } else {
                                    assert(in_span(old_spans[k + 1], x));
                                }
                            } else {
                                assert(in_span(old_spans[k], x));
                            }
                        }
                        if covers(old_spans, x) && !range.contains(x) {
                            let k = choose|k: int| 0 <= k < old_spans.len() && #[trigger] in_span(old_spans[k], x);
                            if rest.stripes == 0 {
                                if k < b {
                                    assert(in_span(new_spans[k], x));
                                } else {
                                    assert(in_span(new_spans[k - 1], x));
                                }
                            } else {
                                assert(in_span(new_spans[k], x));
                            }
                        }
                    }
                    assert forall|x: int| range.contains(x) implies covers(old_spans, x) by {
                        assert(in_span(old_spans[b as int], x));
                    }
                    assert(self.free_stripes() =~= old(self).free_stripes().difference(range));
                    assert(spans_wf(new_spans, self.total_stripes as int)) by {
                        if rest.stripes == 0 {
                            assert forall|i: int, j: int| 0 <= i < j < new_spans.len()
                                implies span_end(#[trigger] new_spans[i]) < (#[trigger] new_spans[j]).first by {
                                let oi = if i < b { i } else { i + 1 };
                                let oj = if j < b { j } else { j + 1 };
                                assert(new_spans[i] == old_spans[oi]);
                                assert(new_spans[j] == old_spans[oj]);
                            }
                        }
                    }
                }
                proof {
                    if len > 0 {
                        assert(region_stripes(reg, s as int).disjoint(self.free_stripes()));
                    }
                }
                Some(reg)
            },
        }
    }

    /// The free spans, in order.
    pub fn free_spans(&self) -> (r: &Vec<Span>)
        ensures
            r@ == self.spans(),
    {
        &self.spans
    }

    /// The stripe size in bytes.
    pub fn minimum_allocation_size(&self) -> (r: usize)
        ensures
            r == self.stripe_size(),
    {
        self.minimum_allocation_size
    }

    /// Tells whether `free` would take `region` back.
    pub fn can_free(&self, region: Region) -> (r: bool)
        requires
            self.wf(),
        ensures
            r == self.releasable(region),
    {
        let s = self.minimum_allocation_size;
        if region.offset % s != 0 || region.len % s != 0 || region.len == 0 {
            return false;
        }
        let first = region.offset / s;
        let n = region.len / s;
        if first > self.total_stripes || n > self.total_stripes - first {
            return false;
        }
        let ghost range = region_stripes(region, s as int);
        assert(range =~= stripe_range(first as int, n as int));
        assert(n > 0) by {
            vstd::arithmetic::div_mod::lemma_fundamental_div_mod(region.len as int, s as int);
            assert(n > 0) by (nonlinear_arith)
                requires
                    region.len == s * n + region.len % s,
                    region.len % s == 0,
                    region.len > 0,
            ;
        }
        let mut i: usize = 0;
        while i < self.spans.len()
            invariant
                self.wf(),
                n > 0,
                first + n <= self.total_stripes,
                range == stripe_range(first as int, n as int),
                range == region_stripes(region, self.stripe_size()),
                i <= self.spans@.len(),
                forall|j: int| 0 <= j < i ==> span_end(#[trigger] self.spans@[j]) <= first
                    || self.spans@[j].first >= first + n,
            decreases self.spans@.len() - i,
        {
            let span = self.spans[i];
            if span.first < first + n && first < span.first + span.stripes {
                proof {
                    let x = if span.first < first { first as int } else { span.first as int };
                    assert(in_span(self.spans@[i as int], x));
                    assert(self.free_stripes().contains(x));
                    assert(range.contains(x));
                    assert(!range.disjoint(self.free_stripes()));
                }
                return false;
            }
            i += 1;
        }
        proof {
            assert forall|x: int| range.contains(x) implies !self.free_stripes().contains(x) by {
                if covers(self.spans(), x) {
                    let k = choose|k: int| 0 <= k < self.spans().len() && #[trigger] in_span(self.spans()[k], x);
                    assert(span_end(self.spans@[k]) <= first || self.spans@[k].first >= first + n);
                }
            }
        }
        true
    }

    /// Takes back a region that `allocate` handed out, merging it with the
    /// free spans that it touches.
    #[verifier::rlimit(60)]
    pub fn free(&mut self, region: Region)
        requires
            old(self).wf(),
            old(self).releasable(region),
        ensures
            final(self).wf(),
            final(self).stripe_size() == old(self).stripe_size(),
            final(self).total_stripes() == old(self).total_stripes(),
            final(self).free_stripes() == old(self).free_stripes().union(
                region_stripes(region, old(self).stripe_size()),
            ),
    {
        let s = self.minimum_allocation_size;
        let first = region.offset / s;
        let n = region.len / s;
        let ghost old_spans = self.spans@;
        let ghost total = self.total_stripes as int;
        let ghost range = region_stripes(region, s as int);
        assert(range =~= stripe_range(first as int, n as int));
        assert(n > 0) by {
            vstd::arithmetic::div_mod::lemma_fundamental_div_mod(region.len as int, s as int);
            assert(n > 0) by (nonlinear_arith)
                requires
                    region.len == s * n + region.len % s,
                    region.len % s == 0,
                    region.len > 0,
            ;
        }
        assert(range.contains(first as int));
        let mut i: usize = 0;
        while i < self.spans.len()
            invariant
                self.spans@ == old_spans,
                self.minimum_allocation_size == s,
                self.total_stripes == total,
                self.wf(),
                old(self).wf(),
                old(self).spans() == old_spans,
                old(self).minimum_allocation_size == s,
                old(self).total_stripes == total,
                range == region_stripes(region, s as int),
                range == stripe_range(first as int, n as int),
                range.disjoint(old(self).free_stripes()),
                n > 0,
                first + n <= total,
                i <= old_spans.len(),
                forall|j: int| 0 <= j < i ==> span_end(#[trigger] old_spans[j]) < first,
            decreases old_spans.len() - i,
        {
            let span = self.spans[i];
            if span.first < first && span.first + span.stripes == first {
                proof {
                    if i + 1 < old_spans.len() {
                        let nf = old_spans[i + 1].first as int;
                        assert(in_span(old_spans[i + 1], nf));
                        assert(old(self).free_stripes().contains(nf));
                    }
                }
                self.spans.set(i, Span { first: span.first, stripes: span.stripes + n });
                proof {
                    let mid = self.spans@;
                    assert forall|x: int| #[trigger] covers(mid, x)
                        <==> covers(old_spans, x) || range.contains(x) by {
                        if covers(mid, x) {
                            let k = choose|k: int| 0 <= k < mid.len() && #[trigger] in_span(mid[k], x);
                            if k != i {
                                assert(in_span(old_spans[k], x));
                            } else if x < first {
                                assert(in_span(old_spans[k], x));
                            }
                        }
                        if covers(old_spans, x) {
                            let k = choose|k: int| 0 <= k < old_spans.len() && #[trigger] in_span(old_spans[k], x);
                            assert(in_span(mid[k], x));
                        }
                        if range.contains(x) {
                            assert(in_span(mid[i as int], x));
                        }
                    }
                }
                merge_next_span_if_possible(&mut self.spans, i, first + n, Ghost(total));
                proof {
                    assert(self.free_stripes() =~= old(self).free_stripes().union(range));
                }
                return;
            } else if first < span.first {
                proof {
                    assert(in_span(old_spans[i as int], span.first as int));
                    assert(old(self).free_stripes().contains(span.first as int));
                    assert(span.first >= first + n);
                }
                if span.first == first + n {
                    self.spans.set(i, Span { first, stripes: span.stripes + n });
                    proof {
                        let mid = self.spans@;
                        assert forall|x: int| #[trigger] covers(mid, x)
                            <==> covers(old_spans, x) || range.contains(x) by {
                            if covers(mid, x) {
                                let k = choose|k: int| 0 <= k < mid.len() && #[trigger] in_span(mid[k], x);
                                if k != i || x >= first + n {
                                    assert(in_span(old_spans[k], x));
                                }
                            }
                            if covers(old_spans, x) {
                                let k = choose|k: int| 0 <= k < old_spans.len() && #[trigger] in_span(old_spans[k], x);
                                assert(in_span(mid[k], x));
                            }
                            if range.contains(x) {
                                assert(in_span(mid[i as int], x));
                            }
                        }
                    }
                    merge_next_span_if_possible(&mut self.spans, i, span.first + span.stripes, Ghost(total));
                    proof {
                        assert(self.free_stripes() =~= old(self).free_stripes().union(range));
                    }
                    return;
                }
                self.spans.insert(i, Span { first, stripes: n });
                proof {
                    let new_spans = self.spans@;
                    assert forall|x: int| #[trigger] covers(new_spans, x)
                        <==> covers(old_spans, x) || range.contains(x) by {
                        if covers(new_spans, x) {
                            let k = choose|k: int| 0 <= k < new_spans.len() && #[trigger] in_span(new_spans[k], x);
                            if k < i {
                                assert(in_span(old_spans[k], x));
                            } else if k > i {
                                assert(in_span(old_spans[k - 1], x));
                            }
                        }
                        if covers(old_spans, x) {
                            let k = choose|k: int| 0 <= k < old_spans.len() && #[trigger] in_span(old_spans[k], x);
                            if k < i {
                                assert(in_span(new_spans[k], x));
                            } else {
                                assert(in_span(new_spans[k + 1], x));
                            }
                        }
                        if range.contains(x) {
                            assert(in_span(new_spans[i as int], x));
                        }
                    }
                    assert(self.free_stripes() =~= old(self).free_stripes().union(range));
                    assert forall|a: int, b: int| 0 <= a < b < new_spans.len()
                        implies span_end(#[trigger] new_spans[a]) < (#[trigger] new_spans[b]).first by {
                        if a < i && b > i {
                            assert(new_spans[b] == old_spans[b - 1]);
                        } else if a > i {
                            assert(new_spans[a] == old_spans[a - 1]);
                            assert(new_spans[b] == old_spans[b - 1]);
                        }
                    }
                }
                return;
            }
            proof {
                if span.first == first {
                    assert(in_span(old_spans[i as int], first as int));
                    assert(old(self).free_stripes().contains(first as int));
                } else if span_end(span) > first {
                    assert(in_span(old_spans[i as int], first as int));
                    assert(old(self).free_stripes().contains(first as int));
                }
            }
            i += 1;
        }
        self.spans.push(Span { first, stripes: n });
        proof {
            let new_spans = self.spans@;
            assert forall|x: int| #[trigger] covers(new_spans, x)
                <==> covers(old_spans, x) || range.contains(x) by {
                if covers(new_spans, x) {
                    let k = choose|k: int| 0 <= k < new_spans.len() && #[trigger] in_span(new_spans[k], x);
                    if k < old_spans.len() {
                        assert(in_span(old_spans[k], x));
                    }
                }
                if covers(old_spans, x) {
                    let k = choose|k: int| 0 <= k < old_spans.len() && #[trigger] in_span(old_spans[k], x);
                    assert(in_span(new_spans[k], x));
                }
                if range.contains(x) {
                    assert(in_span(new_spans[old_spans.len() as int], x));
                }
            }
            assert(self.free_stripes() =~= old(self).free_stripes().union(range));
        }
    }
}

/// Two well-formed span lists over the same stripes that free the same
/// stripes are the same list: the free list is a function of the free set.
pub proof fn lemma_spans_determined_by_free_stripes(a: Seq<Span>, b: Seq<Span>, total: int)
    requires
        spans_wf(a, total),
        spans_wf(b, total),
        forall|x: int| covers(a, x) == covers(b, x),
    ensures
        a == b,
    decreases a.len(),
{
    if a.len() == 0 {
        if b.len() > 0 {
            assert(in_span(b[0], b[0].first as int));
            assert(covers(b, b[0].first as int));
        }
        assert(a =~= b);
        return;
    }
    if b.len() == 0 {
        assert(in_span(a[0], a[0].first as int));
        assert(covers(a, a[0].first as int));
        assert(false);
    }
    let x = a[0];
    let y = b[0];
    assert(in_span(x, x.first as int));
    assert(in_span(y, y.first as int));
    if x.first < y.first {
        assert(covers(b, x.first as int));
        let k = choose|k: int| 0 <= k < b.len() && #[trigger] in_span(b[k], x.first as int);
        if k > 0 {
            assert(span_end(b[0]) < b[k].first);
        }
    }
    if y.first < x.first {
        assert(covers(a, y.first as int));
        let k = choose|k: int| 0 <= k < a.len() && #[trigger] in_span(a[k], y.first as int);
        if k > 0 {
            assert(span_end(a[0]) < a[k].first);
        }
    }
    assert(x.first == y.first);
    if span_end(x) < span_end(y) {
        assert(in_span(y, span_end(x)));
        assert(covers(a, span_end(x)));
        let k = choose|k: int| 0 <= k < a.len() && #[trigger] in_span(a[k], span_end(x));
        if k > 0 {
            assert(span_end(a[0]) < a[k].first);
        }
    }
    if span_end(y) < span_end(x) {
        assert(in_span(x, span_end(y)));
        assert(covers(b, span_end(y)));
        let k = choose|k: int| 0 <= k < b.len() && #[trigger] in_span(b[k], span_end(y));
        if k > 0 {
            assert(span_end(b[0]) < b[k].first);
        }
    }
    assert(x == y);
    let ta = a.drop_first();
    let tb = b.drop_first();
    assert forall|z: int| covers(ta, z) == covers(tb, z) by {
        if covers(ta, z) {
            let k = choose|k: int| 0 <= k < ta.len() && #[trigger] in_span(ta[k], z);
            assert(in_span(a[k + 1], z));
            assert(span_end(a[0]) < a[k + 1].first);
            assert(covers(a, z));
            let j = choose|j: int| 0 <= j < b.len() && #[trigger] in_span(b[j], z);
            assert(j != 0);
            assert(in_span(tb[j - 1], z));
        }
        if covers(tb, z) {
            let k = choose|k: int| 0 <= k < tb.len() && #[trigger] in_span(tb[k], z);
            assert(in_span(b[k + 1], z));
            assert(span_end(b[0]) < b[k + 1].first);
            assert(covers(b, z));
            let j = choose|j: int| 0 <= j < a.len() && #[trigger] in_span(a[j], z);
            assert(j != 0);
            assert(in_span(ta[j - 1], z));
        }
    }
    assert forall|i: int, j: int| 0 <= i < j < ta.len()
        implies span_end(#[trigger] ta[i]) < (#[trigger] ta[j]).first by {
        assert(ta[i] == a[i + 1] && ta[j] == a[j + 1]);
    }
    assert forall|i: int, j: int| 0 <= i < j < tb.len()
        implies span_end(#[trigger] tb[i]) < (#[trigger] tb[j]).first by {
        assert(tb[i] == b[i + 1] && tb[j] == b[j + 1]);
    }
    lemma_spans_determined_by_free_stripes(ta, tb, total);
    assert forall|i: int| 0 <= i < a.len() implies a[i] == b[i] by {
        if i > 0 {
            assert(a[i] == ta[i - 1] && b[i] == tb[i - 1]);
        }
    }
    assert(a =~= b);
}

/// Two well-formed slabs over the same stripes with the same free stripes
/// keep the same free-span list.
pub proof fn lemma_same_free_stripes_same_spans(a: Slab, b: Slab)
    requires
        a.wf(),
        b.wf(),
        a.total_stripes() == b.total_stripes(),
        a.free_stripes() == b.free_stripes(),
    ensures
        a.spans() == b.spans(),
{
    assert forall|x: int| covers(a.spans(), x) == covers(b.spans(), x) by {
        assert(a.free_stripes().contains(x) == covers(a.spans(), x));
        assert(b.free_stripes().contains(x) == covers(b.spans(), x));
    }
    lemma_spans_determined_by_free_stripes(a.spans(), b.spans(), a.total_stripes());
}

/// Freeing a region right after it was allocated gives back the free-span
/// list that the slab had before the allocation.
pub proof fn lemma_allocate_then_free_restores(before: Slab, mid: Slab, after: Slab, reg: Region)
    requires
        before.wf(),
        mid.wf(),
        after.wf(),
        mid.total_stripes() == before.total_stripes(),
        after.total_stripes() == before.total_stripes(),
        mid.stripe_size() == before.stripe_size(),
        region_stripes(reg, before.stripe_size()).subset_of(before.free_stripes()),
        mid.free_stripes() == before.free_stripes().difference(region_stripes(reg, before.stripe_size())),
        after.free_stripes() == mid.free_stripes().union(region_stripes(reg, mid.stripe_size())),
    ensures
        after.spans() == before.spans(),
{
    assert(after.free_stripes() =~= before.free_stripes());
    lemma_same_free_stripes_same_spans(after, before);
}

/// Freeing two regions in either order leaves the same free-span list.
pub proof fn lemma_free_order_irrelevant(
    start: Slab,
    p: Region,
    q: Region,
    p_then: Slab,
    p_then_q: Slab,
    q_then: Slab,
    q_then_p: Slab,
)
    requires
        start.wf(),
        p_then_q.wf(),
        q_then_p.wf(),
        p_then_q.total_stripes() == start.total_stripes(),
        q_then_p.total_stripes() == start.total_stripes(),
        p_then.stripe_size() == start.stripe_size(),
        q_then.stripe_size() == start.stripe_size(),
        p_then.free_stripes() == start.free_stripes().union(region_stripes(p, start.stripe_size())),
        p_then_q.free_stripes() == p_then.free_stripes().union(region_stripes(q, p_then.stripe_size())),
        q_then.free_stripes() == start.free_stripes().union(region_stripes(q, start.stripe_size())),
        q_then_p.free_stripes() == q_then.free_stripes().union(region_stripes(p, q_then.stripe_size())),
    ensures
        p_then_q.spans() == q_then_p.spans(),
{
    assert(p_then_q.free_stripes() =~= q_then_p.free_stripes());
    lemma_same_free_stripes_same_spans(p_then_q, q_then_p);
}

/// A region that `allocate` hands out overlaps no region still held (one with
/// no free stripe before the call) and no free span after the call.
pub proof fn lemma_allocated_region_disjoint(before: Slab, after: Slab, fresh: Region, held: Region)
    requires
        region_stripes(fresh, before.stripe_size()).subset_of(before.free_stripes()),
        after.free_stripes() == before.free_stripes().difference(region_stripes(fresh, before.stripe_size())),
        region_stripes(held, before.stripe_size()).disjoint(before.free_stripes()),
    ensures
        region_stripes(fresh, before.stripe_size()).disjoint(region_stripes(held, before.stripe_size())),
        region_stripes(fresh, before.stripe_size()).disjoint(after.free_stripes()),
        region_stripes(held, before.stripe_size()).disjoint(after.free_stripes()),
{
}

/// Number of free stripes, counted span by span.
pub open spec fn free_count(spans: Seq<Span>) -> int
    decreases spans.len(),
{
    if spans.len() == 0 {
        0
    } else {
        free_count(spans.drop_last()) + spans.last().stripes
    }
}

/// The stripes that the regions occupy.
pub open spec fn held_stripes(live: Seq<Region>, s: int) -> Set<int>
    decreases live.len(),
{
    if live.len() == 0 {
        Set::empty()
    } else {
        held_stripes(live.drop_last(), s) + region_stripes(live.last(), s)
    }
}

/// Number of stripes of the regions, counted region by region.
pub open spec fn held_count(live: Seq<Region>, s: int) -> int
    decreases live.len(),
{
    if live.len() == 0 {
        0
    } else {
        held_count(live.drop_last(), s) + live.last().len as int / s
    }
}

/// Total length in bytes of the regions.
pub open spec fn held_bytes(live: Seq<Region>) -> int
    decreases live.len(),
{
    if live.len() == 0 {
        0
    } else {
        held_bytes(live.drop_last()) + live.last().len
    }
}

proof fn lemma_free_count_is_size(spans: Seq<Span>, total: int)
    requires
        spans_wf(spans, total),
    ensures
        Set::new(|x: int| covers(spans, x)).finite(),
        Set::new(|x: int| covers(spans, x)).len() == free_count(spans),
    decreases spans.len(),
{
    let all = Set::new(|x: int| covers(spans, x));
    if spans.len() == 0 {
        assert(all =~= Set::empty());
    } else {
        let init = spans.drop_last();
        let last = spans.last();
        assert forall|i: int, j: int| 0 <= i < j < init.len()
            implies span_end(#[trigger] init[i]) < (#[trigger] init[j]).first by {
            assert(init[i] == spans[i] && init[j] == spans[j]);
        }
        assert forall|k: int| 0 <= k < init.len() implies #[trigger] init[k].stripes > 0
            && span_end(init[k]) <= total by {
            assert(init[k] == spans[k]);
        }
        lemma_free_count_is_size(init, total);
        let head = Set::new(|x: int| covers(init, x));
        let tail = vstd::set_lib::set_int_range(last.first as int, span_end(last));
        vstd::set_lib::lemma_int_range(last.first as int, span_end(last));
        assert forall|x: int| all.contains(x) == (head + tail).contains(x) by {
            if covers(spans, x) {
                let k = choose|k: int| 0 <= k < spans.len() && #[trigger] in_span(spans[k], x);
                if k < init.len() {
                    assert(in_span(init[k], x));
                }
            }
            if covers(init, x) {
                let k = choose|k: int| 0 <= k < init.len() && #[trigger] in_span(init[k], x);
                assert(in_span(spans[k], x));
            }
            if tail.contains(x) {
                assert(in_span(spans[spans.len() - 1], x));
            }
        }
        assert(all =~= head + tail);
        assert(head.disjoint(tail)) by {
            assert forall|x: int| head.contains(x) implies !tail.contains(x) by {
                let k = choose|k: int| 0 <= k < init.len() && #[trigger] in_span(init[k], x);
                assert(span_end(spans[k]) < spans[spans.len() - 1].first);
                assert(in_span(spans[k], x));
            }
        }
        vstd::set_lib::lemma_set_disjoint_lens(head, tail);
    }
}

proof fn lemma_held_stripes_members(live: Seq<Region>, s: int, x: int)
    ensures
        held_stripes(live, s).contains(x) <==> exists|i: int|
            0 <= i < live.len() && #[trigger] region_stripes(live[i], s).contains(x),
    decreases live.len(),
{
    if live.len() > 0 {
        let init = live.drop_last();
        lemma_held_stripes_members(init, s, x);
        if held_stripes(live, s).contains(x) {
            if held_stripes(init, s).contains(x) {
                let i = choose|i: int| 0 <= i < init.len() && #[trigger] region_stripes(init[i], s).contains(x);
                assert(region_stripes(live[i], s).contains(x));
            } else {
                assert(region_stripes(live[live.len() - 1], s).contains(x));
            }
        }
        if exists|i: int| 0 <= i < live.len() && #[trigger] region_stripes(live[i], s).contains(x) {
            let i = choose|i: int| 0 <= i < live.len() && #[trigger] region_stripes(live[i], s).contains(x);
            if i < init.len() {
                assert(region_stripes(init[i], s).contains(x));
            }
        }
    }
}

proof fn lemma_held_count_is_size(live: Seq<Region>, s: int)
    requires
        s > 0,
        forall|i: int, j: int|
            0 <= i < j < live.len() ==> region_stripes(#[trigger] live[i], s).disjoint(
                region_stripes(#[trigger] live[j], s),
            ),
    ensures
        held_stripes(live, s).finite(),
        held_stripes(live, s).len() == held_count(live, s),
    decreases live.len(),
{
    if live.len() > 0 {
        let init = live.drop_last();
        let last = live.last();
        assert forall|i: int, j: int| 0 <= i < j < init.len()
            implies region_stripes(#[trigger] init[i], s).disjoint(region_stripes(#[trigger] init[j], s)) by {
            assert(init[i] == live[i] && init[j] == live[j]);
        }
        lemma_held_count_is_size(init, s);
        let lo = last.offset as int / s;
        let n = last.len as int / s;
        vstd::arithmetic::div_mod::lemma_div_pos_is_pos(last.len as int, s);
        vstd::set_lib::lemma_int_range(lo, lo + n);
        assert(region_stripes(last, s) =~= vstd::set_lib::set_int_range(lo, lo + n));
        assert(held_stripes(init, s).disjoint(region_stripes(last, s))) by {
            assert forall|x: int| held_stripes(init, s).contains(x) implies !region_stripes(last, s).contains(x) by {
                lemma_held_stripes_members(init, s, x);
                let i = choose|i: int| 0 <= i < init.len() && #[trigger] region_stripes(init[i], s).contains(x);
                assert(init[i] == live[i]);
                assert(region_stripes(live[i], s).disjoint(region_stripes(live[live.len() - 1], s)));
            }
        }
        vstd::set_lib::lemma_set_disjoint_lens(held_stripes(init, s), region_stripes(last, s));
    }
}

proof fn lemma_held_bytes(live: Seq<Region>, s: int)
    requires
        s > 0,
        forall|i: int| 0 <= i < live.len() ==> (#[trigger] live[i]).len as int % s == 0,
    ensures
        held_bytes(live) == s * held_count(live, s),
    decreases live.len(),
{
    if live.len() > 0 {
        let init = live.drop_last();
        assert forall|i: int| 0 <= i < init.len() implies (#[trigger] init[i]).len as int % s == 0 by {
            assert(init[i] == live[i]);
        }
        lemma_held_bytes(init, s);
        let len = live.last().len as int;
        assert(live[live.len() - 1].len as int % s == 0);
        vstd::arithmetic::div_mod::lemma_fundamental_div_mod(len, s);
        let a = held_count(init, s);
        assert(s * (a + len / s) == s * a + s * (len / s)) by (nonlinear_arith);
    }
}

/// The free stripes and the stripes of the live regions split the slab's
/// stripes: they cover all of them, and no stripe is in two places.
pub open spec fn partitions(free: Set<int>, live: Seq<Region>, s: int, total: int) -> bool {
    &&& forall|i: int, j: int|
        0 <= i < j < live.len() ==> region_stripes(#[trigger] live[i], s).disjoint(
            region_stripes(#[trigger] live[j], s),
        )
    &&& forall|i: int| 0 <= i < live.len() ==> region_stripes(#[trigger] live[i], s).disjoint(free)
    &&& free + held_stripes(live, s) == Set::new(|x: int| 0 <= x < total)
}

/// Every stripe of a slab is free or held by exactly one live region: then
/// the bytes of the free spans and the bytes of the live regions add up to
/// the usable part of the slab, its whole stripes.
pub proof fn lemma_bytes_accounted(slab: Slab, live: Seq<Region>)
    requires
        slab.wf(),
        forall|i: int| 0 <= i < live.len() ==> (#[trigger] live[i]).len as int % slab.stripe_size() == 0,
        partitions(slab.free_stripes(), live, slab.stripe_size(), slab.total_stripes()),
    ensures
        free_count(slab.spans()) * slab.stripe_size() + held_bytes(live) == slab.total_stripes()
            * slab.stripe_size(),
{
    let s = slab.stripe_size();
    let free = slab.free_stripes();
    let held = held_stripes(live, s);
    lemma_free_count_is_size(slab.spans(), slab.total_stripes());
    assert(free =~= Set::new(|x: int| covers(slab.spans(), x)));
    lemma_held_count_is_size(live, s);
    lemma_held_bytes(live, s);
    assert(free.disjoint(held)) by {
        assert forall|x: int| held.contains(x) implies !free.contains(x) by {
            lemma_held_stripes_members(live, s, x);
            let i = choose|i: int| 0 <= i < live.len() && #[trigger] region_stripes(live[i], s).contains(x);
            assert(region_stripes(live[i], s).disjoint(free));
        }
    }
    vstd::set_lib::lemma_set_disjoint_lens(free, held);
    vstd::set_lib::lemma_int_range(0, slab.total_stripes());
    assert(Set::new(|x: int| 0 <= x < slab.total_stripes()) =~= vstd::set_lib::set_int_range(0, slab.total_stripes()));
    let f = free_count(slab.spans());
    let h = held_count(live, s);
    assert(f * s + s * h == (f + h) * s) by (nonlinear_arith);
}

/// Allocating keeps the split: the new region joins the live ones.
pub proof fn lemma_allocate_keeps_partition(before: Slab, after: Slab, live: Seq<Region>, fresh: Region)
    requires
        partitions(before.free_stripes(), live, before.stripe_size(), before.total_stripes()),
        region_stripes(fresh, before.stripe_size()).subset_of(before.free_stripes()),
        after.free_stripes() == before.free_stripes().difference(region_stripes(fresh, before.stripe_size())),
    ensures
        partitions(after.free_stripes(), live.push(fresh), before.stripe_size(), before.total_stripes()),
{
    let s = before.stripe_size();
    let l2 = live.push(fresh);
    assert(l2.drop_last() =~= live);
    assert forall|i: int, j: int| 0 <= i < j < l2.len() implies region_stripes(#[trigger] l2[i], s).disjoint(
        region_stripes(#[trigger] l2[j], s),
    ) by {
        if j == live.len() {
            assert(l2[i] == live[i]);
            assert(region_stripes(live[i], s).disjoint(before.free_stripes()));
        } else {
            assert(l2[i] == live[i] && l2[j] == live[j]);
        }
    }
    assert forall|i: int| 0 <= i < l2.len() implies region_stripes(#[trigger] l2[i], s).disjoint(
        after.free_stripes(),
    ) by {
        if i < live.len() {
            assert(l2[i] == live[i]);
        }
    }
    assert(after.free_stripes() + held_stripes(l2, s) =~= before.free_stripes() + held_stripes(live, s));
}

/// Freeing a live region keeps the split: the region leaves the live ones.
pub proof fn lemma_free_keeps_partition(before: Slab, after: Slab, live: Seq<Region>, i: int)
    requires
        0 <= i < live.len(),
        partitions(before.free_stripes(), live, before.stripe_size(), before.total_stripes()),
        after.free_stripes() == before.free_stripes().union(region_stripes(live[i], before.stripe_size())),
    ensures
        partitions(after.free_stripes(), live.remove(i), before.stripe_size(), before.total_stripes()),
{
    let s = before.stripe_size();
    let l2 = live.remove(i);
    assert forall|a: int, b: int| 0 <= a < b < l2.len() implies region_stripes(#[trigger] l2[a], s).disjoint(
        region_stripes(#[trigger] l2[b], s),
    ) by {
        let oa = if a < i { a } else { a + 1 };
        let ob = if b < i { b } else { b + 1 };
        assert(l2[a] == live[oa] && l2[b] == live[ob]);
    }
    assert forall|a: int| 0 <= a < l2.len() implies region_stripes(#[trigger] l2[a], s).disjoint(
        after.free_stripes(),
    ) by {
        let oa = if a < i { a } else { a + 1 };
        assert(l2[a] == live[oa]);
        assert(region_stripes(live[oa], s).disjoint(before.free_stripes()));
        let (lo, hi) = if oa < i { (oa, i) } else { (i, oa) };
        assert(region_stripes(live[lo], s).disjoint(region_stripes(live[hi], s)));
    }
    assert forall|x: int| (after.free_stripes() + held_stripes(l2, s)).contains(x)
        == (before.free_stripes() + held_stripes(live, s)).contains(x) by {
        lemma_held_stripes_members(l2, s, x);
        lemma_held_stripes_members(live, s, x);
        if held_stripes(live, s).contains(x) && !region_stripes(live[i], s).contains(x) {
            let k = choose|k: int| 0 <= k < live.len() && #[trigger] region_stripes(live[k], s).contains(x);
            let nk = if k < i { k } else { k - 1 };
            assert(l2[nk] == live[k]);
            assert(region_stripes(l2[nk], s).contains(x));
        }
        if held_stripes(l2, s).contains(x) {
            let k = choose|k: int| 0 <= k < l2.len() && #[trigger] region_stripes(l2[k], s).contains(x);
            let ok = if k < i { k } else { k + 1 };
            assert(l2[k] == live[ok]);
            assert(region_stripes(live[ok], s).contains(x));
        }
        if region_stripes(live[i], s).contains(x) {
            assert(held_stripes(live, s).contains(x));
        }
    }
    assert(after.free_stripes() + held_stripes(l2, s) =~= before.free_stripes() + held_stripes(live, s));
}

/// Joins span `index` with the next one when that starts at `new_end`, where
/// span `index` ends.
fn merge_next_span_if_possible(spans: &mut Vec<Span>, index: usize, new_end: usize, total: Ghost<int>)
    requires
        index < old(spans).len(),
        new_end == span_end(old(spans)[index as int]),
        spans_wf_but_one(old(spans)@, total@, index as int),
        total@ <= usize::MAX,
    ensures
        spans_wf(final(spans)@, total@),
        forall|x: int| covers(final(spans)@, x) == covers(old(spans)@, x),
{
    let ghost old_spans = spans@;
    if index + 1 < spans.len() {
        let next = spans[index + 1];
        if next.first == new_end {
            let cur = spans[index];
            spans.set(index, Span { first: cur.first, stripes: cur.stripes + next.stripes });
            spans.remove(index + 1);
            proof {
                let new_spans = spans@;
                assert forall|x: int| covers(new_spans, x) == covers(old_spans, x) by {
                    if covers(new_spans, x) {
                        let k = choose|k: int| 0 <= k < new_spans.len() && #[trigger] in_span(new_spans[k], x);
                        if k < index {
                            assert(in_span(old_spans[k], x));
                        } else if k > index {
                            assert(in_span(old_spans[k + 1], x));
                        } else if x < new_end {
                            assert(in_span(old_spans[k], x));
                        } else {
                            assert(in_span(old_spans[k + 1], x));
                        }
                    }
                    if covers(old_spans, x) {
                        let k = choose|k: int| 0 <= k < old_spans.len() && #[trigger] in_span(old_spans[k], x);
                        if k <= index {
                            assert(in_span(new_spans[k], x));
                        } else if k == index + 1 {
                            assert(in_span(new_spans[index as int], x));
                        } else {
                            assert(in_span(new_spans[k - 1], x));
                        }
                    }
                }
                assert forall|a: int, b: int| 0 <= a < b < new_spans.len()
                    implies span_end(#[trigger] new_spans[a]) < (#[trigger] new_spans[b]).first by {
                    let oa = if a <= index { a } else { a + 1 };
                    let ob = if b <= index { b } else { b + 1 };
                    if a == index {
                        assert(span_end(old_spans[index + 1]) < old_spans[ob].first || ob == index + 1);
                    }
                    assert(new_spans[b] == old_spans[ob] || b == index);
                }
            }
            return;
        }
    }
}

} // verus!
