//! The computation context of one sample.
//!
//! A solid derives many scalars from the sample point, and several branches of its
//! combinator tree may ask for the same one. Each derived scalar has an accessor,
//! identified by a key. The accessors of a solid form a graph without cycles: an
//! accessor may need the values of accessors declared before it, and of no others. A
//! context is made for one sample and caches each value the first time it is stored, in
//! a cell that can be written once; nothing is computed twice and nothing is replaced.

use once_cell::unsync::OnceCell;
use vstd::prelude::*;

verus! {

/// `once_cell::unsync::OnceCell`: a cell that is empty or holds one value for good.
#[verifier::external_type_specification]
#[verifier::external_body]
#[verifier::reject_recursive_types(T)]
pub struct ExOnceCell<T>(OnceCell<T>);

/// What a cell holds: `None` while it is empty.
pub uninterp spec fn cell_value(cell: OnceCell<i64>) -> Option<i64>;

/// `OnceCell::new`, which creates an empty cell.
#[verifier::external_body]
fn cell_new() -> (cell: OnceCell<i64>)
    ensures
        cell_value(cell) == None::<i64>,
{
    OnceCell::new()
}

/// `OnceCell::get`, which returns the value of the cell, or `None` if the cell is empty.
#[verifier::external_body]
fn cell_get(cell: &OnceCell<i64>) -> (value: Option<i64>)
    ensures
        value == cell_value(*cell),
{
    cell.get().copied()
}

/// `OnceCell::set`, which fills an empty cell and returns `Ok`, and leaves a full cell
/// as it is and returns `Err`. The result says whether the cell was filled.
#[verifier::external_body]
fn cell_set(cell: &mut OnceCell<i64>, value: i64) -> (stored: bool)
    ensures
        stored == (cell_value(*old(cell)) is None),
        cell_value(*final(cell)) == if stored {
            Some(value)
        } else {
            cell_value(*old(cell))
        },
{
    cell.set(value).is_ok()
}

/// Every accessor needs only accessors with a smaller key.
pub open spec fn acyclic(g: Seq<Seq<usize>>) -> bool {
    forall|k: int, j: int| 0 <= k < g.len() && 0 <= j < g[k].len() ==> #[trigger] g[k][j] < k
}

/// The accessor `from` cannot be evaluated without the accessor `to`: `to` is `from`
/// itself, or one that `from` needs, directly or through others.
pub open spec fn reaches(g: Seq<Seq<usize>>, from: int, to: int) -> bool
    decreases from,
{
    from == to || (0 <= from < g.len() && exists|j: int|
        0 <= j < g[from].len() && (#[trigger] g[from][j]) < from && reaches(
            g,
            g[from][j] as int,
            to,
        ))
}

/// Every accessor that `key` needs directly has its value in `cache`.
pub open spec fn ready(g: Seq<Seq<usize>>, cache: Seq<Option<i64>>, key: int) -> bool {
    forall|j: int| 0 <= j < g[key].len() ==> (#[trigger] cache[g[key][j] as int]) is Some
}

/// The place in `needs`, at or after `from`, of the first accessor without a value in
/// `cache`; the length of `needs` if every one of them has its value.
pub open spec fn first_missing(needs: Seq<usize>, cache: Seq<Option<i64>>, from: int) -> int
    decreases needs.len() - from,
{
    if from >= needs.len() {
        needs.len() as int
    } else if cache[needs[from] as int] is None {
        from
    } else {
        first_missing(needs, cache, from + 1)
    }
}

/// The accessor to evaluate next on the way to a value for `key`: `key` itself if all
/// it needs is there; otherwise what comes next on the way to the first accessor that
/// `key` needs and that has no value.
pub open spec fn next_on_the_way(g: Seq<Seq<usize>>, cache: Seq<Option<i64>>, key: int) -> int
    decreases key,
{
    let j = first_missing(g[key], cache, 0);
    if 0 <= key < g.len() && 0 <= j < g[key].len() && g[key][j] < key {
        next_on_the_way(g, cache, g[key][j] as int)
    } else {
        key
    }
}

/// The number of accessors without a value among the first `upto`.
pub open spec fn missing(cache: Seq<Option<i64>>, upto: int) -> nat
    decreases upto,
{
    if upto <= 0 {
        0
    } else {
        missing(cache, upto - 1) + if cache[upto - 1] is None {
            1nat
        } else {
            0nat
        }
    }
}

/// The cache after a value for `key` was stored: an empty place takes the value, a
/// filled one keeps what it has.
pub open spec fn stored(cache: Seq<Option<i64>>, key: int, value: i64) -> Seq<Option<i64>> {
    if cache[key] is None {
        cache.update(key, Some(value))
    } else {
        cache
    }
}

/// `after` holds every value that `before` holds.
pub open spec fn extends(before: Seq<Option<i64>>, after: Seq<Option<i64>>) -> bool {
    &&& after.len() == before.len()
    &&& forall|k: int| 0 <= k < before.len() && (#[trigger] before[k]) is Some ==> after[k] == before[k]
}

/// A value is stored once: after the first store for a key the cache holds a value
/// for it, and no later store for that key changes the cache.
pub proof fn lemma_write_once(cache: Seq<Option<i64>>, key: int, first: i64, second: i64)
    requires
        0 <= key < cache.len(),
    ensures
        stored(cache, key, first)[key] is Some,
        cache[key] is None ==> stored(cache, key, first)[key] == Some(first),
        stored(stored(cache, key, first), key, second) == stored(cache, key, first),
        extends(cache, stored(cache, key, first)),
{
}

/// Whatever is stored in between, a value that was read once is read again unchanged.
pub proof fn lemma_reads_agree(
    first: Seq<Option<i64>>,
    second: Seq<Option<i64>>,
    third: Seq<Option<i64>>,
    key: int,
)
    requires
        0 <= key < first.len(),
        first[key] is Some,
        extends(first, second),
        extends(second, third),
    ensures
        second[key] == first[key],
        third[key] == first[key],
        extends(first, third),
{
}

/// What one accessor needs carries over to what it reaches.
pub proof fn lemma_reaches_next(g: Seq<Seq<usize>>, from: int, mid: int, j: int)
    requires
        reaches(g, from, mid),
        0 <= mid < g.len(),
        0 <= j < g[mid].len(),
        g[mid][j] < mid,
    ensures
        reaches(g, from, g[mid][j] as int),
    decreases from,
{
    let d = g[mid][j] as int;
    if from == mid {
        assert(reaches(g, d, d));
    } else {
        let i = choose|i: int|
            0 <= i < g[from].len() && (#[trigger] g[from][i]) < from && reaches(
                g,
                g[from][i] as int,
                mid,
            );
        lemma_reaches_next(g, g[from][i] as int, mid, j);
    }
}

/// Filling an empty place of the cache leaves one value fewer missing.
pub proof fn lemma_missing_after_store(cache: Seq<Option<i64>>, key: int, value: i64, upto: int)
    requires
        0 <= key < cache.len(),
        cache[key] is None,
        0 <= upto <= cache.len(),
    ensures
        missing(cache.update(key, Some(value)), upto) == if key < upto {
            (missing(cache, upto) - 1) as nat
        } else {
            missing(cache, upto)
        },
        key < upto ==> missing(cache, upto) >= 1,
    decreases upto,
{
    if upto > 0 {
        lemma_missing_after_store(cache, key, value, upto - 1);
    }
}

/// The accessors of a solid: for each key, the keys whose values it needs.
#[derive(Debug, Clone, PartialEq, Eq)]
pub struct Accessors {
    needs: Vec<Vec<usize>>,
}

impl View for Accessors {
    type V = Seq<Seq<usize>>;

    closed spec fn view(&self) -> Seq<Seq<usize>> {
        Seq::new(self.needs@.len(), |k: int| self.needs@[k]@)
    }
}

impl Accessors {
    /// No accessors yet.
    pub fn new() -> (a: Accessors)
        ensures
            a@.len() == 0,
            acyclic(a@),
    {
        Accessors { needs: Vec::new() }
    }

    /// The number of accessors.
    pub fn len(&self) -> (n: usize)
        ensures
            n == self@.len(),
    {
        self.needs.len()
    }

    /// Declares an accessor that needs the values of the accessors `needs`, and returns
    /// its key. An accessor that names a key not declared before it is refused, so no
    /// cycle can be built.
    pub fn declare(&mut self, needs: Vec<usize>) -> (key: Option<usize>)
        ensures
            key is Some <==> forall|j: int| 0 <= j < needs@.len() ==> needs@[j] < old(self)@.len(),
            key is Some ==> key == Some(old(self)@.len() as usize) && final(self)@ == old(self)@.push(
                needs@,
            ),
            key is None ==> final(self)@ == old(self)@,
            acyclic(old(self)@) ==> acyclic(final(self)@),
    {
        let n = self.needs.len();
        let mut j: usize = 0;
        while j < needs.len()
            invariant
                0 <= j <= needs@.len(),
                n == self.needs@.len(),
                *self == *old(self),
                forall|i: int| 0 <= i < j ==> needs@[i] < n,
            decreases needs@.len() - j,
        {
            if needs[j] >= n {
                return None;
            }
            j = j + 1;
        }
        let ghost before = self@;
        self.needs.push(needs);
        proof {
            assert(self@ =~= before.push(needs@));
        }
        Some(n)
    }

    /// The keys that the accessor `key` needs directly.
    pub fn needs_of(&self, key: usize) -> (needs: &Vec<usize>)
        requires
            key < self@.len(),
        ensures
            needs@ == self@[key as int],
    {
        &self.needs[key]
    }
}

/// What the host has to do next to learn the value of an accessor.
#[derive(Debug, Clone, Copy, PartialEq, Eq)]
pub enum Step {
    /// The value is there.
    Ready(i64),
    /// The accessor with this key has to be evaluated and its value stored.
    Compute(usize),
}

/// The context of one sample: the sample point, the configuration of the solid, and the
/// values derived so far.
pub struct ComputationContext<'a, C> {
    cfg: &'a C,
    accessors: &'a Accessors,
    x: i64,
    y: i64,
    z: i64,
    slots: Vec<OnceCell<i64>>,
}

impl<'a, C> ComputationContext<'a, C> {
    /// The values derived so far, by key: `None` for an accessor not yet evaluated.
    pub closed spec fn cache(&self) -> Seq<Option<i64>> {
        Seq::new(self.slots@.len(), |k: int| cell_value(self.slots@[k]))
    }

    /// The accessors of the solid.
    pub closed spec fn graph(&self) -> Seq<Seq<usize>> {
        self.accessors@
    }

    /// The sample point.
    pub closed spec fn point(&self) -> (i64, i64, i64) {
        (self.x, self.y, self.z)
    }

    /// The configuration of the solid.
    pub closed spec fn config(&self) -> &'a C {
        self.cfg
    }

    /// The context has one place for each accessor, no accessor needs a later one, and
    /// no value is there before the values it was derived from.
    pub open spec fn wf(&self) -> bool {
        &&& self.cache().len() == self.graph().len()
        &&& acyclic(self.graph())
        &&& forall|k: int|
            0 <= k < self.cache().len() && (#[trigger] self.cache()[k]) is Some ==> ready(
                self.graph(),
                self.cache(),
                k,
            )
    }

    /// A fresh context for the sample point `(x, y, z)`: nothing is derived yet.
    pub fn new(cfg: &'a C, accessors: &'a Accessors, x: i64, y: i64, z: i64) -> (ctx: Self)
        requires
            acyclic(accessors@),
        ensures
            ctx.wf(),
            ctx.graph() == accessors@,
            ctx.point() == (x, y, z),
            ctx.config() == cfg,
            forall|k: int| 0 <= k < ctx.cache().len() ==> ctx.cache()[k] is None,
    {
        let n = accessors.len();
        let mut slots: Vec<OnceCell<i64>> = Vec::new();
        let mut i: usize = 0;
        while i < n
            invariant
                0 <= i <= n,
                slots@.len() == i,
                forall|k: int| 0 <= k < i ==> cell_value(#[trigger] slots@[k]) is None,
            decreases n - i,
        {
            slots.push(cell_new());
            i = i + 1;
        }
        ComputationContext { cfg, accessors, x, y, z, slots }
    }

    /// The first coordinate of the sample point.
    pub fn x(&self) -> (v: i64)
        ensures
            v == self.point().0,
    {
        self.x
    }

    /// The second coordinate of the sample point.
    pub fn y(&self) -> (v: i64)
        ensures
            v == self.point().1,
    {
        self.y
    }

    /// The third coordinate of the sample point.
    pub fn z(&self) -> (v: i64)
        ensures
            v == self.point().2,
    {
        self.z
    }

    /// The configuration of the solid.
    pub fn cfg(&self) -> (c: &'a C)
        ensures
            c == self.config(),
    {
        self.cfg
    }

    /// The number of accessors.
    pub fn len(&self) -> (n: usize)
        requires
            self.wf(),
        ensures
            n == self.cache().len(),
    {
        self.slots.len()
    }

    /// The value of the accessor `key`, if it was stored; `None` also for a key that no
    /// accessor has.
    pub fn cached(&self, key: usize) -> (value: Option<i64>)
        ensures
            value == if key < self.cache().len() {
                self.cache()[key as int]
            } else {
                None
            },
    {
        if key < self.slots.len() {
            cell_get(&self.slots[key])
        } else {
            None
        }
    }

    /// Whether every accessor that `key` needs directly has its value.
    pub fn is_ready(&self, key: usize) -> (ok: bool)
        requires
            self.wf(),
            key < self.cache().len(),
        ensures
            ok == ready(self.graph(), self.cache(), key as int),
    {
        let needs = self.accessors.needs_of(key);
        let j = self.first_missing_need(key);
        proof {
            if j < needs@.len() {
                assert(self.cache()[needs@[j as int] as int] is None);
            }
        }
        j >= needs.len()
    }

    /// The place, among the needs of `key`, of the first accessor without a value.
    fn first_missing_need(&self, key: usize) -> (j: usize)
        requires
            self.wf(),
            key < self.cache().len(),
        ensures
            j == first_missing(self.graph()[key as int], self.cache(), 0),
            j <= self.graph()[key as int].len(),
            j < self.graph()[key as int].len() ==> self.cache()[self.graph()[key as int][j as int] as int] is None,
            forall|i: int| 0 <= i < j ==> (#[trigger] self.cache()[self.graph()[key as int][i] as int]) is Some,
    {
        let needs = self.accessors.needs_of(key);
        let mut j: usize = 0;
        while j < needs.len()
            invariant
                self.wf(),
                key < self.cache().len(),
                needs@ == self.graph()[key as int],
                0 <= j <= needs@.len(),
                first_missing(needs@, self.cache(), 0) == first_missing(needs@, self.cache(), j as int),
                forall|i: int| 0 <= i < j ==> (#[trigger] self.cache()[needs@[i] as int]) is Some,
            decreases needs@.len() - j,
        {
            let d = needs[j];
            if cell_get(&self.slots[d]).is_none() {
                return j;
            }
            j = j + 1;
        }
        j
    }

    /// Stores the value of the accessor `key` and returns the value that the context
    /// holds for it from now on: `value`, unless a value was stored before, which then
    /// stays.
    pub fn store(&mut self, key: usize, value: i64) -> (kept: i64)
        requires
            old(self).wf(),
            key < old(self).cache().len(),
            ready(old(self).graph(), old(self).cache(), key as int),
        ensures
            final(self).wf(),
            final(self).graph() == old(self).graph(),
            final(self).point() == old(self).point(),
            final(self).config() == old(self).config(),
            final(self).cache() == stored(old(self).cache(), key as int, value),
            final(self).cache()[key as int] == Some(kept),
    {
        let ghost before = self.cache();
        if cell_set(&mut self.slots[key], value) {
            proof {
                assert(self.cache() =~= before.update(key as int, Some(value)));
            }
            value
        } else {
            proof {
                assert(self.cache() =~= before);
            }
            match cell_get(&self.slots[key]) {
                Some(v) => v,
                None => value,
            }
        }
    }

    /// What to do next to learn the value of the accessor `key`: nothing if the value is
    /// there; otherwise to evaluate the accessor that `next_on_the_way` names. That one
    /// has no value yet, `key` cannot do without it, and all it needs is there.
    pub fn next_step(&self, key: usize) -> (step: Step)
        requires
            self.wf(),
            key < self.cache().len(),
        ensures
            match step {
                Step::Ready(v) => self.cache()[key as int] == Some(v),
                Step::Compute(k) => {
                    &&& self.cache()[key as int] is None
                    &&& k == next_on_the_way(self.graph(), self.cache(), key as int)
                    &&& k < self.cache().len()
                    &&& self.cache()[k as int] is None
                    &&& reaches(self.graph(), key as int, k as int)
                    &&& ready(self.graph(), self.cache(), k as int)
                },
            },
    {
        match cell_get(&self.slots[key]) {
            Some(v) => Step::Ready(v),
            None => {
                let mut k: usize = key;
                loop
                    invariant
                        self.wf(),
                        key < self.cache().len(),
                        k <= key,
                        self.cache()[key as int] is None,
                        self.cache()[k as int] is None,
                        reaches(self.graph(), key as int, k as int),
                        next_on_the_way(self.graph(), self.cache(), key as int) == next_on_the_way(
                            self.graph(),
                            self.cache(),
                            k as int,
                        ),
                    decreases k,
                {
                    let needs = self.accessors.needs_of(k);
                    let j = self.first_missing_need(k);
                    if j >= needs.len() {
                        return Step::Compute(k);
                    }
                    proof {
                        lemma_reaches_next(self.graph(), key as int, k as int, j as int);
                    }
                    k = needs[j];
                }
            },
        }
    }

    /// `value` is what `eval` returned for `key` in a context for the same solid, sample
    /// point and configuration as `start` that held every value that `start` holds, all
    /// that `key` needs, and nothing for `key` itself.
    pub open spec fn evaluated<F: Fn(usize, &ComputationContext<'a, C>) -> i64>(
        eval: &F,
        key: usize,
        value: i64,
        start: ComputationContext<'a, C>,
    ) -> bool {
        exists|c: &ComputationContext<'a, C>|
            {
                &&& #[trigger] call_ensures(eval, (key, c), value)
                &&& c.wf()
                &&& c.graph() == start.graph()
                &&& c.point() == start.point()
                &&& c.config() == start.config()
                &&& extends(start.cache(), c.cache())
                &&& key < c.cache().len()
                &&& c.cache()[key as int] is None
                &&& ready(c.graph(), c.cache(), key as int)
            }
    }

    /// The value of the accessor `key`. A value that is there is returned as it is.
    /// Otherwise `eval` is called for each accessor that `key` cannot do without and
    /// that has no value yet, each after the ones it needs, and what it returns is
    /// stored. No value that was there is touched, and nothing that `key` can do without
    /// is evaluated.
    pub fn get<F: Fn(usize, &ComputationContext<'a, C>) -> i64>(&mut self, key: usize, eval: &F) -> (value: i64)
        requires
            old(self).wf(),
            key < old(self).cache().len(),
            forall|k: usize, ctx: &ComputationContext<'a, C>| call_requires(eval, (k, ctx)),
        ensures
            final(self).wf(),
            final(self).graph() == old(self).graph(),
            final(self).point() == old(self).point(),
            final(self).config() == old(self).config(),
            final(self).cache()[key as int] == Some(value),
            old(self).cache()[key as int] is Some ==> final(self).cache() == old(self).cache(),
            extends(old(self).cache(), final(self).cache()),
            forall|k: int|
                0 <= k < old(self).cache().len() && old(self).cache()[k] is None && (
                #[trigger] final(self).cache()[k]) is Some ==> reaches(
                    old(self).graph(),
                    key as int,
                    k,
                ) && Self::evaluated(eval, k as usize, final(self).cache()[k]->0, *old(self)),
    {
        loop
            invariant
                self.wf(),
                key < self.cache().len(),
                self.cache().len() == old(self).cache().len(),
                self.graph() == old(self).graph(),
                self.point() == old(self).point(),
                self.config() == old(self).config(),
                forall|k: usize, ctx: &ComputationContext<'a, C>| call_requires(eval, (k, ctx)),
                old(self).cache()[key as int] is Some ==> self.cache() == old(self).cache(),
                extends(old(self).cache(), self.cache()),
                forall|k: int|
                    0 <= k < old(self).cache().len() && old(self).cache()[k] is None && (
                    #[trigger] self.cache()[k]) is Some ==> reaches(
                        old(self).graph(),
                        key as int,
                        k,
                    ) && Self::evaluated(eval, k as usize, self.cache()[k]->0, *old(self)),
            decreases missing(self.cache(), self.cache().len() as int),
        {
            match self.next_step(key) {
                Step::Ready(v) => {
                    return v;
                },
                Step::Compute(k) => {
                    let v = eval(k, &*self);
                    proof {
                        lemma_missing_after_store(
                            self.cache(),
                            k as int,
                            v,
                            self.cache().len() as int,
                        );
                        assert(Self::evaluated(eval, k, v, *old(self))) by {
                            let c = &*self;
                            assert(call_ensures(eval, (k, c), v));
                        }
                    }
                    self.store(k, v);
                },
            }
        }
    }
}

} // verus!
