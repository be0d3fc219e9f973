use vstd::prelude::*;

verus! {

/// One write: the version it was made at and the value written (`None` marks a removal).
pub type Entry = (u64, Option<u64>);

/// Why a write was refused.
#[derive(Debug, Clone, Copy, PartialEq, Eq, Structural)]
pub enum StoreError {
    /// The version is older than the latest one written.
    OrderingViolation,
}

/// Versions strictly increase along a history.
pub open spec fn versions_increase(h: Seq<Entry>) -> bool {
    forall|i: int, j: int| 0 <= i < j < h.len() ==> h[i].0 < h[j].0
}

/// The value as of version `v`: that of the latest write made at or before `v`.
pub open spec fn value_at(h: Seq<Entry>, v: u64) -> Option<u64>
    decreases h.len(),
{
    if h.len() == 0 {
        None
    } else if h.last().0 <= v {
        h.last().1
    } else {
        value_at(h.drop_last(), v)
    }
}

/// The value now: that of the latest write.
pub open spec fn current(h: Seq<Entry>) -> Option<u64> {
    if h.len() == 0 {
        None
    } else {
        h.last().1
    }
}

/// A write at `v` is accepted when no later version has been written.
pub open spec fn accepts(h: Seq<Entry>, v: u64) -> bool {
    h.len() == 0 || h.last().0 <= v
}

/// The history after writing `x` at `v`; a write at the latest version replaces it.
pub open spec fn saved(h: Seq<Entry>, v: u64, x: Option<u64>) -> Seq<Entry> {
    if h.len() > 0 && h.last().0 == v {
        h.drop_last().push((v, x))
    } else {
        h.push((v, x))
    }
}

/// The history of one versioned value.
pub struct History {
    entries: Vec<Entry>,
}

impl View for History {
    type V = Seq<Entry>;

    closed spec fn view(&self) -> Seq<Entry> {
        self.entries@
    }
}

impl History {
    /// An empty history: no value at any version.
    pub fn new() -> (r: History)
        ensures
            r@ == Seq::<Entry>::empty(),
    {
        History { entries: Vec::new() }
    }

    /// The latest value.
    pub fn load(&self) -> (r: Option<u64>)
        ensures
            r == current(self@),
    {
        let n = self.entries.len();
        if n == 0 {
            None
        } else {
            self.entries[n - 1].1
        }
    }

    /// The latest version written, if any.
    pub fn latest_version(&self) -> (r: Option<u64>)
        ensures
            r == (if self@.len() == 0 {
                None
            } else {
                Some(self@.last().0)
            }),
    {
        let n = self.entries.len();
        if n == 0 {
            None
        } else {
            Some(self.entries[n - 1].0)
        }
    }

    /// The value as of version `v`.
    pub fn load_at(&self, v: u64) -> (r: Option<u64>)
        ensures
            r == value_at(self@, v),
    {
        let mut n = self.entries.len();
        proof {
            assert(self@.take(n as int) =~= self@);
        }
        while n > 0
            invariant
                n <= self@.len(),
                value_at(self@, v) == value_at(self@.take(n as int), v),
            decreases n,
        {
            proof {
                assert(self@.take(n as int).drop_last() =~= self@.take(n - 1));
            }
            if self.entries[n - 1].0 <= v {
                return self.entries[n - 1].1;
            }
            n = n - 1;
        }
        None
    }

    /// Writes `x` at version `v`, refused when a later version has been written.
    pub fn save(&mut self, v: u64, x: Option<u64>) -> (r: Result<(), StoreError>)
        requires
            versions_increase(old(self)@),
        ensures
            versions_increase(final(self)@),
            r is Ok <==> accepts(old(self)@, v),
            r is Ok ==> final(self)@ == saved(old(self)@, v, x),
            r is Err ==> final(self)@ == old(self)@ && r == Err::<(), StoreError>(
                StoreError::OrderingViolation,
            ),
    {
        let n = self.entries.len();
        if n > 0 && self.entries[n - 1].0 > v {
            return Err(StoreError::OrderingViolation);
        }
        if n > 0 && self.entries[n - 1].0 == v {
            self.entries.pop();
        }
        self.entries.push((v, x));
        Ok(())
    }

    /// A copy of this history.
    pub fn duplicate(&self) -> (r: History)
        ensures
            r@ == self@,
    {
        let mut entries: Vec<Entry> = Vec::new();
        let mut i: usize = 0;
        while i < self.entries.len()
            invariant
                i <= self@.len(),
                entries@ == self@.take(i as int),
            decreases self@.len() - i,
        {
            entries.push(self.entries[i]);
            i = i + 1;
            assert(entries@ =~= self@.take(i as int));
        }
        assert(entries@ =~= self@);
        History { entries }
    }
}

/// Writing twice at the same version keeps the second value only.
pub proof fn lemma_write_twice(h: Seq<Entry>, v: u64, x: Option<u64>, y: Option<u64>)
    requires
        accepts(h, v),
    ensures
        accepts(saved(h, v, x), v),
        saved(saved(h, v, x), v, y) == saved(h, v, y),
{
    assert(saved(h, v, x).drop_last() =~= if h.len() > 0 && h.last().0 == v { h.drop_last() } else { h });
}

/// What a history says as of `v` is the value of the latest write at or before `v`,
/// and nothing when every write came after `v`.
pub proof fn lemma_as_of(h: Seq<Entry>, v: u64, i: int)
    requires
        versions_increase(h),
        0 <= i < h.len(),
        h[i].0 <= v,
        i + 1 == h.len() || h[i + 1].0 > v,
    ensures
        value_at(h, v) == h[i].1,
    decreases h.len(),
{
    if i + 1 < h.len() {
        lemma_as_of(h.drop_last(), v, i);
    }
}

/// Before the first write nothing is there.
pub proof fn lemma_before_first(h: Seq<Entry>, v: u64)
    requires
        versions_increase(h),
        h.len() == 0 || v < h[0].0,
    ensures
        value_at(h, v) == None::<u64>,
    decreases h.len(),
{
    if h.len() > 0 {
        lemma_before_first(h.drop_last(), v);
    }
}

/// A write at `w` changes nothing that is read as of an earlier version.
pub proof fn lemma_write_keeps_past(h: Seq<Entry>, w: u64, x: Option<u64>, v: u64)
    requires
        versions_increase(h),
        accepts(h, w),
        v < w,
    ensures
        value_at(saved(h, w, x), v) == value_at(h, v),
{
    let s = saved(h, w, x);
    assert(s.drop_last() =~= if h.len() > 0 && h.last().0 == w { h.drop_last() } else { h });
    if h.len() > 0 && h.last().0 == w {
        assert(value_at(h, v) == value_at(h.drop_last(), v));
    }
}

/// A write at `w` is what is read as of `w` and every later version.
pub proof fn lemma_write_seen_after(h: Seq<Entry>, w: u64, x: Option<u64>, v: u64)
    requires
        accepts(h, w),
        w <= v,
    ensures
        value_at(saved(h, w, x), v) == x,
        current(saved(h, w, x)) == x,
{
}

} // verus!
