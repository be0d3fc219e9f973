use vstd::prelude::*;

use crate::history::{
    accepts, current, saved, value_at, versions_increase, Entry, History, StoreError,
};
use crate::order::{addr_lt, lemma_lt_irreflexive, lemma_lt_total, lemma_lt_transitive, seq_lt};

verus! {

/// A key with its history.
pub type Row = (Seq<char>, Seq<Entry>);

/// Keys strictly increase along the rows, so each key has one row.
pub open spec fn keys_sorted(s: Seq<Row>) -> bool {
    forall|i: int, j: int| 0 <= i < j < s.len() ==> seq_lt(s[i].0, s[j].0)
}

pub open spec fn histories_ordered(s: Seq<Row>) -> bool {
    forall|i: int| 0 <= i < s.len() ==> versions_increase(#[trigger] s[i].1)
}

pub open spec fn has_key(s: Seq<Row>, k: Seq<char>) -> bool {
    exists|i: int| 0 <= i < s.len() && s[i].0 == k
}

pub open spec fn key_pos(s: Seq<Row>, k: Seq<char>) -> int {
    choose|i: int| 0 <= i < s.len() && s[i].0 == k
}

/// The history kept for key `k`; empty when it was never written.
pub open spec fn history_of(s: Seq<Row>, k: Seq<char>) -> Seq<Entry> {
    if has_key(s, k) {
        s[key_pos(s, k)].1
    } else {
        Seq::empty()
    }
}

/// A weight counts as zero when absent.
pub open spec fn weight(x: Option<u64>) -> int {
    match x {
        Some(w) => w as int,
        None => 0,
    }
}

/// The sum of the current values of all keys.
pub open spec fn live_total(s: Seq<Row>) -> int
    decreases s.len(),
{
    if s.len() == 0 {
        0
    } else {
        live_total(s.drop_last()) + weight(current(s.last().1))
    }
}

pub open spec fn after(start: Option<Seq<char>>, k: Seq<char>) -> bool {
    match start {
        None => true,
        Some(a) => seq_lt(a, k),
    }
}

/// The keys with a current value, above `start`, with that value, in key order.
pub open spec fn live_after(s: Seq<Row>, start: Option<Seq<char>>) -> Seq<(Seq<char>, u64)>
    decreases s.len(),
{
    if s.len() == 0 {
        Seq::empty()
    } else {
        let rest = live_after(s.drop_last(), start);
        match current(s.last().1) {
            Some(w) => if after(start, s.last().0) {
                rest.push((s.last().0, w))
            } else {
                rest
            },
            None => rest,
        }
    }
}

/// At most the first `n` items of `s`.
pub open spec fn first_n<T>(s: Seq<T>, n: nat) -> Seq<T> {
    if n < s.len() {
        s.take(n as int)
    } else {
        s
    }
}

pub open spec fn pairs_view(r: Seq<(String, u64)>) -> Seq<(Seq<char>, u64)> {
    r.map_values(|p: (String, u64)| (p.0@, p.1))
}

pub open spec fn opt_view(o: Option<String>) -> Option<Seq<char>> {
    match o {
        Some(s) => Some(s@),
        None => None,
    }
}

pub open spec fn is_prefix<T>(a: Seq<T>, b: Seq<T>) -> bool {
    a.len() <= b.len() && forall|j: int| 0 <= j < a.len() ==> a[j] == b[j]
}

/// Versioned values by address: each key keeps its full history of writes.
pub struct SnapshotMap {
    keys: Vec<String>,
    hists: Vec<History>,
}

impl View for SnapshotMap {
    type V = Seq<Row>;

    closed spec fn view(&self) -> Seq<Row> {
        Seq::new(self.keys@.len(), |i: int| (self.keys@[i]@, self.hists@[i]@))
    }
}

proof fn lemma_index(s: Seq<Row>, i: int, k: Seq<char>)
    requires
        keys_sorted(s),
        0 <= i < s.len(),
        s[i].0 == k,
    ensures
        history_of(s, k) == s[i].1,
{
    assert(has_key(s, k));
    let j = key_pos(s, k);
    assert(0 <= j < s.len() && s[j].0 == k);
    if j < i {
        assert(seq_lt(s[j].0, s[i].0));
        lemma_lt_irreflexive(k);
    } else if j > i {
        assert(seq_lt(s[i].0, s[j].0));
        lemma_lt_irreflexive(k);
    }
}

proof fn lemma_row_le_total(s: Seq<Row>, i: int)
    requires
        0 <= i < s.len(),
    ensures
        weight(current(s[i].1)) <= live_total(s),
    decreases s.len(),
{
    if i < s.len() - 1 {
        lemma_row_le_total(s.drop_last(), i);
    }
    lemma_total_nonneg(s.drop_last());
}

proof fn lemma_total_nonneg(s: Seq<Row>)
    ensures
        live_total(s) >= 0,
    decreases s.len(),
{
    if s.len() > 0 {
        lemma_total_nonneg(s.drop_last());
    }
}

/// No key weighs more than the total.
pub proof fn lemma_weight_le_total(s: Seq<Row>, k: Seq<char>)
    ensures
        weight(current(history_of(s, k))) <= live_total(s),
{
    lemma_total_nonneg(s);
    if has_key(s, k) {
        lemma_row_le_total(s, key_pos(s, k));
    }
}

proof fn lemma_total_update(s: Seq<Row>, i: int, row: Row)
    requires
        0 <= i < s.len(),
    ensures
        live_total(s.update(i, row)) == live_total(s) - weight(current(s[i].1)) + weight(
            current(row.1),
        ),
    decreases s.len(),
{
    let t = s.update(i, row);
    if i == s.len() - 1 {
        assert(t.drop_last() =~= s.drop_last());
    } else {
        assert(t.drop_last() =~= s.drop_last().update(i, row));
        lemma_total_update(s.drop_last(), i, row);
    }
}

proof fn lemma_total_insert(s: Seq<Row>, i: int, row: Row)
    requires
        0 <= i <= s.len(),
    ensures
        live_total(s.insert(i, row)) == live_total(s) + weight(current(row.1)),
    decreases s.len(),
{
    let t = s.insert(i, row);
    if i == s.len() {
        assert(t.drop_last() =~= s);
    } else {
        assert(t.drop_last() =~= s.drop_last().insert(i, row));
        lemma_total_insert(s.drop_last(), i, row);
    }
}

proof fn lemma_total_prefix(s: Seq<Row>, n: int)
    requires
        0 <= n <= s.len(),
    ensures
        live_total(s.take(n)) <= live_total(s),
    decreases s.len(),
{
    if n < s.len() {
        assert(s.take(n) =~= s.drop_last().take(n));
        lemma_total_prefix(s.drop_last(), n);
    } else {
        assert(s.take(n) =~= s);
    }
}

proof fn lemma_live_prefix(s: Seq<Row>, n: int, start: Option<Seq<char>>)
    requires
        0 <= n <= s.len(),
    ensures
        is_prefix(live_after(s.take(n), start), live_after(s, start)),
    decreases s.len(),
{
    if n < s.len() {
        assert(s.take(n) =~= s.drop_last().take(n));
        lemma_live_prefix(s.drop_last(), n, start);
    } else {
        assert(s.take(n) =~= s);
    }
}

/// With keys in ascending order, the live listing above `start` is strictly
/// ascending, holds each key above `start` that has a current value, with that
/// value, and nothing else.
pub proof fn lemma_live_after(s: Seq<Row>, start: Option<Seq<char>>)
    requires
        keys_sorted(s),
    ensures
        forall|i: int, j: int|
            0 <= i < j < live_after(s, start).len() ==> seq_lt(
                live_after(s, start)[i].0,
                live_after(s, start)[j].0,
            ),
        forall|i: int|
            0 <= i < live_after(s, start).len() ==> after(start, #[trigger] live_after(s, start)[i].0)
                && has_key(s, live_after(s, start)[i].0) && current(
                history_of(s, live_after(s, start)[i].0),
            ) == Some(live_after(s, start)[i].1),
        forall|k: Seq<char>|
            has_key(s, k) && after(start, k) && #[trigger] current(history_of(s, k)) is Some ==> exists|i: int|
                0 <= i < live_after(s, start).len() && live_after(s, start)[i].0 == k,
    decreases s.len(),
{
    if s.len() > 0 {
        let p = s.drop_last();
        let n = s.len() - 1;
        assert(keys_sorted(p));
        lemma_live_after(p, start);
        let lp = live_after(p, start);
        let l = live_after(s, start);
        assert forall|i: int| 0 <= i < lp.len() implies has_key(s, #[trigger] lp[i].0) && history_of(s, lp[i].0)
            == history_of(p, lp[i].0) && exists|a: int| 0 <= a < n && s[a].0 == lp[i].0 by {
            let a = key_pos(p, lp[i].0);
            lemma_index(p, a, lp[i].0);
            lemma_index(s, a, lp[i].0);
        }
        lemma_index(s, n, s[n].0);
        assert forall|i: int| 0 <= i < lp.len() implies seq_lt(#[trigger] lp[i].0, s[n].0) by {
            let a = choose|a: int| 0 <= a < n && s[a].0 == lp[i].0;
            assert(seq_lt(s[a].0, s[n].0));
        }
        assert forall|k: Seq<char>|
            has_key(s, k) && after(start, k) && #[trigger] current(history_of(s, k)) is Some implies exists|i: int|
                0 <= i < l.len() && l[i].0 == k by {
            if k == s[n].0 {
                assert(l[l.len() - 1].0 == k);
            } else {
                let a = key_pos(s, k);
                lemma_index(s, a, k);
                assert(p[a].0 == k);
                lemma_index(p, a, k);
                assert(has_key(p, k));
                let i = choose|i: int| 0 <= i < lp.len() && lp[i].0 == k;
                assert(l[i] == lp[i]);
            }
        }
    }
}

impl SnapshotMap {
    pub closed spec fn wf(&self) -> bool {
        &&& self.keys@.len() == self.hists@.len()
        &&& keys_sorted(self@)
        &&& histories_ordered(self@)
    }

    /// What well-formedness gives a caller: keys in ascending order, each once,
    /// and versions ascending within each history.
    pub proof fn lemma_wf(&self)
        requires
            self.wf(),
        ensures
            keys_sorted(self@),
            histories_ordered(self@),
    {
    }

    /// A map in which no key was ever written.
    pub fn new() -> (r: SnapshotMap)
        ensures
            r.wf(),
            r@ == Seq::<Row>::empty(),
    {
        let r = SnapshotMap { keys: Vec::new(), hists: Vec::new() };
        assert(r@ =~= Seq::<Row>::empty());
        r
    }

    /// A copy of this map with all its histories.
    pub fn duplicate(&self) -> (r: SnapshotMap)
        requires
            self.wf(),
        ensures
            r.wf(),
            r@ == self@,
    {
        let mut keys: Vec<String> = Vec::new();
        let mut hists: Vec<History> = Vec::new();
        let mut i: usize = 0;
        while i < self.keys.len()
            invariant
                self.wf(),
                i <= self.keys@.len(),
                keys@.len() == i,
                hists@.len() == i,
                forall|j: int| 0 <= j < i ==> (#[trigger] keys@[j])@ == self.keys@[j]@,
                forall|j: int| 0 <= j < i ==> (#[trigger] hists@[j])@ == self.hists@[j]@,
            decreases self.keys@.len() - i,
        {
            keys.push(self.keys[i].clone());
            hists.push(self.hists[i].duplicate());
            i = i + 1;
        }
        let r = SnapshotMap { keys, hists };
        assert(r@ =~= self@);
        r
    }

    /// Where `key` stands: its row, or where its row would be inserted.
    fn find(&self, key: &String) -> (r: (usize, bool))
        requires
            self.wf(),
        ensures
            r.0 <= self@.len(),
            r.1 ==> r.0 < self@.len() && self@[r.0 as int].0 == key@,
            !r.1 ==> forall|i: int| 0 <= i < r.0 ==> seq_lt(#[trigger] self@[i].0, key@),
            !r.1 ==> forall|i: int| r.0 <= i < self@.len() ==> seq_lt(key@, #[trigger] self@[i].0),
    {
        let n = self.keys.len();
        let mut i: usize = 0;
        while i < n && addr_lt(&self.keys[i], key)
            invariant
                self.wf(),
                n == self@.len(),
                i <= n,
                forall|j: int| 0 <= j < i ==> seq_lt(#[trigger] self@[j].0, key@),
            decreases n - i,
        {
            i = i + 1;
        }
        if i < n && self.keys[i] == *key {
            (i, true)
        } else {
            proof {
                if i < n {
                    lemma_lt_total(key@, self@[i as int].0);
                    assert forall|j: int| i <= j < n implies seq_lt(key@, #[trigger] self@[j].0) by {
                        if j > i {
                            lemma_lt_transitive(key@, self@[i as int].0, self@[j].0);
                        }
                    }
                }
            }
            (i, false)
        }
    }

    /// The current value of `key`.
    pub fn may_load(&self, key: &String) -> (r: Option<u64>)
        requires
            self.wf(),
        ensures
            r == current(history_of(self@, key@)),
    {
        let (i, found) = self.find(key);
        if found {
            proof {
                lemma_index(self@, i as int, key@);
            }
            self.hists[i].load()
        } else {
            proof {
                lemma_lt_irreflexive(key@);
            }
            None
        }
    }

    /// The value of `key` as of version `v`.
    pub fn may_load_at(&self, key: &String, v: u64) -> (r: Option<u64>)
        requires
            self.wf(),
        ensures
            r == value_at(history_of(self@, key@), v),
    {
        let (i, found) = self.find(key);
        if found {
            proof {
                lemma_index(self@, i as int, key@);
            }
            self.hists[i].load_at(v)
        } else {
            proof {
                lemma_lt_irreflexive(key@);
            }
            None
        }
    }
    /// Writes `x` for `key` at version `v` (`None` removes it from that version on).
    /// Refused when a later version was written for that key.
    pub fn save(&mut self, key: &String, v: u64, x: Option<u64>) -> (r: Result<(), StoreError>)
        requires
            old(self).wf(),
        ensures
            final(self).wf(),
            r is Ok <==> accepts(history_of(old(self)@, key@), v),
            r is Err ==> final(self)@ == old(self)@ && r == Err::<(), StoreError>(
                StoreError::OrderingViolation,
            ),
            r is Ok ==> forall|k: Seq<char>|
                #![trigger history_of(final(self)@, k)]
                history_of(final(self)@, k) == if k == key@ {
                    saved(history_of(old(self)@, k), v, x)
                } else {
                    history_of(old(self)@, k)
                },
            r is Ok ==> live_total(final(self)@) + weight(current(history_of(old(self)@, key@)))
                == live_total(old(self)@) + weight(x),
    {
        let ghost s = self@;
        let (i, found) = self.find(key);
        if found {
            proof {
                lemma_index(s, i as int, key@);
            }
            let res = self.hists[i as usize].save(v, x);
            match res {
                Ok(()) => {
                    proof {
                        let row = (key@, saved(s[i as int].1, v, x));
                        assert(self@ =~= s.update(i as int, row));
                        lemma_total_update(s, i as int, row);
                        assert forall|k: Seq<char>|
                            #![trigger history_of(self@, k)]
                            history_of(self@, k) == if k == key@ {
                                saved(history_of(s, k), v, x)
                            } else {
                                history_of(s, k)
                            } by {
                            if k == key@ {
                                lemma_index(self@, i as int, k);
                            } else if has_key(s, k) {
                                let j = key_pos(s, k);
                                lemma_index(s, j, k);
                                lemma_index(self@, j, k);
                            } else {
                                assert(!has_key(self@, k));
                            }
                        }
                    }
                    Ok(())
                },
                Err(e) => {
                    proof {
                        assert(self@ =~= s);
                    }
                    Err(e)
                },
            }
        } else {
            let mut h = History::new();
            let _ = h.save(v, x);
            self.keys.insert(i, key.clone());
            self.hists.insert(i, h);
            proof {
                let row = (key@, seq![(v, x)]);
                assert(self@ =~= s.insert(i as int, row));
                lemma_lt_irreflexive(key@);
                assert(!has_key(s, key@));
                assert(history_of(s, key@) =~= Seq::<Entry>::empty());
                assert(saved(Seq::<Entry>::empty(), v, x) =~= seq![(v, x)]);
                lemma_total_insert(s, i as int, row);
                assert forall|a: int, b: int| 0 <= a < b < self@.len() implies seq_lt(
                    self@[a].0,
                    self@[b].0,
                ) by {
                    if b < i {
                    } else if a < i && b == i {
                    } else if a < i {
                        assert(seq_lt(s[a].0, s[b - 1].0));
                    } else if a == i {
                    } else {
                        assert(seq_lt(s[a - 1].0, s[b - 1].0));
                    }
                }
                assert forall|a: int| 0 <= a < self@.len() implies versions_increase(
                    #[trigger] self@[a].1,
                ) by {
                    if a < i {
                        assert(versions_increase(s[a].1));
                    } else if a > i {
                        assert(versions_increase(s[a - 1].1));
                    }
                }
                assert forall|k: Seq<char>|
                    #![trigger history_of(self@, k)]
                    history_of(self@, k) == if k == key@ {
                        saved(history_of(s, k), v, x)
                    } else {
                        history_of(s, k)
                    } by {
                    if k == key@ {
                        lemma_index(self@, i as int, k);
                    } else if has_key(s, k) {
                        let j = key_pos(s, k);
                        lemma_index(s, j, k);
                        if j < i {
                            lemma_index(self@, j, k);
                        } else {
                            lemma_index(self@, j + 1, k);
                        }
                    } else {
                        if has_key(self@, k) {
                            let j = key_pos(self@, k);
                            if j < i {
                                assert(s[j].0 == k);
                            } else if j > i {
                                assert(s[j - 1].0 == k);
                            }
                        }
                    }
                }
            }
            Ok(())
        }
    }

    /// Marks `key` absent from version `v` on; reads as of earlier versions are unaffected.
    pub fn remove(&mut self, key: &String, v: u64) -> (r: Result<(), StoreError>)
        requires
            old(self).wf(),
        ensures
            final(self).wf(),
            r is Ok <==> accepts(history_of(old(self)@, key@), v),
            r is Err ==> final(self)@ == old(self)@,
            r is Ok ==> forall|k: Seq<char>|
                #![trigger history_of(final(self)@, k)]
                history_of(final(self)@, k) == if k == key@ {
                    saved(history_of(old(self)@, k), v, None)
                } else {
                    history_of(old(self)@, k)
                },
    {
        self.save(key, v, None)
    }

    /// Up to `limit` keys with a current value, above `start_after` when given,
    /// in ascending order, each with its current value.
    pub fn range(&self, start_after: &Option<String>, limit: usize) -> (r: Vec<(String, u64)>)
        requires
            self.wf(),
        ensures
            pairs_view(r@) == first_n(live_after(self@, opt_view(*start_after)), limit as nat),
    {
        let ghost start = opt_view(*start_after);
        let n = self.keys.len();
        let mut out: Vec<(String, u64)> = Vec::new();
        let mut i: usize = 0;
        proof {
            assert(pairs_view(out@) =~= live_after(self@.take(0), start));
        }
        while i < n && out.len() < limit
            invariant
                self.wf(),
                n == self@.len(),
                i <= n,
                out@.len() <= limit,
                pairs_view(out@) == live_after(self@.take(i as int), start),
                start == opt_view(*start_after),
            decreases n - i,
        {
            proof {
                assert(self@.take(i + 1).drop_last() =~= self@.take(i as int));
            }
            let cur = self.hists[i].load();
            match cur {
                Some(w) => {
                    let keep = match start_after {
                        None => true,
                        Some(a) => addr_lt(a, &self.keys[i]),
                    };
                    if keep {
                        let k = self.keys[i].clone();
                        let ghost before = out@;
                        out.push((k, w));
                        proof {
                            assert(pairs_view(out@) =~= pairs_view(before).push((self@[i as int].0, w)));
                        }
                    }
                },
                None => {},
            }
            i = i + 1;
        }
        proof {
            lemma_live_prefix(self@, i as int, start);
            if i == n {
                assert(self@.take(i as int) =~= self@);
            }
            let full = live_after(self@, start);
            if out@.len() == limit && (limit as nat) < full.len() {
                assert(pairs_view(out@) =~= full.take(limit as int));
            } else if out@.len() == limit {
                assert(pairs_view(out@) =~= full);
            }
        }
        out
    }

    /// The sum of all current values, or `None` when it does not fit in `u64`.
    pub fn live_sum(&self) -> (r: Option<u64>)
        requires
            self.wf(),
        ensures
            match r {
                Some(t) => t == live_total(self@),
                None => live_total(self@) > u64::MAX,
            },
    {
        let n = self.keys.len();
        let mut t: u64 = 0;
        let mut i: usize = 0;
        proof {
            assert(self@.take(0) =~= Seq::<Row>::empty());
        }
        while i < n
            invariant
                self.wf(),
                n == self@.len(),
                i <= n,
                t == live_total(self@.take(i as int)),
            decreases n - i,
        {
            proof {
                assert(self@.take(i + 1).drop_last() =~= self@.take(i as int));
            }
            let w = match self.hists[i].load() {
                Some(w) => w,
                None => 0,
            };
            match t.checked_add(w) {
                Some(s) => {
                    t = s;
                },
                None => {
                    proof {
                        lemma_total_prefix(self@, i + 1);
                    }
                    return None;
                },
            }
            i = i + 1;
        }
        proof {
            assert(self@.take(n as int) =~= self@);
        }
        Some(t)
    }
}

} // verus!
