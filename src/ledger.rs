use vstd::prelude::*;

use crate::history::{
    accepts, current, lemma_write_twice, saved, versions_increase, Entry, History, StoreError,
};
use crate::snapshot_map::{history_of, lemma_weight_le_total, live_total, weight, Row, SnapshotMap};

verus! {

/// A member to write: its address, its weight and its identity string.
pub struct Member {
    pub addr: String,
    pub weight: u64,
    pub identity: String,
}

/// The change one transaction made to one member.
pub struct MemberDiff {
    pub key: String,
    pub old: Option<u64>,
    pub new: Option<u64>,
}

/// A change as values: address, weight before, weight after.
pub type DiffView = (Seq<char>, Option<u64>, Option<u64>);

pub open spec fn diffs_view(d: Seq<MemberDiff>) -> Seq<DiffView> {
    d.map_values(|x: MemberDiff| (x.key@, x.old, x.new))
}

pub open spec fn addrs_view(a: Seq<String>) -> Seq<Seq<char>> {
    a.map_values(|s: String| s@)
}

/// Why a transaction was refused.
#[derive(Debug, Clone, Copy, PartialEq, Eq, Structural)]
pub enum ContractError {
    /// The caller is not the current admin.
    Unauthorized,
    /// A write names a version older than one already recorded.
    OrderingViolation,
    /// A weight sum does not fit in `u64`.
    WeightOverflow,
    /// The total weight would exceed the maximum.
    MaxWeightExceeded,
    /// The total weight would fall below the minimum.
    MinWeightNotMet,
    /// The hook is already registered.
    HookAlreadyRegistered,
    /// The hook is not registered.
    HookNotRegistered,
}

impl ContractError {
    /// The transaction error for a refused write.
    pub fn from_store(e: StoreError) -> (r: ContractError)
        ensures
            r == ContractError::OrderingViolation,
    {
        match e {
            StoreError::OrderingViolation => ContractError::OrderingViolation,
        }
    }
}

/// The weight of the last add for `k`, if any.
pub open spec fn last_add(adds: Seq<Member>, k: Seq<char>) -> Option<u64>
    decreases adds.len(),
{
    if adds.len() == 0 {
        None
    } else if adds.last().addr@ == k {
        Some(adds.last().weight)
    } else {
        last_add(adds.drop_last(), k)
    }
}

/// The weight of `k` once `adds` are applied to `rows`.
pub open spec fn after_adds(rows: Seq<Row>, adds: Seq<Member>, k: Seq<char>) -> Option<u64> {
    match last_add(adds, k) {
        Some(w) => Some(w),
        None => current(history_of(rows, k)),
    }
}

/// Whether `k` is among `rm`.
pub open spec fn listed(rm: Seq<Seq<char>>, k: Seq<char>) -> bool
    decreases rm.len(),
{
    rm.len() > 0 && (rm.last() == k || listed(rm.drop_last(), k))
}

/// The weight of `k` once `adds` and then the removals `rm` are applied.
pub open spec fn final_value(rows: Seq<Row>, adds: Seq<Member>, rm: Seq<Seq<char>>, k: Seq<char>) -> Option<u64> {
    if listed(rm, k) {
        None
    } else {
        after_adds(rows, adds, k)
    }
}

/// Whether the transaction writes `k`: it is added, or removed while present.
pub open spec fn touched(rows: Seq<Row>, adds: Seq<Member>, rm: Seq<Seq<char>>, k: Seq<char>) -> bool {
    last_add(adds, k) is Some || (listed(rm, k) && after_adds(rows, adds, k) is Some)
}

/// The running total after each add, starting from the live total of `rows`.
pub open spec fn running(rows: Seq<Row>, adds: Seq<Member>) -> int
    decreases adds.len(),
{
    if adds.len() == 0 {
        live_total(rows)
    } else {
        running(rows, adds.drop_last()) - weight(after_adds(rows, adds.drop_last(), adds.last().addr@))
            + adds.last().weight
    }
}

/// Some running total during the adds exceeds `u64::MAX`.
pub open spec fn overflows(rows: Seq<Row>, adds: Seq<Member>) -> bool {
    exists|j: int| 0 < j <= adds.len() && #[trigger] running(rows, adds.take(j)) > u64::MAX
}

/// The diffs of the adds, in input order.
pub open spec fn add_diffs(rows: Seq<Row>, adds: Seq<Member>) -> Seq<DiffView>
    decreases adds.len(),
{
    if adds.len() == 0 {
        Seq::empty()
    } else {
        add_diffs(rows, adds.drop_last()).push(
            (
                adds.last().addr@,
                after_adds(rows, adds.drop_last(), adds.last().addr@),
                Some(adds.last().weight),
            ),
        )
    }
}

/// The diffs of the removals of members present at that point, in input order.
pub open spec fn remove_diffs(rows: Seq<Row>, adds: Seq<Member>, rm: Seq<Seq<char>>) -> Seq<DiffView>
    decreases rm.len(),
{
    if rm.len() == 0 {
        Seq::empty()
    } else {
        let rest = remove_diffs(rows, adds, rm.drop_last());
        match final_value(rows, adds, rm.drop_last(), rm.last()) {
            Some(w) => rest.push((rm.last(), Some(w), None)),
            None => rest,
        }
    }
}

/// The total weight that the removals take away.
pub open spec fn removed_weight(rows: Seq<Row>, adds: Seq<Member>, rm: Seq<Seq<char>>) -> int
    decreases rm.len(),
{
    if rm.len() == 0 {
        0
    } else {
        removed_weight(rows, adds, rm.drop_last()) + weight(
            final_value(rows, adds, rm.drop_last(), rm.last()),
        )
    }
}

/// The total once the whole transaction is applied.
pub open spec fn final_total(rows: Seq<Row>, adds: Seq<Member>, rm: Seq<Seq<char>>) -> int {
    running(rows, adds) - removed_weight(rows, adds, rm)
}

/// Every history that the transaction writes accepts version `v`.
pub open spec fn versions_fit(rows: Seq<Row>, total: Seq<Entry>, adds: Seq<Member>, rm: Seq<Seq<char>>, v: u64) -> bool {
    &&& accepts(total, v)
    &&& forall|k: Seq<char>| #[trigger] touched(rows, adds, rm, k) ==> accepts(history_of(rows, k), v)
}

/// The history of `k` after the transaction.
pub open spec fn new_history(rows: Seq<Row>, adds: Seq<Member>, rm: Seq<Seq<char>>, v: u64, k: Seq<char>) -> Seq<Entry> {
    if touched(rows, adds, rm, k) {
        saved(history_of(rows, k), v, final_value(rows, adds, rm, k))
    } else {
        history_of(rows, k)
    }
}

proof fn lemma_current_new(rows: Seq<Row>, adds: Seq<Member>, rm: Seq<Seq<char>>, v: u64, k: Seq<char>)
    ensures
        current(new_history(rows, adds, rm, v, k)) == final_value(rows, adds, rm, k),
{
}

proof fn lemma_last_add_some(adds: Seq<Member>, i: int)
    requires
        0 <= i < adds.len(),
    ensures
        last_add(adds, adds[i].addr@) is Some,
    decreases adds.len(),
{
    if i < adds.len() - 1 && adds.last().addr@ != adds[i].addr@ {
        lemma_last_add_some(adds.drop_last(), i);
    }
}

proof fn lemma_listed_prefix(rm: Seq<Seq<char>>, j: int, k: Seq<char>)
    requires
        0 <= j <= rm.len(),
        listed(rm.take(j), k),
    ensures
        listed(rm, k),
    decreases rm.len(),
{
    if j < rm.len() {
        assert(rm.take(j) =~= rm.drop_last().take(j));
        lemma_listed_prefix(rm.drop_last(), j, k);
    } else {
        assert(rm.take(j) =~= rm);
    }
}

/// Applies a batch to copies of the member map and of the total: each add in
/// input order, then each removal of a member present at that point, then the
/// new total. The originals are left as they are.
pub fn apply(
    members: &SnapshotMap,
    total: &History,
    current_total: u64,
    v: u64,
    adds: &Vec<Member>,
    removes: &Vec<String>,
) -> (r: Result<(SnapshotMap, History, Vec<MemberDiff>), ContractError>)
    requires
        members.wf(),
        versions_increase(total@),
        current_total == live_total(members@),
    ensures
        r is Ok <==> versions_fit(members@, total@, adds@, addrs_view(removes@), v) && !overflows(
            members@,
            adds@,
        ),
        r matches Err(e) ==> (e == ContractError::OrderingViolation && !versions_fit(
            members@,
            total@,
            adds@,
            addrs_view(removes@),
            v,
        )) || (e == ContractError::WeightOverflow && overflows(members@, adds@)),
        r matches Ok((m, t, d)) ==> {
            let rows = members@;
            let rm = addrs_view(removes@);
            &&& m.wf()
            &&& forall|k: Seq<char>| #[trigger]
                history_of(m@, k) == new_history(rows, adds@, rm, v, k)
            &&& live_total(m@) == final_total(rows, adds@, rm)
            &&& t@ == saved(total@, v, Some(final_total(rows, adds@, rm) as u64))
            &&& diffs_view(d@) == add_diffs(rows, adds@) + remove_diffs(rows, adds@, rm)
        },
{
    let ghost rows = members@;
    let ghost rm = addrs_view(removes@);
    let mut work = members.duplicate();
    let mut t: u64 = current_total;
    let mut diffs: Vec<MemberDiff> = Vec::new();
    let mut j: usize = 0;
    proof {
        assert(adds@.take(0) =~= Seq::<Member>::empty());
        assert(diffs_view(diffs@) =~= add_diffs(rows, adds@.take(0)));
    }
    while j < adds.len()
        invariant
            work.wf(),
            rows == members@,
            rm == addrs_view(removes@),
            j <= adds@.len(),
            t == live_total(work@),
            t == running(rows, adds@.take(j as int)),
            forall|i: int| 0 < i <= j ==> #[trigger] running(rows, adds@.take(i)) <= u64::MAX,
            forall|k: Seq<char>| #[trigger]
                history_of(work@, k) == match last_add(adds@.take(j as int), k) {
                    Some(w) => saved(history_of(rows, k), v, Some(w)),
                    None => history_of(rows, k),
                },
            forall|k: Seq<char>| (#[trigger] last_add(adds@.take(j as int), k)) is Some ==> accepts(
                history_of(rows, k),
                v,
            ),
            diffs_view(diffs@) == add_diffs(rows, adds@.take(j as int)),
        decreases adds@.len() - j,
    {
        let m = &adds[j];
        let ghost k = m.addr@;
        proof {
            assert(adds@.take(j + 1).drop_last() =~= adds@.take(j as int));
            assert(adds@.take(j + 1).last() == adds@[j as int]);
        }
        let old = work.may_load(&m.addr);
        let old_w: u64 = match old {
            Some(w) => w,
            None => 0,
        };
        proof {
            lemma_weight_le_total(work@, k);
            assert(old == after_adds(rows, adds@.take(j as int), k));
            assert(running(rows, adds@.take(j + 1)) == t - old_w + m.weight);
        }
        let t2 = match (t - old_w).checked_add(m.weight) {
            Some(s) => s,
            None => {
                proof {
                    assert(running(rows, adds@.take(j + 1)) > u64::MAX);
                }
                return Err(ContractError::WeightOverflow);
            },
        };
        match work.save(&m.addr, v, Some(m.weight)) {
            Ok(()) => {},
            Err(e) => {
                proof {
                    lemma_last_add_some(adds@, j as int);
                    if last_add(adds@.take(j as int), k) is Some {
                        assert(accepts(saved(history_of(rows, k), v, last_add(adds@.take(j as int), k)), v));
                    }
                    assert(touched(rows, adds@, rm, k));
                }
                return Err(ContractError::from_store(e));
            },
        }
        proof {
            if last_add(adds@.take(j as int), k) is Some {
                lemma_write_twice(history_of(rows, k), v, last_add(adds@.take(j as int), k), Some(m.weight));
            }
        }
        t = t2;
        diffs.push(MemberDiff { key: m.addr.clone(), old, new: Some(m.weight) });
        j = j + 1;
        proof {
            assert(diffs_view(diffs@) =~= add_diffs(rows, adds@.take(j as int)));
            assert forall|k2: Seq<char>| (#[trigger] last_add(adds@.take(j as int), k2)) is Some implies accepts(
                history_of(rows, k2),
                v,
            ) by {
                if k2 != k {
                    assert(last_add(adds@.take(j - 1), k2) is Some);
                }
            }
        }
    }
    proof {
        assert(adds@.take(j as int) =~= adds@);
        assert(rm.take(0) =~= Seq::<Seq<char>>::empty());
        assert forall|k: Seq<char>| #[trigger]
            history_of(work@, k) == new_history(rows, adds@, rm.take(0), v, k) by {
        }
        assert(diffs_view(diffs@) =~= add_diffs(rows, adds@) + remove_diffs(rows, adds@, rm.take(0)));
        assert(!overflows(rows, adds@));
    }
    let ghost t_adds = t as int;
    let mut q: usize = 0;
    while q < removes.len()
        invariant
            work.wf(),
            rows == members@,
            q <= removes@.len(),
            rm == addrs_view(removes@),
            t_adds == running(rows, adds@),
            !overflows(rows, adds@),
            t == live_total(work@),
            t == t_adds - removed_weight(rows, adds@, rm.take(q as int)),
            forall|k: Seq<char>| #[trigger]
                history_of(work@, k) == new_history(rows, adds@, rm.take(q as int), v, k),
            forall|k: Seq<char>| (#[trigger] last_add(adds@, k)) is Some ==> accepts(history_of(rows, k), v),
            forall|k: Seq<char>| #[trigger] touched(rows, adds@, rm.take(q as int), k) ==> accepts(
                history_of(rows, k),
                v,
            ),
            diffs_view(diffs@) == add_diffs(rows, adds@) + remove_diffs(rows, adds@, rm.take(q as int)),
        decreases removes@.len() - q,
    {
        let a = &removes[q];
        let ghost k = a@;
        let ghost pre = rm.take(q as int);
        proof {
            assert(rm.take(q + 1).drop_last() =~= pre);
            assert(rm.take(q + 1).last() == k);
        }
        let ghost before_d = diffs_view(diffs@);
        let old = work.may_load(a);
        proof {
            lemma_weight_le_total(work@, k);
            lemma_current_new(rows, adds@, pre, v, k);
            assert(old == final_value(rows, adds@, pre, k));
        }
        match old {
            Some(w) => {
                match work.save(a, v, None) {
                    Ok(()) => {},
                    Err(e) => {
                        proof {
                            assert(touched(rows, adds@, rm.take(q + 1), k));
                            lemma_listed_prefix(rm, q + 1, k);
                            if touched(rows, adds@, pre, k) {
                                lemma_write_twice(history_of(rows, k), v, final_value(rows, adds@, pre, k), None);
                            }
                            assert(touched(rows, adds@, rm, k));
                            assert(!versions_fit(rows, total@, adds@, rm, v));
                        }
                        return Err(ContractError::from_store(e));
                    },
                }
                proof {
                    if touched(rows, adds@, pre, k) {
                        lemma_write_twice(history_of(rows, k), v, final_value(rows, adds@, pre, k), None);
                    }
                }
                t = t - w;
                diffs.push(MemberDiff { key: a.clone(), old: Some(w), new: None });
                proof {
                    assert(diffs_view(diffs@) =~= before_d.push((k, Some(w), None)));
                }
            },
            None => {},
        }
        q = q + 1;
        proof {
            let now = rm.take(q as int);
            assert(now.drop_last() =~= pre);
            assert(now.last() == k);
            assert(diffs_view(diffs@) =~= add_diffs(rows, adds@) + remove_diffs(rows, adds@, now));
            assert forall|k2: Seq<char>| #[trigger]
                history_of(work@, k2) == new_history(rows, adds@, now, v, k2) by {
                if k2 != k {
                    assert(listed(now, k2) == listed(pre, k2));
                }
            }
            assert forall|k2: Seq<char>| #[trigger] touched(rows, adds@, now, k2) implies accepts(
                history_of(rows, k2),
                v,
            ) by {
                if k2 != k {
                    assert(listed(now, k2) == listed(pre, k2));
                    assert(touched(rows, adds@, pre, k2));
                }
            }
        }
    }
    proof {
        assert(rm.take(q as int) =~= rm);
    }
    let mut new_total = total.duplicate();
    match new_total.save(v, Some(t)) {
        Ok(()) => {},
        Err(e) => {
            return Err(ContractError::from_store(e));
        },
    }
    Ok((work, new_total, diffs))
}

} // verus!
