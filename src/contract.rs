use vstd::prelude::*;

use crate::history::{accepts, current, saved, value_at, versions_increase, Entry, History};
use crate::ledger::{
    DiffView, add_diffs, addrs_view, apply, diffs_view, final_total, new_history, overflows, remove_diffs,
    touched, versions_fit, ContractError, Member, MemberDiff,
};
use crate::order::seq_lt;
use crate::snapshot_map::{
    after, first_n, histories_ordered, lemma_live_after, history_of, keys_sorted, live_after, live_total, opt_view, pairs_view, Row,
    SnapshotMap,
};

verus! {

/// What a group holds, as values: admin, hooks in registration order, member
/// histories by address, identity writes in order, total history, bounds,
/// and whether removing a member also clears its identity.
pub type GroupView = (
    Option<Seq<char>>,
    Seq<Seq<char>>,
    Seq<Row>,
    Seq<(Seq<char>, Option<Seq<char>>)>,
    Seq<Entry>,
    u64,
    u64,
    bool,
);

/// The identity last written for `k`.
pub open spec fn identity_of(ids: Seq<(Seq<char>, Option<Seq<char>>)>, k: Seq<char>) -> Option<Seq<char>>
    decreases ids.len(),
{
    if ids.len() == 0 {
        None
    } else if ids.last().0 == k {
        ids.last().1
    } else {
        identity_of(ids.drop_last(), k)
    }
}

pub open spec fn identities_added(adds: Seq<Member>) -> Seq<(Seq<char>, Option<Seq<char>>)> {
    adds.map_values(|m: Member| (m.addr@, Some(m.identity@)))
}

pub open spec fn id_pairs(s: Seq<(String, Option<String>)>) -> Seq<(Seq<char>, Option<Seq<char>>)> {
    s.map_values(|p: (String, Option<String>)| (p.0@, opt_view(p.1)))
}

/// The identity writes after a transaction: each add writes its identity;
/// when `clear` holds, each removal then clears the removed member's identity.
pub open spec fn ids_after(
    ids: Seq<(Seq<char>, Option<Seq<char>>)>,
    adds: Seq<Member>,
    diffs: Seq<DiffView>,
    clear: bool,
) -> Seq<(Seq<char>, Option<Seq<char>>)> {
    if clear {
        ids + identities_added(adds) + identities_cleared(diffs)
    } else {
        ids + identities_added(adds)
    }
}

/// The identity clearings for the removals among `d`, in order.
pub open spec fn identities_cleared(d: Seq<DiffView>) -> Seq<(Seq<char>, Option<Seq<char>>)>
    decreases d.len(),
{
    if d.len() == 0 {
        Seq::empty()
    } else if d.last().2 is None {
        identities_cleared(d.drop_last()).push((d.last().0, None))
    } else {
        identities_cleared(d.drop_last())
    }
}

pub open spec fn is_admin(admin: Option<Seq<char>>, sender: Seq<char>) -> bool {
    admin == Some(sender)
}

/// The changes one membership transaction made, in the order they were made.
pub struct MemberChangedHookMsg {
    pub diffs: Vec<MemberDiff>,
}

/// A weighted membership roster whose every change is kept by version.
pub struct Group {
    admin: Option<String>,
    hooks: Vec<String>,
    members: SnapshotMap,
    identities: Vec<(String, Option<String>)>,
    total: History,
    min_weight: u64,
    max_weight: u64,
    clear_identities: bool,
}

pub open spec fn hooks_unique(h: Seq<Seq<char>>) -> bool {
    forall|i: int, j: int| 0 <= i < j < h.len() ==> h[i] != h[j]
}

impl View for Group {
    type V = GroupView;

    closed spec fn view(&self) -> GroupView {
        (
            opt_view(self.admin),
            self.hooks@.map_values(|h: String| h@),
            self.members@,
            id_pairs(self.identities@),
            self.total@,
            self.min_weight,
            self.max_weight,
            self.clear_identities,
        )
    }
}

impl Group {
    pub open spec fn admin_view(&self) -> Option<Seq<char>> {
        self@.0
    }

    pub open spec fn hooks_view(&self) -> Seq<Seq<char>> {
        self@.1
    }

    pub open spec fn rows(&self) -> Seq<Row> {
        self@.2
    }

    pub open spec fn ids(&self) -> Seq<(Seq<char>, Option<Seq<char>>)> {
        self@.3
    }

    pub open spec fn totals(&self) -> Seq<Entry> {
        self@.4
    }

    pub open spec fn min_w(&self) -> u64 {
        self@.5
    }

    pub open spec fn max_w(&self) -> u64 {
        self@.6
    }

    pub open spec fn clears_identities(&self) -> bool {
        self@.7
    }

    /// The stored total is the sum of the live weights and lies within the
    /// bounds; addresses are kept in ascending order, each once; no member
    /// history ends later than the total's.
    pub open spec fn consistent(&self) -> bool {
        &&& current(self.totals()) == Some(live_total(self.rows()) as u64)
        &&& self.min_w() <= live_total(self.rows()) <= self.max_w()
        &&& keys_sorted(self.rows())
        &&& histories_ordered(self.rows())
        &&& versions_bounded(self.rows(), self.totals())
    }

    pub closed spec fn wf(&self) -> bool {
        &&& self.members.wf()
        &&& versions_increase(self.total@)
        &&& self.consistent()
        &&& hooks_unique(self.hooks_view())
    }

    /// The stored total always equals the sum of all live member weights, that
    /// sum always lies within the configured bounds, addresses stay in ascending
    /// order, and no member history ends later than the total's.
    pub proof fn lemma_consistent(&self)
        requires
            self.wf(),
        ensures
            self.consistent(),
    {
    }
}

/// Checks that the sum of all live weights of `members` lies within `[min, max]`.
pub fn assert_weights(members: &SnapshotMap, min: u64, max: u64) -> (r: Result<u64, ContractError>)
    requires
        members.wf(),
    ensures
        r is Ok <==> min <= live_total(members@) <= max,
        r matches Ok(t) ==> t == live_total(members@),
        r == Err::<u64, ContractError>(ContractError::MaxWeightExceeded) <==> live_total(members@) > max,
        r == Err::<u64, ContractError>(ContractError::MinWeightNotMet) <==> live_total(members@) <= max
            && live_total(members@) < min,
{
    match members.live_sum() {
        None => Err(ContractError::MaxWeightExceeded),
        Some(t) => {
            if t > max {
                Err(ContractError::MaxWeightExceeded)
            } else if t < min {
                Err(ContractError::MinWeightNotMet)
            } else {
                Ok(t)
            }
        },
    }
}

/// No member history ends later than the total history.
pub open spec fn versions_bounded(rows: Seq<Row>, totals: Seq<Entry>) -> bool {
    forall|k: Seq<char>| #[trigger]
        history_of(rows, k).len() > 0 ==> totals.len() > 0 && history_of(rows, k).last().0 <= totals.last().0
}

/// The error a transaction on `rows` and `totals` ends with, in the order the
/// checks are made: a stale version, then an overflowing running total, then
/// a new total above the maximum, then one below the minimum. `None` when it
/// succeeds.
pub open spec fn expected_error(
    rows: Seq<Row>,
    totals: Seq<Entry>,
    adds: Seq<Member>,
    rm: Seq<Seq<char>>,
    v: u64,
    min: u64,
    max: u64,
) -> Option<ContractError> {
    if !accepts(totals, v) {
        Some(ContractError::OrderingViolation)
    } else if overflows(rows, adds) {
        Some(ContractError::WeightOverflow)
    } else if final_total(rows, adds, rm) > max {
        Some(ContractError::MaxWeightExceeded)
    } else if final_total(rows, adds, rm) < min {
        Some(ContractError::MinWeightNotMet)
    } else {
        None
    }
}

pub open spec fn err_of<T>(r: Result<T, ContractError>) -> Option<ContractError> {
    match r {
        Ok(_) => None,
        Err(e) => Some(e),
    }
}

/// What a membership transaction at `height` from `sender` does to a group
/// with view `o`, leaving view `n` and ending with error `err` (`None` for
/// success). On failure nothing changes.
pub open spec fn transaction_effect(
    o: GroupView,
    n: GroupView,
    height: u64,
    sender: Seq<char>,
    adds: Seq<Member>,
    rm: Seq<Seq<char>>,
    err: Option<ContractError>,
) -> bool {
    match err {
        Some(e) => n == o && if !is_admin(o.0, sender) {
            e == ContractError::Unauthorized
        } else {
            expected_error(o.2, o.4, adds, rm, height, o.5, o.6) == Some(e)
        },
        None => {
            &&& is_admin(o.0, sender)
            &&& expected_error(o.2, o.4, adds, rm, height, o.5, o.6) is None
            &&& rows_after(o.2, n.2, adds, rm, height)
            &&& n.4 == saved(o.4, height, Some(final_total(o.2, adds, rm) as u64))
            &&& n.3 == ids_after(o.3, adds, add_diffs(o.2, adds) + remove_diffs(o.2, adds, rm), o.7)
            &&& n.0 == o.0 && n.1 == o.1 && n.5 == o.5 && n.6 == o.6 && n.7 == o.7
        },
    }
}

/// What creating a group does: `members` written at `height` as one
/// transaction on an empty roster, kept only if it meets the bounds.
pub open spec fn create_effect(
    admin: Option<Seq<char>>,
    members: Seq<Member>,
    min: u64,
    max: u64,
    height: u64,
    clear: bool,
    r: Result<Group, ContractError>,
) -> bool {
    match r {
        Err(e) => expected_error(Seq::empty(), Seq::empty(), members, Seq::empty(), height, min, max) == Some(e),
        Ok(g) => {
            &&& expected_error(Seq::empty(), Seq::empty(), members, Seq::empty(), height, min, max) is None
            &&& g.wf()
            &&& g@.0 == admin
            &&& g@.1 == Seq::<Seq<char>>::empty()
            &&& rows_after(Seq::empty(), g@.2, members, Seq::empty(), height)
            &&& g@.3 == identities_added(members)
            &&& g@.4 == seq![(height, Some(final_total(Seq::empty(), members, Seq::empty()) as u64))]
            &&& g@.5 == min
            &&& g@.6 == max
            &&& g@.7 == clear
        },
    }
}

/// What an admin change does: only the admin may make it, and it changes
/// nothing else.
pub open spec fn admin_effect(o: GroupView, n: GroupView, sender: Seq<char>, admin: Option<Seq<char>>, err: Option<ContractError>) -> bool {
    match err {
        Some(e) => n == o && e == ContractError::Unauthorized && !is_admin(o.0, sender),
        None => is_admin(o.0, sender) && n == (admin, o.1, o.2, o.3, o.4, o.5, o.6, o.7),
    }
}

/// What registering hook `addr` does: only the admin may, only for a hook not
/// yet listed, and it appends the hook, changing nothing else.
pub open spec fn add_hook_effect(o: GroupView, n: GroupView, sender: Seq<char>, addr: Seq<char>, err: Option<ContractError>) -> bool {
    match err {
        Some(e) => n == o && if !is_admin(o.0, sender) {
            e == ContractError::Unauthorized
        } else {
            e == ContractError::HookAlreadyRegistered && o.1.contains(addr)
        },
        None => is_admin(o.0, sender) && !o.1.contains(addr) && n == (o.0, o.1.push(addr), o.2, o.3, o.4, o.5, o.6, o.7),
    }
}

/// What unregistering hook `addr` does: only the admin may, only for a listed
/// hook, and it takes that hook out, keeping the others in order.
pub open spec fn remove_hook_effect(o: GroupView, n: GroupView, sender: Seq<char>, addr: Seq<char>, err: Option<ContractError>) -> bool {
    match err {
        Some(e) => n == o && if !is_admin(o.0, sender) {
            e == ContractError::Unauthorized
        } else {
            e == ContractError::HookNotRegistered && !o.1.contains(addr)
        },
        None => is_admin(o.0, sender) && exists|i: int|
            0 <= i < o.1.len() && o.1[i] == addr && n == (o.0, o.1.remove(i), o.2, o.3, o.4, o.5, o.6, o.7),
    }
}

/// A stale version is refused by the total alone: every other history ends no later.
proof fn lemma_fit(rows: Seq<Row>, totals: Seq<Entry>, adds: Seq<Member>, rm: Seq<Seq<char>>, v: u64)
    requires
        versions_bounded(rows, totals),
        accepts(totals, v),
    ensures
        versions_fit(rows, totals, adds, rm, v),
{
    assert forall|k: Seq<char>| #[trigger] touched(rows, adds, rm, k) implies accepts(history_of(rows, k), v) by {
        if history_of(rows, k).len() > 0 {
        }
    }
}

/// After a transaction at `v`, no member history ends later than the total's.
proof fn lemma_bounded_after(
    rows: Seq<Row>,
    new_rows: Seq<Row>,
    totals: Seq<Entry>,
    adds: Seq<Member>,
    rm: Seq<Seq<char>>,
    v: u64,
    x: Option<u64>,
)
    requires
        versions_bounded(rows, totals),
        accepts(totals, v),
        rows_after(rows, new_rows, adds, rm, v),
    ensures
        versions_bounded(new_rows, saved(totals, v, x)),
{
    assert forall|k: Seq<char>| #[trigger] history_of(new_rows, k).len() > 0 implies saved(totals, v, x).len() > 0
        && history_of(new_rows, k).last().0 <= saved(totals, v, x).last().0 by {
        assert(history_of(new_rows, k) == new_history(rows, adds, rm, v, k));
        if history_of(rows, k).len() > 0 {
        }
    }
}

/// The member histories after a successful transaction.
pub open spec fn rows_after(old_rows: Seq<Row>, new_rows: Seq<Row>, adds: Seq<Member>, rm: Seq<Seq<char>>, v: u64) -> bool {
    forall|k: Seq<char>| #[trigger]
        history_of(new_rows, k) == new_history(old_rows, adds, rm, v, k)
}

fn identities_with(ids: &Vec<(String, Option<String>)>, adds: &Vec<Member>) -> (r: Vec<(String, Option<String>)>)
    ensures
        id_pairs(r@) == id_pairs(ids@) + identities_added(adds@),
{
    let mut out: Vec<(String, Option<String>)> = Vec::new();
    let mut i: usize = 0;
    let n = ids.len();
    while i < n
        invariant
            n == ids@.len(),
            i <= n,
            out@.len() == i,
            forall|k: int| 0 <= k < i ==> (#[trigger] out@[k]).0@ == ids@[k].0@ && opt_view(out@[k].1) == opt_view(ids@[k].1),
        decreases n - i,
    {
        let p = &ids[i];
        let id = match &p.1 {
            Some(x) => Some(x.clone()),
            None => None,
        };
        out.push((p.0.clone(), id));
        i = i + 1;
    }
    let mut j: usize = 0;
    while j < adds.len()
        invariant
            n == ids@.len(),
            j <= adds@.len(),
            out@.len() == n + j,
            forall|k: int| 0 <= k < n ==> (#[trigger] out@[k]).0@ == ids@[k].0@ && opt_view(out@[k].1) == opt_view(ids@[k].1),
            forall|k: int| 0 <= k < j ==> (#[trigger] out@[n + k]).0@ == adds@[k].addr@ && opt_view(out@[n + k].1) == Some(adds@[k].identity@),
        decreases adds@.len() - j,
    {
        let m = &adds[j];
        out.push((m.addr.clone(), Some(m.identity.clone())));
        j = j + 1;
    }
    assert(id_pairs(out@) =~= id_pairs(ids@) + identities_added(adds@)) by {
        assert forall|k: int| 0 <= k < out@.len() implies #[trigger] id_pairs(out@)[k] == (id_pairs(ids@) + identities_added(adds@))[k] by {
            if k >= n {
                assert(out@[n + (k - n)] == out@[k]);
            }
        }
    }
    out
}

fn clear_removed(ids: &mut Vec<(String, Option<String>)>, diffs: &Vec<MemberDiff>)
    ensures
        id_pairs(final(ids)@) == id_pairs(old(ids)@) + identities_cleared(diffs_view(diffs@)),
{
    let ghost start = id_pairs(ids@);
    let mut i: usize = 0;
    proof {
        assert(diffs_view(diffs@).take(0) =~= Seq::<DiffView>::empty());
        assert(id_pairs(ids@) =~= start + identities_cleared(diffs_view(diffs@).take(0)));
    }
    while i < diffs.len()
        invariant
            i <= diffs@.len(),
            id_pairs(ids@) == start + identities_cleared(diffs_view(diffs@).take(i as int)),
            start == id_pairs(old(ids)@),
        decreases diffs@.len() - i,
    {
        proof {
            assert(diffs_view(diffs@).take(i + 1).drop_last() =~= diffs_view(diffs@).take(i as int));
        }
        if diffs[i].new.is_none() {
            let ghost before = ids@;
            ids.push((diffs[i].key.clone(), None));
            proof {
                assert(id_pairs(ids@) =~= id_pairs(before).push((diffs@[i as int].key@, None)));
            }
        }
        i = i + 1;
    }
    proof {
        assert(diffs_view(diffs@).take(i as int) =~= diffs_view(diffs@));
    }
}

/// Creates a group: sets the admin, the bounds and whether removals clear
/// identities, then writes `members` at `height` as one transaction that must
/// leave the total within the bounds.
pub fn create_with_policy(
    admin: Option<String>,
    members: Vec<Member>,
    min_weight: u64,
    max_weight: u64,
    height: u64,
    clear_identities: bool,
) -> (r: Result<Group, ContractError>)
    ensures
        create_effect(opt_view(admin), members@, min_weight, max_weight, height, clear_identities, r),
{
    let empty = SnapshotMap::new();
    let no_total = History::new();
    let no_removes: Vec<String> = Vec::new();
    proof {
        assert(addrs_view(no_removes@) =~= Seq::<Seq<char>>::empty());
    }
    proof {
        lemma_fit(Seq::empty(), Seq::empty(), members@, Seq::empty(), height);
    }
    let (m, t, _diffs) = match apply(&empty, &no_total, 0, height, &members, &no_removes) {
        Ok(x) => x,
        Err(e) => {
            return Err(e);
        },
    };
    let w = match assert_weights(&m, min_weight, max_weight) {
        Ok(w) => w,
        Err(e) => {
            return Err(e);
        },
    };
    let no_ids: Vec<(String, Option<String>)> = Vec::new();
    let identities = identities_with(&no_ids, &members);
    let g = Group {
        admin,
        hooks: Vec::new(),
        members: m,
        identities,
        total: t,
        min_weight,
        max_weight,
        clear_identities,
    };
    proof {
        g.members.lemma_wf();
        assert(versions_bounded(Seq::<Row>::empty(), Seq::<Entry>::empty()));
        lemma_bounded_after(
            Seq::empty(),
            g@.2,
            Seq::empty(),
            members@,
            Seq::empty(),
            height,
            Some(final_total(Seq::empty(), members@, Seq::empty()) as u64),
        );
        assert(saved(Seq::<Entry>::empty(), height, Some(final_total(Seq::empty(), members@, Seq::empty()) as u64))
            =~= seq![(height, Some(final_total(Seq::empty(), members@, Seq::empty()) as u64))]);
        assert(g.hooks_view() =~= Seq::<Seq<char>>::empty());
        assert(g.ids() =~= identities_added(members@));
        assert(g.totals() =~= seq![(height, Some(final_total(Seq::empty(), members@, Seq::empty()) as u64))]);
    }
    Ok(g)
}

/// Creates a group that keeps the identity of removed members.
pub fn create(
    admin: Option<String>,
    members: Vec<Member>,
    min_weight: u64,
    max_weight: u64,
    height: u64,
) -> (r: Result<Group, ContractError>)
    ensures
        create_effect(opt_view(admin), members@, min_weight, max_weight, height, false, r),
{
    create_with_policy(admin, members, min_weight, max_weight, height, false)
}

/// Applies a batch of adds and removals at `height` on behalf of `sender`,
/// all or nothing, and returns the changes made.
pub fn update_members(
    group: &mut Group,
    height: u64,
    sender: &String,
    to_add: Vec<Member>,
    to_remove: Vec<String>,
) -> (r: Result<MemberChangedHookMsg, ContractError>)
    requires
        old(group).wf(),
    ensures
        final(group).wf(),
        transaction_effect(old(group)@, final(group)@, height, sender@, to_add@, addrs_view(to_remove@), err_of(r)),
        r matches Ok(msg) ==> diffs_view(msg.diffs@) == add_diffs(old(group).rows(), to_add@) + remove_diffs(
            old(group).rows(),
            to_add@,
            addrs_view(to_remove@),
        ),
{
    match group.assert_admin(sender) {
        Ok(()) => {},
        Err(e) => {
            return Err(e);
        },
    }
    match group.total.latest_version() {
        Some(last) => {
            if last > height {
                return Err(ContractError::OrderingViolation);
            }
        },
        None => {},
    }
    let ghost o = group@;
    proof {
        lemma_fit(o.2, o.4, to_add@, addrs_view(to_remove@), height);
    }
    let current_total = match group.total.load() {
        Some(t) => t,
        None => 0,
    };
    let (m, t, diffs) = match apply(
        &group.members,
        &group.total,
        current_total,
        height,
        &to_add,
        &to_remove,
    ) {
        Ok(x) => x,
        Err(e) => {
            return Err(e);
        },
    };
    match assert_weights(&m, group.min_weight, group.max_weight) {
        Ok(_) => {},
        Err(e) => {
            return Err(e);
        },
    }
    let mut identities = identities_with(&group.identities, &to_add);
    if group.clear_identities {
        clear_removed(&mut identities, &diffs);
    }
    group.members = m;
    group.total = t;
    group.identities = identities;
    proof {
        group.members.lemma_wf();
        lemma_bounded_after(
            o.2,
            group@.2,
            o.4,
            to_add@,
            addrs_view(to_remove@),
            height,
            Some(final_total(o.2, to_add@, addrs_view(to_remove@)) as u64),
        );
    }
    Ok(MemberChangedHookMsg { diffs })
}


/// A notification for one subscriber, carrying every change of one transaction.
pub struct HookMessage {
    pub contract_addr: String,
    pub msg: MemberChangedHookMsg,
}

/// The notifications that a successful call asks the host to deliver, in order.
pub struct Response {
    pub messages: Vec<HookMessage>,
}

pub open spec fn notifies(messages: Seq<HookMessage>, hooks: Seq<Seq<char>>, diffs: Seq<crate::ledger::DiffView>) -> bool {
    &&& messages.len() == hooks.len()
    &&& forall|i: int| 0 <= i < messages.len() ==> (#[trigger] messages[i]).contract_addr@ == hooks[i]
        && diffs_view(messages[i].msg.diffs@) == diffs
}

fn copy_diffs(d: &Vec<MemberDiff>) -> (r: Vec<MemberDiff>)
    ensures
        diffs_view(r@) == diffs_view(d@),
{
    let mut out: Vec<MemberDiff> = Vec::new();
    let mut i: usize = 0;
    while i < d.len()
        invariant
            i <= d@.len(),
            out@.len() == i,
            forall|k: int| 0 <= k < i ==> (#[trigger] out@[k]).key@ == d@[k].key@ && out@[k].old == d@[k].old
                && out@[k].new == d@[k].new,
        decreases d@.len() - i,
    {
        let x = &d[i];
        out.push(MemberDiff { key: x.key.clone(), old: x.old, new: x.new });
        i = i + 1;
    }
    assert(diffs_view(out@) =~= diffs_view(d@));
    out
}

pub struct TotalWeightResponse {
    pub weight: u64,
}

pub struct MemberResponse {
    pub weight: Option<u64>,
    pub identity: Option<String>,
}

pub struct MemberListResponse {
    pub members: Vec<Member>,
}

pub struct AdminResponse {
    pub admin: Option<String>,
}

pub struct HooksResponse {
    pub hooks: Vec<String>,
}

pub const MAX_LIMIT: u32 = 30;

pub const DEFAULT_LIMIT: u32 = 10;

/// How many members a listing returns at most.
pub open spec fn page_size(limit: Option<u32>) -> nat {
    let l = match limit {
        Some(l) => l,
        None => DEFAULT_LIMIT,
    };
    if l < MAX_LIMIT {
        l as nat
    } else {
        MAX_LIMIT as nat
    }
}

pub open spec fn members_view(m: Seq<Member>) -> Seq<(Seq<char>, u64)> {
    m.map_values(|x: Member| (x.addr@, x.weight))
}

pub open spec fn weight_or_zero(x: Option<u64>) -> u64 {
    match x {
        Some(w) => w,
        None => 0,
    }
}

impl Group {
    /// The notifications for one transaction: one per hook, in registration order.
    pub fn prepare_hooks(&self, msg: &MemberChangedHookMsg) -> (r: Vec<HookMessage>)
        ensures
            notifies(r@, self.hooks_view(), diffs_view(msg.diffs@)),
    {
        let mut out: Vec<HookMessage> = Vec::new();
        let mut i: usize = 0;
        while i < self.hooks.len()
            invariant
                i <= self.hooks@.len(),
                out@.len() == i,
                forall|k: int| 0 <= k < i ==> (#[trigger] out@[k]).contract_addr@ == self.hooks@[k]@
                    && diffs_view(out@[k].msg.diffs@) == diffs_view(msg.diffs@),
            decreases self.hooks@.len() - i,
        {
            let diffs = copy_diffs(&msg.diffs);
            out.push(HookMessage { contract_addr: self.hooks[i].clone(), msg: MemberChangedHookMsg { diffs } });
            i = i + 1;
        }
        out
    }

    /// Succeeds only when `caller` is the current admin; with no admin set, never.
    pub fn assert_admin(&self, caller: &String) -> (r: Result<(), ContractError>)
        ensures
            r is Ok <==> is_admin(self.admin_view(), caller@),
            r is Err ==> r == Err::<(), ContractError>(ContractError::Unauthorized),
    {
        if self.check_admin(caller) {
            Ok(())
        } else {
            Err(ContractError::Unauthorized)
        }
    }

    fn check_admin(&self, sender: &String) -> (r: bool)
        ensures
            r == is_admin(self.admin_view(), sender@),
    {
        match &self.admin {
            Some(a) => *a == *sender,
            None => false,
        }
    }

    /// Replaces the admin; only the current admin may.
    pub fn update_admin(&mut self, sender: &String, admin: Option<String>) -> (r: Result<Response, ContractError>)
        requires
            old(self).wf(),
        ensures
            final(self).wf(),
            admin_effect(old(self)@, final(self)@, sender@, opt_view(admin), err_of(r)),
            r matches Ok(resp) ==> resp.messages@.len() == 0,
    {
        if !self.check_admin(sender) {
            return Err(ContractError::Unauthorized);
        }
        self.admin = admin;
        Ok(Response { messages: Vec::new() })
    }

    fn hook_index(&self, addr: &String) -> (r: Option<usize>)
        ensures
            match r {
                Some(i) => i < self.hooks_view().len() && self.hooks_view()[i as int] == addr@,
                None => !self.hooks_view().contains(addr@),
            },
    {
        let mut i: usize = 0;
        while i < self.hooks.len()
            invariant
                i <= self.hooks@.len(),
                forall|k: int| 0 <= k < i ==> self.hooks_view()[k] != addr@,
            decreases self.hooks@.len() - i,
        {
            if self.hooks[i] == *addr {
                return Some(i);
            }
            i = i + 1;
        }
        None
    }

    /// Registers a subscriber at the end of the list; only the admin may.
    pub fn add_hook(&mut self, sender: &String, addr: String) -> (r: Result<Response, ContractError>)
        requires
            old(self).wf(),
        ensures
            final(self).wf(),
            add_hook_effect(old(self)@, final(self)@, sender@, addr@, err_of(r)),
            r matches Ok(resp) ==> resp.messages@.len() == 0,
    {
        if !self.check_admin(sender) {
            return Err(ContractError::Unauthorized);
        }
        if self.hook_index(&addr).is_some() {
            return Err(ContractError::HookAlreadyRegistered);
        }
        let ghost before = self@;
        self.hooks.push(addr);
        proof {
            assert(self.hooks_view() =~= before.1.push(addr@));
        }
        Ok(Response { messages: Vec::new() })
    }

    /// Unregisters a subscriber; only the admin may.
    pub fn remove_hook(&mut self, sender: &String, addr: &String) -> (r: Result<Response, ContractError>)
        requires
            old(self).wf(),
        ensures
            final(self).wf(),
            remove_hook_effect(old(self)@, final(self)@, sender@, addr@, err_of(r)),
            r matches Ok(resp) ==> resp.messages@.len() == 0,
    {
        if !self.check_admin(sender) {
            return Err(ContractError::Unauthorized);
        }
        match self.hook_index(addr) {
            None => Err(ContractError::HookNotRegistered),
            Some(i) => {
                let ghost before = self.hooks_view();
                self.hooks.remove(i);
                proof {
                    assert(self.hooks_view() =~= before.remove(i as int));
                    assert forall|h: Seq<char>| h != addr@ implies (self.hooks_view().contains(h)
                        <==> before.contains(h)) by {
                        if before.contains(h) {
                            let k = choose|k: int| 0 <= k < before.len() && before[k] == h;
                            if k < i {
                                assert(self.hooks_view()[k] == h);
                            } else {
                                assert(self.hooks_view()[k - 1] == h);
                            }
                        }
                    }
                    if self.hooks_view().contains(addr@) {
                        let k = choose|k: int| 0 <= k < self.hooks_view().len() && self.hooks_view()[k] == addr@;
                        if k < i {
                            assert(before[k] == before[i as int]);
                        } else {
                            assert(before[k + 1] == before[i as int]);
                        }
                    }
                }
                Ok(Response { messages: Vec::new() })
            },
        }
    }
}

/// Applies a membership transaction and prepares one notification per hook,
/// each carrying the whole diff.
pub fn execute_update_members(
    group: &mut Group,
    height: u64,
    sender: &String,
    add: Vec<Member>,
    remove: Vec<String>,
) -> (r: Result<Response, ContractError>)
    requires
        old(group).wf(),
    ensures
        final(group).wf(),
        transaction_effect(old(group)@, final(group)@, height, sender@, add@, addrs_view(remove@), err_of(r)),
        r matches Ok(resp) ==> notifies(
            resp.messages@,
            old(group).hooks_view(),
            add_diffs(old(group).rows(), add@) + remove_diffs(old(group).rows(), add@, addrs_view(remove@)),
        ),
{
    let msg = match update_members(group, height, sender, add, remove) {
        Ok(m) => m,
        Err(e) => {
            return Err(e);
        },
    };
    let messages = group.prepare_hooks(&msg);
    Ok(Response { messages })
}

/// The total weight now, or as of `height`; zero where none was recorded.
pub fn query_total_weight(group: &Group, height: Option<u64>) -> (r: TotalWeightResponse)
    requires
        group.wf(),
    ensures
        r.weight == weight_or_zero(
            match height {
                Some(h) => value_at(group.totals(), h),
                None => current(group.totals()),
            },
        ),
{
    let w = match height {
        Some(h) => group.total.load_at(h),
        None => group.total.load(),
    };
    TotalWeightResponse { weight: weight_or_zero_exec(w) }
}

fn weight_or_zero_exec(x: Option<u64>) -> (r: u64)
    ensures
        r == weight_or_zero(x),
{
    match x {
        Some(w) => w,
        None => 0,
    }
}

fn identity_lookup(ids: &Vec<(String, Option<String>)>, addr: &String) -> (r: Option<String>)
    ensures
        opt_view(r) == identity_of(id_pairs(ids@), addr@),
{
    let mut n = ids.len();
    proof {
        assert(id_pairs(ids@).take(n as int) =~= id_pairs(ids@));
    }
    while n > 0
        invariant
            n <= ids@.len(),
            identity_of(id_pairs(ids@), addr@) == identity_of(id_pairs(ids@).take(n as int), addr@),
        decreases n,
    {
        proof {
            assert(id_pairs(ids@).take(n as int).drop_last() =~= id_pairs(ids@).take(n - 1));
        }
        if ids[n - 1].0 == *addr {
            return match &ids[n - 1].1 {
                Some(x) => Some(x.clone()),
                None => None,
            };
        }
        n = n - 1;
    }
    None
}

/// The answer about `addr` as of `height` (now when `None`): its weight then,
/// and its identity when it has a weight.
pub open spec fn member_answer(
    rows: Seq<Row>,
    ids: Seq<(Seq<char>, Option<Seq<char>>)>,
    addr: Seq<char>,
    height: Option<u64>,
    resp: MemberResponse,
) -> bool {
    &&& resp.weight == match height {
        Some(h) => value_at(history_of(rows, addr), h),
        None => current(history_of(rows, addr)),
    }
    &&& opt_view(resp.identity) == if resp.weight is Some {
        identity_of(ids, addr)
    } else {
        None
    }
}

/// The identity listed for a member: the last one written, empty if none.
pub open spec fn listed_identity(ids: Seq<(Seq<char>, Option<Seq<char>>)>, addr: Seq<char>) -> Seq<char> {
    match identity_of(ids, addr) {
        Some(s) => s,
        None => Seq::empty(),
    }
}

/// A listing page: the first `page_size(limit)` current members above
/// `start`, strictly ascending by address, each with its current weight and
/// identity.
pub open spec fn list_answer(
    rows: Seq<Row>,
    ids: Seq<(Seq<char>, Option<Seq<char>>)>,
    start: Option<Seq<char>>,
    limit: Option<u32>,
    members: Seq<Member>,
) -> bool {
    &&& members_view(members) == first_n(live_after(rows, start), page_size(limit))
    &&& members.len() <= page_size(limit)
    &&& forall|i: int| 0 <= i < members.len() ==> (#[trigger] members[i]).identity@ == listed_identity(ids, members[i].addr@)
    &&& forall|i: int, j: int| 0 <= i < j < members.len() ==> seq_lt(members[i].addr@, members[j].addr@)
    &&& forall|i: int| 0 <= i < members.len() ==> after(start, (#[trigger] members[i]).addr@)
}

/// A member's weight now, or as of `height`, with its identity; both absent
/// for an address that is not a member at that point.
pub fn query_member(group: &Group, addr: &String, height: Option<u64>) -> (r: MemberResponse)
    requires
        group.wf(),
    ensures
        member_answer(group.rows(), group.ids(), addr@, height, r),
{
    let w = match height {
        Some(h) => group.members.may_load_at(addr, h),
        None => group.members.may_load(addr),
    };
    match w {
        Some(_) => MemberResponse { weight: w, identity: identity_lookup(&group.identities, addr) },
        None => MemberResponse { weight: None, identity: None },
    }
}

/// Current members in address order, after `start_after` when given, at most
/// `limit` of them (ten by default, never more than thirty).
pub fn query_list_members(group: &Group, start_after: Option<String>, limit: Option<u32>) -> (r: MemberListResponse)
    requires
        group.wf(),
    ensures
        list_answer(group.rows(), group.ids(), opt_view(start_after), limit, r.members@),
{
    let l: u32 = match limit {
        Some(l) => l,
        None => DEFAULT_LIMIT,
    };
    let l: u32 = if l < MAX_LIMIT {
        l
    } else {
        MAX_LIMIT
    };
    let page = group.members.range(&start_after, l as usize);
    let mut members: Vec<Member> = Vec::new();
    let mut i: usize = 0;
    while i < page.len()
        invariant
            i <= page@.len(),
            members@.len() == i,
            forall|k: int| 0 <= k < i ==> (#[trigger] members@[k]).addr@ == page@[k].0@ && members@[k].weight
                == page@[k].1,
            forall|k: int| 0 <= k < i ==> (#[trigger] members@[k]).identity@ == match identity_of(
                group.ids(),
                members@[k].addr@,
            ) {
                Some(s) => s,
                None => Seq::empty(),
            },
        decreases page@.len() - i,
    {
        let addr = page[i].0.clone();
        let identity = match identity_lookup(&group.identities, &addr) {
            Some(s) => s,
            None => String::new(),
        };
        members.push(Member { addr, weight: page[i].1, identity });
        i = i + 1;
    }
    proof {
        assert(members_view(members@) =~= pairs_view(page@));
        let l = live_after(group.rows(), opt_view(start_after));
        lemma_live_after(group.rows(), opt_view(start_after));
        assert forall|a: int| 0 <= a < members@.len() implies (#[trigger] members@[a]).addr@ == l[a].0 by {
            assert(members_view(members@)[a] == l[a]);
        }
        assert forall|a: int, b: int| 0 <= a < b < members@.len() implies seq_lt(
            members@[a].addr@,
            members@[b].addr@,
        ) by {
            assert(members@[a].addr@ == l[a].0);
            assert(members@[b].addr@ == l[b].0);
        }
    }
    MemberListResponse { members }
}

/// The current admin.
pub fn query_admin(group: &Group) -> (r: AdminResponse)
    ensures
        opt_view(r.admin) == group.admin_view(),
{
    let admin = match &group.admin {
        Some(a) => Some(a.clone()),
        None => None,
    };
    AdminResponse { admin }
}

/// The registered hooks, in registration order.
pub fn query_hooks(group: &Group) -> (r: HooksResponse)
    ensures
        addrs_view(r.hooks@) == group.hooks_view(),
{
    let mut hooks: Vec<String> = Vec::new();
    let mut i: usize = 0;
    while i < group.hooks.len()
        invariant
            i <= group.hooks@.len(),
            hooks@.len() == i,
            forall|k: int| 0 <= k < i ==> (#[trigger] hooks@[k])@ == group.hooks@[k]@,
        decreases group.hooks@.len() - i,
    {
        hooks.push(group.hooks[i].clone());
        i = i + 1;
    }
    assert(addrs_view(hooks@) =~= group.hooks_view());
    HooksResponse { hooks }
}

/// The creation request.
pub struct InstantiateMsg {
    pub admin: Option<String>,
    pub members: Vec<Member>,
    pub min_weight: u64,
    pub max_weight: u64,
}

/// Creates a group at block `height` from a creation request.
pub fn instantiate(height: u64, msg: InstantiateMsg) -> (r: Result<Group, ContractError>)
    ensures
        create_effect(opt_view(msg.admin), msg.members@, msg.min_weight, msg.max_weight, height, false, r),
{
    create(msg.admin, msg.members, msg.min_weight, msg.max_weight, height)
}

/// The state-changing requests.
pub enum ExecuteMsg {
    UpdateAdmin { admin: Option<String> },
    UpdateMembers { add: Vec<Member>, remove: Vec<String> },
    AddHook { addr: String },
    RemoveHook { addr: String },
}

/// Handles one state-changing request from `sender` at block `height`.
pub fn execute(group: &mut Group, height: u64, sender: &String, msg: ExecuteMsg) -> (r: Result<Response, ContractError>)
    requires
        old(group).wf(),
    ensures
        final(group).wf(),
        match msg {
            ExecuteMsg::UpdateMembers { add, remove } => transaction_effect(
                old(group)@,
                final(group)@,
                height,
                sender@,
                add@,
                addrs_view(remove@),
                err_of(r),
            ) && (r matches Ok(resp) ==> notifies(
                resp.messages@,
                old(group).hooks_view(),
                add_diffs(old(group).rows(), add@) + remove_diffs(old(group).rows(), add@, addrs_view(remove@)),
            )),
            ExecuteMsg::UpdateAdmin { admin } => admin_effect(old(group)@, final(group)@, sender@, opt_view(admin), err_of(r))
                && (r matches Ok(resp) ==> resp.messages@.len() == 0),
            ExecuteMsg::AddHook { addr } => add_hook_effect(old(group)@, final(group)@, sender@, addr@, err_of(r))
                && (r matches Ok(resp) ==> resp.messages@.len() == 0),
            ExecuteMsg::RemoveHook { addr } => remove_hook_effect(old(group)@, final(group)@, sender@, addr@, err_of(r))
                && (r matches Ok(resp) ==> resp.messages@.len() == 0),
        },
{
    match msg {
        ExecuteMsg::UpdateAdmin { admin } => group.update_admin(sender, admin),
        ExecuteMsg::UpdateMembers { add, remove } => execute_update_members(group, height, sender, add, remove),
        ExecuteMsg::AddHook { addr } => group.add_hook(sender, addr),
        ExecuteMsg::RemoveHook { addr } => group.remove_hook(sender, &addr),
    }
}

/// The read-only requests.
pub enum QueryMsg {
    Member { addr: String, at_height: Option<u64> },
    ListMembers { start_after: Option<String>, limit: Option<u32> },
    TotalWeight { at_height: Option<u64> },
    Admin,
    Hooks,
}

/// The answer to a read-only request.
pub enum QueryResponse {
    Member(MemberResponse),
    MemberList(MemberListResponse),
    TotalWeight(TotalWeightResponse),
    Admin(AdminResponse),
    Hooks(HooksResponse),
}

/// Answers one read-only request.
pub fn query(group: &Group, msg: QueryMsg) -> (r: QueryResponse)
    requires
        group.wf(),
    ensures
        match (msg, r) {
            (QueryMsg::Member { addr, at_height }, QueryResponse::Member(m)) => member_answer(
                group.rows(),
                group.ids(),
                addr@,
                at_height,
                m,
            ),
            (QueryMsg::ListMembers { start_after, limit }, QueryResponse::MemberList(l)) => list_answer(
                group.rows(),
                group.ids(),
                opt_view(start_after),
                limit,
                l.members@,
            ),
            (QueryMsg::TotalWeight { at_height }, QueryResponse::TotalWeight(t)) => t.weight == weight_or_zero(
                match at_height {
                    Some(h) => value_at(group.totals(), h),
                    None => current(group.totals()),
                },
            ),
            (QueryMsg::Admin, QueryResponse::Admin(a)) => opt_view(a.admin) == group.admin_view(),
            (QueryMsg::Hooks, QueryResponse::Hooks(h)) => addrs_view(h.hooks@) == group.hooks_view(),
            _ => false,
        },
{
    match msg {
        QueryMsg::Member { addr, at_height } => QueryResponse::Member(query_member(group, &addr, at_height)),
        QueryMsg::ListMembers { start_after, limit } => QueryResponse::MemberList(
            query_list_members(group, start_after, limit),
        ),
        QueryMsg::TotalWeight { at_height } => QueryResponse::TotalWeight(query_total_weight(group, at_height)),
        QueryMsg::Admin => QueryResponse::Admin(query_admin(group)),
        QueryMsg::Hooks => QueryResponse::Hooks(query_hooks(group)),
    }
}

} // verus!
