use vstd::prelude::*;

use crate::contract::{rows_after, transaction_effect, Group, GroupView};

use crate::history::{current, lemma_write_keeps_past, value_at, versions_increase};
use crate::ledger::{
    final_total, final_value, listed, new_history, remove_diffs, removed_weight, touched,
    versions_fit, ContractError, Member,
};
use crate::snapshot_map::{has_key, histories_ordered, history_of, key_pos, Row};

verus! {

/// A transaction written at version `v` changes nothing that any key reads as
/// of an earlier version.
pub proof fn lemma_past_unchanged(
    rows: Seq<Row>,
    new_rows: Seq<Row>,
    totals: Seq<(u64, Option<u64>)>,
    adds: Seq<Member>,
    rm: Seq<Seq<char>>,
    v: u64,
    k: Seq<char>,
    earlier: u64,
)
    requires
        histories_ordered(rows),
        versions_fit(rows, totals, adds, rm, v),
        history_of(new_rows, k) == new_history(rows, adds, rm, v, k),
        earlier < v,
    ensures
        value_at(history_of(new_rows, k), earlier) == value_at(history_of(rows, k), earlier),
{
    if touched(rows, adds, rm, k) {
        if has_key(rows, k) {
            assert(versions_increase(rows[key_pos(rows, k)].1));
        }
        lemma_write_keeps_past(history_of(rows, k), v, final_value(rows, adds, rm, k), earlier);
    }
}

/// Removing an address that is not a member at that point adds no diff, takes
/// no weight away and writes no history.
pub proof fn lemma_remove_absent(rows: Seq<Row>, adds: Seq<Member>, rm: Seq<Seq<char>>, k: Seq<char>, v: u64)
    requires
        final_value(rows, adds, rm, k) is None,
    ensures
        remove_diffs(rows, adds, rm.push(k)) == remove_diffs(rows, adds, rm),
        removed_weight(rows, adds, rm.push(k)) == removed_weight(rows, adds, rm),
        final_total(rows, adds, rm.push(k)) == final_total(rows, adds, rm),
        forall|k2: Seq<char>| #[trigger]
            new_history(rows, adds, rm.push(k), v, k2) == new_history(rows, adds, rm, v, k2),
{
    let rm2 = rm.push(k);
    assert(rm2.drop_last() =~= rm);
    assert forall|k2: Seq<char>| #[trigger]
        new_history(rows, adds, rm2, v, k2) == new_history(rows, adds, rm, v, k2) by {
        assert(listed(rm2, k2) == (k2 == k || listed(rm, k2)));
    }
}

/// In a group, every address reads its current value as of the latest version
/// written to the total and as of every later version.
pub proof fn lemma_reads_after_latest(g: &Group, k: Seq<char>, v: u64)
    requires
        g.consistent(),
        g.totals().len() > 0,
        g.totals().last().0 <= v,
    ensures
        value_at(history_of(g.rows(), k), v) == current(history_of(g.rows(), k)),
        value_at(g.totals(), v) == current(g.totals()),
{
    if history_of(g.rows(), k).len() > 0 {
    }
}

/// A transaction that also removes an address that is not a member at that
/// point ends the same way, with the same state, as one that leaves it out.
pub proof fn lemma_remove_absent_effect(
    o: GroupView,
    n: GroupView,
    height: u64,
    sender: Seq<char>,
    adds: Seq<Member>,
    rm: Seq<Seq<char>>,
    k: Seq<char>,
    err: Option<ContractError>,
)
    requires
        final_value(o.2, adds, rm, k) is None,
    ensures
        transaction_effect(o, n, height, sender, adds, rm.push(k), err) == transaction_effect(
            o,
            n,
            height,
            sender,
            adds,
            rm,
            err,
        ),
{
    lemma_remove_absent(o.2, adds, rm, k, height);
    assert(rows_after(o.2, n.2, adds, rm.push(k), height) == rows_after(o.2, n.2, adds, rm, height));
}

} // verus!
