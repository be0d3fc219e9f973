use cw4_group::contract::{
    create, create_with_policy, execute, execute_update_members, instantiate, query, query_admin, query_hooks,
    query_list_members, query_member, query_total_weight, update_members, ExecuteMsg, Group,
    InstantiateMsg, QueryMsg, QueryResponse,
};
use cw4_group::history::{History, StoreError};
use cw4_group::ledger::{ContractError, Member};
use cw4_group::snapshot_map::SnapshotMap;

fn s(x: &str) -> String {
    x.to_string()
}

fn member(addr: &str, weight: u64) -> Member {
    Member { addr: s(addr), weight, identity: format!("id-{}", addr) }
}

fn base_group() -> Group {
    match create(Some(s("admin")), vec![member("A", 10), member("B", 20)], 1, 100, 100) {
        Ok(g) => g,
        Err(e) => panic!("create failed: {:?}", e),
    }
}

fn after_second_update() -> Group {
    let mut g = base_group();
    let r = update_members(&mut g, 200, &s("admin"), vec![member("C", 5)], vec![s("B")]);
    assert!(r.is_ok());
    g
}

#[test]
fn create_sets_total_and_members() {
    let g = base_group();
    assert_eq!(query_total_weight(&g, None).weight, 30);
    assert_eq!(query_member(&g, &s("A"), None).weight, Some(10));
    assert_eq!(query_member(&g, &s("A"), None).identity, Some(s("id-A")));
    assert_eq!(query_member(&g, &s("C"), None).weight, None);
    assert_eq!(query_member(&g, &s("C"), None).identity, None);
}

#[test]
fn add_and_remove_produce_diff_in_order() {
    let mut g = base_group();
    let msg = match update_members(&mut g, 200, &s("admin"), vec![member("C", 5)], vec![s("B")]) {
        Ok(m) => m,
        Err(e) => panic!("update failed: {:?}", e),
    };
    assert_eq!(msg.diffs.len(), 2);
    assert_eq!(msg.diffs[0].key, "C");
    assert_eq!(msg.diffs[0].old, None);
    assert_eq!(msg.diffs[0].new, Some(5));
    assert_eq!(msg.diffs[1].key, "B");
    assert_eq!(msg.diffs[1].old, Some(20));
    assert_eq!(msg.diffs[1].new, None);
    assert_eq!(query_total_weight(&g, None).weight, 15);
    assert_eq!(query_member(&g, &s("B"), Some(150)).weight, Some(20));
    assert_eq!(query_member(&g, &s("B"), Some(200)).weight, None);
}

#[test]
fn exceeding_max_fails_and_changes_nothing() {
    let mut g = after_second_update();
    let r = update_members(&mut g, 300, &s("admin"), vec![member("D", 200)], vec![]);
    assert!(matches!(r, Err(ContractError::MaxWeightExceeded)));
    assert_eq!(query_total_weight(&g, None).weight, 15);
    assert_eq!(query_member(&g, &s("D"), None).weight, None);
    assert_eq!(query_member(&g, &s("D"), Some(300)).weight, None);
    assert_eq!(query_total_weight(&g, Some(300)).weight, 15);
}

#[test]
fn list_after_cursor_skips_removed() {
    let g = after_second_update();
    let page = query_list_members(&g, Some(s("A")), Some(10));
    assert_eq!(page.members.len(), 1);
    assert_eq!(page.members[0].addr, "C");
    assert_eq!(page.members[0].weight, 5);
    assert_eq!(page.members[0].identity, "id-C");
}

#[test]
fn one_notification_per_hook_with_all_diffs() {
    let mut g = base_group();
    assert!(g.add_hook(&s("admin"), s("H1")).is_ok());
    let resp = match execute_update_members(&mut g, 200, &s("admin"), vec![member("C", 5)], vec![s("B")]) {
        Ok(r) => r,
        Err(e) => panic!("update failed: {:?}", e),
    };
    assert_eq!(resp.messages.len(), 1);
    assert_eq!(resp.messages[0].contract_addr, "H1");
    assert_eq!(resp.messages[0].msg.diffs.len(), 2);
    assert_eq!(resp.messages[0].msg.diffs[0].key, "C");
    assert_eq!(resp.messages[0].msg.diffs[1].key, "B");
}

#[test]
fn non_admin_is_unauthorized() {
    let mut g = base_group();
    let r = update_members(&mut g, 200, &s("mallory"), vec![member("C", 5)], vec![s("A")]);
    assert!(matches!(r, Err(ContractError::Unauthorized)));
    assert_eq!(query_total_weight(&g, None).weight, 30);
    assert_eq!(query_member(&g, &s("A"), None).weight, Some(10));
    assert_eq!(query_member(&g, &s("C"), None).weight, None);
}

#[test]
fn no_admin_locks_updates() {
    let mut g = match create(None, vec![member("A", 10)], 0, 100, 1) {
        Ok(g) => g,
        Err(e) => panic!("create failed: {:?}", e),
    };
    let r = update_members(&mut g, 2, &s("admin"), vec![], vec![]);
    assert!(matches!(r, Err(ContractError::Unauthorized)));
    assert!(query_admin(&g).admin.is_none());
}

#[test]
fn later_writes_do_not_change_history() {
    let mut g = after_second_update();
    assert!(update_members(&mut g, 300, &s("admin"), vec![member("A", 50)], vec![]).is_ok());
    assert_eq!(query_member(&g, &s("A"), Some(100)).weight, Some(10));
    assert_eq!(query_member(&g, &s("A"), Some(299)).weight, Some(10));
    assert_eq!(query_member(&g, &s("A"), Some(300)).weight, Some(50));
    assert_eq!(query_total_weight(&g, Some(250)).weight, 15);
    assert_eq!(query_total_weight(&g, Some(300)).weight, 55);
}

#[test]
fn as_of_reads_latest_write_at_or_before() {
    let g = after_second_update();
    assert_eq!(query_member(&g, &s("A"), Some(99)).weight, None);
    assert_eq!(query_member(&g, &s("C"), Some(199)).weight, None);
    assert_eq!(query_member(&g, &s("C"), Some(200)).weight, Some(5));
    assert_eq!(query_member(&g, &s("C"), Some(1000)).weight, Some(5));
    assert_eq!(query_total_weight(&g, Some(99)).weight, 0);
    assert_eq!(query_total_weight(&g, Some(100)).weight, 30);
    assert_eq!(query_total_weight(&g, Some(199)).weight, 30);
}

#[test]
fn total_matches_sum_of_listed_members() {
    let mut g = after_second_update();
    assert!(update_members(&mut g, 300, &s("admin"), vec![member("A", 7), member("E", 3), member("A", 9)], vec![]).is_ok());
    let page = query_list_members(&g, None, None);
    let sum: u64 = page.members.iter().map(|m| m.weight).sum();
    assert_eq!(sum, query_total_weight(&g, None).weight);
    assert_eq!(sum, 17);
}

#[test]
fn ordering_violation_is_atomic() {
    let mut g = after_second_update();
    let r = update_members(&mut g, 150, &s("admin"), vec![member("A", 1)], vec![]);
    assert!(matches!(r, Err(ContractError::OrderingViolation)));
    assert_eq!(query_member(&g, &s("A"), None).weight, Some(10));
    assert_eq!(query_total_weight(&g, None).weight, 15);
}

#[test]
fn removing_non_member_is_no_op() {
    let mut g = after_second_update();
    let msg = match update_members(&mut g, 300, &s("admin"), vec![], vec![s("Z"), s("B")]) {
        Ok(m) => m,
        Err(e) => panic!("update failed: {:?}", e),
    };
    assert_eq!(msg.diffs.len(), 0);
    assert_eq!(query_total_weight(&g, None).weight, 15);
    assert_eq!(query_member(&g, &s("Z"), None).weight, None);
    assert_eq!(query_list_members(&g, None, None).members.len(), 2);
}

#[test]
fn remove_twice_gives_one_diff() {
    let mut g = base_group();
    let msg = match update_members(&mut g, 200, &s("admin"), vec![], vec![s("A"), s("A")]) {
        Ok(m) => m,
        Err(e) => panic!("update failed: {:?}", e),
    };
    assert_eq!(msg.diffs.len(), 1);
    assert_eq!(msg.diffs[0].old, Some(10));
    assert_eq!(query_total_weight(&g, None).weight, 20);
}

#[test]
fn below_min_fails() {
    let mut g = base_group();
    let r = update_members(&mut g, 200, &s("admin"), vec![], vec![s("A"), s("B")]);
    assert!(matches!(r, Err(ContractError::MinWeightNotMet)));
    assert_eq!(query_total_weight(&g, None).weight, 30);
}

#[test]
fn create_outside_bounds_fails() {
    let r = create(Some(s("admin")), vec![member("A", 200)], 1, 100, 1);
    assert!(matches!(r, Err(ContractError::MaxWeightExceeded)));
    let r = create(Some(s("admin")), vec![], 1, 100, 1);
    assert!(matches!(r, Err(ContractError::MinWeightNotMet)));
}

#[test]
fn weight_overflow_fails() {
    let mut g = match create(Some(s("admin")), vec![member("A", u64::MAX)], 0, u64::MAX, 1) {
        Ok(g) => g,
        Err(e) => panic!("create failed: {:?}", e),
    };
    let r = update_members(&mut g, 2, &s("admin"), vec![member("B", 1)], vec![]);
    assert!(matches!(r, Err(ContractError::WeightOverflow)));
    assert_eq!(query_total_weight(&g, None).weight, u64::MAX);
}

#[test]
fn re_adding_replaces_weight() {
    let mut g = base_group();
    let msg = match update_members(&mut g, 200, &s("admin"), vec![member("A", 40)], vec![]) {
        Ok(m) => m,
        Err(e) => panic!("update failed: {:?}", e),
    };
    assert_eq!(msg.diffs[0].old, Some(10));
    assert_eq!(msg.diffs[0].new, Some(40));
    assert_eq!(query_total_weight(&g, None).weight, 60);
}

#[test]
fn hooks_register_and_unregister() {
    let mut g = base_group();
    assert!(g.add_hook(&s("admin"), s("H1")).is_ok());
    assert!(matches!(g.add_hook(&s("admin"), s("H1")), Err(ContractError::HookAlreadyRegistered)));
    assert!(matches!(g.add_hook(&s("other"), s("H2")), Err(ContractError::Unauthorized)));
    assert!(g.add_hook(&s("admin"), s("H2")).is_ok());
    assert_eq!(query_hooks(&g).hooks, vec![s("H1"), s("H2")]);
    assert!(g.remove_hook(&s("admin"), &s("H1")).is_ok());
    assert!(matches!(g.remove_hook(&s("admin"), &s("H1")), Err(ContractError::HookNotRegistered)));
    assert_eq!(query_hooks(&g).hooks, vec![s("H2")]);
}

#[test]
fn no_hooks_no_notifications() {
    let mut g = base_group();
    let resp = execute_update_members(&mut g, 200, &s("admin"), vec![member("C", 5)], vec![]);
    assert!(matches!(resp, Ok(ref r) if r.messages.is_empty()));
}

#[test]
fn admin_can_hand_over() {
    let mut g = base_group();
    assert!(matches!(g.update_admin(&s("other"), Some(s("x"))), Err(ContractError::Unauthorized)));
    assert!(g.update_admin(&s("admin"), Some(s("new"))).is_ok());
    assert_eq!(query_admin(&g).admin, Some(s("new")));
    assert!(matches!(update_members(&mut g, 200, &s("admin"), vec![], vec![]), Err(ContractError::Unauthorized)));
    assert!(update_members(&mut g, 200, &s("new"), vec![], vec![]).is_ok());
}

#[test]
fn listing_limits() {
    let mut members = Vec::new();
    for i in 0..40u64 {
        members.push(member(&format!("m{:02}", i), 1));
    }
    let g = match create(Some(s("admin")), members, 0, 100, 1) {
        Ok(g) => g,
        Err(e) => panic!("create failed: {:?}", e),
    };
    assert_eq!(query_list_members(&g, None, None).members.len(), 10);
    assert_eq!(query_list_members(&g, None, Some(100)).members.len(), 30);
    let page = query_list_members(&g, Some(s("m05")), Some(3));
    let addrs: Vec<String> = page.members.iter().map(|m| m.addr.clone()).collect();
    assert_eq!(addrs, vec![s("m06"), s("m07"), s("m08")]);
}

#[test]
fn listing_is_in_address_order() {
    let g = match create(Some(s("admin")), vec![member("b", 1), member("a", 1), member("ab", 1)], 0, 100, 1) {
        Ok(g) => g,
        Err(e) => panic!("create failed: {:?}", e),
    };
    let page = query_list_members(&g, None, None);
    let addrs: Vec<String> = page.members.iter().map(|m| m.addr.clone()).collect();
    assert_eq!(addrs, vec![s("a"), s("ab"), s("b")]);
}

#[test]
fn dispatch_through_messages() {
    let mut g = match instantiate(
        100,
        InstantiateMsg { admin: Some(s("admin")), members: vec![member("A", 10)], min_weight: 0, max_weight: 100 },
    ) {
        Ok(g) => g,
        Err(e) => panic!("instantiate failed: {:?}", e),
    };
    let r = execute(&mut g, 200, &s("admin"), ExecuteMsg::UpdateMembers { add: vec![member("B", 4)], remove: vec![] });
    assert!(r.is_ok());
    assert!(execute(&mut g, 200, &s("admin"), ExecuteMsg::AddHook { addr: s("H") }).is_ok());
    assert!(execute(&mut g, 200, &s("admin"), ExecuteMsg::RemoveHook { addr: s("H") }).is_ok());
    match query(&g, QueryMsg::TotalWeight { at_height: None }) {
        QueryResponse::TotalWeight(t) => assert_eq!(t.weight, 14),
        _ => panic!("wrong response"),
    }
    match query(&g, QueryMsg::Member { addr: s("B"), at_height: Some(150) }) {
        QueryResponse::Member(m) => assert_eq!(m.weight, None),
        _ => panic!("wrong response"),
    }
    match query(&g, QueryMsg::ListMembers { start_after: None, limit: None }) {
        QueryResponse::MemberList(l) => assert_eq!(l.members.len(), 2),
        _ => panic!("wrong response"),
    }
    assert!(execute(&mut g, 200, &s("admin"), ExecuteMsg::UpdateAdmin { admin: None }).is_ok());
    match query(&g, QueryMsg::Admin) {
        QueryResponse::Admin(a) => assert!(a.admin.is_none()),
        _ => panic!("wrong response"),
    }
}

#[test]
fn history_same_version_overwrites() {
    let mut h = History::new();
    assert!(h.save(5, Some(1)).is_ok());
    assert!(h.save(5, Some(2)).is_ok());
    assert_eq!(h.load(), Some(2));
    assert_eq!(h.load_at(5), Some(2));
    assert_eq!(h.load_at(4), None);
    assert_eq!(h.save(4, Some(3)), Err(StoreError::OrderingViolation));
    assert!(h.save(9, None).is_ok());
    assert_eq!(h.load(), None);
    assert_eq!(h.load_at(8), Some(2));
}

#[test]
fn map_tombstone_and_range() {
    let mut m = SnapshotMap::new();
    assert!(m.save(&s("k2"), 1, Some(2)).is_ok());
    assert!(m.save(&s("k1"), 1, Some(1)).is_ok());
    assert!(m.save(&s("k1"), 3, None).is_ok());
    assert_eq!(m.save(&s("k1"), 2, Some(9)), Err(StoreError::OrderingViolation));
    assert_eq!(m.may_load(&s("k1")), None);
    assert_eq!(m.may_load_at(&s("k1"), 2), Some(1));
    let r = m.range(&None, 10);
    assert_eq!(r, vec![(s("k2"), 2)]);
    assert_eq!(m.live_sum(), Some(2));
}

#[test]
fn removal_keeps_identity_by_default() {
    let g = after_second_update();
    let past = query_member(&g, &s("B"), Some(150));
    assert_eq!(past.weight, Some(20));
    assert_eq!(past.identity, Some(s("id-B")));
}

#[test]
fn removal_can_clear_identity() {
    let mut g = match create_with_policy(Some(s("admin")), vec![member("A", 10), member("B", 20)], 1, 100, 100, true) {
        Ok(g) => g,
        Err(e) => panic!("create failed: {:?}", e),
    };
    assert!(update_members(&mut g, 200, &s("admin"), vec![], vec![s("B")]).is_ok());
    let past = query_member(&g, &s("B"), Some(150));
    assert_eq!(past.weight, Some(20));
    assert_eq!(past.identity, None);
    assert_eq!(query_member(&g, &s("A"), None).identity, Some(s("id-A")));
    assert!(update_members(&mut g, 300, &s("admin"), vec![member("B", 1)], vec![]).is_ok());
    assert_eq!(query_member(&g, &s("B"), None).identity, Some(s("id-B")));
}

#[test]
fn map_remove_writes_tombstone() {
    let mut m = SnapshotMap::new();
    assert!(m.save(&s("a"), 1, Some(4)).is_ok());
    assert!(m.remove(&s("a"), 2).is_ok());
    assert_eq!(m.may_load(&s("a")), None);
    assert_eq!(m.may_load_at(&s("a"), 1), Some(4));
    assert_eq!(m.remove(&s("a"), 1), Err(StoreError::OrderingViolation));
    assert_eq!(m.live_sum(), Some(0));
}

#[test]
fn admin_guard_checks_caller() {
    let g = base_group();
    assert!(g.assert_admin(&s("admin")).is_ok());
    assert_eq!(g.assert_admin(&s("someone")), Err(ContractError::Unauthorized));
}

#[test]
fn stale_version_wins_over_other_errors() {
    let mut g = after_second_update();
    let r = update_members(&mut g, 150, &s("admin"), vec![member("D", u64::MAX), member("E", 5)], vec![]);
    assert!(matches!(r, Err(ContractError::OrderingViolation)));
    assert_eq!(query_total_weight(&g, None).weight, 15);
}

#[test]
fn overflow_wins_over_bounds() {
    let r = create(Some(s("admin")), vec![member("A", u64::MAX), member("B", 1)], 1, 100, 1);
    assert!(matches!(r, Err(ContractError::WeightOverflow)));
}

#[test]
fn untouched_member_reads_current_after_update() {
    let g = after_second_update();
    assert_eq!(query_member(&g, &s("A"), Some(200)).weight, Some(10));
    assert_eq!(query_member(&g, &s("A"), Some(5000)).weight, Some(10));
}

#[test]
fn cursor_pages_cover_all_members_once() {
    let mut members = Vec::new();
    for i in 0..7u64 {
        members.push(member(&format!("p{}", i), 1));
    }
    let g = match create(Some(s("admin")), members, 0, 100, 1) {
        Ok(g) => g,
        Err(e) => panic!("create failed: {:?}", e),
    };
    let mut seen: Vec<String> = Vec::new();
    let mut cursor: Option<String> = None;
    loop {
        let page = query_list_members(&g, cursor.clone(), Some(3));
        if page.members.is_empty() {
            break;
        }
        for m in &page.members {
            seen.push(m.addr.clone());
        }
        cursor = page.members.last().map(|m| m.addr.clone());
    }
    let expected: Vec<String> = (0..7).map(|i| format!("p{}", i)).collect();
    assert_eq!(seen, expected);
}

#[test]
fn hook_removal_keeps_order() {
    let mut g = base_group();
    for h in ["H1", "H2", "H3"] {
        assert!(g.add_hook(&s("admin"), s(h)).is_ok());
    }
    assert!(execute(&mut g, 100, &s("admin"), ExecuteMsg::RemoveHook { addr: s("H2") }).is_ok());
    assert_eq!(query_hooks(&g).hooks, vec![s("H1"), s("H3")]);
    assert!(matches!(
        execute(&mut g, 100, &s("admin"), ExecuteMsg::AddHook { addr: s("H1") }),
        Err(ContractError::HookAlreadyRegistered)
    ));
}
