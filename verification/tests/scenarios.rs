//! End-to-end scenarios of the aggregation engine, error cases, and the
//! registries, pagination, and history reads.

use tg4_mixer::contract::Mixer;
use tg4_mixer::error::ContractError;
use tg4_mixer::msg::{GroupMember, Member, MemberDiff};
use tg4_mixer::poe::PoEFunctionType;
use tg4_mixer::slash::{slash_points, Portion, PORTION_UNIT};

fn gm(addr: &str, points: u64) -> GroupMember {
    GroupMember {
        addr: addr.to_string(),
        points,
    }
}

fn diff(addr: &str, old: Option<u64>, new: Option<u64>) -> MemberDiff {
    MemberDiff {
        key: addr.to_string(),
        old,
        new,
    }
}

fn mixer(preauths_hooks: u64, preauths_slashing: u64) -> Mixer {
    Mixer::new(
        "leftgroup".to_string(),
        "rightgroup".to_string(),
        preauths_hooks,
        preauths_slashing,
        PoEFunctionType::GeometricMean,
    )
    .unwrap()
}

fn points_of(m: &Mixer, addr: &str) -> Option<u64> {
    m.query_member(&addr.to_string(), None).points
}

#[test]
fn initialize_two_empty_sources() {
    let mut m = mixer(0, 0);
    let total = m.initialize_members(&vec![], &vec![], 5).unwrap();
    assert_eq!(total, 0);
    assert_eq!(m.query_total_points().points, 0);
    assert!(m.list_members(None, None).members.is_empty());
}

#[test]
fn one_sided_member_stays_absent() {
    let mut m = mixer(0, 0);
    let total = m
        .initialize_members(&vec![gm("alice", 100)], &vec![], 5)
        .unwrap();
    assert_eq!(total, 0);
    assert_eq!(points_of(&m, "alice"), None);
}

#[test]
fn geometric_mean_derivation() {
    let mut m = mixer(0, 0);
    let total = m
        .initialize_members(&vec![gm("alice", 100)], &vec![gm("alice", 900)], 5)
        .unwrap();
    // floor(sqrt(100 * 900)) = 300
    assert_eq!(total, 300);
    assert_eq!(points_of(&m, "alice"), Some(300));
}

#[test]
fn update_preserves_start_height_and_emits_diff() {
    let mut m = mixer(0, 0);
    m.initialize_members(&vec![gm("alice", 100)], &vec![gm("alice", 900)], 5)
        .unwrap();
    let msg = m
        .execute_member_changed(
            &"leftgroup".to_string(),
            9,
            &vec![diff("alice", Some(100), Some(400))],
            &vec![Some(900)],
        )
        .unwrap();
    // floor(sqrt(400 * 900)) = 600
    assert_eq!(points_of(&m, "alice"), Some(600));
    assert_eq!(msg.diffs.len(), 1);
    assert_eq!(msg.diffs[0].key, "alice");
    assert_eq!(msg.diffs[0].old, Some(300));
    assert_eq!(msg.diffs[0].new, Some(600));
    // the start height stays what it was at first membership
    let listed = m.list_members(None, None).members;
    assert_eq!(listed[0].start_height, 5);
    assert_eq!(m.query_total_points().points, 600);
}

#[test]
fn slash_halves_points_end_to_end() {
    let mut m = mixer(0, 1);
    m.initialize_members(&vec![gm("alice", 400)], &vec![gm("alice", 900)], 5)
        .unwrap();
    assert_eq!(points_of(&m, "alice"), Some(600));
    m.execute_add_slasher(&"knife".to_string()).unwrap();
    let req = m
        .execute_slash(&"knife".to_string(), &"alice".to_string(), Portion::percent(50))
        .unwrap();
    assert_eq!(req.addr, "alice");
    // both upstream roots are corrected, then re-derived as usual
    let new_left = slash_points(400, &req.portion);
    let new_right = slash_points(900, &req.portion);
    assert_eq!((new_left, new_right), (200, 450));
    m.execute_member_changed(
        &"leftgroup".to_string(),
        9,
        &vec![diff("alice", Some(400), Some(new_left))],
        &vec![Some(900)],
    )
    .unwrap();
    m.execute_member_changed(
        &"rightgroup".to_string(),
        9,
        &vec![diff("alice", Some(900), Some(new_right))],
        &vec![Some(new_left)],
    )
    .unwrap();
    assert_eq!(points_of(&m, "alice"), Some(300));
    assert_eq!(m.query_total_points().points, 300);
}

#[test]
fn third_hook_registration_is_exhausted() {
    let mut m = mixer(2, 0);
    m.execute_add_hook(&"hookone".to_string()).unwrap();
    m.execute_add_hook(&"hooktwo".to_string()).unwrap();
    let err = m.execute_add_hook(&"hookthree".to_string()).unwrap_err();
    assert_eq!(err, ContractError::NoPreauthsLeft);
    assert_eq!(m.preauths().preauths, 0);
    let hooks = m.hooks().hooks;
    assert_eq!(hooks, vec!["hookone".to_string(), "hooktwo".to_string()]);
}

#[test]
fn hook_registry_rules() {
    let mut m = mixer(5, 0);
    m.execute_add_hook(&"listener".to_string()).unwrap();
    assert_eq!(
        m.execute_add_hook(&"listener".to_string()).unwrap_err(),
        ContractError::HookAlreadyRegistered
    );
    assert_eq!(
        m.execute_add_hook(&"BAD".to_string()).unwrap_err(),
        ContractError::InvalidAddress
    );
    // removal is self-service only
    assert_eq!(
        m.execute_remove_hook(&"other".to_string(), &"listener".to_string())
            .unwrap_err(),
        ContractError::Unauthorized
    );
    assert_eq!(
        m.execute_remove_hook(&"ghost".to_string(), &"ghost".to_string())
            .unwrap_err(),
        ContractError::HookNotRegistered
    );
    m.execute_remove_hook(&"listener".to_string(), &"listener".to_string())
        .unwrap();
    assert!(m.hooks().hooks.is_empty());
}

#[test]
fn slasher_registry_rules() {
    let mut m = mixer(0, 2);
    m.execute_add_slasher(&"knife".to_string()).unwrap();
    assert!(m.is_slasher(&"knife".to_string()).is_slasher);
    assert!(!m.is_slasher(&"spoon".to_string()).is_slasher);
    assert_eq!(
        m.execute_add_slasher(&"knife".to_string()).unwrap_err(),
        ContractError::SlasherAlreadyRegistered
    );
    assert_eq!(m.list_slashers().slashers, vec!["knife".to_string()]);
    assert_eq!(
        m.execute_remove_slasher(&"spoon".to_string(), &"knife".to_string())
            .unwrap_err(),
        ContractError::Unauthorized
    );
    m.execute_remove_slasher(&"knife".to_string(), &"knife".to_string())
        .unwrap();
    assert_eq!(
        m.execute_remove_slasher(&"knife".to_string(), &"knife".to_string())
            .unwrap_err(),
        ContractError::SlasherNotRegistered
    );
}

#[test]
fn slash_validation() {
    let mut m = mixer(0, 1);
    assert_eq!(
        m.execute_slash(&"nobody".to_string(), &"alice".to_string(), Portion::percent(10))
            .unwrap_err(),
        ContractError::Unauthorized
    );
    m.execute_add_slasher(&"knife".to_string()).unwrap();
    let too_much = Portion {
        atomics: PORTION_UNIT + 1,
    };
    assert_eq!(
        m.execute_slash(&"knife".to_string(), &"alice".to_string(), too_much)
            .unwrap_err(),
        ContractError::InvalidPortion
    );
    assert_eq!(
        m.execute_slash(&"knife".to_string(), &"NotAnAddr".to_string(), Portion::percent(10))
            .unwrap_err(),
        ContractError::InvalidAddress
    );
}

#[test]
fn portion_arithmetic() {
    assert_eq!(Portion::percent(40).atomics, 400_000_000_000_000_000);
    assert_eq!(slash_points(10000, &Portion::percent(40)), 6000);
    assert_eq!(slash_points(600, &Portion::percent(50)), 300);
    assert_eq!(slash_points(1234, &Portion::percent(0)), 1234);
    assert_eq!(slash_points(1234, &Portion::percent(100)), 0);
    // floor rounding
    assert_eq!(slash_points(3, &Portion::percent(50)), 1);
}

#[test]
fn mixer_function_queries() {
    let m = mixer(0, 0);
    assert_eq!(m.query_mixer_function(100, 900, None).unwrap(), 300);
    assert_eq!(m.query_mixer_function(8000, 10000, None).unwrap(), 8944);
    assert_eq!(m.query_mixer_function(0, 12345, None).unwrap(), 0);
    assert_eq!(m.query_mixer_function(u64::MAX, u64::MAX, None).unwrap(), u64::MAX);
    // the saturating sigmoid curve: 10000 * g / (g + 1000) with g = 1000
    let sig = PoEFunctionType::Sigmoid {
        max_points: 10000,
        s: 1000,
    };
    assert_eq!(m.query_mixer_function(1000, 1000, Some(sig)).unwrap(), 5000);
    let bad = PoEFunctionType::Sigmoid {
        max_points: 10000,
        s: 0,
    };
    assert_eq!(
        m.query_mixer_function(1, 1, Some(bad)).unwrap_err(),
        ContractError::InvalidPoeParams
    );
    assert!(matches!(
        Mixer::new(
            "leftgroup".to_string(),
            "rightgroup".to_string(),
            0,
            0,
            bad
        ),
        Err(ContractError::InvalidPoeParams)
    ));
}

#[test]
fn mixing_is_monotonic_in_each_argument() {
    let m = mixer(0, 0);
    let mut last = 0;
    for left in [0u64, 1, 50, 100, 400, 10_000, 1_000_000] {
        let v = m.query_mixer_function(left, 900, None).unwrap();
        assert!(v >= last);
        last = v;
    }
    let mut last = 0;
    for right in [0u64, 10, 900, 40_000] {
        let v = m.query_mixer_function(123, right, None).unwrap();
        assert!(v >= last);
        last = v;
    }
}

#[test]
fn unauthorized_sender_is_rejected() {
    let mut m = mixer(0, 0);
    m.initialize_members(&vec![gm("alice", 100)], &vec![gm("alice", 900)], 5)
        .unwrap();
    let err = m
        .execute_member_changed(
            &"stranger".to_string(),
            9,
            &vec![diff("alice", Some(100), Some(400))],
            &vec![Some(900)],
        )
        .unwrap_err();
    assert_eq!(err, ContractError::Unauthorized);
    assert_eq!(points_of(&m, "alice"), Some(300));
}

#[test]
fn invalid_address_aborts_whole_batch() {
    let mut m = mixer(0, 0);
    m.initialize_members(&vec![gm("alice", 100)], &vec![gm("alice", 900)], 5)
        .unwrap();
    let err = m
        .execute_member_changed(
            &"leftgroup".to_string(),
            9,
            &vec![
                diff("alice", Some(100), Some(400)),
                diff("NOT VALID", None, Some(1)),
            ],
            &vec![Some(900), Some(1)],
        )
        .unwrap_err();
    assert_eq!(err, ContractError::InvalidAddress);
    // all-or-nothing: the first entry of the batch left no trace either
    assert_eq!(points_of(&m, "alice"), Some(300));
    assert_eq!(m.query_total_points().points, 300);
}

#[test]
fn reapplying_a_batch_changes_nothing() {
    let mut m = mixer(0, 0);
    m.initialize_members(
        &vec![gm("alice", 100), gm("bob", 2500)],
        &vec![gm("alice", 900), gm("bob", 2500)],
        5,
    )
    .unwrap();
    let batch = vec![
        diff("alice", Some(100), Some(400)),
        diff("bob", Some(2500), None),
    ];
    let others = vec![Some(900), Some(2500)];
    m.execute_member_changed(&"leftgroup".to_string(), 9, &batch, &others)
        .unwrap();
    let total_once = m.query_total_points().points;
    let alice_once = points_of(&m, "alice");
    m.execute_member_changed(&"leftgroup".to_string(), 12, &batch, &others)
        .unwrap();
    assert_eq!(m.query_total_points().points, total_once);
    assert_eq!(points_of(&m, "alice"), alice_once);
    assert_eq!(points_of(&m, "bob"), None);
    let listed = m.list_members(None, None).members;
    assert_eq!(listed.len(), 1);
    assert_eq!(listed[0].start_height, 5);
}

#[test]
fn zero_derived_value_removes_the_record() {
    let mut m = mixer(0, 0);
    m.initialize_members(&vec![gm("alice", 100)], &vec![gm("alice", 900)], 5)
        .unwrap();
    m.execute_member_changed(
        &"leftgroup".to_string(),
        9,
        &vec![diff("alice", Some(100), Some(0))],
        &vec![Some(900)],
    )
    .unwrap();
    assert_eq!(points_of(&m, "alice"), None);
    assert_eq!(m.query_total_points().points, 0);
}

#[test]
fn readding_resets_start_height() {
    let mut m = mixer(0, 0);
    m.initialize_members(&vec![gm("alice", 100)], &vec![gm("alice", 900)], 5)
        .unwrap();
    m.execute_member_changed(
        &"leftgroup".to_string(),
        9,
        &vec![diff("alice", Some(100), None)],
        &vec![Some(900)],
    )
    .unwrap();
    m.execute_member_changed(
        &"leftgroup".to_string(),
        14,
        &vec![diff("alice", None, Some(100))],
        &vec![Some(900)],
    )
    .unwrap();
    let listed = m.list_members(None, None).members;
    assert_eq!(listed[0].start_height, 14);
}

#[test]
fn at_height_reads_follow_history() {
    let mut m = mixer(0, 0);
    m.initialize_members(&vec![gm("alice", 100)], &vec![gm("alice", 900)], 10)
        .unwrap();
    m.execute_member_changed(
        &"leftgroup".to_string(),
        20,
        &vec![diff("alice", Some(100), Some(400))],
        &vec![Some(900)],
    )
    .unwrap();
    m.execute_member_changed(
        &"leftgroup".to_string(),
        30,
        &vec![diff("alice", Some(400), None)],
        &vec![Some(900)],
    )
    .unwrap();
    let alice = "alice".to_string();
    assert_eq!(m.query_member(&alice, Some(5)).points, None);
    assert_eq!(m.query_member(&alice, Some(10)).points, Some(300));
    assert_eq!(m.query_member(&alice, Some(19)).points, Some(300));
    assert_eq!(m.query_member(&alice, Some(20)).points, Some(600));
    assert_eq!(m.query_member(&alice, Some(29)).points, Some(600));
    assert_eq!(m.query_member(&alice, Some(35)).points, None);
    assert_eq!(m.query_member(&alice, None).points, None);
}

#[test]
fn list_members_paginates_by_address() {
    let mut m = mixer(0, 0);
    let rows = vec![
        gm("carol", 400),
        gm("alice", 100),
        gm("dave", 900),
        gm("bob", 2500),
    ];
    m.initialize_members(&rows, &rows, 7).unwrap();
    let all: Vec<String> = m
        .list_members(None, None)
        .members
        .iter()
        .map(|x| x.addr.clone())
        .collect();
    assert_eq!(all, vec!["alice", "bob", "carol", "dave"]);
    let page: Vec<String> = m
        .list_members(None, Some(2))
        .members
        .iter()
        .map(|x| x.addr.clone())
        .collect();
    assert_eq!(page, vec!["alice", "bob"]);
    let bob = "bob".to_string();
    let rest: Vec<String> = m
        .list_members(Some(&bob), Some(10))
        .members
        .iter()
        .map(|x| x.addr.clone())
        .collect();
    assert_eq!(rest, vec!["carol", "dave"]);
}

#[test]
fn by_points_pages_concatenate_to_full_traversal() {
    let mut m = mixer(0, 0);
    let rows = vec![
        gm("carol", 400),
        gm("alice", 100),
        gm("dave", 900),
        gm("bob", 100),
    ];
    m.initialize_members(&rows, &rows, 7).unwrap();
    let full: Vec<String> = m
        .list_members_by_points(None, None)
        .members
        .iter()
        .map(|x| x.addr.clone())
        .collect();
    assert_eq!(full, vec!["dave", "carol", "alice", "bob"]);
    let mut walked: Vec<String> = Vec::new();
    let mut cursor: Option<Member> = None;
    loop {
        let page = m.list_members_by_points(cursor.as_ref(), Some(1)).members;
        if page.is_empty() {
            break;
        }
        assert_eq!(page.len(), 1);
        walked.push(page[0].addr.clone());
        cursor = Some(Member {
            addr: page[0].addr.clone(),
            points: page[0].points,
            start_height: page[0].start_height,
        });
    }
    assert_eq!(walked, full);
}

#[test]
fn repair_pass_skips_degenerate_values() {
    let mut m = mixer(0, 0);
    m.initialize_members(
        &vec![gm("alice", 1), gm("bob", 900)],
        &vec![gm("alice", 1), gm("bob", 900)],
        5,
    )
    .unwrap();
    assert_eq!(points_of(&m, "alice"), Some(1));
    let msg = m.generate_pending_member_updates();
    assert_eq!(msg.diffs.len(), 1);
    assert_eq!(msg.diffs[0].key, "bob");
    assert_eq!(msg.diffs[0].old, Some(900));
    assert_eq!(msg.diffs[0].new, Some(900));
}

#[test]
fn groups_and_preauths_are_readable() {
    let m = mixer(3, 4);
    let groups = m.query_groups();
    assert_eq!(groups.left, "leftgroup");
    assert_eq!(groups.right, "rightgroup");
    assert_eq!(m.preauths().preauths, 3);
    assert!(matches!(
        Mixer::new(
            "NOT VALID".to_string(),
            "rightgroup".to_string(),
            0,
            0,
            PoEFunctionType::GeometricMean
        ),
        Err(ContractError::InvalidAddress)
    ));
}

#[test]
fn page_limits_default_thirty_and_cap_one_hundred() {
    let mut m = mixer(0, 0);
    let mut rows: Vec<GroupMember> = Vec::new();
    for i in 0..150u64 {
        rows.push(gm(&format!("m{:03}", i), 1000 + i));
    }
    m.initialize_members(&rows, &rows, 3).unwrap();
    assert_eq!(m.list_members(None, None).members.len(), 30);
    assert_eq!(m.list_members(None, Some(200)).members.len(), 100);
    assert_eq!(m.list_members_by_points(None, None).members.len(), 30);
    assert_eq!(m.list_members_by_points(None, Some(200)).members.len(), 100);
    // the by-points traversal leads with the highest derived value
    let first = &m.list_members_by_points(None, Some(1)).members[0];
    assert_eq!(first.addr, "m149");
    assert_eq!(first.points, 1149);
}
