//! The mixer engine driven through full two-source scenarios: an engagement
//! group on the left, a staking group on the right, mixed by the geometric
//! mean.

use tg4_mixer::contract::Mixer;
use tg4_mixer::msg::{GroupMember, Member, MemberDiff};
use tg4_mixer::poe::PoEFunctionType;
use tg4_mixer::slash::{slash_points, Portion};

const LEFT: &str = "leftgroup";
const RIGHT: &str = "rightgroup";
const OWNER: &str = "owner";
const VOTER1: &str = "voter0001";
const VOTER2: &str = "voter0002";
const VOTER3: &str = "voter0003";
const VOTER4: &str = "voter0004";
const VOTER5: &str = "voter0005";
const SLASHER: &str = "slasher";
const MIN_BOND: u64 = 100;

fn gm(addr: &str, points: u64) -> GroupMember {
    GroupMember {
        addr: addr.to_string(),
        points,
    }
}

/// The engagement group: a fixed membership with these points.
fn engagement() -> Vec<GroupMember> {
    vec![
        gm(OWNER, 0),
        gm(VOTER1, 100),
        gm(VOTER2, 200),
        gm(VOTER3, 300),
        gm(VOTER4, 400),
        gm(VOTER5, 500),
    ]
}

/// The staking group: one point per staked token, membership from the
/// minimum bond up.
fn staking(stakes: &[(&str, u64)]) -> Vec<GroupMember> {
    stakes
        .iter()
        .filter(|(_, amount)| *amount >= MIN_BOND)
        .map(|(addr, amount)| gm(addr, *amount))
        .collect()
}

fn setup(stakes: &[(&str, u64)], height: u64) -> (Mixer, Vec<GroupMember>) {
    let mut mixer = Mixer::new(
        LEFT.to_string(),
        RIGHT.to_string(),
        0,
        1,
        PoEFunctionType::GeometricMean,
    )
    .unwrap();
    let right = staking(stakes);
    mixer
        .initialize_members(&engagement(), &right, height)
        .unwrap();
    (mixer, right)
}

fn points_of(mixer: &Mixer, addr: &str) -> Option<u64> {
    mixer.query_member(&addr.to_string(), None).points
}

#[allow(clippy::too_many_arguments)]
fn check_membership(
    mixer: &Mixer,
    owner: Option<u64>,
    voter1: Option<u64>,
    voter2: Option<u64>,
    voter3: Option<u64>,
    voter4: Option<u64>,
    voter5: Option<u64>,
) {
    assert_eq!(points_of(mixer, OWNER), owner);
    assert_eq!(points_of(mixer, VOTER1), voter1);
    assert_eq!(points_of(mixer, VOTER2), voter2);
    assert_eq!(points_of(mixer, VOTER3), voter3);
    assert_eq!(points_of(mixer, VOTER4), voter4);
    assert_eq!(points_of(mixer, VOTER5), voter5);
}

fn diff(addr: &str, old: Option<u64>, new: Option<u64>) -> MemberDiff {
    MemberDiff {
        key: addr.to_string(),
        old,
        new,
    }
}

fn listed(mixer: &Mixer, start_after: Option<&Member>, limit: Option<u32>) -> Vec<(String, u64, u64)> {
    mixer
        .list_members_by_points(start_after, limit)
        .members
        .iter()
        .map(|m| (m.addr.clone(), m.points, m.start_height))
        .collect()
}

#[test]
fn basic_init() {
    let (mixer, _) = setup(
        &[
            (OWNER, 88888888888), // 0 engagement points, so no derived value
            (VOTER1, 10000),      // 10000 stake, 100 points -> 1000 mixed
            (VOTER3, 7500),       // 7500 stake, 300 points -> 1500 mixed
        ],
        12347,
    );
    // a zero mixed value means absence, so the owner holds no record
    check_membership(&mixer, None, Some(1000), None, Some(1500), None, None);
    assert_eq!(mixer.query_total_points().points, 2500);
}

#[test]
fn update_with_upstream_change() {
    let (mut mixer, _) = setup(
        &[
            (VOTER1, 10000), // 10000 stake, 100 points -> 1000 mixed
            (VOTER3, 7500),  // 7500 stake, 300 points -> 1500 mixed
            (VOTER5, 50),    // below the minimum bond -> absent
        ],
        12347,
    );
    check_membership(&mixer, None, Some(1000), None, Some(1500), None, None);

    // voter5 stakes 450 more: 500 staked, 500 engagement points
    mixer
        .execute_member_changed(
            &RIGHT.to_string(),
            12348,
            &vec![diff(VOTER5, None, Some(500))],
            &vec![Some(500)],
        )
        .unwrap();
    check_membership(&mixer, None, Some(1000), None, Some(1500), None, Some(500));

    // engagement update: remove voter1, set voter2 to 300, voter3 to 1200
    mixer
        .execute_member_changed(
            &LEFT.to_string(),
            12349,
            &vec![
                diff(VOTER1, Some(100), None),
                diff(VOTER2, None, Some(300)),
                diff(VOTER3, Some(300), Some(1200)),
            ],
            &vec![Some(10000), None, Some(7500)],
        )
        .unwrap();
    check_membership(&mixer, None, None, None, Some(3000), None, Some(500));
    assert_eq!(mixer.query_total_points().points, 3500);
}

#[test]
fn hook_on_engagement() {
    let (mut mixer, _) = setup(
        &[
            (VOTER1, 10000), // 10000 stake, 100 points -> 1000 mixed
            (VOTER3, 7500),  // 7500 stake, 300 points -> 1500 mixed
            (VOTER5, 50),    // below the minimum bond -> absent
        ],
        12347,
    );
    check_membership(&mixer, None, Some(1000), None, Some(1500), None, None);

    // the engagement group's change notification: add voter2 with 400 and
    // voter1 with 8000, remove voter3
    let msg = mixer
        .execute_member_changed(
            &LEFT.to_string(),
            12348,
            &vec![
                diff(VOTER2, None, Some(400)),
                diff(VOTER1, Some(100), Some(8000)),
                diff(VOTER3, Some(300), None),
            ],
            &vec![None, Some(10000), None],
        )
        .unwrap();
    check_membership(&mixer, None, Some(8944), None, None, None, None);
    // the emitted batch carries voter1's transition for the hooks
    assert_eq!(msg.diffs[1].key, VOTER1);
    assert_eq!(msg.diffs[1].old, Some(1000));
    assert_eq!(msg.diffs[1].new, Some(8944));
}

#[test]
fn slashing_works() {
    let (mut mixer, _) = setup(
        &[
            (VOTER1, 10000), // 10000 stake, 100 points -> 1000 mixed
            (VOTER2, 20000), // 20000 stake, 200 points -> 2000 mixed
            (VOTER3, 7500),  // 7500 stake, 300 points -> 1500 mixed
        ],
        12347,
    );
    check_membership(&mixer, None, Some(1000), Some(2000), Some(1500), None, None);

    // register the slasher through the one preauthorization
    mixer.execute_add_slasher(&SLASHER.to_string()).unwrap();

    // slash voter1 by 40 percent: the request goes to both groups, whose
    // corrected values come back as ordinary change notifications
    let req = mixer
        .execute_slash(&SLASHER.to_string(), &VOTER1.to_string(), Portion::percent(40))
        .unwrap();
    let new_engagement = slash_points(100, &req.portion);
    let new_stake = slash_points(10000, &req.portion);
    assert_eq!((new_engagement, new_stake), (60, 6000));
    mixer
        .execute_member_changed(
            &LEFT.to_string(),
            12348,
            &vec![diff(VOTER1, Some(100), Some(new_engagement))],
            &vec![Some(10000)],
        )
        .unwrap();
    mixer
        .execute_member_changed(
            &RIGHT.to_string(),
            12348,
            &vec![diff(VOTER1, Some(10000), Some(new_stake))],
            &vec![Some(new_engagement)],
        )
        .unwrap();

    // voter2 is left alone; slash voter3 by 20 percent
    let req = mixer
        .execute_slash(&SLASHER.to_string(), &VOTER3.to_string(), Portion::percent(20))
        .unwrap();
    let new_engagement = slash_points(300, &req.portion);
    let new_stake = slash_points(7500, &req.portion);
    mixer
        .execute_member_changed(
            &LEFT.to_string(),
            12349,
            &vec![diff(VOTER3, Some(300), Some(new_engagement))],
            &vec![Some(7500)],
        )
        .unwrap();
    mixer
        .execute_member_changed(
            &RIGHT.to_string(),
            12349,
            &vec![diff(VOTER3, Some(7500), Some(new_stake))],
            &vec![Some(new_engagement)],
        )
        .unwrap();

    check_membership(&mixer, None, Some(600), Some(2000), Some(1200), None, None);
}

#[test]
fn list_members_by_points_tie_breaking() {
    let (mut mixer, _) = setup(
        &[
            (VOTER1, 10000), // 10000 stake, 100 points -> 1000 mixed
            (VOTER3, 7500),  // 7500 stake, 300 points -> 1500 mixed
            (VOTER2, 50),    // below the minimum bond -> absent
        ],
        12347,
    );
    check_membership(&mixer, None, Some(1000), None, Some(1500), None, None);

    let members = listed(&mixer, None, None);
    assert_eq!(
        members,
        vec![
            (VOTER3.to_string(), 1500, 12347),
            (VOTER1.to_string(), 1000, 12347),
        ]
    );

    // an extra member whose mixed points tie with voter1's
    mixer
        .execute_member_changed(
            &RIGHT.to_string(),
            12348,
            &vec![diff(VOTER2, None, Some(5000))],
            &vec![Some(200)],
        )
        .unwrap();
    check_membership(&mixer, None, Some(1000), Some(1000), Some(1500), None, None);

    // sorted by points descending, ties by start height ascending
    let members = listed(&mixer, None, None);
    assert_eq!(
        members,
        vec![
            (VOTER3.to_string(), 1500, 12347),
            (VOTER1.to_string(), 1000, 12347),
            (VOTER2.to_string(), 1000, 12348),
        ]
    );

    // pagination with limit one: each page holds the next entry
    let members = listed(&mixer, None, Some(1));
    assert_eq!(members, vec![(VOTER3.to_string(), 1500, 12347)]);

    let cursor = Member {
        addr: members[0].0.clone(),
        points: members[0].1,
        start_height: members[0].2,
    };
    let members = listed(&mixer, Some(&cursor), Some(1));
    assert_eq!(members, vec![(VOTER1.to_string(), 1000, 12347)]);

    let cursor = Member {
        addr: members[0].0.clone(),
        points: members[0].1,
        start_height: members[0].2,
    };
    let members = listed(&mixer, Some(&cursor), Some(1));
    assert_eq!(members, vec![(VOTER2.to_string(), 1000, 12348)]);

    let cursor = Member {
        addr: members[0].0.clone(),
        points: members[0].1,
        start_height: members[0].2,
    };
    let members = listed(&mixer, Some(&cursor), Some(1));
    assert_eq!(members.len(), 0);
}
