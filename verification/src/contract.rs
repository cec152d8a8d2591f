//! The mixer engine: owns the snapshot store, the aggregate total, the
//! height-versioned history, and the hook and slasher registries, and applies
//! upstream change notifications through the configured mixing function.
//!
//! Every state transition is all-or-nothing: a failed transition returns an
//! error and leaves the engine exactly as it was.

use vstd::prelude::*;
use crate::addr::{lex_lt, valid_addr, validate_addr, str_eq};
use crate::error::ContractError;
use crate::msg::{
    diffs_view, members_view, rows_view, strings_view, DiffData, GroupMember, GroupMemberData,
    Member, MemberChangedHookMsg, MemberData, MemberDiff,
};
use crate::poe::PoEFunctionType;
use crate::snapshot::{
    addrs_sorted, clone_members, erase, erase_member, get_member, lookup, points_of, store,
    store_member, sum_points, lemma_erase_sum, lemma_points_le_sum, lemma_store_sum,
};

verus! {

/// One record of the height-versioned history: the value of an address
/// effective from `height` on, `None` marking absence.
#[derive(Debug)]
pub struct SnapshotEntry {
    pub addr: String,
    pub height: u64,
    pub info: Option<(u64, u64)>,
}

/// The mathematical value of a [`SnapshotEntry`]: `info` holds points and
/// start height when the address is a member from `height` on.
pub struct LogData {
    pub addr: Seq<char>,
    pub height: u64,
    pub info: Option<(u64, u64)>,
}

impl View for SnapshotEntry {
    type V = LogData;

    open spec fn view(&self) -> LogData {
        LogData { addr: self.addr@, height: self.height, info: self.info }
    }
}

/// The view of the history log.
pub open spec fn log_view(s: Seq<SnapshotEntry>) -> Seq<LogData> {
    s.map_values(|e: SnapshotEntry| e@)
}

/// The value of an address effective at `h`: the most recent entry at or
/// before that height.
pub open spec fn value_at(log: Seq<LogData>, a: Seq<char>, h: u64) -> Option<(u64, u64)>
    decreases log.len(),
{
    if log.len() == 0 {
        None
    } else if log.last().addr == a && log.last().height <= h {
        log.last().info
    } else {
        value_at(log.drop_last(), a, h)
    }
}

/// The membership-aggregation engine.
pub struct Mixer {
    left_group: String,
    right_group: String,
    function_type: PoEFunctionType,
    halflife: Option<u64>,
    members: Vec<Member>,
    total: u64,
    log: Vec<SnapshotEntry>,
    hooks: Vec<String>,
    slashers: Vec<String>,
    preauths_hooks: u64,
    preauths_slashing: u64,
}

/// The mathematical value of the whole engine state.
pub struct MixerView {
    pub left_group: Seq<char>,
    pub right_group: Seq<char>,
    pub function_type: PoEFunctionType,
    pub halflife: Option<u64>,
    pub members: Seq<MemberData>,
    pub total: u64,
    pub log: Seq<LogData>,
    pub hooks: Seq<Seq<char>>,
    pub slashers: Seq<Seq<char>>,
    pub preauths_hooks: u64,
    pub preauths_slashing: u64,
}

impl View for Mixer {
    type V = MixerView;

    closed spec fn view(&self) -> MixerView {
        MixerView {
            left_group: self.left_group@,
            right_group: self.right_group@,
            function_type: self.function_type,
            halflife: self.halflife,
            members: members_view(self.members@),
            total: self.total,
            log: log_view(self.log@),
            hooks: strings_view(self.hooks@),
            slashers: strings_view(self.slashers@),
            preauths_hooks: self.preauths_hooks,
            preauths_slashing: self.preauths_slashing,
        }
    }
}

impl MixerView {
    /// The engine invariant: the store is strictly sorted with positive
    /// points under valid addresses, the aggregate total equals the sum of
    /// all stored points, the history heights never decrease, the registries
    /// hold distinct valid addresses, and the mixing parameters are valid.
    pub open spec fn wf(self) -> bool {
        &&& addrs_sorted(self.members)
        &&& self.total as int == sum_points(self.members)
        &&& forall|k: int|
            0 <= k < self.members.len() ==> valid_addr(#[trigger] self.members[k].addr)
                && self.members[k].points > 0
        &&& forall|i: int, j: int|
            0 <= i < j < self.log.len() ==> #[trigger] self.log[i].height
                <= #[trigger] self.log[j].height
        &&& forall|i: int, j: int|
            0 <= i < j < self.hooks.len() ==> (#[trigger] self.hooks[i]) != (
            #[trigger] self.hooks[j])
        &&& forall|i: int, j: int|
            0 <= i < j < self.slashers.len() ==> (#[trigger] self.slashers[i]) != (
            #[trigger] self.slashers[j])
        &&& self.function_type.params_valid()
    }

    /// The logical clock: the height of the newest history entry.
    pub open spec fn current_height(self) -> u64 {
        if self.log.len() == 0 {
            0
        } else {
            self.log.last().height
        }
    }
}

/// The derived membership value: present exactly when both sides are present
/// and the mixed points are positive.
pub open spec fn derived_points(
    ft: PoEFunctionType,
    new_raw: Option<u64>,
    other: Option<u64>,
) -> Option<u64> {
    match (new_raw, other) {
        (Some(x), Some(y)) => {
            let v = ft.mix_spec(x, y);
            if v > 0 {
                Some(v as u64)
            } else {
                None
            }
        },
        _ => None,
    }
}

/// One step of the incremental sync: the new store, the new total, the log
/// entry written, and the diff emitted.
pub open spec fn sync_step(
    ms: Seq<MemberData>,
    total: int,
    ft: PoEFunctionType,
    key: Seq<char>,
    new_raw: Option<u64>,
    other: Option<u64>,
    height: u64,
) -> (Seq<MemberData>, int, LogData, DiffData) {
    let prev = lookup(ms, key);
    let start = match prev {
        Some(x) => x.start_height,
        None => height,
    };
    let der = derived_points(ft, new_raw, other);
    let new_pts: int = match der {
        Some(v) => v as int,
        None => 0,
    };
    let total2 = total - points_of(ms, key) + new_pts;
    let ms2 = match der {
        Some(v) => store(ms, MemberData { addr: key, points: v, start_height: start }),
        None => erase(ms, key),
    };
    let entry = LogData {
        addr: key,
        height,
        info: match der {
            Some(v) => Some((v, start)),
            None => None,
        },
    };
    let d = DiffData {
        key,
        old: match prev {
            Some(x) => Some(x.points),
            None => None,
        },
        new: der,
    };
    (ms2, total2, entry, d)
}

/// The outcome of applying a whole batch.
pub enum SyncOutcome {
    /// Every entry applied: the final store and total, the history suffix
    /// written, and the diffs emitted, in arrival order.
    Applied { members: Seq<MemberData>, total: int, written: Seq<LogData>, diffs: Seq<DiffData> },
    /// The batch was rejected; no state is visible.
    Rejected { err: ContractError },
}

/// Prepends already-processed diffs and log entries to a continuation.
pub open spec fn sync_cont(ds: Seq<DiffData>, ls: Seq<LogData>, o: SyncOutcome) -> SyncOutcome {
    match o {
        SyncOutcome::Applied { members, total, written, diffs } => SyncOutcome::Applied {
            members,
            total,
            written: ls + written,
            diffs: ds + diffs,
        },
        r => r,
    }
}

/// Applies a batch of changes, entry by entry, in arrival order: the
/// functional model of the incremental sync algorithm.  Each change carries
/// the new raw value on the changed side; `os` carries the other side's
/// current value for the same address.
pub open spec fn sync_run(
    ms: Seq<MemberData>,
    total: int,
    ft: PoEFunctionType,
    cs: Seq<DiffData>,
    os: Seq<Option<u64>>,
    height: u64,
) -> SyncOutcome
    decreases cs.len(),
{
    if cs.len() == 0 {
        SyncOutcome::Applied {
            members: ms,
            total,
            written: Seq::empty(),
            diffs: Seq::empty(),
        }
    } else if !valid_addr(cs[0].key) {
        SyncOutcome::Rejected { err: ContractError::InvalidAddress }
    } else {
        let (ms2, t2, entry, d) = sync_step(ms, total, ft, cs[0].key, cs[0].new, os[0], height);
        if t2 > u64::MAX {
            SyncOutcome::Rejected { err: ContractError::TotalOverflow }
        } else {
            sync_cont(
                seq![d],
                seq![entry],
                sync_run(ms2, t2, ft, cs.drop_first(), os.drop_first(), height),
            )
        }
    }
}

/// Composing continuations concatenates what they prepend.
proof fn lemma_sync_cont_compose(
    ds: Seq<DiffData>,
    ls: Seq<LogData>,
    d: DiffData,
    l: LogData,
    o: SyncOutcome,
)
    ensures
        sync_cont(ds, ls, sync_cont(seq![d], seq![l], o)) == sync_cont(
            ds.push(d),
            ls.push(l),
            o,
        ),
{
    match o {
        SyncOutcome::Applied { members, total, written, diffs } => {
            assert(ds + (seq![d] + diffs) =~= ds.push(d) + diffs);
            assert(ls + (seq![l] + written) =~= ls.push(l) + written);
        },
        _ => {},
    }
}

impl Mixer {
    /// Applies a batch of upstream diffs: for each entry, derives the new
    /// value through the mixing function when both sides are present,
    /// preserves the start height across value edits, moves the aggregate
    /// total by the difference, writes the record and the history entry, and
    /// emits a diff — all of it, or nothing, exactly as [`sync_run`] says.
    #[verifier::rlimit(100)]
    #[verifier::spinoff_prover]
    pub fn update_members(
        &mut self,
        height: u64,
        changes: &Vec<MemberDiff>,
        others: &Vec<Option<u64>>,
    ) -> (r: Result<MemberChangedHookMsg, ContractError>)
        requires
            old(self)@.wf(),
            changes@.len() == others@.len(),
            height >= old(self)@.current_height(),
        ensures
            final(self)@.wf(),
            final(self)@.current_height() >= old(self)@.current_height(),
            final(self)@.left_group == old(self)@.left_group,
            final(self)@.right_group == old(self)@.right_group,
            final(self)@.function_type == old(self)@.function_type,
            final(self)@.halflife == old(self)@.halflife,
            final(self)@.hooks == old(self)@.hooks,
            final(self)@.slashers == old(self)@.slashers,
            final(self)@.preauths_hooks == old(self)@.preauths_hooks,
            final(self)@.preauths_slashing == old(self)@.preauths_slashing,
            match r {
                Ok(msg) => sync_run(
                    old(self)@.members,
                    old(self)@.total as int,
                    old(self)@.function_type,
                    diffs_view(changes@),
                    others@,
                    height,
                ) == (SyncOutcome::Applied {
                    members: final(self)@.members,
                    total: final(self)@.total as int,
                    written: final(self)@.log.skip(old(self)@.log.len() as int),
                    diffs: diffs_view(msg.diffs@),
                }) && final(self)@.log.take(old(self)@.log.len() as int) == old(self)@.log,
                Err(e) => final(self)@ == old(self)@ && sync_run(
                    old(self)@.members,
                    old(self)@.total as int,
                    old(self)@.function_type,
                    diffs_view(changes@),
                    others@,
                    height,
                ) == (SyncOutcome::Rejected { err: e }),
            },
    {
        let ghost v0 = self@;
        let ghost cv = diffs_view(changes@);
        let ghost ov = others@;
        let ghost run0 = sync_run(v0.members, v0.total as int, v0.function_type, cv, ov, height);
        let mut ms = clone_members(&self.members);
        let mut total: u64 = self.total;
        let mut written: Vec<SnapshotEntry> = Vec::new();
        let mut diffs: Vec<MemberDiff> = Vec::new();
        let mut i: usize = 0;
        proof {
            assert(cv.skip(0) =~= cv);
            assert(ov.skip(0) =~= ov);
            assert(diffs_view(diffs@) =~= Seq::<DiffData>::empty());
            assert(log_view(written@) =~= Seq::<LogData>::empty());
        }
        while i < changes.len()
            invariant
                0 <= i <= changes@.len(),
                changes@.len() == others@.len(),
                cv == diffs_view(changes@),
                ov == others@,
                cv.len() == changes@.len(),
                ov.len() == others@.len(),
                v0 == self@,
                v0.wf(),
                height >= v0.current_height(),
                run0 == sync_run(v0.members, v0.total as int, v0.function_type, cv, ov, height),
                addrs_sorted(members_view(ms@)),
                total as int == sum_points(members_view(ms@)),
                forall|k: int|
                    0 <= k < members_view(ms@).len() ==> valid_addr(
                        #[trigger] members_view(ms@)[k].addr,
                    ) && members_view(ms@)[k].points > 0,
                forall|k: int| 0 <= k < log_view(written@).len() ==> (#[trigger] log_view(
                    written@,
                )[k].height) == height,
                run0 == sync_cont(
                    diffs_view(diffs@),
                    log_view(written@),
                    sync_run(
                        members_view(ms@),
                        total as int,
                        v0.function_type,
                        cv.skip(i as int),
                        ov.skip(i as int),
                        height,
                    ),
                ),
            decreases changes@.len() - i,
        {
            let ghost ms_pre = members_view(ms@);
            let ghost total_pre = total as int;
            let ghost ds_pre = diffs_view(diffs@);
            let ghost ls_pre = log_view(written@);
            proof {
                assert(cv.skip(i as int)[0] == cv[i as int]);
                assert(ov.skip(i as int)[0] == ov[i as int]);
                assert(cv.skip(i as int).drop_first() =~= cv.skip(i + 1));
                assert(ov.skip(i as int).drop_first() =~= ov.skip(i + 1));
                assert(cv[i as int] == changes@[i as int]@);
            }
            let change = &changes[i];
            if !validate_addr(change.key.as_str()) {
                return Err(ContractError::InvalidAddress);
            }
            let prev = get_member(&ms, change.key.as_str());
            let prev_pts: u64 = match prev {
                Some(p) => p.0,
                None => 0,
            };
            let start: u64 = match prev {
                Some(p) => p.1,
                None => height,
            };
            proof {
                lemma_points_le_sum(ms_pre, cv[i as int].key);
                assert(prev_pts as int == points_of(ms_pre, cv[i as int].key));
            }
            let der: Option<u64> = match (change.new, others[i]) {
                (Some(x), Some(y)) => {
                    let m = self.function_type.mix(x, y);
                    if m > 0 {
                        Some(m)
                    } else {
                        None
                    }
                },
                _ => None,
            };
            proof {
                assert(der == derived_points(v0.function_type, cv[i as int].new, ov[i as int]));
            }
            let new_pts: u64 = match der {
                Some(v) => v,
                None => 0,
            };
            let kept: u64 = total - prev_pts;
            if new_pts > u64::MAX - kept {
                return Err(ContractError::TotalOverflow);
            }
            total = kept + new_pts;
            match der {
                Some(v) => {
                    store_member(
                        &mut ms,
                        Member { addr: change.key.clone(), points: v, start_height: start },
                    );
                    written.push(
                        SnapshotEntry { addr: change.key.clone(), height, info: Some((v, start)) },
                    );
                    proof {
                        let m = MemberData {
                            addr: cv[i as int].key,
                            points: v,
                            start_height: start,
                        };
                        lemma_store_sum(ms_pre, m);
                        crate::snapshot::lemma_store_elems(ms_pre, m);
                        assert forall|k: int|
                            0 <= k < members_view(ms@).len() implies valid_addr(
                            #[trigger] members_view(ms@)[k].addr,
                        ) && members_view(ms@)[k].points > 0 by {
                            let t = members_view(ms@);
                            if t[k] != m {
                                let w = choose|i2: int| 0 <= i2 < ms_pre.len() && ms_pre[i2] == t[k];
                            }
                        }
                    }
                },
                None => {
                    erase_member(&mut ms, change.key.as_str());
                    written.push(
                        SnapshotEntry { addr: change.key.clone(), height, info: None },
                    );
                    proof {
                        lemma_erase_sum(ms_pre, cv[i as int].key);
                        crate::snapshot::lemma_erase_members(ms_pre, cv[i as int].key);
                        assert forall|k: int|
                            0 <= k < members_view(ms@).len() implies valid_addr(
                            #[trigger] members_view(ms@)[k].addr,
                        ) && members_view(ms@)[k].points > 0 by {
                            let t = members_view(ms@);
                            let w = choose|i2: int| 0 <= i2 < ms_pre.len() && ms_pre[i2] == t[k];
                        }
                    }
                },
            }
            diffs.push(
                MemberDiff {
                    key: change.key.clone(),
                    old: match prev {
                        Some(p) => Some(p.0),
                        None => None,
                    },
                    new: der,
                },
            );
            proof {
                let step = sync_step(
                    ms_pre,
                    total_pre,
                    v0.function_type,
                    cv[i as int].key,
                    cv[i as int].new,
                    ov[i as int],
                    height,
                );
                assert(members_view(ms@) == step.0);
                assert(total as int == step.1);
                assert(log_view(written@) =~= ls_pre.push(step.2));
                assert(diffs_view(diffs@) =~= ds_pre.push(step.3));
                lemma_sync_cont_compose(
                    ds_pre,
                    ls_pre,
                    step.3,
                    step.2,
                    sync_run(
                        members_view(ms@),
                        total as int,
                        v0.function_type,
                        cv.skip(i + 1),
                        ov.skip(i + 1),
                        height,
                    ),
                );
            }
            i = i + 1;
        }
        proof {
            assert(cv.skip(i as int) =~= Seq::<DiffData>::empty());
            assert(ov.skip(i as int) =~= Seq::<Option<u64>>::empty());
        }
        let ghost old_log_len = self.log@.len();
        let ghost ws = log_view(written@);
        self.members = ms;
        self.total = total;
        let mut w = written;
        self.log.append(&mut w);
        let r = MemberChangedHookMsg { diffs };
        proof {
            let lg = log_view(self.log@);
            assert(lg.take(old_log_len as int) =~= v0.log);
            assert(lg.skip(old_log_len as int) =~= ws);
            assert forall|b: int| old_log_len <= b < lg.len() implies (#[trigger] lg[b].height)
                == height by {
                assert(lg[b] == lg.skip(old_log_len as int)[b - old_log_len]);
                assert(ws[b - old_log_len].height == height);
            }
            assert forall|a: int, b: int|
                0 <= a < b < lg.len() implies #[trigger] lg[a].height <= #[trigger] lg[b].height
                by {
                if b < old_log_len {
                    assert(lg[a] == lg.take(old_log_len as int)[a]);
                    assert(lg[b] == lg.take(old_log_len as int)[b]);
                    assert(v0.log[a].height <= v0.log[b].height);
                } else if a >= old_log_len {
                } else {
                    assert(lg[a] == lg.take(old_log_len as int)[a]);
                    assert(lg[a] == v0.log[a]);
                    if a + 1 < v0.log.len() {
                        assert(v0.log[a].height <= v0.log[v0.log.len() - 1].height);
                    }
                    assert(v0.log[a].height <= height);
                }
            }
            if lg.len() > 0 {
                if lg.len() > old_log_len {
                    assert(lg.last().height == height);
                } else {
                    assert(lg =~= v0.log);
                }
            }
            assert(self@.hooks == v0.hooks);
            assert(self@.slashers == v0.slashers);
            assert forall|a: int, b: int|
                0 <= a < b < self@.hooks.len() implies (#[trigger] self@.hooks[a]) != (
            #[trigger] self@.hooks[b]) by {
                assert(v0.hooks[a] != v0.hooks[b]);
            }
            assert forall|a: int, b: int|
                0 <= a < b < self@.slashers.len() implies (#[trigger] self@.slashers[a]) != (
            #[trigger] self@.slashers[b]) by {
                assert(v0.slashers[a] != v0.slashers[b]);
            }
        }
        Ok(r)
    }
}


/// Whether an address is in a registry.
pub open spec fn has_addr(s: Seq<Seq<char>>, a: Seq<char>) -> bool {
    exists|k: int| 0 <= k < s.len() && s[k] == a
}

/// The first registry position holding an address.
pub open spec fn addr_pos(s: Seq<Seq<char>>, a: Seq<char>) -> int
    decreases s.len(),
{
    if s.len() == 0 {
        0
    } else if s[0] == a {
        0
    } else {
        1 + addr_pos(s.drop_first(), a)
    }
}

/// The first match is the registry position.
proof fn lemma_addr_pos_at(s: Seq<Seq<char>>, a: Seq<char>, i: int)
    requires
        0 <= i < s.len(),
        s[i] == a,
        forall|k: int| 0 <= k < i ==> (#[trigger] s[k]) != a,
    ensures
        addr_pos(s, a) == i,
    decreases i,
{
    if i > 0 {
        assert(s.drop_first()[i - 1] == s[i]);
        assert forall|k: int| 0 <= k < i - 1 implies (#[trigger] s.drop_first()[k]) != a by {
            assert(s.drop_first()[k] == s[k + 1]);
        }
        lemma_addr_pos_at(s.drop_first(), a, i - 1);
    }
}

/// Looks an address up in a registry.
fn contains_addr(v: &Vec<String>, a: &str) -> (r: bool)
    ensures
        r == has_addr(strings_view(v@), a@),
{
    let ghost s = strings_view(v@);
    let mut i: usize = 0;
    while i < v.len()
        invariant
            0 <= i <= v.len(),
            s == strings_view(v@),
            s.len() == v@.len(),
            forall|k: int| 0 <= k < i ==> (#[trigger] s[k]) != a@,
        decreases v.len() - i,
    {
        if str_eq(v[i].as_str(), a) {
            proof {
                assert(s[i as int] == a@);
            }
            return true;
        }
        i = i + 1;
    }
    proof {
        assert(!has_addr(s, a@));
    }
    false
}

/// Finds the first registry position of an address known to be present.
fn position_of_addr(v: &Vec<String>, a: &str) -> (r: usize)
    requires
        has_addr(strings_view(v@), a@),
    ensures
        r as int == addr_pos(strings_view(v@), a@),
        r < v.len(),
        strings_view(v@)[r as int] == a@,
{
    let ghost s = strings_view(v@);
    let mut i: usize = 0;
    loop
        invariant
            0 <= i <= v.len(),
            s == strings_view(v@),
            s.len() == v@.len(),
            has_addr(s, a@),
            forall|k: int| 0 <= k < i ==> (#[trigger] s[k]) != a@,
        decreases v.len() - i,
    {
        if i >= v.len() {
            proof {
                let w = choose|k: int| 0 <= k < s.len() && s[k] == a@;
                assert(false);
            }
        }
        if str_eq(v[i].as_str(), a) {
            proof {
                lemma_addr_pos_at(s, a@, i as int);
            }
            return i;
        }
        i = i + 1;
    }
}

/// A field-for-field copy of a registry listing.
fn clone_strings(v: &Vec<String>) -> (r: Vec<String>)
    ensures
        strings_view(r@) == strings_view(v@),
{
    let mut r: Vec<String> = Vec::new();
    let mut i: usize = 0;
    while i < v.len()
        invariant
            0 <= i <= v.len(),
            r@.len() == i,
            forall|k: int| 0 <= k < i ==> (#[trigger] r@[k])@ == v@[k]@,
        decreases v.len() - i,
    {
        r.push(v[i].clone());
        i = i + 1;
    }
    proof {
        assert(strings_view(r@) =~= strings_view(v@));
    }
    r
}

/// The raw points an upstream source reports for an address.
pub open spec fn source_points(rows: Seq<GroupMemberData>, a: Seq<char>) -> Option<u64>
    decreases rows.len(),
{
    if rows.len() == 0 {
        None
    } else if rows[0].addr == a {
        Some(rows[0].points)
    } else {
        source_points(rows.drop_first(), a)
    }
}

/// A source listing recast as a batch of additions.
pub open spec fn init_changes(rows: Seq<GroupMemberData>) -> Seq<DiffData> {
    rows.map_values(
        |g: GroupMemberData| DiffData { key: g.addr, old: None, new: Some(g.points) },
    )
}

/// The secondary source's answer for each row of the primary listing.
pub open spec fn other_sides(
    left: Seq<GroupMemberData>,
    right: Seq<GroupMemberData>,
) -> Seq<Option<u64>> {
    left.map_values(|g: GroupMemberData| source_points(right, g.addr))
}

/// Looks an address up in a source listing.
fn lookup_source(rows: &Vec<GroupMember>, a: &str) -> (r: Option<u64>)
    ensures
        r == source_points(rows_view(rows@), a@),
{
    let ghost s = rows_view(rows@);
    let mut i: usize = 0;
    proof {
        assert(s.skip(0) =~= s);
    }
    while i < rows.len()
        invariant
            0 <= i <= rows.len(),
            s == rows_view(rows@),
            s.len() == rows@.len(),
            source_points(s, a@) == source_points(s.skip(i as int), a@),
        decreases rows.len() - i,
    {
        proof {
            assert(s.skip(i as int)[0] == s[i as int]);
            assert(s.skip(i as int).drop_first() =~= s.skip(i + 1));
        }
        if str_eq(rows[i].addr.as_str(), a) {
            return Some(rows[i].points);
        }
        i = i + 1;
    }
    proof {
        assert(s.skip(i as int) =~= Seq::<GroupMemberData>::empty());
    }
    None
}

/// A request to reduce a member's points, to be propagated to both upstream
/// sources so the root values are corrected and re-derived.
#[derive(Debug)]
pub struct SlashRequest {
    pub addr: String,
    pub portion: crate::slash::Portion,
}

/// The diffs of the one-time repair pass: every stored record above the
/// degenerate value one, re-announced unchanged.
pub open spec fn repair_diffs(s: Seq<MemberData>) -> Seq<DiffData>
    decreases s.len(),
{
    if s.len() == 0 {
        Seq::empty()
    } else if s.last().points > 1 {
        repair_diffs(s.drop_last()) + seq![
            DiffData {
                key: s.last().addr,
                old: Some(s.last().points),
                new: Some(s.last().points),
            },
        ]
    } else {
        repair_diffs(s.drop_last())
    }
}

/// The count of records whose address is at or before `a`: where a page
/// starting strictly after `a` begins.
pub open spec fn addr_after_idx(s: Seq<MemberData>, a: Seq<char>) -> int
    decreases s.len(),
{
    if s.len() == 0 {
        0
    } else if !lex_lt(a, s[0].addr) {
        1 + addr_after_idx(s.drop_first(), a)
    } else {
        0
    }
}

/// `addr_after_idx` splits a sorted store at the cursor.
proof fn lemma_addr_after(s: Seq<MemberData>, a: Seq<char>)
    requires
        addrs_sorted(s),
    ensures
        0 <= addr_after_idx(s, a) <= s.len(),
        forall|i: int| 0 <= i < addr_after_idx(s, a) ==> !lex_lt(a, #[trigger] s[i].addr),
        forall|i: int| addr_after_idx(s, a) <= i < s.len() ==> lex_lt(a, #[trigger] s[i].addr),
    decreases s.len(),
{
    if s.len() > 0 {
        assert(s.drop_first() =~= s.subrange(1, s.len() as int));
        assert forall|x: int, y: int|
            0 <= x < y < s.drop_first().len() implies lex_lt(
            #[trigger] s.drop_first()[x].addr,
            #[trigger] s.drop_first()[y].addr,
        ) by {
            assert(s.drop_first()[x] == s[x + 1] && s.drop_first()[y] == s[y + 1]);
        }
        lemma_addr_after(s.drop_first(), a);
        let idx = addr_after_idx(s, a);
        if !lex_lt(a, s[0].addr) {
            assert forall|i: int| 0 <= i < idx implies !lex_lt(a, #[trigger] s[i].addr) by {
                if i > 0 {
                    assert(s.drop_first()[i - 1] == s[i]);
                }
            }
            assert forall|i: int| idx <= i < s.len() implies lex_lt(a, #[trigger] s[i].addr) by {
                assert(s.drop_first()[i - 1] == s[i]);
            }
        } else {
            assert forall|i: int| 0 <= i < s.len() implies lex_lt(a, #[trigger] s[i].addr) by {
                if i > 0 {
                    crate::addr::lemma_lex_transitive(a, s[0].addr, s[i].addr);
                }
            }
        }
    }
}

/// Only one position can satisfy the cursor-split characterization.
proof fn lemma_addr_after_unique(s: Seq<MemberData>, a: Seq<char>, j: int)
    requires
        addrs_sorted(s),
        0 <= j <= s.len(),
        forall|i: int| 0 <= i < j ==> !lex_lt(a, #[trigger] s[i].addr),
        j < s.len() ==> lex_lt(a, s[j].addr),
    ensures
        j == addr_after_idx(s, a),
{
    lemma_addr_after(s, a);
    let idx = addr_after_idx(s, a);
    if j < idx {
        assert(!lex_lt(a, s[j].addr));
    }
    if idx < j {
        assert(!lex_lt(a, s[idx].addr));
    }
}

/// The page bound: the requested limit, defaulting to thirty, capped at one
/// hundred.
pub open spec fn page_limit(limit: Option<u32>) -> int {
    let l: int = match limit {
        Some(v) => v as int,
        None => 30,
    };
    if l > 100 {
        100
    } else {
        l
    }
}

/// Clamps the requested limit.
fn page_limit_exec(limit: Option<u32>) -> (r: usize)
    ensures
        r as int == page_limit(limit),
{
    let l: u32 = match limit {
        Some(v) => v,
        None => 30,
    };
    if l > 100 {
        100
    } else {
        l as usize
    }
}

impl Mixer {
    /// Creates an engine bound to two validated upstream group addresses,
    /// with empty state and the given preauthorization budgets.
    pub fn new(
        left_group: String,
        right_group: String,
        preauths_hooks: u64,
        preauths_slashing: u64,
        function_type: PoEFunctionType,
    ) -> (r: Result<Mixer, ContractError>)
        ensures
            match r {
                Ok(m) => valid_addr(left_group@) && valid_addr(right_group@)
                    && function_type.params_valid() && m@.wf() && m@.left_group == left_group@
                    && m@.right_group == right_group@ && m@.function_type == function_type
                    && m@.halflife is None && m@.members.len() == 0 && m@.total == 0
                    && m@.log.len() == 0 && m@.hooks.len() == 0 && m@.slashers.len() == 0
                    && m@.preauths_hooks == preauths_hooks && m@.preauths_slashing
                    == preauths_slashing,
                Err(e) => (e == ContractError::InvalidAddress && (!valid_addr(left_group@)
                    || !valid_addr(right_group@))) || (e == ContractError::InvalidPoeParams
                    && valid_addr(left_group@) && valid_addr(right_group@)
                    && !function_type.params_valid()),
            },
    {
        if !validate_addr(left_group.as_str()) || !validate_addr(right_group.as_str()) {
            return Err(ContractError::InvalidAddress);
        }
        if let Err(e) = function_type.validate() {
            return Err(e);
        }
        let m = Mixer {
            left_group,
            right_group,
            function_type,
            halflife: None,
            members: Vec::new(),
            total: 0,
            log: Vec::new(),
            hooks: Vec::new(),
            slashers: Vec::new(),
            preauths_hooks,
            preauths_slashing,
        };
        proof {
            assert(m@.members =~= Seq::<MemberData>::empty());
            assert(m@.log =~= Seq::<LogData>::empty());
            assert(m@.hooks =~= Seq::<Seq<char>>::empty());
            assert(m@.slashers =~= Seq::<Seq<char>>::empty());
        }
        Ok(m)
    }

    /// Runs the full-initialization variant of the incremental sync: every
    /// row of the primary listing is derived against the secondary source's
    /// answer for the same address, and the aggregate total of the result is
    /// returned.  No diffs are emitted.
    pub fn initialize_members(
        &mut self,
        left: &Vec<GroupMember>,
        right: &Vec<GroupMember>,
        height: u64,
    ) -> (r: Result<u64, ContractError>)
        requires
            old(self)@.wf(),
            old(self)@.members.len() == 0,
            old(self)@.log.len() == 0,
        ensures
            final(self)@.wf(),
            final(self)@.left_group == old(self)@.left_group,
            final(self)@.right_group == old(self)@.right_group,
            final(self)@.function_type == old(self)@.function_type,
            final(self)@.halflife == old(self)@.halflife,
            final(self)@.hooks == old(self)@.hooks,
            final(self)@.slashers == old(self)@.slashers,
            final(self)@.preauths_hooks == old(self)@.preauths_hooks,
            final(self)@.preauths_slashing == old(self)@.preauths_slashing,
            match sync_run(
                old(self)@.members,
                0,
                old(self)@.function_type,
                init_changes(rows_view(left@)),
                other_sides(rows_view(left@), rows_view(right@)),
                height,
            ) {
                SyncOutcome::Applied { members, total, written, diffs } => r == Ok::<
                    u64,
                    ContractError,
                >(final(self)@.total) && final(self)@.members == members && final(self)@.total
                    as int == total && final(self)@.log == written,
                SyncOutcome::Rejected { err } => r == Err::<u64, ContractError>(err) && final(self)@ == old(self)@,
            },
    {
        let ghost lv = rows_view(left@);
        let ghost rv = rows_view(right@);
        let mut changes: Vec<MemberDiff> = Vec::new();
        let mut others: Vec<Option<u64>> = Vec::new();
        let mut i: usize = 0;
        while i < left.len()
            invariant
                0 <= i <= left.len(),
                lv == rows_view(left@),
                rv == rows_view(right@),
                lv.len() == left@.len(),
                changes@.len() == i,
                others@.len() == i,
                forall|k: int|
                    0 <= k < i ==> (#[trigger] changes@[k])@ == (init_changes(lv))[k],
                forall|k: int| 0 <= k < i ==> (#[trigger] others@[k]) == (other_sides(lv, rv))[k],
            decreases left.len() - i,
        {
            let row = &left[i];
            let other = lookup_source(right, row.addr.as_str());
            changes.push(MemberDiff { key: row.addr.clone(), old: None, new: Some(row.points) });
            others.push(other);
            i = i + 1;
        }
        proof {
            assert(diffs_view(changes@) =~= init_changes(lv));
            assert(others@ =~= other_sides(lv, rv));
            assert(old(self)@.total as int == sum_points(old(self)@.members));
            assert(old(self)@.total == 0) by {
                assert(old(self)@.members =~= Seq::<MemberData>::empty());
            }
            assert(old(self)@.current_height() == 0);
        }
        let res = self.update_members(height, &changes, &others);
        match res {
            Ok(_) => {
                proof {
                    assert(self@.log.skip(0) =~= self@.log);
                    assert(self@.log.take(0) =~= Seq::<LogData>::empty());
                }
                Ok(self.total_points())
            },
            Err(e) => Err(e),
        }
    }

    /// Reads the aggregate total.
    pub fn total_points(&self) -> (r: u64)
        ensures
            r == self@.total,
    {
        self.total
    }

    /// Handles a change notification: only the two bound group contracts may
    /// send one; the batch then applies through [`Mixer::update_members`],
    /// and the returned diffs are what every registered hook must be told.
    pub fn execute_member_changed(
        &mut self,
        sender: &String,
        height: u64,
        changes: &Vec<MemberDiff>,
        others: &Vec<Option<u64>>,
    ) -> (r: Result<MemberChangedHookMsg, ContractError>)
        requires
            old(self)@.wf(),
            changes@.len() == others@.len(),
            height >= old(self)@.current_height(),
        ensures
            final(self)@.wf(),
            final(self)@.left_group == old(self)@.left_group,
            final(self)@.right_group == old(self)@.right_group,
            final(self)@.function_type == old(self)@.function_type,
            final(self)@.halflife == old(self)@.halflife,
            final(self)@.hooks == old(self)@.hooks,
            final(self)@.slashers == old(self)@.slashers,
            final(self)@.preauths_hooks == old(self)@.preauths_hooks,
            final(self)@.preauths_slashing == old(self)@.preauths_slashing,
            match r {
                Ok(msg) => (sender@ == old(self)@.left_group || sender@ == old(self)@.right_group) && sync_run(
                    old(self)@.members,
                    old(self)@.total as int,
                    old(self)@.function_type,
                    diffs_view(changes@),
                    others@,
                    height,
                ) == (SyncOutcome::Applied {
                    members: final(self)@.members,
                    total: final(self)@.total as int,
                    written: final(self)@.log.skip(old(self)@.log.len() as int),
                    diffs: diffs_view(msg.diffs@),
                }) && final(self)@.log.take(old(self)@.log.len() as int) == old(self)@.log,
                Err(e) => final(self)@ == old(self)@ && if sender@ != old(self)@.left_group
                    && sender@ != old(self)@.right_group {
                    e == ContractError::Unauthorized
                } else {
                    sync_run(
                        old(self)@.members,
                        old(self)@.total as int,
                        old(self)@.function_type,
                        diffs_view(changes@),
                        others@,
                        height,
                    ) == (SyncOutcome::Rejected { err: e })
                },
            },
    {
        if str_eq(sender.as_str(), self.left_group.as_str()) || str_eq(
            sender.as_str(),
            self.right_group.as_str(),
        ) {
            self.update_members(height, changes, others)
        } else {
            Err(ContractError::Unauthorized)
        }
    }

    /// Registers a hook, consuming one hook preauthorization.
    pub fn execute_add_hook(&mut self, hook: &String) -> (r: Result<(), ContractError>)
        requires
            old(self)@.wf(),
        ensures
            final(self)@.wf(),
            final(self)@ == (MixerView {
                hooks: final(self)@.hooks,
                preauths_hooks: final(self)@.preauths_hooks,
                ..old(self)@
            }),
            match r {
                Ok(()) => old(self)@.preauths_hooks > 0 && valid_addr(hook@) && !has_addr(
                    old(self)@.hooks,
                    hook@,
                ) && final(self)@.hooks == old(self)@.hooks.push(hook@) && final(self)@.preauths_hooks == old(self)@.preauths_hooks - 1,
                Err(e) => final(self)@ == old(self)@ && ((e == ContractError::NoPreauthsLeft && old(self)@.preauths_hooks == 0) || (e == ContractError::InvalidAddress && old(self)@.preauths_hooks > 0 && !valid_addr(hook@)) || (e
                    == ContractError::HookAlreadyRegistered && old(self)@.preauths_hooks > 0
                    && valid_addr(hook@) && has_addr(old(self)@.hooks, hook@))),
            },
    {
        if self.preauths_hooks == 0 {
            return Err(ContractError::NoPreauthsLeft);
        }
        if !validate_addr(hook.as_str()) {
            return Err(ContractError::InvalidAddress);
        }
        if contains_addr(&self.hooks, hook.as_str()) {
            return Err(ContractError::HookAlreadyRegistered);
        }
        let ghost v0 = self@;
        self.preauths_hooks = self.preauths_hooks - 1;
        self.hooks.push(hook.clone());
        proof {
            assert(self@.hooks =~= v0.hooks.push(hook@));
            assert forall|a: int, b: int|
                0 <= a < b < self@.hooks.len() implies (#[trigger] self@.hooks[a]) != (
            #[trigger] self@.hooks[b]) by {
                if b < v0.hooks.len() as int {
                    assert(v0.hooks[a] != v0.hooks[b]);
                } else {
                    assert(self@.hooks[b] == hook@);
                    assert(self@.hooks[a] == v0.hooks[a]);
                    if v0.hooks[a] == hook@ {
                        assert(has_addr(v0.hooks, hook@));
                    }
                }
            }
        }
        Ok(())
    }

    /// Removes a hook: self-service only.
    pub fn execute_remove_hook(&mut self, sender: &String, hook: &String) -> (r: Result<
        (),
        ContractError,
    >)
        requires
            old(self)@.wf(),
        ensures
            final(self)@.wf(),
            final(self)@ == (MixerView { hooks: final(self)@.hooks, ..old(self)@ }),
            match r {
                Ok(()) => sender@ == hook@ && has_addr(old(self)@.hooks, hook@) && final(self)@.hooks == old(self)@.hooks.remove(addr_pos(old(self)@.hooks, hook@)),
                Err(e) => final(self)@ == old(self)@ && ((e == ContractError::Unauthorized
                    && sender@ != hook@) || (e == ContractError::HookNotRegistered && sender@
                    == hook@ && !has_addr(old(self)@.hooks, hook@))),
            },
    {
        if !str_eq(sender.as_str(), hook.as_str()) {
            return Err(ContractError::Unauthorized);
        }
        if !contains_addr(&self.hooks, hook.as_str()) {
            return Err(ContractError::HookNotRegistered);
        }
        let ghost v0 = self@;
        let pos = position_of_addr(&self.hooks, hook.as_str());
        self.hooks.remove(pos);
        proof {
            assert(self@.hooks =~= v0.hooks.remove(pos as int));
            assert forall|a: int, b: int|
                0 <= a < b < self@.hooks.len() implies (#[trigger] self@.hooks[a]) != (
            #[trigger] self@.hooks[b]) by {
                let h = self@.hooks;
                if b < pos as int {
                    assert(h[a] == v0.hooks[a] && h[b] == v0.hooks[b]);
                } else if a >= pos as int {
                    assert(h[a] == v0.hooks[a + 1] && h[b] == v0.hooks[b + 1]);
                } else {
                    assert(h[a] == v0.hooks[a] && h[b] == v0.hooks[b + 1]);
                }
            }
        }
        Ok(())
    }

    /// Registers a slasher, consuming one slashing preauthorization.
    pub fn execute_add_slasher(&mut self, slasher: &String) -> (r: Result<(), ContractError>)
        requires
            old(self)@.wf(),
        ensures
            final(self)@.wf(),
            final(self)@ == (MixerView {
                slashers: final(self)@.slashers,
                preauths_slashing: final(self)@.preauths_slashing,
                ..old(self)@
            }),
            match r {
                Ok(()) => old(self)@.preauths_slashing > 0 && valid_addr(slasher@) && !has_addr(
                    old(self)@.slashers,
                    slasher@,
                ) && final(self)@.slashers == old(self)@.slashers.push(slasher@) && final(self)@.preauths_slashing == old(self)@.preauths_slashing - 1,
                Err(e) => final(self)@ == old(self)@ && ((e == ContractError::NoPreauthsLeft && old(self)@.preauths_slashing == 0) || (e == ContractError::InvalidAddress && old(self)@.preauths_slashing > 0 && !valid_addr(slasher@)) || (e
                    == ContractError::SlasherAlreadyRegistered && old(self)@.preauths_slashing > 0
                    && valid_addr(slasher@) && has_addr(old(self)@.slashers, slasher@))),
            },
    {
        if self.preauths_slashing == 0 {
            return Err(ContractError::NoPreauthsLeft);
        }
        if !validate_addr(slasher.as_str()) {
            return Err(ContractError::InvalidAddress);
        }
        if contains_addr(&self.slashers, slasher.as_str()) {
            return Err(ContractError::SlasherAlreadyRegistered);
        }
        let ghost v0 = self@;
        self.preauths_slashing = self.preauths_slashing - 1;
        self.slashers.push(slasher.clone());
        proof {
            assert(self@.slashers =~= v0.slashers.push(slasher@));
            assert forall|a: int, b: int|
                0 <= a < b < self@.slashers.len() implies (#[trigger] self@.slashers[a]) != (
            #[trigger] self@.slashers[b]) by {
                if b < v0.slashers.len() as int {
                    assert(v0.slashers[a] != v0.slashers[b]);
                } else {
                    assert(self@.slashers[b] == slasher@);
                    assert(self@.slashers[a] == v0.slashers[a]);
                    if v0.slashers[a] == slasher@ {
                        assert(has_addr(v0.slashers, slasher@));
                    }
                }
            }
        }
        Ok(())
    }

    /// Removes a slasher: self-service only.
    #[verifier::rlimit(60)]
    #[verifier::spinoff_prover]
    pub fn execute_remove_slasher(&mut self, sender: &String, slasher: &String) -> (r: Result<
        (),
        ContractError,
    >)
        requires
            old(self)@.wf(),
        ensures
            final(self)@.wf(),
            final(self)@ == (MixerView { slashers: final(self)@.slashers, ..old(self)@ }),
            match r {
                Ok(()) => sender@ == slasher@ && has_addr(old(self)@.slashers, slasher@) && final(self)@.slashers == old(self)@.slashers.remove(addr_pos(old(self)@.slashers, slasher@)),
                Err(e) => final(self)@ == old(self)@ && ((e == ContractError::Unauthorized
                    && sender@ != slasher@) || (e == ContractError::SlasherNotRegistered && sender@
                    == slasher@ && !has_addr(old(self)@.slashers, slasher@))),
            },
    {
        if !str_eq(sender.as_str(), slasher.as_str()) {
            return Err(ContractError::Unauthorized);
        }
        if !contains_addr(&self.slashers, slasher.as_str()) {
            return Err(ContractError::SlasherNotRegistered);
        }
        let ghost v0 = self@;
        let pos = position_of_addr(&self.slashers, slasher.as_str());
        self.slashers.remove(pos);
        proof {
            assert(self@.slashers =~= v0.slashers.remove(pos as int));
            assert forall|a: int, b: int|
                0 <= a < b < self@.slashers.len() implies (#[trigger] self@.slashers[a]) != (
            #[trigger] self@.slashers[b]) by {
                let h = self@.slashers;
                if b < pos as int {
                    assert(h[a] == v0.slashers[a] && h[b] == v0.slashers[b]);
                } else if a >= pos as int {
                    assert(h[a] == v0.slashers[a + 1] && h[b] == v0.slashers[b + 1]);
                } else {
                    assert(h[a] == v0.slashers[a] && h[b] == v0.slashers[b + 1]);
                }
            }
        }
        Ok(())
    }

    /// Validates a slashing request from a registered slasher.  The engine's
    /// own records change only when the corrected upstream values come back
    /// through the normal change notifications.
    pub fn execute_slash(
        &self,
        sender: &String,
        addr: &String,
        portion: crate::slash::Portion,
    ) -> (r: Result<SlashRequest, ContractError>)
        ensures
            match r {
                Ok(req) => has_addr(self@.slashers, sender@) && portion.valid() && valid_addr(
                    addr@,
                ) && req.addr@ == addr@ && req.portion == portion,
                Err(e) => (e == ContractError::Unauthorized && !has_addr(
                    self@.slashers,
                    sender@,
                )) || (e == ContractError::InvalidPortion && has_addr(self@.slashers, sender@)
                    && !portion.valid()) || (e == ContractError::InvalidAddress && has_addr(
                    self@.slashers,
                    sender@,
                ) && portion.valid() && !valid_addr(addr@)),
            },
    {
        if !contains_addr(&self.slashers, sender.as_str()) {
            return Err(ContractError::Unauthorized);
        }
        if let Err(e) = crate::slash::validate_portion(&portion) {
            return Err(e);
        }
        if !validate_addr(addr.as_str()) {
            return Err(ContractError::InvalidAddress);
        }
        Ok(SlashRequest { addr: addr.clone(), portion })
    }

    /// Reads one member: the current value, or the value effective at the
    /// given height.  Absence is a valid result, never an error.
    #[verifier::rlimit(100)]
    #[verifier::spinoff_prover]
    pub fn query_member(&self, addr: &String, at_height: Option<u64>) -> (r:
        crate::msg::MemberResponse)
        ensures
            at_height is None ==> r.points == match lookup(self@.members, addr@) {
                Some(x) => Some(x.points),
                None => None::<u64>,
            },
            at_height matches Some(h) ==> r.points == match value_at(self@.log, addr@, h) {
                Some(p) => Some(p.0),
                None => None::<u64>,
            },
    {
        match at_height {
            None => {
                match get_member(&self.members, addr.as_str()) {
                    Some(p) => crate::msg::MemberResponse { points: Some(p.0) },
                    None => crate::msg::MemberResponse { points: None },
                }
            },
            Some(h) => {
                let ghost lg = self@.log;
                let mut i: usize = self.log.len();
                proof {
                    assert(lg.take(i as int) =~= lg);
                }
                while i > 0
                    invariant
                        at_height == Some(h),
                        0 <= i <= self.log@.len(),
                        lg == self@.log,
                        lg.len() == self.log@.len(),
                        value_at(lg, addr@, h) == value_at(lg.take(i as int), addr@, h),
                    decreases i,
                {
                    i = i - 1;
                    proof {
                        assert(lg.take(i + 1).last() == lg[i as int]);
                        assert(lg.take(i + 1).drop_last() =~= lg.take(i as int));
                    }
                    let e = &self.log[i];
                    proof {
                        assert(lg[i as int] == self.log@[i as int]@);
                    }
                    if e.height <= h && str_eq(e.addr.as_str(), addr.as_str()) {
                        proof {
                            assert(lg.take(i + 1).len() > 0);
                            assert(lg.take(i + 1).last().addr == addr@);
                            assert(lg.take(i + 1).last().height <= h);
                            assert(value_at(lg.take(i + 1), addr@, h) == lg[i as int].info);
                            assert(value_at(lg, addr@, h) == e.info);
                        }
                        let pts: Option<u64> = match e.info {
                            Some(p) => Some(p.0),
                            None => None,
                        };
                        proof {
                            assert(pts == match value_at(self@.log, addr@, h) {
                                Some(p2) => Some(p2.0),
                                None => None::<u64>,
                            });
                        }
                        return crate::msg::MemberResponse { points: pts };
                    }
                }
                proof {
                    assert(lg.take(0) =~= Seq::<LogData>::empty());
                }
                crate::msg::MemberResponse { points: None }
            },
        }
    }

    /// Lists members by address, ascending, up to `limit` entries strictly
    /// after the cursor.
    pub fn list_members(&self, start_after: Option<&String>, limit: Option<u32>) -> (r:
        crate::msg::MemberListResponse)
        requires
            self@.wf(),
        ensures
            ({
                let start = match start_after {
                    None => 0,
                    Some(c) => addr_after_idx(self@.members, c@),
                };
                let end = if start + page_limit(limit) > self@.members.len() {
                    self@.members.len() as int
                } else {
                    start + page_limit(limit)
                };
                members_view(r.members@) == self@.members.subrange(start, end)
            }),
    {
        let lim = page_limit_exec(limit);
        let ghost s = self@.members;
        let start: usize = match start_after {
            None => 0,
            Some(c) => {
                let mut j: usize = 0;
                while j < self.members.len() && !matches!(
                    crate::addr::str_compare(c.as_str(), self.members[j].addr.as_str()),
                    crate::addr::Cmp::Less,
                )
                    invariant
                        0 <= j <= self.members@.len(),
                        s == self@.members,
                        s.len() == self.members@.len(),
                        forall|k: int| 0 <= k < j ==> !lex_lt(c@, #[trigger] s[k].addr),
                    decreases self.members@.len() - j,
                {
                    j = j + 1;
                }
                proof {
                    lemma_addr_after_unique(s, c@, j as int);
                }
                j
            },
        };
        let mut out: Vec<Member> = Vec::new();
        let mut i: usize = start;
        let ghost start_i = start as int;
        while i < self.members.len() && out.len() < lim
            invariant
                start_i <= i as int <= self.members@.len(),
                s == self@.members,
                s.len() == self.members@.len(),
                out@.len() == i - start_i,
                out@.len() <= lim,
                lim as int == page_limit(limit),
                forall|k: int|
                    0 <= k < out@.len() ==> (#[trigger] out@[k])@ == s[start_i + k],
            decreases self.members@.len() - i,
        {
            out.push(self.members[i].duplicate());
            i = i + 1;
        }
        proof {
            let start = start_i;
            let end = if start + page_limit(limit) > s.len() {
                s.len() as int
            } else {
                start + page_limit(limit)
            };
            assert(members_view(out@) =~= s.subrange(start, end));
        }
        crate::msg::MemberListResponse { members: out }
    }

    /// Lists members in the traversal order — points descending, ties by
    /// start height ascending then address ascending — up to `limit` entries
    /// strictly after the cursor.
    pub fn list_members_by_points(&self, start_after: Option<&Member>, limit: Option<u32>) -> (r:
        crate::msg::MemberListResponse)
        requires
            self@.wf(),
        ensures
            ({
                let t = crate::index::by_points(self@.members);
                let start = match start_after {
                    None => 0,
                    Some(c) => crate::index::first_after_idx(t, c@),
                };
                let end = if start + page_limit(limit) > t.len() {
                    t.len() as int
                } else {
                    start + page_limit(limit)
                };
                members_view(r.members@) == t.subrange(start, end)
            }),
            forall|a: int, b: int|
                0 <= a <= b < r.members@.len() ==> crate::index::key_le(
                    (#[trigger] r.members@[a])@,
                    (#[trigger] r.members@[b])@,
                ),
    {
        let lim = page_limit_exec(limit);
        let sorted = crate::index::sorted_by_points(&self.members);
        let ghost t = crate::index::by_points(self@.members);
        proof {
            crate::index::lemma_by_points_ensures(self@.members);
        }
        let start: usize = match start_after {
            None => 0,
            Some(c) => crate::index::find_first_after(&sorted, c),
        };
        let mut out: Vec<Member> = Vec::new();
        let mut i: usize = start;
        let ghost start_i = start as int;
        while i < sorted.len() && out.len() < lim
            invariant
                start_i <= i as int <= sorted@.len(),
                t == members_view(sorted@),
                t.len() == sorted@.len(),
                out@.len() == i - start_i,
                out@.len() <= lim,
                lim as int == page_limit(limit),
                forall|k: int|
                    0 <= k < out@.len() ==> (#[trigger] out@[k])@ == t[start_i + k],
            decreases sorted@.len() - i,
        {
            out.push(sorted[i].duplicate());
            i = i + 1;
        }
        proof {
            let start = start_i;
            let end = if start + page_limit(limit) > t.len() {
                t.len() as int
            } else {
                start + page_limit(limit)
            };
            assert(members_view(out@) =~= t.subrange(start, end));
            assert forall|a: int, b: int|
                0 <= a <= b < out@.len() implies crate::index::key_le(
                (#[trigger] out@[a])@,
                (#[trigger] out@[b])@,
            ) by {
                if a < b {
                    assert((crate::index::points_order())(t[start + a], t[start + b]));
                } else {
                    crate::index::lemma_key_irreflexive(out@[a]@);
                }
            }
        }
        crate::msg::MemberListResponse { members: out }
    }

    /// Reads the aggregate total as a response.
    pub fn query_total_points(&self) -> (r: crate::msg::TotalPointsResponse)
        ensures
            r.points == self@.total,
    {
        crate::msg::TotalPointsResponse { points: self.total }
    }

    /// Reads the two bound upstream group addresses.
    pub fn query_groups(&self) -> (r: crate::msg::GroupsResponse)
        ensures
            r.left@ == self@.left_group,
            r.right@ == self@.right_group,
    {
        crate::msg::GroupsResponse { left: self.left_group.clone(), right: self.right_group.clone() }
    }

    /// Lists the registered hooks.
    pub fn hooks(&self) -> (r: crate::msg::HooksResponse)
        ensures
            strings_view(r.hooks@) == self@.hooks,
    {
        crate::msg::HooksResponse { hooks: clone_strings(&self.hooks) }
    }

    /// Reads the remaining hook preauthorizations.
    pub fn preauths(&self) -> (r: crate::msg::PreauthResponse)
        ensures
            r.preauths == self@.preauths_hooks,
    {
        crate::msg::PreauthResponse { preauths: self.preauths_hooks }
    }

    /// Whether an address is a registered slasher.
    pub fn is_slasher(&self, addr: &String) -> (r: crate::msg::SlasherResponse)
        ensures
            r.is_slasher == has_addr(self@.slashers, addr@),
    {
        crate::msg::SlasherResponse { is_slasher: contains_addr(&self.slashers, addr.as_str()) }
    }

    /// Lists the registered slashers.
    pub fn list_slashers(&self) -> (r: crate::msg::ListSlashersResponse)
        ensures
            strings_view(r.slashers@) == self@.slashers,
    {
        crate::msg::ListSlashersResponse { slashers: clone_strings(&self.slashers) }
    }

    /// Evaluates a mixing function on two raw values: the configured one, or
    /// an explicitly given strategy after validation.
    pub fn query_mixer_function(
        &self,
        stake: u64,
        engagement: u64,
        poe_function: Option<PoEFunctionType>,
    ) -> (r: Result<u64, ContractError>)
        requires
            self@.wf(),
        ensures
            ({
                let ft = match poe_function {
                    Some(f) => f,
                    None => self@.function_type,
                };
                match r {
                    Ok(v) => ft.params_valid() && v as int == ft.mix_spec(stake, engagement),
                    Err(e) => e == ContractError::InvalidPoeParams && !ft.params_valid(),
                }
            }),
    {
        let ft = match poe_function {
            Some(f) => f,
            None => self.function_type,
        };
        if let Err(e) = ft.validate() {
            return Err(e);
        }
        Ok(ft.mix(stake, engagement))
    }

    /// The one-time repair pass for the historical degenerate-value defect:
    /// re-announces every stored record, excluding those at or below one
    /// point, so downstream listeners recompute from sound values.
    pub fn generate_pending_member_updates(&self) -> (r: MemberChangedHookMsg)
        ensures
            diffs_view(r.diffs@) == repair_diffs(self@.members),
    {
        let ghost s = self@.members;
        let mut diffs: Vec<MemberDiff> = Vec::new();
        let mut i: usize = 0;
        proof {
            assert(s.take(0) =~= Seq::<MemberData>::empty());
            assert(diffs_view(diffs@) =~= repair_diffs(s.take(0)));
        }
        while i < self.members.len()
            invariant
                0 <= i <= self.members@.len(),
                s == self@.members,
                s.len() == self.members@.len(),
                diffs_view(diffs@) == repair_diffs(s.take(i as int)),
            decreases self.members@.len() - i,
        {
            let ghost ds = diffs_view(diffs@);
            proof {
                assert(s.take(i + 1).drop_last() =~= s.take(i as int));
                assert(s.take(i + 1).last() == s[i as int]);
            }
            let m = &self.members[i];
            if m.points > 1 {
                diffs.push(
                    MemberDiff { key: m.addr.clone(), old: Some(m.points), new: Some(m.points) },
                );
                proof {
                    assert(diffs_view(diffs@) =~= ds + seq![
                        DiffData {
                            key: s[i as int].addr,
                            old: Some(s[i as int].points),
                            new: Some(s[i as int].points),
                        },
                    ]);
                }
            }
            i = i + 1;
        }
        proof {
            assert(s.take(s.len() as int) =~= s);
        }
        MemberChangedHookMsg { diffs }
    }

    /// Migration step: updates the decay half-life.  A zero duration removes
    /// it; an absent one leaves the configuration unchanged.
    pub fn migrate_config(&mut self, halflife: Option<u64>) -> (r: ())
        requires
            old(self)@.wf(),
        ensures
            final(self)@.wf(),
            final(self)@ == (MixerView { halflife: final(self)@.halflife, ..old(self)@ }),
            final(self)@.halflife == match halflife {
                Some(d) => if d > 0 {
                    Some(d)
                } else {
                    None::<u64>
                },
                None => old(self)@.halflife,
            },
    {
        if let Some(d) = halflife {
            if d > 0 {
                self.halflife = Some(d);
            } else {
                self.halflife = None;
            }
        }
    }
}

} // verus!
