//! Plain data carried into and out of the engine: member records, change
//! notifications, and query responses.

use vstd::prelude::*;

verus! {

/// A stored member record: the derived points and the first height at which
/// the address became a member.
#[derive(Debug)]
pub struct Member {
    pub addr: String,
    pub points: u64,
    pub start_height: u64,
}

/// The mathematical value of a [`Member`].
pub struct MemberData {
    pub addr: Seq<char>,
    pub points: u64,
    pub start_height: u64,
}

impl View for Member {
    type V = MemberData;

    open spec fn view(&self) -> MemberData {
        MemberData { addr: self.addr@, points: self.points, start_height: self.start_height }
    }
}

impl Member {
    /// A field-for-field copy.
    pub fn duplicate(&self) -> (r: Member)
        ensures
            r@ == self@,
    {
        Member { addr: self.addr.clone(), points: self.points, start_height: self.start_height }
    }
}

/// A row of an upstream source listing: an address and its raw points there.
#[derive(Debug)]
pub struct GroupMember {
    pub addr: String,
    pub points: u64,
}

/// The mathematical value of a [`GroupMember`].
pub struct GroupMemberData {
    pub addr: Seq<char>,
    pub points: u64,
}

impl View for GroupMember {
    type V = GroupMemberData;

    open spec fn view(&self) -> GroupMemberData {
        GroupMemberData { addr: self.addr@, points: self.points }
    }
}

/// One member's transition: points before and after, absence as `None`.
#[derive(Debug)]
pub struct MemberDiff {
    pub key: String,
    pub old: Option<u64>,
    pub new: Option<u64>,
}

/// The mathematical value of a [`MemberDiff`].
pub struct DiffData {
    pub key: Seq<char>,
    pub old: Option<u64>,
    pub new: Option<u64>,
}

impl View for MemberDiff {
    type V = DiffData;

    open spec fn view(&self) -> DiffData {
        DiffData { key: self.key@, old: self.old, new: self.new }
    }
}

/// A batch of member transitions, delivered to every registered hook.
#[derive(Debug)]
pub struct MemberChangedHookMsg {
    pub diffs: Vec<MemberDiff>,
}

/// Points of one member, absent when the address holds no record.
#[derive(Debug)]
pub struct MemberResponse {
    pub points: Option<u64>,
}

/// A page of member records.
#[derive(Debug)]
pub struct MemberListResponse {
    pub members: Vec<Member>,
}

/// The aggregate total over all stored records.
#[derive(Debug)]
pub struct TotalPointsResponse {
    pub points: u64,
}

/// All registered hooks, unpaginated.
#[derive(Debug)]
pub struct HooksResponse {
    pub hooks: Vec<String>,
}

/// Remaining preauthorized hook registrations.
#[derive(Debug)]
pub struct PreauthResponse {
    pub preauths: u64,
}

/// Whether an address is a registered slasher.
#[derive(Debug)]
pub struct SlasherResponse {
    pub is_slasher: bool,
}

/// All registered slashers, unpaginated.
#[derive(Debug)]
pub struct ListSlashersResponse {
    pub slashers: Vec<String>,
}

/// The two upstream group addresses the engine mixes.
#[derive(Debug)]
pub struct GroupsResponse {
    pub left: String,
    pub right: String,
}

/// The view of a sequence of member records.
pub open spec fn members_view(s: Seq<Member>) -> Seq<MemberData> {
    s.map_values(|m: Member| m@)
}

/// The view of a sequence of diffs.
pub open spec fn diffs_view(s: Seq<MemberDiff>) -> Seq<DiffData> {
    s.map_values(|d: MemberDiff| d@)
}

/// The view of a sequence of source rows.
pub open spec fn rows_view(s: Seq<GroupMember>) -> Seq<GroupMemberData> {
    s.map_values(|g: GroupMember| g@)
}

/// The view of a sequence of addresses.
pub open spec fn strings_view(s: Seq<String>) -> Seq<Seq<char>> {
    s.map_values(|a: String| a@)
}

} // verus!
