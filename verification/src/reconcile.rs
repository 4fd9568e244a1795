//! Persistence and reconciliation: what a snapshot preserves, and what merging the snapshots of two
//! replicas of a room leads to.

use vstd::prelude::*;

use crate::convergence::{
    assertion, base, claimed, everyone, introduced, introduces, law_everyone_is_tracked,
    law_highest_seq_wins, law_receiving_keeps, lemma_digest_register, lemma_everyone,
    lemma_not_introduced, lemma_same_claims, lemma_winner_prevails, media_first, not_refused, prevails,
    register, same_envelopes, settled, wins,
};
use crate::proto::EnvelopeView;
use crate::room::{
    by_id, digest_of, is_here, lemma_by_id_dom, lemma_merged_len, lemma_sorted_distinct, lookup,
    merge_changes, merged, merged_member, merged_one, sorted, MemberView, RoomView, SnapshotView,
    DEFAULT_MAX_MEMBERS,
};

verus! {

/// A restored room is the room that was captured, but for the member cap, which is the default one,
/// and the end-of-room mark, which is not kept.
pub proof fn law_snapshot_round_trip(room: RoomView, snap: SnapshotView)
    requires
        snap.captures(room),
    ensures
        snap.restored() == (RoomView {
            max_members: DEFAULT_MAX_MEMBERS as nat,
            ended: false,
            ..room
        }),
{
}

/// A room that is restored from a snapshot, with its cap set again, and then fed further envelopes
/// has the same roster as one that was never interrupted.
pub proof fn law_restored_room_carries_on(
    room: RoomView,
    snap: SnapshotView,
    envs: Seq<EnvelopeView>,
)
    requires
        snap.captures(room),
    ensures
        (RoomView { max_members: room.max_members, ..snap.restored() }).run(envs).members
            == room.run(envs).members,
        (RoomView { max_members: room.max_members, ..snap.restored() }).run(envs).next_seq
            == room.run(envs).next_seq,
{
    let again = RoomView { max_members: room.max_members, ..snap.restored() };
    lemma_end_mark_is_inert(again, room, envs);
}

/// The end-of-room mark does not influence how envelopes are applied.
proof fn lemma_end_mark_is_inert(r1: RoomView, r2: RoomView, envs: Seq<EnvelopeView>)
    requires
        r1 == (RoomView { ended: r1.ended, ..r2 }),
    ensures
        r1.run(envs) == (RoomView { ended: r1.run(envs).ended, ..r2.run(envs) }),
    decreases envs.len(),
{
    if envs.len() > 0 {
        lemma_end_mark_is_inert(r1, r2, envs.drop_last());
    }
}

/// The prevailing one of two presence registers.
pub open spec fn joined(a: Option<(u64, bool)>, b: Option<(u64, bool)>) -> Option<(u64, bool)> {
    match (a, b) {
        (Some(x), Some(y)) => if y.0 > x.0 {
            b
        } else if y.0 == x.0 {
            Some((x.0, x.1 && y.1))
        } else {
            a
        },
        (Some(_), None) => a,
        (None, _) => b,
    }
}

/// The merge did not refuse `id` for want of room: afterwards the member is tracked, unless the
/// snapshot does not hold it.
pub open spec fn taken_over(
    members: Map<Seq<char>, MemberView>,
    s: Seq<MemberView>,
    max_members: nat,
    id: Seq<char>,
) -> bool {
    merged(members, s, max_members).contains_key(id) || !by_id(s).contains_key(id)
}

/// No two registers of the list are of one member. Every snapshot of a room is such a list.
pub open spec fn distinct_ids(s: Seq<MemberView>) -> bool {
    forall|i: int, j: int|
        0 <= i < j < s.len() ==> (#[trigger] s[i]).node_id != (#[trigger] s[j]).node_id
}

/// A sorted list holds no two registers of one member.
pub(crate) proof fn lemma_sorted_is_distinct(s: Seq<MemberView>)
    requires
        sorted(s),
    ensures
        distinct_ids(s),
{
    assert forall|i: int, j: int| 0 <= i < j < s.len() implies (#[trigger] s[i]).node_id != (
    #[trigger] s[j]).node_id by {
        lemma_sorted_distinct(s, i, j);
    }
}

/// Who is tracked after merging in any list of registers.
proof fn lemma_merged_dom(
    members: Map<Seq<char>, MemberView>,
    s: Seq<MemberView>,
    max_members: nat,
    id: Seq<char>,
)
    requires
        members.dom().finite(),
    ensures
        if merged(members, s, max_members).contains_key(id) {
            members.contains_key(id) || by_id(s).contains_key(id)
        } else {
            &&& !members.contains_key(id)
            &&& by_id(s).contains_key(id) ==> merged(members, s, max_members).len() >= max_members
        },
    decreases s.len(),
{
    if s.len() > 0 {
        let t = s.drop_last();
        let om = s.last();
        lemma_merged_dom(members, t, max_members, id);
        lemma_merged_len(members, t, max_members);
        let so_far = merged(members, t, max_members);
        if so_far.contains_key(om.node_id) {
            assert(merged_one(so_far, om, max_members).dom() =~= so_far.dom());
        }
    }
}

/// Merging in a list of distinct registers touches each member once.
pub(crate) proof fn lemma_merged_lookup(
    members: Map<Seq<char>, MemberView>,
    s: Seq<MemberView>,
    max_members: nat,
    id: Seq<char>,
)
    requires
        members.dom().finite(),
        distinct_ids(s),
    ensures
        match lookup(merged(members, s, max_members), id) {
            Some(m) => match lookup(by_id(s), id) {
                Some(om) => m == merged_member(lookup(members, id), om),
                None => lookup(members, id) == Some(m),
            },
            None => {
                &&& !members.contains_key(id)
                &&& by_id(s).contains_key(id) ==> merged(members, s, max_members).len()
                    >= max_members
            },
        },
    decreases s.len(),
{
    if s.len() > 0 {
        let t = s.drop_last();
        let om = s.last();
        assert(distinct_ids(t));
        lemma_merged_lookup(members, t, max_members, id);
        lemma_merged_lookup(members, t, max_members, om.node_id);
        lemma_merged_len(members, t, max_members);
        lemma_last_is_new(s);
        let so_far = merged(members, t, max_members);
        if so_far.contains_key(om.node_id) {
            assert(merged_one(so_far, om, max_members).dom() =~= so_far.dom());
        }
    }
}

/// A merge with room for the members of both sides refuses no one.
pub proof fn law_merge_with_room_refuses_no_one(
    members: Map<Seq<char>, MemberView>,
    s: Seq<MemberView>,
    max_members: nat,
)
    requires
        members.dom().finite(),
        members.dom().union(by_id(s).dom()).len() <= max_members,
    ensures
        forall|id: Seq<char>| #[trigger] taken_over(members, s, max_members, id),
{
    let m = merged(members, s, max_members);
    let all = members.dom().union(by_id(s).dom());
    lemma_merged_len(members, s, max_members);
    lemma_by_id_dom(s, Seq::empty());
    assert forall|id: Seq<char>| #[trigger] m.contains_key(id) implies all.contains(id) by {
        lemma_merged_dom(members, s, max_members, id);
    }
    assert forall|id: Seq<char>| #[trigger] taken_over(members, s, max_members, id) by {
        lemma_merged_dom(members, s, max_members, id);
        if by_id(s).contains_key(id) && !m.contains_key(id) {
            assert(all.contains(id));
            assert(m.dom().subset_of(all.remove(id)));
            vstd::set_lib::lemma_len_subset(m.dom(), all.remove(id));
        }
    }
}

proof fn lemma_last_is_new(s: Seq<MemberView>)
    requires
        distinct_ids(s),
        s.len() > 0,
    ensures
        !by_id(s.drop_last()).contains_key(s.last().node_id),
{
    let t = s.drop_last();
    lemma_by_id_dom(t, s.last().node_id);
    if by_id(t).contains_key(s.last().node_id) {
        let i = choose|i: int| 0 <= i < t.len() && #[trigger] t[i].node_id == s.last().node_id;
        assert(s[i].node_id == s[s.len() - 1].node_id);
    }
}

/// The presence register of a member after a merge that had room for it is the prevailing one of the
/// two replicas'.
pub proof fn law_merge_joins_registers(
    members: Map<Seq<char>, MemberView>,
    s: Seq<MemberView>,
    max_members: nat,
    id: Seq<char>,
)
    requires
        members.dom().finite(),
        distinct_ids(s),
        taken_over(members, s, max_members, id),
    ensures
        register(merged(members, s, max_members), id) == joined(
            register(members, id),
            register(by_id(s), id),
        ),
{
    lemma_merged_lookup(members, s, max_members, id);
    assert(lookup(members, id) is Some == members.contains_key(id));
}

/// The cap holds however members arrive: a merge never tracks more of them than the cap allows, unless
/// there were more before, and then it adds none.
pub proof fn law_merge_keeps_the_cap(
    members: Map<Seq<char>, MemberView>,
    s: Seq<MemberView>,
    max_members: nat,
)
    requires
        members.dom().finite(),
    ensures
        merged(members, s, max_members).len() <= max_members || merged(
            members,
            s,
            max_members,
        ).dom() == members.dom(),
        members.dom().subset_of(merged(members, s, max_members).dom()),
{
    lemma_merged_len(members, s, max_members);
}

/// Equal presence registers make equal digests.
proof fn lemma_registers_determine_digest(
    a: Map<Seq<char>, MemberView>,
    b: Map<Seq<char>, MemberView>,
)
    requires
        forall|id: Seq<char>| #[trigger] register(a, id) == register(b, id),
    ensures
        digest_of(a) == digest_of(b),
{
    assert forall|id: Seq<char>| #[trigger] a.contains_key(id) == b.contains_key(id) by {
        assert(register(a, id) == register(b, id));
    }
    assert forall|id: Seq<char>| #[trigger] a.contains_key(id) implies a[id].present
        == b[id].present && a[id].last_seq == b[id].last_seq by {
        assert(register(a, id) == register(b, id));
    }
    assert(digest_of(a) =~= digest_of(b));
}

/// Merging is commutative: two replicas with room for the members of both that merge each other's
/// snapshots end with the same digest.
pub proof fn law_merge_is_commutative(a: RoomView, sa: SnapshotView, b: RoomView, sb: SnapshotView)
    requires
        a.well_formed(),
        b.well_formed(),
        sa.captures(a),
        sb.captures(b),
        a.members.dom().union(b.members.dom()).len() <= a.max_members,
        a.members.dom().union(b.members.dom()).len() <= b.max_members,
    ensures
        digest_of(merged(a.members, sb.members, a.max_members)) == digest_of(
            merged(b.members, sa.members, b.max_members),
        ),
{
    let ab = merged(a.members, sb.members, a.max_members);
    let ba = merged(b.members, sa.members, b.max_members);
    assert(a.members.dom().union(b.members.dom()) =~= b.members.dom().union(a.members.dom()));
    lemma_sorted_is_distinct(sa.members);
    lemma_sorted_is_distinct(sb.members);
    law_merge_with_room_refuses_no_one(a.members, sb.members, a.max_members);
    law_merge_with_room_refuses_no_one(b.members, sa.members, b.max_members);
    assert forall|id: Seq<char>| #[trigger] register(ab, id) == register(ba, id) by {
        assert(taken_over(a.members, sb.members, a.max_members, id));
        assert(taken_over(b.members, sa.members, b.max_members, id));
        law_merge_joins_registers(a.members, sb.members, a.max_members, id);
        law_merge_joins_registers(b.members, sa.members, b.max_members, id);
    }
    lemma_registers_determine_digest(ab, ba);
}

/// Merging is associative: it does not matter in which order several replicas with room for everyone
/// reconcile. Here `cap_a` and `cap_b` are the caps of the replicas that merge, and `sbc` the snapshot
/// of the second once it has merged the third.
pub proof fn law_merge_is_associative(
    a: Map<Seq<char>, MemberView>,
    sb: Seq<MemberView>,
    sc: Seq<MemberView>,
    sbc: Seq<MemberView>,
    cap_a: nat,
    cap_b: nat,
)
    requires
        a.dom().finite(),
        distinct_ids(sb),
        distinct_ids(sc),
        distinct_ids(sbc),
        by_id(sbc) == merged(by_id(sb), sc, cap_b),
        a.dom().union(by_id(sb).dom()).union(by_id(sc).dom()).len() <= cap_a,
        by_id(sb).dom().union(by_id(sc).dom()).len() <= cap_b,
    ensures
        digest_of(merged(merged(a, sb, cap_a), sc, cap_a)) == digest_of(merged(a, sbc, cap_a)),
{
    let ab = merged(a, sb, cap_a);
    let l = merged(ab, sc, cap_a);
    let r = merged(a, sbc, cap_a);
    let all = a.dom().union(by_id(sb).dom()).union(by_id(sc).dom());
    lemma_by_id_dom(sb, Seq::empty());
    lemma_by_id_dom(sc, Seq::empty());
    lemma_by_id_dom(sbc, Seq::empty());
    lemma_merged_len(a, sb, cap_a);
    lemma_fits(a.dom().union(by_id(sb).dom()), all, cap_a);
    law_merge_with_room_refuses_no_one(a, sb, cap_a);
    law_merge_with_room_refuses_no_one(by_id(sb), sc, cap_b);
    assert forall|id: Seq<char>| #[trigger] ab.contains_key(id) implies a.dom().union(
        by_id(sb).dom(),
    ).contains(id) by {
        lemma_merged_lookup(a, sb, cap_a, id);
    }
    lemma_fits(ab.dom().union(by_id(sc).dom()), all, cap_a);
    law_merge_with_room_refuses_no_one(ab, sc, cap_a);
    assert forall|id: Seq<char>| #[trigger] by_id(sbc).contains_key(id) implies by_id(
        sb,
    ).dom().union(by_id(sc).dom()).contains(id) by {
        lemma_merged_lookup(by_id(sb), sc, cap_b, id);
    }
    lemma_fits(a.dom().union(by_id(sbc).dom()), all, cap_a);
    law_merge_with_room_refuses_no_one(a, sbc, cap_a);
    assert forall|id: Seq<char>| #[trigger] register(l, id) == register(r, id) by {
        assert(taken_over(a, sb, cap_a, id) && taken_over(ab, sc, cap_a, id));
        assert(taken_over(a, sbc, cap_a, id) && taken_over(by_id(sb), sc, cap_b, id));
        law_merge_joins_registers(ab, sc, cap_a, id);
        law_merge_joins_registers(a, sb, cap_a, id);
        law_merge_joins_registers(a, sbc, cap_a, id);
        law_merge_joins_registers(by_id(sb), sc, cap_b, id);
    }
    lemma_registers_determine_digest(l, r);
}

proof fn lemma_fits(s: Set<Seq<char>>, all: Set<Seq<char>>, cap: nat)
    requires
        all.finite(),
        s.subset_of(all),
        all.len() <= cap,
    ensures
        s.len() <= cap,
{
    vstd::set_lib::lemma_len_subset(s, all);
}

/// A roster that takes no notice of a register takes none after merging in another one either.
proof fn lemma_unnoticed_stays_unnoticed(
    members: Map<Seq<char>, MemberView>,
    om: MemberView,
    other: MemberView,
    max_members: nat,
)
    requires
        members.dom().finite(),
        merged_one(members, om, max_members) == members,
    ensures
        merged_one(merged_one(members, other, max_members), om, max_members) == merged_one(
            members,
            other,
            max_members,
        ),
{
    let after = merged_one(members, other, max_members);
    if members.contains_key(om.node_id) {
        let m = members[om.node_id];
        assert(merged_member(Some(m), om) == m);
        assert(merged_member(lookup(after, om.node_id), om) == after[om.node_id]);
        assert(after.insert(om.node_id, after[om.node_id]) =~= after);
    } else {
        if members.len() < max_members {
            assert(members.insert(om.node_id, om).contains_key(om.node_id));
        }
        assert(members.len() >= max_members);
        if members.contains_key(other.node_id) {
            assert(after.dom() =~= members.dom());
        }
    }
}

/// A roster that has merged in a register takes no notice of it a second time.
proof fn lemma_merged_is_unnoticed(
    members: Map<Seq<char>, MemberView>,
    om: MemberView,
    max_members: nat,
)
    requires
        members.dom().finite(),
    ensures
        merged_one(merged_one(members, om, max_members), om, max_members) == merged_one(
            members,
            om,
            max_members,
        ),
{
    let after = merged_one(members, om, max_members);
    if after.contains_key(om.node_id) {
        assert(merged_member(Some(after[om.node_id]), om) == after[om.node_id]);
        assert(after.insert(om.node_id, after[om.node_id]) =~= after);
    }
}

/// A roster that has merged in a list takes no notice of any register of it.
proof fn lemma_merged_list_is_unnoticed(
    members: Map<Seq<char>, MemberView>,
    s: Seq<MemberView>,
    max_members: nat,
    i: int,
)
    requires
        members.dom().finite(),
        0 <= i < s.len(),
    ensures
        merged_one(merged(members, s, max_members), s[i], max_members) == merged(
            members,
            s,
            max_members,
        ),
    decreases s.len(),
{
    let t = s.drop_last();
    let so_far = merged(members, t, max_members);
    lemma_merged_len(members, t, max_members);
    if i == s.len() - 1 {
        lemma_merged_is_unnoticed(so_far, s.last(), max_members);
    } else {
        lemma_merged_list_is_unnoticed(members, t, max_members, i);
        assert(t[i] == s[i]);
        lemma_unnoticed_stays_unnoticed(so_far, s[i], s.last(), max_members);
    }
}

/// A list of registers of which a roster takes no notice does not change it.
proof fn lemma_unnoticed_list(
    members: Map<Seq<char>, MemberView>,
    s: Seq<MemberView>,
    max_members: nat,
)
    requires
        forall|i: int|
            0 <= i < s.len() ==> merged_one(members, #[trigger] s[i], max_members) == members,
    ensures
        merged(members, s, max_members) == members,
    decreases s.len(),
{
    if s.len() > 0 {
        let t = s.drop_last();
        assert forall|i: int| 0 <= i < t.len() implies merged_one(
            members,
            #[trigger] t[i],
            max_members,
        ) == members by {
            assert(t[i] == s[i]);
        }
        lemma_unnoticed_list(members, t, max_members);
        assert(s[s.len() - 1] == s.last());
    }
}

/// Merging is idempotent: merging a snapshot a second time, whatever it holds, changes nothing.
pub proof fn law_merge_is_idempotent(
    members: Map<Seq<char>, MemberView>,
    s: Seq<MemberView>,
    max_members: nat,
)
    requires
        members.dom().finite(),
    ensures
        merged(merged(members, s, max_members), s, max_members) == merged(members, s, max_members),
{
    let once = merged(members, s, max_members);
    assert forall|i: int| 0 <= i < s.len() implies merged_one(once, #[trigger] s[i], max_members)
        == once by {
        lemma_merged_list_is_unnoticed(members, s, max_members, i);
    }
    lemma_unnoticed_list(once, s, max_members);
}

/// A room that merges its own snapshot does not change.
pub proof fn law_own_snapshot_changes_nothing(room: RoomView, snap: SnapshotView)
    requires
        room.well_formed(),
        snap.captures(room),
    ensures
        merged(room.members, snap.members, room.max_members) == room.members,
{
    let m = merged(room.members, snap.members, room.max_members);
    lemma_sorted_is_distinct(snap.members);
    lemma_merged_len(room.members, snap.members, room.max_members);
    assert forall|id: Seq<char>| #[trigger] m.contains_key(id) == room.members.contains_key(id) by {
        lemma_merged_lookup(room.members, snap.members, room.max_members, id);
    }
    assert forall|id: Seq<char>| #[trigger] m.contains_key(id) implies m[id]
        == room.members[id] by {
        lemma_merged_lookup(room.members, snap.members, room.max_members, id);
    }
    assert(m =~= room.members);
}

/// No change goes unreported: whatever the snapshot holds, a member whose presence is another after the
/// merge is reported.
pub proof fn law_merge_reports_every_presence_change(
    members: Map<Seq<char>, MemberView>,
    s: Seq<MemberView>,
    max_members: nat,
    id: Seq<char>,
)
    requires
        is_here(lookup(members, id)) != is_here(lookup(merged(members, s, max_members), id)),
    ensures
        merge_changes(members, s, max_members).contains(id),
    decreases s.len(),
{
    if s.len() > 0 {
        let t = s.drop_last();
        let so_far = merged(members, t, max_members);
        let before = merge_changes(members, t, max_members);
        let c = merge_changes(members, s, max_members);
        if is_here(lookup(members, id)) != is_here(lookup(so_far, id)) {
            law_merge_reports_every_presence_change(members, t, max_members, id);
            let i = choose|i: int| 0 <= i < before.len() && before[i] == id;
            assert(c[i] == id);
        } else {
            assert(id == s.last().node_id);
            assert(c.last() == id);
        }
    }
}

/// A merge of distinct registers reports exactly the members whose presence it changes, each once.
pub proof fn law_merge_reports_presence_changes(
    members: Map<Seq<char>, MemberView>,
    s: Seq<MemberView>,
    max_members: nat,
)
    requires
        members.dom().finite(),
        distinct_ids(s),
    ensures
        merge_changes(members, s, max_members).no_duplicates(),
        forall|id: Seq<char>| #[trigger]
            merge_changes(members, s, max_members).contains(id) <==> is_here(lookup(members, id)) != is_here(
                lookup(merged(members, s, max_members), id),
            ),
    decreases s.len(),
{
    let c = merge_changes(members, s, max_members);
    if s.len() > 0 {
        let t = s.drop_last();
        let om = s.last();
        assert(distinct_ids(t));
        law_merge_reports_presence_changes(members, t, max_members);
        lemma_last_is_new(s);
        lemma_merged_lookup(members, t, max_members, om.node_id);
        let before = merge_changes(members, t, max_members);
        assert(!by_id(t).contains_key(om.node_id));
        assert(lookup(merged(members, t, max_members), om.node_id) == lookup(members, om.node_id));
        assert(!before.contains(om.node_id));
        assert forall|id: Seq<char>| #[trigger] c.contains(id) <==> is_here(lookup(members, id))
            != is_here(lookup(merged(members, s, max_members), id)) by {
            if id != om.node_id {
                assert(lookup(merged(members, s, max_members), id) == lookup(merged(members, t, max_members), id));
                assert(c.contains(id) <==> before.contains(id)) by {
                    if before.contains(id) {
                        let i = choose|i: int| 0 <= i < before.len() && before[i] == id;
                        assert(c[i] == id);
                    }
                    if c.contains(id) {
                        let i = choose|i: int| 0 <= i < c.len() && c[i] == id;
                        assert(before[i] == id);
                    }
                }
            } else if c.len() > before.len() {
                assert(c[before.len() as int] == id);
            } else {
                assert(c == before);
            }
        }
        if c.len() > before.len() {
            assert(c == before.push(om.node_id));
            assert forall|i: int, j: int| 0 <= i < c.len() && 0 <= j < c.len() && i != j implies c[i]
                != c[j] by {
                if i == before.len() {
                    assert(before.contains(before[j]));
                } else if j == before.len() {
                    assert(before.contains(before[i]));
                }
            }
        }
    }
}

/// How the claims of two runs add up.
proof fn lemma_claims_concat(
    a: Seq<EnvelopeView>,
    b: Seq<EnvelopeView>,
    room_id: Seq<char>,
    id: Seq<char>,
)
    ensures
        forall|start: Option<(u64, bool)>, c: (u64, bool)| #[trigger]
            claimed(start, a + b, room_id, id, c) <==> claimed(start, a, room_id, id, c) || claimed(
                start,
                b,
                room_id,
                id,
                c,
            ),
        introduced(a + b, room_id, id) <==> introduced(a, room_id, id) || introduced(
            b,
            room_id,
            id,
        ),
{
    let ab = a + b;
    assert forall|i: int| 0 <= i < a.len() implies #[trigger] a[i] == ab[i] by {}
    assert forall|i: int| 0 <= i < b.len() implies #[trigger] b[i] == ab[a.len() + i] by {}
    assert forall|start: Option<(u64, bool)>, c: (u64, bool)| #[trigger]
        claimed(start, ab, room_id, id, c) <==> claimed(start, a, room_id, id, c) || claimed(
        start,
        b,
        room_id,
        id,
        c,
    ) by {
        if claimed(start, ab, room_id, id, c) && start != Some(c) {
            let i = choose|i: int|
                0 <= i < ab.len() && assertion(#[trigger] ab[i], room_id, id) == Some(c);
            if i < a.len() {
                assert(assertion(a[i], room_id, id) == Some(c));
            } else {
                assert(assertion(b[i - a.len()], room_id, id) == Some(c));
            }
        }
        if claimed(start, a, room_id, id, c) && start != Some(c) {
            let i = choose|i: int|
                0 <= i < a.len() && assertion(#[trigger] a[i], room_id, id) == Some(c);
            assert(assertion(ab[i], room_id, id) == Some(c));
        }
        if claimed(start, b, room_id, id, c) && start != Some(c) {
            let i = choose|i: int|
                0 <= i < b.len() && assertion(#[trigger] b[i], room_id, id) == Some(c);
            assert(assertion(ab[a.len() + i], room_id, id) == Some(c));
        }
    }
    if introduced(ab, room_id, id) {
        let i = choose|i: int| 0 <= i < ab.len() && introduces(#[trigger] ab[i], room_id, id);
        if i < a.len() {
            assert(introduces(a[i], room_id, id));
        } else {
            assert(introduces(b[i - a.len()], room_id, id));
        }
    }
    if introduced(a, room_id, id) {
        let i = choose|i: int| 0 <= i < a.len() && introduces(#[trigger] a[i], room_id, id);
        assert(introduces(ab[i], room_id, id));
    }
    if introduced(b, room_id, id) {
        let i = choose|i: int| 0 <= i < b.len() && introduces(#[trigger] b[i], room_id, id);
        assert(introduces(ab[a.len() + i], room_id, id));
    }
}

/// Splitting the envelopes `all` over two replicas makes no difference to how `id` is made known.
pub open spec fn split_immaterial(
    a: Seq<EnvelopeView>,
    b: Seq<EnvelopeView>,
    all: Seq<EnvelopeView>,
    room_id: Seq<char>,
    id: Seq<char>,
) -> bool {
    settled(all, room_id, id) || media_first(all, room_id, id) == (media_first(a, room_id, id)
        || media_first(b, room_id, id))
}

proof fn lemma_joined_register_wins(
    r1: RoomView,
    r2: RoomView,
    a: Seq<EnvelopeView>,
    b: Seq<EnvelopeView>,
    id: Seq<char>,
    start: Option<(u64, bool)>,
)
    requires
        r1.well_formed(),
        r2.well_formed(),
        r1.room_id == r2.room_id,
        register(r1.members, id) == register(r2.members, id),
        not_refused(r1, a, id),
        not_refused(r2, b, id),
        start == (if r1.members.contains_key(id) {
            register(r1.members, id)
        } else if media_first(a, r1.room_id, id) || media_first(b, r1.room_id, id) {
            Some((0u64, false))
        } else {
            None
        }),
    ensures
        match joined(register(r1.run(a).members, id), register(r2.run(b).members, id)) {
            Some(v) => wins(v, start, a + b, r1.room_id, id),
            None => !r1.members.contains_key(id) && !introduced(a + b, r1.room_id, id),
        },
{
    let rid = r1.room_id;
    law_highest_seq_wins(r1, a, id);
    law_highest_seq_wins(r2, b, id);
    lemma_claims_concat(a, b, rid, id);
    let ea = register(r1.run(a).members, id);
    let eb = register(r2.run(b).members, id);
    let ba = base(r1, a, id);
    let bb = base(r2, b, id);
    assert(ba is None || ba == start);
    assert(bb is None || bb == start);
    assert(start is None || ba == start || bb == start);
    assert forall|c: (u64, bool)| #[trigger] claimed(start, a + b, rid, id, c) <==> (claimed(
        ba,
        a,
        rid,
        id,
        c,
    ) || claimed(bb, b, rid, id, c)) by {}
    if ea is None {
        lemma_not_introduced(a, rid, id);
        assert forall|c: (u64, bool)| !#[trigger] claimed(ba, a, rid, id, c) by {
            assert(!claimed(None, a, rid, id, c));
        }
    }
    if eb is None {
        lemma_not_introduced(b, rid, id);
        assert forall|c: (u64, bool)| !#[trigger] claimed(bb, b, rid, id, c) by {
            assert(!claimed(None, b, rid, id, c));
        }
    }
    match joined(ea, eb) {
        Some(v) => {
            assert(claimed(start, a + b, rid, id, v)) by {
                if ea is Some {
                    assert(claimed(ba, a, rid, id, ea->Some_0));
                }
                if eb is Some {
                    assert(claimed(bb, b, rid, id, eb->Some_0));
                }
                assert(ea == Some(v) || eb == Some(v));
            }
            assert forall|c: (u64, bool)| #[trigger]
                claimed(start, a + b, rid, id, c) implies prevails(v, c) by {
                if claimed(ba, a, rid, id, c) {
                    assert(prevails(ea->Some_0, c));
                }
                if claimed(bb, b, rid, id, c) {
                    assert(prevails(eb->Some_0, c));
                }
            }
        },
        None => {},
    }
}

/// Reconciliation replaces replay, member by member: of two replicas that start alike and between them
/// have seen the envelopes `all`, the one that merges the other's snapshot has the same presence
/// register of a member as a replica that applied all of them itself.
///
/// None of the three, nor the merge, may have refused the member for want of room, and [`split_immaterial`] leaves out
/// the members whose presence the order of arrival decides.
pub proof fn law_merge_replaces_replay(
    r1: RoomView,
    r2: RoomView,
    r3: RoomView,
    a: Seq<EnvelopeView>,
    b: Seq<EnvelopeView>,
    all: Seq<EnvelopeView>,
    snap: SnapshotView,
    id: Seq<char>,
)
    requires
        r1.well_formed(),
        r2.well_formed(),
        r3.well_formed(),
        r1.room_id == r3.room_id,
        r2.room_id == r3.room_id,
        register(r1.members, id) == register(r3.members, id),
        register(r2.members, id) == register(r3.members, id),
        same_envelopes(a + b, all),
        r3.members.contains_key(id) || split_immaterial(a, b, all, r3.room_id, id),
        not_refused(r1, a, id),
        not_refused(r2, b, id),
        not_refused(r3, all, id),
        snap.captures(r2.run(b)),
        taken_over(r1.run(a).members, snap.members, r1.max_members, id),
    ensures
        register(merged(r1.run(a).members, snap.members, r1.max_members), id) == register(
            r3.run(all).members,
            id,
        ),
{
    let rid = r3.room_id;
    let m = merged(r1.run(a).members, snap.members, r1.max_members);
    let e = r3.run(all).members;
    law_receiving_keeps(r1, a);
    lemma_sorted_is_distinct(snap.members);
    law_merge_joins_registers(r1.run(a).members, snap.members, r1.max_members, id);
    let start = if r1.members.contains_key(id) {
        register(r1.members, id)
    } else if media_first(a, r1.room_id, id) || media_first(b, r1.room_id, id) {
        Some((0u64, false))
    } else {
        None
    };
    lemma_joined_register_wins(r1, r2, a, b, id, start);
    law_highest_seq_wins(r3, all, id);
    lemma_same_claims(a + b, all, rid, id);
    lemma_same_claims(all, a + b, rid, id);
    if e.contains_key(id) {
        let ve = register(e, id)->Some_0;
        match register(m, id) {
            Some(vm) => {
                lemma_winner_prevails(vm, ve, start, base(r3, all, id), a + b, all, rid, id);
                lemma_winner_prevails(ve, vm, base(r3, all, id), start, all, a + b, rid, id);
            },
            None => {},
        }
    } else {
        lemma_not_introduced(all, rid, id);
        match register(m, id) {
            Some(vm) => {
                assert(claimed(start, all, rid, id, vm));
            },
            None => {},
        }
    }
}

/// Reconciliation replaces replay: of two replicas that start alike and between them have seen the
/// envelopes `all`, the one that merges the other's snapshot has the same digest as a replica that
/// applied all of them itself, if each has room for everyone it hears of.
pub proof fn law_merge_converges(
    r1: RoomView,
    r2: RoomView,
    r3: RoomView,
    a: Seq<EnvelopeView>,
    b: Seq<EnvelopeView>,
    all: Seq<EnvelopeView>,
    snap: SnapshotView,
)
    requires
        r1.well_formed(),
        r2.well_formed(),
        r3.well_formed(),
        r1.room_id == r3.room_id,
        r2.room_id == r3.room_id,
        digest_of(r1.members) == digest_of(r3.members),
        digest_of(r2.members) == digest_of(r3.members),
        same_envelopes(a + b, all),
        forall|id: Seq<char>|
            r3.members.contains_key(id) || #[trigger] split_immaterial(a, b, all, r3.room_id, id),
        everyone(r3, all).len() <= r1.max_members,
        everyone(r2, b).len() <= r2.max_members,
        everyone(r3, all).len() <= r3.max_members,
        snap.captures(r2.run(b)),
    ensures
        digest_of(merged(r1.run(a).members, snap.members, r1.max_members)) == digest_of(r3.run(all).members),
{
    let m = merged(r1.run(a).members, snap.members, r1.max_members);
    let e = r3.run(all).members;
    lemma_everyone(r1, a);
    lemma_everyone(r2, b);
    lemma_everyone(r3, all);
    assert forall|id: Seq<char>|
        everyone(r1, a).contains(id) || everyone(r2, b).contains(id) implies everyone(
        r3,
        all,
    ).contains(id) by {
        lemma_digest_register(r1.members, r3.members, id);
        lemma_digest_register(r2.members, r3.members, id);
        lemma_claims_concat(a, b, r3.room_id, id);
        lemma_same_claims(a + b, all, r3.room_id, id);
    }
    lemma_fits(everyone(r1, a), everyone(r3, all), r1.max_members);
    law_everyone_is_tracked(r1, a);
    law_everyone_is_tracked(r2, b);
    law_everyone_is_tracked(r3, all);
    lemma_fits(
        r1.run(a).members.dom().union(by_id(snap.members).dom()),
        everyone(r3, all),
        r1.max_members,
    );
    law_merge_with_room_refuses_no_one(r1.run(a).members, snap.members, r1.max_members);
    assert forall|id: Seq<char>| #[trigger] register(m, id) == register(e, id) by {
        lemma_digest_register(r1.members, r3.members, id);
        lemma_digest_register(r2.members, r3.members, id);
        assert(not_refused(r1, a, id) && not_refused(r2, b, id) && not_refused(r3, all, id));
        assert(r3.members.contains_key(id) || split_immaterial(a, b, all, r3.room_id, id));
        assert(taken_over(r1.run(a).members, snap.members, r1.max_members, id));
        law_merge_replaces_replay(r1, r2, r3, a, b, all, snap, id);
    }
    lemma_registers_determine_digest(m, e);
}

} // verus!
