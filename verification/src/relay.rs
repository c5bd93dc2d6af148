//! Relay membership and fan-out planning.
//!
//! The relay learns its participants by observation: every datagram's source
//! address is admitted into a membership table, and the payload is then
//! forwarded to every other known member. Addresses are never removed — a
//! silent peer stays in the table for the relay's lifetime, a documented
//! staleness limitation of the design. The sends themselves are I/O and stay
//! outside the library; `plan_forward` computes the exact target list.

use vstd::prelude::*;

verus! {

/// An IPv4 transport address (address and port), the identity by which the
/// relay tells peers apart.
#[derive(Clone, Copy, PartialEq, Eq, Structural, Debug)]
pub struct PeerAddr {
    pub ip: u32,
    pub port: u16,
}

/// The set of peers the relay has observed so far: the only shared mutable
/// state of the relay process. It only ever grows.
pub struct Membership {
    members: Vec<PeerAddr>,
}

impl View for Membership {
    type V = Set<PeerAddr>;

    closed spec fn view(&self) -> Set<PeerAddr> {
        self.members@.to_set()
    }
}

impl Membership {
    /// Internal invariant: no address is recorded twice.
    pub closed spec fn wf(&self) -> bool {
        self.members@.no_duplicates()
    }

    /// An empty table.
    pub fn new() -> (r: Membership)
        ensures
            r.wf(),
            r@ == Set::<PeerAddr>::empty(),
    {
        let r = Membership { members: Vec::new() };
        proof {
            assert(r@ =~= Set::<PeerAddr>::empty());
        }
        r
    }

    /// Whether `a` has been observed.
    pub fn contains(&self, a: PeerAddr) -> (r: bool)
        ensures
            r == self@.contains(a),
    {
        let n = self.members.len();
        let mut i: usize = 0;
        while i < n
            invariant
                n == self.members@.len(),
                0 <= i <= n,
                forall|j: int| 0 <= j < i ==> self.members@[j] != a,
            decreases n - i,
        {
            if self.members[i] == a {
                proof {
                    assert(self.members@.contains(a));
                }
                return true;
            }
            i = i + 1;
        }
        proof {
            assert(!self.members@.contains(a));
        }
        false
    }

    /// How many peers have been observed.
    pub fn len(&self) -> (r: usize)
        requires
            self.wf(),
        ensures
            r == self@.len(),
    {
        proof {
            self.members@.unique_seq_to_set();
        }
        self.members.len()
    }

    /// Records an observed sender address; inserting an address that is
    /// already present changes nothing.
    pub fn observe(&mut self, a: PeerAddr)
        requires
            old(self).wf(),
        ensures
            final(self).wf(),
            final(self)@ == old(self)@.insert(a),
            old(self)@.subset_of(final(self)@),
    {
        if !self.contains(a) {
            let ghost before = self.members@;
            self.members.push(a);
            proof {
                assert(self.members@.drop_last() =~= before);
                before.lemma_push_to_set_commute(a);
                assert(self@ =~= old(self)@.insert(a));
            }
        } else {
            proof {
                assert(self@ =~= old(self)@.insert(a));
            }
        }
    }

    /// A point-in-time copy of every member other than `except`, each exactly
    /// once: the fan-out list for a datagram received from `except`.
    pub fn snapshot_except(&self, except: PeerAddr) -> (r: Vec<PeerAddr>)
        requires
            self.wf(),
        ensures
            r@.no_duplicates(),
            !r@.contains(except),
            forall|x: PeerAddr| #[trigger] r@.contains(x) <==> self@.contains(x) && x != except,
            r@.to_set() == self@.remove(except),
    {
        let n = self.members.len();
        let mut r: Vec<PeerAddr> = Vec::new();
        let mut i: usize = 0;
        while i < n
            invariant
                n == self.members@.len(),
                0 <= i <= n,
                self.members@.no_duplicates(),
                forall|x: PeerAddr| #[trigger] r@.contains(x) <==> (exists|j: int|
                    0 <= j < i && self.members@[j] == x) && x != except,
                r@.no_duplicates(),
            decreases n - i,
        {
            let m = self.members[i];
            if !(m == except) {
                proof {
                    if r@.contains(m) {
                        let j = choose|j: int| 0 <= j < i && self.members@[j] == m;
                        assert(self.members@[j] == self.members@[i as int]);
                        assert(false);
                    }
                }
                let ghost before = r@;
                r.push(m);
                proof {
                    assert(r@.drop_last() =~= before);
                    assert forall|x: PeerAddr| #[trigger] r@.contains(x) <==> ((exists|j: int|
                        0 <= j < i + 1 && self.members@[j] == x) && x != except) by {
                        vstd::seq_lib::lemma_seq_contains_after_push(before, m, x);
                        if before.contains(x) {
                            let j = choose|j: int| 0 <= j < i && self.members@[j] == x;
                            assert(0 <= j < i + 1 && self.members@[j] == x);
                        }
                        if (exists|j: int| 0 <= j < i + 1 && self.members@[j] == x) && x
                            != except {
                            let j = choose|j: int| 0 <= j < i + 1 && self.members@[j] == x;
                            if j < i {
                                assert(before.contains(x));
                            } else {
                                assert(x == m);
                            }
                        }
                    }
                }
            } else {
                proof {
                    assert forall|x: PeerAddr| #[trigger] r@.contains(x) <==> ((exists|j: int|
                        0 <= j < i + 1 && self.members@[j] == x) && x != except) by {
                        if (exists|j: int| 0 <= j < i + 1 && self.members@[j] == x) && x
                            != except {
                            let j = choose|j: int| 0 <= j < i + 1 && self.members@[j] == x;
                            if j < i {
                                assert((exists|k: int| 0 <= k < i && self.members@[k] == x));
                            } else {
                                assert(x == m);
                                assert(false);
                            }
                        }
                    }
                }
            }
            i = i + 1;
        }
        proof {
            assert(forall|x: PeerAddr| self.members@.contains(x) <==> (exists|j: int|
                0 <= j < n && self.members@[j] == x));
            assert(r@.to_set() =~= self@.remove(except));
        }
        r
    }
}

/// The relay's whole decision for one received datagram `(payload, sender)`:
/// admit the sender, then return the fan-out targets — every known member but
/// the sender. The caller transmits the payload, unmodified, to each target.
pub fn plan_forward(table: &mut Membership, sender: PeerAddr) -> (targets: Vec<PeerAddr>)
    requires
        old(table).wf(),
    ensures
        final(table).wf(),
        final(table)@ == old(table)@.insert(sender),
        targets@.no_duplicates(),
        !targets@.contains(sender),
        forall|x: PeerAddr| #[trigger] targets@.contains(x) <==> old(table)@.contains(x) && x
            != sender,
        targets@.to_set() == old(table)@.remove(sender),
{
    table.observe(sender);
    let targets = table.snapshot_except(sender);
    proof {
        assert(targets@.to_set() =~= old(table)@.remove(sender));
    }
    targets
}

/// The members known after the relay has processed `events` — the source
/// address of each received datagram, oldest first — starting from `init`.
pub open spec fn members_after(init: Set<PeerAddr>, events: Seq<PeerAddr>) -> Set<PeerAddr>
    decreases events.len(),
{
    if events.len() == 0 {
        init
    } else {
        members_after(init, events.drop_last()).insert(events.last())
    }
}

/// The fan-out targets of datagram `i` of `events`: the members known once
/// its sender is admitted, minus that sender.
pub open spec fn targets_at(init: Set<PeerAddr>, events: Seq<PeerAddr>, i: int) -> Set<PeerAddr> {
    members_after(init, events.take(i + 1)).remove(events[i])
}

/// A peer is known exactly if it was known initially or has sent something.
pub proof fn lemma_members_after_characterization(init: Set<PeerAddr>, events: Seq<PeerAddr>)
    ensures
        forall|x: PeerAddr| #[trigger] members_after(init, events).contains(x) <==> (init.contains(
            x,
        ) || events.contains(x)),
    decreases events.len(),
{
    if events.len() > 0 {
        let d = events.drop_last();
        let l = events.last();
        lemma_members_after_characterization(init, d);
        assert(members_after(init, events) == members_after(init, d).insert(l));
        assert forall|x: PeerAddr| #[trigger] members_after(init, events).contains(x) implies (
        init.contains(x) || events.contains(x)) by {
            assert(members_after(init, d).contains(x) || x == l);
            if members_after(init, d).contains(x) {
                if d.contains(x) {
                    let j = choose|j: int| 0 <= j < d.len() && d[j] == x;
                    assert(events[j] == x);
                    assert(events.contains(x));
                }
            } else {
                assert(x == l);
                assert(events[events.len() - 1] == x);
                assert(events.contains(x));
            }
        }
        assert forall|x: PeerAddr| (init.contains(x) || events.contains(x)) implies #[trigger]
        members_after(init, events).contains(x) by {
            if events.contains(x) {
                let j = choose|j: int| 0 <= j < events.len() && events[j] == x;
                if j < events.len() - 1 {
                    assert(d[j] == x);
                    assert(d.contains(x));
                    assert(members_after(init, d).contains(x));
                } else {
                    assert(x == l);
                }
            }
            if init.contains(x) {
                assert(members_after(init, d).contains(x));
            }
        }
    }
}

/// `members_after` stays finite when it starts finite.
pub proof fn lemma_members_after_finite(init: Set<PeerAddr>, events: Seq<PeerAddr>)
    requires
        init.finite(),
    ensures
        members_after(init, events).finite(),
    decreases events.len(),
{
    if events.len() > 0 {
        lemma_members_after_finite(init, events.drop_last());
    }
}

/// Law: every datagram is forwarded to exactly the peers known at that
/// moment other than its own sender — and in particular never back to the
/// sender, whatever was known before and whatever came after.
pub proof fn lemma_forward_targets(init: Set<PeerAddr>, events: Seq<PeerAddr>, i: int)
    requires
        0 <= i < events.len(),
    ensures
        !targets_at(init, events, i).contains(events[i]),
        forall|x: PeerAddr| #[trigger] targets_at(init, events, i).contains(x) <==> ((init.contains(
            x,
        ) || events.take(i + 1).contains(x)) && x != events[i]),
{
    lemma_members_after_characterization(init, events.take(i + 1));
}

/// Law: the membership table is monotone — whatever the traffic, every peer
/// known after `i` datagrams is still known after any `j >= i`, and the
/// table's size never decreases.
pub proof fn lemma_membership_monotone(init: Set<PeerAddr>, events: Seq<PeerAddr>, i: int, j: int)
    requires
        init.finite(),
        0 <= i <= j <= events.len(),
    ensures
        members_after(init, events.take(i)).subset_of(members_after(init, events.take(j))),
        members_after(init, events.take(i)).len() <= members_after(init, events.take(j)).len(),
{
    lemma_members_after_characterization(init, events.take(i));
    lemma_members_after_characterization(init, events.take(j));
    assert forall|x: PeerAddr| members_after(init, events.take(i)).contains(x) implies members_after(
        init,
        events.take(j),
    ).contains(x) by {
        if events.take(i).contains(x) {
            let k = choose|k: int| 0 <= k < events.take(i).len() && events.take(i)[k] == x;
            assert(events.take(j)[k] == x);
            assert(events.take(j).contains(x));
        }
    }
    lemma_members_after_finite(init, events.take(i));
    lemma_members_after_finite(init, events.take(j));
    vstd::set_lib::lemma_len_subset(
        members_after(init, events.take(i)),
        members_after(init, events.take(j)),
    );
}

/// Processing one more datagram relates the running table to the run model:
/// what `plan_forward` does to a table holding `members_after(init, done)`
/// yields the model's next membership and exactly the model's targets.
pub proof fn lemma_run_step(init: Set<PeerAddr>, done: Seq<PeerAddr>, e: PeerAddr)
    ensures
        members_after(init, done).insert(e) == members_after(init, done.push(e)),
        members_after(init, done).insert(e).remove(e) == targets_at(
            init,
            done.push(e),
            done.len() as int,
        ),
{
    assert(done.push(e).drop_last() =~= done);
    assert(done.push(e).last() == e);
    assert(done.push(e).take(done.len() as int + 1) =~= done.push(e));
    assert(done.push(e)[done.len() as int] == e);
}

} // verus!
