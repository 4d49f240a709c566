//! The edge's shared state: registered connections with their outbound
//! frame queues, and the group distribution map that fan-out consults.
//!
//! Connection ids come from a monotonic counter and are never reused.
//! Removing a connection clears it from every group. Broadcast appends
//! one frame to the queue of every subscriber of the group and touches
//! no other queue.

use vstd::prelude::*;

use crate::stomp::{StompFrame, FrameView, StompClientFrame, SendClientFrame, ClientFrameView,
    SendFrameView};
use crate::comment::{Comment, DecodeError, spec_decode_comment, spec_message_frame};
use crate::text::string_eq_str;
use vstd::std_specs::vec::vec_index_mut;

verus! {

broadcast use vstd::seq_lib::group_seq_lib_default, vstd::seq::group_seq_axioms;

/// Why a client command was rejected.
#[derive(Clone, Copy, PartialEq, Eq, Structural, Debug)]
pub enum ContextError {
    /// The connection id is not registered.
    UnknownUser,
}

/// What the caller must still do after a frame was dispatched.
#[derive(Debug)]
pub enum DispatchOutcome {
    /// Nothing: the frame was applied to the registry state.
    Done,
    /// Turn this SEND payload into a record and produce it to the bus.
    Produce(SendClientFrame),
}

/// The edge's shared state.
pub struct ApplicationContext {
    next_user_id: u64,
    users: Vec<(u64, Vec<StompFrame>)>,
    distribution_map: Vec<(String, Vec<u64>)>,
}

/// The frames of one queue, by their views, oldest first.
pub open spec fn queue_view(q: Vec<StompFrame>) -> Seq<FrameView> {
    q@.map_values(|f: StompFrame| f@)
}

/// First queue listed under `id`, scanning the table front to back.
spec fn find_user(users: Seq<(u64, Vec<StompFrame>)>, id: u64) -> Option<Vec<StompFrame>>
    decreases users.len(),
{
    if users.len() == 0 {
        None
    } else if users[0].0 == id {
        Some(users[0].1)
    } else {
        find_user(users.skip(1), id)
    }
}

/// First member list listed under group `g`.
spec fn find_group(groups: Seq<(String, Vec<u64>)>, g: Seq<char>) -> Option<Vec<u64>>
    decreases groups.len(),
{
    if groups.len() == 0 {
        None
    } else if groups[0].0@ == g {
        Some(groups[0].1)
    } else {
        find_group(groups.skip(1), g)
    }
}

/// At any listed position whose key matches, the first-match lookup
/// agrees, provided no earlier position matches.
proof fn lemma_find_user_at(users: Seq<(u64, Vec<StompFrame>)>, id: u64, i: int)
    requires
        0 <= i < users.len(),
        users[i].0 == id,
        forall|j: int| 0 <= j < i ==> (#[trigger] users[j]).0 != id,
    ensures
        find_user(users, id) == Some(users[i].1),
    decreases i,
{
    if i > 0 {
        assert(forall|j: int| 0 <= j < users.skip(1).len() ==> users.skip(1)[j] == users[j + 1]);
        lemma_find_user_at(users.skip(1), id, i - 1);
    }
}

proof fn lemma_find_user_absent(users: Seq<(u64, Vec<StompFrame>)>, id: u64)
    requires
        forall|j: int| 0 <= j < users.len() ==> (#[trigger] users[j]).0 != id,
    ensures
        find_user(users, id) is None,
    decreases users.len(),
{
    if users.len() > 0 {
        assert(forall|j: int| 0 <= j < users.skip(1).len() ==> users.skip(1)[j] == users[j + 1]);
        lemma_find_user_absent(users.skip(1), id);
    }
}

proof fn lemma_find_group_at(groups: Seq<(String, Vec<u64>)>, g: Seq<char>, i: int)
    requires
        0 <= i < groups.len(),
        groups[i].0@ == g,
        forall|j: int| 0 <= j < i ==> (#[trigger] groups[j]).0@ != g,
    ensures
        find_group(groups, g) == Some(groups[i].1),
    decreases i,
{
    if i > 0 {
        assert(forall|j: int| 0 <= j < groups.skip(1).len() ==> groups.skip(1)[j] == groups[j + 1]);
        lemma_find_group_at(groups.skip(1), g, i - 1);
    }
}

proof fn lemma_find_group_absent(groups: Seq<(String, Vec<u64>)>, g: Seq<char>)
    requires
        forall|j: int| 0 <= j < groups.len() ==> (#[trigger] groups[j]).0@ != g,
    ensures
        find_group(groups, g) is None,
    decreases groups.len(),
{
    if groups.len() > 0 {
        assert(forall|j: int| 0 <= j < groups.skip(1).len() ==> groups.skip(1)[j] == groups[j + 1]);
        lemma_find_group_absent(groups.skip(1), g);
    }
}

impl ApplicationContext {
    /// The outbound queue of connection `id`, when it is registered.
    pub closed spec fn queue(self, id: u64) -> Option<Seq<FrameView>> {
        match find_user(self.users@, id) {
            Some(q) => Some(queue_view(q)),
            None => None,
        }
    }

    /// Whether connection `id` is registered.
    pub open spec fn registered(self, id: u64) -> bool {
        self.queue(id) is Some
    }

    /// Whether connection `id` is subscribed to group `g`.
    pub closed spec fn in_group(self, g: Seq<char>, id: u64) -> bool {
        match find_group(self.distribution_map@, g) {
            Some(m) => m@.contains(id),
            None => false,
        }
    }

    /// The id the next registration will receive.
    pub closed spec fn next_id(self) -> u64 {
        self.next_user_id
    }

    /// Some registered connection carries id `member`.
    pub closed spec fn member_known(self, member: u64) -> bool {
        exists|k: int|
            0 <= k < self.users@.len() && (#[trigger] self.users@[k]).0 == member
    }

    /// Well-formed: connection ids unique and below the counter, group
    /// keys unique, members unique and registered.
    pub closed spec fn wf(self) -> bool {
        &&& forall|i: int, j: int|
            0 <= i < j < self.users@.len() ==> (#[trigger] self.users@[i]).0 != (
            #[trigger] self.users@[j]).0
        &&& forall|i: int|
            0 <= i < self.users@.len() ==> (#[trigger] self.users@[i]).0 < self.next_user_id
        &&& forall|i: int, j: int|
            0 <= i < j < self.distribution_map@.len() ==> (#[trigger] self.distribution_map@[i]).0@
                != (#[trigger] self.distribution_map@[j]).0@
        &&& forall|i: int, j: int, k: int|
            0 <= i < self.distribution_map@.len() && 0 <= j < k
                < self.distribution_map@[i].1@.len()
                ==> #[trigger] self.distribution_map@[i].1@[j]
                != #[trigger] self.distribution_map@[i].1@[k]
        &&& forall|i: int, j: int|
            0 <= i < self.distribution_map@.len() && 0 <= j < self.distribution_map@[i].1@.len()
                ==> self.member_known(#[trigger] self.distribution_map@[i].1@[j])
    }

    /// A fresh, empty context. The counter starts at one.
    pub fn new() -> (r: Self)
        ensures
            r.wf(),
            r.next_id() == 1,
            forall|id: u64| !r.registered(id),
            forall|g: Seq<char>, id: u64| !r.in_group(g, id),
    {
        let r = ApplicationContext {
            next_user_id: 1,
            users: Vec::new(),
            distribution_map: Vec::new(),
        };
        proof {
            assert forall|id: u64| !r.registered(id) by {
                lemma_find_user_absent(r.users@, id);
            }
            assert forall|g: Seq<char>, id: u64| !r.in_group(g, id) by {
                lemma_find_group_absent(r.distribution_map@, g);
            }
        }
        r
    }

    /// The id the next registration will receive, for callers that must
    /// check the counter has room before registering.
    pub fn next_user_id(&self) -> (r: u64)
        ensures
            r == self.next_id(),
    {
        self.next_user_id
    }

    /// Index of connection `user_id` in the table, if present.
    fn user_position(&self, user_id: u64) -> (r: Option<usize>)
        ensures
            match r {
                Some(i) => i < self.users@.len() && self.users@[i as int].0 == user_id && forall|
                    j: int,
                |
                    0 <= j < i ==> (#[trigger] self.users@[j]).0 != user_id,
                None => forall|j: int|
                    0 <= j < self.users@.len() ==> (#[trigger] self.users@[j]).0 != user_id,
            },
    {
        let n: usize = self.users.len();
        let mut i: usize = 0;
        while i < n
            invariant
                i <= n,
                n == self.users@.len(),
                forall|j: int| 0 <= j < i ==> (#[trigger] self.users@[j]).0 != user_id,
            decreases n - i,
        {
            if self.users[i].0 == user_id {
                return Some(i);
            }
            i = i + 1;
        }
        None
    }

    /// Index of group `group` in the distribution map, if present.
    fn group_position(&self, group: &String) -> (r: Option<usize>)
        ensures
            match r {
                Some(i) => i < self.distribution_map@.len() && self.distribution_map@[i as int].0@
                    == group@ && forall|j: int|
                    0 <= j < i ==> (#[trigger] self.distribution_map@[j]).0@ != group@,
                None => forall|j: int|
                    0 <= j < self.distribution_map@.len() ==> (
                    #[trigger] self.distribution_map@[j]).0@ != group@,
            },
    {
        let n: usize = self.distribution_map.len();
        let mut i: usize = 0;
        while i < n
            invariant
                i <= n,
                n == self.distribution_map@.len(),
                forall|j: int| 0 <= j < i ==> (#[trigger] self.distribution_map@[j]).0@ != group@,
            decreases n - i,
        {
            if string_eq_str(&self.distribution_map[i].0, group.as_str()) {
                return Some(i);
            }
            i = i + 1;
        }
        None
    }

    /// Registers a connection: a fresh id, an empty queue, no
    /// subscriptions touched.
    pub fn add_user(&mut self) -> (r: u64)
        requires
            old(self).wf(),
            old(self).next_id() < u64::MAX,
        ensures
            final(self).wf(),
            r == old(self).next_id(),
            !old(self).registered(r),
            final(self).next_id() == old(self).next_id() + 1,
            final(self).queue(r) == Some(Seq::<FrameView>::empty()),
            forall|id: u64| id != r ==> final(self).queue(id) == old(self).queue(id),
            forall|g: Seq<char>, id: u64|
                final(self).in_group(g, id) == old(self).in_group(g, id),
    {
        let id = self.next_user_id;
        self.next_user_id = self.next_user_id + 1;
        let fresh: Vec<StompFrame> = Vec::new();
        self.users.push((id, fresh));
        proof {
            let olds = old(self).users@;
            let news = self.users@;
            assert(news =~= olds.push((id, fresh)));
            lemma_find_user_absent(olds, id);
            assert(forall|j: int| 0 <= j < olds.len() ==> (#[trigger] olds[j]).0 != id);
            assert forall|j: int| 0 <= j < news.len() - 1 implies (#[trigger] news[j]).0 != id by {
                assert(news[j] == olds[j]);
            }
            lemma_find_user_at(news, id, news.len() - 1);
            assert(queue_view(fresh) =~= Seq::<FrameView>::empty());
            assert forall|o: u64| o != id implies final(self).queue(o) == old(self).queue(o) by {
                match find_user(olds, o) {
                    Some(q) => {
                        lemma_find_user_first_witness(olds, o);
                        let i = choose|i: int|
                            0 <= i < olds.len() && (#[trigger] olds[i]).0 == o && (forall|j: int|
                                0 <= j < i ==> (#[trigger] olds[j]).0 != o) && find_user(olds, o)
                                == Some(olds[i].1);
                        assert(news[i] == olds[i]);
                        lemma_find_user_at(news, o, i);
                    },
                    None => {
                        lemma_find_user_characterize(olds, o);
                        assert forall|j: int| 0 <= j < news.len() implies (#[trigger] news[j]).0
                            != o by {
                            if j < news.len() - 1 {
                                assert(news[j] == olds[j]);
                            }
                        }
                        lemma_find_user_absent(news, o);
                    },
                }
            }
            assert forall|g: Seq<char>, o: u64|
                final(self).in_group(g, o) == old(self).in_group(g, o) by {
                assert(self.distribution_map@ == old(self).distribution_map@);
            }
            assert(final(self).wf()) by {
                assert forall|i: int, j: int| 0 <= i < j < news.len() implies (
                #[trigger] news[i]).0 != (#[trigger] news[j]).0 by {
                    if j < news.len() - 1 {
                        assert(news[i] == olds[i] && news[j] == olds[j]);
                    } else {
                        assert(news[i] == olds[i]);
                        assert(olds[i].0 < id);
                    }
                }
                assert forall|i: int| 0 <= i < news.len() implies (#[trigger] news[i]).0
                    < self.next_user_id by {
                    if i < news.len() - 1 {
                        assert(news[i] == olds[i]);
                    }
                }
                let dm = self.distribution_map@;
                assert forall|i: int, j: int|
                    0 <= i < dm.len() && 0 <= j < dm[i].1@.len() implies (*self).member_known(
                    #[trigger] dm[i].1@[j],
                ) by {
                    assert(old(self).member_known(dm[i].1@[j]));
                    let k = choose|k: int|
                        0 <= k < olds.len() && (#[trigger] olds[k]).0 == dm[i].1@[j];
                    assert(news[k] == olds[k]);
                    assert(0 <= k < news.len() && news[k].0 == dm[i].1@[j]);
                }
            }
        }
        id
    }
}

impl ApplicationContext {
    /// Clears connection `user_id` out of every group's member set.
    fn remove_user_from_distribution_map(&mut self, user_id: u64)
        requires
            old(self).wf(),
        ensures
            final(self).wf(),
            final(self).users@ == old(self).users@,
            final(self).next_id() == old(self).next_id(),
            forall|g: Seq<char>| !final(self).in_group(g, user_id),
            forall|g: Seq<char>, id: u64|
                id != user_id ==> final(self).in_group(g, id) == old(self).in_group(g, id),
    {
        let n: usize = self.distribution_map.len();
        let mut i: usize = 0;
        while i < n
            invariant
                i <= n,
                n == self.distribution_map@.len(),
                self.users@ == old(self).users@,
                self.next_user_id == old(self).next_user_id,
                old(self).wf(),
                forall|t: int|
                    0 <= t < n ==> (#[trigger] self.distribution_map@[t]).0 == old(
                        self,
                    ).distribution_map@[t].0,
                forall|t: int|
                    i <= t < n ==> #[trigger] self.distribution_map@[t] == old(
                        self,
                    ).distribution_map@[t],
                forall|t: int|
                    0 <= t < i ==> !(#[trigger] self.distribution_map@[t]).1@.contains(user_id),
                forall|t: int, id: u64|
                    0 <= t < i && id != user_id ==> (#[trigger] self.distribution_map@[t].1@.contains(
                        id,
                    ) == old(self).distribution_map@[t].1@.contains(id)),
                forall|t: int, q1: int, q2: int|
                    0 <= t < n && 0 <= q1 < q2 < self.distribution_map@[t].1@.len()
                        ==> #[trigger] self.distribution_map@[t].1@[q1]
                        != #[trigger] self.distribution_map@[t].1@[q2],
                forall|t: int, q: int|
                    0 <= t < n && 0 <= q < self.distribution_map@[t].1@.len() ==> old(
                        self,
                    ).distribution_map@[t].1@.contains(
                        #[trigger] self.distribution_map@[t].1@[q],
                    ),
            decreases n - i,
        {
            let ghost members = self.distribution_map@[i as int].1@;
            let m: usize = self.distribution_map[i].1.len();
            let mut kept: Vec<u64> = Vec::new();
            let mut j: usize = 0;
            while j < m
                invariant
                    j <= m,
                    i < n,
                    n == self.distribution_map@.len(),
                    m == members.len(),
                    members == self.distribution_map@[i as int].1@,
                    forall|q1: int, q2: int|
                        0 <= q1 < q2 < members.len() ==> #[trigger] members[q1]
                            != #[trigger] members[q2],
                    forall|q: int| 0 <= q < kept@.len() ==> #[trigger] kept@[q] != user_id,
                    forall|q: int|
                        0 <= q < kept@.len() ==> exists|t: int|
                            0 <= t < j && members[t] == #[trigger] kept@[q],
                    forall|t: int|
                        0 <= t < j && #[trigger] members[t] != user_id ==> kept@.contains(
                            members[t],
                        ),
                    forall|q1: int, q2: int|
                        0 <= q1 < q2 < kept@.len() ==> #[trigger] kept@[q1] != #[trigger] kept@[q2],
                decreases m - j,
            {
                let v = self.distribution_map[i].1[j];
                let ghost old_kept = kept@;
                if v != user_id {
                    proof {
                        if kept@.contains(v) {
                            let q = choose|q: int| 0 <= q < kept@.len() && kept@[q] == v;
                            let t = choose|t: int| 0 <= t < j && members[t] == kept@[q];
                            assert(members[t] == members[j as int]);
                            assert(false);
                        }
                    }
                    kept.push(v);
                    proof {
                        assert(kept@ =~= old_kept.push(v));
                        assert(kept@[kept@.len() - 1] == v);
                        assert forall|t: int|
                            0 <= t < j + 1 && #[trigger] members[t] != user_id implies kept@.contains(
                            members[t],
                        ) by {
                            if t < j {
                                let q = choose|q: int|
                                    0 <= q < old_kept.len() && old_kept[q] == members[t];
                                assert(kept@[q] == members[t]);
                            } else {
                                assert(kept@[kept@.len() - 1] == members[t]);
                            }
                        }
                    }
                } else {
                    proof {
                        assert forall|t: int|
                            0 <= t < j + 1 && #[trigger] members[t] != user_id implies kept@.contains(
                            members[t],
                        ) by {
                            if t < j {
                                let q = choose|q: int|
                                    0 <= q < old_kept.len() && old_kept[q] == members[t];
                                assert(kept@[q] == members[t]);
                            }
                        }
                    }
                }
                j = j + 1;
            }
            let entry = vec_index_mut(&mut self.distribution_map, i);
            entry.1 = kept;
            proof {
                assert forall|t: int, id: u64|
                    0 <= t < i + 1 && id != user_id implies (
                #[trigger] self.distribution_map@[t].1@.contains(id) == old(
                    self,
                ).distribution_map@[t].1@.contains(id)) by {
                    if t == i {
                        let cur = self.distribution_map@[t].1@;
                        if cur.contains(id) {
                            let q = choose|q: int| 0 <= q < cur.len() && cur[q] == id;
                            let w = choose|w: int| 0 <= w < m && members[w] == cur[q];
                            assert(old(self).distribution_map@[t].1@.contains(id));
                        }
                        if old(self).distribution_map@[t].1@.contains(id) {
                            let q = choose|q: int|
                                0 <= q < members.len() && members[q] == id;
                            assert(cur.contains(id));
                        }
                    }
                }
                assert forall|t: int, q: int|
                    0 <= t < n && 0 <= q < self.distribution_map@[t].1@.len() implies old(
                    self,
                ).distribution_map@[t].1@.contains(
                    #[trigger] self.distribution_map@[t].1@[q],
                ) by {
                    if t == i {
                        let cur = self.distribution_map@[t].1@;
                        let w = choose|w: int| 0 <= w < m && members[w] == cur[q];
                        assert(old(self).distribution_map@[t].1@[w] == cur[q]);
                    }
                }
            }
            i = i + 1;
        }
        proof {
            let dm = self.distribution_map@;
            let odm = old(self).distribution_map@;
            assert forall|g: Seq<char>| !(*self).in_group(g, user_id) by {
                if find_group(dm, g) is Some {
                    lemma_find_group_first_witness(dm, g);
                    let w = choose|w: int|
                        0 <= w < dm.len() && (#[trigger] dm[w]).0@ == g && (forall|j: int|
                            0 <= j < w ==> (#[trigger] dm[j]).0@ != g) && find_group(dm, g)
                            == Some(dm[w].1);
                    assert(!dm[w].1@.contains(user_id));
                }
            }
            assert forall|g: Seq<char>, id: u64|
                id != user_id implies (*self).in_group(g, id) == old(self).in_group(
                g,
                id,
            ) by {
                match find_group(odm, g) {
                    Some(mm) => {
                        lemma_find_group_first_witness(odm, g);
                        let w = choose|w: int|
                            0 <= w < odm.len() && (#[trigger] odm[w]).0@ == g && (forall|j: int|
                                0 <= j < w ==> (#[trigger] odm[j]).0@ != g) && find_group(odm, g)
                                == Some(odm[w].1);
                        assert forall|j: int| 0 <= j < w implies (#[trigger] dm[j]).0@ != g by {
                            assert(dm[j].0 == odm[j].0);
                        }
                        assert(dm[w].0 == odm[w].0);
                        lemma_find_group_at(dm, g, w);
                    },
                    None => {
                        lemma_find_group_characterize(odm, g);
                        assert forall|j: int| 0 <= j < dm.len() implies (#[trigger] dm[j]).0@
                            != g by {
                            assert(dm[j].0 == odm[j].0);
                        }
                        lemma_find_group_absent(dm, g);
                    },
                }
            }
            assert(forall|i2: int, j2: int|
                0 <= i2 < j2 < self.users@.len() ==> (#[trigger] self.users@[i2]).0 != (
                #[trigger] self.users@[j2]).0);
            assert(forall|i2: int|
                0 <= i2 < self.users@.len() ==> (#[trigger] self.users@[i2]).0
                    < self.next_user_id);
            assert(forall|i2: int, j2: int|
                0 <= i2 < j2 < self.distribution_map@.len() ==> (
                #[trigger] self.distribution_map@[i2]).0@ != (
                #[trigger] self.distribution_map@[j2]).0@);
            assert(forall|i2: int, j2: int, k2: int|
                0 <= i2 < self.distribution_map@.len() && 0 <= j2 < k2
                    < self.distribution_map@[i2].1@.len()
                    ==> #[trigger] self.distribution_map@[i2].1@[j2]
                    != #[trigger] self.distribution_map@[i2].1@[k2]);
            assert forall|t: int, j: int|
                0 <= t < self.distribution_map@.len() && 0 <= j
                    < self.distribution_map@[t].1@.len() implies (*self).member_known(
                #[trigger] self.distribution_map@[t].1@[j],
            ) by {
                assert(old(self).distribution_map@[t].1@.contains(
                    self.distribution_map@[t].1@[j],
                ));
                let q = choose|q: int|
                    0 <= q < old(self).distribution_map@[t].1@.len() && old(
                        self,
                    ).distribution_map@[t].1@[q] == self.distribution_map@[t].1@[j];
                assert(old(self).member_known(old(self).distribution_map@[t].1@[q]));
                let k = choose|k: int|
                    0 <= k < old(self).users@.len() && (#[trigger] old(self).users@[k]).0 == old(
                        self,
                    ).distribution_map@[t].1@[q];
                assert(self.users@[k] == old(self).users@[k]);
                assert(0 <= k < self.users@.len() && self.users@[k].0
                    == self.distribution_map@[t].1@[j]);
            }
            assert((*self).wf());
        }
    }

    /// Whether the member list holds `x`.
    fn contains_id(v: &Vec<u64>, x: u64) -> (r: bool)
        ensures
            r == v@.contains(x),
    {
        let n: usize = v.len();
        let mut i: usize = 0;
        while i < n
            invariant
                i <= n,
                n == v@.len(),
                forall|k: int| 0 <= k < i ==> #[trigger] v@[k] != x,
            decreases n - i,
        {
            if v[i] == x {
                assert(v@[i as int] == x);
                return true;
            }
            i = i + 1;
        }
        proof {
            if v@.contains(x) {
                let q = choose|q: int| 0 <= q < v@.len() && v@[q] == x;
            }
        }
        false
    }

    /// Subscribes a registered connection to a group, creating the group
    /// on first use. Re-subscribing is a no-op success; an unregistered
    /// connection is rejected and nothing changes.
    pub fn subscribe(&mut self, user_id: u64, group: String) -> (r: Result<(), ContextError>)
        requires
            old(self).wf(),
        ensures
            final(self).wf(),
            final(self).next_id() == old(self).next_id(),
            forall|id: u64| final(self).queue(id) == old(self).queue(id),
            match r {
                Ok(u) => {
                    &&& old(self).registered(user_id)
                    &&& final(self).in_group(group@, user_id)
                    &&& forall|g: Seq<char>, id: u64|
                        !(g == group@ && id == user_id) ==> final(self).in_group(g, id) == old(
                            self,
                        ).in_group(g, id)
                },
                Err(e) => {
                    &&& e == ContextError::UnknownUser
                    &&& !old(self).registered(user_id)
                    &&& forall|g: Seq<char>, id: u64|
                        final(self).in_group(g, id) == old(self).in_group(g, id)
                },
            },
    {
        match self.user_position(user_id) {
            None => {
                proof {
                    lemma_find_user_absent(self.users@, user_id);
                }
                Err(ContextError::UnknownUser)
            },
            Some(ui) => {
                proof {
                    assert(self.users@[ui as int].0 == user_id);
                    lemma_find_user_at(self.users@, user_id, ui as int);
                    assert(old(self).registered(user_id));
                }
                match self.group_position(&group) {
                    Some(gi) => {
                        let ghost odm = self.distribution_map@;
                        let ghost members = self.distribution_map@[gi as int].1@;
                        let present = Self::contains_id(&self.distribution_map[gi].1, user_id);
                        if !present {
                            let entry = vec_index_mut(&mut self.distribution_map, gi);
                            entry.1.push(user_id);
                        }
                        proof {
                            let dm = self.distribution_map@;
                            assert(forall|t: int|
                                0 <= t < dm.len() && t != gi ==> #[trigger] dm[t] == odm[t]);
                            assert(dm[gi as int].0 == odm[gi as int].0);
                            if !present {
                                assert(dm[gi as int].1@ =~= members.push(user_id));
                                assert(dm[gi as int].1@[members.len() as int] == user_id);
                            }
                            assert(dm[gi as int].1@.contains(user_id)) by {
                                if present {
                                    let q = choose|q: int|
                                        0 <= q < members.len() && members[q] == user_id;
                                    assert(dm[gi as int].1@[q] == user_id);
                                } else {
                                    assert(dm[gi as int].1@[members.len() as int] == user_id);
                                }
                            }
                            assert forall|t: int| 0 <= t < gi implies (#[trigger] dm[t]).0@
                                != group@ by {
                                assert(dm[t] == odm[t]);
                            }
                            lemma_find_group_at(dm, group@, gi as int);
                            assert((*self).in_group(group@, user_id));
                            assert forall|g: Seq<char>, id: u64|
                                !(g == group@ && id == user_id) implies (*self).in_group(g, id)
                                == old(self).in_group(g, id) by {
                                if g == group@ {
                                    assert forall|t: int| 0 <= t < gi implies (
                                    #[trigger] odm[t]).0@ != group@ by {}
                                    lemma_find_group_at(odm, group@, gi as int);
                                    assert(dm[gi as int].1@.contains(id) == members.contains(
                                        id,
                                    )) by {
                                        if !present {
                                            if members.contains(id) {
                                                let q = choose|q: int|
                                                    0 <= q < members.len() && members[q] == id;
                                                assert(dm[gi as int].1@[q] == id);
                                            }
                                            if dm[gi as int].1@.contains(id) {
                                                let q = choose|q: int|
                                                    0 <= q < dm[gi as int].1@.len()
                                                        && dm[gi as int].1@[q] == id;
                                                assert(q < members.len());
                                                assert(members[q] == id);
                                            }
                                        }
                                    }
                                } else {
                                    match find_group(odm, g) {
                                        Some(mm) => {
                                            lemma_find_group_first_witness(odm, g);
                                            let w = choose|w: int|
                                                0 <= w < odm.len() && (#[trigger] odm[w]).0@ == g
                                                    && (forall|j2: int|
                                                    0 <= j2 < w ==> (#[trigger] odm[j2]).0@ != g)
                                                    && find_group(odm, g) == Some(odm[w].1);
                                            assert(w != gi);
                                            assert(dm[w] == odm[w]);
                                            assert forall|j2: int| 0 <= j2 < w implies (
                                            #[trigger] dm[j2]).0@ != g by {
                                                if j2 != gi {
                                                    assert(dm[j2] == odm[j2]);
                                                } else {
                                                    assert(dm[j2].0 == odm[j2].0);
                                                }
                                            }
                                            lemma_find_group_at(dm, g, w);
                                        },
                                        None => {
                                            lemma_find_group_characterize(odm, g);
                                            assert forall|j2: int|
                                                0 <= j2 < dm.len() implies (#[trigger] dm[j2]).0@
                                                != g by {
                                                assert(dm[j2].0 == odm[j2].0);
                                            }
                                            lemma_find_group_absent(dm, g);
                                        },
                                    }
                                }
                            }
                            assert((*self).wf()) by {
                                assert forall|t: int, q1: int, q2: int|
                                    0 <= t < dm.len() && 0 <= q1 < q2 < dm[t].1@.len() implies
                                #[trigger] dm[t].1@[q1] != #[trigger] dm[t].1@[q2] by {
                                    if t == gi && !present {
                                        if q2 == dm[t].1@.len() - 1 {
                                            assert(dm[t].1@[q1] == members[q1]);
                                            if members[q1] == user_id {
                                                assert(members.contains(user_id));
                                            }
                                        } else {
                                            assert(dm[t].1@[q1] == members[q1]);
                                            assert(dm[t].1@[q2] == members[q2]);
                                        }
                                    } else {
                                        if t != gi {
                                            assert(dm[t].1@ == odm[t].1@);
                                        }
                                    }
                                }
                                assert forall|t: int, q: int|
                                    0 <= t < dm.len() && 0 <= q < dm[t].1@.len() implies (
                                *self).member_known(#[trigger] dm[t].1@[q]) by {
                                    if t == gi && !present && q == dm[t].1@.len() - 1 {
                                        assert(self.users@[ui as int].0 == user_id);
                                    } else {
                                        let v = dm[t].1@[q];
                                        if t == gi {
                                            assert(v == members[q]);
                                            assert(odm[t].1@[q] == v);
                                        } else {
                                            assert(dm[t] == odm[t]);
                                        }
                                        assert(old(self).member_known(v));
                                        let k = choose|k: int|
                                            0 <= k < old(self).users@.len() && (#[trigger] old(
                                                self,
                                            ).users@[k]).0 == v;
                                        assert(self.users@[k].0 == v);
                                    }
                                }
                                assert forall|t1: int, t2: int|
                                    0 <= t1 < t2 < dm.len() implies (#[trigger] dm[t1]).0@ != (
                                #[trigger] dm[t2]).0@ by {
                                    assert(dm[t1].0 == odm[t1].0 && dm[t2].0 == odm[t2].0);
                                }
                            }
                            assert(self.users@ == old(self).users@);
                            assert forall|id: u64| (*self).queue(id) == old(self).queue(id) by {}
                        }
                        Ok(())
                    },
                    None => {
                        let ghost odm = self.distribution_map@;
                        let mut members: Vec<u64> = Vec::new();
                        members.push(user_id);
                        self.distribution_map.push((group, members));
                        proof {
                            let dm = self.distribution_map@;
                            assert(dm.len() == odm.len() + 1);
                            assert(forall|t: int| 0 <= t < odm.len() ==> #[trigger] dm[t] == odm[t]);
                            let last = dm.len() - 1;
                            assert(dm[last].0@ == group@);
                            assert(dm[last].1@ =~= seq![user_id]);
                            assert forall|t: int| 0 <= t < last implies (#[trigger] dm[t]).0@
                                != group@ by {
                                assert(dm[t] == odm[t]);
                            }
                            lemma_find_group_at(dm, group@, last);
                            assert(dm[last].1@[0] == user_id);
                            assert((*self).in_group(group@, user_id));
                            assert forall|g: Seq<char>, id: u64|
                                !(g == group@ && id == user_id) implies (*self).in_group(g, id)
                                == old(self).in_group(g, id) by {
                                if g == group@ {
                                    lemma_find_group_absent(odm, g);
                                    assert(!old(self).in_group(g, id));
                                    assert(dm[last].1@.contains(id) == seq![user_id].contains(id));
                                    if dm[last].1@.contains(id) {
                                        let q = choose|q: int|
                                            0 <= q < dm[last].1@.len() && dm[last].1@[q] == id;
                                        assert(q == 0);
                                    }
                                } else {
                                    match find_group(odm, g) {
                                        Some(mm) => {
                                            lemma_find_group_first_witness(odm, g);
                                            let w = choose|w: int|
                                                0 <= w < odm.len() && (#[trigger] odm[w]).0@ == g
                                                    && (forall|j2: int|
                                                    0 <= j2 < w ==> (#[trigger] odm[j2]).0@ != g)
                                                    && find_group(odm, g) == Some(odm[w].1);
                                            assert(dm[w] == odm[w]);
                                            assert forall|j2: int| 0 <= j2 < w implies (
                                            #[trigger] dm[j2]).0@ != g by {
                                                assert(dm[j2] == odm[j2]);
                                            }
                                            lemma_find_group_at(dm, g, w);
                                        },
                                        None => {
                                            lemma_find_group_characterize(odm, g);
                                            assert forall|j2: int|
                                                0 <= j2 < dm.len() implies (#[trigger] dm[j2]).0@
                                                != g by {
                                                if j2 < last {
                                                    assert(dm[j2] == odm[j2]);
                                                }
                                            }
                                            lemma_find_group_absent(dm, g);
                                        },
                                    }
                                }
                            }
                            assert((*self).wf()) by {
                                lemma_find_group_absent(odm, group@);
                                lemma_find_group_characterize(odm, group@);
                                assert forall|t1: int, t2: int|
                                    0 <= t1 < t2 < dm.len() implies (#[trigger] dm[t1]).0@ != (
                                #[trigger] dm[t2]).0@ by {
                                    assert(dm[t1] == odm[t1]);
                                    if t2 < last {
                                        assert(dm[t2] == odm[t2]);
                                    }
                                }
                                assert forall|t: int, q1: int, q2: int|
                                    0 <= t < dm.len() && 0 <= q1 < q2 < dm[t].1@.len() implies
                                #[trigger] dm[t].1@[q1] != #[trigger] dm[t].1@[q2] by {
                                    if t < last {
                                        assert(dm[t] == odm[t]);
                                    }
                                }
                                assert forall|t: int, q: int|
                                    0 <= t < dm.len() && 0 <= q < dm[t].1@.len() implies (
                                *self).member_known(#[trigger] dm[t].1@[q]) by {
                                    if t == last {
                                        assert(dm[t].1@[q] == user_id);
                                        assert(self.users@[ui as int].0 == user_id);
                                    } else {
                                        assert(dm[t] == odm[t]);
                                        assert(old(self).member_known(dm[t].1@[q]));
                                        let k = choose|k: int|
                                            0 <= k < old(self).users@.len() && (#[trigger] old(
                                                self,
                                            ).users@[k]).0 == dm[t].1@[q];
                                        assert(self.users@[k].0 == dm[t].1@[q]);
                                    }
                                }
                            }
                            assert(self.users@ == old(self).users@);
                            assert forall|id: u64| (*self).queue(id) == old(self).queue(id) by {}
                        }
                        Ok(())
                    },
                }
            },
        }
    }

    /// Drops one subscription. A missing group or a connection that was
    /// not subscribed are both quiet successes.
    pub fn unsubscribe(&mut self, user_id: u64, group: &String) -> (r: Result<(), ContextError>)
        requires
            old(self).wf(),
        ensures
            final(self).wf(),
            r is Ok,
            final(self).next_id() == old(self).next_id(),
            forall|id: u64| final(self).queue(id) == old(self).queue(id),
            !final(self).in_group(group@, user_id),
            forall|g: Seq<char>, id: u64|
                !(g == group@ && id == user_id) ==> final(self).in_group(g, id) == old(
                    self,
                ).in_group(g, id),
    {
        match self.group_position(group) {
            None => {
                proof {
                    lemma_find_group_absent(self.distribution_map@, group@);
                }
                Ok(())
            },
            Some(gi) => {
                let ghost odm = self.distribution_map@;
                let ghost members = self.distribution_map@[gi as int].1@;
                let m: usize = self.distribution_map[gi].1.len();
                let mut kept: Vec<u64> = Vec::new();
                let mut j: usize = 0;
                while j < m
                    invariant
                        j <= m,
                        gi < self.distribution_map@.len(),
                        m == members.len(),
                        members == self.distribution_map@[gi as int].1@,
                        old(self).wf(),
                        self.distribution_map@ == odm,
                        forall|q: int| 0 <= q < kept@.len() ==> #[trigger] kept@[q] != user_id,
                        forall|q: int|
                            0 <= q < kept@.len() ==> exists|t: int|
                                0 <= t < j && members[t] == #[trigger] kept@[q],
                        forall|t: int|
                            0 <= t < j && #[trigger] members[t] != user_id ==> kept@.contains(
                                members[t],
                            ),
                        forall|q1: int, q2: int|
                            0 <= q1 < q2 < kept@.len() ==> #[trigger] kept@[q1]
                                != #[trigger] kept@[q2],
                    decreases m - j,
                {
                    let v = self.distribution_map[gi].1[j];
                    let ghost old_kept = kept@;
                    if v != user_id {
                        proof {
                            if kept@.contains(v) {
                                let q = choose|q: int| 0 <= q < kept@.len() && kept@[q] == v;
                                let t = choose|t: int| 0 <= t < j && members[t] == kept@[q];
                                assert(members[t] == members[j as int]);
                                assert(false);
                            }
                        }
                        kept.push(v);
                        proof {
                            assert(kept@ =~= old_kept.push(v));
                            assert(kept@[kept@.len() - 1] == v);
                            assert forall|t: int|
                                0 <= t < j + 1 && #[trigger] members[t] != user_id implies kept@.contains(
                                members[t],
                            ) by {
                                if t < j {
                                    let q = choose|q: int|
                                        0 <= q < old_kept.len() && old_kept[q] == members[t];
                                    assert(kept@[q] == members[t]);
                                } else {
                                    assert(kept@[kept@.len() - 1] == members[t]);
                                }
                            }
                        }
                    } else {
                        proof {
                            assert forall|t: int|
                                0 <= t < j + 1 && #[trigger] members[t] != user_id implies kept@.contains(
                                members[t],
                            ) by {
                                if t < j {
                                    let q = choose|q: int|
                                        0 <= q < old_kept.len() && old_kept[q] == members[t];
                                    assert(kept@[q] == members[t]);
                                }
                            }
                        }
                    }
                    j = j + 1;
                }
                let ghost kept_view = kept@;
                let entry = vec_index_mut(&mut self.distribution_map, gi);
                entry.1 = kept;
                proof {
                    let dm = self.distribution_map@;
                    assert(forall|t: int| 0 <= t < dm.len() && t != gi ==> #[trigger] dm[t] == odm[t]);
                    assert(dm[gi as int].0 == odm[gi as int].0);
                    assert(dm[gi as int].1@ == kept_view);
                    assert forall|t: int| 0 <= t < gi implies (#[trigger] dm[t]).0@ != group@ by {
                        assert(dm[t] == odm[t]);
                    }
                    lemma_find_group_at(dm, group@, gi as int);
                    assert(!(*self).in_group(group@, user_id)) by {
                        if kept_view.contains(user_id) {
                            let q = choose|q: int|
                                0 <= q < kept_view.len() && kept_view[q] == user_id;
                        }
                    }
                    assert forall|g: Seq<char>, id: u64|
                        !(g == group@ && id == user_id) implies (*self).in_group(g, id) == old(
                        self,
                    ).in_group(g, id) by {
                        if g == group@ {
                            assert forall|t: int| 0 <= t < gi implies (#[trigger] odm[t]).0@
                                != group@ by {}
                            lemma_find_group_at(odm, group@, gi as int);
                            assert(kept_view.contains(id) == members.contains(id)) by {
                                if members.contains(id) && id != user_id {
                                    let q = choose|q: int|
                                        0 <= q < members.len() && members[q] == id;
                                }
                                if kept_view.contains(id) {
                                    let q = choose|q: int|
                                        0 <= q < kept_view.len() && kept_view[q] == id;
                                    let t = choose|t: int|
                                        0 <= t < m && members[t] == kept_view[q];
                                }
                            }
                        } else {
                            match find_group(odm, g) {
                                Some(mm) => {
                                    lemma_find_group_first_witness(odm, g);
                                    let w = choose|w: int|
                                        0 <= w < odm.len() && (#[trigger] odm[w]).0@ == g && (
                                        forall|j2: int|
                                            0 <= j2 < w ==> (#[trigger] odm[j2]).0@ != g)
                                            && find_group(odm, g) == Some(odm[w].1);
                                    assert(w != gi);
                                    assert(dm[w] == odm[w]);
                                    assert forall|j2: int| 0 <= j2 < w implies (
                                    #[trigger] dm[j2]).0@ != g by {
                                        if j2 != gi {
                                            assert(dm[j2] == odm[j2]);
                                        } else {
                                            assert(dm[j2].0 == odm[j2].0);
                                        }
                                    }
                                    lemma_find_group_at(dm, g, w);
                                },
                                None => {
                                    lemma_find_group_characterize(odm, g);
                                    assert forall|j2: int| 0 <= j2 < dm.len() implies (
                                    #[trigger] dm[j2]).0@ != g by {
                                        assert(dm[j2].0 == odm[j2].0);
                                    }
                                    lemma_find_group_absent(dm, g);
                                },
                            }
                        }
                    }
                    assert((*self).wf()) by {
                        assert forall|t1: int, t2: int|
                            0 <= t1 < t2 < dm.len() implies (#[trigger] dm[t1]).0@ != (
                        #[trigger] dm[t2]).0@ by {
                            assert(dm[t1].0 == odm[t1].0 && dm[t2].0 == odm[t2].0);
                        }
                        assert forall|t: int, q1: int, q2: int|
                            0 <= t < dm.len() && 0 <= q1 < q2 < dm[t].1@.len() implies
                        #[trigger] dm[t].1@[q1] != #[trigger] dm[t].1@[q2] by {
                            if t != gi {
                                assert(dm[t].1@ == odm[t].1@);
                            }
                        }
                        assert forall|t: int, q: int|
                            0 <= t < dm.len() && 0 <= q < dm[t].1@.len() implies (
                        *self).member_known(#[trigger] dm[t].1@[q]) by {
                            let v = dm[t].1@[q];
                            if t == gi {
                                let t2 = choose|t2: int| 0 <= t2 < m && members[t2] == kept_view[q];
                                assert(odm[t].1@[t2] == v);
                            } else {
                                assert(dm[t] == odm[t]);
                            }
                            assert(old(self).member_known(v));
                            let k = choose|k: int|
                                0 <= k < old(self).users@.len() && (#[trigger] old(
                                    self,
                                ).users@[k]).0 == v;
                            assert(self.users@[k].0 == v);
                        }
                    }
                }
                Ok(())
            },
        }
    }

    /// Enqueues `frame` exactly once on the queue of every subscriber of
    /// `group`, touching no other queue: the fan-out step.
    pub fn broadcast(&mut self, group: &String, frame: &StompFrame)
        requires
            old(self).wf(),
        ensures
            final(self).wf(),
            final(self).next_id() == old(self).next_id(),
            forall|g: Seq<char>, id: u64|
                final(self).in_group(g, id) == old(self).in_group(g, id),
            forall|id: u64|
                #[trigger] final(self).queue(id) == (match old(self).queue(id) {
                    Some(q) => Some(
                        if old(self).in_group(group@, id) {
                            q.push(frame@)
                        } else {
                            q
                        },
                    ),
                    None => None::<Seq<FrameView>>,
                }),
    {
        match self.group_position(group) {
            None => {
                proof {
                    lemma_find_group_absent(self.distribution_map@, group@);
                    assert forall|id: u64| !old(self).in_group(group@, id) by {}
                    assert forall|id: u64| (*self).queue(id) == old(self).queue(id) by {}
                }
            },
            Some(gi) => {
                let ghost odm = self.distribution_map@;
                let ghost members = odm[gi as int].1@;
                proof {
                    assert forall|t: int| 0 <= t < gi implies (#[trigger] odm[t]).0@ != group@ by {}
                    lemma_find_group_at(odm, group@, gi as int);
                    assert(members.take(0) =~= Seq::<u64>::empty());
                }
                let m: usize = self.distribution_map[gi].1.len();
                let mut j: usize = 0;
                while j < m
                    invariant
                        j <= m,
                        old(self).wf(),
                        self.users@.len() == old(self).users@.len(),
                        forall|k: int|
                            0 <= k < self.users@.len() ==> (#[trigger] self.users@[k]).0 == old(
                                self,
                            ).users@[k].0,
                        self.next_user_id == old(self).next_user_id,
                        self.distribution_map@ == old(self).distribution_map@,
                        gi < self.distribution_map@.len(),
                        m == members.len(),
                        members == self.distribution_map@[gi as int].1@,
                        forall|q1: int, q2: int|
                            0 <= q1 < q2 < members.len() ==> #[trigger] members[q1]
                                != #[trigger] members[q2],
                        forall|id: u64|
                            #[trigger] (*self).queue(id) == (match old(self).queue(id) {
                                Some(q) => Some(
                                    if members.take(j as int).contains(id) {
                                        q.push(frame@)
                                    } else {
                                        q
                                    },
                                ),
                                None => None::<Seq<FrameView>>,
                            }),
                    decreases m - j,
                {
                    let uid = self.distribution_map[gi].1[j];
                    let ghost prev = *self;
                    match self.user_position(uid) {
                        None => {
                            // Unreachable: every member of a group is a
                            // registered connection.
                            proof {
                                assert(old(self).member_known(members[j as int]));
                                let k = choose|k: int|
                                    0 <= k < old(self).users@.len() && (#[trigger] old(
                                        self,
                                    ).users@[k]).0 == uid;
                                assert(prev.users@[k].0 == uid);
                                assert(false);
                            }
                        },
                        Some(ui) => {
                            let pushed = frame.clone();
                            let entry = vec_index_mut(&mut self.users, ui);
                            entry.1.push(pushed);
                            proof {
                                let news = self.users@;
                                let olds = prev.users@;
                                assert(news[ui as int].0 == olds[ui as int].0);
                                assert(news[ui as int].1@ =~= olds[ui as int].1@.push(pushed));
                                assert(forall|k: int|
                                    0 <= k < news.len() && k != ui ==> #[trigger] news[k]
                                        == olds[k]);
                                assert(queue_view(news[ui as int].1) =~= queue_view(
                                    olds[ui as int].1,
                                ).push(frame@));
                                assert forall|id: u64|
                                    #[trigger] (*self).queue(id) == (match old(self).queue(id) {
                                        Some(q) => Some(
                                            if members.take(j as int + 1).contains(id) {
                                                q.push(frame@)
                                            } else {
                                                q
                                            },
                                        ),
                                        None => None::<Seq<FrameView>>,
                                    }) by {
                                    assert(prev.queue(id) == (match old(self).queue(id) {
                                        Some(q) => Some(
                                            if members.take(j as int).contains(id) {
                                                q.push(frame@)
                                            } else {
                                                q
                                            },
                                        ),
                                        None => None::<Seq<FrameView>>,
                                    }));
                                    if id == uid {
                                        assert(!members.take(j as int).contains(uid)) by {
                                            if members.take(j as int).contains(uid) {
                                                let t = choose|t: int|
                                                    0 <= t < j && #[trigger] members.take(
                                                        j as int,
                                                    )[t] == uid;
                                                assert(members[t] == members[j as int]);
                                            }
                                        }
                                        assert(members.take(j as int + 1)[j as int] == uid);
                                        assert(members.take(j as int + 1).contains(uid));
                                        assert forall|k: int| 0 <= k < ui implies (
                                        #[trigger] news[k]).0 != uid by {
                                            assert(news[k].0 == olds[k].0);
                                        }
                                        lemma_find_user_at(news, uid, ui as int);
                                        lemma_find_user_at(olds, uid, ui as int);
                                    } else {
                                        assert(members.take(j as int + 1).contains(id)
                                            == members.take(j as int).contains(id)) by {
                                            if members.take(j as int + 1).contains(id) {
                                                let t = choose|t: int|
                                                    0 <= t < j + 1 && #[trigger] members.take(
                                                        j as int + 1,
                                                    )[t] == id;
                                                assert(t != j);
                                                assert(members.take(j as int)[t] == id);
                                            }
                                            if members.take(j as int).contains(id) {
                                                let t = choose|t: int|
                                                    0 <= t < j && #[trigger] members.take(
                                                        j as int,
                                                    )[t] == id;
                                                assert(members.take(j as int + 1)[t] == id);
                                            }
                                        }
                                        match find_user(olds, id) {
                                            Some(q) => {
                                                lemma_find_user_first_witness(olds, id);
                                                let w = choose|w: int|
                                                    0 <= w < olds.len() && (#[trigger] olds[w]).0
                                                        == id && (forall|j2: int|
                                                        0 <= j2 < w ==> (#[trigger] olds[j2]).0
                                                            != id) && find_user(olds, id) == Some(
                                                        olds[w].1,
                                                    );
                                                assert(w != ui);
                                                assert(news[w] == olds[w]);
                                                assert forall|j2: int| 0 <= j2 < w implies (
                                                #[trigger] news[j2]).0 != id by {
                                                    assert(news[j2].0 == olds[j2].0);
                                                }
                                                lemma_find_user_at(news, id, w);
                                            },
                                            None => {
                                                lemma_find_user_characterize(olds, id);
                                                assert forall|j2: int|
                                                    0 <= j2 < news.len() implies (
                                                #[trigger] news[j2]).0 != id by {
                                                    assert(news[j2].0 == olds[j2].0);
                                                }
                                                lemma_find_user_absent(news, id);
                                            },
                                        }
                                    }
                                }
                            }
                        },
                    }
                    j = j + 1;
                }
                proof {
                    assert(members.take(m as int) =~= members);
                    assert forall|id: u64|
                        old(self).in_group(group@, id) == members.contains(id) by {}
                    assert((*self).wf()) by {
                        let news = self.users@;
                        assert forall|i2: int, j2: int|
                            0 <= i2 < j2 < news.len() implies (#[trigger] news[i2]).0 != (
                        #[trigger] news[j2]).0 by {
                            assert(news[i2].0 == old(self).users@[i2].0);
                            assert(news[j2].0 == old(self).users@[j2].0);
                        }
                        assert forall|i2: int| 0 <= i2 < news.len() implies (
                        #[trigger] news[i2]).0 < self.next_user_id by {
                            assert(news[i2].0 == old(self).users@[i2].0);
                        }
                        let dm = self.distribution_map@;
                        assert forall|t: int, q: int|
                            0 <= t < dm.len() && 0 <= q < dm[t].1@.len() implies (
                        *self).member_known(#[trigger] dm[t].1@[q]) by {
                            assert(old(self).member_known(dm[t].1@[q]));
                            let k = choose|k: int|
                                0 <= k < old(self).users@.len() && (#[trigger] old(
                                    self,
                                ).users@[k]).0 == dm[t].1@[q];
                            assert(news[k].0 == dm[t].1@[q]);
                        }
                    }
                    assert forall|g: Seq<char>, id: u64|
                        (*self).in_group(g, id) == old(self).in_group(g, id) by {}
                }
            },
        }
    }

    /// Hands back everything queued for a connection, leaving its queue
    /// empty; an unknown connection yields nothing.
    pub fn take_outbound(&mut self, user_id: u64) -> (r: Vec<StompFrame>)
        requires
            old(self).wf(),
        ensures
            final(self).wf(),
            final(self).next_id() == old(self).next_id(),
            forall|g: Seq<char>, id: u64|
                final(self).in_group(g, id) == old(self).in_group(g, id),
            forall|id: u64| id != user_id ==> final(self).queue(id) == old(self).queue(id),
            match old(self).queue(user_id) {
                Some(q) => queue_view(r) == q && final(self).queue(user_id) == Some(
                    Seq::<FrameView>::empty(),
                ),
                None => r@.len() == 0 && final(self).queue(user_id) is None,
            },
    {
        match self.user_position(user_id) {
            None => {
                proof {
                    lemma_find_user_absent(self.users@, user_id);
                }
                Vec::new()
            },
            Some(ui) => {
                let ghost prev = *self;
                let mut taken: Vec<StompFrame> = Vec::new();
                let entry = vec_index_mut(&mut self.users, ui);
                core::mem::swap(&mut taken, &mut entry.1);
                proof {
                    let news = self.users@;
                    let olds = prev.users@;
                    assert(taken@ == olds[ui as int].1@);
                    assert(news[ui as int].0 == olds[ui as int].0);
                    assert(news[ui as int].1@ =~= Seq::<StompFrame>::empty());
                    assert(forall|k: int|
                        0 <= k < news.len() && k != ui ==> #[trigger] news[k] == olds[k]);
                    assert(queue_view(taken) =~= queue_view(olds[ui as int].1));
                    assert(queue_view(news[ui as int].1) =~= Seq::<FrameView>::empty());
                    lemma_find_user_at(olds, user_id, ui as int);
                    assert forall|k: int| 0 <= k < ui implies (#[trigger] news[k]).0
                        != user_id by {
                        assert(news[k].0 == olds[k].0);
                    }
                    lemma_find_user_at(news, user_id, ui as int);
                    assert forall|id: u64|
                        id != user_id implies (*self).queue(id) == old(self).queue(id) by {
                        match find_user(olds, id) {
                            Some(q) => {
                                lemma_find_user_first_witness(olds, id);
                                let w = choose|w: int|
                                    0 <= w < olds.len() && (#[trigger] olds[w]).0 == id && (forall|
                                        j2: int,
                                    |
                                        0 <= j2 < w ==> (#[trigger] olds[j2]).0 != id)
                                        && find_user(olds, id) == Some(olds[w].1);
                                assert(w != ui);
                                assert(news[w] == olds[w]);
                                assert forall|j2: int| 0 <= j2 < w implies (#[trigger] news[j2]).0
                                    != id by {
                                    assert(news[j2].0 == olds[j2].0);
                                }
                                lemma_find_user_at(news, id, w);
                            },
                            None => {
                                lemma_find_user_characterize(olds, id);
                                assert forall|j2: int| 0 <= j2 < news.len() implies (
                                #[trigger] news[j2]).0 != id by {
                                    assert(news[j2].0 == olds[j2].0);
                                }
                                lemma_find_user_absent(news, id);
                            },
                        }
                    }
                    assert forall|g: Seq<char>, id: u64|
                        (*self).in_group(g, id) == old(self).in_group(g, id) by {}
                    assert((*self).wf()) by {
                        assert forall|i2: int, j2: int|
                            0 <= i2 < j2 < news.len() implies (#[trigger] news[i2]).0 != (
                        #[trigger] news[j2]).0 by {
                            assert(news[i2].0 == olds[i2].0);
                            assert(news[j2].0 == olds[j2].0);
                        }
                        assert forall|i2: int| 0 <= i2 < news.len() implies (
                        #[trigger] news[i2]).0 < self.next_user_id by {
                            assert(news[i2].0 == olds[i2].0);
                        }
                        let dm = self.distribution_map@;
                        assert forall|t: int, q: int|
                            0 <= t < dm.len() && 0 <= q < dm[t].1@.len() implies (
                        *self).member_known(#[trigger] dm[t].1@[q]) by {
                            assert(old(self).member_known(dm[t].1@[q]));
                            let k = choose|k: int|
                                0 <= k < olds.len() && (#[trigger] olds[k]).0 == dm[t].1@[q];
                            assert(news[k].0 == dm[t].1@[q]);
                        }
                    }
                }
                taken
            },
        }
    }

    /// Applies one decoded client frame. SUBSCRIBE and UNSUBSCRIBE act on
    /// the distribution map; DISCONNECT changes nothing here (the caller
    /// tears the connection down); a SEND is handed back for the caller
    /// to resolve and produce. UNSUBSCRIBE carries only its subscription
    /// id header, and that value is used as the group key.
    pub fn handle_client_frame(&mut self, user_id: u64, frame: StompClientFrame) -> (r: Result<
        DispatchOutcome,
        ContextError,
    >)
        requires
            old(self).wf(),
        ensures
            final(self).wf(),
            final(self).next_id() == old(self).next_id(),
            forall|id: u64| final(self).queue(id) == old(self).queue(id),
            match frame@ {
                ClientFrameView::SUBSCRIBE { destination, id } => match r {
                    Ok(o) => {
                        &&& o is Done
                        &&& old(self).registered(user_id)
                        &&& final(self).in_group(destination, user_id)
                        &&& forall|g: Seq<char>, id2: u64|
                            !(g == destination && id2 == user_id) ==> final(self).in_group(g, id2)
                                == old(self).in_group(g, id2)
                    },
                    Err(e) => {
                        &&& e == ContextError::UnknownUser
                        &&& !old(self).registered(user_id)
                        &&& forall|g: Seq<char>, id2: u64|
                            final(self).in_group(g, id2) == old(self).in_group(g, id2)
                    },
                },
                ClientFrameView::UNSUBSCRIBE(sub) => {
                    &&& r matches Ok(o) && o is Done
                    &&& !final(self).in_group(sub, user_id)
                    &&& forall|g: Seq<char>, id2: u64|
                        !(g == sub && id2 == user_id) ==> final(self).in_group(g, id2) == old(
                            self,
                        ).in_group(g, id2)
                },
                ClientFrameView::SEND(f) => {
                    &&& r matches Ok(o) && o matches DispatchOutcome::Produce(p) && p@ == f
                    &&& forall|g: Seq<char>, id2: u64|
                        final(self).in_group(g, id2) == old(self).in_group(g, id2)
                },
                ClientFrameView::DISCONNECT => {
                    &&& r matches Ok(o) && o is Done
                    &&& forall|g: Seq<char>, id2: u64|
                        final(self).in_group(g, id2) == old(self).in_group(g, id2)
                },
            },
    {
        match frame {
            StompClientFrame::SEND(f) => Ok(DispatchOutcome::Produce(f)),
            StompClientFrame::SUBSCRIBE { destination, id } => {
                match self.subscribe(user_id, destination) {
                    Ok(u) => Ok(DispatchOutcome::Done),
                    Err(e) => Err(e),
                }
            },
            StompClientFrame::UNSUBSCRIBE(sub) => {
                match self.unsubscribe(user_id, &sub) {
                    Ok(u) => Ok(DispatchOutcome::Done),
                    Err(e) => Err(e),
                }
            },
            StompClientFrame::DISCONNECT => Ok(DispatchOutcome::Done),
        }
    }

    /// Decodes one bus record and fans its MESSAGE frame out to every
    /// subscriber of the record's group; a record that does not decode
    /// changes nothing and reports why.
    pub fn deliver_comment(&mut self, payload: &[u8]) -> (r: Result<(), DecodeError>)
        requires
            old(self).wf(),
        ensures
            final(self).wf(),
            final(self).next_id() == old(self).next_id(),
            forall|g: Seq<char>, id: u64|
                final(self).in_group(g, id) == old(self).in_group(g, id),
            match r {
                Ok(u) => spec_decode_comment(payload@) matches Ok(c) && forall|id: u64|
                    #[trigger] final(self).queue(id) == (match old(self).queue(id) {
                        Some(q) => Some(
                            if old(self).in_group(c.group_id, id) {
                                q.push(spec_message_frame(c))
                            } else {
                                q
                            },
                        ),
                        None => None::<Seq<FrameView>>,
                    }),
                Err(e) => spec_decode_comment(payload@) == Err::<
                    crate::comment::CommentView,
                    DecodeError,
                >(e) && forall|id: u64| final(self).queue(id) == old(self).queue(id),
            },
    {
        match Comment::decode(payload) {
            Err(e) => Err(e),
            Ok(comment) => {
                proof {
                    assert(comment@.wf());
                }
                let frame = StompFrame::new(&comment);
                self.broadcast(&comment.group_id, &frame);
                Ok(())
            },
        }
    }

    /// Tears a connection down: its queue leaves the table and its id
    /// leaves every group's member set.
    pub fn remove_user(&mut self, user_id: u64)
        requires
            old(self).wf(),
        ensures
            final(self).wf(),
            !final(self).registered(user_id),
            final(self).next_id() == old(self).next_id(),
            forall|id: u64| id != user_id ==> final(self).queue(id) == old(self).queue(id),
            forall|g: Seq<char>| !final(self).in_group(g, user_id),
            forall|g: Seq<char>, id: u64|
                id != user_id ==> final(self).in_group(g, id) == old(self).in_group(g, id),
    {
        self.remove_user_from_distribution_map(user_id);
        let ghost mid = *self;
        proof {
            assert(mid.users@ == old(self).users@);
            assert forall|id: u64| mid.queue(id) == old(self).queue(id) by {}
        }
        match self.user_position(user_id) {
            None => {
                proof {
                    lemma_find_user_absent(self.users@, user_id);
                    assert forall|id: u64|
                        id != user_id implies (*self).queue(id) == mid.queue(id) by {}
                }
            },
            Some(i) => {
                self.users.remove(i);
                proof {
                    let olds = mid.users@;
                    let news = self.users@;
                    assert(news =~= olds.remove(i as int));
                    assert forall|j: int| 0 <= j < news.len() implies (#[trigger] news[j]).0
                        != user_id by {
                        if j < i {
                            assert(news[j] == olds[j]);
                        } else {
                            assert(news[j] == olds[j + 1]);
                        }
                    }
                    lemma_find_user_absent(news, user_id);
                    assert forall|id: u64|
                        id != user_id implies (*self).queue(id) == mid.queue(id) by {
                        match find_user(olds, id) {
                            Some(q) => {
                                lemma_find_user_first_witness(olds, id);
                                let w = choose|w: int|
                                    0 <= w < olds.len() && (#[trigger] olds[w]).0 == id && (forall|
                                        j: int,
                                    |
                                        0 <= j < w ==> (#[trigger] olds[j]).0 != id) && find_user(
                                        olds,
                                        id,
                                    ) == Some(olds[w].1);
                                let w2: int = if w < i { w } else { w - 1 };
                                assert(news[w2] == olds[w]);
                                assert forall|j: int| 0 <= j < w2 implies (#[trigger] news[j]).0
                                    != id by {
                                    if j < i {
                                        assert(news[j] == olds[j]);
                                    } else {
                                        assert(news[j] == olds[j + 1]);
                                    }
                                }
                                lemma_find_user_at(news, id, w2);
                            },
                            None => {
                                lemma_find_user_characterize(olds, id);
                                assert forall|j: int| 0 <= j < news.len() implies (
                                #[trigger] news[j]).0 != id by {
                                    if j < i {
                                        assert(news[j] == olds[j]);
                                    } else {
                                        assert(news[j] == olds[j + 1]);
                                    }
                                }
                                lemma_find_user_absent(news, id);
                            },
                        }
                    }
                    assert((*self).wf()) by {
                        assert forall|i2: int, j2: int|
                            0 <= i2 < j2 < news.len() implies (#[trigger] news[i2]).0 != (
                        #[trigger] news[j2]).0 by {
                            let a: int = if i2 < i {
                                i2
                            } else {
                                i2 + 1
                            };
                            let b: int = if j2 < i {
                                j2
                            } else {
                                j2 + 1
                            };
                            assert(news[i2] == olds[a] && news[j2] == olds[b]);
                        }
                        assert forall|i2: int| 0 <= i2 < news.len() implies (
                        #[trigger] news[i2]).0 < self.next_user_id by {
                            let a: int = if i2 < i {
                                i2
                            } else {
                                i2 + 1
                            };
                            assert(news[i2] == olds[a]);
                        }
                        let dm = self.distribution_map@;
                        assert forall|t: int, j: int|
                            0 <= t < dm.len() && 0 <= j < dm[t].1@.len() implies (
                        *self).member_known(#[trigger] dm[t].1@[j]) by {
                            let member = dm[t].1@[j];
                            assert(mid.in_group(dm[t].0@, member)) by {
                                assert forall|j3: int| 0 <= j3 < t implies (#[trigger] dm[j3]).0@
                                    != dm[t].0@ by {}
                                lemma_find_group_at(dm, dm[t].0@, t);
                            }
                            assert(member != user_id);
                            assert(mid.member_known(member));
                            let k = choose|k: int|
                                0 <= k < olds.len() && (#[trigger] olds[k]).0 == member;
                            let k2: int = if k < i {
                                k
                            } else {
                                k - 1
                            };
                            assert(k != i);
                            assert(news[k2] == olds[k]);
                            assert(0 <= k2 < news.len() && news[k2].0 == member);
                        }
                    }
                }
            },
        }
        proof {
            assert(self.distribution_map@ == mid.distribution_map@);
            assert forall|g: Seq<char>, id: u64| (*self).in_group(g, id) == mid.in_group(
                g,
                id,
            ) by {}
            assert forall|g: Seq<char>| !(*self).in_group(g, user_id) by {
                assert((*self).in_group(g, user_id) == mid.in_group(g, user_id));
            }
            assert forall|id: u64|
                id != user_id implies (*self).queue(id) == old(self).queue(id) by {
                assert((*self).queue(id) == mid.queue(id));
                assert(mid.queue(id) == old(self).queue(id));
            }
        }
    }
}

proof fn lemma_find_group_first_witness(groups: Seq<(String, Vec<u64>)>, g: Seq<char>)
    requires
        find_group(groups, g) is Some,
    ensures
        exists|i: int|
            0 <= i < groups.len() && (#[trigger] groups[i]).0@ == g && (forall|j: int|
                0 <= j < i ==> (#[trigger] groups[j]).0@ != g) && find_group(groups, g) == Some(
                groups[i].1,
            ),
    decreases groups.len(),
{
    if groups[0].0@ == g {
        assert(0 <= 0 < groups.len() && groups[0].0@ == g && (forall|j: int|
            0 <= j < 0 ==> (#[trigger] groups[j]).0@ != g) && find_group(groups, g) == Some(
            groups[0].1,
        ));
    } else {
        assert(forall|j: int| 0 <= j < groups.skip(1).len() ==> groups.skip(1)[j] == groups[j + 1]);
        lemma_find_group_first_witness(groups.skip(1), g);
        let i = choose|i: int|
            0 <= i < groups.skip(1).len() && (#[trigger] groups.skip(1)[i]).0@ == g && (forall|
                j: int,
            |
                0 <= j < i ==> (#[trigger] groups.skip(1)[j]).0@ != g) && find_group(
                groups.skip(1),
                g,
            ) == Some(groups.skip(1)[i].1);
        assert(groups[i + 1].0@ == g);
        assert forall|j: int| 0 <= j < i + 1 implies (#[trigger] groups[j]).0@ != g by {
            if j > 0 {
                assert(groups.skip(1)[j - 1] == groups[j]);
            }
        }
        assert(find_group(groups, g) == Some(groups[i + 1].1));
    }
}

proof fn lemma_find_group_characterize(groups: Seq<(String, Vec<u64>)>, g: Seq<char>)
    requires
        find_group(groups, g) is None,
    ensures
        forall|j: int| 0 <= j < groups.len() ==> (#[trigger] groups[j]).0@ != g,
    decreases groups.len(),
{
    if groups.len() > 0 {
        assert(forall|j: int| 0 <= j < groups.skip(1).len() ==> groups.skip(1)[j] == groups[j + 1]);
        lemma_find_group_characterize(groups.skip(1), g);
        assert forall|j: int| 0 <= j < groups.len() implies (#[trigger] groups[j]).0@ != g by {
            if j > 0 {
                assert(groups.skip(1)[j - 1] == groups[j]);
            }
        }
    }
}

/// When the lookup finds a queue, some position carries it, with no
/// earlier position under the same id.
proof fn lemma_find_user_first_witness(users: Seq<(u64, Vec<StompFrame>)>, id: u64)
    requires
        find_user(users, id) is Some,
    ensures
        exists|i: int|
            0 <= i < users.len() && (#[trigger] users[i]).0 == id && (forall|j: int|
                0 <= j < i ==> (#[trigger] users[j]).0 != id) && find_user(users, id) == Some(
                users[i].1,
            ),
    decreases users.len(),
{
    if users[0].0 == id {
        assert(0 <= 0 < users.len() && users[0].0 == id && (forall|j: int|
            0 <= j < 0 ==> (#[trigger] users[j]).0 != id) && find_user(users, id) == Some(
            users[0].1,
        ));
    } else {
        assert(forall|j: int| 0 <= j < users.skip(1).len() ==> users.skip(1)[j] == users[j + 1]);
        lemma_find_user_first_witness(users.skip(1), id);
        let i = choose|i: int|
            0 <= i < users.skip(1).len() && (#[trigger] users.skip(1)[i]).0 == id && (forall|
                j: int,
            |
                0 <= j < i ==> (#[trigger] users.skip(1)[j]).0 != id) && find_user(
                users.skip(1),
                id,
            ) == Some(users.skip(1)[i].1);
        assert(users[i + 1].0 == id);
        assert forall|j: int| 0 <= j < i + 1 implies (#[trigger] users[j]).0 != id by {
            if j > 0 {
                assert(users.skip(1)[j - 1] == users[j]);
            }
        }
        assert(find_user(users, id) == Some(users[i + 1].1));
    }
}

/// A lookup that fails means no position carries the id.
proof fn lemma_find_user_characterize(users: Seq<(u64, Vec<StompFrame>)>, id: u64)
    requires
        find_user(users, id) is None,
    ensures
        forall|j: int| 0 <= j < users.len() ==> (#[trigger] users[j]).0 != id,
    decreases users.len(),
{
    if users.len() > 0 {
        assert(forall|j: int| 0 <= j < users.skip(1).len() ==> users.skip(1)[j] == users[j + 1]);
        lemma_find_user_characterize(users.skip(1), id);
        assert forall|j: int| 0 <= j < users.len() implies (#[trigger] users[j]).0 != id by {
            if j > 0 {
                assert(users.skip(1)[j - 1] == users[j]);
            }
        }
    }
}

} // verus!
