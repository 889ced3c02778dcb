//! Vote requests: polls on proposed courses.
//!
//! A request starts with both counters at zero, collects upvotes and
//! downvotes, and leaves the store when it is declined. The counters stop at
//! `u32::MAX` and never wrap.

use crate::clock::host_time;
use crate::retain::{
    lemma_filter_all, lemma_filter_twice, lemma_sweep_end, lemma_sweep_start, lemma_sweep_step,
    swept,
};
use vstd::prelude::*;

verus! {

/// A poll on a proposed course.
///
/// The course id is not checked against any course store. A vote request is
/// plain data and is its own mathematical value.
#[derive(Debug, PartialEq, Eq)]
pub struct VoteRequest {
    /// The key by which votes and a decline find the request: the host's
    /// time at its creation, or the id under which it was created.
    pub id: u64,
    /// The course that the poll is about.
    pub course_id: u64,
    /// Votes in favour, at most `u32::MAX`.
    pub upvotes: u32,
    /// Votes against, at most `u32::MAX`.
    pub downvotes: u32,
}

impl Clone for VoteRequest {
    fn clone(&self) -> (copy: Self)
        ensures
            copy == *self,
    {
        VoteRequest {
            id: self.id,
            course_id: self.course_id,
            upvotes: self.upvotes,
            downvotes: self.downvotes,
        }
    }
}

/// The request that a creation appends: no votes yet.
pub open spec fn new_request(id: u64, course_id: u64) -> VoteRequest {
    VoteRequest { id, course_id, upvotes: 0, downvotes: 0 }
}

/// Whether some request in `requests` has the id `vote_id`.
pub open spec fn has_id(requests: Seq<VoteRequest>, vote_id: u64) -> bool {
    exists|i: int| 0 <= i < requests.len() && (#[trigger] requests[i]).id == vote_id
}

/// Whether `i` is the position of the oldest request with the id `vote_id`.
pub open spec fn is_first_with_id(requests: Seq<VoteRequest>, vote_id: u64, i: int) -> bool {
    &&& 0 <= i < requests.len()
    &&& requests[i].id == vote_id
    &&& forall|j: int| 0 <= j < i ==> (#[trigger] requests[j]).id != vote_id
}

/// The position of the oldest request with the id `vote_id`, where
/// [`has_id`] holds.
pub open spec fn first_with_id(requests: Seq<VoteRequest>, vote_id: u64) -> int {
    choose|i: int| is_first_with_id(requests, vote_id, i)
}

/// One more than `n`, but never beyond `u32::MAX`.
pub open spec fn saturating_inc(n: u32) -> u32 {
    if n == u32::MAX {
        n
    } else {
        (n + 1) as u32
    }
}

/// `v` with one more upvote.
pub open spec fn upvoted(v: VoteRequest) -> VoteRequest {
    VoteRequest {
        id: v.id,
        course_id: v.course_id,
        upvotes: saturating_inc(v.upvotes),
        downvotes: v.downvotes,
    }
}

/// `v` with one more downvote.
pub open spec fn downvoted(v: VoteRequest) -> VoteRequest {
    VoteRequest {
        id: v.id,
        course_id: v.course_id,
        upvotes: v.upvotes,
        downvotes: saturating_inc(v.downvotes),
    }
}

/// `requests` after an upvote for `vote_id`: the oldest request with that id
/// has one more upvote; without such a request nothing changes.
pub open spec fn after_vote_up(requests: Seq<VoteRequest>, vote_id: u64) -> Seq<VoteRequest> {
    if has_id(requests, vote_id) {
        let i = first_with_id(requests, vote_id);
        requests.update(i, upvoted(requests[i]))
    } else {
        requests
    }
}

/// `requests` after a downvote for `vote_id`: the oldest request with that id
/// has one more downvote; without such a request nothing changes.
pub open spec fn after_vote_down(requests: Seq<VoteRequest>, vote_id: u64) -> Seq<VoteRequest> {
    if has_id(requests, vote_id) {
        let i = first_with_id(requests, vote_id);
        requests.update(i, downvoted(requests[i]))
    } else {
        requests
    }
}

/// The requests that a decline of `vote_id` leaves in place.
pub open spec fn other_id(vote_id: u64) -> spec_fn(VoteRequest) -> bool {
    |v: VoteRequest| v.id != vote_id
}

/// `requests` after `vote_id` has been declined: every request with that id
/// is gone, the others keep their order.
pub open spec fn after_decline(requests: Seq<VoteRequest>, vote_id: u64) -> Seq<VoteRequest> {
    requests.filter(other_id(vote_id))
}

/// Whether no two requests in `requests` share an id.
pub open spec fn ids_differ(requests: Seq<VoteRequest>) -> bool {
    forall|i: int, j: int|
        0 <= i < j < requests.len() ==> (#[trigger] requests[i]).id != (#[trigger] requests[j]).id
}

/// One vote, in favour or against.
pub enum Vote {
    Up,
    Down,
}

/// `requests` after one vote for `vote_id`.
pub open spec fn after_vote(requests: Seq<VoteRequest>, vote_id: u64, vote: Vote) -> Seq<
    VoteRequest,
> {
    match vote {
        Vote::Up => after_vote_up(requests, vote_id),
        Vote::Down => after_vote_down(requests, vote_id),
    }
}

/// `requests` after the votes `votes` for `vote_id`, cast one after the other.
pub open spec fn after_votes(requests: Seq<VoteRequest>, vote_id: u64, votes: Seq<Vote>) -> Seq<
    VoteRequest,
>
    decreases votes.len(),
{
    if votes.len() == 0 {
        requests
    } else {
        after_vote(after_votes(requests, vote_id, votes.drop_last()), vote_id, votes.last())
    }
}

/// How many of `votes` are of the kind `kind`.
pub open spec fn count(votes: Seq<Vote>, kind: Vote) -> nat
    decreases votes.len(),
{
    if votes.len() == 0 {
        0
    } else {
        count(votes.drop_last(), kind) + if votes.last() == kind {
            1nat
        } else {
            0nat
        }
    }
}

/// The counter that has counted `n` votes: `n`, but at most `u32::MAX`.
pub open spec fn capped(n: nat) -> u32 {
    if n >= u32::MAX {
        u32::MAX
    } else {
        n as u32
    }
}

/// The oldest request with a given id is found at one position only, and it
/// is the one that [`first_with_id`] names.
pub proof fn lemma_first_with_id(requests: Seq<VoteRequest>, vote_id: u64, i: int)
    requires
        is_first_with_id(requests, vote_id, i),
    ensures
        has_id(requests, vote_id),
        first_with_id(requests, vote_id) == i,
{
    let k = first_with_id(requests, vote_id);
    assert(is_first_with_id(requests, vote_id, k));
    if k < i {
        assert(requests[k].id != vote_id);
    } else if i < k {
        assert(requests[i].id != vote_id);
    }
}

/// All vote requests that are open, oldest first.
pub struct VoteRequestStore {
    requests: Vec<VoteRequest>,
}

impl View for VoteRequestStore {
    type V = Seq<VoteRequest>;

    closed spec fn view(&self) -> Seq<VoteRequest> {
        self.requests@
    }
}

impl VoteRequestStore {
    /// A store without vote requests.
    pub fn new() -> (store: Self)
        ensures
            store@ == Seq::<VoteRequest>::empty(),
    {
        VoteRequestStore { requests: Vec::new() }
    }

    /// A store that holds the given vote requests, in their order: what a
    /// listing has returned can be put back as it was.
    pub fn restore(requests: Vec<VoteRequest>) -> (store: Self)
        ensures
            store@ == requests@,
    {
        VoteRequestStore { requests }
    }

    /// Opens a vote request for a course, with no votes, and returns a copy
    /// of it. The id of the request is the host's time at the call.
    pub fn create_vote_request(&mut self, course_id: u64) -> (created: VoteRequest)
        ensures
            created == new_request(created.id, course_id),
            final(self)@ == old(self)@.push(created),
    {
        let id = host_time();
        self.create_vote_request_with_id(id, course_id)
    }

    /// Opens a vote request for a course under the given id, with no votes,
    /// and returns a copy of it. The id is not compared with those in the
    /// store.
    pub fn create_vote_request_with_id(&mut self, id: u64, course_id: u64) -> (created: VoteRequest)
        ensures
            created == new_request(id, course_id),
            final(self)@ == old(self)@.push(created),
    {
        self.requests.push(VoteRequest { id, course_id, upvotes: 0, downvotes: 0 });
        VoteRequest { id, course_id, upvotes: 0, downvotes: 0 }
    }

    /// A copy of all vote requests, oldest first.
    pub fn get_vote_requests(&self) -> (all: Vec<VoteRequest>)
        ensures
            all@ == self@,
    {
        let all = self.requests.clone();
        assert(all@ =~= self.requests@);
        all
    }

    /// The position of the oldest request with the id `vote_id`, if there is
    /// one.
    fn position(&self, vote_id: u64) -> (found: Option<usize>)
        ensures
            match found {
                Some(i) => is_first_with_id(self@, vote_id, i as int),
                None => !has_id(self@, vote_id),
            },
    {
        let mut i: usize = 0;
        while i < self.requests.len()
            invariant
                i <= self.requests.len(),
                forall|j: int| 0 <= j < i ==> (#[trigger] self.requests@[j]).id != vote_id,
            decreases self.requests.len() - i,
        {
            if self.requests[i].id == vote_id {
                return Some(i);
            }
            i += 1;
        }
        None
    }

    /// Adds an upvote to the oldest request with the id `vote_id`. The counter
    /// stops at `u32::MAX`. Without such a request nothing happens.
    pub fn vote_up(&mut self, vote_id: u64)
        ensures
            final(self)@ == after_vote_up(old(self)@, vote_id),
            !has_id(old(self)@, vote_id) ==> final(self)@ == old(self)@,
            forall|i: int| #[trigger]
                is_first_with_id(old(self)@, vote_id, i) ==> final(self)@ == old(self)@.update(
                    i,
                    upvoted(old(self)@[i]),
                ),
    {
        if let Some(i) = self.position(vote_id) {
            proof {
                lemma_first_with_id(self@, vote_id, i as int);
            }
            let count = self.requests[i].upvotes;
            self.requests[i].upvotes = count.saturating_add(1);
        }
        proof {
            assert forall|i: int| #[trigger]
                is_first_with_id(old(self)@, vote_id, i) implies self@ == old(self)@.update(
                i,
                upvoted(old(self)@[i]),
            ) by {
                lemma_first_with_id(old(self)@, vote_id, i);
            }
        }
    }

    /// Adds a downvote to the oldest request with the id `vote_id`. The
    /// counter stops at `u32::MAX`. Without such a request nothing happens.
    pub fn vote_down(&mut self, vote_id: u64)
        ensures
            final(self)@ == after_vote_down(old(self)@, vote_id),
            !has_id(old(self)@, vote_id) ==> final(self)@ == old(self)@,
            forall|i: int| #[trigger]
                is_first_with_id(old(self)@, vote_id, i) ==> final(self)@ == old(self)@.update(
                    i,
                    downvoted(old(self)@[i]),
                ),
    {
        if let Some(i) = self.position(vote_id) {
            proof {
                lemma_first_with_id(self@, vote_id, i as int);
            }
            let count = self.requests[i].downvotes;
            self.requests[i].downvotes = count.saturating_add(1);
        }
        proof {
            assert forall|i: int| #[trigger]
                is_first_with_id(old(self)@, vote_id, i) implies self@ == old(self)@.update(
                i,
                downvoted(old(self)@[i]),
            ) by {
                lemma_first_with_id(old(self)@, vote_id, i);
            }
        }
    }

    /// Declines the vote request `vote_id`: every request with that id leaves
    /// the store, and nothing else does. Without such a request the store
    /// stays as it is.
    pub fn decline_vote_request(&mut self, vote_id: u64)
        ensures
            final(self)@ == after_decline(old(self)@, vote_id),
            !has_id(final(self)@, vote_id),
    {
        let ghost stay = other_id(vote_id);
        // `seen` counts the requests of the old store that were looked at.
        let ghost mut seen: int = 0;
        let mut i: usize = 0;
        proof {
            lemma_sweep_start(self@, stay);
        }
        while i < self.requests.len()
            invariant
                stay == other_id(vote_id),
                swept(old(self)@, self@, seen, i as int, stay),
            decreases self.requests.len() - i,
        {
            proof {
                lemma_sweep_step(old(self)@, self@, seen, i as int, stay);
                seen = seen + 1;
            }
            if self.requests[i].id == vote_id {
                self.requests.remove(i);
            } else {
                i += 1;
            }
        }
        proof {
            lemma_sweep_end(old(self)@, self@, seen, i as int, stay);
            lemma_decline_is_idempotent(old(self)@, vote_id);
        }
    }
}

/// Where some request has the id, one of them is the oldest.
pub proof fn lemma_oldest_exists(requests: Seq<VoteRequest>, vote_id: u64)
    requires
        has_id(requests, vote_id),
    ensures
        is_first_with_id(requests, vote_id, first_with_id(requests, vote_id)),
{
    let some = choose|i: int| 0 <= i < requests.len() && (#[trigger] requests[i]).id == vote_id;
    lemma_oldest_before(requests, vote_id, some);
}

/// A request with the id at `at` has an oldest one at or before it.
proof fn lemma_oldest_before(requests: Seq<VoteRequest>, vote_id: u64, at: int)
    requires
        0 <= at < requests.len(),
        requests[at].id == vote_id,
    ensures
        exists|i: int| is_first_with_id(requests, vote_id, i),
    decreases at,
{
    if exists|j: int| 0 <= j < at && (#[trigger] requests[j]).id == vote_id {
        let earlier = choose|j: int| 0 <= j < at && (#[trigger] requests[j]).id == vote_id;
        lemma_oldest_before(requests, vote_id, earlier);
    } else {
        assert(is_first_with_id(requests, vote_id, at));
    }
}

/// Votes are counted. On a request that was just created under an id that no
/// other request has, any votes, in any order, leave the number of upvotes
/// among them in the one counter and the number of downvotes in the other,
/// each stopping at `u32::MAX`; the request's id and course, and every other
/// request, stay as they were.
pub proof fn lemma_votes_are_counted(
    requests: Seq<VoteRequest>,
    id: u64,
    course_id: u64,
    votes: Seq<Vote>,
)
    requires
        !has_id(requests, id),
    ensures
        after_votes(requests.push(new_request(id, course_id)), id, votes) == requests.push(
            VoteRequest {
                id,
                course_id,
                upvotes: capped(count(votes, Vote::Up)),
                downvotes: capped(count(votes, Vote::Down)),
            },
        ),
    decreases votes.len(),
{
    let fresh = requests.push(new_request(id, course_id));
    if votes.len() > 0 {
        let earlier = votes.drop_last();
        lemma_votes_are_counted(requests, id, course_id, earlier);
        let before = after_votes(fresh, id, earlier);
        let last = requests.len() as int;
        assert(before[last].id == id);
        assert forall|j: int| 0 <= j < last implies (#[trigger] before[j]).id != id by {
            assert(requests[j].id != id);
        }
        lemma_first_with_id(before, id, last);
        let counted = VoteRequest {
            id,
            course_id,
            upvotes: capped(count(votes, Vote::Up)),
            downvotes: capped(count(votes, Vote::Down)),
        };
        match votes.last() {
            Vote::Up => {
                assert(upvoted(before[last]) == counted);
            },
            Vote::Down => {
                assert(downvoted(before[last]) == counted);
            },
        }
        assert(after_votes(fresh, id, votes) =~= requests.push(counted));
    }
}

/// A vote adds and removes no request and changes no id and no course, and
/// no counter ever goes down.
pub proof fn lemma_vote_only_raises_counters(requests: Seq<VoteRequest>, vote_id: u64, vote: Vote)
    ensures
        ({
            let voted = after_vote(requests, vote_id, vote);
            &&& voted.len() == requests.len()
            &&& forall|i: int|
                0 <= i < requests.len() ==> {
                    &&& (#[trigger] voted[i]).id == requests[i].id
                    &&& voted[i].course_id == requests[i].course_id
                    &&& voted[i].upvotes >= requests[i].upvotes
                    &&& voted[i].downvotes >= requests[i].downvotes
                }
            &&& ids_differ(requests) ==> ids_differ(voted)
        }),
{
    if has_id(requests, vote_id) {
        lemma_oldest_exists(requests, vote_id);
    }
    let voted = after_vote(requests, vote_id, vote);
    if ids_differ(requests) {
        assert forall|i: int, j: int| 0 <= i < j < voted.len() implies (#[trigger] voted[i]).id != (
        #[trigger] voted[j]).id by {
            assert(requests[i].id != requests[j].id);
        }
    }
}

/// A request created under an id that no other request has keeps the ids
/// apart.
pub proof fn lemma_create_keeps_ids_apart(requests: Seq<VoteRequest>, id: u64, course_id: u64)
    requires
        ids_differ(requests),
        !has_id(requests, id),
    ensures
        ids_differ(requests.push(new_request(id, course_id))),
{
    let more = requests.push(new_request(id, course_id));
    assert forall|i: int, j: int| 0 <= i < j < more.len() implies (#[trigger] more[i]).id != (
    #[trigger] more[j]).id by {
        if j < requests.len() {
            assert(requests[i].id != requests[j].id);
        } else {
            assert(requests[i].id != id);
        }
    }
}

/// Declining is idempotent: after a decline no request has the id, so a
/// second decline of the same id changes nothing, and neither does a vote
/// for it.
pub proof fn lemma_decline_is_idempotent(requests: Seq<VoteRequest>, vote_id: u64)
    ensures
        !has_id(after_decline(requests, vote_id), vote_id),
        after_decline(after_decline(requests, vote_id), vote_id) == after_decline(
            requests,
            vote_id,
        ),
        after_vote_up(after_decline(requests, vote_id), vote_id) == after_decline(
            requests,
            vote_id,
        ),
        after_vote_down(after_decline(requests, vote_id), vote_id) == after_decline(
            requests,
            vote_id,
        ),
{
    let left = after_decline(requests, vote_id);
    assert forall|i: int| 0 <= i < left.len() implies (#[trigger] left[i]).id != vote_id by {
        requests.lemma_filter_pred(other_id(vote_id), i);
    }
    lemma_filter_twice(requests, other_id(vote_id));
}

/// A decline touches no request with another id: where no request has the
/// id, the store stays as it is.
pub proof fn lemma_decline_of_unknown_id(requests: Seq<VoteRequest>, vote_id: u64)
    requires
        !has_id(requests, vote_id),
    ensures
        after_decline(requests, vote_id) == requests,
{
    assert forall|i: int| 0 <= i < requests.len() implies other_id(vote_id)(
        #[trigger] requests[i],
    ) by {}
    lemma_filter_all(requests, other_id(vote_id));
}

/// Where the ids differ, a decline removes the one request with the id and
/// leaves the ids apart.
pub proof fn lemma_decline_removes_one(requests: Seq<VoteRequest>, vote_id: u64, at: int)
    requires
        ids_differ(requests),
        0 <= at < requests.len(),
        requests[at].id == vote_id,
    ensures
        after_decline(requests, vote_id) == requests.remove(at),
        ids_differ(after_decline(requests, vote_id)),
{
    assert forall|j: int| 0 <= j < requests.len() && j != at implies (#[trigger] requests[j]).id
        != vote_id by {
        if j < at {
            assert(requests[j].id != requests[at].id);
        } else {
            assert(requests[at].id != requests[j].id);
        }
    }
    lemma_decline_of_single(requests, vote_id, at);
    let left = requests.remove(at);
    assert forall|i: int, j: int| 0 <= i < j < left.len() implies (#[trigger] left[i]).id != (
    #[trigger] left[j]).id by {
        let from_i = if i < at { i } else { i + 1 };
        let from_j = if j < at { j } else { j + 1 };
        assert(left[i] == requests[from_i]);
        assert(left[j] == requests[from_j]);
        assert(requests[from_i].id != requests[from_j].id);
    }
}

/// Where the request at `at` is the only one with the id, a decline removes
/// it and nothing else.
proof fn lemma_decline_of_single(requests: Seq<VoteRequest>, vote_id: u64, at: int)
    requires
        0 <= at < requests.len(),
        requests[at].id == vote_id,
        forall|j: int|
            0 <= j < requests.len() && j != at ==> (#[trigger] requests[j]).id != vote_id,
    ensures
        requests.filter(other_id(vote_id)) == requests.remove(at),
    decreases requests.len(),
{
    let stay = other_id(vote_id);
    let rest = requests.drop_last();
    let newest = requests.last();
    assert(rest.push(newest) =~= requests);
    rest.lemma_filter_push(newest, stay);
    if at == requests.len() - 1 {
        assert forall|i: int| 0 <= i < rest.len() implies stay(#[trigger] rest[i]) by {
            assert(rest[i] == requests[i]);
        }
        lemma_filter_all(rest, stay);
        assert(requests.remove(at) =~= rest);
    } else {
        assert(requests[requests.len() - 1].id != vote_id);
        assert forall|j: int| 0 <= j < rest.len() && j != at implies (#[trigger] rest[j]).id
            != vote_id by {
            assert(rest[j] == requests[j]);
        }
        lemma_decline_of_single(rest, vote_id, at);
        assert(rest.remove(at).push(newest) =~= requests.remove(at));
    }
}

} // verus!
