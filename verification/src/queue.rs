use vstd::prelude::*;
use std::collections::VecDeque;

verus! {

/// A route request: an id and the waypoints to route through.
#[derive(Clone, Debug, PartialEq, Eq)]
pub struct RouteRequest {
    pub id: String,
    pub waypoints: Vec<i64>,
}

/// The number of CPUs available to this process, by `num_cpus::get`, which
/// documents that it is always at least 1. Which number comes back depends
/// on the machine.
#[verifier::external_body]
fn cpu_count() -> (n: usize)
    ensures
        n >= 1,
{
    num_cpus::get()
}

/// A lowercase hexadecimal digit.
pub open spec fn is_lower_hex(c: char) -> bool {
    ('0' <= c && c <= '9') || ('a' <= c && c <= 'f')
}

/// A version-4 UUID in hyphenated form: 36 characters, hyphens at places 8,
/// 13, 18 and 23, lowercase hexadecimal digits elsewhere, the version digit
/// `4` at place 14 and a variant digit of `8`, `9`, `a` or `b` at place 19.
pub open spec fn is_uuid_v4_text(s: Seq<char>) -> bool {
    &&& s.len() == 36
    &&& forall|i: int| 0 <= i < 36 ==> if i == 8 || i == 13 || i == 18 || i == 23 {
        #[trigger] s[i] == '-'
    } else {
        is_lower_hex(s[i])
    }
    &&& s[14] == '4'
    &&& (s[19] == '8' || s[19] == '9' || s[19] == 'a' || s[19] == 'b')
}

/// A fresh random request id: `uuid::Uuid::new_v4` written out by its
/// `Display`, uuid's lowercase hyphenated form, with the version and variant
/// bits set as `new_v4` sets them. The other digits are random.
#[verifier::external_body]
fn random_request_id() -> (s: String)
    ensures
        is_uuid_v4_text(s@),
{
    uuid::Uuid::new_v4().to_string()
}

/// The concurrency to run with: the requested one, else one less than the
/// number of CPUs, but at least 1.
pub open spec fn concurrency_for(requested: Option<usize>, cpus: usize) -> usize {
    match requested {
        Some(c) => c,
        None => if cpus > 1 { (cpus - 1) as usize } else { 1 },
    }
}

/// A queue of route requests for one graph and profile, with the number of
/// requests being routed and how many may be routed at once.
pub struct RouteQueue {
    queue: VecDeque<RouteRequest>,
    active_count: usize,
    pub max_concurrency: usize,
    profile_id: String,
    pub graph_id: i32,
}

impl RouteQueue {
    /// The waiting requests, oldest first.
    pub closed spec fn waiting(&self) -> Seq<RouteRequest> {
        self.queue@
    }

    /// The number of requests being routed.
    pub closed spec fn active(&self) -> nat {
        self.active_count as nat
    }

    /// The profile that requests are routed with.
    pub closed spec fn profile(&self) -> Seq<char> {
        self.profile_id@
    }

    /// How many requests may be routed at once.
    pub closed spec fn concurrency(&self) -> usize {
        self.max_concurrency
    }

    /// The graph that requests are routed on.
    pub closed spec fn graph(&self) -> i32 {
        self.graph_id
    }

    /// An empty queue for graph `graph_id` and profile `profile_id`, running
    /// `max_concurrency` requests at once, or one less than the CPUs (at
    /// least 1) when none is given.
    pub fn new(graph_id: i32, profile_id: String, max_concurrency: Option<usize>) -> (q: RouteQueue)
        ensures
            q.waiting().len() == 0,
            q.active() == 0,
            q.graph() == graph_id,
            q.profile() == profile_id@,
            max_concurrency matches Some(c) ==> q.concurrency() == c,
            max_concurrency is None ==> exists|cpus: usize| cpus >= 1 && q.concurrency() == concurrency_for(None, cpus),
    {
        let actual = match max_concurrency {
            Some(c) => c,
            None => {
                let cpus = cpu_count();
                let a = if cpus > 1 {
                    cpus - 1
                } else {
                    1
                };
                assert(a == concurrency_for(None, cpus));
                a
            },
        };
        RouteQueue { queue: VecDeque::new(), active_count: 0, max_concurrency: actual, profile_id, graph_id }
    }

    /// Queues a request, giving it a fresh random id when it has none, and
    /// returns its id.
    pub fn enqueue(&mut self, request: RouteRequest) -> (id: String)
        ensures
            final(self).waiting().len() == old(self).waiting().len() + 1,
            final(self).waiting().drop_last() == old(self).waiting(),
            final(self).waiting().last().id@ == id@,
            final(self).waiting().last().waypoints@ == request.waypoints@,
            request.id@.len() > 0 ==> id@ == request.id@,
            request.id@.len() == 0 ==> is_uuid_v4_text(id@),
            final(self).active() == old(self).active(),
            final(self).concurrency() == old(self).concurrency(),
            final(self).profile() == old(self).profile(),
            final(self).graph() == old(self).graph(),
    {
        let id = if request.id.as_str().unicode_len() == 0 {
            random_request_id()
        } else {
            crate::errors::owned(request.id.as_str())
        };
        let queued = RouteRequest { id: crate::errors::owned(id.as_str()), waypoints: request.waypoints };
        self.queue.push_back(queued);
        proof {
            assert(self.queue@.drop_last() == old(self).queue@);
        }
        id
    }

    /// How many requests to start routing now: as many as wait, but no more
    /// than the concurrency.
    pub fn tasks_to_start(&self) -> (n: usize)
        ensures
            n as int == if self.concurrency() <= self.waiting().len() { self.concurrency() as int } else { self.waiting().len() as int },
    {
        let size = self.queue_size();
        if self.max_concurrency <= size {
            self.max_concurrency
        } else {
            size
        }
    }

    /// Takes the oldest waiting request to route it, counting it as active.
    pub fn take_next(&mut self) -> (r: Option<RouteRequest>)
        requires
            old(self).active() < usize::MAX,
        ensures
            old(self).waiting().len() == 0 ==> r is None && final(self).waiting() == old(self).waiting()
                && final(self).active() == old(self).active(),
            old(self).waiting().len() > 0 ==> r == Some(old(self).waiting()[0]) && final(self).waiting()
                == old(self).waiting().drop_first() && final(self).active() == old(self).active() + 1,
            final(self).concurrency() == old(self).concurrency(),
            final(self).profile() == old(self).profile(),
            final(self).graph() == old(self).graph(),
    {
        match self.queue.pop_front() {
            Some(r) => {
                self.active_count = self.active_count + 1;
                Some(r)
            },
            None => None,
        }
    }

    /// Records that a request has been routed; says whether more requests
    /// wait.
    pub fn complete(&mut self) -> (more: bool)
        requires
            old(self).active() > 0,
        ensures
            final(self).active() == old(self).active() - 1,
            final(self).waiting() == old(self).waiting(),
            more == (final(self).waiting().len() > 0),
            final(self).concurrency() == old(self).concurrency(),
            final(self).profile() == old(self).profile(),
            final(self).graph() == old(self).graph(),
    {
        self.active_count = self.active_count - 1;
        self.queue.len() > 0
    }

    /// The profile that requests are routed with.
    pub fn profile_id(&self) -> (p: &str)
        ensures
            p@ == self.profile(),
    {
        self.profile_id.as_str()
    }

    /// The number of waiting requests.
    pub fn queue_size(&self) -> (n: usize)
        ensures
            n == self.waiting().len(),
    {
        self.queue.len()
    }

    /// The number of requests being routed.
    pub fn active_count(&self) -> (n: usize)
        ensures
            n == self.active(),
    {
        self.active_count
    }

    /// No request waits and none is being routed.
    pub fn is_empty(&self) -> (b: bool)
        ensures
            b == (self.waiting().len() == 0 && self.active() == 0),
    {
        self.queue_size() == 0 && self.active_count() == 0
    }
}

/// First in, first out: taking from the front one request at a time, a
/// request queued behind others comes out after all of them, which come out
/// in the order they were queued.
pub proof fn lemma_fifo(before: Seq<RouteRequest>, r: RouteRequest)
    ensures
        forall|k: int| 0 <= k < before.len() ==> (#[trigger] before.push(r).skip(k))[0] == before[k],
        before.push(r).skip(before.len() as int)[0] == r,
{
    assert forall|k: int| 0 <= k < before.len() implies (#[trigger] before.push(r).skip(k))[0] == before[k] by {
        assert(before.push(r)[k] == before[k]);
    }
}

} // verus!
