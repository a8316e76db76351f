use vstd::prelude::*;

use crate::text::starts_with;

verus! {

/// Peers whose names start with one of these two prefixes get their static
/// files served first.
pub const PRIORITY_PREFIX_A: &'static str = "128.143";

/// The second of the two prefixes that mark a priority peer.
pub const PRIORITY_PREFIX_B: &'static str = "137.54.";

/// How many leading bytes of a peer's name are looked at to decide its priority.
pub const PRIORITY_PREFIX_LEN: usize = 7;

/// A request for a static file, waiting to be served.
pub struct HttpRequest {
    /// The peer's name, under which its connection is kept until it is served.
    pub peer_name: Vec<u8>,
    /// The absolute path of the file asked for.
    pub path: Vec<u8>,
    /// The size of that file in bytes, as found when the request was queued.
    pub size: u64,
}

/// What a queued request is, as plain values.
pub struct RequestSpec {
    pub peer_name: Seq<u8>,
    pub path: Seq<u8>,
    pub size: u64,
}

impl View for HttpRequest {
    type V = RequestSpec;

    open spec fn view(&self) -> RequestSpec {
        RequestSpec { peer_name: self.peer_name@, path: self.path@, size: self.size }
    }
}

/// Whether a peer of this name is served first: the first seven bytes of its
/// name are one of the two priority prefixes.
pub open spec fn is_priority(peer_name: Seq<u8>) -> bool {
    &&& peer_name.len() >= PRIORITY_PREFIX_LEN
    &&& {
        let head = peer_name.subrange(0, PRIORITY_PREFIX_LEN as int);
        head == vstd::utf8::encode_utf8(PRIORITY_PREFIX_A@) || head == vstd::utf8::encode_utf8(PRIORITY_PREFIX_B@)
    }
}

/// A peer is a priority peer exactly when its name holds at least seven
/// bytes and those first seven bytes are "128.143" or "137.54.".
pub proof fn law_priority_prefixes(peer_name: Seq<u8>)
    ensures
        is_priority(peer_name) <==> peer_name.len() >= 7 && (peer_name.subrange(0, 7) == seq![
            49u8,
            50u8,
            56u8,
            46u8,
            49u8,
            52u8,
            51u8,
        ] || peer_name.subrange(0, 7) == seq![49u8, 51u8, 55u8, 46u8, 53u8, 52u8, 46u8]),
{
    reveal_strlit("128.143");
    reveal_strlit("137.54.");
    vstd::string::is_ascii_spec_bytes(PRIORITY_PREFIX_A);
    vstd::string::is_ascii_spec_bytes(PRIORITY_PREFIX_B);
    assert(vstd::utf8::encode_utf8(PRIORITY_PREFIX_A@) =~= seq![
        49u8,
        50u8,
        56u8,
        46u8,
        49u8,
        52u8,
        51u8,
    ]);
    assert(vstd::utf8::encode_utf8(PRIORITY_PREFIX_B@) =~= seq![
        49u8,
        51u8,
        55u8,
        46u8,
        53u8,
        52u8,
        46u8,
    ]);
}

/// Decides whether a peer is a priority peer.  The name must hold at least
/// seven bytes.
pub fn is_priority_peer(peer_name: &[u8]) -> (r: bool)
    requires
        peer_name@.len() >= PRIORITY_PREFIX_LEN,
    ensures
        r == is_priority(peer_name@),
{
    let a = PRIORITY_PREFIX_A.as_bytes();
    let b = PRIORITY_PREFIX_B.as_bytes();
    proof {
        reveal_strlit("128.143");
        reveal_strlit("137.54.");
    }
    assert(a@.len() == 7) by {
        vstd::string::is_ascii_spec_bytes(PRIORITY_PREFIX_A);
    }
    assert(b@.len() == 7) by {
        vstd::string::is_ascii_spec_bytes(PRIORITY_PREFIX_B);
    }
    starts_with(peer_name, a) || starts_with(peer_name, b)
}

/// A queue of requests in which the first `count` requests are exactly the
/// priority ones.
pub open spec fn queue_wf(q: Seq<RequestSpec>, count: nat) -> bool {
    &&& count <= q.len()
    &&& forall|i: int| 0 <= i < q.len() ==> (#[trigger] is_priority(q[i].peer_name) <==> i < count)
}

/// The queue and priority count after a request is queued: every request,
/// priority or not, goes right behind the priority requests already waiting;
/// a priority request also adds one to the count.
pub open spec fn enqueue_spec(q: Seq<RequestSpec>, count: nat, r: RequestSpec) -> (Seq<RequestSpec>, nat) {
    (q.insert(count as int, r), if is_priority(r.peer_name) { count + 1 } else { count })
}

/// The request taken from the queue, the queue and the priority count after
/// the dequeuer takes one: the first request; the count drops by one unless it
/// is zero.  An empty queue stays as it is.
pub open spec fn dequeue_spec(q: Seq<RequestSpec>, count: nat) -> (Option<RequestSpec>, Seq<RequestSpec>, nat) {
    if q.len() == 0 {
        (None, q, count)
    } else {
        (Some(q[0]), q.drop_first(), if count > 0 { (count - 1) as nat } else { 0 })
    }
}

/// The waiting static-file requests, served from the front.
pub struct RequestQueue {
    requests: Vec<HttpRequest>,
    priority_count: usize,
}

impl RequestQueue {
    /// The waiting requests, front first.
    pub closed spec fn requests(&self) -> Seq<RequestSpec> {
        self.requests@.map_values(|r: HttpRequest| r@)
    }

    /// How many priority requests wait at the front.
    pub closed spec fn priority_count(&self) -> nat {
        self.priority_count as nat
    }

    /// The queue's invariant.
    pub open spec fn wf(&self) -> bool {
        queue_wf(self.requests(), self.priority_count())
    }

    /// An empty queue.
    pub fn new() -> (q: RequestQueue)
        ensures
            q.wf(),
            q.requests() == Seq::<RequestSpec>::empty(),
            q.priority_count() == 0,
    {
        let q = RequestQueue { requests: Vec::new(), priority_count: 0 };
        assert(q.requests() =~= Seq::<RequestSpec>::empty());
        q
    }

    /// The number of waiting requests.
    pub fn len(&self) -> (n: usize)
        ensures
            n == self.requests().len(),
    {
        self.requests.len()
    }

    /// Queues a request.  Requests of a priority peer go behind the priority
    /// requests already waiting; every other request goes right behind all
    /// priority requests, ahead of the other requests already waiting (the
    /// search for a place among them by file size stops before its first step).
    /// The peer's name must hold at least seven bytes.
    pub fn enqueue(&mut self, req: HttpRequest)
        requires
            old(self).wf(),
            req.peer_name@.len() >= PRIORITY_PREFIX_LEN,
        ensures
            final(self).wf(),
            (final(self).requests(), final(self).priority_count()) == enqueue_spec(
                old(self).requests(),
                old(self).priority_count(),
                req@,
            ),
    {
        let ghost r = req@;
        let prioritize = is_priority_peer(&req.peer_name);
        if !prioritize {
            let mut index = self.priority_count;
            let compare_size = req.size;
            let mut size_queuedfile = compare_size;
            while index < self.requests.len().wrapping_sub(1) && compare_size < size_queuedfile
                invariant
                    index == self.priority_count,
                    size_queuedfile == compare_size,
                decreases self.requests@.len() - index,
            {
                size_queuedfile = self.requests[index].size;
                index = index + 1;
            }
            self.requests.insert(index, req);
        } else {
            self.requests.insert(self.priority_count, req);
            let n = self.requests.len();
            assert(self.priority_count < n);
            self.priority_count = self.priority_count + 1;
        }
        proof {
            let (q2, n2) = enqueue_spec(old(self).requests(), old(self).priority_count(), r);
            assert(self.requests() =~= q2);
            lemma_enqueue_wf(old(self).requests(), old(self).priority_count(), r);
        }
    }

    /// Takes the request at the front, if any, and lowers the priority count
    /// by one unless it is zero.
    pub fn dequeue(&mut self) -> (r: Option<HttpRequest>)
        requires
            old(self).wf(),
        ensures
            final(self).wf(),
            ({
                let (front, q2, n2) = dequeue_spec(old(self).requests(), old(self).priority_count());
                &&& final(self).requests() == q2
                &&& final(self).priority_count() == n2
                &&& match r {
                    Some(x) => front == Some(x@),
                    None => front is None,
                }
            }),
    {
        if self.requests.len() == 0 {
            return None;
        }
        let front = self.requests.remove(0);
        if self.priority_count > 0 {
            self.priority_count = self.priority_count - 1;
        }
        proof {
            assert(self.requests() =~= old(self).requests().drop_first());
            lemma_dequeue_wf(old(self).requests(), old(self).priority_count());
        }
        Some(front)
    }
}

/// Queuing a request keeps the priority requests, and only they, at the front.
pub proof fn lemma_enqueue_wf(q: Seq<RequestSpec>, count: nat, r: RequestSpec)
    requires
        queue_wf(q, count),
    ensures
        queue_wf(enqueue_spec(q, count, r).0, enqueue_spec(q, count, r).1),
{
    let (q2, n2) = enqueue_spec(q, count, r);
    assert forall|i: int| 0 <= i < q2.len() implies (#[trigger] is_priority(q2[i].peer_name) <==> i < n2) by {
        if i < count {
            assert(q2[i] == q[i]);
        } else if i > count {
            assert(q2[i] == q[i - 1]);
        }
    }
}

/// Taking the front request keeps the priority requests, and only they, at the front.
pub proof fn lemma_dequeue_wf(q: Seq<RequestSpec>, count: nat)
    requires
        queue_wf(q, count),
    ensures
        queue_wf(dequeue_spec(q, count).1, dequeue_spec(q, count).2),
{
    let (f, q2, n2) = dequeue_spec(q, count);
    if q.len() > 0 {
        assert forall|i: int| 0 <= i < q2.len() implies (#[trigger] is_priority(q2[i].peer_name) <==> i < n2) by {
            assert(q2[i] == q[i + 1]);
        }
    }
}


/// In a well-formed queue no request of an ordinary peer stands ahead of a
/// request of a priority peer.
pub proof fn law_priority_requests_first(q: Seq<RequestSpec>, count: nat, i: int, j: int)
    requires
        queue_wf(q, count),
        0 <= i < j < q.len(),
        is_priority(q[j].peer_name),
    ensures
        is_priority(q[i].peer_name),
{
    assert(is_priority(q[j].peer_name) <==> j < count);
    assert(is_priority(q[i].peer_name) <==> i < count);
}

/// Where a newly queued request goes: behind every priority request already
/// waiting and ahead of every ordinary request already waiting, whatever its
/// own kind; only a priority request raises the count.
pub proof fn law_enqueue_position(q: Seq<RequestSpec>, count: nat, r: RequestSpec)
    requires
        queue_wf(q, count),
    ensures
        ({
            let (q2, n2) = enqueue_spec(q, count, r);
            &&& q2.len() == q.len() + 1
            &&& q2[count as int] == r
            &&& forall|i: int| 0 <= i < count ==> q2[i] == q[i] && is_priority(q[i].peer_name)
            &&& forall|i: int| count <= i < q.len() ==> q2[i + 1] == q[i] && !is_priority(
                q[i].peer_name,
            )
            &&& n2 == if is_priority(r.peer_name) { count + 1 } else { count }
        }),
{
    let (q2, n2) = enqueue_spec(q, count, r);
    assert forall|i: int| 0 <= i < count implies q2[i] == q[i] && is_priority(q[i].peer_name) by {
        assert(is_priority(q[i].peer_name) <==> i < count);
    }
    assert forall|i: int| count <= i < q.len() implies q2[i + 1] == q[i] && !is_priority(
        q[i].peer_name,
    ) by {
        assert(is_priority(q[i].peer_name) <==> i < count);
    }
}

/// A request queued into an empty queue is the next one the dequeuer takes,
/// and the queue is empty again afterwards.
pub proof fn law_enqueue_then_dequeue(r: RequestSpec)
    ensures
        ({
            let (q1, n1) = enqueue_spec(Seq::empty(), 0, r);
            let (front, q2, n2) = dequeue_spec(q1, n1);
            &&& front == Some(r)
            &&& q2 == Seq::<RequestSpec>::empty()
            &&& n2 == 0
        }),
{
    let (q1, n1) = enqueue_spec(Seq::empty(), 0, r);
    assert(q1 =~= seq![r]);
    assert(q1.drop_first() =~= Seq::<RequestSpec>::empty());
}

/// Queuing adds one request and taking one removes one; the taken request is
/// the one at the front.
pub proof fn law_queue_length(q: Seq<RequestSpec>, count: nat, r: RequestSpec)
    requires
        queue_wf(q, count),
    ensures
        enqueue_spec(q, count, r).0.len() == q.len() + 1,
        q.len() > 0 ==> dequeue_spec(q, count).1.len() == q.len() - 1
            && dequeue_spec(q, count).0 == Some(q[0]),
{
}

} // verus!
