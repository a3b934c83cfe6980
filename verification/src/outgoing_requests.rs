//! The requests that wait to be sent or answered.

use vstd::prelude::*;
use crate::syncthing::{Request, RequestView};

verus! {

/// How long a request may stay in the queue before it is removed, in nanoseconds.
pub const MAX_TIME_IN_QUEUE: u64 = 43_200_000_000_000;

/// How many files may have pending requests at a time.
pub const MAX_FILES: usize = 10;

/// A point in time, of `std`.
#[verifier::external_type_specification]
#[verifier::external_body]
pub struct ExInstant(std::time::Instant);

/// Calls `Instant::now`. Nothing is claimed of what it returns.
#[verifier::external_body]
fn instant_now() -> std::time::Instant {
    std::time::Instant::now()
}

/// Calls `Instant::elapsed`: the nanoseconds since `start`. Nothing is claimed of
/// the number, as it depends on when the call is made.
#[verifier::external_body]
fn nanos_since(start: &std::time::Instant) -> u64 {
    start.elapsed().as_nanos() as u64
}

// ---------------------------------------------------------------------------
// The order of requests

/// How two sequences of numbers compare: negative where `a` comes first, zero
/// where they are the same.
pub open spec fn order(a: Seq<int>, b: Seq<int>) -> int
    decreases a.len(),
{
    if a.len() == 0 {
        if b.len() == 0 {
            0
        } else {
            -1
        }
    } else if b.len() == 0 {
        1
    } else if a[0] < b[0] {
        -1
    } else if a[0] > b[0] {
        1
    } else {
        order(a.skip(1), b.skip(1))
    }
}

pub open spec fn codes(s: Seq<char>) -> Seq<int> {
    s.map_values(|c: char| c as int)
}

pub open spec fn values(s: Seq<u8>) -> Seq<int> {
    s.map_values(|b: u8| b as int)
}

/// The first of two comparisons that tells a difference.
pub open spec fn first_of(x: int, y: int) -> int {
    if x != 0 {
        x
    } else {
        y
    }
}

pub open spec fn sign(a: int, b: int) -> int {
    if a < b {
        -1
    } else if a > b {
        1
    } else {
        0
    }
}

/// How two requests compare, whatever their ids: by folder, then name, offset,
/// size, hash, and whether they ask for a temporary file.
pub open spec fn request_order(a: RequestView, b: RequestView) -> int {
    first_of(
        order(codes(a.folder), codes(b.folder)),
        first_of(
            order(codes(a.name), codes(b.name)),
            first_of(
                sign(a.offset as int, b.offset as int),
                first_of(
                    sign(a.size as int, b.size as int),
                    first_of(
                        order(values(a.hash), values(b.hash)),
                        sign(crate::wire::flag(a.from_temporary) as int, crate::wire::flag(b.from_temporary) as int),
                    ),
                ),
            ),
        ),
    )
}

/// The requests ask for the same, whatever their ids.
pub open spec fn same_request(a: RequestView, b: RequestView) -> bool {
    &&& a.folder == b.folder
    &&& a.name == b.name
    &&& a.offset == b.offset
    &&& a.size == b.size
    &&& a.hash == b.hash
    &&& a.from_temporary == b.from_temporary
}

pub proof fn lemma_order_antisymmetric(a: Seq<int>, b: Seq<int>)
    ensures
        order(a, b) == -order(b, a),
        order(a, b) == 0 <==> a == b,
    decreases a.len(),
{
    if a.len() > 0 && b.len() > 0 {
        lemma_order_antisymmetric(a.skip(1), b.skip(1));
        if a[0] == b[0] && a.skip(1) == b.skip(1) {
            assert(a =~= seq![a[0]] + a.skip(1));
            assert(b =~= seq![b[0]] + b.skip(1));
        }
    } else if a.len() == 0 && b.len() == 0 {
        assert(a =~= b);
    }
}

proof fn lemma_order_transitive(a: Seq<int>, b: Seq<int>, c: Seq<int>)
    requires
        order(a, b) <= 0,
        order(b, c) <= 0,
    ensures
        order(a, c) <= 0,
        order(a, c) == 0 ==> order(a, b) == 0 && order(b, c) == 0,
    decreases a.len(),
{
    if a.len() > 0 && b.len() > 0 && c.len() > 0 && a[0] == b[0] && b[0] == c[0] {
        lemma_order_transitive(a.skip(1), b.skip(1), c.skip(1));
    }
}

pub proof fn lemma_codes_injective(a: Seq<char>, b: Seq<char>)
    requires
        codes(a) == codes(b),
    ensures
        a == b,
{
    assert(a.len() == codes(a).len());
    assert(b.len() == codes(b).len());
    assert forall|i: int| 0 <= i < a.len() implies a[i] == b[i] by {
        assert(codes(a)[i] == a[i] as int && codes(b)[i] == b[i] as int);
    }
    assert(a =~= b);
}

pub proof fn lemma_values_injective(a: Seq<u8>, b: Seq<u8>)
    requires
        values(a) == values(b),
    ensures
        a == b,
{
    assert(a.len() == values(a).len());
    assert(b.len() == values(b).len());
    assert forall|i: int| 0 <= i < a.len() implies a[i] == b[i] by {
        assert(values(a)[i] == a[i] as int && values(b)[i] == b[i] as int);
    }
    assert(a =~= b);
}

proof fn lemma_request_order_antisymmetric(a: RequestView, b: RequestView)
    ensures
        request_order(a, b) == -request_order(b, a),
        request_order(a, b) == 0 <==> same_request(a, b),
{
    lemma_order_antisymmetric(codes(a.folder), codes(b.folder));
    lemma_order_antisymmetric(codes(a.name), codes(b.name));
    lemma_order_antisymmetric(values(a.hash), values(b.hash));
    if request_order(a, b) == 0 {
        lemma_codes_injective(a.folder, b.folder);
        lemma_codes_injective(a.name, b.name);
        lemma_values_injective(a.hash, b.hash);
    }
}

proof fn lemma_request_order_transitive(a: RequestView, b: RequestView, c: RequestView)
    requires
        request_order(a, b) <= 0,
        request_order(b, c) <= 0,
    ensures
        request_order(a, c) <= 0,
        request_order(a, c) == 0 ==> request_order(a, b) == 0 && request_order(b, c) == 0,
{
    let (fa, fb, fc) = (codes(a.folder), codes(b.folder), codes(c.folder));
    let (na, nb, nc) = (codes(a.name), codes(b.name), codes(c.name));
    let (ha, hb, hc) = (values(a.hash), values(b.hash), values(c.hash));
    lemma_order_transitive(fa, fb, fc);
    lemma_order_antisymmetric(fa, fb);
    lemma_order_antisymmetric(fb, fc);
    if fa == fb && fb == fc {
        lemma_order_transitive(na, nb, nc);
        lemma_order_antisymmetric(na, nb);
        lemma_order_antisymmetric(nb, nc);
        if na == nb && nb == nc && a.offset == b.offset && b.offset == c.offset && a.size == b.size
            && b.size == c.size {
            lemma_order_transitive(ha, hb, hc);
            lemma_order_antisymmetric(ha, hb);
            lemma_order_antisymmetric(hb, hc);
        }
    }
}

fn text_order(a: &String, b: &String) -> (r: i32)
    ensures
        r == order(codes(a@), codes(b@)),
{
    let x = crate::text::chars_of(a.as_str());
    let y = crate::text::chars_of(b.as_str());
    let mut i: usize = 0;
    assert(codes(x@).skip(0) =~= codes(x@));
    assert(codes(y@).skip(0) =~= codes(y@));
    while i < x.len() && i < y.len()
        invariant
            i <= x@.len(),
            i <= y@.len(),
            x@ == a@,
            y@ == b@,
            order(codes(x@), codes(y@)) == order(
                codes(x@).skip(i as int),
                codes(y@).skip(i as int),
            ),
        decreases x@.len() - i,
    {
        assert(codes(x@).skip(i as int)[0] == x@[i as int] as int);
        assert(codes(y@).skip(i as int)[0] == y@[i as int] as int);
        if x[i] < y[i] {
            return -1;
        }
        if x[i] > y[i] {
            return 1;
        }
        assert(codes(x@).skip(i as int).skip(1) =~= codes(x@).skip(i + 1));
        assert(codes(y@).skip(i as int).skip(1) =~= codes(y@).skip(i + 1));
        i += 1;
    }
    if i < y.len() {
        -1
    } else if i < x.len() {
        1
    } else {
        0
    }
}

fn bytes_order(x: &Vec<u8>, y: &Vec<u8>) -> (r: i32)
    ensures
        r == order(values(x@), values(y@)),
{
    let mut i: usize = 0;
    assert(values(x@).skip(0) =~= values(x@));
    assert(values(y@).skip(0) =~= values(y@));
    while i < x.len() && i < y.len()
        invariant
            i <= x@.len(),
            i <= y@.len(),
            order(values(x@), values(y@)) == order(
                values(x@).skip(i as int),
                values(y@).skip(i as int),
            ),
        decreases x@.len() - i,
    {
        assert(values(x@).skip(i as int)[0] == x@[i as int] as int);
        assert(values(y@).skip(i as int)[0] == y@[i as int] as int);
        if x[i] < y[i] {
            return -1;
        }
        if x[i] > y[i] {
            return 1;
        }
        assert(values(x@).skip(i as int).skip(1) =~= values(x@).skip(i + 1));
        assert(values(y@).skip(i as int).skip(1) =~= values(y@).skip(i + 1));
        i += 1;
    }
    if i < y.len() {
        -1
    } else if i < x.len() {
        1
    } else {
        0
    }
}

fn order_requests(a: &Request, b: &Request) -> (r: i32)
    ensures
        r == request_order(a@, b@),
{
    let by_folder: i32 = text_order(&a.folder, &b.folder);
    if by_folder != 0 {
        return by_folder;
    }
    let by_name: i32 = text_order(&a.name, &b.name);
    if by_name != 0 {
        return by_name;
    }
    if a.offset != b.offset {
        return if a.offset < b.offset {
            -1
        } else {
            1
        };
    }
    if a.size != b.size {
        return if a.size < b.size {
            -1
        } else {
            1
        };
    }
    let by_hash: i32 = bytes_order(&a.hash, &b.hash);
    if by_hash != 0 {
        return by_hash;
    }
    if a.from_temporary == b.from_temporary {
        0
    } else if b.from_temporary {
        -1
    } else {
        1
    }
}

// ---------------------------------------------------------------------------
// The queue

#[derive(Debug)]
struct OutgoingRequest {
    request: Request,
    id: i32,
    created: u64,
    pending: bool,
}

/// A request in the queue: the id it is known by, when it came, in nanoseconds,
/// and whether it was sent and is not answered yet.
#[verifier::ext_equal]
pub struct OutgoingRequestView {
    pub request: RequestView,
    pub id: i32,
    pub created: u64,
    pub pending: bool,
}

impl View for OutgoingRequest {
    type V = OutgoingRequestView;

    closed spec fn view(&self) -> OutgoingRequestView {
        OutgoingRequestView {
            request: self.request@,
            id: self.id,
            created: self.created,
            pending: self.pending,
        }
    }
}

/// The requests that wait to be sent or answered, in order.
#[derive(Debug)]
pub struct OutgoingRequests {
    queue: Vec<OutgoingRequest>,
    requested_size: usize,
    start: std::time::Instant,
}

impl View for OutgoingRequests {
    type V = Seq<OutgoingRequestView>;

    closed spec fn view(&self) -> Seq<OutgoingRequestView> {
        crate::views(self.queue@)
    }
}

/// How many bytes a request asks for.
pub open spec fn size_of_request(r: RequestView) -> nat {
    (r.size as usize) as nat
}

/// How many bytes the pending requests ask for, all together.
pub open spec fn pending_size(q: Seq<OutgoingRequestView>) -> nat
    decreases q.len(),
{
    if q.len() == 0 {
        0
    } else {
        pending_size(q.drop_last()) + if q.last().pending {
            size_of_request(q.last().request)
        } else {
            0
        }
    }
}

/// How many requests are pending.
pub open spec fn pending_count(q: Seq<OutgoingRequestView>) -> nat
    decreases q.len(),
{
    if q.len() == 0 {
        0
    } else {
        pending_count(q.drop_last()) + if q.last().pending {
            1nat
        } else {
            0nat
        }
    }
}

/// A sequence with one more element, unless it has it already.
pub open spec fn with_name(names: Seq<Seq<char>>, name: Seq<char>) -> Seq<Seq<char>> {
    if names.contains(name) {
        names
    } else {
        names.push(name)
    }
}

/// The files that have pending requests.
pub open spec fn pending_names(q: Seq<OutgoingRequestView>) -> Seq<Seq<char>>
    decreases q.len(),
{
    if q.len() == 0 {
        Seq::empty()
    } else if q.last().pending {
        with_name(pending_names(q.drop_last()), q.last().request.name)
    } else {
        pending_names(q.drop_last())
    }
}

/// The queue is in order, and no two requests are the same or have the same id.
pub open spec fn well_ordered(q: Seq<OutgoingRequestView>) -> bool {
    &&& forall|i: int, j: int|
        0 <= i < j < q.len() ==> request_order(
            (#[trigger] q[i]).request,
            (#[trigger] q[j]).request,
        ) < 0
    &&& forall|i: int, j: int| 0 <= i < j < q.len() ==> (#[trigger] q[i]).id != (#[trigger] q[j]).id
}

/// The request with the given id is at position `i`.
pub open spec fn is_at(q: Seq<OutgoingRequestView>, id: i32, i: int) -> bool {
    0 <= i < q.len() && q[i].id == id
}

/// Some request in the queue asks for the same as `r`.
pub open spec fn has_same(q: Seq<OutgoingRequestView>, r: RequestView) -> bool {
    exists|i: int| 0 <= i < q.len() && same_request((#[trigger] q[i]).request, r)
}

/// Where a request belongs in the queue.
pub open spec fn place_of(q: Seq<OutgoingRequestView>, r: RequestView) -> nat
    decreases q.len(),
{
    if q.len() == 0 || request_order(q[0].request, r) >= 0 {
        0
    } else {
        1 + place_of(q.skip(1), r)
    }
}

/// The queue with one more request, unless it is there already.
pub open spec fn with_request(
    q: Seq<OutgoingRequestView>,
    id: i32,
    r: RequestView,
    now: u64,
) -> Seq<OutgoingRequestView> {
    if has_same(q, r) {
        q
    } else {
        q.insert(
            place_of(q, r) as int,
            OutgoingRequestView { request: r, id, created: now, pending: false },
        )
    }
}

/// A request that came at `created` has not waited too long at `now`.
pub open spec fn is_recent(created: u64, now: u64) -> bool {
    now - created <= MAX_TIME_IN_QUEUE
}

/// The requests that have not waited too long.
pub open spec fn recent(q: Seq<OutgoingRequestView>, now: u64) -> Seq<OutgoingRequestView>
    decreases q.len(),
{
    if q.len() == 0 {
        Seq::empty()
    } else if is_recent(q.last().created, now) {
        recent(q.drop_last(), now).push(q.last())
    } else {
        recent(q.drop_last(), now)
    }
}

/// Where choosing requests to send has come to.
#[verifier::ext_equal]
pub struct Admission {
    pub queue: Seq<OutgoingRequestView>,
    pub sent: Seq<RequestView>,
    pub size: nat,
    pub names: Seq<Seq<char>>,
}

/// The next request cannot be sent, so none after it is.
pub open spec fn is_stopped(a: Admission, i: int, free_slots: nat, max_size: nat) -> bool {
    let r = a.queue[i].request;
    ||| a.names.len() >= MAX_FILES && !a.names.contains(r.name)
    ||| a.sent.len() >= free_slots
    ||| a.size + size_of_request(r) > max_size
}

/// The request at position `i` is sent, unless it is pending already.
pub open spec fn admitted(a: Admission, i: int) -> Admission {
    let e = a.queue[i];
    if e.pending {
        a
    } else {
        Admission {
            queue: a.queue.update(i, OutgoingRequestView { pending: true, ..e }),
            sent: a.sent.push(e.request),
            size: a.size + size_of_request(e.request),
            names: with_name(a.names, e.request.name),
        }
    }
}

/// Requests are sent in order, from position `i` on, until one cannot be.
pub open spec fn admit_from(a: Admission, i: int, free_slots: nat, max_size: nat) -> Admission
    decreases a.queue.len() - i,
{
    if i < 0 || i >= a.queue.len() || is_stopped(a, i, free_slots, max_size) {
        a
    } else {
        admit_from(admitted(a, i), i + 1, free_slots, max_size)
    }
}

/// How many more requests may become pending: none where there are as many as allowed,
/// or more.
pub open spec fn free_slots(q: Seq<OutgoingRequestView>, max_pending: nat) -> nat {
    if pending_count(q) < max_pending {
        (max_pending - pending_count(q)) as nat
    } else {
        0
    }
}

/// Where choosing requests to send starts.
pub open spec fn nothing_sent(q: Seq<OutgoingRequestView>) -> Admission {
    Admission { queue: q, sent: Seq::empty(), size: pending_size(q), names: pending_names(q) }
}

/// Which requests are sent when there may be as many pending as the limits say.
pub open spec fn admission(
    q: Seq<OutgoingRequestView>,
    max_pending: nat,
    max_size: nat,
) -> Admission {
    admit_from(nothing_sent(q), 0, free_slots(q, max_pending), max_size)
}

/// Taking a request out of the queue takes its size off, if it is pending.
pub proof fn lemma_pending_remove(q: Seq<OutgoingRequestView>, i: int)
    requires
        0 <= i < q.len(),
    ensures
        pending_size(q) == pending_size(q.remove(i)) + if q[i].pending {
            size_of_request(q[i].request)
        } else {
            0
        },
        pending_count(q) == pending_count(q.remove(i)) + if q[i].pending {
            1nat
        } else {
            0nat
        },
    decreases q.len(),
{
    if i == q.len() - 1 {
        assert(q.remove(i) =~= q.drop_last());
    } else {
        assert(q.remove(i).drop_last() =~= q.drop_last().remove(i));
        assert(q.remove(i).last() == q.last());
        lemma_pending_remove(q.drop_last(), i);
    }
}

/// A request that is put into the queue is not pending.
pub proof fn lemma_with_request_pending(
    q: Seq<OutgoingRequestView>,
    id: i32,
    r: RequestView,
    now: u64,
)
    ensures
        pending_count(with_request(q, id, r, now)) == pending_count(q),
{
    if !has_same(q, r) {
        lemma_place_within(q, r);
        let i = place_of(q, r) as int;
        let n = with_request(q, id, r, now);
        assert(n.remove(i) =~= q);
        lemma_pending_remove(n, i);
    }
}

/// Making a request pending adds its size and counts it.
proof fn lemma_pending_update(q: Seq<OutgoingRequestView>, i: int)
    requires
        0 <= i < q.len(),
        !q[i].pending,
    ensures
        pending_size(q.update(i, OutgoingRequestView { pending: true, ..q[i] })) == pending_size(q)
            + size_of_request(q[i].request),
        pending_count(q.update(i, OutgoingRequestView { pending: true, ..q[i] })) == pending_count(
            q,
        ) + 1,
    decreases q.len(),
{
    let r = q.update(i, OutgoingRequestView { pending: true, ..q[i] });
    if i == q.len() - 1 {
        assert(r.drop_last() =~= q.drop_last());
    } else {
        assert(r.drop_last() =~= q.drop_last().update(
            i,
            OutgoingRequestView { pending: true, ..q[i] },
        ));
        assert(r.last() == q.last());
        lemma_pending_update(q.drop_last(), i);
    }
}

proof fn lemma_place_of(q: Seq<OutgoingRequestView>, r: RequestView, i: int)
    requires
        0 <= i <= q.len(),
        forall|j: int| 0 <= j < i ==> request_order((#[trigger] q[j]).request, r) < 0,
        i < q.len() ==> request_order(q[i].request, r) >= 0,
    ensures
        place_of(q, r) == i,
    decreases i,
{
    if i > 0 {
        assert(request_order(q[0].request, r) < 0);
        assert forall|j: int| 0 <= j < i - 1 implies request_order(
            (#[trigger] q.skip(1)[j]).request,
            r,
        ) < 0 by {
            assert(request_order(q[j + 1].request, r) < 0);
        }
        lemma_place_of(q.skip(1), r, i - 1);
    }
}

/// A queue stays in order without one of its requests.
proof fn lemma_well_ordered_remove(q: Seq<OutgoingRequestView>, i: int)
    requires
        well_ordered(q),
        0 <= i < q.len(),
    ensures
        well_ordered(q.remove(i)),
{
}

/// A queue stays in order with one more request at its place.
proof fn lemma_well_ordered_insert(q: Seq<OutgoingRequestView>, i: int, e: OutgoingRequestView)
    requires
        well_ordered(q),
        0 <= i <= q.len(),
        forall|j: int| 0 <= j < i ==> request_order((#[trigger] q[j]).request, e.request) < 0,
        forall|j: int| i <= j < q.len() ==> request_order(e.request, (#[trigger] q[j]).request) < 0,
        forall|j: int| !is_at(q, e.id, j),
    ensures
        well_ordered(q.insert(i, e)),
{
    let n = q.insert(i, e);
    assert forall|a: int, b: int| 0 <= a < b < n.len() implies (#[trigger] n[a]).id != (
    #[trigger] n[b]).id && request_order(n[a].request, n[b].request) < 0 by {
        if a == i {
            assert(n[b] == q[b - 1]);
            assert(!is_at(q, e.id, b - 1));
        } else if b == i {
            assert(n[a] == q[a]);
            assert(!is_at(q, e.id, a));
        } else {
            let x = if a < i {
                a
            } else {
                a - 1
            };
            let y = if b < i {
                b
            } else {
                b - 1
            };
            assert(n[a] == q[x] && n[b] == q[y]);
        }
    }
}

impl Default for OutgoingRequests {
    fn default() -> (r: Self)
        ensures
            r.wf(),
            r@ == Seq::<OutgoingRequestView>::empty(),
    {
        let r = OutgoingRequests { queue: Vec::new(), requested_size: 0, start: instant_now() };
        assert(r@ =~= Seq::empty());
        r
    }
}

impl OutgoingRequests {
    /// The queue is in order, and the size that is kept is that of the pending requests.
    pub closed spec fn wf(&self) -> bool {
        &&& well_ordered(self@)
        &&& self.requested_size == pending_size(self@)
    }

    fn find(&self, request_id: &i32) -> (r: Option<usize>)
        ensures
            match r {
                Some(i) => is_at(self@, *request_id, i as int),
                None => forall|i: int| !is_at(self@, *request_id, i),
            },
    {
        let mut i: usize = 0;
        while i < self.queue.len()
            invariant
                i <= self.queue@.len(),
                forall|j: int| 0 <= j < i ==> !is_at(self@, *request_id, j),
            decreases self.queue@.len() - i,
        {
            if self.queue[i].id == *request_id {
                return Some(i);
            }
            i += 1;
        }
        None
    }

    /// The request with the given id.
    pub fn get<'a>(&'a self, request_id: &i32) -> (r: Option<&'a Request>)
        requires
            self.wf(),
        ensures
            match r {
                Some(x) => exists|i: int|
                    is_at(self@, *request_id, i) && #[trigger] self@[i].request == x@,
                None => forall|i: int| !is_at(self@, *request_id, i),
            },
    {
        match self.find(request_id) {
            Some(i) => {
                assert(self@[i as int].request == self.queue@[i as int].request@);
                Some(&self.queue[i].request)
            },
            None => None,
        }
    }

    /// Whether the request with the given id was sent and is not answered yet.
    pub fn is_pending(&self, request_id: &i32) -> (r: bool)
        requires
            self.wf(),
        ensures
            r == exists|i: int| is_at(self@, *request_id, i) && #[trigger] self@[i].pending,
    {
        match self.find(request_id) {
            Some(i) => {
                assert(self@[i as int].pending == self.queue@[i as int].pending);
                self.queue[i].pending
            },
            None => false,
        }
    }

    /// The queue is in order, and no two requests are the same or have the same id.
    pub proof fn lemma_well_ordered(&self)
        requires
            self.wf(),
        ensures
            well_ordered(self@),
    {
    }

    /// No two requests in the queue have the same id.
    pub proof fn lemma_ids_distinct(&self, id: i32)
        requires
            self.wf(),
        ensures
            forall|i: int, j: int| is_at(self@, id, i) && is_at(self@, id, j) ==> i == j,
    {
        assert forall|i: int, j: int| is_at(self@, id, i) && is_at(self@, id, j) implies i == j by {
            if i < j {
                assert(self@[i].id != self@[j].id);
            } else if j < i {
                assert(self@[j].id != self@[i].id);
            }
        }
    }

    /// Takes the request with the given id out of the queue; it has to be pending.
    pub fn remove(&mut self, request_id: &i32) -> (r: Option<Request>)
        requires
            old(self).wf(),
            forall|i: int| is_at(old(self)@, *request_id, i) ==> #[trigger] old(self)@[i].pending,
        ensures
            final(self).wf(),
            match r {
                Some(x) => exists|i: int|
                    is_at(old(self)@, *request_id, i) && #[trigger] old(self)@[i].request == x@
                        && final(self)@ == old(self)@.remove(i),
                None => final(self)@ == old(self)@ && forall|i: int|
                    !is_at(old(self)@, *request_id, i),
            },
    {
        match self.find(request_id) {
            Some(i) => {
                proof {
                    lemma_pending_remove(self@, i as int);
                    lemma_well_ordered_remove(self@, i as int);
                    assert(old(self)@[i as int].pending);
                }
                let removed = self.queue.remove(i);
                self.requested_size -= removed.request.size as usize;
                assert(self@ =~= old(self)@.remove(i as int));
                Some(removed.request)
            },
            None => None,
        }
    }

    /// Puts a request into the queue, unless it is there already. Returns the request
    /// if it was put in.
    pub fn insert(&mut self, request_id: i32, request: Request) -> (r: Option<Request>)
        requires
            old(self).wf(),
            request.hash@.len() == 32,
            has_same(old(self)@, request@) || forall|i: int| !is_at(old(self)@, request_id, i),
        ensures
            final(self).wf(),
            exists|now: u64|
                final(self)@ == #[trigger] with_request(old(self)@, request_id, request@, now),
            match r {
                Some(x) => x@ == request@ && !has_same(old(self)@, request@),
                None => has_same(old(self)@, request@),
            },
    {
        let now: u64 = self.now();
        self.insert_at(request_id, request, now)
    }

    /// The nanoseconds since the queue was made; nothing is claimed of the clock's number.
    pub(crate) fn now(&self) -> u64 {
        nanos_since(&self.start)
    }

    /// Puts a request that came at `now` into the queue, unless it is there already.
    pub fn insert_at(&mut self, request_id: i32, request: Request, now: u64) -> (r: Option<Request>)
        requires
            old(self).wf(),
            request.hash@.len() == 32,
            has_same(old(self)@, request@) || forall|i: int| !is_at(old(self)@, request_id, i),
        ensures
            final(self).wf(),
            final(self)@ == with_request(old(self)@, request_id, request@, now),
            match r {
                Some(x) => x@ == request@ && !has_same(old(self)@, request@),
                None => has_same(old(self)@, request@),
            },
    {
        let ghost q = self@;
        let mut i: usize = 0;
        while i < self.queue.len()
            invariant_except_break
                i <= self.queue@.len(),
                *self == *old(self),
                self.wf(),
                q == self@,
                forall|j: int| 0 <= j < i ==> request_order((#[trigger] q[j]).request, request@) < 0,
            ensures
                *self == *old(self),
                q == self@,
                i <= self.queue@.len(),
                forall|j: int| 0 <= j < i ==> request_order((#[trigger] q[j]).request, request@) < 0,
                i < q.len() ==> request_order(q[i as int].request, request@) > 0,
            decreases self.queue@.len() - i,
        {
            let o: i32 = order_requests(&self.queue[i].request, &request);
            assert(q[i as int].request == self.queue@[i as int].request@);
            if o == 0 {
                proof {
                    lemma_request_order_antisymmetric(q[i as int].request, request@);
                }
                return None;
            }
            if o > 0 {
                break;
            }
            i += 1;
        }
        proof {
            assert forall|j: int| i <= j < q.len() implies request_order(
                request@,
                (#[trigger] q[j]).request,
            ) < 0 by {
                lemma_request_order_antisymmetric(q[i as int].request, request@);
                if j > i {
                    lemma_request_order_transitive(
                        request@,
                        q[i as int].request,
                        q[j].request,
                    );
                }
            }
            assert forall|j: int| 0 <= j < q.len() implies !same_request(
                (#[trigger] q[j]).request,
                request@,
            ) by {
                lemma_request_order_antisymmetric(q[j].request, request@);
                lemma_request_order_antisymmetric(request@, q[j].request);
            }
            assert(!has_same(q, request@));
        }
        let entry = OutgoingRequest {
            request: request.clone(),
            id: request_id,
            created: now,
            pending: false,
        };
        let ghost e = entry@;
        self.queue.insert(i, entry);
        proof {
            assert(self@ =~= q.insert(i as int, e));
            lemma_pending_remove(self@, i as int);
            assert(self@.remove(i as int) =~= q);
            lemma_place_of(q, request@, i as int);
            lemma_well_ordered_insert(q, i as int, e);
        }
        Some(request)
    }

    /// Removes requests that have been in the queue for more than [MAX_TIME_IN_QUEUE].
    pub fn remove_old_requests(&mut self)
        requires
            old(self).wf(),
        ensures
            final(self).wf(),
            exists|now: u64| final(self)@ == #[trigger] recent(old(self)@, now),
    {
        let now: u64 = self.now();
        self.remove_old_requests_at(now);
    }

    /// Removes requests that, at `now`, have been in the queue for more than
    /// [MAX_TIME_IN_QUEUE].
    pub fn remove_old_requests_at(&mut self, now: u64)
        requires
            old(self).wf(),
        ensures
            final(self).wf(),
            final(self)@ == recent(old(self)@, now),
    {
        let ghost q = self@;
        let ghost mut k: int = 0;
        let mut i: usize = 0;
        assert(self@ =~= recent(q.take(0), now) + q.skip(0));
        while i < self.queue.len()
            invariant
                0 <= i <= self.queue@.len(),
                0 <= k <= q.len(),
                self.wf(),
                i == recent(q.take(k), now).len(),
                self@ == recent(q.take(k), now) + q.skip(k),
            decreases self.queue@.len() - i,
        {
            let created: u64 = self.queue[i].created;
            proof {
                assert(self@[i as int] == q[k]);
                assert(q.take(k + 1).drop_last() =~= q.take(k));
                assert(q.take(k + 1).last() == q[k]);
            }
            if now < created || now - created <= MAX_TIME_IN_QUEUE {
                assert(recent(q.take(k), now) + q.skip(k) =~= recent(q.take(k), now).push(q[k])
                    + q.skip(k + 1));
                i += 1;
            } else {
                let ghost before = self@;
                proof {
                    lemma_pending_remove(before, i as int);
                    lemma_well_ordered_remove(before, i as int);
                }
                let removed = self.queue.remove(i);
                if removed.pending {
                    self.requested_size -= removed.request.size as usize;
                }
                assert(self@ =~= before.remove(i as int));
                assert(before.remove(i as int) =~= recent(q.take(k), now) + q.skip(k + 1));
            }
            proof {
                k = k + 1;
            }
        }
        assert(k == q.len());
        assert(q.take(k) =~= q);
        assert(self@ =~= recent(q, now));
    }

    /// Chooses the requests to send next, so that at most `max_pending` requests are
    /// pending and ask for at most `max_storage_area` bytes. Where there are as many
    /// pending already, or more, none is chosen.
    pub fn update_pending_requests(&mut self, max_pending: usize, max_storage_area: usize) -> (r: Vec<
        Request,
    >)
        requires
            old(self).wf(),
        ensures
            final(self).wf(),
            final(self)@ == admission(
                old(self)@,
                max_pending as nat,
                max_storage_area as nat,
            ).queue,
            crate::views(r@) == admission(
                old(self)@,
                max_pending as nat,
                max_storage_area as nat,
            ).sent,
    {
        let ghost q = self@;
        let ghost want = admission(q, max_pending as nat, max_storage_area as nat);
        let (pending, mut file_names) = self.pending_files();
        let free_slots: usize = if pending < max_pending {
            max_pending - pending
        } else {
            0
        };
        let mut processed_requests: Vec<Request> = Vec::new();
        let mut i: usize = 0;
        let ghost mut a = nothing_sent(q);
        assert(crate::views(processed_requests@) =~= Seq::empty());
        while i < self.queue.len()
            invariant_except_break
                i <= self.queue@.len(),
                want == admit_from(a, i as int, free_slots as nat, max_storage_area as nat),
                self.wf(),
                a.queue == self@,
                a.sent == crate::views(processed_requests@),
                a.size == self.requested_size,
                a.names == crate::views(file_names@),
            ensures
                self.wf(),
                want == a,
                a.queue == self@,
                a.sent == crate::views(processed_requests@),
            decreases self.queue@.len() - i,
        {
            assert(self@[i as int] == self.queue@[i as int]@);
            if file_names.len() >= MAX_FILES && !has_name(
                &file_names,
                &self.queue[i].request.name,
            ) {
                break;
            }
            if processed_requests.len() >= free_slots {
                break;
            }
            let size: usize = self.queue[i].request.size as usize;
            if size > max_storage_area || self.requested_size > max_storage_area - size {
                break;
            }
            if !self.queue[i].pending {
                let request = self.queue[i].request.clone();
                proof {
                    lemma_pending_update(self@, i as int);
                    crate::lemma_views_push(processed_requests@, request);
                    a = admitted(a, i as int);
                }
                if !has_name(&file_names, &request.name) {
                    let name = request.name.clone();
                    proof {
                        crate::lemma_views_push(file_names@, name);
                    }
                    file_names.push(name);
                }
                processed_requests.push(request);
                let ghost before = self@;
                self.queue[i].pending = true;
                assert(self@ =~= before.update(
                    i as int,
                    OutgoingRequestView { pending: true, ..before[i as int] },
                ));
                self.requested_size += size;
            }
            i += 1;
        }
        processed_requests
    }

    /// How many requests are pending, and for which files.
    fn pending_files(&self) -> (r: (usize, Vec<String>))
        ensures
            r.0 == pending_count(self@),
            crate::views(r.1@) == pending_names(self@),
    {
        let mut count: usize = 0;
        let mut names: Vec<String> = Vec::new();
        let mut i: usize = 0;
        assert(self@.take(0) =~= Seq::empty());
        assert(crate::views(names@) =~= Seq::empty());
        while i < self.queue.len()
            invariant
                i <= self.queue@.len(),
                count <= i,
                count == pending_count(self@.take(i as int)),
                crate::views(names@) == pending_names(self@.take(i as int)),
            decreases self.queue@.len() - i,
        {
            proof {
                assert(self@.take(i + 1).drop_last() =~= self@.take(i as int));
                assert(self@.take(i + 1).last() == self.queue@[i as int]@);
            }
            if self.queue[i].pending {
                count += 1;
                if !has_name(&names, &self.queue[i].request.name) {
                    let name = self.queue[i].request.name.clone();
                    proof {
                        crate::lemma_views_push(names@, name);
                    }
                    names.push(name);
                }
            }
            i += 1;
        }
        assert(self@.take(i as int) =~= self@);
        (count, names)
    }
}

fn has_name(names: &Vec<String>, name: &String) -> (r: bool)
    ensures
        r == crate::views(names@).contains(name@),
{
    let mut i: usize = 0;
    while i < names.len()
        invariant
            i <= names@.len(),
            forall|j: int| 0 <= j < i ==> crate::views(names@)[j] != name@,
        decreases names@.len() - i,
    {
        if names[i] == *name {
            assert(crate::views(names@)[i as int] == name@);
            return true;
        }
        i += 1;
    }
    false
}

// ---------------------------------------------------------------------------
// The limits are kept

/// Only requests that are not pending become pending, and they are those that are
/// sent, in the order of the queue.
pub open spec fn newly_pending(
    before: Seq<OutgoingRequestView>,
    after: Seq<OutgoingRequestView>,
) -> Seq<RequestView>
    decreases before.len(),
{
    if before.len() == 0 || after.len() == 0 {
        Seq::empty()
    } else {
        let rest = newly_pending(before.drop_last(), after.drop_last());
        if !before.last().pending && after.last().pending {
            rest.push(before.last().request)
        } else {
            rest
        }
    }
}

/// The queues differ at most in requests that became pending.
pub open spec fn only_more_pending(
    before: Seq<OutgoingRequestView>,
    after: Seq<OutgoingRequestView>,
) -> bool {
    &&& before.len() == after.len()
    &&& forall|i: int|
        0 <= i < before.len() ==> #[trigger] after[i] == before[i] || after[i] == (
        OutgoingRequestView { pending: true, ..before[i] })
}

pub proof fn lemma_newly_pending_none(a: Seq<OutgoingRequestView>)
    ensures
        newly_pending(a, a) == Seq::<RequestView>::empty(),
    decreases a.len(),
{
    if a.len() > 0 {
        lemma_newly_pending_none(a.drop_last());
    }
}

/// Where nothing changed from position `i` on, one more change at `i` comes last.
proof fn lemma_newly_pending_push(
    before: Seq<OutgoingRequestView>,
    mid: Seq<OutgoingRequestView>,
    i: int,
)
    requires
        before.len() == mid.len(),
        0 <= i < mid.len(),
        !mid[i].pending,
        forall|j: int| i <= j < mid.len() ==> #[trigger] mid[j] == before[j],
    ensures
        newly_pending(before, mid.update(i, OutgoingRequestView { pending: true, ..mid[i] }))
            == newly_pending(before, mid).push(mid[i].request),
    decreases mid.len(),
{
    let after = mid.update(i, OutgoingRequestView { pending: true, ..mid[i] });
    if i == mid.len() - 1 {
        assert(after.drop_last() =~= mid.drop_last());
        assert(mid.last() == before.last());
    } else {
        assert(after.drop_last() =~= mid.drop_last().update(
            i,
            OutgoingRequestView { pending: true, ..mid[i] },
        ));
        assert(mid[mid.len() - 1] == before[mid.len() - 1]);
        lemma_newly_pending_push(before.drop_last(), mid.drop_last(), i);
    }
}

pub proof fn lemma_admit(
    q: Seq<OutgoingRequestView>,
    a: Admission,
    i: int,
    free_slots: nat,
    max_size: nat,
)
    requires
        0 <= i <= a.queue.len(),
        only_more_pending(q, a.queue),
        forall|j: int| i <= j < q.len() ==> #[trigger] a.queue[j] == q[j],
        a.sent == newly_pending(q, a.queue),
        a.sent.len() <= free_slots,
        pending_count(a.queue) == pending_count(q) + a.sent.len(),
        pending_size(a.queue) == a.size,
        a.size <= pending_size(q) || a.size <= max_size,
        a.names.len() <= pending_names(q).len() || a.names.len() <= MAX_FILES,
    ensures
        ({
            let r = admit_from(a, i, free_slots, max_size);
            &&& only_more_pending(q, r.queue)
            &&& r.sent == newly_pending(q, r.queue)
            &&& r.sent.len() <= free_slots
            &&& pending_count(r.queue) == pending_count(q) + r.sent.len()
            &&& pending_size(r.queue) == r.size
            &&& r.size <= pending_size(q) || r.size <= max_size
            &&& r.names.len() <= pending_names(q).len() || r.names.len() <= MAX_FILES
        }),
    decreases a.queue.len() - i,
{
    if i < a.queue.len() && !is_stopped(a, i, free_slots, max_size) {
        let b = admitted(a, i);
        if !a.queue[i].pending {
            lemma_pending_update(a.queue, i);
            lemma_newly_pending_push(q, a.queue, i);
        }
        lemma_admit(q, b, i + 1, free_slots, max_size);
    }
}

/// Choosing requests to send keeps the limits: no more than `max_pending` requests
/// are pending, they ask for no more bytes than allowed, unless they did before,
/// and what is sent is what became pending, in the order of the queue. Where more
/// were pending than allowed, none is sent and the queue stays.
pub proof fn law_limits_kept(q: Seq<OutgoingRequestView>, max_pending: nat, max_size: nat)
    ensures
        ({
            let r = admission(q, max_pending, max_size);
            &&& pending_count(r.queue) <= max_pending || pending_count(q) > max_pending
            &&& pending_count(q) >= max_pending ==> r.queue == q && r.sent.len() == 0
            &&& pending_size(r.queue) <= max_size || pending_size(r.queue) <= pending_size(q)
            &&& r.names.len() <= MAX_FILES || r.names.len() <= pending_names(q).len()
            &&& only_more_pending(q, r.queue)
            &&& r.sent == newly_pending(q, r.queue)
        }),
{
    lemma_newly_pending_none(q);
    lemma_admit(q, nothing_sent(q), 0, free_slots(q, max_pending), max_size);
}

/// The files that have pending requests are listed once each, and no others are.
pub proof fn lemma_pending_names(q: Seq<OutgoingRequestView>, name: Seq<char>)
    ensures
        pending_names(q).no_duplicates(),
        pending_names(q).contains(name) <==> exists|i: int|
            0 <= i < q.len() && (#[trigger] q[i]).pending && q[i].request.name == name,
    decreases q.len(),
{
    if q.len() > 0 {
        let p = q.drop_last();
        let names = pending_names(p);
        lemma_pending_names(p, name);
        if exists|i: int| 0 <= i < p.len() && (#[trigger] p[i]).pending && p[i].request.name == name {
            let i = choose|i: int|
                0 <= i < p.len() && (#[trigger] p[i]).pending && p[i].request.name == name;
            assert(q[i].pending && q[i].request.name == name);
        }
        if exists|i: int| 0 <= i < q.len() && (#[trigger] q[i]).pending && q[i].request.name == name {
            let i = choose|i: int|
                0 <= i < q.len() && (#[trigger] q[i]).pending && q[i].request.name == name;
            if i < p.len() {
                assert(p[i].pending && p[i].request.name == name);
            }
        }
        if q.last().pending {
            lemma_with_name(names, q.last().request.name, name);
            if q.last().request.name == name {
                assert(q[q.len() - 1].pending);
            }
        }
    }
}

proof fn lemma_with_name(names: Seq<Seq<char>>, name: Seq<char>, other: Seq<char>)
    requires
        names.no_duplicates(),
    ensures
        with_name(names, name).no_duplicates(),
        with_name(names, name).contains(other) <==> names.contains(other) || other == name,
{
    if !names.contains(name) {
        let r = names.push(name);
        assert(r[names.len() as int] == name);
        if names.contains(other) {
            let i = choose|i: int| 0 <= i < names.len() && names[i] == other;
            assert(r[i] == other);
        }
    }
}

/// Where a request becomes pending, its file is one with pending requests.
proof fn lemma_pending_names_update(q: Seq<OutgoingRequestView>, i: int, name: Seq<char>)
    requires
        0 <= i < q.len(),
    ensures
        pending_names(q.update(i, OutgoingRequestView { pending: true, ..q[i] })).contains(name)
            <==> pending_names(q).contains(name) || name == q[i].request.name,
{
    let r = q.update(i, OutgoingRequestView { pending: true, ..q[i] });
    lemma_pending_names(q, name);
    lemma_pending_names(r, name);
    assert(r[i].pending && r[i].request.name == q[i].request.name);
    if pending_names(q).contains(name) {
        let k = choose|k: int|
            0 <= k < q.len() && (#[trigger] q[k]).pending && q[k].request.name == name;
        assert(r[k].pending && r[k].request.name == name);
    }
    if pending_names(r).contains(name) {
        let k = choose|k: int|
            0 <= k < r.len() && (#[trigger] r[k]).pending && r[k].request.name == name;
        if k != i {
            assert(q[k].pending && q[k].request.name == name);
        }
    }
}

/// The names that choosing goes by are those of the files with pending requests.
pub proof fn lemma_admit_names(a: Admission, i: int, free_slots: nat, max_size: nat)
    requires
        0 <= i <= a.queue.len(),
        a.names.no_duplicates(),
        forall|n: Seq<char>| #[trigger]
            a.names.contains(n) <==> pending_names(a.queue).contains(n),
    ensures
        ({
            let r = admit_from(a, i, free_slots, max_size);
            &&& r.names.no_duplicates()
            &&& forall|n: Seq<char>| #[trigger]
                r.names.contains(n) <==> pending_names(r.queue).contains(n)
        }),
    decreases a.queue.len() - i,
{
    if i < a.queue.len() && !is_stopped(a, i, free_slots, max_size) {
        let b = admitted(a, i);
        let e = a.queue[i];
        if !e.pending {
            lemma_with_name(a.names, e.request.name, e.request.name);
            assert forall|n: Seq<char>| #[trigger]
                b.names.contains(n) <==> pending_names(b.queue).contains(n) by {
                lemma_with_name(a.names, e.request.name, n);
                lemma_pending_names_update(a.queue, i, n);
                assert(a.names.contains(n) <==> pending_names(a.queue).contains(n));
            }
        }
        lemma_admit_names(b, i + 1, free_slots, max_size);
    }
}

/// Where choosing stopped: all requests before are pending, and this one could not
/// be sent.
pub proof fn lemma_admit_end(a: Admission, i: int, free_slots: nat, max_size: nat) -> (k: int)
    requires
        0 <= i <= a.queue.len(),
        forall|j: int| 0 <= j < i ==> (#[trigger] a.queue[j]).pending,
    ensures
        ({
            let r = admit_from(a, i, free_slots, max_size);
            &&& i <= k <= r.queue.len()
            &&& r.queue.len() == a.queue.len()
            &&& forall|j: int| 0 <= j < k ==> (#[trigger] r.queue[j]).pending
            &&& forall|j: int|
                0 <= j < k ==> #[trigger] r.queue[j] == (OutgoingRequestView {
                    pending: true,
                    ..a.queue[j]
                })
            &&& forall|j: int| k <= j < a.queue.len() ==> #[trigger] r.queue[j] == a.queue[j]
            &&& k < r.queue.len() ==> is_stopped(r, k, free_slots, max_size)
        }),
    decreases a.queue.len() - i,
{
    if i < a.queue.len() && !is_stopped(a, i, free_slots, max_size) {
        lemma_admit_end(admitted(a, i), i + 1, free_slots, max_size)
    } else {
        i
    }
}

/// Where all requests before `k` are pending and `k` cannot be sent, nothing is sent.
proof fn lemma_admit_nothing(a: Admission, i: int, k: int, free_slots: nat, max_size: nat)
    requires
        0 <= i <= k <= a.queue.len(),
        forall|j: int| 0 <= j < k ==> (#[trigger] a.queue[j]).pending,
        k < a.queue.len() ==> is_stopped(a, k, free_slots, max_size),
    ensures
        admit_from(a, i, free_slots, max_size) == a,
    decreases k - i,
{
    if i < k {
        assert(a.queue[i].pending);
        lemma_admit_nothing(a, i + 1, k, free_slots, max_size);
    }
}

/// Choosing requests to send once more, with the same limits, chooses none and leaves
/// the queue as it is: no request is handed out twice.
pub proof fn law_chosen_once(q: Seq<OutgoingRequestView>, max_pending: nat, max_size: nat)
    ensures
        ({
            let after = admission(q, max_pending, max_size).queue;
            let again = admission(after, max_pending, max_size);
            again.queue == after && again.sent.len() == 0
        }),
{
    let slots = free_slots(q, max_pending);
    let r = admission(q, max_pending, max_size);
    lemma_newly_pending_none(q);
    lemma_admit(q, nothing_sent(q), 0, slots, max_size);
    lemma_pending_names(q, Seq::empty());
    lemma_admit_names(nothing_sent(q), 0, slots, max_size);
    let k = lemma_admit_end(nothing_sent(q), 0, slots, max_size);
    let again = nothing_sent(r.queue);
    let slots_again = free_slots(r.queue, max_pending);
    lemma_pending_names(r.queue, Seq::empty());
    r.names.unique_seq_to_set();
    again.names.unique_seq_to_set();
    assert forall|n: Seq<char>| r.names.to_set().contains(n) <==> again.names.to_set().contains(
        n,
    ) by {
        assert(r.names.contains(n) <==> pending_names(r.queue).contains(n));
    }
    assert(r.names.to_set() =~= again.names.to_set());
    if r.sent.len() >= slots {
        lemma_admit_nothing(again, 0, 0, slots_again, max_size);
    } else {
        if k < r.queue.len() {
            let name = r.queue[k].request.name;
            assert(r.names.contains(name) <==> again.names.contains(name));
            assert(is_stopped(again, k, slots_again, max_size));
        }
        lemma_admit_nothing(again, 0, k, slots_again, max_size);
    }
}

/// What becomes pending are requests of the queue, in its order.
proof fn lemma_newly_pending_index(
    before: Seq<OutgoingRequestView>,
    after: Seq<OutgoingRequestView>,
    j: int,
) -> (k: int)
    requires
        before.len() == after.len(),
        0 <= j < newly_pending(before, after).len(),
    ensures
        0 <= k < before.len(),
        newly_pending(before, after)[j] == before[k].request,
        !before[k].pending && after[k].pending,
    decreases before.len(),
{
    let rest = newly_pending(before.drop_last(), after.drop_last());
    if j == rest.len() {
        before.len() - 1
    } else {
        lemma_newly_pending_index(before.drop_last(), after.drop_last(), j)
    }
}

proof fn lemma_newly_pending_sorted(
    before: Seq<OutgoingRequestView>,
    after: Seq<OutgoingRequestView>,
)
    requires
        before.len() == after.len(),
        well_ordered(before),
    ensures
        ({
            let sent = newly_pending(before, after);
            forall|i: int, j: int|
                0 <= i < j < sent.len() ==> request_order(#[trigger] sent[i], #[trigger] sent[j]) < 0
        }),
    decreases before.len(),
{
    if before.len() > 0 {
        let (b, a) = (before.drop_last(), after.drop_last());
        let rest = newly_pending(b, a);
        let sent = newly_pending(before, after);
        lemma_newly_pending_sorted(b, a);
        assert forall|i: int, j: int| 0 <= i < j < sent.len() implies request_order(
            #[trigger] sent[i],
            #[trigger] sent[j],
        ) < 0 by {
            if j == rest.len() {
                let k = lemma_newly_pending_index(b, a, i);
                assert(sent[i] == before[k].request);
                assert(sent[j] == before[before.len() - 1].request);
            } else {
                assert(sent[i] == rest[i] && sent[j] == rest[j]);
            }
        }
    }
}

/// The requests that are sent are in order, and no two of them are the same.
pub proof fn law_sent_in_order(q: Seq<OutgoingRequestView>, max_pending: nat, max_size: nat)
    requires
        well_ordered(q),
    ensures
        ({
            let sent = admission(q, max_pending, max_size).sent;
            forall|i: int, j: int|
                0 <= i < j < sent.len() ==> request_order(#[trigger] sent[i], #[trigger] sent[j]) < 0
                    && !same_request(sent[i], sent[j])
        }),
{
    law_limits_kept(q, max_pending, max_size);
    let r = admission(q, max_pending, max_size);
    lemma_newly_pending_sorted(q, r.queue);
    assert forall|i: int, j: int| 0 <= i < j < r.sent.len() implies !same_request(
        #[trigger] r.sent[i],
        #[trigger] r.sent[j],
    ) by {
        lemma_request_order_antisymmetric(r.sent[i], r.sent[j]);
    }
}

/// No two requests at different positions are the same.
proof fn lemma_all_differ(q: Seq<OutgoingRequestView>, i: int, j: int)
    requires
        well_ordered(q),
        0 <= i < q.len(),
        0 <= j < q.len(),
        i != j,
    ensures
        !same_request(q[i].request, q[j].request),
        !same_request(q[j].request, q[i].request),
        q[i].id != q[j].id,
{
    lemma_request_order_antisymmetric(q[i].request, q[j].request);
    lemma_request_order_antisymmetric(q[j].request, q[i].request);
    if i < j {
        assert(request_order(q[i].request, q[j].request) < 0 && q[i].id != q[j].id);
    } else {
        assert(request_order(q[j].request, q[i].request) < 0 && q[j].id != q[i].id);
    }
}

/// A request that was taken out of the queue is not found any more, and all others are
/// as before; its slot and its bytes are free, and it can be put in again, under any
/// id that no other request has.
pub proof fn law_removed_can_return(
    q: Seq<OutgoingRequestView>,
    i: int,
    r: RequestView,
    other: i32,
)
    requires
        well_ordered(q),
        0 <= i < q.len(),
        q[i].pending,
        same_request(q[i].request, r),
    ensures
        ({
            let after = q.remove(i);
            &&& forall|j: int| !is_at(after, q[i].id, j)
            &&& other != q[i].id ==> forall|j: int|
                is_at(q, other, j) ==> exists|k: int|
                    is_at(after, other, k) && #[trigger] after[k] == q[j]
            &&& other != q[i].id ==> forall|k: int|
                is_at(after, other, k) ==> exists|j: int|
                    is_at(q, other, j) && #[trigger] q[j] == after[k]
            &&& pending_count(after) == pending_count(q) - 1
            &&& pending_size(after) == pending_size(q) - size_of_request(r)
            &&& !has_same(after, r)
        }),
{
    let after = q.remove(i);
    lemma_pending_remove(q, i);
    assert forall|j: int| 0 <= j < after.len() implies (#[trigger] after[j]).id != q[i].id
        && !same_request(after[j].request, r) by {
        let k = if j < i {
            j
        } else {
            j + 1
        };
        assert(after[j] == q[k]);
        lemma_all_differ(q, i, k);
    }
    if other != q[i].id {
        assert forall|j: int| is_at(q, other, j) implies exists|k: int|
            is_at(after, other, k) && #[trigger] after[k] == q[j] by {
            let k = if j < i {
                j
            } else {
                j - 1
            };
            assert(after[k] == q[j]);
        }
        assert forall|k: int| is_at(after, other, k) implies exists|j: int|
            is_at(q, other, j) && #[trigger] q[j] == after[k] by {
            let j = if k < i {
                k
            } else {
                k + 1
            };
            assert(q[j] == after[k]);
        }
    }
}

/// The recent requests are those of the queue that are recent.
pub proof fn lemma_recent(q: Seq<OutgoingRequestView>, now: u64, e: OutgoingRequestView)
    ensures
        recent(q, now).contains(e) <==> q.contains(e) && is_recent(e.created, now),
    decreases q.len(),
{
    if q.len() > 0 {
        let p = q.drop_last();
        lemma_recent(p, now, e);
        let r = recent(p, now);
        if p.contains(e) {
            let i = choose|i: int| 0 <= i < p.len() && p[i] == e;
            assert(q[i] == e);
        }
        if q.contains(e) {
            let i = choose|i: int| 0 <= i < q.len() && q[i] == e;
            if i < p.len() {
                assert(p[i] == e);
            }
        }
        if q.last() == e {
            assert(q[q.len() - 1] == e);
        }
        if is_recent(q.last().created, now) {
            let n = r.push(q.last());
            assert(n[r.len() as int] == q.last());
            if r.contains(e) {
                let i = choose|i: int| 0 <= i < r.len() && r[i] == e;
                assert(n[i] == e);
            }
            if n.contains(e) {
                let i = choose|i: int| 0 <= i < n.len() && n[i] == e;
                if i < r.len() {
                    assert(r[i] == e);
                }
            }
        }
    }
}

/// A request that has been in the queue for more than the longest time is not found
/// any more and can be put in again; any other stays as it is.
pub proof fn law_old_requests_go(q: Seq<OutgoingRequestView>, now: u64, i: int)
    requires
        well_ordered(q),
        0 <= i < q.len(),
    ensures
        if now - q[i].created > MAX_TIME_IN_QUEUE {
            &&& forall|j: int| !is_at(recent(q, now), q[i].id, j)
            &&& !has_same(recent(q, now), q[i].request)
        } else {
            exists|j: int| is_at(recent(q, now), q[i].id, j) && #[trigger] recent(q, now)[j] == q[i]
        },
{
    let after = recent(q, now);
    assert(q.contains(q[i]));
    lemma_recent(q, now, q[i]);
    if is_recent(q[i].created, now) {
        let j = choose|j: int| 0 <= j < after.len() && after[j] == q[i];
        assert(is_at(after, q[i].id, j) && after[j] == q[i]);
    } else {
        assert forall|j: int| 0 <= j < after.len() implies (#[trigger] after[j]).id != q[i].id
            && !same_request(after[j].request, q[i].request) by {
            assert(after.contains(after[j]));
            lemma_recent(q, now, after[j]);
            let k = choose|k: int| 0 <= k < q.len() && q[k] == after[j];
            lemma_all_differ(q, i, k);
        }
    }
}

/// A request that is put in is found by its id, and those that were there stay there.
pub proof fn law_inserted_is_found(
    q: Seq<OutgoingRequestView>,
    id: i32,
    r: RequestView,
    now: u64,
    other: i32,
    j: int,
)
    requires
        !has_same(q, r),
    ensures
        ({
            let after = with_request(q, id, r, now);
            let i = place_of(q, r) as int;
            &&& is_at(after, id, i)
            &&& after[i].request == r
            &&& after.remove(i) == q
            &&& is_at(q, other, j) ==> exists|k: int|
                is_at(after, other, k) && #[trigger] after[k] == q[j]
        }),
{
    lemma_place_within(q, r);
    let after = with_request(q, id, r, now);
    let i = place_of(q, r) as int;
    assert(after.remove(i) =~= q);
    if is_at(q, other, j) {
        let k = if j < i {
            j
        } else {
            j + 1
        };
        assert(after[k] == q[j]);
    }
}

pub proof fn lemma_place_within(q: Seq<OutgoingRequestView>, r: RequestView)
    ensures
        place_of(q, r) <= q.len(),
    decreases q.len(),
{
    if q.len() > 0 && request_order(q[0].request, r) < 0 {
        lemma_place_within(q.skip(1), r);
    }
}

} // verus!
