//! Which blocks are asked for, and what becomes of the answers.

use vstd::prelude::*;
use crate::bep_processor;
use crate::bep_processor::{BepProcessorErrorView, ResponseStage};
use crate::bep_state;
use crate::bep_state::{BepStateView, BlockInfoExtView};
use crate::outgoing_requests;
use crate::outgoing_requests::OutgoingRequestView;
use crate::syncthing::{RequestView, ResponseView};

verus! {

/// The request asks for the block.
pub open spec fn asks_for(r: RequestView, b: BlockInfoExtView) -> bool {
    &&& r.folder == b.folder
    &&& r.name == b.name
    &&& r.offset == b.offset
    &&& r.size == b.size
    &&& r.hash == b.hash
    &&& !r.from_temporary
}

/// There is a request for each block, in order, and each asks for its block: for the same part
/// of the same file in the same folder. They are given numbers in turn, so that no two have the
/// same one.
pub proof fn law_requests_ask_for_their_blocks(base: i32, blocks: Seq<BlockInfoExtView>)
    requires
        base + blocks.len() <= i32::MAX,
    ensures
        ({
            let rs = bep_processor::requests_for(base, blocks);
            &&& rs.len() == blocks.len()
            &&& forall|i: int|
                0 <= i < rs.len() ==> {
                    &&& (#[trigger] rs[i]).folder == blocks[i].folder
                    &&& rs[i].name == blocks[i].name
                    &&& rs[i].offset == blocks[i].offset
                    &&& rs[i].size == blocks[i].size
                    &&& rs[i].hash == blocks[i].hash
                    &&& !rs[i].from_temporary
                    &&& rs[i].id == base + i + 1
                }
        }),
{
}

/// The entry of a request that has just been put into the queue.
pub open spec fn entry_of(r: RequestView, now: u64) -> OutgoingRequestView {
    OutgoingRequestView { request: r, id: r.id, created: now, pending: false }
}

/// The entry asks for what the request asks for.
pub open spec fn is_for(e: OutgoingRequestView, r: RequestView) -> bool {
    &&& e.request.folder == r.folder
    &&& e.request.name == r.name
    &&& e.request.offset == r.offset
    &&& e.request.size == r.size
    &&& e.request.hash == r.hash
    &&& e.request.from_temporary == r.from_temporary
}

/// A request is put into the queue, not pending, where none of those in it asks for the same
/// part of the same file; otherwise the queue stays as it is. Nothing leaves the queue.
pub proof fn law_request_put_in(
    q: Seq<OutgoingRequestView>,
    id: i32,
    r: RequestView,
    now: u64,
    e: OutgoingRequestView,
)
    ensures
        ({
            let after = outgoing_requests::with_request(q, id, r, now);
            let known = exists|i: int| 0 <= i < q.len() && is_for(#[trigger] q[i], r);
            let new = OutgoingRequestView { request: r, id, created: now, pending: false };
            &&& known <==> outgoing_requests::has_same(q, r)
            &&& known ==> after == q
            &&& !known ==> after.len() == q.len() + 1
            &&& !known ==> (after.contains(e) <==> q.contains(e) || e == new)
        }),
{
    let after = outgoing_requests::with_request(q, id, r, now);
    if exists|i: int| 0 <= i < q.len() && is_for(#[trigger] q[i], r) {
        let i = choose|i: int| 0 <= i < q.len() && is_for(#[trigger] q[i], r);
        assert(outgoing_requests::same_request(q[i].request, r));
    }
    if outgoing_requests::has_same(q, r) {
        let i = choose|i: int|
            0 <= i < q.len() && outgoing_requests::same_request((#[trigger] q[i]).request, r);
        assert(is_for(q[i], r));
    } else {
        outgoing_requests::lemma_place_within(q, r);
        let p = outgoing_requests::place_of(q, r) as int;
        let new = OutgoingRequestView { request: r, id, created: now, pending: false };
        assert(after[p] == new);
        if q.contains(e) {
            let i = choose|i: int| 0 <= i < q.len() && q[i] == e;
            if i < p {
                assert(after[i] == e);
            } else {
                assert(after[i + 1] == e);
            }
        }
        if after.contains(e) {
            let i = choose|i: int| 0 <= i < after.len() && after[i] == e;
            if i < p {
                assert(q[i] == e);
            } else if i > p {
                assert(q[i - 1] == e);
            }
        }
    }
}

proof fn lemma_enqueued(q: Seq<OutgoingRequestView>, rs: Seq<RequestView>, now: u64)
    ensures
        ({
            let after = bep_processor::enqueued(q, rs, now);
            &&& forall|e: OutgoingRequestView| q.contains(e) ==> #[trigger] after.0.contains(e)
            &&& forall|i: int|
                0 <= i < rs.len() ==> outgoing_requests::has_same(after.0, #[trigger] rs[i])
            &&& forall|e: OutgoingRequestView| #[trigger]
                after.0.contains(e) ==> q.contains(e) || after.1.contains(e.request) && e
                    == entry_of(e.request, now)
            &&& forall|r: RequestView| #[trigger]
                after.1.contains(r) ==> rs.contains(r) && after.0.contains(entry_of(r, now))
            &&& after.0.len() == q.len() + after.1.len()
        }),
    decreases rs.len(),
{
    let after = bep_processor::enqueued(q, rs, now);
    if rs.len() > 0 {
        let front = rs.drop_last();
        let before = bep_processor::enqueued(q, front, now);
        let r = rs.last();
        lemma_enqueued(q, front, now);
        assert forall|e: OutgoingRequestView| #[trigger] after.0.contains(e) <==> before.0.contains(
            e,
        ) || !outgoing_requests::has_same(before.0, r) && e == entry_of(r, now) by {
            law_request_put_in(before.0, r.id, r, now, e);
        }
        law_request_put_in(before.0, r.id, r, now, entry_of(r, now));
        assert forall|i: int| 0 <= i < rs.len() implies outgoing_requests::has_same(
            after.0,
            #[trigger] rs[i],
        ) by {
            if i < front.len() {
                assert(front[i] == rs[i]);
                let k = choose|k: int|
                    0 <= k < before.0.len() && outgoing_requests::same_request(
                        (#[trigger] before.0[k]).request,
                        rs[i],
                    );
                assert(before.0.contains(before.0[k]));
                assert(after.0.contains(before.0[k]));
                let l = choose|l: int| 0 <= l < after.0.len() && after.0[l] == before.0[k];
                assert(outgoing_requests::same_request(after.0[l].request, rs[i]));
            } else if !outgoing_requests::has_same(before.0, r) {
                assert(after.0.contains(entry_of(r, now)));
                let l = choose|l: int| 0 <= l < after.0.len() && after.0[l] == entry_of(r, now);
                assert(outgoing_requests::same_request(after.0[l].request, r));
            }
        }
        assert forall|x: RequestView| #[trigger] after.1.contains(x) implies rs.contains(x)
            && after.0.contains(entry_of(x, now)) by {
            let k = choose|k: int| 0 <= k < after.1.len() && after.1[k] == x;
            if k < before.1.len() {
                assert(before.1[k] == x);
                assert(before.1.contains(x));
                let l = choose|l: int| 0 <= l < front.len() && front[l] == x;
                assert(rs[l] == x);
                assert(before.0.contains(entry_of(x, now)));
            } else {
                assert(rs[rs.len() - 1] == x);
            }
        }
        assert forall|e: OutgoingRequestView| #[trigger] after.0.contains(e) implies q.contains(e)
            || after.1.contains(e.request) && e == entry_of(e.request, now) by {
            if before.0.contains(e) {
                if !q.contains(e) {
                    let k = choose|k: int| 0 <= k < before.1.len() && before.1[k] == e.request;
                    assert(after.1[k] == e.request);
                }
            } else {
                assert(after.1[after.1.len() - 1] == r);
            }
        }
        assert forall|e: OutgoingRequestView| q.contains(e) implies #[trigger] after.0.contains(
            e,
        ) by {
            assert(before.0.contains(e));
        }
    } else {
        assert(after.0 == q);
    }
}

proof fn lemma_requests_kept(m: Map<i32, RequestView>, rs: Seq<RequestView>, id: i32)
    requires
        forall|i: int| 0 <= i < rs.len() ==> (#[trigger] rs[i]).id != id,
    ensures
        bep_state::with_requests(m, rs).dom().contains(id) == m.dom().contains(id),
        m.dom().contains(id) ==> bep_state::with_requests(m, rs)[id] == m[id],
    decreases rs.len(),
{
    if rs.len() > 0 {
        let front = rs.drop_last();
        assert forall|i: int| 0 <= i < front.len() implies (#[trigger] front[i]).id != id by {
            assert(front[i] == rs[i]);
        }
        lemma_requests_kept(m, front, id);
        assert(rs[rs.len() - 1].id != id);
    }
}

proof fn lemma_request_found(m: Map<i32, RequestView>, rs: Seq<RequestView>, r: RequestView)
    requires
        rs.contains(r),
        forall|x: RequestView| #[trigger] rs.contains(x) && x.id == r.id ==> x == r,
    ensures
        bep_state::with_requests(m, rs).dom().contains(r.id),
        bep_state::with_requests(m, rs)[r.id] == r,
    decreases rs.len(),
{
    let front = rs.drop_last();
    assert(rs[rs.len() - 1] == rs.last());
    assert(rs.contains(rs.last()));
    if rs.last().id != r.id {
        let k = choose|k: int| 0 <= k < rs.len() && rs[k] == r;
        assert(front[k] == r);
        assert forall|x: RequestView| #[trigger] front.contains(x) && x.id == r.id implies x
            == r by {
            let i = choose|i: int| 0 <= i < front.len() && front[i] == x;
            assert(rs[i] == x);
            assert(rs.contains(x));
        }
        lemma_request_found(m, front, r);
    }
}

/// After blocks were asked for, the queue holds a request for each of them, and all that it
/// held before. What is new in it asks for one of the blocks, is not pending, and is found by
/// its number when the answer comes; what was known by other numbers still is.
pub proof fn law_blocks_asked_for(
    state: BepStateView,
    queue: Seq<OutgoingRequestView>,
    blocks: Seq<BlockInfoExtView>,
    now: u64,
    state_after: BepStateView,
    queue_after: Seq<OutgoingRequestView>,
    inserted: Seq<RequestView>,
)
    requires
        state.request_id + blocks.len() <= i32::MAX,
        bep_processor::are_requested(
            state,
            queue,
            blocks,
            now,
            state_after,
            queue_after,
            inserted,
        ),
    ensures
        forall|i: int|
            0 <= i < blocks.len() ==> exists|k: int|
                0 <= k < queue_after.len() && asks_for(
                    (#[trigger] queue_after[k]).request,
                    #[trigger] blocks[i],
                ),
        forall|e: OutgoingRequestView| queue.contains(e) ==> #[trigger] queue_after.contains(e),
        forall|e: OutgoingRequestView| #[trigger]
            queue_after.contains(e) && !queue.contains(e) ==> {
                &&& !e.pending
                &&& e.created == now
                &&& e.id == e.request.id
                &&& state.request_id < e.id <= state.request_id + blocks.len()
                &&& state_after.requests.dom().contains(e.id)
                &&& state_after.requests[e.id] == e.request
                &&& exists|i: int| 0 <= i < blocks.len() && asks_for(e.request, #[trigger] blocks[i])
            },
        forall|id: i32|
            id <= state.request_id && #[trigger] state.requests.dom().contains(id)
                ==> state_after.requests.dom().contains(id) && state_after.requests[id]
                == state.requests[id],
        state_after.request_id == state.request_id + blocks.len(),
        state_after.sequence == state.sequence,
        queue_after.len() == queue.len() + inserted.len(),
{
    let rs = bep_processor::requests_for(state.request_id, blocks);
    law_requests_ask_for_their_blocks(state.request_id, blocks);
    lemma_enqueued(queue, rs, now);
    let after = bep_processor::enqueued(queue, rs, now);
    assert forall|i: int| 0 <= i < blocks.len() implies exists|k: int|
        0 <= k < queue_after.len() && asks_for(
            (#[trigger] queue_after[k]).request,
            #[trigger] blocks[i],
        ) by {
        assert(outgoing_requests::has_same(after.0, rs[i]));
        let k = choose|k: int|
            0 <= k < after.0.len() && outgoing_requests::same_request(
                (#[trigger] after.0[k]).request,
                rs[i],
            );
        assert(asks_for(queue_after[k].request, blocks[i]));
    }
    assert forall|x: RequestView, y: RequestView| #[trigger]
        inserted.contains(x) && #[trigger] inserted.contains(y) && x.id == y.id implies x == y by {
        let i = choose|i: int| 0 <= i < rs.len() && rs[i] == x;
        let j = choose|j: int| 0 <= j < rs.len() && rs[j] == y;
        assert(rs[i].id == state.request_id + i + 1 && rs[j].id == state.request_id + j + 1);
    }
    assert forall|e: OutgoingRequestView| #[trigger]
        queue_after.contains(e) && !queue.contains(e) implies !e.pending && e.created == now
        && e.id == e.request.id && state.request_id < e.id <= state.request_id + blocks.len()
        && state_after.requests.dom().contains(e.id) && state_after.requests[e.id] == e.request
        && exists|i: int| 0 <= i < blocks.len() && asks_for(e.request, #[trigger] blocks[i]) by {
        assert(inserted.contains(e.request));
        let i = choose|i: int| 0 <= i < rs.len() && rs[i] == e.request;
        assert(rs[i].id == state.request_id + i + 1);
        assert(asks_for(e.request, blocks[i]));
        lemma_request_found(state.requests, inserted, e.request);
    }
    assert forall|id: i32|
        id <= state.request_id && #[trigger] state.requests.dom().contains(
            id,
        ) implies state_after.requests.dom().contains(id) && state_after.requests[id]
        == state.requests[id] by {
        assert forall|k: int| 0 <= k < inserted.len() implies (#[trigger] inserted[k]).id != id by {
            assert(inserted.contains(inserted[k]));
            let i = choose|i: int| 0 <= i < rs.len() && rs[i] == inserted[k];
            assert(rs[i].id == state.request_id + i + 1);
        }
        lemma_requests_kept(state.requests, inserted, id);
    }
}

/// A response is taken where it holds data for a request that was made, and the data is what
/// was asked for: it has the digest of the block. It is refused for what comes first: that it
/// reports an error, that there is no such request, or that the data is other than asked for.
pub proof fn law_response_checked(
    requests: Map<i32, RequestView>,
    response: ResponseView,
    digest: Seq<u8>,
)
    ensures
        ({
            let r = bep_processor::response_error(requests, response, digest);
            let known = requests.dom().contains(response.id);
            &&& r is None <==> response.code == 0 && known && requests[response.id].hash == digest
            &&& response.code != 0 <==> r is Some && r->0 is ErrorInResponse
            &&& response.code == 0 && !known <==> r is Some && r->0 is NoAssociatedReqeust
            &&& response.code == 0 && known && requests[response.id].hash != digest <==> r is Some
                && r->0 is WrongDataInResponse
        }),
{
}

/// The data of a block that was asked for is taken when it comes under the number of its
/// request, as that of the block, and no other data is.
pub proof fn law_data_comes_home(
    state: BepStateView,
    queue: Seq<OutgoingRequestView>,
    blocks: Seq<BlockInfoExtView>,
    now: u64,
    state_after: BepStateView,
    queue_after: Seq<OutgoingRequestView>,
    inserted: Seq<RequestView>,
    e: OutgoingRequestView,
    response: ResponseView,
    digest: Seq<u8>,
)
    requires
        state.request_id + blocks.len() <= i32::MAX,
        bep_processor::are_requested(
            state,
            queue,
            blocks,
            now,
            state_after,
            queue_after,
            inserted,
        ),
        queue_after.contains(e),
        !queue.contains(e),
        response.id == e.id,
        response.code == 0,
    ensures
        exists|i: int|
            0 <= i < blocks.len() && asks_for(
                state_after.requests[response.id],
                #[trigger] blocks[i],
            ) && (bep_processor::response_error(state_after.requests, response, digest) is None
                <==> digest == blocks[i].hash),
{
    law_blocks_asked_for(state, queue, blocks, now, state_after, queue_after, inserted);
    let i = choose|i: int| 0 <= i < blocks.len() && asks_for(e.request, #[trigger] blocks[i]);
    law_response_checked(state_after.requests, response, digest);
    assert(asks_for(state_after.requests[response.id], blocks[i]));
}

// ---------------------------------------------------------------------------
// The queue

/// How many requests are pending and how many bytes they ask for is counted one by one.
pub proof fn law_pending_counted(q: Seq<OutgoingRequestView>, e: OutgoingRequestView)
    ensures
        outgoing_requests::pending_count(Seq::empty()) == 0,
        outgoing_requests::pending_size(Seq::empty()) == 0,
        outgoing_requests::pending_count(q.push(e)) == outgoing_requests::pending_count(q) + if e.pending {
            1int
        } else {
            0int
        },
        outgoing_requests::pending_size(q.push(e)) == outgoing_requests::pending_size(q) + if e.pending {
            (e.request.size as usize) as int
        } else {
            0int
        },
{
    assert(q.push(e).drop_last() =~= q);
    assert(q.push(e).last() == e);
}

/// The request at position `k` cannot be sent while those that are pending are: as many are
/// pending as may be, or they ask for too many bytes together with it, or they are for ten
/// files, none of which it is for.
pub open spec fn is_held_back(
    q: Seq<OutgoingRequestView>,
    k: int,
    max_pending: nat,
    max_size: nat,
) -> bool {
    ||| outgoing_requests::pending_count(q) >= max_pending
    ||| outgoing_requests::pending_size(q) + (q[k].request.size as usize) > max_size
    ||| {
        &&& outgoing_requests::pending_names(q).len() >= 10
        &&& forall|i: int|
            0 <= i < q.len() && (#[trigger] q[i]).pending ==> q[i].request.name
                != q[k].request.name
    }
}

/// As many requests are sent as the limits allow, in the order of the queue: all up to the
/// first one that cannot be sent, and none from it on. What is sent is exactly what becomes
/// pending, and nothing else changes in the queue.
pub proof fn law_sent_up_to_the_limits(
    q: Seq<OutgoingRequestView>,
    max_pending: nat,
    max_size: nat,
)
    ensures
        ({
            let r = outgoing_requests::admission(q, max_pending, max_size);
            &&& r.queue.len() == q.len()
            &&& exists|k: int|
                0 <= k <= q.len() && #[trigger] is_cut(q, r.queue, k) && (k < q.len()
                    ==> is_held_back(r.queue, k, max_pending, max_size))
            &&& outgoing_requests::pending_count(r.queue) == outgoing_requests::pending_count(q)
                + r.sent.len()
        }),
{
    let r = outgoing_requests::admission(q, max_pending, max_size);
    let start = outgoing_requests::nothing_sent(q);
    let slots = outgoing_requests::free_slots(q, max_pending);
    outgoing_requests::lemma_newly_pending_none(q);
    outgoing_requests::lemma_admit(q, start, 0, slots, max_size);
    outgoing_requests::lemma_pending_names(q, Seq::empty());
    outgoing_requests::lemma_admit_names(start, 0, slots, max_size);
    let k = outgoing_requests::lemma_admit_end(start, 0, slots, max_size);
    assert(is_cut(q, r.queue, k));
    if k < q.len() {
        let name = r.queue[k].request.name;
        outgoing_requests::lemma_pending_names(r.queue, name);
        assert(r.names.contains(name) <==> outgoing_requests::pending_names(r.queue).contains(
            name,
        ));
        lemma_same_names(r.names, outgoing_requests::pending_names(r.queue));
        assert(is_held_back(r.queue, k, max_pending, max_size));
    }
}

/// All requests before position `k` are pending, and those from it on are as they were.
pub open spec fn is_cut(
    before: Seq<OutgoingRequestView>,
    after: Seq<OutgoingRequestView>,
    k: int,
) -> bool {
    &&& forall|i: int|
        0 <= i < k ==> #[trigger] after[i] == (OutgoingRequestView { pending: true, ..before[i] })
    &&& forall|i: int| k <= i < before.len() ==> #[trigger] after[i] == before[i]
}

proof fn lemma_same_names(a: Seq<Seq<char>>, b: Seq<Seq<char>>)
    requires
        a.no_duplicates(),
        b.no_duplicates(),
        forall|n: Seq<char>| #[trigger] a.contains(n) <==> b.contains(n),
    ensures
        a.len() == b.len(),
{
    a.unique_seq_to_set();
    b.unique_seq_to_set();
    assert(a.to_set() =~= b.to_set());
}

// ---------------------------------------------------------------------------
// The order of the queue

/// The first numbers are the same, up to `k`.
pub open spec fn agree_up_to(a: Seq<int>, b: Seq<int>, k: int) -> bool {
    0 <= k <= a.len() && k <= b.len() && a.take(k) == b.take(k)
}

/// `a` comes before `b`: it has the lower number where they first differ, or `b` goes on
/// where it ends.
pub open spec fn comes_before(a: Seq<int>, b: Seq<int>) -> bool {
    exists|k: int| #[trigger]
        agree_up_to(a, b, k) && k < b.len() && (k == a.len() || a[k] < b[k])
}

/// Sequences are ordered as words in a dictionary are.
pub proof fn law_order_of_sequences(a: Seq<int>, b: Seq<int>)
    ensures
        outgoing_requests::order(a, b) == -1 <==> comes_before(a, b),
        outgoing_requests::order(a, b) == 1 <==> comes_before(b, a),
        outgoing_requests::order(a, b) == 0 <==> a == b,
{
    outgoing_requests::lemma_order_antisymmetric(a, b);
    lemma_before(a, b);
    lemma_before(b, a);
    lemma_order_values(a, b);
}

proof fn lemma_order_values(a: Seq<int>, b: Seq<int>)
    ensures
        -1 <= outgoing_requests::order(a, b) <= 1,
    decreases a.len(),
{
    if a.len() > 0 && b.len() > 0 {
        lemma_order_values(a.skip(1), b.skip(1));
    }
}

proof fn lemma_before(a: Seq<int>, b: Seq<int>)
    ensures
        outgoing_requests::order(a, b) == -1 <==> comes_before(a, b),
    decreases a.len(),
{
    if b.len() > 0 && a.len() == 0 {
        assert(a.take(0) =~= b.take(0));
        assert(agree_up_to(a, b, 0));
    } else if b.len() > 0 && a[0] < b[0] {
        assert(a.take(0) =~= b.take(0));
        assert(agree_up_to(a, b, 0));
    } else if b.len() > 0 {
        let (c, d) = (a.skip(1), b.skip(1));
        lemma_before(c, d);
        if a[0] == b[0] && comes_before(c, d) {
            let k = choose|k: int| #[trigger]
                agree_up_to(c, d, k) && k < d.len() && (k == c.len() || c[k] < d[k]);
            assert forall|i: int| 0 <= i < k + 1 implies a[i] == b[i] by {
                if i > 0 {
                    assert(c.take(k)[i - 1] == d.take(k)[i - 1]);
                }
            }
            assert(a.take(k + 1) =~= b.take(k + 1));
            assert(agree_up_to(a, b, k + 1));
            if k < c.len() {
                assert(a[k + 1] == c[k] && b[k + 1] == d[k]);
            }
        }
        if comes_before(a, b) {
            let k = choose|k: int| #[trigger]
                agree_up_to(a, b, k) && k < b.len() && (k == a.len() || a[k] < b[k]);
            if k > 0 {
                assert(a.take(k)[0] == b.take(k)[0]);
                assert forall|i: int| 0 <= i < k - 1 implies c[i] == d[i] by {
                    assert(a.take(k)[i + 1] == b.take(k)[i + 1]);
                }
                assert(c.take(k - 1) =~= d.take(k - 1));
                assert(agree_up_to(c, d, k - 1));
                if k < a.len() {
                    assert(a[k] == c[k - 1] && b[k] == d[k - 1]);
                }
            }
        }
    } else if comes_before(a, b) {
        let k = choose|k: int| #[trigger]
            agree_up_to(a, b, k) && k < b.len() && (k == a.len() || a[k] < b[k]);
        assert(false);
    }
}

/// The code points of a text.
pub open spec fn code_points(s: Seq<char>) -> Seq<int> {
    Seq::new(s.len(), |i: int| s[i] as int)
}

/// The bytes as numbers.
pub open spec fn numbers(s: Seq<u8>) -> Seq<int> {
    Seq::new(s.len(), |i: int| s[i] as int)
}

/// Requests are ordered by folder, those for one folder by name, and those for one file by
/// offset.
pub proof fn law_order_of_requests(a: RequestView, b: RequestView)
    ensures
        ({
            let before = outgoing_requests::request_order(a, b) < 0;
            &&& comes_before(code_points(a.folder), code_points(b.folder)) ==> before
            &&& a.folder == b.folder && comes_before(code_points(a.name), code_points(b.name))
                ==> before
            &&& a.folder == b.folder && a.name == b.name && a.offset < b.offset ==> before
            &&& a.folder == b.folder && a.name == b.name && a.offset == b.offset && a.size < b.size
                ==> before
            &&& a.folder == b.folder && a.name == b.name && a.offset == b.offset && a.size == b.size
                && comes_before(numbers(a.hash), numbers(b.hash)) ==> before
            &&& a.folder == b.folder && a.name == b.name && a.offset == b.offset && a.size == b.size
                && a.hash == b.hash && !a.from_temporary && b.from_temporary ==> before
        }),
{
    assert(outgoing_requests::codes(a.folder) =~= code_points(a.folder));
    assert(outgoing_requests::codes(b.folder) =~= code_points(b.folder));
    assert(outgoing_requests::codes(a.name) =~= code_points(a.name));
    assert(outgoing_requests::codes(b.name) =~= code_points(b.name));
    assert(outgoing_requests::values(a.hash) =~= numbers(a.hash));
    assert(outgoing_requests::values(b.hash) =~= numbers(b.hash));
    law_order_of_sequences(code_points(a.folder), code_points(b.folder));
    law_order_of_sequences(code_points(a.name), code_points(b.name));
    law_order_of_sequences(numbers(a.hash), numbers(b.hash));
}

/// Requests stay in the queue for twelve hours.
pub proof fn law_twelve_hours(q: Seq<OutgoingRequestView>, now: u64, e: OutgoingRequestView)
    ensures
        outgoing_requests::recent(q, now).contains(e) <==> q.contains(e) && now - e.created <= 12
            * 3_600 * 1_000_000_000,
{
    outgoing_requests::lemma_recent(q, now, e);
}

} // verus!
