//! What is done about a message.

use vstd::prelude::*;
use crate::bep_data_parser::CompleteMessageView;
use crate::bep_processor;
use crate::bep_processor::{
    BepProcessorErrorView, BepProcessorView, IndexAction, IndexFlowError, IndexFlowView, IndexReply,
    IndexStage, ResponseAction, ResponseReply, ResponseStage, Side, Task,
};
use crate::bep_state;
use crate::bep_state::BepStateView;
use crate::config::StorageStrategy;
use crate::device_id;
use crate::outgoing_requests;
use crate::outgoing_requests::OutgoingRequestView;
use crate::statements::{Query, StatementView, ValueView};
use crate::syncthing::FolderView;
use crate::types::{GrizolEventView, UploadStatus};

verus! {

// ---------------------------------------------------------------------------
// The data of a response

/// The reply leads from one stage to another.
pub open spec fn leads_to(
    from: ResponseStage,
    strategy: StorageStrategy,
    reply: ResponseReply,
    to: ResponseStage,
) -> bool {
    bep_processor::next_stage(from, strategy, reply) == Some(to)
}

/// The data of a response is written, and the database is told. Where blocks are missing or
/// the file is kept on this device alone, that is all. Otherwise the file is copied and the
/// database is told where it is; where it is not kept on this device, it is then told so, and
/// the file is removed, in this order. In the end the request is forgotten.
pub proof fn law_way_of_a_response(
    strategy: StorageStrategy,
    size: i64,
    locations: Vec<(String, String)>,
)
    requires
        size >= 0,
    ensures
        ({
            let did = ResponseReply::Did(Ok(()));
            let all = ResponseReply::Status(Ok(UploadStatus::AllBlocks));
            let missing = ResponseReply::Status(Ok(UploadStatus::BlocksMissing));
            let copied = ResponseReply::Copied(Ok(locations));
            &&& leads_to(
                ResponseStage::Sizing,
                strategy,
                ResponseReply::FileSize(Some(size)),
                ResponseStage::Storing,
            )
            &&& leads_to(ResponseStage::Storing, strategy, did, ResponseStage::Marking)
            &&& leads_to(ResponseStage::Marking, strategy, missing, ResponseStage::Forgetting)
            &&& strategy is Local ==> leads_to(
                ResponseStage::Marking,
                strategy,
                all,
                ResponseStage::Forgetting,
            )
            &&& !(strategy is Local) ==> leads_to(
                ResponseStage::Marking,
                strategy,
                all,
                ResponseStage::Copying,
            )
            &&& leads_to(ResponseStage::Copying, strategy, copied, ResponseStage::Locating)
            &&& strategy is Remote ==> leads_to(
                ResponseStage::Locating,
                strategy,
                did,
                ResponseStage::Unlocating,
            )
            &&& !(strategy is Remote) ==> leads_to(
                ResponseStage::Locating,
                strategy,
                did,
                ResponseStage::Forgetting,
            )
            &&& leads_to(ResponseStage::Unlocating, strategy, did, ResponseStage::Removing)
            &&& leads_to(ResponseStage::Removing, strategy, did, ResponseStage::Forgetting)
            &&& leads_to(ResponseStage::Forgetting, strategy, did, ResponseStage::Done)
        }),
{
}

/// What is done at each stage: the block is written into a file of the size that was looked
/// up, and the database is told of the places that the file was copied to.
pub proof fn law_what_is_done(
    stage: ResponseStage,
    strategy: StorageStrategy,
    reply: ResponseReply,
    action: ResponseAction,
)
    requires
        bep_processor::fits(stage, reply),
        bep_processor::next_stage(stage, strategy, reply) is Some,
        bep_processor::is_action(
            bep_processor::next_stage(stage, strategy, reply)->0,
            reply,
            action,
        ),
    ensures
        action is StoreBlock <==> stage == ResponseStage::Sizing,
        action matches ResponseAction::StoreBlock(n) ==> reply
            == ResponseReply::FileSize(Some(n as i64)) && n <= i64::MAX,
        action is MarkBlock <==> stage == ResponseStage::Storing,
        action is WriteLocations <==> stage == ResponseStage::Copying,
        action matches ResponseAction::WriteLocations(l) ==> reply == ResponseReply::Copied(Ok(l)),
        action is CopyToRemote ==> stage == ResponseStage::Marking && !(strategy is Local) && reply
            == ResponseReply::Status(Ok(UploadStatus::AllBlocks)),
        action is ForgetLocalLocation ==> stage == ResponseStage::Locating && strategy is Remote,
        action is RemoveLocalFile <==> stage == ResponseStage::Unlocating,
        action is Finish <==> stage == ResponseStage::Forgetting,
        action is ForgetRequest ==> stage == ResponseStage::Marking || stage
            == ResponseStage::Locating || stage == ResponseStage::Removing,
        !(action is Fail),
{
}

/// Dealing with a response fails exactly where something that was asked for failed, or the
/// file is not in the index; the error says why.
pub proof fn law_response_fails(
    stage: ResponseStage,
    strategy: StorageStrategy,
    name: Seq<char>,
    reply: ResponseReply,
)
    requires
        bep_processor::fits(stage, reply),
    ensures
        ({
            let e = bep_processor::failure(stage, name, reply);
            let failed = bep_processor::next_stage(stage, strategy, reply) is None;
            &&& failed <==> match reply {
                ResponseReply::FileSize(size) => size is None || size->0 < 0,
                ResponseReply::Did(r) => r is Err,
                ResponseReply::Status(r) => r is Err,
                ResponseReply::Copied(r) => r is Err,
            }
            &&& failed ==> match reply {
                ResponseReply::FileSize(size) => size is None ==> e is FileNotInIndex,
                ResponseReply::Did(r) => if stage == ResponseStage::Storing || stage
                    == ResponseStage::Removing {
                    e == BepProcessorErrorView::StorageError(r->Err_0@)
                } else {
                    e == BepProcessorErrorView::StateError(r->Err_0@)
                },
                ResponseReply::Status(r) => e == BepProcessorErrorView::StateError(r->Err_0@),
                ResponseReply::Copied(r) => e == BepProcessorErrorView::StorageError(r->Err_0@),
            }
        }),
{
}

/// When a request has been answered and is pending, it leaves the queue. No other does, and
/// one that is not pending stays.
pub proof fn law_answered_request_leaves(
    before: Seq<OutgoingRequestView>,
    id: i32,
    after: Seq<OutgoingRequestView>,
    e: OutgoingRequestView,
)
    requires
        bep_processor::is_answered(before, id, after),
        forall|i: int, j: int|
            0 <= i < j < before.len() ==> (#[trigger] before[i]).id != (#[trigger] before[j]).id,
    ensures
        after.contains(e) <==> before.contains(e) && !(e.id == id && e.pending),
{
    if exists|i: int|
        outgoing_requests::is_at(before, id, i) && before[i].pending && after
            == #[trigger] before.remove(i) {
        let i = choose|i: int|
            outgoing_requests::is_at(before, id, i) && before[i].pending && after
                == #[trigger] before.remove(i);
        if after.contains(e) {
            let k = choose|k: int| 0 <= k < after.len() && after[k] == e;
            if k < i {
                assert(before[k] == e);
                assert(before[k].id != before[i].id);
            } else {
                assert(before[k + 1] == e);
                assert(before[i].id != before[k + 1].id);
            }
        }
        if before.contains(e) && !(e.id == id && e.pending) {
            let k = choose|k: int| 0 <= k < before.len() && before[k] == e;
            assert(k != i);
            if k < i {
                assert(after[k] == e);
            } else {
                assert(after[k - 1] == e);
            }
        }
    } else if before.contains(e) && e.id == id {
        let k = choose|k: int| 0 <= k < before.len() && before[k] == e;
        assert(outgoing_requests::is_at(before, id, k));
    }
}

// ---------------------------------------------------------------------------
// Indices

/// An index that was received takes the place of the one of the peer at once; an update is
/// first compared with it. Files are taken over from the peer into the index of this device,
/// never the other way round.
pub proof fn law_way_of_an_index(
    before: IndexFlowView,
    reply: IndexReply,
    after: IndexFlowView,
    action: Result<IndexAction, IndexFlowError>,
)
    requires
        bep_processor::index_fits(before, reply),
        bep_processor::is_index_step(before, reply, after, action),
    ensures
        action matches Ok(IndexAction::ReplaceClientIndex) ==> before.stage == IndexStage::Start
            && !before.is_update,
        before.stage == IndexStage::Start ==> (before.is_update <==> (action matches Ok(a) && a
            == IndexAction::ReadIndex(Side::Client))),
        action matches Ok(IndexAction::InsertFiles(side, _)) ==> side == Side::Local
            && !before.is_update && before.stage == IndexStage::ReadingLocal,
        action matches Ok(IndexAction::ReplaceFiles(side, _)) ==> before.is_update
            || before.stage != IndexStage::ReadingLocal,
        action matches Ok(IndexAction::ReplaceFiles(side, _)) ==> (side == Side::Client
            <==> before.stage == IndexStage::ReadingClient),
        action matches Ok(IndexAction::RequestBlocks) ==> before.stage == IndexStage::WritingLocal,
        action matches Ok(IndexAction::ReadIndex(side)) ==> (side == Side::Local <==> before.stage
            == IndexStage::WritingClient),
        action == Err::<IndexAction, IndexFlowError>(IndexFlowError::NoIndex) <==> reply
            == IndexReply::Read(None),
        after.is_update == before.is_update,
{
}

// ---------------------------------------------------------------------------
// What is shared

/// A folder is shared with a device if the device is one of its devices.
pub open spec fn is_shared(f: FolderView, device: Seq<u8>) -> bool {
    exists|k: int| 0 <= k < f.devices.len() && (#[trigger] f.devices[k]).id == device
}

/// The folders that are shared with a device are those that list it.
pub proof fn law_shared_folders(fs: Seq<FolderView>, device: Seq<u8>, folder: Seq<char>)
    ensures
        bep_processor::shared_with(fs, device).contains(folder) <==> exists|i: int|
            0 <= i < fs.len() && (#[trigger] fs[i]).id == folder && is_shared(fs[i], device),
        bep_processor::shared_with(fs, device).len() <= fs.len(),
        (forall|i: int| 0 <= i < fs.len() ==> is_shared(#[trigger] fs[i], device)) ==> {
            let shared = bep_processor::shared_with(fs, device);
            &&& shared.len() == fs.len()
            &&& forall|i: int| 0 <= i < fs.len() ==> #[trigger] shared[i] == fs[i].id
        },
    decreases fs.len(),
{
    let shared = bep_processor::shared_with(fs, device);
    if fs.len() > 0 {
        let front = fs.drop_last();
        let n: int = fs.len() - 1;
        law_shared_folders(front, device, folder);
        assert(forall|i: int| 0 <= i < n ==> front[i] == fs[i]);
        assert(fs[n] == fs.last());
        assert(bep_processor::shares(fs[n], device) == is_shared(fs[n], device));
        let old_shared = bep_processor::shared_with(front, device);
        if shared.contains(folder) {
            let k = choose|k: int| 0 <= k < shared.len() && shared[k] == folder;
            if k < old_shared.len() {
                assert(old_shared[k] == folder);
                assert(old_shared.contains(folder));
                let i = choose|i: int|
                    0 <= i < front.len() && (#[trigger] front[i]).id == folder && is_shared(
                        front[i],
                        device,
                    );
                assert(fs[i].id == folder);
            } else {
                assert(fs[n].id == folder);
            }
        }
        if exists|i: int|
            0 <= i < fs.len() && (#[trigger] fs[i]).id == folder && is_shared(fs[i], device) {
            let i = choose|i: int|
                0 <= i < fs.len() && (#[trigger] fs[i]).id == folder && is_shared(fs[i], device);
            if i < n {
                assert(front[i].id == folder);
                let k = choose|k: int| 0 <= k < old_shared.len() && old_shared[k] == folder;
                assert(shared[k] == folder);
            } else {
                assert(shared[old_shared.len() as int] == folder);
            }
        }
        if forall|i: int| 0 <= i < fs.len() ==> is_shared(#[trigger] fs[i], device) {
            assert forall|i: int| 0 <= i < front.len() implies is_shared(
                #[trigger] front[i],
                device,
            ) by {
                assert(is_shared(fs[i], device));
            }
            assert(is_shared(fs[n], device));
            assert(forall|i: int| 0 <= i < n ==> shared[i] == old_shared[i]);
        }
    }
}

/// For each folder that is shared an index is set up for the peer and one for this device,
/// and no others are.
pub proof fn law_indices_set_up(
    folders: Seq<Seq<char>>,
    client: Seq<u8>,
    local: Seq<u8>,
    s: StatementView,
)
    ensures
        bep_processor::init_statements(folders, client, local).contains(s) <==> exists|i: int|
            0 <= i < folders.len() && (s == index_set_up(#[trigger] folders[i], client) || s
                == index_set_up(folders[i], local)),
        bep_processor::init_statements(folders, client, local).len() == 2 * folders.len(),
    decreases folders.len(),
{
    let ss = bep_processor::init_statements(folders, client, local);
    if folders.len() > 0 {
        let front = folders.drop_last();
        let n: int = folders.len() - 1;
        law_indices_set_up(front, client, local, s);
        assert(forall|i: int| 0 <= i < n ==> front[i] == folders[i]);
        assert(folders[n] == folders.last());
        let old_ss = bep_processor::init_statements(front, client, local);
        assert(bep_state::init_index_statement(folders[n], client).values =~= index_set_up(
            folders[n],
            client,
        ).values);
        assert(bep_state::init_index_statement(folders[n], local).values =~= index_set_up(
            folders[n],
            local,
        ).values);
        assert(ss[ss.len() - 2] == index_set_up(folders[n], client));
        assert(ss[ss.len() - 1] == index_set_up(folders[n], local));
        if ss.contains(s) {
            let k = choose|k: int| 0 <= k < ss.len() && ss[k] == s;
            if k < old_ss.len() {
                assert(old_ss[k] == s);
                assert(old_ss.contains(s));
                let i = choose|i: int|
                    0 <= i < front.len() && (s == index_set_up(#[trigger] front[i], client) || s
                        == index_set_up(front[i], local));
                assert(folders[i] == front[i]);
            }
        }
        if exists|i: int|
            0 <= i < folders.len() && (s == index_set_up(#[trigger] folders[i], client) || s
                == index_set_up(folders[i], local)) {
            let i = choose|i: int|
                0 <= i < folders.len() && (s == index_set_up(#[trigger] folders[i], client) || s
                    == index_set_up(folders[i], local));
            if i < n {
                assert(front[i] == folders[i]);
                let k = choose|k: int| 0 <= k < old_ss.len() && old_ss[k] == s;
                assert(ss[k] == s);
            }
        }
    }
}

/// The index of a device in a folder is set up.
pub open spec fn index_set_up(folder: Seq<char>, device: Seq<u8>) -> StatementView {
    StatementView {
        query: Query::InitIndex,
        values: seq![
            ValueView::Text(device_id::text_of_id(device)),
            ValueView::Text(folder),
        ],
    }
}

// ---------------------------------------------------------------------------
// Tasks

/// What a message is answered with: a hello with one that names this device, a cluster config
/// with what is shared, an index with the blocks that are missing, a response with the storing
/// of its data. A ping, a close and a request are not answered.
pub proof fn law_tasks(
    v: BepProcessorView,
    state: BepStateView,
    message: CompleteMessageView,
    client: Seq<u8>,
    client_name: Seq<char>,
    client_version: Seq<char>,
    task: Task,
)
    requires
        bep_processor::is_task(v, state, message, client, client_name, client_version, task),
    ensures
        message is ClusterConfig <==> task is Share,
        message is Response <==> task is Store,
        message is Index || message is IndexUpdate <==> task is TakeIndex,
        message is DownloadProgress <==> task is Unsupported,
        message is Hello ==> {
            &&& (task->Reply_0)@.len() == 1
            &&& (task->Reply_0)@[0]@ matches GrizolEventView::Message(m)
            &&& m matches CompleteMessageView::Hello(h)
            &&& h.device_name == v.name
            &&& h.client_name == client_name
            &&& h.client_version == client_version
        },
        message is Ping || message is Close || message is Request ==> (task->Reply_0)@.len() == 0,
        message matches CompleteMessageView::Index(i) ==> {
            let flow = (task->TakeIndex_0)@;
            !flow.is_update && flow.received == i && flow.stage == IndexStage::Start
        },
        message matches CompleteMessageView::IndexUpdate(i) ==> {
            let flow = (task->TakeIndex_0)@;
            flow.is_update && flow.received.folder == i.folder && flow.received.files == i.files
                && flow.stage == IndexStage::Start
        },
        message matches CompleteMessageView::Response(r) ==> {
            let stored = r.code == 0 && state.requests.dom().contains(r.id)
                && device_id::sha256_of(r.data) == state.requests[r.id].hash;
            &&& stored <==> task->Store_0 is Ok
            &&& stored ==> {
                let (request, flow) = task->Store_0->Ok_0;
                &&& request@ == state.requests[r.id]
                &&& flow.stage() == ResponseStage::Sizing
                &&& flow.strategy() == v.storage_strategy
                &&& flow.name() == request@.name
            }
        },
{
    if message is Hello {
        let events = task->Reply_0;
        assert(crate::views(events@).len() == 1);
        assert(crate::views(events@)[0] == events@[0]@);
    }
}

} // verus!
