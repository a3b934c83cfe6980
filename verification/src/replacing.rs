//! What writing files leaves in the database of them and of other files.

use vstd::prelude::*;
use crate::bep_state;
use crate::bep_state::{FileKey, RemovalView, StorageStatus};
use crate::indices;
use crate::read_back;
use crate::read_back::{Kept, Tables};
use crate::statements;
use crate::statements::{Query, StatementView, ValueView};
use crate::syncthing::{BlockInfoView, CounterView, FileInfoView};

verus! {

// ---------------------------------------------------------------------------
// Single statements

/// The row of the block that is kept by these values: the first one that is written.
pub open spec fn block_at(key: FileKey, bs: Seq<BlockInfoView>, b: Seq<ValueView>) -> Seq<ValueView>
    decreases bs.len(),
{
    if bs.len() == 0 {
        b
    } else if read_back::has_block(key, bs.drop_last(), b) {
        block_at(key, bs.drop_last(), b)
    } else {
        read_back::block_values(key, bs.last())
    }
}

/// What is kept of a file with counters added.
pub open spec fn with_versions(k: Kept, key: FileKey, cs: Seq<CounterView>) -> Kept {
    Kept {
        versions: Set::new(
            |v: Seq<ValueView>| k.versions.contains(v) || read_back::has_version(key, cs, v),
        ),
        ..k
    }
}

/// What is kept of a file with blocks added. One that is there stays as it is.
pub open spec fn with_blocks(k: Kept, key: FileKey, bs: Seq<BlockInfoView>) -> Kept {
    Kept {
        blocks: Map::new(
            |b: Seq<ValueView>| k.blocks.dom().contains(b) || read_back::has_block(key, bs, b),
            |b: Seq<ValueView>|
                if k.blocks.dom().contains(b) {
                    k.blocks[b]
                } else {
                    block_at(key, bs, b)
                },
        ),
        ..k
    }
}

/// What is kept of a file after it was written once more: its row is the new one, and its
/// counters and blocks are added to those that are there.
pub open spec fn added(k: Kept, key: FileKey, f: FileInfoView, sequence: i64) -> Kept {
    with_blocks(
        with_versions(
            Kept {
                file: Some(bep_state::insert_file_statement(key, f, sequence).values),
                ..k
            },
            key,
            f.version->0.counters,
        ),
        key,
        f.blocks,
    )
}

proof fn lemma_keys(key: FileKey, f: FileInfoView, sequence: i64, c: CounterView, b: BlockInfoView)
    ensures
        read_back::file_key(bep_state::insert_file_statement(key, f, sequence).values) == key,
        read_back::file_key(read_back::version_values(key, c)) == key,
        read_back::block_key(read_back::block_id(read_back::block_values(key, b))) == key,
{
    let v = read_back::block_values(key, b);
    assert(read_back::block_id(v)[0] == v[0]);
    assert(read_back::block_id(v)[1] == v[1]);
    assert(read_back::block_id(v)[2] == v[2]);
}

proof fn lemma_file_added(t: Tables, key: FileKey, f: FileInfoView, sequence: i64)
    ensures
        ({
            let s = bep_state::insert_file_statement(key, f, sequence);
            let r = read_back::executed(t, s);
            &&& read_back::kept(r, key) == (Kept {
                file: Some(s.values),
                ..read_back::kept(t, key)
            })
            &&& forall|k: FileKey|
                k != key ==> #[trigger] read_back::kept(r, k) == read_back::kept(t, k)
        }),
{
    lemma_keys(key, f, sequence, arbitrary::<CounterView>(), arbitrary::<BlockInfoView>());
    let s = bep_state::insert_file_statement(key, f, sequence);
    let r = read_back::executed(t, s);
    assert(read_back::kept(r, key) =~= (Kept {
        file: Some(s.values),
        ..read_back::kept(t, key)
    }));
    assert forall|k: FileKey| k != key implies #[trigger] read_back::kept(r, k)
        == read_back::kept(t, k) by {
        assert(read_back::kept(r, k) =~= read_back::kept(t, k));
    }
}

proof fn lemma_version_added(t: Tables, key: FileKey, cs: Seq<CounterView>, start: Kept)
    requires
        cs.len() > 0,
        read_back::kept(t, key) == with_versions(start, key, cs.drop_last()),
    ensures
        ({
            let r = read_back::executed(
                t,
                bep_state::insert_version_statement(key, cs.last()),
            );
            &&& read_back::kept(r, key) == with_versions(start, key, cs)
            &&& forall|k: FileKey|
                k != key ==> #[trigger] read_back::kept(r, k) == read_back::kept(t, k)
        }),
{
    let c = cs.last();
    let front = cs.drop_last();
    let r = read_back::executed(t, bep_state::insert_version_statement(key, c));
    let new = read_back::version_values(key, c);
    lemma_keys(key, arbitrary::<FileInfoView>(), 0, c, arbitrary::<BlockInfoView>());
    let a = read_back::kept(r, key);
    let b = with_versions(start, key, cs);
    assert forall|v: Seq<ValueView>| a.versions.contains(v) == b.versions.contains(v) by {
        assert(read_back::kept(t, key).versions.contains(v) == with_versions(
            start,
            key,
            front,
        ).versions.contains(v));
        if read_back::has_version(key, front, v) {
            let j = choose|j: int|
                0 <= j < front.len() && v == read_back::version_values(key, #[trigger] front[j]);
            assert(cs[j] == front[j]);
        }
        if read_back::has_version(key, cs, v) {
            let j = choose|j: int|
                0 <= j < cs.len() && v == read_back::version_values(key, #[trigger] cs[j]);
            if j < front.len() {
                assert(cs[j] == front[j]);
            }
        }
        if v == new {
            assert(v == read_back::version_values(key, cs[cs.len() - 1]));
        }
    }
    assert(read_back::kept(r, key).blocks =~= read_back::kept(t, key).blocks);
    assert(a =~= b);
    assert forall|k: FileKey| k != key implies #[trigger] read_back::kept(r, k)
        == read_back::kept(t, k) by {
        assert(read_back::kept(r, k) =~= read_back::kept(t, k));
    }
}

proof fn lemma_versions_added(t: Tables, key: FileKey, cs: Seq<CounterView>)
    ensures
        ({
            let r = read_back::executed_all(
                t,
                cs.map_values(|c: CounterView| bep_state::insert_version_statement(key, c)),
            );
            &&& read_back::kept(r, key) == with_versions(read_back::kept(t, key), key, cs)
            &&& forall|k: FileKey|
                k != key ==> #[trigger] read_back::kept(r, k) == read_back::kept(t, k)
        }),
    decreases cs.len(),
{
    let op = |c: CounterView| bep_state::insert_version_statement(key, c);
    let ss = cs.map_values(op);
    if cs.len() > 0 {
        let front = cs.drop_last();
        lemma_versions_added(t, key, front);
        assert(ss.drop_last() =~= front.map_values(op));
        assert(ss.last() == op(cs.last()));
        lemma_version_added(
            read_back::executed_all(t, front.map_values(op)),
            key,
            cs,
            read_back::kept(t, key),
        );
    } else {
        assert(ss =~= Seq::empty());
        assert(with_versions(read_back::kept(t, key), key, cs) =~= read_back::kept(t, key));
    }
}

proof fn lemma_block_added(t: Tables, key: FileKey, bs: Seq<BlockInfoView>, start: Kept)
    requires
        bs.len() > 0,
        read_back::kept(t, key) == with_blocks(start, key, bs.drop_last()),
    ensures
        ({
            let r = read_back::executed(t, bep_state::insert_block_statement(key, bs.last()));
            &&& read_back::kept(r, key) == with_blocks(start, key, bs)
            &&& forall|k: FileKey|
                k != key ==> #[trigger] read_back::kept(r, k) == read_back::kept(t, k)
        }),
{
    let last = bs.last();
    let front = bs.drop_last();
    let r = read_back::executed(t, bep_state::insert_block_statement(key, last));
    let new = read_back::block_values(key, last);
    let id = read_back::block_id(new);
    lemma_keys(key, arbitrary::<FileInfoView>(), 0, arbitrary::<CounterView>(), last);
    let before = read_back::kept(t, key);
    let a = read_back::kept(r, key);
    let b = with_blocks(start, key, bs);
    assert forall|x: Seq<ValueView>| #[trigger] a.blocks.dom().contains(x) == b.blocks.dom().contains(
        x,
    ) && (a.blocks.dom().contains(x) ==> a.blocks[x] == b.blocks[x]) by {
        let middle = with_blocks(start, key, front);
        assert(before.blocks.dom().contains(x) == middle.blocks.dom().contains(x));
        assert(before.blocks.dom().contains(x) ==> before.blocks[x] == middle.blocks[x]);
        if read_back::has_block(key, front, x) {
            let j = choose|j: int|
                0 <= j < front.len() && x == read_back::block_id(
                    read_back::block_values(key, #[trigger] front[j]),
                );
            assert(bs[j] == front[j]);
        }
        if read_back::has_block(key, bs, x) {
            let j = choose|j: int|
                0 <= j < bs.len() && x == read_back::block_id(
                    read_back::block_values(key, #[trigger] bs[j]),
                );
            if j < front.len() {
                assert(bs[j] == front[j]);
            }
        }
        if x == id {
            assert(x == read_back::block_id(read_back::block_values(key, bs[bs.len() - 1])));
        }
    }
    assert(a.blocks =~= b.blocks);
    assert(a.versions =~= before.versions);
    assert(a =~= b);
    assert forall|k: FileKey| k != key implies #[trigger] read_back::kept(r, k)
        == read_back::kept(t, k) by {
        assert(read_back::kept(r, k) =~= read_back::kept(t, k));
    }
}

proof fn lemma_blocks_added(t: Tables, key: FileKey, bs: Seq<BlockInfoView>)
    ensures
        ({
            let r = read_back::executed_all(
                t,
                bs.map_values(|b: BlockInfoView| bep_state::insert_block_statement(key, b)),
            );
            &&& read_back::kept(r, key) == with_blocks(read_back::kept(t, key), key, bs)
            &&& forall|k: FileKey|
                k != key ==> #[trigger] read_back::kept(r, k) == read_back::kept(t, k)
        }),
    decreases bs.len(),
{
    let op = |b: BlockInfoView| bep_state::insert_block_statement(key, b);
    let ss = bs.map_values(op);
    if bs.len() > 0 {
        let front = bs.drop_last();
        lemma_blocks_added(t, key, front);
        assert(ss.drop_last() =~= front.map_values(op));
        assert(ss.last() == op(bs.last()));
        lemma_block_added(
            read_back::executed_all(t, front.map_values(op)),
            key,
            bs,
            read_back::kept(t, key),
        );
    } else {
        assert(ss =~= Seq::empty());
        assert(with_blocks(read_back::kept(t, key), key, bs) =~= read_back::kept(t, key));
    }
}

/// Writing a file touches what is kept of it alone.
proof fn lemma_file_written(t: Tables, key: FileKey, f: FileInfoView, sequence: i64)
    ensures
        ({
            let r = read_back::executed_all(t, bep_state::file_statements(key, f, sequence));
            &&& read_back::kept(r, key) == added(read_back::kept(t, key), key, f, sequence)
            &&& forall|k: FileKey|
                k != key ==> #[trigger] read_back::kept(r, k) == read_back::kept(t, k)
        }),
{
    let insert = bep_state::insert_file_statement(key, f, sequence);
    let of_versions = f.version->0.counters.map_values(
        |c: CounterView| bep_state::insert_version_statement(key, c),
    );
    let of_blocks = f.blocks.map_values(
        |b: BlockInfoView| bep_state::insert_block_statement(key, b),
    );
    let t1 = read_back::executed_all(t, seq![insert]);
    let t2 = read_back::executed_all(t1, of_versions);
    let t3 = read_back::executed_all(t2, of_blocks);
    read_back::lemma_executed_one(t, insert);
    read_back::lemma_executed_add(t, seq![insert], of_versions);
    read_back::lemma_executed_add(t, seq![insert] + of_versions, of_blocks);
    lemma_file_added(t, key, f, sequence);
    lemma_versions_added(t1, key, f.version->0.counters);
    lemma_blocks_added(t2, key, f.blocks);
    assert forall|k: FileKey| k != key implies #[trigger] read_back::kept(t3, k)
        == read_back::kept(t, k) by {
        assert(read_back::kept(t2, k) == read_back::kept(t1, k));
        assert(read_back::kept(t1, k) == read_back::kept(t, k));
    }
}

proof fn lemma_file_deleted(t: Tables, key: FileKey)
    ensures
        ({
            let r = read_back::executed(t, bep_state::delete_file_statement(key));
            &&& read_back::kept(r, key) == read_back::nothing()
            &&& forall|k: FileKey|
                k != key ==> #[trigger] read_back::kept(r, k) == read_back::kept(t, k)
        }),
{
    let s = bep_state::delete_file_statement(key);
    let r = read_back::executed(t, s);
    assert(read_back::file_key(s.values) == key);
    assert(read_back::kept(r, key) =~= read_back::nothing());
    assert forall|k: FileKey| k != key implies #[trigger] read_back::kept(r, k)
        == read_back::kept(t, k) by {
        assert(read_back::kept(r, k) =~= read_back::kept(t, k));
    }
}

/// What is kept of a file makes sense: nothing is kept of one that is not there, and its
/// rows are those of the file with this name.
pub open spec fn kept_ok(k: Kept, key: FileKey) -> bool {
    &&& k.file is None ==> k == read_back::nothing()
    &&& k.file matches Some(v) ==> v.len() > 2
    &&& forall|v: Seq<ValueView>| #[trigger] k.versions.contains(v) ==> v.len() > 2
    &&& forall|b: Seq<ValueView>| #[trigger]
        k.blocks.dom().contains(b) ==> b.len() > 2 && b[0] == ValueView::Text(key.name)
}

/// What is kept of every file makes sense.
pub open spec fn tables_ok(t: Tables) -> bool {
    forall|key: FileKey| kept_ok(#[trigger] read_back::kept(t, key), key)
}

proof fn lemma_renamed_versions(t: Tables, key: FileKey, name: Seq<char>)
    requires
        kept_ok(read_back::kept(t, key), key),
        read_back::kept(t, FileKey { name, ..key }) == read_back::nothing(),
        name != key.name,
        t.files.dom().contains(key),
    ensures
        ({
            let r = read_back::with_renamed(t, key, name);
            let new_key = FileKey { name, ..key };
            &&& read_back::kept(r, key).versions == read_back::nothing().versions
            &&& read_back::kept(r, new_key).versions == read_back::renamed(
                read_back::kept(t, key),
                key.name,
                name,
            ).versions
            &&& forall|k: FileKey|
                k != key && k != new_key ==> #[trigger] read_back::kept(r, k).versions
                    == read_back::kept(t, k).versions
        }),
{
    let r = read_back::with_renamed(t, key, name);
    let new_key = FileKey { name, ..key };
    let moved = read_back::renamed(read_back::kept(t, key), key.name, name);
    assert forall|v: Seq<ValueView>| #[trigger]
        moved.versions.contains(v) implies read_back::file_key(v) == new_key by {
        let w = choose|w: Seq<ValueView>| #[trigger]
            read_back::kept(t, key).versions.contains(w) && v == read_back::with_name(w, name);
        assert(w.len() > 2);
    }
    assert forall|v: Seq<ValueView>| read_back::file_key(v) == new_key implies
        !t.versions.contains(v) by {
        assert(!read_back::kept(t, new_key).versions.contains(v));
    }
    assert(read_back::kept(r, key).versions =~= read_back::nothing().versions);
    assert(read_back::kept(r, new_key).versions =~= moved.versions);
    assert forall|k: FileKey| k != key && k != new_key implies #[trigger] read_back::kept(
        r,
        k,
    ).versions == read_back::kept(t, k).versions by {
        assert(read_back::kept(r, k).versions =~= read_back::kept(t, k).versions);
    }
}

proof fn lemma_renamed_blocks(t: Tables, key: FileKey, name: Seq<char>)
    requires
        kept_ok(read_back::kept(t, key), key),
        read_back::kept(t, FileKey { name, ..key }) == read_back::nothing(),
        name != key.name,
        t.files.dom().contains(key),
    ensures
        ({
            let r = read_back::with_renamed(t, key, name);
            let new_key = FileKey { name, ..key };
            &&& read_back::kept(r, key).blocks == read_back::nothing().blocks
            &&& read_back::kept(r, new_key).blocks == read_back::renamed(
                read_back::kept(t, key),
                key.name,
                name,
            ).blocks
            &&& forall|k: FileKey|
                k != key && k != new_key ==> #[trigger] read_back::kept(r, k).blocks
                    == read_back::kept(t, k).blocks
        }),
{
    let r = read_back::with_renamed(t, key, name);
    let new_key = FileKey { name, ..key };
    let moved = read_back::renamed(read_back::kept(t, key), key.name, name);
    assert forall|b: Seq<ValueView>| #[trigger]
        moved.blocks.dom().contains(b) implies read_back::block_key(b) == new_key by {
        let w = choose|w: Seq<ValueView>| #[trigger]
            read_back::kept(t, key).blocks.dom().contains(w) && b == read_back::block_with_name(
                w,
                name,
            );
        assert(w.len() > 2);
    }
    assert forall|b: Seq<ValueView>| read_back::block_key(b) == new_key implies
        !t.blocks.dom().contains(b) by {
        assert(!read_back::kept(t, new_key).blocks.dom().contains(b));
    }
    assert(read_back::kept(r, key).blocks =~= read_back::nothing().blocks);
    assert(read_back::kept(r, new_key).blocks =~= moved.blocks);
    assert forall|k: FileKey| k != key && k != new_key implies #[trigger] read_back::kept(
        r,
        k,
    ).blocks == read_back::kept(t, k).blocks by {
        assert(read_back::kept(r, k).blocks =~= read_back::kept(t, k).blocks);
    }
}

/// Renaming a file to what no other has as its name takes along what is kept of it.
proof fn lemma_file_renamed(t: Tables, key: FileKey, name: Seq<char>)
    requires
        kept_ok(read_back::kept(t, key), key),
        read_back::kept(t, FileKey { name, ..key }) == read_back::nothing(),
        name != key.name,
    ensures
        ({
            let r = read_back::executed(t, bep_state::rename_file_statement(key, name));
            let new_key = FileKey { name, ..key };
            &&& read_back::kept(r, key) == read_back::nothing()
            &&& read_back::kept(r, new_key) == read_back::renamed(
                read_back::kept(t, key),
                key.name,
                name,
            )
            &&& forall|k: FileKey|
                k != key && k != new_key ==> #[trigger] read_back::kept(r, k)
                    == read_back::kept(t, k)
        }),
{
    let s = bep_state::rename_file_statement(key, name);
    let new_key = FileKey { name, ..key };
    assert(read_back::file_key(s.values.skip(1)) == key);
    let r = read_back::executed(t, s);
    if t.files.dom().contains(key) {
        lemma_renamed_versions(t, key, name);
        lemma_renamed_blocks(t, key, name);
        assert(read_back::kept(r, key) =~= read_back::nothing());
        assert(read_back::kept(r, new_key) =~= read_back::renamed(
            read_back::kept(t, key),
            key.name,
            name,
        ));
        assert forall|k: FileKey| k != key && k != new_key implies #[trigger] read_back::kept(r, k)
            == read_back::kept(t, k) by {
            assert(read_back::kept(r, k) =~= read_back::kept(t, k));
        }
    } else {
        assert(read_back::kept(t, key) == read_back::nothing());
        assert(read_back::renamed(read_back::nothing(), key.name, name) =~= read_back::nothing());
    }
}

// ---------------------------------------------------------------------------
// All files

/// All that is done to write files, where `sequence` is the number of the last change.
pub open spec fn writing_statements(
    files: Seq<FileInfoView>,
    folder: Seq<char>,
    device: Seq<char>,
    removal: RemovalView,
    sequence: i64,
) -> Seq<StatementView> {
    seq![statements::bare(Query::Begin)] + (bep_state::files_plan(
        files,
        folder,
        device,
        removal,
        Some(sequence),
    )->Ok_0).statements.push(statements::bare(Query::End))
}

/// The number of the change that the file at position `i` is written with.
pub open spec fn number_of(
    files: Seq<FileInfoView>,
    removal: RemovalView,
    sequence: i64,
    i: int,
) -> i64 {
    (sequence + bep_state::written_count(files.take(i + 1), removal)) as i64
}

/// The name that the file at position `i` is renamed to.
pub open spec fn new_name(
    files: Seq<FileInfoView>,
    device: Seq<char>,
    removal: RemovalView,
    i: int,
) -> Seq<char> {
    match removal {
        RemovalView::Rename(times) => bep_state::conflict_path(
            files[i].name,
            device,
            times[i].0,
            times[i].1,
        )->0,
        _ => files[i].name,
    }
}

pub open spec fn new_key(
    files: Seq<FileInfoView>,
    folder: Seq<char>,
    device: Seq<char>,
    removal: RemovalView,
    i: int,
) -> FileKey {
    FileKey { folder, device, name: new_name(files, device, removal, i) }
}

/// The new names differ from each other and from the names of the files, and no file has
/// them.
pub open spec fn new_names_free(
    t: Tables,
    files: Seq<FileInfoView>,
    folder: Seq<char>,
    device: Seq<char>,
    removal: RemovalView,
) -> bool {
    removal is Rename ==> {
        &&& forall|i: int|
            0 <= i < files.len() && !(#[trigger] files[i]).deleted ==> read_back::kept(
                t,
                new_key(files, folder, device, removal, i),
            ) == read_back::nothing()
        &&& forall|i: int, j: int|
            0 <= i < files.len() && !(#[trigger] files[i]).deleted && 0 <= j < files.len()
                ==> new_name(files, device, removal, i) != (#[trigger] files[j]).name
        &&& forall|i: int, j: int|
            0 <= i < j < files.len() && !(#[trigger] files[i]).deleted && !(
            #[trigger] files[j]).deleted ==> new_name(files, device, removal, i) != new_name(
                files,
                device,
                removal,
                j,
            )
    }
}

/// The file is one of those that are written, or has the name that one of them is given.
pub open spec fn is_touched(
    files: Seq<FileInfoView>,
    folder: Seq<char>,
    device: Seq<char>,
    removal: RemovalView,
    key: FileKey,
) -> bool {
    exists|i: int|
        0 <= i < files.len() && !bep_state::is_skipped(removal, #[trigger] files[i]) && (key
            == read_back::key_of(folder, device, files[i]) || key == new_key(
            files,
            folder,
            device,
            removal,
            i,
        ))
}

/// What is kept of a file when it is written: what was there, or nothing where room was made
/// for it.
pub open spec fn room_for(removal: RemovalView, k: Kept) -> Kept {
    match removal {
        RemovalView::Keep => k,
        _ => read_back::nothing(),
    }
}

/// Writing the files leaves the one at position `i` under its name.
pub open spec fn is_written_at(
    t: Tables,
    u: Tables,
    files: Seq<FileInfoView>,
    folder: Seq<char>,
    device: Seq<char>,
    removal: RemovalView,
    sequence: i64,
    i: int,
) -> bool {
    let key = read_back::key_of(folder, device, files[i]);
    read_back::kept(u, key) == added(
        room_for(removal, read_back::kept(t, key)),
        key,
        files[i],
        number_of(files, removal, sequence, i),
    )
}

/// Writing the files leaves what was kept of the one at position `i` under its new name.
pub open spec fn is_moved_at(
    t: Tables,
    u: Tables,
    files: Seq<FileInfoView>,
    folder: Seq<char>,
    device: Seq<char>,
    removal: RemovalView,
    i: int,
) -> bool {
    read_back::kept(u, new_key(files, folder, device, removal, i)) == read_back::renamed(
        read_back::kept(t, read_back::key_of(folder, device, files[i])),
        files[i].name,
        new_name(files, device, removal, i),
    )
}

/// The tables keep the same of a file.
pub open spec fn is_unchanged(t: Tables, u: Tables, key: FileKey) -> bool {
    read_back::kept(u, key) == read_back::kept(t, key)
}

/// What writing the files makes of the tables `t` are the tables `u`.
pub open spec fn are_written(
    t: Tables,
    u: Tables,
    files: Seq<FileInfoView>,
    folder: Seq<char>,
    device: Seq<char>,
    removal: RemovalView,
    sequence: i64,
) -> bool {
    &&& forall|i: int|
        0 <= i < files.len() && !bep_state::is_skipped(removal, #[trigger] files[i])
            ==> is_written_at(t, u, files, folder, device, removal, sequence, i)
    &&& removal is Rename ==> forall|i: int|
        0 <= i < files.len() && !(#[trigger] files[i]).deleted ==> is_moved_at(
            t,
            u,
            files,
            folder,
            device,
            removal,
            i,
        )
    &&& forall|key: FileKey|
        !is_touched(files, folder, device, removal, key) ==> #[trigger] is_unchanged(t, u, key)
}

/// Making room for a file.
proof fn lemma_room_made(
    t: Tables,
    files: Seq<FileInfoView>,
    folder: Seq<char>,
    device: Seq<char>,
    removal: RemovalView,
)
    requires
        files.len() > 0,
        !bep_state::is_skipped(removal, files.last()),
        ({
            let n = files.len() - 1;
            let key = read_back::key_of(folder, device, files[n]);
            &&& bep_state::removal_statement(removal, key, n) is Ok
            &&& removal is Rename ==> kept_ok(read_back::kept(t, key), key) && read_back::kept(
                t,
                new_key(files, folder, device, removal, n),
            ) == read_back::nothing() && new_name(files, device, removal, n) != files[n].name
        }),
    ensures
        ({
            let n = files.len() - 1;
            let key = read_back::key_of(folder, device, files[n]);
            let other = new_key(files, folder, device, removal, n);
            let r = read_back::executed_all(
                t,
                bep_state::optional(bep_state::removal_statement(removal, key, n)->Ok_0),
            );
            &&& read_back::kept(r, key) == room_for(removal, read_back::kept(t, key))
            &&& removal is Rename ==> read_back::kept(r, other) == read_back::renamed(
                read_back::kept(t, key),
                key.name,
                other.name,
            )
            &&& forall|k: FileKey|
                k != key && k != other ==> #[trigger] read_back::kept(r, k) == read_back::kept(t, k)
        }),
{
    let n = files.len() - 1;
    let key = read_back::key_of(folder, device, files[n]);
    match removal {
        RemovalView::Keep => {},
        RemovalView::Delete => {
            read_back::lemma_executed_one(t, bep_state::delete_file_statement(key));
            lemma_file_deleted(t, key);
        },
        RemovalView::Rename(times) => {
            let name = new_name(files, device, removal, n);
            read_back::lemma_executed_one(t, bep_state::rename_file_statement(key, name));
            lemma_file_renamed(t, key, name);
        },
    }
}

/// What holds of the new names of files holds of those of fewer files.
proof fn lemma_front_free(
    t: Tables,
    files: Seq<FileInfoView>,
    folder: Seq<char>,
    device: Seq<char>,
    removal: RemovalView,
)
    requires
        files.len() > 0,
        new_names_free(t, files, folder, device, removal),
    ensures
        new_names_free(t, files.drop_last(), folder, device, removal),
        forall|i: int|
            0 <= i < files.len() - 1 ==> new_key(
                files.drop_last(),
                folder,
                device,
                removal,
                i,
            ) == #[trigger] new_key(files, folder, device, removal, i),
{
    let front = files.drop_last();
    assert forall|i: int| 0 <= i < front.len() implies #[trigger] front[i] == files[i] by {}
    if removal is Rename {
        assert forall|i: int| 0 <= i < front.len() && !(#[trigger] front[i]).deleted implies
            read_back::kept(t, new_key(front, folder, device, removal, i))
            == read_back::nothing() by {
            assert(!files[i].deleted);
        }
        assert forall|i: int, j: int|
            0 <= i < front.len() && !(#[trigger] front[i]).deleted && 0 <= j
                < front.len() implies new_name(front, device, removal, i) != (
        #[trigger] front[j]).name by {
            assert(!files[i].deleted && files[j] == front[j]);
        }
        assert forall|i: int, j: int|
            0 <= i < j < front.len() && !(#[trigger] front[i]).deleted && !(
            #[trigger] front[j]).deleted implies new_name(front, device, removal, i) != new_name(
            front,
            device,
            removal,
            j,
        ) by {
            assert(!files[i].deleted && !files[j].deleted);
        }
    }
}

/// The last file, and the name it is given, are none of those that the files before it have
/// to do with.
proof fn lemma_last_untouched(
    t: Tables,
    files: Seq<FileInfoView>,
    folder: Seq<char>,
    device: Seq<char>,
    removal: RemovalView,
)
    requires
        files.len() > 0,
        indices::names_distinct(files),
        new_names_free(t, files, folder, device, removal),
        !bep_state::is_skipped(removal, files.last()),
    ensures
        ({
            let n = files.len() - 1;
            let front = files.drop_last();
            &&& !is_touched(
                front,
                folder,
                device,
                removal,
                read_back::key_of(folder, device, files[n]),
            )
            &&& !is_touched(
                front,
                folder,
                device,
                removal,
                new_key(files, folder, device, removal, n),
            )
        }),
{
    let n = files.len() - 1;
    let front = files.drop_last();
    let key = read_back::key_of(folder, device, files[n]);
    let other = new_key(files, folder, device, removal, n);
    lemma_front_free(t, files, folder, device, removal);
    assert forall|i: int|
        0 <= i < front.len() && !bep_state::is_skipped(removal, #[trigger] front[i]) implies key
        != read_back::key_of(folder, device, front[i]) && key != new_key(
        front,
        folder,
        device,
        removal,
        i,
    ) && other != read_back::key_of(folder, device, front[i]) && other != new_key(
        front,
        folder,
        device,
        removal,
        i,
    ) by {
        assert(front[i] == files[i]);
        assert(files[i].name != files[n].name);
        assert(new_key(front, folder, device, removal, i) == new_key(
            files,
            folder,
            device,
            removal,
            i,
        ));
    }
}

/// What some of the files have to do with, all of them have to do with.
proof fn lemma_touched(
    files: Seq<FileInfoView>,
    folder: Seq<char>,
    device: Seq<char>,
    removal: RemovalView,
    key: FileKey,
)
    requires
        files.len() > 0,
    ensures
        is_touched(files.drop_last(), folder, device, removal, key) ==> is_touched(
            files,
            folder,
            device,
            removal,
            key,
        ),
{
    let front = files.drop_last();
    if is_touched(front, folder, device, removal, key) {
        let i = choose|i: int|
            0 <= i < front.len() && !bep_state::is_skipped(removal, #[trigger] front[i]) && (key
                == read_back::key_of(folder, device, front[i]) || key == new_key(
                front,
                folder,
                device,
                removal,
                i,
            ));
        assert(front[i] == files[i]);
        assert(!bep_state::is_skipped(removal, files[i]));
    }
}

/// The files before the last one are numbered as they are without it.
proof fn lemma_front_numbers(
    files: Seq<FileInfoView>,
    removal: RemovalView,
    sequence: i64,
    i: int,
)
    requires
        0 <= i < files.len() - 1,
    ensures
        number_of(files, removal, sequence, i) == number_of(
            files.drop_last(),
            removal,
            sequence,
            i,
        ),
{
    assert(files.drop_last().take(i + 1) =~= files.take(i + 1));
}

/// One more file is written.
proof fn lemma_one_more(
    t: Tables,
    before: Tables,
    u: Tables,
    files: Seq<FileInfoView>,
    folder: Seq<char>,
    device: Seq<char>,
    removal: RemovalView,
    sequence: i64,
)
    requires
        files.len() > 0,
        indices::names_distinct(files),
        new_names_free(t, files, folder, device, removal),
        !bep_state::is_skipped(removal, files.last()),
        are_written(t, before, files.drop_last(), folder, device, removal, sequence),
        ({
            let n = files.len() - 1;
            let key = read_back::key_of(folder, device, files[n]);
            let other = new_key(files, folder, device, removal, n);
            &&& read_back::kept(u, key) == added(
                room_for(removal, read_back::kept(before, key)),
                key,
                files[n],
                number_of(files, removal, sequence, n),
            )
            &&& removal is Rename ==> read_back::kept(u, other) == read_back::renamed(
                read_back::kept(before, key),
                key.name,
                other.name,
            )
            &&& forall|k: FileKey|
                k != key && k != other ==> #[trigger] read_back::kept(u, k) == read_back::kept(
                    before,
                    k,
                )
        }),
    ensures
        are_written(t, u, files, folder, device, removal, sequence),
{
    let n = files.len() - 1;
    let front = files.drop_last();
    let key = read_back::key_of(folder, device, files[n]);
    let other = new_key(files, folder, device, removal, n);
    lemma_front_free(t, files, folder, device, removal);
    lemma_last_untouched(t, files, folder, device, removal);
    assert(is_unchanged(t, before, key));
    assert forall|i: int|
        0 <= i < files.len() && !bep_state::is_skipped(
            removal,
            #[trigger] files[i],
        ) implies is_written_at(t, u, files, folder, device, removal, sequence, i) by {
        if i < n {
            let k = read_back::key_of(folder, device, files[i]);
            assert(front[i] == files[i]);
            assert(is_touched(front, folder, device, removal, k));
            lemma_front_numbers(files, removal, sequence, i);
            assert(!bep_state::is_skipped(removal, front[i]));
            assert(is_written_at(t, before, front, folder, device, removal, sequence, i));
            assert(k != key && k != other);
        }
    }
    if removal is Rename {
        assert forall|i: int| 0 <= i < files.len() && !(
        #[trigger] files[i]).deleted implies is_moved_at(
            t,
            u,
            files,
            folder,
            device,
            removal,
            i,
        ) by {
            if i < n {
                let k = new_key(files, folder, device, removal, i);
                assert(front[i] == files[i]);
                assert(k == new_key(front, folder, device, removal, i));
                assert(!bep_state::is_skipped(removal, front[i]));
                assert(is_touched(front, folder, device, removal, k));
                assert(is_moved_at(t, before, front, folder, device, removal, i));
                assert(k != key && k != other);
            }
        }
    }
    assert forall|k: FileKey| !is_touched(
        files,
        folder,
        device,
        removal,
        k,
    ) implies #[trigger] is_unchanged(t, u, k) by {
        assert(!bep_state::is_skipped(removal, files[n]));
        assert(k != key && k != other);
        lemma_touched(files, folder, device, removal, k);
        assert(is_unchanged(t, before, k));
    }
}

/// A file that is left out changes nothing.
proof fn lemma_one_left_out(
    t: Tables,
    u: Tables,
    files: Seq<FileInfoView>,
    folder: Seq<char>,
    device: Seq<char>,
    removal: RemovalView,
    sequence: i64,
)
    requires
        files.len() > 0,
        new_names_free(t, files, folder, device, removal),
        bep_state::is_skipped(removal, files.last()),
        are_written(t, u, files.drop_last(), folder, device, removal, sequence),
    ensures
        are_written(t, u, files, folder, device, removal, sequence),
{
    let front = files.drop_last();
    lemma_front_free(t, files, folder, device, removal);
    assert forall|i: int|
        0 <= i < files.len() && !bep_state::is_skipped(
            removal,
            #[trigger] files[i],
        ) implies is_written_at(t, u, files, folder, device, removal, sequence, i) by {
        assert(front[i] == files[i]);
        assert(!bep_state::is_skipped(removal, front[i]));
        lemma_front_numbers(files, removal, sequence, i);
        assert(is_written_at(t, u, front, folder, device, removal, sequence, i));
    }
    if removal is Rename {
        assert forall|i: int| 0 <= i < files.len() && !(
        #[trigger] files[i]).deleted implies is_moved_at(
            t,
            u,
            files,
            folder,
            device,
            removal,
            i,
        ) by {
            assert(front[i] == files[i]);
            assert(new_key(front, folder, device, removal, i) == new_key(
                files,
                folder,
                device,
                removal,
                i,
            ));
            assert(is_moved_at(t, u, front, folder, device, removal, i));
        }
    }
    assert forall|k: FileKey| !is_touched(
        files,
        folder,
        device,
        removal,
        k,
    ) implies #[trigger] is_unchanged(t, u, k) by {
        lemma_touched(files, folder, device, removal, k);
        assert(is_unchanged(t, u, k));
    }
}

proof fn lemma_plan_written(
    t: Tables,
    files: Seq<FileInfoView>,
    folder: Seq<char>,
    device: Seq<char>,
    removal: RemovalView,
    sequence: i64,
)
    requires
        bep_state::files_plan(files, folder, device, removal, Some(sequence)) is Ok,
        indices::names_distinct(files),
        removal is Rename ==> tables_ok(t),
        new_names_free(t, files, folder, device, removal),
    ensures
        are_written(
            t,
            read_back::executed_all(
                t,
                (bep_state::files_plan(
                    files,
                    folder,
                    device,
                    removal,
                    Some(sequence),
                )->Ok_0).statements,
            ),
            files,
            folder,
            device,
            removal,
            sequence,
        ),
    decreases files.len(),
{
    if files.len() > 0 {
        let n = files.len() - 1;
        let front = files.drop_last();
        let f = files.last();
        let key = read_back::key_of(folder, device, files[n]);
        let other = new_key(files, folder, device, removal, n);
        let plan = bep_state::files_plan(front, folder, device, removal, Some(sequence))->Ok_0;
        let before = read_back::executed_all(t, plan.statements);
        assert(indices::names_distinct(front)) by {
            assert forall|i: int, j: int| 0 <= i < j < front.len() implies (
            #[trigger] front[i]).name != (#[trigger] front[j]).name by {
                assert(front[i] == files[i] && front[j] == files[j]);
            }
        }
        lemma_front_free(t, files, folder, device, removal);
        lemma_plan_written(t, front, folder, device, removal, sequence);
        if bep_state::is_skipped(removal, f) {
            lemma_one_left_out(t, before, files, folder, device, removal, sequence);
        } else {
            let room = bep_state::optional(
                bep_state::removal_statement(removal, key, n)->Ok_0,
            );
            let number = number_of(files, removal, sequence, n);
            let written = bep_state::file_statements(key, f, number);
            bep_state::law_sequence_counts_up(files, folder, device, removal, sequence);
            assert(files.take(n + 1) =~= files);
            lemma_last_untouched(t, files, folder, device, removal);
            assert(is_unchanged(t, before, key));
            assert(is_unchanged(t, before, other));
            if removal is Rename {
                assert(kept_ok(read_back::kept(t, key), key));
                assert(!files[n].deleted);
                assert(new_name(files, device, removal, n) != files[n].name);
            }
            lemma_room_made(before, files, folder, device, removal);
            let made = read_back::executed_all(before, room);
            let u = read_back::executed_all(made, written);
            lemma_file_written(made, key, f, number);
            read_back::lemma_executed_add(t, plan.statements, room);
            read_back::lemma_executed_add(t, plan.statements + room, written);
            if removal is Rename {
                assert(other != key);
                assert(read_back::kept(u, other) == read_back::kept(made, other));
            }
            assert forall|k: FileKey| k != key && k != other implies #[trigger] read_back::kept(
                u,
                k,
            ) == read_back::kept(before, k) by {
                assert(read_back::kept(made, k) == read_back::kept(before, k));
            }
            lemma_one_more(t, before, u, files, folder, device, removal, sequence);
        }
    }
}

/// What begins and ends a transaction leaves the tables as they are.
proof fn lemma_in_transaction(
    t: Tables,
    files: Seq<FileInfoView>,
    folder: Seq<char>,
    device: Seq<char>,
    removal: RemovalView,
    sequence: i64,
)
    ensures
        read_back::executed_all(t, writing_statements(files, folder, device, removal, sequence))
            == read_back::executed_all(
            t,
            (bep_state::files_plan(
                files,
                folder,
                device,
                removal,
                Some(sequence),
            )->Ok_0).statements,
        ),
{
    let ss = (bep_state::files_plan(
        files,
        folder,
        device,
        removal,
        Some(sequence),
    )->Ok_0).statements;
    let begin = seq![statements::bare(Query::Begin)];
    let end = seq![statements::bare(Query::End)];
    assert(writing_statements(files, folder, device, removal, sequence) =~= begin + ss + end);
    read_back::lemma_executed_add(t, begin + ss, end);
    read_back::lemma_executed_add(t, begin, ss);
    read_back::lemma_executed_one(t, statements::bare(Query::Begin));
    read_back::lemma_executed_one(
        read_back::executed_all(t, ss),
        statements::bare(Query::End),
    );
}

/// The file is one of the files, and is not left out.
pub open spec fn is_among(
    files: Seq<FileInfoView>,
    folder: Seq<char>,
    device: Seq<char>,
    key: FileKey,
) -> bool {
    exists|i: int|
        0 <= i < files.len() && !(#[trigger] files[i]).deleted && key == read_back::key_of(
            folder,
            device,
            files[i],
        )
}

/// No block of the file has been stored.
pub open spec fn none_stored(k: Kept) -> bool {
    forall|b: Seq<ValueView>| #[trigger]
        k.blocks.dom().contains(b) ==> k.blocks[b].len() == 8 && k.blocks[b][7] == ValueView::Int(
            StorageStatus::NotStored.number(),
        )
}

proof fn lemma_none_stored(key: FileKey, f: FileInfoView, sequence: i64)
    ensures
        none_stored(added(read_back::nothing(), key, f, sequence)),
{
    let k = added(read_back::nothing(), key, f, sequence);
    assert forall|b: Seq<ValueView>| #[trigger]
        k.blocks.dom().contains(b) implies k.blocks[b].len() == 8 && k.blocks[b][7]
        == ValueView::Int(StorageStatus::NotStored.number()) by {
        lemma_block_at(key, f.blocks, b);
    }
}

proof fn lemma_block_at(key: FileKey, bs: Seq<BlockInfoView>, b: Seq<ValueView>)
    requires
        read_back::has_block(key, bs, b),
    ensures
        exists|j: int|
            0 <= j < bs.len() && block_at(key, bs, b) == read_back::block_values(
                key,
                #[trigger] bs[j],
            ),
    decreases bs.len(),
{
    if bs.len() > 0 {
        let front = bs.drop_last();
        if read_back::has_block(key, front, b) {
            lemma_block_at(key, front, b);
            let j = choose|j: int|
                0 <= j < front.len() && block_at(key, front, b) == read_back::block_values(
                    key,
                    #[trigger] front[j],
                );
            assert(bs[j] == front[j]);
        } else {
            assert(bs[bs.len() - 1] == bs.last());
        }
    }
}

/// Files that are written in the place of others, which are removed, leave under each name
/// the file with exactly its counters and its blocks, none of them stored. A file that was
/// deleted is left out, and every other file stays as it was.
pub proof fn law_files_replaced(
    t: Tables,
    files: Seq<FileInfoView>,
    folder: Seq<char>,
    device: Seq<char>,
    sequence: i64,
)
    requires
        bep_state::files_plan(files, folder, device, RemovalView::Delete, Some(sequence)) is Ok,
        indices::names_distinct(files),
    ensures
        ({
            let u = read_back::executed_all(
                t,
                writing_statements(files, folder, device, RemovalView::Delete, sequence),
            );
            &&& forall|i: int|
                0 <= i < files.len() && !(#[trigger] files[i]).deleted ==> {
                    let key = read_back::key_of(folder, device, files[i]);
                    let number = number_of(files, RemovalView::Delete, sequence, i);
                    &&& read_back::kept(u, key) == added(
                        read_back::nothing(),
                        key,
                        files[i],
                        number,
                    )
                    &&& none_stored(read_back::kept(u, key))
                }
            &&& forall|key: FileKey|
                !is_among(files, folder, device, key) ==> #[trigger] read_back::kept(u, key)
                    == read_back::kept(t, key)
        }),
{
    let removal = RemovalView::Delete;
    let u = read_back::executed_all(
        t,
        writing_statements(files, folder, device, removal, sequence),
    );
    lemma_plan_written(t, files, folder, device, removal, sequence);
    lemma_in_transaction(t, files, folder, device, removal, sequence);
    assert forall|i: int| 0 <= i < files.len() && !(#[trigger] files[i]).deleted implies ({
        let key = read_back::key_of(folder, device, files[i]);
        let number = number_of(files, removal, sequence, i);
        &&& read_back::kept(u, key) == added(read_back::nothing(), key, files[i], number)
        &&& none_stored(read_back::kept(u, key))
    }) by {
        assert(!bep_state::is_skipped(removal, files[i]));
        assert(is_written_at(t, u, files, folder, device, removal, sequence, i));
        lemma_none_stored(
            read_back::key_of(folder, device, files[i]),
            files[i],
            number_of(files, removal, sequence, i),
        );
    }
    assert forall|key: FileKey| !is_among(files, folder, device, key) implies
        #[trigger] read_back::kept(u, key) == read_back::kept(t, key) by {
        if is_touched(files, folder, device, removal, key) {
            let i = choose|i: int|
                0 <= i < files.len() && !bep_state::is_skipped(removal, #[trigger] files[i]) && (key
                    == read_back::key_of(folder, device, files[i]) || key == new_key(
                    files,
                    folder,
                    device,
                    removal,
                    i,
                ));
            assert(!files[i].deleted);
        }
        assert(is_unchanged(t, u, key));
    }
}

/// Files that are written in the place of others, which are renamed, leave under each name
/// the file with exactly its counters and its blocks, none of them stored, and under each new
/// name what was kept of the file that was renamed. A file that was deleted is left out, and
/// every other file stays as it was.
pub proof fn law_files_renamed(
    t: Tables,
    files: Seq<FileInfoView>,
    folder: Seq<char>,
    device: Seq<char>,
    times: Seq<(Seq<char>, Seq<char>)>,
    sequence: i64,
)
    requires
        times.len() == files.len(),
        bep_state::files_plan(
            files,
            folder,
            device,
            RemovalView::Rename(times),
            Some(sequence),
        ) is Ok,
        indices::names_distinct(files),
        tables_ok(t),
        new_names_free(t, files, folder, device, RemovalView::Rename(times)),
    ensures
        ({
            let removal = RemovalView::Rename(times);
            let u = read_back::executed_all(
                t,
                writing_statements(files, folder, device, removal, sequence),
            );
            &&& forall|i: int|
                0 <= i < files.len() && !(#[trigger] files[i]).deleted ==> {
                    let key = read_back::key_of(folder, device, files[i]);
                    let number = number_of(files, removal, sequence, i);
                    let other = new_key(files, folder, device, removal, i);
                    &&& read_back::kept(u, key) == added(
                        read_back::nothing(),
                        key,
                        files[i],
                        number,
                    )
                    &&& none_stored(read_back::kept(u, key))
                    &&& read_back::kept(u, other) == read_back::renamed(
                        read_back::kept(t, key),
                        key.name,
                        other.name,
                    )
                }
            &&& forall|key: FileKey|
                !is_touched(files, folder, device, removal, key) ==> #[trigger] read_back::kept(
                    u,
                    key,
                ) == read_back::kept(t, key)
        }),
{
    let removal = RemovalView::Rename(times);
    let u = read_back::executed_all(
        t,
        writing_statements(files, folder, device, removal, sequence),
    );
    lemma_plan_written(t, files, folder, device, removal, sequence);
    lemma_in_transaction(t, files, folder, device, removal, sequence);
    assert forall|i: int| 0 <= i < files.len() && !(#[trigger] files[i]).deleted implies ({
        let key = read_back::key_of(folder, device, files[i]);
        let number = number_of(files, removal, sequence, i);
        let other = new_key(files, folder, device, removal, i);
        &&& read_back::kept(u, key) == added(read_back::nothing(), key, files[i], number)
        &&& none_stored(read_back::kept(u, key))
        &&& read_back::kept(u, other) == read_back::renamed(
            read_back::kept(t, key),
            key.name,
            other.name,
        )
    }) by {
        assert(!bep_state::is_skipped(removal, files[i]));
        assert(is_written_at(t, u, files, folder, device, removal, sequence, i));
        assert(is_moved_at(t, u, files, folder, device, removal, i));
        lemma_none_stored(
            read_back::key_of(folder, device, files[i]),
            files[i],
            number_of(files, removal, sequence, i),
        );
    }
    assert forall|key: FileKey| !is_touched(files, folder, device, removal, key) implies
        #[trigger] read_back::kept(u, key) == read_back::kept(t, key) by {
        assert(is_unchanged(t, u, key));
    }
}

/// No counter and no block goes, and a block keeps its status.
pub open spec fn is_kept_and_more(k: Kept, l: Kept) -> bool {
    &&& k.file is Some ==> l.file is Some
    &&& forall|v: Seq<ValueView>| k.versions.contains(v) ==> #[trigger] l.versions.contains(v)
    &&& forall|b: Seq<ValueView>|
        k.blocks.dom().contains(b) ==> #[trigger] l.blocks.dom().contains(b) && l.blocks[b]
            == k.blocks[b]
}

proof fn lemma_nothing_goes(
    t: Tables,
    files: Seq<FileInfoView>,
    folder: Seq<char>,
    device: Seq<char>,
    sequence: i64,
    key: FileKey,
)
    requires
        bep_state::files_plan(files, folder, device, RemovalView::Keep, Some(sequence)) is Ok,
    ensures
        is_kept_and_more(
            read_back::kept(t, key),
            read_back::kept(
                read_back::executed_all(
                    t,
                    (bep_state::files_plan(
                        files,
                        folder,
                        device,
                        RemovalView::Keep,
                        Some(sequence),
                    )->Ok_0).statements,
                ),
                key,
            ),
        ),
    decreases files.len(),
{
    let removal = RemovalView::Keep;
    if files.len() > 0 {
        let front = files.drop_last();
        let f = files.last();
        let plan = bep_state::files_plan(front, folder, device, removal, Some(sequence))->Ok_0;
        let before = read_back::executed_all(t, plan.statements);
        let of_file = read_back::key_of(folder, device, f);
        let number = bep_state::next_sequence(plan.sequence)->Ok_0;
        let written = bep_state::file_statements(of_file, f, number);
        lemma_nothing_goes(t, front, folder, device, sequence, key);
        lemma_file_written(before, of_file, f, number);
        assert(plan.statements + Seq::empty() =~= plan.statements);
        read_back::lemma_executed_add(t, plan.statements, written);
        let u = read_back::executed_all(before, written);
        assert(is_kept_and_more(read_back::kept(before, key), read_back::kept(u, key))) by {
            if key != of_file {
                assert(read_back::kept(u, key) == read_back::kept(before, key));
            }
        }
        assert forall|v: Seq<ValueView>|
            read_back::kept(t, key).versions.contains(v) implies #[trigger] read_back::kept(
            u,
            key,
        ).versions.contains(v) by {
            assert(read_back::kept(before, key).versions.contains(v));
        }
        assert forall|b: Seq<ValueView>|
            read_back::kept(t, key).blocks.dom().contains(b) implies #[trigger] read_back::kept(
            u,
            key,
        ).blocks.dom().contains(b) && read_back::kept(u, key).blocks[b] == read_back::kept(
            t,
            key,
        ).blocks[b] by {
            assert(read_back::kept(before, key).blocks.dom().contains(b));
        }
    }
}

/// Files that are written over others take nothing away: no file, no counter and no block
/// goes, and a block that was there keeps its status.
pub proof fn law_nothing_goes(
    t: Tables,
    files: Seq<FileInfoView>,
    folder: Seq<char>,
    device: Seq<char>,
    sequence: i64,
    key: FileKey,
)
    requires
        bep_state::files_plan(files, folder, device, RemovalView::Keep, Some(sequence)) is Ok,
    ensures
        is_kept_and_more(
            read_back::kept(t, key),
            read_back::kept(
                read_back::executed_all(
                    t,
                    writing_statements(files, folder, device, RemovalView::Keep, sequence),
                ),
                key,
            ),
        ),
{
    lemma_nothing_goes(t, files, folder, device, sequence, key);
    lemma_in_transaction(t, files, folder, device, RemovalView::Keep, sequence);
}

/// Files that are written over others are there with what was kept of those and with their
/// own counters and blocks, and every other file stays as it was.
pub proof fn law_files_inserted(
    t: Tables,
    files: Seq<FileInfoView>,
    folder: Seq<char>,
    device: Seq<char>,
    sequence: i64,
)
    requires
        bep_state::files_plan(files, folder, device, RemovalView::Keep, Some(sequence)) is Ok,
        indices::names_distinct(files),
    ensures
        ({
            let u = read_back::executed_all(
                t,
                writing_statements(files, folder, device, RemovalView::Keep, sequence),
            );
            &&& forall|i: int|
                0 <= i < files.len() ==> {
                    let key = read_back::key_of(folder, device, #[trigger] files[i]);
                    read_back::kept(u, key) == added(
                        read_back::kept(t, key),
                        key,
                        files[i],
                        number_of(files, RemovalView::Keep, sequence, i),
                    )
                }
            &&& forall|key: FileKey|
                (forall|i: int|
                    0 <= i < files.len() ==> key != read_back::key_of(
                        folder,
                        device,
                        #[trigger] files[i],
                    )) ==> #[trigger] read_back::kept(u, key) == read_back::kept(t, key)
        }),
{
    let removal = RemovalView::Keep;
    let u = read_back::executed_all(
        t,
        writing_statements(files, folder, device, removal, sequence),
    );
    lemma_plan_written(t, files, folder, device, removal, sequence);
    lemma_in_transaction(t, files, folder, device, removal, sequence);
    assert forall|i: int| 0 <= i < files.len() implies ({
        let key = read_back::key_of(folder, device, #[trigger] files[i]);
        read_back::kept(u, key) == added(
            read_back::kept(t, key),
            key,
            files[i],
            number_of(files, removal, sequence, i),
        )
    }) by {
        assert(!bep_state::is_skipped(removal, files[i]));
        assert(is_written_at(t, u, files, folder, device, removal, sequence, i));
    }
    assert forall|key: FileKey|
        (forall|i: int|
            0 <= i < files.len() ==> key != read_back::key_of(
                folder,
                device,
                #[trigger] files[i],
            )) implies #[trigger] read_back::kept(u, key) == read_back::kept(t, key) by {
        assert(!is_touched(files, folder, device, removal, key));
        assert(is_unchanged(t, u, key));
    }
}

proof fn lemma_added_ok(k: Kept, key: FileKey, f: FileInfoView, sequence: i64)
    requires
        kept_ok(k, key),
    ensures
        kept_ok(added(k, key, f, sequence), key),
{
    let r = added(k, key, f, sequence);
    assert forall|v: Seq<ValueView>| #[trigger] r.versions.contains(v) implies v.len() > 2 by {
        if k.versions.contains(v) {
            assert(v.len() > 2);
        }
    }
    assert forall|b: Seq<ValueView>| #[trigger] r.blocks.dom().contains(b) implies b.len() > 2
        && b[0] == ValueView::Text(key.name) by {
        if k.blocks.dom().contains(b) {
            assert(b.len() > 2);
        } else {
            let j = choose|j: int|
                0 <= j < f.blocks.len() && b == read_back::block_id(
                    read_back::block_values(key, #[trigger] f.blocks[j]),
                );
            assert(b[0] == read_back::block_values(key, f.blocks[j])[0]);
        }
    }
}

proof fn lemma_renamed_ok(k: Kept, key: FileKey, name: Seq<char>)
    requires
        kept_ok(k, key),
    ensures
        kept_ok(read_back::renamed(k, key.name, name), FileKey { name, ..key }),
{
    let r = read_back::renamed(k, key.name, name);
    if k.file is None {
        assert(r =~= read_back::nothing());
    }
    assert forall|v: Seq<ValueView>| #[trigger] r.versions.contains(v) implies v.len() > 2 by {
        let w = choose|w: Seq<ValueView>| #[trigger]
            k.versions.contains(w) && v == read_back::with_name(w, name);
        assert(w.len() > 2);
    }
    assert forall|b: Seq<ValueView>| #[trigger] r.blocks.dom().contains(b) implies b.len() > 2
        && b[0] == ValueView::Text(name) by {
        let w = choose|w: Seq<ValueView>| #[trigger]
            k.blocks.dom().contains(w) && b == read_back::block_with_name(w, name);
        assert(w.len() > 2);
    }
}

/// Writing files leaves tables that make sense where they did so before. Empty tables do.
pub proof fn law_tables_make_sense(
    t: Tables,
    files: Seq<FileInfoView>,
    folder: Seq<char>,
    device: Seq<char>,
    removal: RemovalView,
    sequence: i64,
)
    requires
        bep_state::files_plan(files, folder, device, removal, Some(sequence)) is Ok,
        indices::names_distinct(files),
        tables_ok(t),
        new_names_free(t, files, folder, device, removal),
    ensures
        tables_ok(
            read_back::executed_all(
                t,
                writing_statements(files, folder, device, removal, sequence),
            ),
        ),
        tables_ok(
            (Tables { files: Map::empty(), versions: Set::empty(), blocks: Map::empty() }),
        ),
{
    let u = read_back::executed_all(
        t,
        writing_statements(files, folder, device, removal, sequence),
    );
    lemma_plan_written(t, files, folder, device, removal, sequence);
    lemma_in_transaction(t, files, folder, device, removal, sequence);
    assert forall|key: FileKey| kept_ok(#[trigger] read_back::kept(u, key), key) by {
        if is_touched(files, folder, device, removal, key) {
            let i = choose|i: int|
                0 <= i < files.len() && !bep_state::is_skipped(removal, #[trigger] files[i]) && (key
                    == read_back::key_of(folder, device, files[i]) || key == new_key(
                    files,
                    folder,
                    device,
                    removal,
                    i,
                ));
            let of_file = read_back::key_of(folder, device, files[i]);
            assert(kept_ok(read_back::kept(t, of_file), of_file));
            if key == of_file {
                assert(is_written_at(t, u, files, folder, device, removal, sequence, i));
                lemma_added_ok(
                    room_for(removal, read_back::kept(t, key)),
                    key,
                    files[i],
                    number_of(files, removal, sequence, i),
                );
            } else {
                assert(!files[i].deleted);
                assert(is_moved_at(t, u, files, folder, device, removal, i));
                lemma_renamed_ok(read_back::kept(t, of_file), of_file, key.name);
            }
        } else {
            assert(is_unchanged(t, u, key));
            assert(kept_ok(read_back::kept(t, key), key));
        }
    }
    let empty = Tables { files: Map::empty(), versions: Set::empty(), blocks: Map::empty() };
    assert forall|key: FileKey| kept_ok(#[trigger] read_back::kept(empty, key), key) by {
        assert(read_back::kept(empty, key) =~= read_back::nothing());
    }
}

} // verus!
