//! What is written to the database is read back, in whatever order its rows come.

use vstd::prelude::*;
use crate::bep_state;
use crate::bep_state::{FileKey, RemovalView};
use crate::indices;
use crate::rows;
use crate::rows::{BadRow, IndexRowView, VersionRowView};
use crate::statements;
use crate::statements::{Query, StatementView, ValueView};
use crate::syncthing::{BlockInfoView, CounterView, FileInfoView, VectorView};

verus! {

// ---------------------------------------------------------------------------
// The order of rows

/// What the rows give, one after the other.
pub open spec fn gathered<R, B>(rows: Seq<R>, of: spec_fn(R) -> Seq<B>) -> Seq<B>
    decreases rows.len(),
{
    if rows.len() == 0 {
        Seq::empty()
    } else {
        gathered(rows.drop_last(), of) + of(rows.last())
    }
}

proof fn lemma_gathered_remove<R, B>(rows: Seq<R>, of: spec_fn(R) -> Seq<B>, i: int)
    requires
        0 <= i < rows.len(),
    ensures
        gathered(rows, of).to_multiset() == gathered(rows.remove(i), of).to_multiset().add(
            of(rows[i]).to_multiset(),
        ),
    decreases rows.len(),
{
    let front = rows.drop_last();
    vstd::seq_lib::lemma_multiset_commutative(gathered(front, of), of(rows.last()));
    if i == rows.len() - 1 {
        assert(rows.remove(i) =~= front);
    } else {
        let rest = rows.remove(i);
        lemma_gathered_remove(front, of, i);
        assert(rest.drop_last() =~= front.remove(i));
        assert(rest.last() == rows.last());
        vstd::seq_lib::lemma_multiset_commutative(gathered(front.remove(i), of), of(rows.last()));
        assert(gathered(rows, of).to_multiset() =~= gathered(rest, of).to_multiset().add(
            of(rows[i]).to_multiset(),
        ));
    }
}

/// What rows give, all together, does not depend on their order.
proof fn lemma_gathered_permuted<R, B>(a: Seq<R>, b: Seq<R>, of: spec_fn(R) -> Seq<B>)
    requires
        a.to_multiset() == b.to_multiset(),
    ensures
        gathered(a, of).to_multiset() == gathered(b, of).to_multiset(),
    decreases a.len(),
{
    a.to_multiset_ensures();
    b.to_multiset_ensures();
    assert(a.len() == b.len());
    if a.len() > 0 {
        let k = a.len() - 1;
        let x = a[k];
        assert(a.contains(x));
        assert(a.to_multiset().count(x) > 0);
        assert(b.contains(x));
        let i = choose|i: int| 0 <= i < b.len() && b[i] == x;
        assert(a.remove(k).to_multiset() == b.remove(i).to_multiset());
        lemma_gathered_permuted(a.remove(k), b.remove(i), of);
        lemma_gathered_remove(a, of, k);
        lemma_gathered_remove(b, of, i);
    }
}

proof fn lemma_permuted_contains<R>(a: Seq<R>, b: Seq<R>, x: R)
    requires
        a.to_multiset() == b.to_multiset(),
    ensures
        a.contains(x) == b.contains(x),
{
    a.to_multiset_ensures();
    b.to_multiset_ensures();
    assert(a.contains(x) <==> a.to_multiset().count(x) > 0);
    assert(b.contains(x) <==> b.to_multiset().count(x) > 0);
}

/// The file in a row, without its blocks and versions.
pub open spec fn bare_file(row: IndexRowView) -> Option<FileInfoView> {
    rows::file_of(row.file, Some(VectorView { counters: Seq::empty() }), Seq::empty())
}

/// All rows can be read, and rows with the same name say the same about the file.
pub open spec fn rows_agree(rows: Seq<IndexRowView>) -> bool {
    &&& forall|i: int|
        0 <= i < rows.len() ==> bare_file(#[trigger] rows[i]) is Some && rows::block_in(
            rows[i],
        ) is Ok
    &&& forall|i: int, j: int|
        0 <= i < rows.len() && 0 <= j < rows.len() && (#[trigger] rows[i]).file.name == (
        #[trigger] rows[j]).file.name ==> rows[i].file == rows[j].file
}

/// The block in a row, where it is one of the file with the name.
pub open spec fn block_for(name: Seq<char>) -> spec_fn(IndexRowView) -> Seq<BlockInfoView> {
    |row: IndexRowView|
        if row.file.name == name {
            rows::block_in(row)->Ok_0
        } else {
            Seq::empty()
        }
}

/// The counter in a row, where it is one of the file with the name.
pub open spec fn counter_for(name: Seq<char>) -> spec_fn(VersionRowView) -> Seq<CounterView> {
    |row: VersionRowView|
        if row.name == name {
            seq![rows::counter_of(row)->0]
        } else {
            Seq::empty()
        }
}

/// Some row is one of the file with the name.
pub open spec fn has_row(rows: Seq<IndexRowView>, name: Seq<char>) -> bool {
    exists|i: int| 0 <= i < rows.len() && (#[trigger] rows[i]).file.name == name
}

proof fn lemma_nothing_gathered(rows: Seq<IndexRowView>, name: Seq<char>)
    requires
        !has_row(rows, name),
    ensures
        gathered(rows, block_for(name)) == Seq::<BlockInfoView>::empty(),
    decreases rows.len(),
{
    if rows.len() > 0 {
        let front = rows.drop_last();
        assert(rows[rows.len() - 1].file.name != name);
        assert(!has_row(front, name)) by {
            if has_row(front, name) {
                let i = choose|i: int|
                    0 <= i < front.len() && (#[trigger] front[i]).file.name == name;
                assert(rows[i].file.name == name);
            }
        }
        lemma_nothing_gathered(front, name);
        assert(gathered(rows, block_for(name)) =~= Seq::empty());
    }
}

/// Rows that agree give each file once, with the blocks of all its rows.
proof fn lemma_files_in(rows: Seq<IndexRowView>)
    requires
        rows_agree(rows),
    ensures
        rows::files_in(rows) is Ok,
        forall|name: Seq<char>| #[trigger]
            (rows::files_in(rows)->Ok_0).dom().contains(name) <==> has_row(rows, name),
        forall|i: int|
            0 <= i < rows.len() ==> (rows::files_in(rows)->Ok_0)[(
            #[trigger] rows[i]).file.name] == (FileInfoView {
                blocks: gathered(rows, block_for(rows[i].file.name)),
                ..bare_file(rows[i])->0
            }),
    decreases rows.len(),
{
    if rows.len() > 0 {
        let front = rows.drop_last();
        let last = rows.last();
        let n = front.len() as int;
        let name = last.file.name;
        assert(last == rows[n]);
        assert(rows_agree(front)) by {
            assert forall|i: int| 0 <= i < front.len() implies bare_file(
                #[trigger] front[i],
            ) is Some && rows::block_in(front[i]) is Ok by {
                assert(front[i] == rows[i]);
            }
            assert forall|i: int, j: int|
                0 <= i < front.len() && 0 <= j < front.len() && (#[trigger] front[i]).file.name == (
                #[trigger] front[j]).file.name implies front[i].file == front[j].file by {
                assert(front[i] == rows[i] && front[j] == rows[j]);
            }
        }
        lemma_files_in(front);
        let before = rows::files_in(front)->Ok_0;
        if before.dom().contains(name) {
            let k = choose|k: int| 0 <= k < front.len() && (#[trigger] front[k]).file.name == name;
            assert(rows[k].file == rows[n].file);
            assert(before[front[k].file.name].blocks == gathered(front, block_for(name)));
        } else {
            lemma_nothing_gathered(front, name);
            assert(Seq::<BlockInfoView>::empty() + rows::block_in(last)->Ok_0
                =~= rows::block_in(last)->Ok_0);
        }
        let after = rows::files_in(rows)->Ok_0;
        assert forall|m: Seq<char>| #[trigger] after.dom().contains(m) <==> has_row(rows, m) by {
            if has_row(front, m) {
                let i = choose|i: int| 0 <= i < front.len() && (#[trigger] front[i]).file.name == m;
                assert(rows[i].file.name == m);
            }
            if has_row(rows, m) && m != name {
                let i = choose|i: int| 0 <= i < rows.len() && (#[trigger] rows[i]).file.name == m;
                assert(front[i].file.name == m);
            }
            assert(before.dom().contains(m) <==> has_row(front, m));
        }
        assert forall|i: int| 0 <= i < rows.len() implies after[(
        #[trigger] rows[i]).file.name] == (FileInfoView {
            blocks: gathered(rows, block_for(rows[i].file.name)),
            ..bare_file(rows[i])->0
        }) by {
            let m = rows[i].file.name;
            if m == name {
                assert(rows[i].file == rows[n].file);
            } else {
                assert(front[i] == rows[i]);
                assert(before[front[i].file.name].blocks == gathered(front, block_for(m)));
                assert(gathered(rows, block_for(m)) =~= gathered(front, block_for(m)));
            }
        }
    } else {
        assert forall|name: Seq<char>| !has_row(rows, name) by {}
    }
}

/// The rows of versions add their counters to the files they are of.
proof fn lemma_versioned_files(
    files: Map<Seq<char>, FileInfoView>,
    versions: Seq<VersionRowView>,
)
    requires
        forall|name: Seq<char>| #[trigger]
            files.dom().contains(name) ==> files[name].version == Some(
                VectorView { counters: Seq::empty() },
            ),
        forall|i: int| 0 <= i < versions.len() ==> rows::counter_of(#[trigger] versions[i]) is Some,
    ensures
        rows::versioned_files(files, versions) is Ok,
        (rows::versioned_files(files, versions)->Ok_0).dom() == files.dom(),
        forall|name: Seq<char>| #[trigger]
            files.dom().contains(name) ==> (rows::versioned_files(files, versions)->Ok_0)[name] == (
            FileInfoView {
                version: Some(VectorView { counters: gathered(versions, counter_for(name)) }),
                ..files[name]
            }),
    decreases versions.len(),
{
    if versions.len() > 0 {
        let front = versions.drop_last();
        let last = versions.last();
        assert(last == versions[versions.len() - 1]);
        assert forall|i: int| 0 <= i < front.len() implies rows::counter_of(
            #[trigger] front[i],
        ) is Some by {
            assert(front[i] == versions[i]);
        }
        lemma_versioned_files(files, front);
        let before = rows::versioned_files(files, front)->Ok_0;
        let after = rows::versioned_files(files, versions)->Ok_0;
        assert(after.dom() =~= files.dom());
        assert forall|name: Seq<char>| #[trigger] files.dom().contains(name) implies after[name] == (
        FileInfoView {
            version: Some(VectorView { counters: gathered(versions, counter_for(name)) }),
            ..files[name]
        }) by {
            let counters = gathered(front, counter_for(name));
            if name == last.name {
                assert(counters.push(rows::counter_of(last)->0) =~= gathered(
                    versions,
                    counter_for(name),
                ));
            } else {
                assert(counters =~= gathered(versions, counter_for(name)));
            }
        }
    }
}

/// Rows that agree, and rows of versions that can be read, give each file once, with all
/// its blocks and counters.
proof fn lemma_index_of_rows(rows: Seq<IndexRowView>, versions: Seq<VersionRowView>)
    requires
        rows_agree(rows),
        forall|i: int| 0 <= i < versions.len() ==> rows::counter_of(#[trigger] versions[i]) is Some,
    ensures
        rows::index_of_rows(rows, versions) is Ok,
        forall|name: Seq<char>| #[trigger]
            (rows::index_of_rows(rows, versions)->Ok_0).dom().contains(name) <==> has_row(
                rows,
                name,
            ),
        forall|i: int|
            0 <= i < rows.len() ==> (rows::index_of_rows(rows, versions)->Ok_0)[(
            #[trigger] rows[i]).file.name] == (FileInfoView {
                blocks: gathered(rows, block_for(rows[i].file.name)),
                version: Some(
                    VectorView { counters: gathered(versions, counter_for(rows[i].file.name)) },
                ),
                ..bare_file(rows[i])->0
            }),
{
    lemma_files_in(rows);
    let files = rows::files_in(rows)->Ok_0;
    assert forall|name: Seq<char>| #[trigger] files.dom().contains(name) implies files[name].version
        == Some(VectorView { counters: Seq::empty() }) by {
        let i = choose|i: int| 0 <= i < rows.len() && (#[trigger] rows[i]).file.name == name;
        assert(files[rows[i].file.name].version == Some(VectorView { counters: Seq::empty() }));
    }
    lemma_versioned_files(files, versions);
    let read = rows::index_of_rows(rows, versions)->Ok_0;
    assert forall|i: int| 0 <= i < rows.len() implies read[(#[trigger] rows[i]).file.name] == (
    FileInfoView {
        blocks: gathered(rows, block_for(rows[i].file.name)),
        version: Some(
            VectorView { counters: gathered(versions, counter_for(rows[i].file.name)) },
        ),
        ..bare_file(rows[i])->0
    }) by {
        assert(has_row(rows, rows[i].file.name));
        assert(files.dom().contains(rows[i].file.name));
    }
}

// ---------------------------------------------------------------------------
// The rows of an index

/// What identifies a file in the database.
pub open spec fn key_of(folder: Seq<char>, device: Seq<char>, f: FileInfoView) -> FileKey {
    FileKey { folder, device, name: f.name }
}

/// The rows of the file at position `i` of an index, where `sequence` is the number of the
/// change before.
pub open spec fn rows_of(
    files: Seq<FileInfoView>,
    folder: Seq<char>,
    device: Seq<char>,
    sequence: i64,
    i: int,
) -> Seq<IndexRowView> {
    bep_state::index_rows(
        key_of(folder, device, files[i]),
        files[i],
        (sequence + i + 1) as i64,
    )
}

/// The rows of the version of the file at position `i` of an index.
pub open spec fn version_rows_of(
    files: Seq<FileInfoView>,
    folder: Seq<char>,
    device: Seq<char>,
    i: int,
) -> Seq<VersionRowView> {
    bep_state::version_rows(key_of(folder, device, files[i]), files[i].version->0.counters)
}

proof fn lemma_add_contains<A>(a: Seq<A>, b: Seq<A>, x: A)
    ensures
        (a + b).contains(x) <==> a.contains(x) || b.contains(x),
{
    let s = a + b;
    if a.contains(x) {
        let i = choose|i: int| 0 <= i < a.len() && a[i] == x;
        assert(s[i] == x);
    }
    if b.contains(x) {
        let i = choose|i: int| 0 <= i < b.len() && b[i] == x;
        assert(s[a.len() + i] == x);
    }
    if s.contains(x) {
        let i = choose|i: int| 0 <= i < s.len() && s[i] == x;
        if i < a.len() {
            assert(a[i] == x);
        } else {
            assert(b[i - a.len()] == x);
        }
    }
}

/// The rows of an index are those of its files.
proof fn lemma_all_index_rows(
    files: Seq<FileInfoView>,
    folder: Seq<char>,
    device: Seq<char>,
    sequence: i64,
    row: IndexRowView,
)
    ensures
        bep_state::all_index_rows(files, folder, device, sequence).contains(row) <==> exists|i: int|
            0 <= i < files.len() && (#[trigger] rows_of(files, folder, device, sequence, i)).contains(
                row,
            ),
    decreases files.len(),
{
    if files.len() > 0 {
        let front = files.drop_last();
        let n = files.len() - 1;
        let before = bep_state::all_index_rows(front, folder, device, sequence);
        lemma_all_index_rows(front, folder, device, sequence, row);
        lemma_add_contains(before, rows_of(files, folder, device, sequence, n), row);
        assert forall|i: int| 0 <= i < front.len() implies #[trigger] rows_of(
            front,
            folder,
            device,
            sequence,
            i,
        ) == rows_of(files, folder, device, sequence, i) by {}
        if before.contains(row) {
            let i = choose|i: int|
                0 <= i < front.len() && (#[trigger] rows_of(
                    front,
                    folder,
                    device,
                    sequence,
                    i,
                )).contains(row);
            assert(rows_of(files, folder, device, sequence, i).contains(row));
        }
        if exists|i: int|
            0 <= i < files.len() && (#[trigger] rows_of(files, folder, device, sequence, i)).contains(
                row,
            ) {
            let i = choose|i: int|
                0 <= i < files.len() && (#[trigger] rows_of(
                    files,
                    folder,
                    device,
                    sequence,
                    i,
                )).contains(row);
            if i < n {
                assert(rows_of(front, folder, device, sequence, i).contains(row));
            }
        }
    }
}

/// The rows of versions in an index are those of its files.
proof fn lemma_all_version_rows(
    files: Seq<FileInfoView>,
    folder: Seq<char>,
    device: Seq<char>,
    row: VersionRowView,
)
    ensures
        bep_state::all_version_rows(files, folder, device).contains(row) <==> exists|i: int|
            0 <= i < files.len() && (#[trigger] version_rows_of(files, folder, device, i)).contains(
                row,
            ),
    decreases files.len(),
{
    if files.len() > 0 {
        let front = files.drop_last();
        let n = files.len() - 1;
        let before = bep_state::all_version_rows(front, folder, device);
        lemma_all_version_rows(front, folder, device, row);
        lemma_add_contains(before, version_rows_of(files, folder, device, n), row);
        assert forall|i: int| 0 <= i < front.len() implies #[trigger] version_rows_of(
            front,
            folder,
            device,
            i,
        ) == version_rows_of(files, folder, device, i) by {}
        if before.contains(row) {
            let i = choose|i: int|
                0 <= i < front.len() && (#[trigger] version_rows_of(
                    front,
                    folder,
                    device,
                    i,
                )).contains(row);
            assert(version_rows_of(files, folder, device, i).contains(row));
        }
        if exists|i: int|
            0 <= i < files.len() && (#[trigger] version_rows_of(files, folder, device, i)).contains(
                row,
            ) {
            let i = choose|i: int|
                0 <= i < files.len() && (#[trigger] version_rows_of(
                    files,
                    folder,
                    device,
                    i,
                )).contains(row);
            if i < n {
                assert(version_rows_of(front, folder, device, i).contains(row));
            }
        }
    }
}

/// A row of a file can be read, and says what was written of the file.
proof fn lemma_row_of_file(
    files: Seq<FileInfoView>,
    folder: Seq<char>,
    device: Seq<char>,
    sequence: i64,
    i: int,
    row: IndexRowView,
)
    requires
        0 <= i < files.len(),
        rows_of(files, folder, device, sequence, i).contains(row),
    ensures
        row.file == bep_state::file_row(
            bep_state::insert_file_statement(
                key_of(folder, device, files[i]),
                files[i],
                (sequence + i + 1) as i64,
            ).values,
        ),
        row.file.name == files[i].name,
        bare_file(row) == Some(
            FileInfoView {
                sequence: (sequence + i + 1) as i64,
                version: Some(VectorView { counters: Seq::empty() }),
                blocks: Seq::empty(),
                ..files[i]
            },
        ),
        rows::block_in(row) is Ok,
{
    let all = rows_of(files, folder, device, sequence, i);
    let k = choose|k: int| 0 <= k < all.len() && all[k] == row;
    statements::law_bytes_round_trip(files[i].modified_by);
}

/// The rows of an index agree.
proof fn lemma_written_rows_agree(
    files: Seq<FileInfoView>,
    folder: Seq<char>,
    device: Seq<char>,
    sequence: i64,
    rows: Seq<IndexRowView>,
)
    requires
        indices::names_distinct(files),
        forall|row: IndexRowView| #[trigger]
            rows.contains(row) ==> bep_state::all_index_rows(
                files,
                folder,
                device,
                sequence,
            ).contains(row),
    ensures
        rows_agree(rows),
{
    assert forall|k: int| 0 <= k < rows.len() implies bare_file(#[trigger] rows[k]) is Some
        && rows::block_in(rows[k]) is Ok by {
        let _ = lemma_file_of_row(files, folder, device, sequence, rows, k);
    }
    assert forall|k: int, l: int|
        0 <= k < rows.len() && 0 <= l < rows.len() && (#[trigger] rows[k]).file.name == (
        #[trigger] rows[l]).file.name implies rows[k].file == rows[l].file by {
        let i = lemma_file_of_row(files, folder, device, sequence, rows, k);
        let j = lemma_file_of_row(files, folder, device, sequence, rows, l);
        if i < j {
            assert(files[i].name != files[j].name);
        } else if j < i {
            assert(files[j].name != files[i].name);
        }
    }
}

/// The file that a row is of.
proof fn lemma_file_of_row(
    files: Seq<FileInfoView>,
    folder: Seq<char>,
    device: Seq<char>,
    sequence: i64,
    rows: Seq<IndexRowView>,
    k: int,
) -> (i: int)
    requires
        0 <= k < rows.len(),
        forall|row: IndexRowView| #[trigger]
            rows.contains(row) ==> bep_state::all_index_rows(
                files,
                folder,
                device,
                sequence,
            ).contains(row),
    ensures
        0 <= i < files.len(),
        rows_of(files, folder, device, sequence, i).contains(rows[k]),
        rows[k].file == bep_state::file_row(
            bep_state::insert_file_statement(
                key_of(folder, device, files[i]),
                files[i],
                (sequence + i + 1) as i64,
            ).values,
        ),
        rows[k].file.name == files[i].name,
        bare_file(rows[k]) is Some,
        rows::block_in(rows[k]) is Ok,
{
    assert(rows.contains(rows[k]));
    lemma_all_index_rows(files, folder, device, sequence, rows[k]);
    let i = choose|i: int|
        0 <= i < files.len() && (#[trigger] rows_of(files, folder, device, sequence, i)).contains(
            rows[k],
        );
    lemma_row_of_file(files, folder, device, sequence, i, rows[k]);
    i
}

/// The rows of versions of an index can be read.
proof fn lemma_written_counters(
    files: Seq<FileInfoView>,
    folder: Seq<char>,
    device: Seq<char>,
    row: VersionRowView,
)
    requires
        forall|i: int|
            0 <= i < files.len() ==> bep_state::file_error(#[trigger] files[i]) is None,
        bep_state::all_version_rows(files, folder, device).contains(row),
    ensures
        rows::counter_of(row) is Some,
{
    lemma_all_version_rows(files, folder, device, row);
    let i = choose|i: int|
        0 <= i < files.len() && (#[trigger] version_rows_of(files, folder, device, i)).contains(
            row,
        );
    let all = version_rows_of(files, folder, device, i);
    let k = choose|k: int| 0 <= k < all.len() && all[k] == row;
    let c = files[i].version->0.counters[k];
    assert(bep_state::file_error(files[i]) is None);
    assert(c.value <= i64::MAX);
    statements::law_bytes_round_trip(c.id);
}

/// The files are the same but for the order of their blocks and counters.
pub open spec fn same_but_for_order(a: FileInfoView, b: FileInfoView) -> bool {
    &&& a == (FileInfoView { blocks: a.blocks, version: a.version, ..b })
    &&& a.blocks.to_multiset() == b.blocks.to_multiset()
    &&& a.version is Some
    &&& b.version is Some
    &&& a.version->0.counters.to_multiset() == b.version->0.counters.to_multiset()
}

/// The files of an index are in the map under their names, with the numbers of their
/// changes, and no others are; their blocks and counters may be in any order.
pub open spec fn holds_files(
    read: Map<Seq<char>, FileInfoView>,
    files: Seq<FileInfoView>,
    sequence: i64,
) -> bool {
    &&& forall|name: Seq<char>| #[trigger]
        read.dom().contains(name) <==> exists|i: int|
            0 <= i < files.len() && (#[trigger] files[i]).name == name
    &&& forall|i: int|
        0 <= i < files.len() ==> same_but_for_order(
            read[(#[trigger] files[i]).name],
            FileInfoView { sequence: (sequence + i + 1) as i64, ..files[i] },
        )
}

/// An index that was written is read back from its rows, in whatever order they come: each
/// file under its name, with the number of its change.
pub proof fn law_index_read_in_any_order(
    files: Seq<FileInfoView>,
    folder: Seq<char>,
    device: Seq<char>,
    sequence: i64,
    rows: Seq<IndexRowView>,
    versions: Seq<VersionRowView>,
)
    requires
        indices::names_distinct(files),
        forall|i: int|
            0 <= i < files.len() ==> bep_state::file_error(#[trigger] files[i]) is None,
        rows.to_multiset() == bep_state::all_index_rows(
            files,
            folder,
            device,
            sequence,
        ).to_multiset(),
        versions.to_multiset() == bep_state::all_version_rows(files, folder, device).to_multiset(),
    ensures
        rows::index_of_rows(rows, versions) is Ok,
        holds_files(rows::index_of_rows(rows, versions)->Ok_0, files, sequence),
{
    let all = bep_state::all_index_rows(files, folder, device, sequence);
    let all_versions = bep_state::all_version_rows(files, folder, device);
    assert forall|row: IndexRowView| #[trigger] rows.contains(row) implies all.contains(row) by {
        lemma_permuted_contains(rows, all, row);
    }
    lemma_written_rows_agree(files, folder, device, sequence, rows);
    lemma_written_rows_agree(files, folder, device, sequence, all);
    assert forall|k: int| 0 <= k < versions.len() implies rows::counter_of(
        #[trigger] versions[k],
    ) is Some by {
        assert(versions.contains(versions[k]));
        lemma_permuted_contains(versions, all_versions, versions[k]);
        lemma_written_counters(files, folder, device, versions[k]);
    }
    assert forall|k: int| 0 <= k < all_versions.len() implies rows::counter_of(
        #[trigger] all_versions[k],
    ) is Some by {
        assert(all_versions.contains(all_versions[k]));
        lemma_written_counters(files, folder, device, all_versions[k]);
    }
    lemma_index_of_rows(rows, versions);
    lemma_index_of_rows(all, all_versions);
    bep_state::law_index_read_back(files, folder, device, sequence);
    let read = rows::index_of_rows(rows, versions)->Ok_0;
    let read_in_order = rows::index_of_rows(all, all_versions)->Ok_0;
    assert forall|i: int| 0 <= i < files.len() implies read.dom().contains(
        (#[trigger] files[i]).name,
    ) && same_but_for_order(
        read[files[i].name],
        FileInfoView { sequence: (sequence + i + 1) as i64, ..files[i] },
    ) by {
        let name = files[i].name;
        let row = rows_of(files, folder, device, sequence, i)[0];
        assert(rows_of(files, folder, device, sequence, i).contains(row));
        lemma_row_of_file(files, folder, device, sequence, i, row);
        lemma_all_index_rows(files, folder, device, sequence, row);
        lemma_permuted_contains(rows, all, row);
        let k = choose|k: int| 0 <= k < rows.len() && rows[k] == row;
        let l = choose|l: int| 0 <= l < all.len() && all[l] == row;
        assert(rows[k].file.name == name && all[l].file.name == name);
        assert(has_row(rows, name));
        lemma_gathered_permuted(rows, all, block_for(name));
        lemma_gathered_permuted(versions, all_versions, counter_for(name));
        assert(read_in_order[all[l].file.name].blocks == files[i].blocks);
        assert(read_in_order[all[l].file.name].version == files[i].version);
        assert(bep_state::file_error(files[i]) is None);
    }
    assert forall|name: Seq<char>| #[trigger] read.dom().contains(name) implies exists|i: int|
        0 <= i < files.len() && (#[trigger] files[i]).name == name by {
        let k = choose|k: int| 0 <= k < rows.len() && (#[trigger] rows[k]).file.name == name;
        let i = lemma_file_of_row(files, folder, device, sequence, rows, k);
        assert(files[i].name == name);
    }
}

// ---------------------------------------------------------------------------
// The tables

/// The tables that hold files, their versions and their blocks. A row is the values that it
/// was written with. Files are kept by folder, device and name; a version is there once; and
/// blocks are kept by all of their values but the weak hash and the storage status.
#[verifier::ext_equal]
pub struct Tables {
    pub files: Map<FileKey, Seq<ValueView>>,
    pub versions: Set<Seq<ValueView>>,
    pub blocks: Map<Seq<ValueView>, Seq<ValueView>>,
}

/// The file that the row of a file or of a version is of.
pub open spec fn file_key(v: Seq<ValueView>) -> FileKey {
    FileKey {
        folder: bep_state::as_text(v[0]),
        device: bep_state::as_text(v[1]),
        name: bep_state::as_text(v[2]),
    }
}

/// The file that the row of a block is of.
pub open spec fn block_key(v: Seq<ValueView>) -> FileKey {
    FileKey {
        folder: bep_state::as_text(v[1]),
        device: bep_state::as_text(v[2]),
        name: bep_state::as_text(v[0]),
    }
}

/// The values that a block is kept by.
pub open spec fn block_id(v: Seq<ValueView>) -> Seq<ValueView> {
    v.take(6)
}

/// The file is one of the index of a folder for a device.
pub open spec fn in_index(key: FileKey, folder: Seq<char>, device: Seq<char>) -> bool {
    key.folder == folder && key.device == device
}

/// The tables without the files of an index, and without what is kept of them.
pub open spec fn without_index(t: Tables, folder: Seq<char>, device: Seq<char>) -> Tables {
    Tables {
        files: t.files.remove_keys(Set::new(|key: FileKey| in_index(key, folder, device))),
        versions: t.versions.filter(
            |v: Seq<ValueView>| !in_index(file_key(v), folder, device),
        ),
        blocks: t.blocks.remove_keys(
            Set::new(|b: Seq<ValueView>| in_index(block_key(b), folder, device)),
        ),
    }
}

/// What the tables keep of one file.
#[verifier::ext_equal]
pub struct Kept {
    pub file: Option<Seq<ValueView>>,
    pub versions: Set<Seq<ValueView>>,
    pub blocks: Map<Seq<ValueView>, Seq<ValueView>>,
}

/// What is kept of a file that is not there.
pub open spec fn nothing() -> Kept {
    Kept { file: None, versions: Set::empty(), blocks: Map::empty() }
}

/// What the tables keep of a file.
pub open spec fn kept(t: Tables, key: FileKey) -> Kept {
    Kept {
        file: if t.files.dom().contains(key) {
            Some(t.files[key])
        } else {
            None
        },
        versions: Set::new(|v: Seq<ValueView>| t.versions.contains(v) && file_key(v) == key),
        blocks: Map::new(
            |b: Seq<ValueView>| t.blocks.dom().contains(b) && block_key(b) == key,
            |b: Seq<ValueView>| t.blocks[b],
        ),
    }
}

/// The row of a file or of a version with another name in it.
pub open spec fn with_name(v: Seq<ValueView>, name: Seq<char>) -> Seq<ValueView> {
    v.update(2, ValueView::Text(name))
}

/// The row of a block, or what it is kept by, with another name in it.
pub open spec fn block_with_name(v: Seq<ValueView>, name: Seq<char>) -> Seq<ValueView> {
    v.update(0, ValueView::Text(name))
}

/// What is kept of a file, under another name.
pub open spec fn renamed(k: Kept, old_name: Seq<char>, name: Seq<char>) -> Kept {
    Kept {
        file: match k.file {
            Some(v) => Some(with_name(v, name)),
            None => None,
        },
        versions: Set::new(
            |v: Seq<ValueView>|
                exists|w: Seq<ValueView>| #[trigger]
                    k.versions.contains(w) && v == with_name(w, name),
        ),
        blocks: Map::new(
            |b: Seq<ValueView>|
                exists|w: Seq<ValueView>| #[trigger]
                    k.blocks.dom().contains(w) && b == block_with_name(w, name),
            |b: Seq<ValueView>| block_with_name(k.blocks[block_with_name(b, old_name)], name),
        ),
    }
}

/// The tables without a file, and without what is kept of it.
pub open spec fn without_file(t: Tables, key: FileKey) -> Tables {
    Tables {
        files: t.files.remove(key),
        versions: t.versions.filter(|v: Seq<ValueView>| file_key(v) != key),
        blocks: t.blocks.remove_keys(Set::new(|b: Seq<ValueView>| block_key(b) == key)),
    }
}

/// The tables with a file under another name, and with it what is kept of it.
pub open spec fn with_renamed(t: Tables, key: FileKey, name: Seq<char>) -> Tables {
    if t.files.dom().contains(key) {
        let moved = renamed(kept(t, key), key.name, name);
        let others = without_file(t, key);
        Tables {
            files: others.files.insert(FileKey { name, ..key }, moved.file->0),
            versions: others.versions.union(moved.versions),
            blocks: others.blocks.union_prefer_right(moved.blocks),
        }
    } else {
        t
    }
}

/// The tables after one of the statements that files are written with. A file that is there
/// is written over; a version or a block that is there stays; and with a file goes what is
/// kept of it, or is renamed. A file is only renamed to what no other has as its name.
pub open spec fn executed(t: Tables, s: StatementView) -> Tables {
    let v = s.values;
    match s.query {
        Query::InsertFile => Tables { files: t.files.insert(file_key(v), v), ..t },
        Query::InsertVersion => Tables { versions: t.versions.insert(v), ..t },
        Query::InsertBlock => if t.blocks.dom().contains(block_id(v)) {
            t
        } else {
            Tables { blocks: t.blocks.insert(block_id(v), v), ..t }
        },
        Query::DeleteFiles => without_index(
            t,
            bep_state::as_text(v[0]),
            bep_state::as_text(v[1]),
        ),
        Query::DeleteFile => without_file(t, file_key(v)),
        Query::RenameFile => with_renamed(t, file_key(v.skip(1)), bep_state::as_text(v[0])),
        _ => t,
    }
}

/// The tables after statements, in order.
pub open spec fn executed_all(t: Tables, ss: Seq<StatementView>) -> Tables
    decreases ss.len(),
{
    if ss.len() == 0 {
        t
    } else {
        executed(executed_all(t, ss.drop_last()), ss.last())
    }
}

/// A file has blocks.
pub open spec fn has_blocks(t: Tables, key: FileKey) -> bool {
    exists|b: Seq<ValueView>| #[trigger] t.blocks.dom().contains(b) && block_key(b) == key
}

/// A row with a file and one of its blocks.
pub open spec fn joined_row(file: Seq<ValueView>, block: Seq<ValueView>) -> IndexRowView {
    let b = bep_state::block_row(block);
    IndexRowView {
        file: bep_state::file_row(file),
        offset: Some(b.offset),
        bi_size: Some(b.bi_size),
        hash: Some(b.hash),
        weak_hash: b.weak_hash,
    }
}

/// A row with a file that has no blocks.
pub open spec fn lone_row(file: Seq<ValueView>) -> IndexRowView {
    IndexRowView {
        file: bep_state::file_row(file),
        offset: None,
        bi_size: None,
        hash: None,
        weak_hash: None,
    }
}

/// The row comes for a file: there is one for each of its blocks, or a single one where it
/// has none.
pub open spec fn is_row_in(t: Tables, key: FileKey, row: IndexRowView) -> bool {
    &&& t.files.dom().contains(key)
    &&& if has_blocks(t, key) {
        exists|b: Seq<ValueView>| #[trigger]
            t.blocks.dom().contains(b) && block_key(b) == key && row == joined_row(
                t.files[key],
                t.blocks[b],
            )
    } else {
        row == lone_row(t.files[key])
    }
}

/// The row comes for a version of a file that is there.
pub open spec fn is_version_in(t: Tables, v: Seq<ValueView>, row: VersionRowView) -> bool {
    t.versions.contains(v) && t.files.dom().contains(file_key(v)) && row == bep_state::version_row(v)
}

/// The rows that come when the index of a folder for a device is asked for: each once, in
/// whatever order.
pub open spec fn is_answer(
    t: Tables,
    folder: Seq<char>,
    device: Seq<char>,
    rows: Seq<IndexRowView>,
    versions: Seq<VersionRowView>,
) -> bool {
    &&& rows.no_duplicates()
    &&& forall|row: IndexRowView| #[trigger]
        rows.contains(row) <==> exists|key: FileKey|
            in_index(key, folder, device) && #[trigger] is_row_in(t, key, row)
    &&& versions.no_duplicates()
    &&& forall|row: VersionRowView| #[trigger]
        versions.contains(row) <==> exists|v: Seq<ValueView>|
            in_index(file_key(v), folder, device) && #[trigger] is_version_in(t, v, row)
}

/// What removes the files of an index.
pub open spec fn delete_files_statement(folder: Seq<char>, device: Seq<char>) -> StatementView {
    StatementView {
        query: Query::DeleteFiles,
        values: seq![ValueView::Text(folder), ValueView::Text(device)],
    }
}

/// All that is done to put the files of an index in the place of those that were there,
/// where `sequence` is the number of the last change.
pub open spec fn replacing_statements(
    files: Seq<FileInfoView>,
    folder: Seq<char>,
    device: Seq<char>,
    sequence: i64,
) -> Seq<StatementView> {
    seq![statements::bare(Query::Begin), delete_files_statement(folder, device)] + (
    bep_state::files_plan(
        files,
        folder,
        device,
        RemovalView::Keep,
        Some(sequence),
    )->Ok_0).statements.push(statements::bare(Query::End))
}

pub proof fn lemma_executed_add(t: Tables, a: Seq<StatementView>, b: Seq<StatementView>)
    ensures
        executed_all(t, a + b) == executed_all(executed_all(t, a), b),
    decreases b.len(),
{
    if b.len() == 0 {
        assert(a + b =~= a);
    } else {
        assert((a + b).drop_last() =~= a + b.drop_last());
        assert((a + b).last() == b.last());
        lemma_executed_add(t, a, b.drop_last());
    }
}

pub proof fn lemma_executed_one(t: Tables, s: StatementView)
    ensures
        executed_all(t, seq![s]) == executed(t, s),
{
    reveal_with_fuel(executed_all, 2);
    assert(seq![s].drop_last() =~= Seq::empty());
    assert(seq![s].last() == s);
}

// ---------------------------------------------------------------------------
// Other indices stay

/// The statement has to do with the files of one index alone.
pub open spec fn is_for(s: StatementView, folder: Seq<char>, device: Seq<char>) -> bool {
    match s.query {
        Query::InsertFile => in_index(file_key(s.values), folder, device),
        Query::InsertVersion => in_index(file_key(s.values), folder, device),
        Query::InsertBlock => s.values.len() >= 6 && in_index(
            block_key(s.values),
            folder,
            device,
        ),
        Query::DeleteFiles => bep_state::as_text(s.values[0]) == folder && bep_state::as_text(
            s.values[1],
        ) == device,
        Query::Begin => true,
        Query::End => true,
        _ => false,
    }
}

/// The tables are the same but for one index.
pub open spec fn same_elsewhere(
    t: Tables,
    u: Tables,
    folder: Seq<char>,
    device: Seq<char>,
) -> bool {
    &&& forall|key: FileKey|
        !in_index(key, folder, device) ==> #[trigger] t.files.dom().contains(key)
            == u.files.dom().contains(key) && (t.files.dom().contains(key) ==> t.files[key]
            == u.files[key])
    &&& forall|v: Seq<ValueView>|
        !in_index(file_key(v), folder, device) ==> #[trigger] t.versions.contains(v)
            == u.versions.contains(v)
    &&& forall|b: Seq<ValueView>|
        !in_index(block_key(b), folder, device) ==> #[trigger] t.blocks.dom().contains(b)
            == u.blocks.dom().contains(b) && (t.blocks.dom().contains(b) ==> t.blocks[b]
            == u.blocks[b])
}

proof fn lemma_executed_elsewhere(
    t: Tables,
    s: StatementView,
    folder: Seq<char>,
    device: Seq<char>,
)
    requires
        is_for(s, folder, device),
    ensures
        same_elsewhere(t, executed(t, s), folder, device),
{
    if s.query is InsertBlock {
        let b = block_id(s.values);
        assert(b[0] == s.values[0] && b[1] == s.values[1] && b[2] == s.values[2]);
        assert(in_index(block_key(b), folder, device));
    }
}

proof fn lemma_all_elsewhere(
    t: Tables,
    ss: Seq<StatementView>,
    folder: Seq<char>,
    device: Seq<char>,
)
    requires
        forall|i: int| 0 <= i < ss.len() ==> is_for(#[trigger] ss[i], folder, device),
    ensures
        same_elsewhere(t, executed_all(t, ss), folder, device),
    decreases ss.len(),
{
    if ss.len() > 0 {
        let front = ss.drop_last();
        assert forall|i: int| 0 <= i < front.len() implies is_for(
            #[trigger] front[i],
            folder,
            device,
        ) by {
            assert(front[i] == ss[i]);
        }
        lemma_all_elsewhere(t, front, folder, device);
        let u = executed_all(t, front);
        let w = executed_all(t, ss);
        assert(is_for(ss[ss.len() - 1], folder, device));
        lemma_executed_elsewhere(u, ss.last(), folder, device);
        assert forall|key: FileKey| !in_index(key, folder, device) implies
            #[trigger] t.files.dom().contains(key) == w.files.dom().contains(key) && (
        t.files.dom().contains(key) ==> t.files[key] == w.files[key]) by {
            assert(u.files.dom().contains(key) == w.files.dom().contains(key));
        }
        assert forall|v: Seq<ValueView>| !in_index(file_key(v), folder, device) implies
            #[trigger] t.versions.contains(v) == w.versions.contains(v) by {
            assert(u.versions.contains(v) == w.versions.contains(v));
        }
        assert forall|b: Seq<ValueView>| !in_index(block_key(b), folder, device) implies
            #[trigger] t.blocks.dom().contains(b) == w.blocks.dom().contains(b) && (
        t.blocks.dom().contains(b) ==> t.blocks[b] == w.blocks[b]) by {
            assert(u.blocks.dom().contains(b) == w.blocks.dom().contains(b));
        }
    }
}

proof fn lemma_row_elsewhere(
    t: Tables,
    u: Tables,
    folder: Seq<char>,
    device: Seq<char>,
    key: FileKey,
    row: IndexRowView,
)
    requires
        same_elsewhere(t, u, folder, device),
        !in_index(key, folder, device),
        is_row_in(t, key, row),
    ensures
        is_row_in(u, key, row),
{
    assert(t.files.dom().contains(key));
    if has_blocks(t, key) {
        let b = choose|b: Seq<ValueView>| #[trigger]
            t.blocks.dom().contains(b) && block_key(b) == key && row == joined_row(
                t.files[key],
                t.blocks[b],
            );
        assert(t.blocks.dom().contains(b));
        assert(u.blocks.dom().contains(b));
    } else if has_blocks(u, key) {
        let b = choose|b: Seq<ValueView>| #[trigger]
            u.blocks.dom().contains(b) && block_key(b) == key;
        assert(!t.blocks.dom().contains(b));
    }
}

proof fn lemma_same_elsewhere_symmetric(
    t: Tables,
    u: Tables,
    folder: Seq<char>,
    device: Seq<char>,
)
    requires
        same_elsewhere(t, u, folder, device),
    ensures
        same_elsewhere(u, t, folder, device),
{
    assert forall|key: FileKey| !in_index(key, folder, device) implies
        #[trigger] u.files.dom().contains(key) == t.files.dom().contains(key) && (
    u.files.dom().contains(key) ==> u.files[key] == t.files[key]) by {
        assert(t.files.dom().contains(key) == u.files.dom().contains(key));
    }
    assert forall|v: Seq<ValueView>| !in_index(file_key(v), folder, device) implies
        #[trigger] u.versions.contains(v) == t.versions.contains(v) by {
        assert(t.versions.contains(v) == u.versions.contains(v));
    }
    assert forall|b: Seq<ValueView>| !in_index(block_key(b), folder, device) implies
        #[trigger] u.blocks.dom().contains(b) == t.blocks.dom().contains(b) && (
    u.blocks.dom().contains(b) ==> u.blocks[b] == t.blocks[b]) by {
        assert(t.blocks.dom().contains(b) == u.blocks.dom().contains(b));
    }
}

proof fn lemma_answer_elsewhere(
    t: Tables,
    u: Tables,
    folder: Seq<char>,
    device: Seq<char>,
    other_folder: Seq<char>,
    other_device: Seq<char>,
    rows: Seq<IndexRowView>,
    versions: Seq<VersionRowView>,
)
    requires
        same_elsewhere(t, u, folder, device),
        other_folder != folder || other_device != device,
        is_answer(t, other_folder, other_device, rows, versions),
    ensures
        is_answer(u, other_folder, other_device, rows, versions),
{
    lemma_same_elsewhere_symmetric(t, u, folder, device);
    assert forall|row: IndexRowView| #[trigger] rows.contains(row) <==> exists|key: FileKey|
        in_index(key, other_folder, other_device) && #[trigger] is_row_in(u, key, row) by {
        if rows.contains(row) {
            let key = choose|key: FileKey|
                in_index(key, other_folder, other_device) && #[trigger] is_row_in(t, key, row);
            lemma_row_elsewhere(t, u, folder, device, key, row);
        }
        if exists|key: FileKey|
            in_index(key, other_folder, other_device) && #[trigger] is_row_in(u, key, row) {
            let key = choose|key: FileKey|
                in_index(key, other_folder, other_device) && #[trigger] is_row_in(u, key, row);
            lemma_row_elsewhere(u, t, folder, device, key, row);
        }
    }
    assert forall|row: VersionRowView| #[trigger] versions.contains(row) <==> exists|
        v: Seq<ValueView>,
    |
        in_index(file_key(v), other_folder, other_device) && #[trigger] is_version_in(u, v, row) by {
        if versions.contains(row) {
            let v = choose|v: Seq<ValueView>|
                in_index(file_key(v), other_folder, other_device) && #[trigger] is_version_in(
                    t,
                    v,
                    row,
                );
            assert(t.versions.contains(v) && t.files.dom().contains(file_key(v)));
            assert(is_version_in(u, v, row));
        }
        if exists|v: Seq<ValueView>|
            in_index(file_key(v), other_folder, other_device) && #[trigger] is_version_in(
                u,
                v,
                row,
            ) {
            let v = choose|v: Seq<ValueView>|
                in_index(file_key(v), other_folder, other_device) && #[trigger] is_version_in(
                    u,
                    v,
                    row,
                );
            assert(u.versions.contains(v) && u.files.dom().contains(file_key(v)));
            assert(is_version_in(t, v, row));
        }
    }
}

/// All statements that write files are for the index of the folder and the device.
proof fn lemma_plan_is_for(
    files: Seq<FileInfoView>,
    folder: Seq<char>,
    device: Seq<char>,
    sequence: Option<i64>,
)
    requires
        bep_state::files_plan(files, folder, device, RemovalView::Keep, sequence) is Ok,
    ensures
        ({
            let plan = bep_state::files_plan(
                files,
                folder,
                device,
                RemovalView::Keep,
                sequence,
            )->Ok_0;
            forall|i: int|
                0 <= i < plan.statements.len() ==> is_for(
                    #[trigger] plan.statements[i],
                    folder,
                    device,
                )
        }),
    decreases files.len(),
{
    if files.len() > 0 {
        let front = files.drop_last();
        let f = files.last();
        lemma_plan_is_for(front, folder, device, sequence);
        let before = (bep_state::files_plan(
            front,
            folder,
            device,
            RemovalView::Keep,
            sequence,
        )->Ok_0).statements;
        let plan = bep_state::files_plan(
            files,
            folder,
            device,
            RemovalView::Keep,
            sequence,
        )->Ok_0;
        let key = key_of(folder, device, f);
        let n = plan.sequence->0;
        let added = bep_state::file_statements(key, f, n);
        assert(plan.statements =~= before + added);
        assert forall|i: int| 0 <= i < plan.statements.len() implies is_for(
            #[trigger] plan.statements[i],
            folder,
            device,
        ) by {
            if i >= before.len() {
                let k = i - before.len();
                assert(plan.statements[i] == added[k]);
                let cs = f.version->0.counters;
                if k == 0 {
                    assert(added[0] == bep_state::insert_file_statement(key, f, n));
                } else if k <= cs.len() {
                    assert(added[k] == bep_state::insert_version_statement(key, cs[k - 1]));
                } else {
                    let m = k - 1 - cs.len();
                    assert(added[k] == bep_state::insert_block_statement(key, f.blocks[m]));
                }
            }
        }
    }
}

/// Replacing an index leaves every other index as it was: the same rows come when another
/// folder or another device is asked for.
pub proof fn law_other_indices_stay(
    t: Tables,
    files: Seq<FileInfoView>,
    folder: Seq<char>,
    device: Seq<char>,
    sequence: i64,
    other_folder: Seq<char>,
    other_device: Seq<char>,
    rows: Seq<IndexRowView>,
    versions: Seq<VersionRowView>,
)
    requires
        bep_state::files_plan(files, folder, device, RemovalView::Keep, Some(sequence)) is Ok,
        other_folder != folder || other_device != device,
    ensures
        is_answer(
            executed_all(t, replacing_statements(files, folder, device, sequence)),
            other_folder,
            other_device,
            rows,
            versions,
        ) == is_answer(t, other_folder, other_device, rows, versions),
{
    let ss = replacing_statements(files, folder, device, sequence);
    let plan = (bep_state::files_plan(
        files,
        folder,
        device,
        RemovalView::Keep,
        Some(sequence),
    )->Ok_0).statements;
    lemma_plan_is_for(files, folder, device, Some(sequence));
    assert forall|i: int| 0 <= i < ss.len() implies is_for(#[trigger] ss[i], folder, device) by {
        if 2 <= i < ss.len() - 1 {
            assert(ss[i] == plan[i - 2]);
        }
    }
    lemma_all_elsewhere(t, ss, folder, device);
    let u = executed_all(t, ss);
    lemma_same_elsewhere_symmetric(t, u, folder, device);
    if is_answer(t, other_folder, other_device, rows, versions) {
        lemma_answer_elsewhere(
            t,
            u,
            folder,
            device,
            other_folder,
            other_device,
            rows,
            versions,
        );
    }
    if is_answer(u, other_folder, other_device, rows, versions) {
        lemma_answer_elsewhere(
            u,
            t,
            folder,
            device,
            other_folder,
            other_device,
            rows,
            versions,
        );
    }
}

// ---------------------------------------------------------------------------
// The index that was replaced

/// The row of the file at position `i` of an index.
pub open spec fn file_values(
    files: Seq<FileInfoView>,
    folder: Seq<char>,
    device: Seq<char>,
    sequence: i64,
    i: int,
) -> Seq<ValueView> {
    bep_state::insert_file_statement(
        key_of(folder, device, files[i]),
        files[i],
        (sequence + i + 1) as i64,
    ).values
}

pub open spec fn version_values(key: FileKey, c: CounterView) -> Seq<ValueView> {
    bep_state::insert_version_statement(key, c).values
}

pub open spec fn block_values(key: FileKey, b: BlockInfoView) -> Seq<ValueView> {
    bep_state::insert_block_statement(key, b).values
}

/// One of the counters has these values.
pub open spec fn has_version(key: FileKey, cs: Seq<CounterView>, v: Seq<ValueView>) -> bool {
    exists|j: int| 0 <= j < cs.len() && v == version_values(key, #[trigger] cs[j])
}

/// One of the blocks is kept by these values.
pub open spec fn has_block(key: FileKey, bs: Seq<BlockInfoView>, b: Seq<ValueView>) -> bool {
    exists|j: int| 0 <= j < bs.len() && b == block_id(block_values(key, #[trigger] bs[j]))
}

/// No two blocks have the same offset, size and hash.
pub open spec fn blocks_distinct(bs: Seq<BlockInfoView>) -> bool {
    forall|i: int, j: int|
        0 <= i < j < bs.len() ==> (#[trigger] bs[i]).offset != (#[trigger] bs[j]).offset
            || bs[i].size != bs[j].size || bs[i].hash != bs[j].hash
}

/// What is in the tables of one index are these files.
pub open spec fn holds_index(
    t: Tables,
    files: Seq<FileInfoView>,
    folder: Seq<char>,
    device: Seq<char>,
    sequence: i64,
) -> bool {
    &&& forall|key: FileKey|
        in_index(key, folder, device) ==> (#[trigger] t.files.dom().contains(key) <==> exists|i: int|
            0 <= i < files.len() && key == key_of(folder, device, #[trigger] files[i]))
    &&& forall|i: int|
        0 <= i < files.len() ==> t.files[key_of(folder, device, #[trigger] files[i])]
            == file_values(files, folder, device, sequence, i)
    &&& forall|v: Seq<ValueView>|
        in_index(file_key(v), folder, device) ==> (#[trigger] t.versions.contains(v) <==> exists|
            i: int,
        |
            0 <= i < files.len() && has_version(
                key_of(folder, device, #[trigger] files[i]),
                files[i].version->0.counters,
                v,
            ))
    &&& forall|b: Seq<ValueView>|
        in_index(block_key(b), folder, device) ==> (#[trigger] t.blocks.dom().contains(b)
            <==> exists|i: int|
            0 <= i < files.len() && has_block(
                key_of(folder, device, #[trigger] files[i]),
                files[i].blocks,
                b,
            ))
    &&& forall|i: int, j: int|
        0 <= i < files.len() && 0 <= j < files[i].blocks.len() ==> t.blocks[block_id(
            block_values(key_of(folder, device, files[i]), #[trigger] files[i].blocks[j]),
        )] == block_values(key_of(folder, device, files[i]), files[i].blocks[j])
}

proof fn lemma_keys(key: FileKey, f: FileInfoView, sequence: i64, c: CounterView, b: BlockInfoView)
    ensures
        file_key(bep_state::insert_file_statement(key, f, sequence).values) == key,
        file_key(version_values(key, c)) == key,
        block_key(block_values(key, b)) == key,
        block_key(block_id(block_values(key, b))) == key,
        block_id(block_values(key, b)) == seq![
            ValueView::Text(key.name),
            ValueView::Text(key.folder),
            ValueView::Text(key.device),
            ValueView::Int(b.offset),
            ValueView::Int(b.size as i64),
            ValueView::Bytes(b.hash),
        ],
{
    assert(block_id(block_values(key, b)) =~= seq![
        ValueView::Text(key.name),
        ValueView::Text(key.folder),
        ValueView::Text(key.device),
        ValueView::Int(b.offset),
        ValueView::Int(b.size as i64),
        ValueView::Bytes(b.hash),
    ]);
}

/// Different blocks are kept by different values.
proof fn lemma_block_ids_differ(key: FileKey, bs: Seq<BlockInfoView>, i: int, j: int)
    requires
        blocks_distinct(bs),
        0 <= i < j < bs.len(),
    ensures
        block_id(block_values(key, bs[i])) != block_id(block_values(key, bs[j])),
{
    let a = block_id(block_values(key, bs[i]));
    let b = block_id(block_values(key, bs[j]));
    let any_file = arbitrary::<FileInfoView>();
    let any_counter = arbitrary::<CounterView>();
    lemma_keys(key, any_file, 0, any_counter, bs[i]);
    lemma_keys(key, any_file, 0, any_counter, bs[j]);
    assert(a[3] == ValueView::Int(bs[i].offset) && b[3] == ValueView::Int(bs[j].offset));
    assert(a[4] == ValueView::Int(bs[i].size as i64) && b[4] == ValueView::Int(
        bs[j].size as i64,
    ));
    assert(a[5] == ValueView::Bytes(bs[i].hash) && b[5] == ValueView::Bytes(bs[j].hash));
}

proof fn lemma_versions_written(t: Tables, key: FileKey, cs: Seq<CounterView>)
    ensures
        ({
            let r = executed_all(
                t,
                cs.map_values(|c: CounterView| bep_state::insert_version_statement(key, c)),
            );
            &&& r.files == t.files
            &&& r.blocks == t.blocks
            &&& forall|v: Seq<ValueView>| #[trigger]
                r.versions.contains(v) <==> t.versions.contains(v) || has_version(key, cs, v)
        }),
    decreases cs.len(),
{
    let op = |c: CounterView| bep_state::insert_version_statement(key, c);
    let ss = cs.map_values(op);
    if cs.len() > 0 {
        let front = cs.drop_last();
        lemma_versions_written(t, key, front);
        assert(ss.drop_last() =~= front.map_values(op));
        assert(ss.last() == bep_state::insert_version_statement(key, cs.last()));
        let u = executed_all(t, front.map_values(op));
        let r = executed_all(t, ss);
        assert forall|v: Seq<ValueView>| #[trigger] r.versions.contains(v) <==> t.versions.contains(
            v,
        ) || has_version(key, cs, v) by {
            assert(u.versions.contains(v) <==> t.versions.contains(v) || has_version(key, front, v));
            if has_version(key, front, v) {
                let j = choose|j: int|
                    0 <= j < front.len() && v == version_values(key, #[trigger] front[j]);
                assert(v == version_values(key, cs[j]));
            }
            if has_version(key, cs, v) {
                let j = choose|j: int|
                    0 <= j < cs.len() && v == version_values(key, #[trigger] cs[j]);
                if j < front.len() {
                    assert(v == version_values(key, front[j]));
                }
            }
            if v == version_values(key, cs.last()) {
                assert(v == version_values(key, cs[cs.len() - 1]));
            }
        }
    } else {
        assert(ss =~= Seq::empty());
    }
}

proof fn lemma_blocks_written(t: Tables, key: FileKey, bs: Seq<BlockInfoView>)
    requires
        blocks_distinct(bs),
        !has_blocks(t, key),
    ensures
        ({
            let r = executed_all(
                t,
                bs.map_values(|b: BlockInfoView| bep_state::insert_block_statement(key, b)),
            );
            &&& r.files == t.files
            &&& r.versions == t.versions
            &&& forall|b: Seq<ValueView>| #[trigger]
                r.blocks.dom().contains(b) <==> t.blocks.dom().contains(b) || has_block(key, bs, b)
            &&& forall|b: Seq<ValueView>|
                t.blocks.dom().contains(b) ==> #[trigger] r.blocks[b] == t.blocks[b]
            &&& forall|j: int|
                0 <= j < bs.len() ==> r.blocks[block_id(block_values(key, #[trigger] bs[j]))]
                    == block_values(key, bs[j])
        }),
    decreases bs.len(),
{
    let op = |b: BlockInfoView| bep_state::insert_block_statement(key, b);
    let ss = bs.map_values(op);
    if bs.len() > 0 {
        let front = bs.drop_last();
        assert(blocks_distinct(front)) by {
            assert forall|i: int, j: int| 0 <= i < j < front.len() implies (
            #[trigger] front[i]).offset != (#[trigger] front[j]).offset || front[i].size
                != front[j].size || front[i].hash != front[j].hash by {
                assert(front[i] == bs[i] && front[j] == bs[j]);
            }
        }
        lemma_blocks_written(t, key, front);
        assert(ss.drop_last() =~= front.map_values(op));
        assert(ss.last() == bep_state::insert_block_statement(key, bs.last()));
        let u = executed_all(t, front.map_values(op));
        let r = executed_all(t, ss);
        let last = block_values(key, bs.last());
        let n = front.len() as int;
        lemma_keys(
            key,
            arbitrary::<FileInfoView>(),
            0,
            arbitrary::<CounterView>(),
            bs.last(),
        );
        assert(!u.blocks.dom().contains(block_id(last))) by {
            if has_block(key, front, block_id(last)) {
                let j = choose|j: int|
                    0 <= j < front.len() && block_id(last) == block_id(
                        block_values(key, #[trigger] front[j]),
                    );
                lemma_block_ids_differ(key, bs, j, n);
                assert(front[j] == bs[j]);
            }
        }
        assert forall|b: Seq<ValueView>| #[trigger] r.blocks.dom().contains(b)
            <==> t.blocks.dom().contains(b) || has_block(key, bs, b) by {
            assert(u.blocks.dom().contains(b) <==> t.blocks.dom().contains(b) || has_block(
                key,
                front,
                b,
            ));
            if has_block(key, front, b) {
                let j = choose|j: int|
                    0 <= j < front.len() && b == block_id(block_values(key, #[trigger] front[j]));
                assert(b == block_id(block_values(key, bs[j])));
            }
            if has_block(key, bs, b) {
                let j = choose|j: int|
                    0 <= j < bs.len() && b == block_id(block_values(key, #[trigger] bs[j]));
                if j < n {
                    assert(b == block_id(block_values(key, front[j])));
                }
            }
            if b == block_id(last) {
                assert(b == block_id(block_values(key, bs[n])));
            }
        }
        assert forall|b: Seq<ValueView>| t.blocks.dom().contains(b) implies #[trigger] r.blocks[b]
            == t.blocks[b] by {
            assert(u.blocks.dom().contains(b));
            assert(u.blocks[b] == t.blocks[b]);
        }
        assert forall|j: int| 0 <= j < bs.len() implies r.blocks[block_id(
            block_values(key, #[trigger] bs[j]),
        )] == block_values(key, bs[j]) by {
            if j < n {
                lemma_block_ids_differ(key, bs, j, n);
                assert(front[j] == bs[j]);
                assert(u.blocks[block_id(block_values(key, front[j]))] == block_values(
                    key,
                    front[j],
                ));
            }
        }
    } else {
        assert(ss =~= Seq::empty());
    }
}

/// No two blocks of a file are the same, and no two counters are.
pub open spec fn without_repeats(f: FileInfoView) -> bool {
    blocks_distinct(f.blocks) && f.version->0.counters.no_duplicates()
}

proof fn lemma_front_distinct(files: Seq<FileInfoView>)
    requires
        indices::names_distinct(files),
        files.len() > 0,
    ensures
        indices::names_distinct(files.drop_last()),
        forall|i: int| 0 <= i < files.len() - 1 ==> (#[trigger] files[i]).name != files.last().name,
{
    let front = files.drop_last();
    assert forall|i: int, j: int| 0 <= i < j < front.len() implies (#[trigger] front[i]).name != (
    #[trigger] front[j]).name by {
        assert(front[i] == files[i] && front[j] == files[j]);
    }
    assert forall|i: int| 0 <= i < files.len() - 1 implies (
    #[trigger] files[i]).name != files.last().name by {
        assert(files[i].name != files[files.len() - 1].name);
    }
}

/// Writing one more file.
#[verifier::rlimit(40)]
proof fn lemma_file_written(
    u: Tables,
    files: Seq<FileInfoView>,
    folder: Seq<char>,
    device: Seq<char>,
    sequence: i64,
)
    requires
        files.len() > 0,
        indices::names_distinct(files),
        holds_index(u, files.drop_last(), folder, device, sequence),
        blocks_distinct(files.last().blocks),
    ensures
        holds_index(
            executed_all(
                u,
                bep_state::file_statements(
                    key_of(folder, device, files.last()),
                    files.last(),
                    (sequence + files.len()) as i64,
                ),
            ),
            files,
            folder,
            device,
            sequence,
        ),
{
    let front = files.drop_last();
    let f = files.last();
    let n = files.len() - 1;
    let key = key_of(folder, device, f);
    let number = (sequence + files.len()) as i64;
    let cs = f.version->0.counters;
    let bs = f.blocks;
    let insert = bep_state::insert_file_statement(key, f, number);
    let of_versions = cs.map_values(|c: CounterView| bep_state::insert_version_statement(key, c));
    let of_blocks = bs.map_values(|b: BlockInfoView| bep_state::insert_block_statement(key, b));
    let t1 = executed_all(u, seq![insert]);
    let t2 = executed_all(t1, of_versions);
    let t3 = executed_all(t2, of_blocks);
    lemma_front_distinct(files);
    lemma_executed_add(u, seq![insert], of_versions);
    lemma_executed_add(u, seq![insert] + of_versions, of_blocks);
    assert(t3 == executed_all(u, bep_state::file_statements(key, f, number)));
    lemma_executed_one(u, insert);
    lemma_versions_written(t1, key, cs);
    assert(file_key(insert.values) == key);
    assert(!has_blocks(t2, key)) by {
        if has_blocks(t2, key) {
            let b = choose|b: Seq<ValueView>| #[trigger]
                t2.blocks.dom().contains(b) && block_key(b) == key;
            assert(u.blocks.dom().contains(b));
            let i = choose|i: int|
                0 <= i < front.len() && has_block(
                    key_of(folder, device, #[trigger] front[i]),
                    front[i].blocks,
                    b,
                );
            let other = key_of(folder, device, front[i]);
            let j = choose|j: int|
                0 <= j < front[i].blocks.len() && b == block_id(
                    block_values(other, #[trigger] front[i].blocks[j]),
                );
            lemma_keys(
                other,
                arbitrary::<FileInfoView>(),
                0,
                arbitrary::<CounterView>(),
                front[i].blocks[j],
            );
            assert(front[i] == files[i]);
        }
    }
    lemma_blocks_written(t2, key, bs);
    assert forall|k: FileKey| in_index(k, folder, device) implies (
    #[trigger] t3.files.dom().contains(k) <==> exists|i: int|
        0 <= i < files.len() && k == key_of(folder, device, #[trigger] files[i])) by {
        assert(u.files.dom().contains(k) <==> exists|i: int|
            0 <= i < front.len() && k == key_of(folder, device, #[trigger] front[i]));
        if u.files.dom().contains(k) {
            let i = choose|i: int|
                0 <= i < front.len() && k == key_of(folder, device, #[trigger] front[i]);
            assert(k == key_of(folder, device, files[i]));
        }
        if exists|i: int|
            0 <= i < files.len() && k == key_of(folder, device, #[trigger] files[i]) {
            let i = choose|i: int|
                0 <= i < files.len() && k == key_of(folder, device, #[trigger] files[i]);
            if i < n {
                assert(k == key_of(folder, device, front[i]));
            }
        }
        if k == key {
            assert(k == key_of(folder, device, files[n]));
        }
    }
    assert forall|i: int| 0 <= i < files.len() implies t3.files[key_of(
        folder,
        device,
        #[trigger] files[i],
    )] == file_values(files, folder, device, sequence, i) by {
        if i < n {
            assert(front[i] == files[i]);
            assert(u.files[key_of(folder, device, front[i])] == file_values(
                front,
                folder,
                device,
                sequence,
                i,
            ));
        }
    }
    assert forall|v: Seq<ValueView>| in_index(file_key(v), folder, device) implies (
    #[trigger] t3.versions.contains(v) <==> exists|i: int|
        0 <= i < files.len() && has_version(
            key_of(folder, device, #[trigger] files[i]),
            files[i].version->0.counters,
            v,
        )) by {
        assert(t2.versions.contains(v) <==> t1.versions.contains(v) || has_version(key, cs, v));
        assert(u.versions.contains(v) <==> exists|i: int|
            0 <= i < front.len() && has_version(
                key_of(folder, device, #[trigger] front[i]),
                front[i].version->0.counters,
                v,
            ));
        if u.versions.contains(v) {
            let i = choose|i: int|
                0 <= i < front.len() && has_version(
                    key_of(folder, device, #[trigger] front[i]),
                    front[i].version->0.counters,
                    v,
                );
            assert(has_version(key_of(folder, device, files[i]), files[i].version->0.counters, v));
        }
        if exists|i: int|
            0 <= i < files.len() && has_version(
                key_of(folder, device, #[trigger] files[i]),
                files[i].version->0.counters,
                v,
            ) {
            let i = choose|i: int|
                0 <= i < files.len() && has_version(
                    key_of(folder, device, #[trigger] files[i]),
                    files[i].version->0.counters,
                    v,
                );
            if i < n {
                assert(has_version(
                    key_of(folder, device, front[i]),
                    front[i].version->0.counters,
                    v,
                ));
            }
        }
        if has_version(key, cs, v) {
            assert(has_version(key_of(folder, device, files[n]), files[n].version->0.counters, v));
        }
    }
    assert forall|b: Seq<ValueView>| in_index(block_key(b), folder, device) implies (
    #[trigger] t3.blocks.dom().contains(b) <==> exists|i: int|
        0 <= i < files.len() && has_block(
            key_of(folder, device, #[trigger] files[i]),
            files[i].blocks,
            b,
        )) by {
        assert(u.blocks.dom().contains(b) <==> exists|i: int|
            0 <= i < front.len() && has_block(
                key_of(folder, device, #[trigger] front[i]),
                front[i].blocks,
                b,
            ));
        if u.blocks.dom().contains(b) {
            let i = choose|i: int|
                0 <= i < front.len() && has_block(
                    key_of(folder, device, #[trigger] front[i]),
                    front[i].blocks,
                    b,
                );
            assert(has_block(key_of(folder, device, files[i]), files[i].blocks, b));
        }
        if exists|i: int|
            0 <= i < files.len() && has_block(
                key_of(folder, device, #[trigger] files[i]),
                files[i].blocks,
                b,
            ) {
            let i = choose|i: int|
                0 <= i < files.len() && has_block(
                    key_of(folder, device, #[trigger] files[i]),
                    files[i].blocks,
                    b,
                );
            if i < n {
                assert(has_block(key_of(folder, device, front[i]), front[i].blocks, b));
            }
        }
        if has_block(key, bs, b) {
            assert(has_block(key_of(folder, device, files[n]), files[n].blocks, b));
        }
    }
    assert forall|i: int, j: int|
        0 <= i < files.len() && 0 <= j < files[i].blocks.len() implies t3.blocks[block_id(
        block_values(key_of(folder, device, files[i]), #[trigger] files[i].blocks[j]),
    )] == block_values(key_of(folder, device, files[i]), files[i].blocks[j]) by {
        let k = key_of(folder, device, files[i]);
        let b = block_id(block_values(k, files[i].blocks[j]));
        if i < n {
            assert(front[i] == files[i]);
            assert(u.blocks[block_id(block_values(k, front[i].blocks[j]))] == block_values(
                k,
                front[i].blocks[j],
            ));
            lemma_keys(
                k,
                arbitrary::<FileInfoView>(),
                0,
                arbitrary::<CounterView>(),
                files[i].blocks[j],
            );
            assert(has_block(k, front[i].blocks, b));
            assert(u.blocks.dom().contains(b));
            assert(t2.blocks.dom().contains(b));
            assert(t3.blocks[b] == t2.blocks[b]);
        } else {
            assert(files[i].blocks[j] == bs[j]);
        }
    }
}

/// After the statements of the plan, the tables hold the index.
proof fn lemma_plan_written(
    t: Tables,
    files: Seq<FileInfoView>,
    folder: Seq<char>,
    device: Seq<char>,
    sequence: i64,
)
    requires
        holds_index(t, Seq::empty(), folder, device, sequence),
        indices::names_distinct(files),
        forall|i: int| 0 <= i < files.len() ==> blocks_distinct((#[trigger] files[i]).blocks),
        bep_state::files_plan(files, folder, device, RemovalView::Keep, Some(sequence)) is Ok,
    ensures
        ({
            let plan = bep_state::files_plan(
                files,
                folder,
                device,
                RemovalView::Keep,
                Some(sequence),
            )->Ok_0;
            &&& holds_index(
                executed_all(t, plan.statements),
                files,
                folder,
                device,
                sequence,
            )
            &&& plan.sequence == Some((sequence + files.len()) as i64)
            &&& sequence + files.len() <= i64::MAX
            &&& forall|i: int|
                0 <= i < files.len() ==> bep_state::file_error(#[trigger] files[i]) is None
        }),
    decreases files.len(),
{
    if files.len() == 0 {
        assert(files =~= Seq::empty());
    } else {
        let front = files.drop_last();
        let f = files.last();
        let key = key_of(folder, device, f);
        lemma_front_distinct(files);
        assert forall|i: int| 0 <= i < front.len() implies blocks_distinct(
            (#[trigger] front[i]).blocks,
        ) by {
            assert(front[i] == files[i]);
        }
        lemma_plan_written(t, front, folder, device, sequence);
        let before = bep_state::files_plan(
            front,
            folder,
            device,
            RemovalView::Keep,
            Some(sequence),
        )->Ok_0;
        let plan = bep_state::files_plan(
            files,
            folder,
            device,
            RemovalView::Keep,
            Some(sequence),
        )->Ok_0;
        let added = bep_state::file_statements(key, f, (sequence + files.len()) as i64);
        assert(plan.statements =~= before.statements + added);
        lemma_executed_add(t, before.statements, added);
        assert(blocks_distinct(files[files.len() - 1].blocks));
        lemma_file_written(
            executed_all(t, before.statements),
            files,
            folder,
            device,
            sequence,
        );
        assert forall|i: int| 0 <= i < files.len() implies bep_state::file_error(
            #[trigger] files[i],
        ) is None by {
            if i < front.len() {
                assert(front[i] == files[i]);
            }
        }
    }
}

/// Names that are the same are those of the same file.
proof fn lemma_same_name(files: Seq<FileInfoView>, i: int, j: int)
    requires
        indices::names_distinct(files),
        0 <= i < files.len(),
        0 <= j < files.len(),
        files[i].name == files[j].name,
    ensures
        i == j,
{
    if i < j {
        assert(files[i].name != files[j].name);
    } else if j < i {
        assert(files[j].name != files[i].name);
    }
}

/// The block that is kept by these values is one of the file they name.
proof fn lemma_block_in_index(
    t: Tables,
    files: Seq<FileInfoView>,
    folder: Seq<char>,
    device: Seq<char>,
    sequence: i64,
    i: int,
    b: Seq<ValueView>,
) -> (j: int)
    requires
        holds_index(t, files, folder, device, sequence),
        indices::names_distinct(files),
        0 <= i < files.len(),
        t.blocks.dom().contains(b),
        block_key(b) == key_of(folder, device, files[i]),
    ensures
        0 <= j < files[i].blocks.len(),
        t.blocks[b] == block_values(key_of(folder, device, files[i]), files[i].blocks[j]),
{
    assert(in_index(block_key(b), folder, device));
    let k = choose|k: int|
        0 <= k < files.len() && has_block(
            key_of(folder, device, #[trigger] files[k]),
            files[k].blocks,
            b,
        );
    let other = key_of(folder, device, files[k]);
    let j = choose|j: int|
        0 <= j < files[k].blocks.len() && b == block_id(
            block_values(other, #[trigger] files[k].blocks[j]),
        );
    lemma_keys(
        other,
        arbitrary::<FileInfoView>(),
        0,
        arbitrary::<CounterView>(),
        files[k].blocks[j],
    );
    lemma_same_name(files, i, k);
    assert(t.blocks[block_id(block_values(other, files[k].blocks[j]))] == block_values(
        other,
        files[k].blocks[j],
    ));
    j
}

/// A block of a file is kept.
proof fn lemma_block_kept(
    t: Tables,
    files: Seq<FileInfoView>,
    folder: Seq<char>,
    device: Seq<char>,
    sequence: i64,
    i: int,
    j: int,
)
    requires
        holds_index(t, files, folder, device, sequence),
        0 <= i < files.len(),
        0 <= j < files[i].blocks.len(),
    ensures
        ({
            let key = key_of(folder, device, files[i]);
            let b = block_id(block_values(key, files[i].blocks[j]));
            &&& t.blocks.dom().contains(b)
            &&& block_key(b) == key
            &&& t.blocks[b] == block_values(key, files[i].blocks[j])
            &&& has_blocks(t, key)
        }),
{
    let key = key_of(folder, device, files[i]);
    let b = block_id(block_values(key, files[i].blocks[j]));
    lemma_keys(
        key,
        arbitrary::<FileInfoView>(),
        0,
        arbitrary::<CounterView>(),
        files[i].blocks[j],
    );
    assert(in_index(block_key(b), folder, device));
    assert(has_block(key, files[i].blocks, b));
    assert(t.blocks.dom().contains(b));
}

/// The rows that come are those that the files were written as.
proof fn lemma_rows_in_tables(
    t: Tables,
    files: Seq<FileInfoView>,
    folder: Seq<char>,
    device: Seq<char>,
    sequence: i64,
    row: IndexRowView,
)
    requires
        holds_index(t, files, folder, device, sequence),
        indices::names_distinct(files),
    ensures
        (exists|key: FileKey|
            in_index(key, folder, device) && #[trigger] is_row_in(t, key, row))
            <==> bep_state::all_index_rows(files, folder, device, sequence).contains(row),
{
    lemma_all_index_rows(files, folder, device, sequence, row);
    if exists|key: FileKey| in_index(key, folder, device) && #[trigger] is_row_in(t, key, row) {
        let key = choose|key: FileKey|
            in_index(key, folder, device) && #[trigger] is_row_in(t, key, row);
        assert(t.files.dom().contains(key));
        let i = choose|i: int|
            0 <= i < files.len() && key == key_of(folder, device, #[trigger] files[i]);
        assert(t.files[key_of(folder, device, files[i])] == file_values(
            files,
            folder,
            device,
            sequence,
            i,
        ));
        let all = rows_of(files, folder, device, sequence, i);
        if has_blocks(t, key) {
            let b = choose|b: Seq<ValueView>| #[trigger]
                t.blocks.dom().contains(b) && block_key(b) == key && row == joined_row(
                    t.files[key],
                    t.blocks[b],
                );
            let j = lemma_block_in_index(t, files, folder, device, sequence, i, b);
            assert(all[j] == row);
        } else {
            if files[i].blocks.len() > 0 {
                lemma_block_kept(t, files, folder, device, sequence, i, 0);
            }
            assert(all[0] == row);
        }
        assert(all.contains(row));
    }
    if exists|i: int|
        0 <= i < files.len() && (#[trigger] rows_of(files, folder, device, sequence, i)).contains(
            row,
        ) {
        let i = choose|i: int|
            0 <= i < files.len() && (#[trigger] rows_of(
                files,
                folder,
                device,
                sequence,
                i,
            )).contains(row);
        let all = rows_of(files, folder, device, sequence, i);
        let j = choose|j: int| 0 <= j < all.len() && all[j] == row;
        let key = key_of(folder, device, files[i]);
        assert(in_index(key, folder, device));
        assert(t.files.dom().contains(key));
        assert(t.files[key_of(folder, device, files[i])] == file_values(
            files,
            folder,
            device,
            sequence,
            i,
        ));
        if files[i].blocks.len() > 0 {
            lemma_block_kept(t, files, folder, device, sequence, i, j);
            let b = block_id(block_values(key, files[i].blocks[j]));
            assert(t.blocks.dom().contains(b));
            assert(row == joined_row(t.files[key], t.blocks[b]));
        } else {
            if has_blocks(t, key) {
                let b = choose|b: Seq<ValueView>| #[trigger]
                    t.blocks.dom().contains(b) && block_key(b) == key;
                let _ = lemma_block_in_index(t, files, folder, device, sequence, i, b);
            }
        }
        assert(is_row_in(t, key, row));
    }
}

/// A version that is there is one of a file of the index.
proof fn lemma_version_in_index(
    t: Tables,
    files: Seq<FileInfoView>,
    folder: Seq<char>,
    device: Seq<char>,
    sequence: i64,
    v: Seq<ValueView>,
) -> (i: int)
    requires
        holds_index(t, files, folder, device, sequence),
        in_index(file_key(v), folder, device),
        t.versions.contains(v),
    ensures
        0 <= i < files.len(),
        version_rows_of(files, folder, device, i).contains(bep_state::version_row(v)),
{
    let i = choose|i: int|
        0 <= i < files.len() && has_version(
            key_of(folder, device, #[trigger] files[i]),
            files[i].version->0.counters,
            v,
        );
    let cs = files[i].version->0.counters;
    let key = key_of(folder, device, files[i]);
    let j = choose|j: int| 0 <= j < cs.len() && v == version_values(key, #[trigger] cs[j]);
    let all = version_rows_of(files, folder, device, i);
    assert(all[j] == bep_state::version_row(v));
    i
}

/// A version of a file is kept.
proof fn lemma_version_kept(
    t: Tables,
    files: Seq<FileInfoView>,
    folder: Seq<char>,
    device: Seq<char>,
    sequence: i64,
    i: int,
    j: int,
)
    requires
        holds_index(t, files, folder, device, sequence),
        0 <= i < files.len(),
        0 <= j < files[i].version->0.counters.len(),
    ensures
        ({
            let key = key_of(folder, device, files[i]);
            let v = version_values(key, files[i].version->0.counters[j]);
            &&& in_index(file_key(v), folder, device)
            &&& is_version_in(t, v, bep_state::version_row(v))
        }),
{
    let key = key_of(folder, device, files[i]);
    let cs = files[i].version->0.counters;
    let v = version_values(key, cs[j]);
    assert(file_key(v) == key);
    assert(in_index(file_key(v), folder, device));
    assert(has_version(key, cs, v));
    assert(t.versions.contains(v));
    assert(t.files.dom().contains(key));
}

/// The rows of versions that come are those that the versions were written as.
proof fn lemma_versions_in_tables(
    t: Tables,
    files: Seq<FileInfoView>,
    folder: Seq<char>,
    device: Seq<char>,
    sequence: i64,
    row: VersionRowView,
)
    requires
        holds_index(t, files, folder, device, sequence),
    ensures
        (exists|v: Seq<ValueView>|
            in_index(file_key(v), folder, device) && #[trigger] is_version_in(t, v, row))
            <==> bep_state::all_version_rows(files, folder, device).contains(row),
{
    lemma_all_version_rows(files, folder, device, row);
    assert(bep_state::all_version_rows(files, folder, device).contains(row) ==> exists|
        v: Seq<ValueView>,
    |
        in_index(file_key(v), folder, device) && #[trigger] is_version_in(t, v, row)) by {
        if bep_state::all_version_rows(files, folder, device).contains(row) {
            let i = choose|i: int|
                0 <= i < files.len() && (#[trigger] version_rows_of(
                    files,
                    folder,
                    device,
                    i,
                )).contains(row);
            let all = version_rows_of(files, folder, device, i);
            let j = choose|j: int| 0 <= j < all.len() && all[j] == row;
            lemma_version_kept(t, files, folder, device, sequence, i, j);
        }
    }
    assert((exists|v: Seq<ValueView>|
        in_index(file_key(v), folder, device) && #[trigger] is_version_in(t, v, row))
        ==> bep_state::all_version_rows(files, folder, device).contains(row)) by {
        if exists|v: Seq<ValueView>|
            in_index(file_key(v), folder, device) && #[trigger] is_version_in(t, v, row) {
            let v = choose|v: Seq<ValueView>|
                in_index(file_key(v), folder, device) && #[trigger] is_version_in(t, v, row);
            let i = lemma_version_in_index(t, files, folder, device, sequence, v);
            assert(version_rows_of(files, folder, device, i).contains(row));
        }
    }
}

proof fn lemma_add_no_duplicates<A>(a: Seq<A>, b: Seq<A>)
    requires
        a.no_duplicates(),
        b.no_duplicates(),
        forall|x: A| !(#[trigger] a.contains(x) && b.contains(x)),
    ensures
        (a + b).no_duplicates(),
{
    let s = a + b;
    assert forall|i: int, j: int| 0 <= i < s.len() && 0 <= j < s.len() && i != j implies s[i]
        != s[j] by {
        if i < a.len() && j >= a.len() {
            assert(a.contains(a[i]));
            assert(b[j - a.len()] == s[j]);
        } else if j < a.len() && i >= a.len() {
            assert(a.contains(a[j]));
            assert(b[i - a.len()] == s[i]);
        }
    }
}

/// Sequences without duplicates that hold the same are the same but for their order.
proof fn lemma_same_multiset<A>(a: Seq<A>, b: Seq<A>)
    requires
        a.no_duplicates(),
        b.no_duplicates(),
        forall|x: A| #[trigger] a.contains(x) <==> b.contains(x),
    ensures
        a.to_multiset() == b.to_multiset(),
{
    a.lemma_multiset_has_no_duplicates();
    b.lemma_multiset_has_no_duplicates();
    a.to_multiset_ensures();
    b.to_multiset_ensures();
    assert forall|x: A| a.to_multiset().count(x) == b.to_multiset().count(x) by {
        assert(a.contains(x) <==> a.to_multiset().count(x) > 0);
        assert(b.contains(x) <==> b.to_multiset().count(x) > 0);
        if a.contains(x) {
            assert(a.to_multiset().contains(x) && b.to_multiset().contains(x));
        }
    }
    assert(a.to_multiset() =~= b.to_multiset());
}

proof fn lemma_index_rows_distinct(
    files: Seq<FileInfoView>,
    folder: Seq<char>,
    device: Seq<char>,
    sequence: i64,
)
    requires
        indices::names_distinct(files),
        forall|i: int| 0 <= i < files.len() ==> blocks_distinct((#[trigger] files[i]).blocks),
    ensures
        bep_state::all_index_rows(files, folder, device, sequence).no_duplicates(),
    decreases files.len(),
{
    if files.len() > 0 {
        let front = files.drop_last();
        let n = files.len() - 1;
        let before = bep_state::all_index_rows(front, folder, device, sequence);
        let added = rows_of(files, folder, device, sequence, n);
        lemma_front_distinct(files);
        assert forall|i: int| 0 <= i < front.len() implies blocks_distinct(
            (#[trigger] front[i]).blocks,
        ) by {
            assert(front[i] == files[i]);
        }
        lemma_index_rows_distinct(front, folder, device, sequence);
        let bs = files[n].blocks;
        assert(blocks_distinct(files[n].blocks));
        assert forall|i: int, j: int|
            0 <= i < added.len() && 0 <= j < added.len() && i != j implies added[i] != added[j] by {
            let (k, l) = if i < j {
                (i, j)
            } else {
                (j, i)
            };
            assert(bs[k].offset != bs[l].offset || bs[k].size != bs[l].size || bs[k].hash
                != bs[l].hash);
            assert(added[k].offset == Some(bs[k].offset) && added[l].offset == Some(bs[l].offset));
            assert(added[k].bi_size == Some(bs[k].size as i64) && added[l].bi_size == Some(
                bs[l].size as i64,
            ));
            assert(added[k].hash == Some(bs[k].hash) && added[l].hash == Some(bs[l].hash));
        }
        assert forall|row: IndexRowView| !(#[trigger] before.contains(row) && added.contains(row)) by {
            if before.contains(row) && added.contains(row) {
                lemma_all_index_rows(front, folder, device, sequence, row);
                let i = choose|i: int|
                    0 <= i < front.len() && (#[trigger] rows_of(
                        front,
                        folder,
                        device,
                        sequence,
                        i,
                    )).contains(row);
                lemma_row_of_file(front, folder, device, sequence, i, row);
                lemma_row_of_file(files, folder, device, sequence, n, row);
                assert(files[i].name == front[i].name);
            }
        }
        lemma_add_no_duplicates(before, added);
    }
}

proof fn lemma_version_rows_distinct(
    files: Seq<FileInfoView>,
    folder: Seq<char>,
    device: Seq<char>,
)
    requires
        indices::names_distinct(files),
        forall|i: int| 0 <= i < files.len() ==> without_repeats(#[trigger] files[i]),
        forall|i: int|
            0 <= i < files.len() ==> bep_state::file_error(#[trigger] files[i]) is None,
    ensures
        bep_state::all_version_rows(files, folder, device).no_duplicates(),
    decreases files.len(),
{
    if files.len() > 0 {
        let front = files.drop_last();
        let n = files.len() - 1;
        let before = bep_state::all_version_rows(front, folder, device);
        let added = version_rows_of(files, folder, device, n);
        lemma_front_distinct(files);
        assert forall|i: int| 0 <= i < front.len() implies without_repeats(#[trigger] front[i])
            && bep_state::file_error(front[i]) is None by {
            assert(front[i] == files[i]);
        }
        lemma_version_rows_distinct(front, folder, device);
        let cs = files[n].version->0.counters;
        assert(without_repeats(files[n]));
        assert(bep_state::file_error(files[n]) is None);
        assert forall|i: int, j: int|
            0 <= i < added.len() && 0 <= j < added.len() && i != j implies added[i] != added[j] by {
            assert(cs[i] != cs[j]);
            assert(cs[i].value <= i64::MAX && cs[j].value <= i64::MAX);
            statements::law_bytes_round_trip(cs[i].id);
            statements::law_bytes_round_trip(cs[j].id);
            assert(added[i].id == statements::be_bytes(cs[i].id) && added[i].value
                == cs[i].value as i64);
            assert(added[j].id == statements::be_bytes(cs[j].id) && added[j].value
                == cs[j].value as i64);
        }
        assert forall|row: VersionRowView| !(#[trigger] before.contains(row) && added.contains(
            row,
        )) by {
            if before.contains(row) && added.contains(row) {
                lemma_all_version_rows(front, folder, device, row);
                let i = choose|i: int|
                    0 <= i < front.len() && (#[trigger] version_rows_of(
                        front,
                        folder,
                        device,
                        i,
                    )).contains(row);
                let others = version_rows_of(front, folder, device, i);
                let k = choose|k: int| 0 <= k < others.len() && others[k] == row;
                let l = choose|l: int| 0 <= l < added.len() && added[l] == row;
                assert(row.name == front[i].name && row.name == files[n].name);
                assert(files[i].name == front[i].name);
            }
        }
        lemma_add_no_duplicates(before, added);
    }
}

/// After an index was replaced it is read back, in whatever order its rows come: each of
/// its files under its name, with the number of its change, and nothing of what was there
/// before.
pub proof fn law_index_replaced(
    t: Tables,
    files: Seq<FileInfoView>,
    folder: Seq<char>,
    device: Seq<char>,
    sequence: i64,
    rows: Seq<IndexRowView>,
    versions: Seq<VersionRowView>,
)
    requires
        bep_state::files_plan(files, folder, device, RemovalView::Keep, Some(sequence)) is Ok,
        indices::names_distinct(files),
        forall|i: int| 0 <= i < files.len() ==> without_repeats(#[trigger] files[i]),
        is_answer(
            executed_all(t, replacing_statements(files, folder, device, sequence)),
            folder,
            device,
            rows,
            versions,
        ),
    ensures
        rows::index_of_rows(rows, versions) is Ok,
        holds_files(rows::index_of_rows(rows, versions)->Ok_0, files, sequence),
{
    let begin = statements::bare(Query::Begin);
    let delete = delete_files_statement(folder, device);
    let end = statements::bare(Query::End);
    let plan = (bep_state::files_plan(
        files,
        folder,
        device,
        RemovalView::Keep,
        Some(sequence),
    )->Ok_0).statements;
    let ss = replacing_statements(files, folder, device, sequence);
    let emptied = without_index(t, folder, device);
    assert(ss =~= seq![begin] + (seq![delete] + (plan + seq![end])));
    lemma_executed_add(t, seq![begin], seq![delete] + (plan + seq![end]));
    lemma_executed_one(t, begin);
    lemma_executed_add(t, seq![delete], plan + seq![end]);
    lemma_executed_one(t, delete);
    lemma_executed_add(emptied, plan, seq![end]);
    lemma_executed_one(executed_all(emptied, plan), end);
    let u = executed_all(t, ss);
    assert(u == executed_all(emptied, plan));
    assert(holds_index(emptied, Seq::empty(), folder, device, sequence));
    assert forall|i: int| 0 <= i < files.len() implies blocks_distinct(
        (#[trigger] files[i]).blocks,
    ) by {
        assert(without_repeats(files[i]));
    }
    lemma_plan_written(emptied, files, folder, device, sequence);
    let all = bep_state::all_index_rows(files, folder, device, sequence);
    let all_versions = bep_state::all_version_rows(files, folder, device);
    assert forall|row: IndexRowView| #[trigger] rows.contains(row) <==> all.contains(row) by {
        lemma_rows_in_tables(u, files, folder, device, sequence, row);
    }
    assert forall|row: VersionRowView| #[trigger] versions.contains(row) <==> all_versions.contains(
        row,
    ) by {
        lemma_versions_in_tables(u, files, folder, device, sequence, row);
    }
    lemma_index_rows_distinct(files, folder, device, sequence);
    lemma_version_rows_distinct(files, folder, device);
    lemma_same_multiset(rows, all);
    lemma_same_multiset(versions, all_versions);
    law_index_read_in_any_order(files, folder, device, sequence, rows, versions);
}

} // verus!
