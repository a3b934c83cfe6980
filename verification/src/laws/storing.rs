//! Where data is kept, and what the database is told of it.

use vstd::prelude::*;
use crate::bep_state;
use crate::bep_state::{
    BlockCount, FileKey, FilesPlan, RemovalView, StateError, StorageStatus,
};
use crate::device_id;
use crate::file_writer;
use crate::file_writer::{FileWriterError, FileWriterState, FileWriterView};
use crate::rows;
use crate::statements;
use crate::statements::{Query, StatementView, ValueView};
use crate::storage;
use crate::storage::{StorageManager, StorageView, StoreBlock};
use crate::syncthing::{BlockInfoView, CounterView, DeviceView, FileInfoView, FolderView, Request, RequestView};
use crate::text;
use crate::types::UploadStatus;

verus! {

// ---------------------------------------------------------------------------
// How many blocks a file has

/// That many blocks hold the whole file. Even an empty file has one.
pub open spec fn cover(count: int, c: BlockCount) -> bool {
    count >= 1 && count * c.block_size >= c.byte_size
}

/// A file is all there when its blocks hold it and one less would not; where they do not hold
/// it, blocks are missing, and where one less would, there are too many.
pub proof fn law_all_blocks_stored(c: BlockCount)
    requires
        c.block_size > 0,
        c.byte_size >= 0,
        c.byte_size + c.block_size <= i64::MAX,
    ensures
        ({
            let k = c.stored_blocks as int;
            let r = bep_state::upload_status(c);
            &&& r == Ok::<UploadStatus, StateError>(UploadStatus::AllBlocks) <==> cover(k, c)
                && !cover(k - 1, c)
            &&& r == Ok::<UploadStatus, StateError>(UploadStatus::BlocksMissing) <==> !cover(k, c)
            &&& r == Err::<UploadStatus, StateError>(StateError::TooManyBlocks) <==> cover(k - 1, c)
        }),
{
    let k = c.stored_blocks as int;
    lemma_cover(k, c);
    lemma_cover(k - 1, c);
}

proof fn lemma_cover(k: int, c: BlockCount)
    requires
        c.block_size > 0,
        c.byte_size >= 0,
    ensures
        cover(k, c) <==> k >= bep_state::expected_blocks(c.byte_size as int, c.block_size as int),
{
    let s = c.block_size as int;
    let b = c.byte_size as int;
    let q = (b + s - 1) / s;
    assert(q * s <= b + s - 1 && b + s - 1 < q * s + s) by (nonlinear_arith)
        requires
            s > 0,
            q == (b + s - 1) / s,
    ;
    if k >= q {
        assert(k * s >= q * s) by (nonlinear_arith)
            requires
                k >= q,
                s > 0,
        ;
    } else {
        assert(k * s <= q * s - s) by (nonlinear_arith)
            requires
                k <= q - 1,
                s > 0,
        ;
    }
}

// ---------------------------------------------------------------------------
// What the database is told

/// A file is written column by column.
pub proof fn law_file_written(key: FileKey, f: FileInfoView, sequence: i64)
    ensures
        ({
            let s = bep_state::insert_file_statement(key, f, sequence);
            let v = s.values;
            &&& s.query is InsertFile
            &&& v.len() == 15
            &&& v[0] == ValueView::Text(key.folder)
            &&& v[1] == ValueView::Text(key.device)
            &&& v[2] == ValueView::Text(key.name)
            &&& v[3] == ValueView::Int(f.file_type as i64)
            &&& v[4] == ValueView::Int(f.size)
            &&& v[5] == ValueView::Int(f.permissions as i64)
            &&& v[6] == ValueView::Int(f.modified_s)
            &&& v[7] == ValueView::Int(f.modified_ns as i64)
            &&& v[8] == ValueView::Bytes(statements::be_bytes(f.modified_by))
            &&& v[9] == ValueView::Flag(f.deleted)
            &&& v[10] == ValueView::Flag(f.invalid)
            &&& v[11] == ValueView::Flag(f.no_permissions)
            &&& v[12] == ValueView::Int(sequence)
            &&& v[13] == ValueView::Int(f.block_size as i64)
            &&& v[14] == ValueView::Text(f.symlink_target)
            &&& bep_state::file_row(v).name == key.name
            &&& bep_state::file_row(v).folder == key.folder
            &&& bep_state::file_row(v).device == key.device
            &&& bep_state::file_row(v).size == f.size
            &&& bep_state::file_row(v).modified_s == f.modified_s
            &&& bep_state::file_row(v).sequence == sequence
            &&& bep_state::file_row(v).symlink_target == f.symlink_target
        }),
{
}

/// A counter and a block of a file are written column by column; a block is not stored at
/// first.
pub proof fn law_parts_of_file_written(key: FileKey, c: CounterView, b: BlockInfoView)
    ensures
        bep_state::insert_version_statement(key, c).query is InsertVersion,
        bep_state::insert_version_statement(key, c).values =~= seq![
            ValueView::Text(key.folder),
            ValueView::Text(key.device),
            ValueView::Text(key.name),
            ValueView::Bytes(statements::be_bytes(c.id)),
            ValueView::Int(c.value as i64),
        ],
        bep_state::insert_block_statement(key, b).query is InsertBlock,
        bep_state::insert_block_statement(key, b).values =~= seq![
            ValueView::Text(key.name),
            ValueView::Text(key.folder),
            ValueView::Text(key.device),
            ValueView::Int(b.offset),
            ValueView::Int(b.size as i64),
            ValueView::Bytes(b.hash),
            ValueView::Int(b.weak_hash as i64),
            ValueView::Int(0),
        ],
        bep_state::block_row(bep_state::insert_block_statement(key, b).values).offset == b.offset,
        bep_state::block_row(bep_state::insert_block_statement(key, b).values).hash == b.hash,
        bep_state::block_row(bep_state::insert_block_statement(key, b).values).bi_size == b.size,
        bep_state::block_row(bep_state::insert_block_statement(key, b).values).name == key.name,
        bep_state::block_row(bep_state::insert_block_statement(key, b).values).folder == key.folder,
{
}

/// All of a file is written: the file itself, then its counters, then its blocks, in order.
pub proof fn law_whole_file_written(key: FileKey, f: FileInfoView, sequence: i64)
    requires
        f.version is Some,
    ensures
        ({
            let ss = bep_state::file_statements(key, f, sequence);
            let cs = f.version->0.counters;
            &&& ss.len() == 1 + cs.len() + f.blocks.len()
            &&& ss[0] == bep_state::insert_file_statement(key, f, sequence)
            &&& forall|i: int|
                0 <= i < cs.len() ==> ss[i + 1] == bep_state::insert_version_statement(
                    key,
                    #[trigger] cs[i],
                )
            &&& forall|i: int|
                0 <= i < f.blocks.len() ==> ss[i + 1 + cs.len()]
                    == bep_state::insert_block_statement(key, #[trigger] f.blocks[i])
        }),
{
}

/// A folder and a device are written column by column.
pub proof fn law_folder_written(f: FolderView, d: DeviceView)
    ensures
        bep_state::insert_folder_statement(f).query is InsertFolder,
        bep_state::insert_folder_statement(f).values =~= seq![
            ValueView::Text(f.id),
            ValueView::Text(f.label),
            ValueView::Flag(f.read_only),
            ValueView::Flag(f.ignore_permissions),
            ValueView::Flag(f.ignore_delete),
            ValueView::Flag(f.disable_temp_indexes),
            ValueView::Flag(f.paused),
        ],
        bep_state::insert_device_statement(f.id, d).query is InsertDevice,
        bep_state::insert_device_statement(f.id, d).values =~= seq![
            ValueView::Text(f.id),
            ValueView::Text(device_id::text_of_id(d.id)),
            ValueView::Text(d.name),
            ValueView::Text(rows::comma_joined(d.addresses)),
            ValueView::Int(d.compression as i64),
            ValueView::Text(d.cert_name),
            ValueView::Int(d.max_sequence),
            ValueView::Flag(d.introducer),
            ValueView::Bytes(statements::be_bytes(d.index_id)),
            ValueView::Flag(d.skip_introduction_removals),
            ValueView::Bytes(d.encryption_password_token),
        ],
{
}

/// A file is removed or renamed by its folder, its device and its name, and so is where it is
/// kept.
pub proof fn law_file_addressed(
    key: FileKey,
    new_name: Seq<char>,
    backend: Seq<char>,
    location: Seq<char>,
)
    ensures
        bep_state::delete_file_statement(key) == (StatementView {
            query: Query::DeleteFile,
            values: seq![
                ValueView::Text(key.folder),
                ValueView::Text(key.device),
                ValueView::Text(key.name),
            ],
        }),
        bep_state::rename_file_statement(key, new_name) == (StatementView {
            query: Query::RenameFile,
            values: seq![
                ValueView::Text(new_name),
                ValueView::Text(key.folder),
                ValueView::Text(key.device),
                ValueView::Text(key.name),
            ],
        }),
        bep_state::location_statement(key, backend, location) == (StatementView {
            query: Query::InsertLocation,
            values: seq![
                ValueView::Text(key.folder),
                ValueView::Text(key.device),
                ValueView::Text(key.name),
                ValueView::Text(backend),
                ValueView::Text(location),
            ],
        }),
        bep_state::remove_location_statement(key, backend) == (StatementView {
            query: Query::DeleteLocation,
            values: seq![
                ValueView::Text(key.folder),
                ValueView::Text(key.device),
                ValueView::Text(key.name),
                ValueView::Text(backend),
            ],
        }),
{
}

/// The block that was asked for is marked as stored on this device: the one of the file that
/// has its hash. The file is said to be on this device, under its name, exactly when all of
/// its blocks are.
pub proof fn law_block_marked(
    r: RequestView,
    device: Seq<char>,
    status: Result<UploadStatus, StateError>,
)
    ensures
        StorageStatus::NotStored.number() == 0,
        StorageStatus::StoredLocally.number() == 1,
        StorageStatus::StoredRemotely.number() == 2,
        bep_state::block_stored_statements(r, device).len() == 2,
        bep_state::block_stored_statements(r, device)[0].query is Begin,
        bep_state::block_stored_statements(r, device)[1] == (StatementView {
            query: Query::SetBlockStatus,
            values: seq![
                ValueView::Int(1),
                ValueView::Text(r.name),
                ValueView::Text(r.folder),
                ValueView::Text(device),
                ValueView::Bytes(r.hash),
            ],
        }),
        ({
            let ss = bep_state::blocks_counted_statements(r, device, status);
            let all = status == Ok::<UploadStatus, StateError>(UploadStatus::AllBlocks);
            &&& ss.last().query is End
            &&& ss.len() == if all {
                2nat
            } else {
                1nat
            }
            &&& all ==> ss[0] == (StatementView {
                query: Query::InsertLocation,
                values: seq![
                    ValueView::Text(r.folder),
                    ValueView::Text(device),
                    ValueView::Text(r.name),
                    ValueView::Text("local"@),
                    ValueView::Text(r.name),
                ],
            })
        }),
{
}

// ---------------------------------------------------------------------------
// Files that are written

/// A file can be written where it has a version whose counters fit into the database.
pub proof fn law_file_refused(f: FileInfoView)
    ensures
        f.version is None <==> bep_state::file_error(f) == Some(StateError::NoVersion),
        f.version matches Some(v) ==> (bep_state::file_error(f) is None <==> forall|i: int|
            0 <= i < v.counters.len() ==> (#[trigger] v.counters[i]).value
                <= 0x7fff_ffff_ffff_ffff),
        f.version matches Some(v) ==> (bep_state::file_error(f) == Some(
            StateError::CounterTooLarge,
        ) <==> exists|i: int|
            0 <= i < v.counters.len() && (#[trigger] v.counters[i]).value
                > 0x7fff_ffff_ffff_ffff),
{
}

/// The number of a change is one above that of the last change, where that is known and there
/// is one.
pub proof fn law_next_number(n: i64)
    ensures
        bep_state::next_sequence(None) == Err::<i64, StateError>(StateError::NoSequence),
        n < i64::MAX ==> bep_state::next_sequence(Some(n)) == Ok::<i64, StateError>((n + 1) as i64),
        bep_state::next_sequence(Some(i64::MAX)) == Err::<i64, StateError>(
            StateError::SequenceExhausted,
        ),
{
}

/// A file that was deleted is passed over, unless files are only written over. Any other is
/// written under the next number, after what was in its place was removed or renamed, or, where
/// files are only written over, at once.
pub proof fn law_one_more_file(
    plan: FilesPlan,
    folder: Seq<char>,
    device: Seq<char>,
    f: FileInfoView,
    times: Seq<(Seq<char>, Seq<char>)>,
    i: int,
)
    requires
        plan.sequence is Some,
        plan.sequence->0 < i64::MAX,
        bep_state::file_error(f) is None,
    ensures
        ({
            let key = FileKey { folder, device, name: f.name };
            let n = (plan.sequence->0 + 1) as i64;
            let written = bep_state::file_statements(key, f, n);
            let keep = bep_state::with_file(plan, folder, device, f, RemovalView::Keep, i);
            let delete = bep_state::with_file(plan, folder, device, f, RemovalView::Delete, i);
            let rename = bep_state::with_file(
                plan,
                folder,
                device,
                f,
                RemovalView::Rename(times),
                i,
            );
            let new_name = bep_state::conflict_path(f.name, device, times[i].0, times[i].1);
            &&& keep == Ok::<FilesPlan, StateError>(
                FilesPlan {
                    statements: plan.statements + written,
                    sequence: Some(n),
                    renamed: plan.renamed,
                },
            )
            &&& f.deleted ==> delete == Ok::<FilesPlan, StateError>(plan) && rename == Ok::<
                FilesPlan,
                StateError,
            >(plan)
            &&& !f.deleted ==> delete == Ok::<FilesPlan, StateError>(
                FilesPlan {
                    statements: plan.statements + seq![bep_state::delete_file_statement(key)]
                        + written,
                    sequence: Some(n),
                    renamed: plan.renamed,
                },
            )
            &&& !f.deleted && new_name is Some ==> rename == Ok::<FilesPlan, StateError>(
                FilesPlan {
                    statements: plan.statements + seq![
                        bep_state::rename_file_statement(key, new_name->0),
                    ] + written,
                    sequence: Some(n),
                    renamed: plan.renamed + seq![(f.name, new_name->0)],
                },
            )
            &&& !f.deleted && new_name is None ==> rename == Err::<FilesPlan, StateError>(
                StateError::NoFileName,
            )
        }),
{
    let none = Seq::<StatementView>::empty();
    assert(plan.statements + none =~= plan.statements);
    assert(plan.renamed + Seq::<(Seq<char>, Seq<char>)>::empty() =~= plan.renamed);
}

// ---------------------------------------------------------------------------
// Storage backends

/// A file is copied to a backend from where it is on this device, to the place that is then
/// written down; there it is found when it is copied on, brought back or removed.
pub proof fn law_kept_where_it_is_said(
    v: StorageView,
    folder: Seq<char>,
    name: Seq<char>,
    dest_folder: Seq<char>,
    dest_name: Seq<char>,
    b: Seq<char>,
)
    ensures
        ({
            let up = storage::upload_op(v, folder, name, b);
            let copy = storage::copy_op(v, folder, name, dest_folder, dest_name, b);
            let gone = storage::delete_op(v, folder, name, b);
            let up_there = storage::upload_op(v, dest_folder, dest_name, b);
            let place = b + ":"@ + v.remote_base_dir + "/"@ + folder + "/"@ + name;
            let arg = match v.rclone_config {
                Some(x) => "--config="@ + x,
                None => ""@,
            };
            &&& up.location == place
            &&& up.storage_backend == b
            &&& up.command == seq![
                "rclone"@,
                arg,
                "copyto"@,
                v.local_base_dir + "/"@ + folder + "/"@ + name,
                place,
            ]
            &&& copy.command == seq!["rclone"@, arg, "copyto"@, place, up_there.location]
            &&& copy.location == up_there.location
            &&& copy.storage_backend == b
            &&& gone.command == seq!["rclone"@, arg, "delete"@, place]
            &&& gone.location == place
            &&& gone.storage_backend == b
        }),
{
}

/// What is left of a text without the white space around it.
pub open spec fn is_trimmed(s: Seq<char>, from: int, to: int) -> bool {
    &&& 0 <= from <= to <= s.len()
    &&& forall|i: int| 0 <= i < from ==> storage::whitespace(#[trigger] s[i])
    &&& forall|i: int| to <= i < s.len() ==> storage::whitespace(#[trigger] s[i])
    &&& from < to ==> !storage::whitespace(s[from]) && !storage::whitespace(s[to - 1])
}

proof fn lemma_trimmed_start(s: Seq<char>) -> (from: int)
    ensures
        0 <= from <= s.len(),
        storage::trimmed_start(s) == s.skip(from),
        forall|i: int| 0 <= i < from ==> storage::whitespace(#[trigger] s[i]),
        from < s.len() ==> !storage::whitespace(s[from]),
    decreases s.len(),
{
    if s.len() > 0 && storage::whitespace(s[0]) {
        let rest = s.skip(1);
        let from = lemma_trimmed_start(rest);
        assert(rest.skip(from) =~= s.skip(from + 1));
        assert forall|i: int| 0 <= i < from + 1 implies storage::whitespace(#[trigger] s[i]) by {
            if i > 0 {
                assert(s[i] == rest[i - 1]);
            }
        }
        from + 1
    } else {
        assert(s.skip(0) =~= s);
        0
    }
}

proof fn lemma_trimmed_end(s: Seq<char>) -> (to: int)
    ensures
        0 <= to <= s.len(),
        storage::trimmed_end(s) == s.take(to),
        forall|i: int| to <= i < s.len() ==> storage::whitespace(#[trigger] s[i]),
        to > 0 ==> !storage::whitespace(s[to - 1]),
    decreases s.len(),
{
    if s.len() > 0 && storage::whitespace(s.last()) {
        let front = s.drop_last();
        let to = lemma_trimmed_end(front);
        assert(front.take(to) =~= s.take(to));
        assert forall|i: int| to <= i < s.len() implies storage::whitespace(#[trigger] s[i]) by {
            if i < front.len() {
                assert(s[i] == front[i]);
            }
        }
        to
    } else {
        assert(s.take(s.len() as int) =~= s);
        s.len() as int
    }
}

/// Trimming takes away the white space at both ends, and nothing else.
pub proof fn law_trimmed(s: Seq<char>)
    ensures
        exists|from: int, to: int| #[trigger]
            is_trimmed(s, from, to) && storage::trimmed(s) == s.subrange(from, to),
{
    let from = lemma_trimmed_start(s);
    let t = s.skip(from);
    let n = lemma_trimmed_end(t);
    assert(t.take(n) =~= s.subrange(from, from + n));
    if n > 0 {
        assert(t[n - 1] == s[from + n - 1]);
        assert(is_trimmed(s, from, from + n)) by {
            assert forall|i: int| from + n <= i < s.len() implies storage::whitespace(
                #[trigger] s[i],
            ) by {
                assert(s[i] == t[i - from]);
            }
        }
    } else {
        assert forall|i: int| from + n <= i < s.len() implies storage::whitespace(
            #[trigger] s[i],
        ) by {
            assert(s[i] == t[i - from]);
        }
        assert(is_trimmed(s, from, from + n));
    }
}

proof fn lemma_line_end(line: Seq<char>, rest: Seq<char>)
    requires
        !line.contains('\n'),
    ensures
        storage::line_end(line + seq!['\n'] + rest) == line.len(),
        storage::line_end(line) == line.len(),
    decreases line.len(),
{
    let s = line + seq!['\n'] + rest;
    if line.len() > 0 {
        let tail = line.skip(1);
        assert(line[0] != '\n') by {
            assert(line.contains(line[0]));
        }
        assert(!tail.contains('\n')) by {
            if tail.contains('\n') {
                let i = choose|i: int| 0 <= i < tail.len() && tail[i] == '\n';
                assert(line[i + 1] == '\n');
            }
        }
        lemma_line_end(tail, rest);
        assert(s.skip(1) =~= tail + seq!['\n'] + rest);
    }
}

/// The backends are read line by line: a line names one if, trimmed, it is a name in square
/// brackets.
pub proof fn law_backends_read(line: Seq<char>, rest: Seq<char>, name: Seq<char>)
    requires
        !line.contains('\n'),
    ensures
        storage::bracketed(storage::trimmed(line)) == Some(name) <==> storage::trimmed(line)
            == seq!['['] + name + seq![']'],
        storage::backends_in(line + seq!['\n'] + rest) == storage::backends_in(line)
            + storage::backends_in(rest),
        storage::trimmed(line) == seq!['['] + name + seq![']'] ==> storage::backends_in(line)
            == seq![name],
        storage::bracketed(storage::trimmed(line)) is None ==> storage::backends_in(line).len() == 0,
        storage::bracketed(storage::trimmed(line)) is Some <==> (storage::trimmed(line).len() >= 2
            && storage::trimmed(line)[0] == '[' && storage::trimmed(line).last() == ']'),
{
    let t = storage::trimmed(line);
    let s = line + seq!['\n'] + rest;
    lemma_line_end(line, rest);
    assert(s.take(line.len() as int) =~= line);
    assert(line.take(line.len() as int) =~= line);
    assert(s.skip(line.len() as int + 1) =~= rest);
    if t.len() >= 2 && t[0] == '[' && t.last() == ']' {
        assert(t =~= seq!['['] + t.subrange(1, t.len() - 1) + seq![']']);
    }
    let u = seq!['['] + name + seq![']'];
    assert(u.subrange(1, u.len() - 1) =~= name);
    if line.len() == 0 {
        law_trimmed(line);
        assert(t =~= Seq::<char>::empty());
    }
    assert(storage::backends_in(s) =~= storage::backends_in(line) + storage::backends_in(rest));
    if t == u {
        assert(storage::backends_in(line) =~= seq![name]);
    }
}

// ---------------------------------------------------------------------------
// Chunks

/// The number that a text of decimal digits stands for.
pub open spec fn number_of_text(s: Seq<char>) -> int
    decreases s.len(),
{
    if s.len() == 0 {
        0
    } else {
        10 * number_of_text(s.drop_last()) + (s.last() as int - 48)
    }
}

/// A number is written with decimal digits, as many as it takes.
pub proof fn law_decimal(n: nat)
    ensures
        number_of_text(text::decimal(n)) == n,
        text::decimal(n).len() >= 1,
        forall|i: int|
            0 <= i < text::decimal(n).len() ==> '0' <= (#[trigger] text::decimal(n)[i]) <= '9',
        text::decimal(n).len() > 1 ==> text::decimal(n)[0] != '0',
    decreases n,
{
    if n < 10 {
        let s = seq![text::digit(n)];
        assert(s.drop_last() =~= Seq::<char>::empty());
        assert(number_of_text(s) == n) by {
            reveal_with_fuel(number_of_text, 2);
        }
    } else {
        law_decimal(n / 10);
        let front = text::decimal(n / 10);
        let s = front.push(text::digit(n % 10));
        assert(s.drop_last() =~= front);
        assert(s[0] == front[0]);
        if front.len() == 1 {
            reveal_with_fuel(number_of_text, 2);
            assert(front.drop_last() =~= Seq::<char>::empty());
            assert(number_of_text(front) == front[0] as int - 48);
        }
    }
}

/// Each chunk of a file has a file of its own, next to the file.
pub proof fn law_chunk_files_differ(v: FileWriterView, i: nat, j: nat)
    requires
        i != j,
    ensures
        file_writer::chunk_path_of(v, i) != file_writer::chunk_path_of(v, j),
        file_writer::chunk_path_of(v, i) == v.file_path + ".part_"@ + text::decimal(i) + "."@
            + v.suffix,
{
    law_decimal(i);
    law_decimal(j);
    let a = file_writer::chunk_path_of(v, i);
    let b = file_writer::chunk_path_of(v, j);
    let (d, e) = (text::decimal(i), text::decimal(j));
    let start = v.file_path.len() + ".part_"@.len();
    if a == b {
        assert(a.len() == start + d.len() + "."@.len() + v.suffix.len());
        assert(b.len() == start + e.len() + "."@.len() + v.suffix.len());
        assert(d =~= a.subrange(start as int, (start + d.len()) as int));
        assert(e =~= b.subrange(start as int, (start + e.len()) as int));
    }
}

/// As many chunks as it takes to hold the file, and no more.
pub proof fn law_chunk_count(file_size: nat, chunk_size: nat)
    requires
        chunk_size > 0,
    ensures
        ({
            let n = file_writer::chunk_count(file_size, chunk_size);
            n * chunk_size >= file_size && (n > 0 ==> (n - 1) * chunk_size < file_size)
        }),
{
    let n = file_writer::chunk_count(file_size, chunk_size);
    let m = (file_size + chunk_size - 1) as nat;
    assert(n * chunk_size <= m && m < n * chunk_size + chunk_size) by (nonlinear_arith)
        requires
            chunk_size > 0,
            n == m / chunk_size,
    ;
    assert((n - 1) * chunk_size == n * chunk_size - chunk_size) by (nonlinear_arith);
}

/// Data is taken as a chunk while chunks are written, where it starts at a multiple of the
/// chunk size before the end of the file, and is as long as a chunk or, at the end of the
/// file, shorter.
pub proof fn law_chunk_taken(v: FileWriterView, data_len: nat, offset: nat)
    requires
        v.chunk_size > 0,
    ensures
        file_writer::chunk_error(v, data_len, offset) is None <==> {
            &&& offset % v.chunk_size == 0
            &&& offset < v.file_size
            &&& data_len == v.chunk_size || data_len < v.chunk_size && offset + v.chunk_size
                > v.file_size
            &&& !(v.state is Consolidating)
        },
        file_writer::chunk_error(v, data_len, offset) == Some(FileWriterError::Unaligned)
            <==> offset % v.chunk_size != 0,
        file_writer::chunk_error(v, data_len, offset) == Some(FileWriterError::PastEnd) <==> offset
            % v.chunk_size == 0 && offset >= v.file_size,
{
    let cs = v.chunk_size;
    let fs = v.file_size;
    if offset % cs == 0 && offset < fs {
        let k = offset / cs;
        assert(offset == k * cs) by (nonlinear_arith)
            requires
                offset % cs == 0,
                k == offset / cs,
                cs > 0,
        ;
        let q = fs / cs;
        assert(q * cs <= fs && fs < q * cs + cs) by (nonlinear_arith)
            requires
                q == fs / cs,
                cs > 0,
        ;
        if offset + cs > fs && q * cs != offset {
            assert(false) by (nonlinear_arith)
                requires
                    offset == k * cs,
                    q * cs <= fs,
                    fs < q * cs + cs,
                    offset < fs,
                    offset + cs > fs,
                    q * cs != offset,
                    cs > 0,
            ;
        }
    }
}

/// A new writer writes to the path that it is given, and nothing is being written yet.
pub proof fn law_new_writer(path: Seq<char>, file_size: usize, chunk_size: usize)
    requires
        chunk_size > 0,
    ensures
        ({
            let w = file_writer::fresh(path, file_size, chunk_size);
            &&& w.file_path == path
            &&& w.file_size == file_size
            &&& w.chunk_size == chunk_size
            &&& w.state == FileWriterState::WritingChunks(0)
            &&& w.writing.len() * chunk_size >= file_size
            &&& forall|i: int| 0 <= i < w.writing.len() ==> !#[trigger] w.writing[i]
        }),
{
    law_chunk_count(file_size as nat, chunk_size as nat);
}

/// While a chunk is written it is marked, and counted; the other chunks stay as they are.
pub proof fn law_chunk_being_written(v: FileWriterView, n: usize, i: int, j: int)
    requires
        v.state == FileWriterState::WritingChunks(n),
        n < usize::MAX,
        0 <= i < v.writing.len(),
        0 <= j < v.writing.len(),
    ensures
        ({
            let w = file_writer::with_chunk(v, i);
            &&& w.writing[i]
            &&& i != j ==> w.writing[j] == v.writing[j]
            &&& w.state == FileWriterState::WritingChunks((n + 1) as usize)
            &&& w.file_path == v.file_path
            &&& w.suffix == v.suffix
            &&& w.writing.len() == v.writing.len()
        }),
{
}

/// A writer is used again for its file; where there is none, a new one is made.
pub proof fn law_writer_of_a_file(
    v: StorageView,
    folder: Seq<char>,
    name: Seq<char>,
    file_size: u64,
    chunk_size: u64,
)
    ensures
        ({
            let key = storage::rel_path(folder, name);
            let path = storage::path_in(v.local_base_dir, folder, name);
            let w = storage::writer_for(v, key, path, file_size, chunk_size);
            &&& key == folder + "/"@ + name
            &&& path == v.local_base_dir + "/"@ + folder + "/"@ + name
            &&& v.writers.dom().contains(key) ==> w == v.writers[key]
            &&& !v.writers.dom().contains(key) ==> w.file_path == path && w.file_size
                == file_size as usize && w.chunk_size == chunk_size as usize
        }),
{
}

/// The data of a block goes into the file that the block is of, on this device, at the offset
/// of the block.
pub proof fn law_block_goes_to_its_place(
    manager: &StorageManager,
    request: &Request,
    file_size: u64,
    r: Option<StoreBlock>,
)
    requires
        call_ensures(StorageManager::store_block, (manager, request, file_size), r),
    ensures
        r is Some <==> request@.offset >= 0,
        r matches Some(x) ==> {
            &&& x.offset == request@.offset
            &&& x.file_size == file_size
            &&& x.abs_path@ == manager@.local_base_dir + "/"@ + request@.folder + "/"@
                + request@.name
        },
{
}

} // verus!
