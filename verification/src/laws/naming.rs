//! Paths and names.

use vstd::prelude::*;
use crate::bep_state;
use crate::indices;
use crate::paths;
use crate::rows;
use crate::syncthing::FileInfoView;
use crate::text;

verus! {

/// The name of a file in a directory: no directory, and not one of the names that mean one.
pub open spec fn is_plain(name: Seq<char>) -> bool {
    &&& name.len() > 0
    &&& !name.contains('/')
    &&& name != seq!['.']
    &&& name != seq!['.', '.']
}

proof fn lemma_last_start(dir: Seq<char>, name: Seq<char>)
    requires
        !name.contains('/'),
    ensures
        paths::last_start(dir + seq!['/'] + name) == dir.len() + 1,
        paths::last_start(name) == 0,
    decreases name.len(),
{
    let s = dir + seq!['/'] + name;
    if name.len() > 0 {
        let front = name.drop_last();
        assert(name.last() != '/') by {
            assert(name.contains(name[name.len() - 1]));
        }
        assert(!front.contains('/')) by {
            if front.contains('/') {
                let i = choose|i: int| 0 <= i < front.len() && front[i] == '/';
                assert(name[i] == '/');
            }
        }
        assert(s.last() == name.last());
        assert(s.drop_last() =~= dir + seq!['/'] + front);
        lemma_last_start(dir, front);
    } else {
        assert(s.last() == '/');
    }
}

proof fn lemma_no_tail(dir: Seq<char>, name: Seq<char>)
    requires
        is_plain(name),
    ensures
        paths::without_tail(dir + seq!['/'] + name) == dir + seq!['/'] + name,
        paths::without_tail(name) == name,
{
    let s = dir + seq!['/'] + name;
    assert(name.last() != '/') by {
        assert(name.contains(name[name.len() - 1]));
    }
    assert(s.last() == name.last());
    if name.last() == '.' {
        if name.len() == 1 {
            assert(name =~= seq!['.']);
        } else {
            assert(name.contains(name[name.len() - 2]));
            assert(s[s.len() - 2] == name[name.len() - 2]);
        }
    }
}

/// A file in a directory has its name, and the directory as its parent; a name alone is that of
/// a file in the empty directory. The slashes that may end the directory do not matter.
pub proof fn law_name_and_directory(dir: Seq<char>, name: Seq<char>)
    requires
        is_plain(name),
    ensures
        paths::file_name_of(dir + seq!['/'] + name) == Some(name),
        paths::parent_of(dir + seq!['/'] + name) == Some(paths::without_tail(dir + seq!['/'])),
        dir.len() > 0 ==> paths::without_tail(dir + seq!['/']) == paths::without_tail(dir),
        paths::file_name_of(name) == Some(name),
        paths::parent_of(name) == Some(Seq::<char>::empty()),
{
    let s = dir + seq!['/'] + name;
    lemma_no_tail(dir, name);
    lemma_last_start(dir, name);
    assert(s.skip(dir.len() as int + 1) =~= name);
    assert(s.take(dir.len() as int + 1) =~= dir + seq!['/']);
    assert(name.skip(0) =~= name);
    assert(name.take(0) =~= Seq::<char>::empty());
    assert(name != seq!['/']) by {
        assert(name.contains(name[0]));
        assert(seq!['/'][0] == '/');
    }
    if dir.len() > 0 {
        assert((dir + seq!['/']).drop_last() =~= dir);
    }
    assert(s.len() >= 2);
}

proof fn lemma_dot(name: Seq<char>)
    ensures
        match paths::dot_of(name) {
            Some(i) => 0 < i < name.len() && name[i as int] == '.' && forall|j: int|
                i < j < name.len() ==> #[trigger] name[j] != '.',
            None => forall|j: int| 0 < j < name.len() ==> #[trigger] name[j] != '.',
        },
    decreases name.len(),
{
    if name.len() > 1 && name.last() != '.' {
        let front = name.drop_last();
        lemma_dot(front);
        assert(forall|j: int| 0 <= j < front.len() ==> front[j] == name[j]);
    }
}

/// A name is its stem and its extension. The extension starts at the last dot; a dot at the
/// start of the name does not count.
pub proof fn law_stem_and_extension(name: Seq<char>)
    ensures
        ({
            let stem = paths::stem_of(name);
            let extension = paths::dotted_extension_of(name);
            &&& stem + extension == name
            &&& name.len() > 0 ==> stem.len() > 0
            &&& extension.len() > 0 ==> extension[0] == '.'
            &&& forall|j: int| 0 < j < extension.len() ==> #[trigger] extension[j] != '.'
            &&& extension.len() == 0 ==> forall|j: int|
                0 < j < name.len() ==> #[trigger] name[j] != '.'
        }),
{
    lemma_dot(name);
    let stem = paths::stem_of(name);
    let extension = paths::dotted_extension_of(name);
    assert(stem + extension =~= name);
    if let Some(i) = paths::dot_of(name) {
        assert forall|j: int| 0 < j < extension.len() implies #[trigger] extension[j] != '.' by {
            assert(extension[j] == name[i + j]);
        }
    }
}

/// A file that is in conflict stays in its directory and keeps its extension; its new name
/// says so, and when and by which device that was found.
pub proof fn law_name_in_conflict(
    dir: Seq<char>,
    stem: Seq<char>,
    extension: Seq<char>,
    device: Seq<char>,
    date: Seq<char>,
    time: Seq<char>,
)
    requires
        dir.len() > 0,
        paths::without_tail(dir) == dir,
        dir.last() != '/',
        is_plain(stem + extension),
        paths::stem_of(stem + extension) == stem,
        paths::dotted_extension_of(stem + extension) == extension,
    ensures
        ({
            let new_name = stem + ".sync-conflict-"@ + date + "-"@ + time + "-"@ + device
                + extension;
            &&& bep_state::conflict_path(
                dir + seq!['/'] + (stem + extension),
                device,
                date,
                time,
            ) == Some(dir + seq!['/'] + new_name)
            &&& bep_state::conflict_path(stem + extension, device, date, time) == Some(new_name)
        }),
{
    law_name_and_directory(dir, stem + extension);
    let new_name = stem + ".sync-conflict-"@ + date + "-"@ + time + "-"@ + device + extension;
    assert(Seq::<char>::empty() + new_name =~= new_name);
}

// ---------------------------------------------------------------------------
// Components

proof fn lemma_parts_push(dir: Seq<char>, name: Seq<char>)
    requires
        !name.contains('/'),
    ensures
        paths::slash_parts(dir + seq!['/'] + name) == paths::slash_parts(dir).push(name),
        paths::slash_parts(name) == seq![name],
    decreases name.len(),
{
    let s = dir + seq!['/'] + name;
    if name.len() > 0 {
        let front = name.drop_last();
        assert(name.last() != '/') by {
            assert(name.contains(name[name.len() - 1]));
        }
        assert(!front.contains('/')) by {
            if front.contains('/') {
                let i = choose|i: int| 0 <= i < front.len() && front[i] == '/';
                assert(name[i] == '/');
            }
        }
        lemma_parts_push(dir, front);
        assert(s.last() == name.last());
        assert(s.drop_last() =~= dir + seq!['/'] + front);
        assert(front.push(name.last()) =~= name);
        let before = paths::slash_parts(dir).push(front);
        assert(before.drop_last() =~= paths::slash_parts(dir));
        assert(before.last() == front);
        assert(seq![front].drop_last() =~= Seq::<Seq<char>>::empty());
        assert(Seq::<Seq<char>>::empty().push(name) =~= seq![name]);
    } else {
        assert(s.drop_last() =~= dir);
        assert(s.last() == '/');
        assert(name =~= Seq::<char>::empty());
    }
}

proof fn lemma_some_parts(s: Seq<char>)
    ensures
        paths::slash_parts(s).len() > 0,
    decreases s.len(),
{
    if s.len() > 0 {
        lemma_some_parts(s.drop_last());
    }
}

/// The parts of a path are what stands between its slashes: put together they make the path,
/// and none of them holds a slash.
pub proof fn law_parts_of_a_path(s: Seq<char>)
    ensures
        paths::slash_joined(paths::slash_parts(s)) == s,
        paths::slash_parts(s).len() > 0,
        forall|i: int|
            0 <= i < paths::slash_parts(s).len() ==> !(#[trigger] paths::slash_parts(
                s,
            )[i]).contains('/'),
    decreases s.len(),
{
    paths::lemma_joined_parts(s);
    lemma_some_parts(s);
    if s.len() > 0 {
        let before = paths::slash_parts(s.drop_last());
        let parts = paths::slash_parts(s);
        law_parts_of_a_path(s.drop_last());
        assert forall|i: int| 0 <= i < parts.len() implies !(#[trigger] parts[i]).contains(
            '/',
        ) by {
            if i < before.len() - 1 {
                assert(parts[i] == before[i]);
            } else if s.last() == '/' {
                if i < before.len() {
                    assert(parts[i] == before[i]);
                }
            } else {
                assert(!before[before.len() - 1].contains('/'));
                if parts[i].contains('/') {
                    let k = choose|k: int| 0 <= k < parts[i].len() && parts[i][k] == '/';
                    if k < before.last().len() {
                        assert(before.last()[k] == '/');
                    }
                }
            }
        }
    }
}

/// What is in a directory has the components of the directory and one more, its name.
pub proof fn law_component_added(dir: Seq<char>, name: Seq<char>)
    requires
        is_plain(name),
        dir.len() > 0,
    ensures
        paths::components_of(dir + seq!['/'] + name) == paths::components_of(dir).push(name),
        paths::components_of(name) == seq![name],
        paths::is_directly_in(dir, dir + seq!['/'] + name),
        paths::is_directly_in(Seq::empty(), name),
        !paths::is_directly_in(Seq::empty(), dir + seq!['/'] + name) || paths::components_of(
            dir,
        ).len() == 0,
{
    let s = dir + seq!['/'] + name;
    lemma_parts_push(dir, name);
    lemma_some_parts(dir);
    let parts = paths::slash_parts(dir);
    assert(parts.push(name).drop_last() =~= parts);
    assert(seq![name].drop_last() =~= Seq::<Seq<char>>::empty());
    reveal_with_fuel(paths::kept_parts, 2);
    assert(paths::kept_parts(parts.push(name)) == paths::kept_parts(parts).push(name));
    assert(paths::kept_parts(seq![name]) =~= seq![name]);
    assert(s[0] == dir[0]);
    assert(name[0] != '/') by {
        assert(name.contains(name[0]));
    }
    assert(name != seq!['/']) by {
        assert(seq!['/'][0] == '/');
    }
    let d = paths::components_of(dir);
    assert(paths::components_of(s) =~= d.push(name));
    assert(d.push(name).drop_last() =~= d);
    let none = Seq::<char>::empty();
    assert(paths::slash_parts(none) =~= seq![none]);
    assert(seq![none].drop_last() =~= Seq::<Seq<char>>::empty());
    assert(seq![none].last() == none);
    assert(paths::kept_parts(seq![none]) =~= Seq::<Seq<char>>::empty());
    assert(paths::components_of(none) =~= Seq::<Seq<char>>::empty());
    assert(paths::components_of(name) =~= seq![name]);
    assert(paths::components_of(name).drop_last() =~= paths::components_of(none));
    assert(paths::components_of(name).last() == name);
}

// ---------------------------------------------------------------------------
// Lists in texts

/// Addresses stand in one text with commas between them.
pub proof fn law_commas_between(parts: Seq<Seq<char>>, part: Seq<char>)
    ensures
        rows::comma_joined(Seq::empty()) == Seq::<char>::empty(),
        rows::comma_joined(seq![part]) == part,
        parts.len() > 0 ==> rows::comma_joined(parts.push(part)) == rows::comma_joined(parts) + seq![
            ',',
        ] + part,
{
    assert(parts.push(part).drop_last() =~= parts);
}

proof fn lemma_comma_at(s: Seq<char>)
    ensures
        rows::comma_at(s) <= s.len(),
        rows::comma_at(s) < s.len() ==> s[rows::comma_at(s) as int] == ',',
        forall|i: int| 0 <= i < rows::comma_at(s) ==> #[trigger] s[i] != ',',
    decreases s.len(),
{
    if s.len() > 0 && s[0] != ',' {
        let t = s.skip(1);
        lemma_comma_at(t);
        assert forall|i: int| 0 <= i < rows::comma_at(s) implies #[trigger] s[i] != ',' by {
            if i > 0 {
                assert(t[i - 1] == s[i]);
            }
        }
    }
}

/// A text is taken apart at all its commas: the first part is what stands before the first
/// one, and the others are those of what stands behind it.
pub proof fn law_taken_apart_at_commas(s: Seq<char>, rest: Seq<char>)
    requires
        !s.contains(','),
    ensures
        rows::comma_parts(s) == seq![s],
        rows::comma_parts(s + seq![','] + rest) == seq![s] + rows::comma_parts(rest),
{
    lemma_comma_at(s);
    if rows::comma_at(s) < s.len() {
        assert(s.contains(s[rows::comma_at(s) as int]));
    }
    let t = s + seq![','] + rest;
    lemma_comma_at(t);
    let n = rows::comma_at(t) as int;
    assert(t[s.len() as int] == ',');
    if n < s.len() {
        assert(s.contains(t[n]));
    }
    assert(n == s.len());
    assert(t.take(n) =~= s);
    assert(t.skip(n + 1) =~= rest);
}

/// A number below zero is written with a minus sign before its digits.
pub proof fn law_signed_decimal(n: int)
    ensures
        n < 0 ==> text::signed_decimal(n) == seq!['-'] + text::decimal((-n) as nat),
        n >= 0 ==> text::signed_decimal(n) == text::decimal(n as nat),
{
}

/// Bytes are listed as decimal numbers in square brackets, with a comma and a space between
/// them.
pub proof fn law_bytes_listed(s: Seq<u8>, b: u8)
    ensures
        text::bytes_listed(Seq::empty()) == "["@ + "]"@,
        text::bytes_listed(seq![b]) == "["@ + text::decimal(b as nat) + "]"@,
        s.len() > 0 ==> text::listed(s.push(b)) == text::listed(s) + ", "@ + text::decimal(
            b as nat,
        ),
        text::bytes_listed(s) == "["@ + text::listed(s) + "]"@,
{
    assert(s.push(b).drop_last() =~= s);
    assert("["@ + Seq::<char>::empty() =~= "["@);
}

// ---------------------------------------------------------------------------
// Files by name

/// The files of an index are found by name: of files with one name, the last.
pub proof fn law_files_by_name(files: Seq<FileInfoView>, name: Seq<char>)
    ensures
        indices::by_name(files).dom().contains(name) <==> exists|i: int|
            0 <= i < files.len() && (#[trigger] files[i]).name == name,
        indices::by_name(files).dom().contains(name) ==> exists|i: int|
            0 <= i < files.len() && (#[trigger] files[i]).name == name && indices::by_name(
                files,
            )[name] == files[i] && forall|j: int|
                i < j < files.len() ==> (#[trigger] files[j]).name != name,
    decreases files.len(),
{
    if files.len() > 0 {
        let front = files.drop_last();
        let n: int = files.len() - 1;
        law_files_by_name(front, name);
        assert(forall|i: int| 0 <= i < n ==> front[i] == files[i]);
        assert(files[n] == files.last());
        if files[n].name != name {
            if indices::by_name(front).dom().contains(name) {
                let i = choose|i: int|
                    0 <= i < front.len() && (#[trigger] front[i]).name == name && indices::by_name(
                        front,
                    )[name] == front[i] && forall|j: int|
                        i < j < front.len() ==> (#[trigger] front[j]).name != name;
                assert(files[i].name == name);
                assert forall|j: int| i < j < files.len() implies (#[trigger] files[j]).name
                    != name by {
                    if j < n {
                        assert(front[j].name != name);
                    }
                }
            } else if exists|i: int| 0 <= i < files.len() && (#[trigger] files[i]).name == name {
                let i = choose|i: int| 0 <= i < files.len() && (#[trigger] files[i]).name == name;
                assert(front[i].name == name);
            }
        }
    }
}

} // verus!
