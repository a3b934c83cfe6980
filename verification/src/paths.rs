//! Paths whose parts are separated by slashes.

use vstd::prelude::*;
use crate::text;

verus! {

/// The path without slashes and single dots at its end.
pub open spec fn without_tail(s: Seq<char>) -> Seq<char>
    decreases s.len(),
{
    if s.len() > 1 && (s.last() == '/' || s.last() == '.' && s[s.len() - 2] == '/') {
        without_tail(s.drop_last())
    } else {
        s
    }
}

/// Where the last part of a path starts.
pub open spec fn last_start(s: Seq<char>) -> nat
    decreases s.len(),
{
    if s.len() == 0 {
        0
    } else if s.last() == '/' {
        s.len()
    } else {
        last_start(s.drop_last())
    }
}

/// The last part of a path, unless it is the root or a reference to another directory.
pub open spec fn file_name_of(s: Seq<char>) -> Option<Seq<char>> {
    let t = without_tail(s);
    let name = t.skip(last_start(t) as int);
    if name.len() == 0 || name == seq!['.'] || name == seq!['.', '.'] {
        None
    } else {
        Some(name)
    }
}

/// The path without its last part; there is none for the root and the empty path.
pub open spec fn parent_of(s: Seq<char>) -> Option<Seq<char>> {
    let t = without_tail(s);
    if t.len() == 0 || t == seq!['/'] {
        None
    } else {
        Some(without_tail(t.take(last_start(t) as int)))
    }
}

/// Where the last dot of a name is, if it has one behind its first character.
pub open spec fn dot_of(name: Seq<char>) -> Option<nat>
    decreases name.len(),
{
    if name.len() <= 1 {
        None
    } else if name.last() == '.' {
        Some((name.len() - 1) as nat)
    } else {
        dot_of(name.drop_last())
    }
}

/// A name without its extension.
pub open spec fn stem_of(name: Seq<char>) -> Seq<char> {
    match dot_of(name) {
        Some(i) => name.take(i as int),
        None => name,
    }
}

/// The extension of a name, with the dot before it; empty where there is none.
pub open spec fn dotted_extension_of(name: Seq<char>) -> Seq<char> {
    match dot_of(name) {
        Some(i) => name.skip(i as int),
        None => Seq::empty(),
    }
}

/// A name below a directory.
pub open spec fn joined(dir: Seq<char>, name: Seq<char>) -> Seq<char> {
    if dir.len() == 0 || dir.last() == '/' {
        dir + name
    } else {
        dir + seq!['/'] + name
    }
}

/// How long the path is without slashes and single dots at its end.
fn tail_start(chars: &Vec<char>, len: usize) -> (r: usize)
    requires
        len <= chars@.len(),
    ensures
        r <= len,
        chars@.take(r as int) == without_tail(chars@.take(len as int)),
{
    let mut n: usize = len;
    while n > 1 && (chars[n - 1] == '/' || chars[n - 1] == '.' && chars[n - 2] == '/')
        invariant
            n <= len <= chars@.len(),
            without_tail(chars@.take(len as int)) == without_tail(chars@.take(n as int)),
        decreases n,
    {
        assert(chars@.take(n as int).drop_last() =~= chars@.take(n - 1));
        n -= 1;
    }
    n
}

fn find_last_start(chars: &Vec<char>, len: usize) -> (r: usize)
    requires
        len <= chars@.len(),
    ensures
        r <= len,
        r == last_start(chars@.take(len as int)),
{
    let mut n: usize = len;
    while n > 0 && chars[n - 1] != '/'
        invariant
            n <= len <= chars@.len(),
            last_start(chars@.take(len as int)) == last_start(chars@.take(n as int)),
        decreases n,
    {
        assert(chars@.take(n as int).drop_last() =~= chars@.take(n - 1));
        n -= 1;
    }
    n
}

fn part(chars: &Vec<char>, from: usize, to: usize) -> (r: Vec<char>)
    requires
        from <= to <= chars@.len(),
    ensures
        r@ == chars@.subrange(from as int, to as int),
{
    vstd::slice::slice_to_vec(vstd::slice::slice_subrange(chars.as_slice(), from, to))
}

/// The last part of a path, unless it is the root or a reference to another directory.
pub fn file_name(path: &str) -> (r: Option<String>)
    ensures
        crate::wire::view_option(r) == file_name_of(path@),
{
    let chars = text::chars_of(path);
    let end: usize = tail_start(&chars, chars.len());
    assert(chars@.take(chars@.len() as int) =~= chars@);
    let start: usize = find_last_start(&chars, end);
    let name = part(&chars, start, end);
    let ghost t = without_tail(path@);
    assert(name@ =~= t.skip(last_start(t) as int));
    if name.len() == 0 {
        return None;
    }
    if name.len() == 1 && name[0] == '.' {
        assert(name@ =~= seq!['.']);
        return None;
    }
    if name.len() == 2 && name[0] == '.' && name[1] == '.' {
        assert(name@ =~= seq!['.', '.']);
        return None;
    }
    proof {
        assert(name@ == seq!['.'] ==> name@.len() == 1 && name@[0] == '.');
        assert(name@ == seq!['.', '.'] ==> name@.len() == 2 && name@[0] == '.' && name@[1] == '.');
    }
    Some(text::string_of(name))
}

/// The path without its last part; there is none for the root and the empty path.
pub fn parent(path: &str) -> (r: Option<String>)
    ensures
        crate::wire::view_option(r) == parent_of(path@),
{
    let chars = text::chars_of(path);
    let end: usize = tail_start(&chars, chars.len());
    assert(chars@.take(chars@.len() as int) =~= chars@);
    let ghost t = without_tail(path@);
    assert(t == chars@.take(end as int));
    if end == 0 {
        return None;
    }
    if end == 1 && chars[0] == '/' {
        assert(t =~= seq!['/']);
        return None;
    }
    assert(t != seq!['/']) by {
        assert(t == seq!['/'] ==> t.len() == 1 && t[0] == '/');
    }
    let start: usize = find_last_start(&chars, end);
    assert(t.take(start as int) =~= chars@.take(start as int));
    let n: usize = tail_start(&chars, start);
    let dir = part(&chars, 0, n);
    assert(dir@ =~= chars@.take(n as int));
    Some(text::string_of(dir))
}

fn find_dot(name: &Vec<char>) -> (r: Option<usize>)
    ensures
        match r {
            Some(i) => dot_of(name@) == Some(i as nat) && i < name@.len(),
            None => dot_of(name@) is None,
        },
{
    let mut n: usize = name.len();
    assert(name@.take(n as int) =~= name@);
    while n > 1
        invariant
            n <= name@.len(),
            dot_of(name@) == dot_of(name@.take(n as int)),
        decreases n,
    {
        if name[n - 1] == '.' {
            return Some(n - 1);
        }
        assert(name@.take(n as int).drop_last() =~= name@.take(n - 1));
        n -= 1;
    }
    None
}

/// A name in two parts: without its extension, and the extension with the dot before it.
pub fn split_extension(name: &str) -> (r: (String, String))
    ensures
        r.0@ == stem_of(name@),
        r.1@ == dotted_extension_of(name@),
{
    let chars = text::chars_of(name);
    match find_dot(&chars) {
        Some(i) => {
            let stem = part(&chars, 0, i);
            let extension = part(&chars, i, chars.len());
            assert(stem@ =~= name@.take(i as int));
            assert(extension@ =~= name@.skip(i as int));
            (text::string_of(stem), text::string_of(extension))
        },
        None => {
            let empty = String::new();
            assert(empty@ =~= Seq::empty());
            (name.to_owned(), empty)
        },
    }
}

/// A name below a directory.
pub fn join(dir: &str, name: &str) -> (r: String)
    ensures
        r@ == joined(dir@, name@),
{
    let n: usize = dir.unicode_len();
    let mut path = dir.to_owned();
    if n > 0 && dir.get_char(n - 1) != '/' {
        path.append("/");
        proof {
            reveal_strlit("/");
            assert("/"@ =~= seq!['/']);
        }
    }
    path.append(name);
    path
}

// ---------------------------------------------------------------------------
// The parts of a path

/// What stands between the slashes.
pub open spec fn slash_parts(s: Seq<char>) -> Seq<Seq<char>>
    decreases s.len(),
{
    if s.len() == 0 {
        seq![Seq::empty()]
    } else {
        let before = slash_parts(s.drop_last());
        if s.last() == '/' {
            before.push(Seq::empty())
        } else {
            before.drop_last().push(before.last().push(s.last()))
        }
    }
}

/// The parts with a slash between each two.
pub open spec fn slash_joined(parts: Seq<Seq<char>>) -> Seq<char>
    decreases parts.len(),
{
    if parts.len() == 0 {
        Seq::empty()
    } else if parts.len() == 1 {
        parts[0]
    } else {
        slash_joined(parts.drop_last()) + seq!['/'] + parts.last()
    }
}

/// A path is put together again from its parts, of which there is at least one.
pub proof fn lemma_joined_parts(s: Seq<char>)
    ensures
        slash_parts(s).len() > 0,
        slash_joined(slash_parts(s)) == s,
    decreases s.len(),
{
    if s.len() > 0 {
        let t = s.drop_last();
        let before = slash_parts(t);
        lemma_joined_parts(t);
        assert(s =~= t.push(s.last()));
        if s.last() == '/' {
            assert(before.push(Seq::empty()).drop_last() =~= before);
            assert(slash_joined(slash_parts(s)) =~= t + seq!['/']);
        } else {
            let last = before.last().push(s.last());
            let after = before.drop_last().push(last);
            assert(after.drop_last() =~= before.drop_last());
            assert(after.last() == last);
            assert(slash_joined(after) =~= slash_joined(before).push(s.last()));
        }
    }
}

/// Joining two lists of parts joins what each makes.
pub proof fn lemma_joined_add(a: Seq<Seq<char>>, b: Seq<Seq<char>>)
    requires
        a.len() > 0,
        b.len() > 0,
    ensures
        slash_joined(a + b) == slash_joined(a) + seq!['/'] + slash_joined(b),
    decreases b.len(),
{
    assert((a + b).drop_last() =~= a + b.drop_last());
    assert((a + b).last() == b.last());
    if b.len() == 1 {
        assert(a + b.drop_last() =~= a);
    } else {
        lemma_joined_add(a, b.drop_last());
        assert(slash_joined(a + b) =~= slash_joined(a) + seq!['/'] + slash_joined(b));
    }
}

/// What stands between the slashes.
pub fn slash_split(s: &str) -> (r: Vec<String>)
    ensures
        crate::views(r@) == slash_parts(s@),
{
    let chars = text::chars_of(s);
    let mut out: Vec<String> = Vec::new();
    let mut part: Vec<char> = Vec::new();
    let mut i: usize = 0;
    assert(part@ =~= Seq::empty());
    assert(crate::views(out@).push(part@) =~= slash_parts(chars@.take(0)));
    while i < chars.len()
        invariant
            i <= chars@.len(),
            crate::views(out@).push(part@) == slash_parts(chars@.take(i as int)),
        decreases chars@.len() - i,
    {
        let c = chars[i];
        let ghost before = slash_parts(chars@.take(i as int));
        proof {
            assert(chars@.take(i + 1).drop_last() =~= chars@.take(i as int));
            assert(chars@.take(i + 1).last() == c);
            assert(before.drop_last() =~= crate::views(out@));
            assert(before.last() == part@);
        }
        if c == '/' {
            let piece = text::string_of(part);
            proof {
                crate::lemma_views_push(out@, piece);
            }
            out.push(piece);
            part = Vec::new();
            assert(part@ =~= Seq::empty());
            assert(crate::views(out@) =~= before);
        } else {
            part.push(c);
        }
        i += 1;
    }
    assert(chars@.take(chars@.len() as int) =~= chars@);
    let piece = text::string_of(part);
    proof {
        crate::lemma_views_push(out@, piece);
    }
    out.push(piece);
    out
}

/// The parts that count: not the empty ones, and a single dot only in front.
pub open spec fn kept_parts(parts: Seq<Seq<char>>) -> Seq<Seq<char>>
    decreases parts.len(),
{
    if parts.len() == 0 {
        Seq::empty()
    } else {
        let before = kept_parts(parts.drop_last());
        if parts.last().len() == 0 || parts.last() == seq!['.'] && parts.len() > 1 {
            before
        } else {
            before.push(parts.last())
        }
    }
}

/// The components of a path; that of the root is a slash.
pub open spec fn components_of(s: Seq<char>) -> Seq<Seq<char>> {
    let kept = kept_parts(slash_parts(s));
    if s.len() > 0 && s[0] == '/' {
        seq![seq!['/']] + kept
    } else {
        kept
    }
}

/// The component is a name, not the root or a reference to a directory.
pub open spec fn is_name(component: Seq<char>) -> bool {
    component != seq!['/'] && component != seq!['.'] && component != seq!['.', '.']
}

/// The path is that of something directly in the directory.
pub open spec fn is_directly_in(dir: Seq<char>, path: Seq<char>) -> bool {
    let d = components_of(dir);
    let c = components_of(path);
    c.len() == d.len() + 1 && c.drop_last() == d && is_name(c.last())
}

/// The components of a path; that of the root is a slash.
pub fn components(path: &str) -> (r: Vec<String>)
    ensures
        crate::views(r@) == components_of(path@),
{
    let parts = slash_split(path);
    let ghost ps = crate::views(parts@);
    let mut out: Vec<String> = Vec::new();
    let rooted = path.unicode_len() > 0 && path.get_char(0) == '/';
    assert(crate::views(out@) =~= Seq::empty());
    if rooted {
        let root = "/".to_owned();
        proof {
            reveal_strlit("/");
            assert("/"@ =~= seq!['/']);
            crate::lemma_views_push(out@, root);
        }
        out.push(root);
        assert(crate::views(out@) =~= seq![seq!['/']]);
    }
    let ghost first = crate::views(out@);
    let mut i: usize = 0;
    assert(first + kept_parts(ps.take(0)) =~= first);
    while i < parts.len()
        invariant
            i <= parts@.len(),
            ps == crate::views(parts@),
            crate::views(out@) == first + kept_parts(ps.take(i as int)),
        decreases parts@.len() - i,
    {
        let part = &parts[i];
        let n: usize = part.as_str().unicode_len();
        let dot = n == 1 && part.as_str().get_char(0) == '.';
        proof {
            assert(ps.take(i + 1).drop_last() =~= ps.take(i as int));
            assert(ps.take(i + 1).last() == part@);
            if dot {
                assert(part@ =~= seq!['.']);
            } else {
                assert(part@ == seq!['.'] ==> part@.len() == 1 && part@[0] == '.');
            }
        }
        if n > 0 && !(dot && i > 0) {
            let name = part.clone();
            proof {
                crate::lemma_views_push(out@, name);
            }
            out.push(name);
            assert(crate::views(out@) =~= first + kept_parts(ps.take(i + 1)));
        }
        i += 1;
    }
    assert(ps.take(ps.len() as int) =~= ps);
    assert(crate::views(out@) =~= components_of(path@));
    out
}

/// The name of something directly in the directory, where the path is that of one.
pub fn name_in(dir: &str, path: &str) -> (r: Option<String>)
    ensures
        match r {
            Some(name) => is_directly_in(dir@, path@) && name@ == components_of(path@).last(),
            None => !is_directly_in(dir@, path@),
        },
{
    let d = components(dir);
    let c = components(path);
    let ghost dv = crate::views(d@);
    let ghost cv = crate::views(c@);
    if c.len() == 0 || c.len() - 1 != d.len() {
        return None;
    }
    let mut i: usize = 0;
    while i < d.len()
        invariant
            i <= d@.len(),
            c@.len() == d@.len() + 1,
            dv == crate::views(d@),
            cv == crate::views(c@),
            dv == components_of(dir@),
            cv == components_of(path@),
            forall|j: int| 0 <= j < i ==> dv[j] == #[trigger] cv[j],
        decreases d@.len() - i,
    {
        if c[i] != d[i] {
            assert(cv[i as int] != dv[i as int]);
            assert(cv.drop_last()[i as int] != dv[i as int]);
            return None;
        }
        i += 1;
    }
    assert(cv.drop_last() =~= dv);
    let last = &c[c.len() - 1];
    assert(cv.last() == last@);
    proof {
        reveal_strlit("/");
        reveal_strlit(".");
        reveal_strlit("..");
        assert("/"@ =~= seq!['/']);
        assert("."@ =~= seq!['.']);
        assert(".."@ =~= seq!['.', '.']);
    }
    if text::same_text(last.as_str(), "/") || text::same_text(last.as_str(), ".")
        || text::same_text(last.as_str(), "..") {
        return None;
    }
    Some(last.clone())
}

} // verus!
