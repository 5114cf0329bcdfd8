//! Paths below a volume's root, and names as file system and clients write
//! them.
//!
//! A path is a list of components. In its text the components are separated
//! by `/`; empty components and `.` count for nothing, except for a `.` at the
//! front. Clients separate components by `:` and may use `/` inside one, where
//! the file system has `:`.

use crate::afp::parms::MAX_NAME_CHARS;
use crate::wire::{str_eq, utf8};
use vstd::prelude::*;
use vstd::string::*;

verus! {

/// A path in the file system.
#[derive(Debug)]
pub struct FsPath {
    pub absolute: bool,
    pub parts: Vec<String>,
}

/// The components of a path.
#[verifier::ext_equal]
pub struct PathView {
    pub absolute: bool,
    pub parts: Seq<Seq<char>>,
}

/// The texts of a list.
pub open spec fn texts(parts: Seq<String>) -> Seq<Seq<char>> {
    Seq::new(parts.len(), |i: int| parts[i]@)
}

/// Where the next separator stands at or behind `start`, or the end.
pub open spec fn next_sep(text: Seq<char>, sep: char, start: int) -> int
    decreases text.len() - start,
{
    if start >= text.len() {
        text.len() as int
    } else if text[start] == sep {
        start
    } else {
        next_sep(text, sep, start + 1)
    }
}

/// Whether the piece of a path's text that starts at `start` counts.
pub open spec fn counts(piece: Seq<char>, start: int) -> bool {
    piece.len() > 0 && (piece != seq!['.'] || start == 0)
}

proof fn lemma_next_sep(text: Seq<char>, sep: char, start: int)
    requires
        0 <= start <= text.len(),
    ensures
        start <= next_sep(text, sep, start) <= text.len(),
        forall|i: int| start <= i < next_sep(text, sep, start) ==> text[i] != sep,
        next_sep(text, sep, start) < text.len() ==> text[next_sep(text, sep, start)] == sep,
    decreases text.len() - start,
{
    if start < text.len() && text[start] != sep {
        lemma_next_sep(text, sep, start + 1);
    }
}

proof fn lemma_next_sep_at(text: Seq<char>, sep: char, start: int, end: int)
    requires
        0 <= start <= end <= text.len(),
        forall|i: int| start <= i < end ==> text[i] != sep,
        end < text.len() ==> text[end] == sep,
    ensures
        next_sep(text, sep, start) == end,
    decreases end - start,
{
    if start < end {
        lemma_next_sep_at(text, sep, start + 1, end);
    }
}

/// The components of a path's text from `start` on.
pub open spec fn parts_from(text: Seq<char>, start: int) -> Seq<Seq<char>>
    decreases text.len() - start,
    when 0 <= start <= text.len()
    via parts_from_ends
{
    let end = next_sep(text, '/', start);
    let piece = text.subrange(start, end);
    let rest = if end < text.len() {
        parts_from(text, end + 1)
    } else {
        Seq::empty()
    };
    if counts(piece, start) {
        seq![piece] + rest
    } else {
        rest
    }
}

#[via_fn]
proof fn parts_from_ends(text: Seq<char>, start: int) {
    lemma_next_sep(text, '/', start);
}

/// No component of a text is longer than the text.
pub proof fn lemma_part_lens(text: Seq<char>, start: int)
    requires
        0 <= start <= text.len(),
    ensures
        forall|i: int| 0 <= i < parts_from(text, start).len() ==> (#[trigger] parts_from(text, start)[i]).len() <= text.len(),
    decreases text.len() - start,
{
    lemma_next_sep(text, '/', start);
    let end = next_sep(text, '/', start);
    let piece = text.subrange(start, end);
    let all = parts_from(text, start);
    if end < text.len() {
        lemma_part_lens(text, end + 1);
    }
    let rest = if end < text.len() {
        parts_from(text, end + 1)
    } else {
        Seq::empty()
    };
    assert forall|i: int| 0 <= i < all.len() implies (#[trigger] all[i]).len() <= text.len() by {
        if counts(piece, start) {
            if i > 0 {
                assert(all[i] == rest[i - 1]);
            }
        } else {
            assert(all[i] == rest[i]);
        }
    }
}

/// The path that a text stands for.
pub open spec fn parsed(text: Seq<char>) -> PathView {
    PathView { absolute: text.len() > 0 && text[0] == '/', parts: parts_from(text, 0) }
}

/// The path without components.
pub open spec fn no_path() -> PathView {
    PathView { absolute: false, parts: Seq::empty() }
}

/// Components as text.
pub open spec fn joined_text(parts: Seq<Seq<char>>) -> Seq<char>
    decreases parts.len(),
{
    if parts.len() == 0 {
        Seq::empty()
    } else if parts.len() == 1 {
        parts[0]
    } else {
        joined_text(parts.drop_last()) + seq!['/'] + parts.last()
    }
}

/// The text of a path.
pub open spec fn text_of(p: PathView) -> Seq<char> {
    if p.absolute {
        seq!['/'] + joined_text(p.parts)
    } else {
        joined_text(p.parts)
    }
}

/// A path below another one: the components of both, without a `.` between
/// them. An absolute path is below nothing.
pub open spec fn join_paths(base: PathView, rel: PathView) -> PathView {
    if rel.absolute || base == no_path() {
        rel
    } else {
        PathView {
            absolute: base.absolute,
            parts: base.parts + (if rel.parts.len() > 0 && rel.parts[0] == seq!['.'] {
                rel.parts.skip(1)
            } else {
                rel.parts
            }),
        }
    }
}

/// Whether a path is `prefix` or below it.
pub open spec fn is_below(p: PathView, prefix: PathView) -> bool {
    p.absolute == prefix.absolute && prefix.parts.is_prefix_of(p.parts)
}

/// A path at or below `old` as it is at or below `new`.
pub open spec fn rebased(p: PathView, old: PathView, new: PathView) -> PathView {
    join_paths(new, PathView { absolute: false, parts: p.parts.skip(old.parts.len() as int) })
}

/// The last component, if it is a name.
pub open spec fn last_name(p: PathView) -> Option<Seq<char>> {
    if p.parts.len() > 0 && p.parts.last() != seq!['.'] && p.parts.last() != seq!['.', '.'] {
        Some(p.parts.last())
    } else {
        None
    }
}

/// The path without its last component.
pub open spec fn parent_of(p: PathView) -> PathView {
    if p.parts.len() == 0 {
        p
    } else {
        PathView { absolute: p.absolute, parts: p.parts.drop_last() }
    }
}

/// Copies a list of texts.
fn copy_texts(list: &Vec<String>, from: usize, out: &mut Vec<String>)
    requires
        from <= list@.len(),
    ensures
        texts(final(out)@) == texts(old(out)@) + texts(list@).skip(from as int),
{
    let mut i: usize = from;
    while i < list.len()
        invariant
            from <= i <= list@.len(),
            texts(out@) == texts(old(out)@) + texts(list@).subrange(from as int, i as int),
        decreases list@.len() - i,
    {
        let ghost before = out@;
        out.push(list[i].clone());
        proof {
            assert(texts(out@) =~= texts(before).push(list@[i as int]@));
            assert(texts(list@).subrange(from as int, i + 1) =~= texts(list@).subrange(from as int, i as int).push(
                list@[i as int]@,
            ));
            assert(texts(out@) =~= texts(old(out)@) + texts(list@).subrange(from as int, i + 1));
        }
        i += 1;
    }
    assert(texts(list@).subrange(from as int, i as int) =~= texts(list@).skip(from as int));
}

fn is_dot(s: &str) -> (r: bool)
    ensures
        r == (s@ == seq!['.']),
{
    proof {
        reveal_strlit(".");
    }
    let r = str_eq(s, ".");
    assert("."@ =~= seq!['.']);
    r
}

impl FsPath {
    /// The components of the path.
    pub open spec fn view(self) -> PathView {
        PathView { absolute: self.absolute, parts: texts(self.parts@) }
    }

    /// The path without components.
    pub fn empty() -> (p: Self)
        ensures
            p@ == no_path(),
    {
        let p = FsPath { absolute: false, parts: Vec::new() };
        assert(p@ =~= no_path());
        p
    }

    /// The path that a text stands for.
    pub fn from_text(text: &str) -> (p: Self)
        ensures
            p@ == parsed(text@),
    {
        let n: usize = text.unicode_len();
        let absolute = n > 0 && text.get_char(0) == '/';
        let mut parts: Vec<String> = Vec::new();
        let mut start: usize = 0;
        let mut i: usize = 0;
        let ghost whole = parts_from(text@, 0);
        let mut done = false;
        proof {
            assert(texts(parts@) =~= Seq::<Seq<char>>::empty());
            assert(whole =~= texts(parts@) + parts_from(text@, 0));
        }
        while !done
            invariant
                n == text@.len(),
                start <= i <= n,
                forall|k: int| start <= k < i ==> text@[k] != '/',
                !done ==> whole == texts(parts@) + parts_from(text@, start as int),
                done ==> whole == texts(parts@),
            decreases (if done {
                0int
            } else {
                n - i + 1
            }),
        {
            if i < n && text.get_char(i) != '/' {
                i += 1;
            } else {
                proof {
                    lemma_next_sep_at(text@, '/', start as int, i as int);
                }
                let ghost before = texts(parts@);
                let ghost piece = text@.subrange(start as int, i as int);
                let ghost rest = if i < n {
                    parts_from(text@, i + 1)
                } else {
                    Seq::empty()
                };
                let s = text.substring_char(start, i);
                if i > start && (start == 0 || !is_dot(s)) {
                    parts.push(s.to_owned());
                    proof {
                        assert(counts(piece, start as int));
                        assert(texts(parts@) =~= before.push(piece));
                        assert(before + (seq![piece] + rest) =~= texts(parts@) + rest);
                    }
                } else {
                    assert(!counts(piece, start as int));
                }
                if i < n {
                    i += 1;
                    start = i;
                } else {
                    done = true;
                    assert(texts(parts@) + rest =~= texts(parts@));
                }
            }
        }
        FsPath { absolute, parts }
    }

    /// A copy of the path.
    pub fn copy(&self) -> (p: Self)
        ensures
            p@ == self@,
    {
        let mut parts: Vec<String> = Vec::new();
        copy_texts(&self.parts, 0, &mut parts);
        assert(texts(parts@) =~= texts(self.parts@));
        FsPath { absolute: self.absolute, parts }
    }

    /// Whether two paths are the same.
    pub fn same(&self, other: &FsPath) -> (r: bool)
        ensures
            r == (self@ == other@),
    {
        if self.absolute != other.absolute || self.parts.len() != other.parts.len() {
            assert(texts(self.parts@).len() == self.parts@.len());
            assert(texts(other.parts@).len() == other.parts@.len());
            return false;
        }
        let mut i: usize = 0;
        while i < self.parts.len()
            invariant
                i <= self.parts@.len(),
                self.parts@.len() == other.parts@.len(),
                forall|k: int| 0 <= k < i ==> (#[trigger] self.parts@[k])@ == other.parts@[k]@,
            decreases self.parts@.len() - i,
        {
            if !str_eq(&self.parts[i], &other.parts[i]) {
                assert(texts(self.parts@)[i as int] != texts(other.parts@)[i as int]);
                return false;
            }
            i += 1;
        }
        assert(self@ =~= other@);
        true
    }

    /// The path `rel` below this one.
    pub fn join(&self, rel: &FsPath) -> (p: Self)
        ensures
            p@ == join_paths(self@, rel@),
    {
        if rel.absolute || (!self.absolute && self.parts.len() == 0) {
            assert(rel.absolute || self@ =~= no_path());
            return rel.copy();
        }
        assert(self@ != no_path()) by {
            if self@ == no_path() {
                assert(texts(self.parts@).len() == 0);
            }
        }
        let mut parts: Vec<String> = Vec::new();
        copy_texts(&self.parts, 0, &mut parts);
        assert(texts(parts@) =~= texts(self.parts@));
        let from: usize = if rel.parts.len() > 0 && is_dot(&rel.parts[0]) { 1 } else { 0 };
        copy_texts(&rel.parts, from, &mut parts);
        assert(texts(rel.parts@).skip(0) =~= texts(rel.parts@));
        let p = FsPath { absolute: self.absolute, parts };
        assert(p@ =~= join_paths(self@, rel@));
        p
    }

    /// Whether the path is `prefix` or below it.
    pub fn starts_with(&self, prefix: &FsPath) -> (r: bool)
        ensures
            r == is_below(self@, prefix@),
    {
        if self.absolute != prefix.absolute || self.parts.len() < prefix.parts.len() {
            return false;
        }
        let mut i: usize = 0;
        while i < prefix.parts.len()
            invariant
                i <= prefix.parts@.len() <= self.parts@.len(),
                forall|k: int| 0 <= k < i ==> (#[trigger] self.parts@[k])@ == prefix.parts@[k]@,
            decreases prefix.parts@.len() - i,
        {
            if !str_eq(&self.parts[i], &prefix.parts[i]) {
                proof {
                    let a = texts(self.parts@);
                    let b = texts(prefix.parts@);
                    assert(a[i as int] != b[i as int]);
                    assert(a.subrange(0, b.len() as int)[i as int] == a[i as int]);
                    assert(!b.is_prefix_of(a));
                }
                return false;
            }
            i += 1;
        }
        proof {
            let a = texts(self.parts@);
            let b = texts(prefix.parts@);
            assert(b =~= a.subrange(0, b.len() as int));
        }
        true
    }

    /// The path, which is at or below `old`, as it is at or below `new`.
    pub fn rebase(&self, old_root: &FsPath, new_root: &FsPath) -> (p: Self)
        requires
            is_below(self@, old_root@),
        ensures
            p@ == rebased(self@, old_root@, new_root@),
    {
        let mut parts: Vec<String> = Vec::new();
        assert(texts(self.parts@).len() >= texts(old_root.parts@).len());
        copy_texts(&self.parts, old_root.parts.len(), &mut parts);
        let rest = FsPath { absolute: false, parts };
        assert(rest@.parts =~= self@.parts.skip(old_root@.parts.len() as int));
        new_root.join(&rest)
    }

    /// The last component, if it is a name.
    pub fn file_name(&self) -> (r: Option<String>)
        ensures
            match r {
                Some(name) => last_name(self@) == Some(name@),
                None => last_name(self@) is None,
            },
    {
        if self.parts.len() == 0 {
            return None;
        }
        let last = &self.parts[self.parts.len() - 1];
        proof {
            reveal_strlit("..");
            assert(".."@ =~= seq!['.', '.']);
            assert(texts(self.parts@).last() == last@);
        }
        if is_dot(last) || str_eq(last, "..") {
            None
        } else {
            Some(last.clone())
        }
    }

    /// The path without its last component.
    pub fn parent(&self) -> (p: Self)
        ensures
            p@ == parent_of(self@),
    {
        let mut p = self.copy();
        let ghost parts = p.parts@;
        let _ = p.parts.pop();
        proof {
            if parts.len() > 0 {
                assert(texts(p.parts@) =~= texts(parts).drop_last());
            } else {
                assert(texts(p.parts@) =~= texts(self.parts@));
            }
        }
        p
    }

    /// The text of the path.
    pub fn text(&self) -> (s: String)
        ensures
            s@ == text_of(self@),
    {
        proof {
            reveal_strlit("/");
            reveal_strlit("");
            assert("/"@ =~= seq!['/']);
            assert(""@ =~= Seq::<char>::empty());
        }
        let mut s = if self.absolute { "/".to_owned() } else { "".to_owned() };
        let ghost front = s@;
        let mut i: usize = 0;
        let ghost all = texts(self.parts@);
        assert(all.take(0) =~= Seq::<Seq<char>>::empty());
        while i < self.parts.len()
            invariant
                i <= self.parts@.len(),
                all == texts(self.parts@),
                s@ == front + joined_text(all.take(i as int)),
                "/"@ == seq!['/'],
            decreases self.parts@.len() - i,
        {
            proof {
                let next = all.take(i + 1);
                assert(next.drop_last() =~= all.take(i as int));
                assert(next.last() == all[i as int]);
            }
            if i > 0 {
                s.append("/");
            }
            s.append(&self.parts[i]);
            assert(s@ =~= front + joined_text(all.take(i + 1)));
            i += 1;
        }
        assert(all.take(i as int) =~= all);
        assert(s@ =~= text_of(self@));
        s
    }
}

// ── Names ────────────────────────────────────────────────────────────────────

/// A text with one character in place of another.
pub open spec fn swapped(s: Seq<char>, from: char, to: char) -> Seq<char> {
    Seq::new(
        s.len(),
        |i: int|
            if s[i] == from {
                to
            } else {
                s[i]
            },
    )
}

/// The name that clients see for a name in the file system.
pub fn posix_name_to_afp(name: &str) -> (r: String)
    ensures
        r@ == swapped(name@, ':', '/'),
{
    proof {
        reveal_strlit("/");
    }
    swap_char(name, ':', "/")
}

/// The name in the file system for a name that clients use.
pub fn afp_name_to_posix(name: &str) -> (r: String)
    ensures
        r@ == swapped(name@, '/', ':'),
{
    proof {
        reveal_strlit(":");
    }
    swap_char(name, '/', ":")
}

fn swap_char(s: &str, from: char, to: &str) -> (r: String)
    requires
        to@.len() == 1,
    ensures
        r@ == swapped(s@, from, to@[0]),
{
    let n: usize = s.unicode_len();
    proof {
        reveal_strlit("");
    }
    let mut r = "".to_owned();
    let mut i: usize = 0;
    assert(r@ =~= swapped(s@.take(0), from, to@[0]));
    while i < n
        invariant
            i <= n,
            n == s@.len(),
            to@.len() == 1,
            r@ == swapped(s@.take(i as int), from, to@[0]),
        decreases n - i,
    {
        if s.get_char(i) == from {
            r.append(to);
        } else {
            r.append(s.substring_char(i, i + 1));
        }
        assert(r@ =~= swapped(s@.take(i + 1), from, to@[0]));
        i += 1;
    }
    assert(s@.take(i as int) =~= s@);
    r
}

/// A name goes to the client and back unharmed, unless the file system's name
/// holds a `/`, which it cannot.
pub proof fn law_names_read_back(name: Seq<char>)
    requires
        !name.contains('/'),
    ensures
        swapped(swapped(name, ':', '/'), '/', ':') == name,
{
    assert forall|i: int| 0 <= i < name.len() implies swapped(swapped(name, ':', '/'), '/', ':')[i] == name[i] by {
        assert(name[i] != '/');
    }
    assert(swapped(swapped(name, ':', '/'), '/', ':') =~= name);
}

/// Whether a client's path stands for the directory itself: it is empty or
/// made of null characters.
pub open spec fn blank(path: Seq<char>) -> bool {
    forall|i: int| 0 <= i < path.len() ==> path[i] == '\0'
}

/// Whether a client's path stands for the directory itself.
pub fn afp_path_is_empty(path: &str) -> (r: bool)
    ensures
        r == blank(path@),
{
    let n: usize = path.unicode_len();
    let mut i: usize = 0;
    while i < n
        invariant
            i <= n,
            n == path@.len(),
            forall|k: int| 0 <= k < i ==> path@[k] == '\0',
        decreases n - i,
    {
        if path.get_char(i) != '\0' {
            return false;
        }
        i += 1;
    }
    true
}

/// The path after the pieces of a client's path from `start` on have been put
/// below `base`: empty pieces count for nothing.
pub open spec fn afp_joined(base: PathView, text: Seq<char>, start: int) -> PathView
    decreases text.len() - start,
    when 0 <= start <= text.len()
    via afp_joined_ends
{
    let end = next_sep(text, ':', start);
    let piece = text.subrange(start, end);
    let next = if piece.len() > 0 {
        join_paths(base, PathView { absolute: false, parts: seq![swapped(piece, '/', ':')] })
    } else {
        base
    };
    if end < text.len() {
        afp_joined(next, text, end + 1)
    } else {
        next
    }
}

#[via_fn]
proof fn afp_joined_ends(base: PathView, text: Seq<char>, start: int) {
    lemma_next_sep(text, ':', start);
}

/// The path in the file system for a client's path.
pub fn afp_path_to_posix(afp_path: &str) -> (p: FsPath)
    ensures
        p@ == afp_joined(no_path(), afp_path@, 0),
{
    let n: usize = afp_path.unicode_len();
    let mut p = FsPath::empty();
    let mut start: usize = 0;
    let mut i: usize = 0;
    let ghost whole = afp_joined(no_path(), afp_path@, 0);
    let mut done = false;
    while !done
        invariant
            n == afp_path@.len(),
            start <= i <= n,
            forall|k: int| start <= k < i ==> afp_path@[k] != ':',
            !done ==> whole == afp_joined(p@, afp_path@, start as int),
            done ==> whole == p@,
        decreases (if done {
            0int
        } else {
            n - i + 1
        }),
    {
        if i < n && afp_path.get_char(i) != ':' {
            i += 1;
        } else {
            proof {
                lemma_next_sep_at(afp_path@, ':', start as int, i as int);
            }
            if i > start {
                let piece = afp_name_to_posix(afp_path.substring_char(start, i));
                let mut parts: Vec<String> = Vec::new();
                parts.push(piece);
                let rel = FsPath { absolute: false, parts };
                assert(rel@ =~= PathView { absolute: false, parts: seq![piece@] });
                p = p.join(&rel);
            }
            if i < n {
                i += 1;
                start = i;
            } else {
                done = true;
            }
        }
    }
    p
}

/// How many bytes a name has in the file system.
pub fn short_name_bytes(name: &str) -> (n: usize)
    requires
        name@.len() <= MAX_NAME_CHARS,
    ensures
        n == utf8(name@).len(),
        n <= 4 * name@.len(),
{
    let bytes = name.as_bytes();
    proof {
        lemma_utf8_len(name@);
    }
    bytes.len()
}

proof fn lemma_utf8_len(s: Seq<char>)
    ensures
        utf8(s).len() <= 4 * s.len(),
    decreases s.len(),
{
    if s.len() > 0 {
        lemma_utf8_len(s.drop_first());
    }
}

// ── Sidecar files ────────────────────────────────────────────────────────────

/// The directory that holds what the server keeps beside the files.
pub open spec fn private_dir() -> Seq<char> {
    ".tailtalk"@
}

/// The path of a file's resource fork beside the files.
pub open spec fn sidecar(volume_root: PathView, relative: PathView) -> PathView {
    join_paths(
        join_paths(
            join_paths(volume_root, PathView { absolute: false, parts: seq![private_dir()] }),
            PathView { absolute: false, parts: seq!["rsrc"@] },
        ),
        relative,
    )
}

fn single(name: &str) -> (p: FsPath)
    ensures
        p@ == (PathView { absolute: false, parts: seq![name@] }),
{
    let mut parts: Vec<String> = Vec::new();
    parts.push(name.to_owned());
    let p = FsPath { absolute: false, parts };
    assert(p@ =~= PathView { absolute: false, parts: seq![name@] });
    p
}

/// The path of a file's resource fork beside the files: below the volume's
/// root, in the directory `rsrc` of the server's own directory.
pub fn rsrc_path(volume_root: &FsPath, relative_path: &FsPath) -> (p: FsPath)
    ensures
        p@ == sidecar(volume_root@, relative_path@),
{
    volume_root.join(&single(".tailtalk")).join(&single("rsrc")).join(relative_path)
}

/// Whether a path leads to a resource fork that the file system itself keeps.
pub open spec fn has_named_fork(p: PathView) -> bool {
    exists|i: int| 0 <= i < p.parts.len() && #[trigger] p.parts[i] == "..namedfork"@
}

/// Whether a path leads to a resource fork that the file system itself keeps.
pub fn is_native_resource_fork_path(p: &FsPath) -> (r: bool)
    ensures
        r == has_named_fork(p@),
{
    let mut i: usize = 0;
    while i < p.parts.len()
        invariant
            i <= p.parts@.len(),
            forall|k: int| 0 <= k < i ==> #[trigger] p@.parts[k] != "..namedfork"@,
        decreases p.parts@.len() - i,
    {
        if str_eq(&p.parts[i], "..namedfork") {
            assert(p@.parts[i as int] == "..namedfork"@);
            return true;
        }
        assert(p@.parts[i as int] == p.parts@[i as int]@);
        i += 1;
    }
    false
}

/// The path of the resource fork that the file system itself keeps.
pub open spec fn native_fork(volume_root: PathView, relative: PathView) -> PathView {
    join_paths(
        join_paths(
            join_paths(volume_root, relative),
            PathView { absolute: false, parts: seq!["..namedfork"@] },
        ),
        PathView { absolute: false, parts: seq!["rsrc"@] },
    )
}

/// Whether a file exists and is not empty.
pub open spec fn has_data(len: Option<u64>) -> bool {
    len matches Some(n) && n > 0
}

/// The low 32 bits of a length; none for a file that does not exist.
pub open spec fn length32(len: Option<u64>) -> u32 {
    match len {
        Some(n) => (n % 0x1_0000_0000) as u32,
        None => 0,
    }
}

/// Where the resource fork of a file is, and how long. A file system that
/// keeps such forks itself has it, unless only the file beside holds data;
/// otherwise it is the file beside. The lengths are those of the two files
/// where they exist.
pub fn resolve_resource_fork_path(
    volume_root: &FsPath,
    relative_path: &FsPath,
    native_forks: bool,
    native_len: Option<u64>,
    sidecar_len: Option<u64>,
) -> (r: (FsPath, u32))
    ensures
        (r.0@, r.1) == if native_forks && has_data(native_len) {
            (native_fork(volume_root@, relative_path@), length32(native_len))
        } else if has_data(sidecar_len) {
            (sidecar(volume_root@, relative_path@), length32(sidecar_len))
        } else if native_forks {
            (native_fork(volume_root@, relative_path@), 0u32)
        } else {
            (sidecar(volume_root@, relative_path@), 0u32)
        },
{
    let native = volume_root.join(relative_path).join(&single("..namedfork")).join(&single("rsrc"));
    if native_forks {
        if let Some(n) = native_len {
            if n > 0 {
                return (native, (n % 0x1_0000_0000) as u32);
            }
        }
    }
    let beside = rsrc_path(volume_root, relative_path);
    if let Some(n) = sidecar_len {
        if n > 0 {
            return (beside, (n % 0x1_0000_0000) as u32);
        }
    }
    if native_forks {
        (native, 0)
    } else {
        (beside, 0)
    }
}

// ── Texts read back ──────────────────────────────────────────────────────────

/// Whether a path is one that a text can stand for: no component is empty or
/// holds a `/`, and only the first may be `.`.
pub open spec fn canonical(p: PathView) -> bool {
    forall|i: int|
        0 <= i < p.parts.len() ==> (#[trigger] p.parts[i]).len() > 0 && !p.parts[i].contains('/') && (p.parts[i]
            == seq!['.'] ==> i == 0 && !p.absolute)
}

proof fn lemma_parts_canonical(text: Seq<char>, start: int)
    requires
        0 <= start <= text.len(),
    ensures
        forall|i: int|
            0 <= i < parts_from(text, start).len() ==> (#[trigger] parts_from(text, start)[i]).len() > 0 && !parts_from(
                text,
                start,
            )[i].contains('/') && (parts_from(text, start)[i] == seq!['.'] ==> i == 0 && start == 0),
    decreases text.len() - start,
{
    lemma_next_sep(text, '/', start);
    let end = next_sep(text, '/', start);
    let piece = text.subrange(start, end);
    let all = parts_from(text, start);
    if end < text.len() {
        lemma_parts_canonical(text, end + 1);
    }
    let rest = if end < text.len() {
        parts_from(text, end + 1)
    } else {
        Seq::empty()
    };
    assert forall|i: int| 0 <= i < all.len() implies (#[trigger] all[i]).len() > 0 && !all[i].contains('/') && (all[i]
        == seq!['.'] ==> i == 0 && start == 0) by {
        if counts(piece, start) {
            if i == 0 {
                assert(all[0] == piece);
                assert forall|k: int| 0 <= k < piece.len() implies piece[k] != '/' by {
                    assert(piece[k] == text[start + k]);
                }
            } else {
                assert(all[i] == rest[i - 1]);
            }
        } else {
            assert(all[i] == rest[i]);
        }
    }
}

/// Every text stands for a canonical path.
pub proof fn law_parsed_paths_are_canonical(text: Seq<char>)
    ensures
        canonical(parsed(text)),
{
    lemma_parts_canonical(text, 0);
    let p = parsed(text);
    if p.absolute {
        lemma_next_sep_at(text, '/', 0, 0);
        assert(text.subrange(0, 0).len() == 0);
        assert(p.parts == parts_from(text, 1));
        lemma_parts_canonical(text, 1);
    }
}

proof fn lemma_joined_text_front(parts: Seq<Seq<char>>)
    requires
        parts.len() >= 2,
    ensures
        joined_text(parts) == parts[0] + seq!['/'] + joined_text(parts.skip(1)),
    decreases parts.len(),
{
    if parts.len() == 2 {
        assert(joined_text(parts.drop_last()) == parts.drop_last()[0]);
        assert(joined_text(parts.skip(1)) == parts.skip(1)[0]);
        assert(joined_text(parts) =~= parts[0] + seq!['/'] + joined_text(parts.skip(1)));
    } else {
        lemma_joined_text_front(parts.drop_last());
        let rest = parts.skip(1);
        assert(parts.drop_last().skip(1) =~= rest.drop_last());
        assert(rest.last() == parts.last());
        assert(parts.drop_last()[0] == parts[0]);
        assert(joined_text(rest) == joined_text(rest.drop_last()) + seq!['/'] + rest.last());
        assert(joined_text(parts) =~= parts[0] + seq!['/'] + joined_text(parts.skip(1)));
    }
}

proof fn lemma_parts_read_back(text: Seq<char>, start: int, parts: Seq<Seq<char>>)
    requires
        0 <= start <= text.len(),
        text.skip(start) == joined_text(parts),
        forall|i: int|
            0 <= i < parts.len() ==> (#[trigger] parts[i]).len() > 0 && !parts[i].contains('/') && (parts[i]
                == seq!['.'] ==> i == 0 && start == 0),
    ensures
        parts_from(text, start) == parts,
    decreases parts.len(),
{
    let tail = text.skip(start);
    if parts.len() == 0 {
        assert(tail.len() == 0);
        lemma_next_sep_at(text, '/', start, start);
        assert(parts_from(text, start) =~= parts);
    } else {
        let head = parts[0];
        let end = start + head.len();
        if parts.len() >= 2 {
            lemma_joined_text_front(parts);
            assert(tail =~= head + seq!['/'] + joined_text(parts.skip(1)));
            assert(text[end] == tail[head.len() as int]);
        }
        assert forall|i: int| start <= i < end implies text[i] != '/' by {
            assert(text[i] == tail[i - start]);
            assert(tail[i - start] == head[i - start]);
            assert(head.contains(head[i - start]));
        }
        assert(text.len() == start + tail.len());
        lemma_next_sep_at(text, '/', start, end);
        assert(text.subrange(start, end) =~= head) by {
            assert forall|k: int| 0 <= k < head.len() implies text.subrange(start, end)[k] == head[k] by {
                assert(text[start + k] == tail[k]);
            }
        }
        assert(counts(head, start));
        if parts.len() >= 2 {
            let rest = parts.skip(1);
            assert(text.skip(end + 1) =~= joined_text(rest)) by {
                assert forall|k: int| 0 <= k < joined_text(rest).len() implies text.skip(end + 1)[k] == joined_text(rest)[k] by {
                    assert(text[end + 1 + k] == tail[head.len() + 1 + k]);
                }
            }
            assert forall|i: int| 0 <= i < rest.len() implies (#[trigger] rest[i]).len() > 0 && !rest[i].contains('/')
                && (rest[i] == seq!['.'] ==> i == 0 && end + 1 == 0) by {
                assert(rest[i] == parts[i + 1]);
            }
            lemma_parts_read_back(text, end + 1, rest);
            assert(seq![head] + rest =~= parts);
        } else {
            assert(seq![head] + Seq::<Seq<char>>::empty() =~= parts);
        }
        assert(parts_from(text, start) =~= parts);
    }
}

/// The text of a path stands for the path, so that two paths have the same
/// text only if they are the same.
pub proof fn law_path_text_reads_back(p: PathView)
    requires
        canonical(p),
    ensures
        parsed(text_of(p)) == p,
{
    let text = text_of(p);
    if p.absolute {
        assert(text[0] == '/');
        assert(text.skip(1) =~= joined_text(p.parts));
        lemma_parts_read_back(text, 1, p.parts);
        lemma_next_sep_at(text, '/', 0, 0);
        assert(text.subrange(0, 0).len() == 0);
        assert(parts_from(text, 0) == parts_from(text, 1));
    } else {
        assert(text.skip(0) =~= text);
        lemma_parts_read_back(text, 0, p.parts);
        if text.len() > 0 {
            assert(p.parts.len() > 0);
            if p.parts.len() >= 2 {
                lemma_joined_text_front(p.parts);
            }
            assert(text[0] == p.parts[0][0]);
            assert(p.parts[0].contains(p.parts[0][0]));
        }
    }
    assert(parsed(text) =~= p);
}

/// Canonical paths with the same text are the same.
pub proof fn lemma_same_text(p: PathView, q: PathView)
    requires
        canonical(p),
        canonical(q),
        text_of(p) == text_of(q),
    ensures
        p == q,
{
    law_path_text_reads_back(p);
    law_path_text_reads_back(q);
}

/// A path below a directory goes along with it, and no other path comes to the
/// same place.
pub proof fn lemma_rebased(p: PathView, q: PathView, old: PathView, new: PathView)
    requires
        canonical(p),
        canonical(q),
        is_below(p, old),
        is_below(q, old),
        old.parts.len() > 0,
    ensures
        is_below(rebased(p, old, new), new),
        rebased(p, old, new) == rebased(q, old, new) ==> p == q,
        new == old ==> rebased(p, old, new) == p,
        rebased(old, old, new) == new,
{
    let n = old.parts.len() as int;
    let a = p.parts.skip(n);
    let b = q.parts.skip(n);
    if a.len() > 0 {
        assert(a[0] == p.parts[n]);
    }
    if b.len() > 0 {
        assert(b[0] == q.parts[n]);
    }
    assert(p.parts =~= old.parts + a);
    assert(q.parts =~= old.parts + b);
    let r = rebased(p, old, new);
    let s = rebased(q, old, new);
    assert(r.parts =~= new.parts + a);
    assert(s.parts =~= new.parts + b);
    if r == s {
        assert(a =~= r.parts.skip(new.parts.len() as int));
        assert(b =~= s.parts.skip(new.parts.len() as int));
        assert(p =~= q);
    }
    if new == old {
        assert(r =~= p);
    }
    assert(rebased(old, old, new) =~= new);
}

/// A component ends at the first separator from its start on, or with the text.
pub proof fn law_component_ends_at_the_separator(text: Seq<char>, sep: char, start: int)
    requires
        0 <= start <= text.len(),
    ensures
        start <= next_sep(text, sep, start) <= text.len(),
        next_sep(text, sep, start) < text.len() ==> text[next_sep(text, sep, start)] == sep,
        forall|k: int| start <= k < next_sep(text, sep, start) ==> #[trigger] text[k] != sep,
    decreases text.len() - start,
{
    if start < text.len() && text[start] != sep {
        law_component_ends_at_the_separator(text, sep, start + 1);
    }
}

/// A path is absolute exactly where its text starts with a slash.
pub proof fn law_absolute_paths_start_with_a_slash(text: Seq<char>)
    ensures
        parsed(text).absolute <==> text.len() > 0 && text[0] == '/',
        no_path().parts.len() == 0,
        !no_path().absolute,
{
}

/// A path below a base has the components of the base and then its own; one that
/// is absolute is itself, whatever the base.
pub proof fn law_joined_path_is_below(base: PathView, rel: PathView)
    ensures
        rel.absolute ==> join_paths(base, rel) == rel,
        join_paths(no_path(), rel) == rel,
        !rel.absolute && base != no_path() && (rel.parts.len() == 0 || rel.parts[0] != seq!['.']) ==> {
            let p = join_paths(base, rel);
            &&& p.absolute == base.absolute
            &&& p.parts.len() == base.parts.len() + rel.parts.len()
            &&& p.parts.take(base.parts.len() as int) == base.parts
            &&& p.parts.skip(base.parts.len() as int) == rel.parts
            &&& is_below(p, base)
        },
        !rel.absolute && base != no_path() && rel.parts.len() > 0 && rel.parts[0] == seq!['.'] ==> join_paths(base, rel).parts
            == base.parts + rel.parts.skip(1),
{
    let p = join_paths(base, rel);
    if !rel.absolute && base != no_path() && (rel.parts.len() == 0 || rel.parts[0] != seq!['.']) {
        assert(p.parts.take(base.parts.len() as int) =~= base.parts);
        assert(p.parts.skip(base.parts.len() as int) =~= rel.parts);
    }
}

/// A path is below another one exactly where it starts with all of its
/// components.
pub proof fn law_below_is_by_components(p: PathView, prefix: PathView)
    ensures
        is_below(p, prefix) <==> {
            &&& p.absolute == prefix.absolute
            &&& prefix.parts.len() <= p.parts.len()
            &&& forall|i: int| 0 <= i < prefix.parts.len() ==> #[trigger] p.parts[i] == prefix.parts[i]
        },
{
    if p.absolute == prefix.absolute && prefix.parts.len() <= p.parts.len() && forall|i: int|
        0 <= i < prefix.parts.len() ==> #[trigger] p.parts[i] == prefix.parts[i] {
        assert(p.parts.subrange(0, prefix.parts.len() as int) =~= prefix.parts);
    }
    if prefix.parts.is_prefix_of(p.parts) {
        let front = p.parts.subrange(0, prefix.parts.len() as int);
        assert(front =~= prefix.parts);
        assert forall|i: int| 0 <= i < prefix.parts.len() implies #[trigger] p.parts[i] == prefix.parts[i] by {
            assert(front[i] == p.parts[i]);
        }
    }
}

/// What is moved along with a directory has the components of its new place, and
/// then those that it had below the old one.
pub proof fn law_rebased_path_keeps_its_tail(p: PathView, old: PathView, new: PathView)
    requires
        canonical(p),
        is_below(p, old),
        old.parts.len() > 0,
        new.parts.len() > 0,
    ensures
        ({
            let q = rebased(p, old, new);
            let n = p.parts.len() - old.parts.len();
            &&& q.absolute == new.absolute
            &&& q.parts.len() == new.parts.len() + n
            &&& q.parts.take(new.parts.len() as int) == new.parts
            &&& forall|i: int| 0 <= i < n ==> #[trigger] q.parts[new.parts.len() + i] == p.parts[old.parts.len() + i]
        }),
{
    let q = rebased(p, old, new);
    let tail = p.parts.skip(old.parts.len() as int);
    if tail.len() > 0 {
        assert(tail[0] == p.parts[old.parts.len() as int]);
        assert(tail[0] != seq!['.']);
    }
    assert(q.parts =~= new.parts + tail);
    assert(q.parts.take(new.parts.len() as int) =~= new.parts);
}

/// The name of a file is the last component of its path, and its directory has
/// all the others.
pub proof fn law_path_is_directory_and_name(p: PathView)
    requires
        p.parts.len() > 0,
    ensures
        parent_of(p).parts.push(p.parts.last()) == p.parts,
        parent_of(p).absolute == p.absolute,
        p.parts.last().len() > 2 || p.parts.last()[0] != '.' ==> last_name(p) == Some(p.parts.last()),
        last_name(p) matches Some(name) ==> name == p.parts.last() && name != seq!['.'] && name != seq!['.', '.'],
        last_name(p) is None ==> p.parts.last() == seq!['.'] || p.parts.last() == seq!['.', '.'],
{
    assert(parent_of(p).parts.push(p.parts.last()) =~= p.parts);
}

/// A directory without components is its own.
pub proof fn law_root_is_its_own_directory(p: PathView)
    requires
        p.parts.len() == 0,
    ensures
        parent_of(p) == p,
        last_name(p) is None,
{
}

/// Characters are swapped where they stand, and all others stay.
pub proof fn law_swapped_by_place(s: Seq<char>, from: char, to: char, k: int)
    requires
        0 <= k < s.len(),
    ensures
        swapped(s, from, to).len() == s.len(),
        s[k] == from ==> swapped(s, from, to)[k] == to,
        s[k] != from ==> swapped(s, from, to)[k] == s[k],
{
}

/// A path is blank exactly where it has nothing but nulls.
pub proof fn law_blank_path_is_nulls(path: Seq<char>)
    ensures
        !blank(path) <==> exists|k: int| 0 <= k < path.len() && #[trigger] path[k] != '\0',
        blank(Seq::empty()),
{
}

/// A path of a client is read component by component, each behind a colon: an
/// empty one leads nowhere, any other one below, with a colon for every slash.
pub proof fn law_client_path_is_read_in_turn(base: PathView, text: Seq<char>, start: int)
    requires
        0 <= start <= text.len(),
    ensures
        start == text.len() ==> afp_joined(base, text, start) == base,
        start < text.len() && text[start] == ':' ==> afp_joined(base, text, start) == afp_joined(base, text, start + 1),
        forall|end: int|
            #![trigger text.subrange(start, end)]
            start < end <= text.len() && (end == text.len() || text[end] == ':') && !text.subrange(start, end).contains(':')
                ==> {
                let below = join_paths(
                    base,
                    PathView { absolute: false, parts: seq![swapped(text.subrange(start, end), '/', ':')] },
                );
                afp_joined(base, text, start) == if end < text.len() {
                    afp_joined(below, text, end + 1)
                } else {
                    below
                }
            },
{
    let at = next_sep(text, ':', start);
    law_component_ends_at_the_separator(text, ':', start);
    if start < text.len() && text[start] == ':' {
        assert(at == start);
        assert(text.subrange(start, at).len() == 0);
    }
    assert forall|end: int|
        #![trigger text.subrange(start, end)]
        start < end <= text.len() && (end == text.len() || text[end] == ':') && !text.subrange(start, end).contains(
            ':',
        ) implies end == at by {
        let piece = text.subrange(start, end);
        if at < end {
            assert(piece[at - start] == ':');
            assert(piece.contains(':'));
        }
        if end < at {
            assert(text[end] != ':');
        }
    }
}

/// The resource fork of a file is kept below the root of the volume, in the
/// directory `.tailtalk/rsrc`, under the path of the file.
pub proof fn law_sidecar_is_in_the_private_directory(root: PathView, relative: PathView)
    requires
        root.parts.len() > 0,
        !relative.absolute,
        relative.parts.len() > 0 ==> relative.parts[0] != seq!['.'],
    ensures
        ({
            let p = sidecar(root, relative);
            &&& p.absolute == root.absolute
            &&& p.parts == root.parts + seq![".tailtalk"@, "rsrc"@] + relative.parts
        }),
{
    reveal_strlit(".tailtalk");
    reveal_strlit("rsrc");
    assert(".tailtalk"@.len() == 9 && "rsrc"@.len() == 4);
    assert(sidecar(root, relative).parts =~= root.parts + seq![".tailtalk"@, "rsrc"@] + relative.parts);
}

/// The resource fork that the file system itself keeps is behind the path of the
/// file, at `..namedfork/rsrc`.
pub proof fn law_native_fork_is_behind_the_file(root: PathView, relative: PathView)
    requires
        root.parts.len() > 0,
        !relative.absolute,
        relative.parts.len() > 0 ==> relative.parts[0] != seq!['.'],
    ensures
        ({
            let p = native_fork(root, relative);
            &&& p.absolute == root.absolute
            &&& p.parts == root.parts + relative.parts + seq!["..namedfork"@, "rsrc"@]
            &&& has_named_fork(p)
        }),
{
    reveal_strlit("..namedfork");
    reveal_strlit("rsrc");
    assert("..namedfork"@.len() == 11 && "rsrc"@.len() == 4);
    let p = native_fork(root, relative);
    assert(p.parts =~= root.parts + relative.parts + seq!["..namedfork"@, "rsrc"@]);
    assert(p.parts[p.parts.len() - 2] == "..namedfork"@);
}

/// A fork has data where it is there and not empty, and its length is told in 32
/// bits.
pub proof fn law_fork_lengths_are_told(n: u64)
    ensures
        has_data(Some(n)) <==> n > 0,
        !has_data(None),
        length32(Some(n)) == n % 0x1_0000_0000,
        length32(None) == 0,
{
}

/// A path is its components, in order.
pub proof fn law_path_is_its_components(p: FsPath, i: int)
    ensures
        p@.absolute == p.absolute,
        p@.parts.len() == p.parts@.len(),
        0 <= i < p.parts@.len() ==> p@.parts[i] == p.parts@[i]@,
{
}

/// A text is read as its components: without a slash it is one, and what stands
/// before a slash is the first, with the rest behind it.
pub proof fn law_text_is_read_in_components(text: Seq<char>, start: int, end: int)
    requires
        0 <= start < end <= text.len(),
        forall|k: int| start <= k < end ==> #[trigger] text[k] != '/',
        end == text.len() || text[end] == '/',
        text.subrange(start, end) != seq!['.'],
    ensures
        parts_from(text, start) == seq![text.subrange(start, end)] + (if end < text.len() {
            parts_from(text, end + 1)
        } else {
            Seq::empty()
        }),
{
    let at = next_sep(text, '/', start);
    law_component_ends_at_the_separator(text, '/', start);
    if at < end {
        assert(text[at] != '/');
    }
    if end < at {
        assert(text[end] != '/');
    }
}

/// Empty components, and those that are a dot, are left out, the dot only where it
/// is not the first.
pub proof fn law_empty_components_are_left_out(text: Seq<char>, start: int)
    requires
        0 <= start < text.len(),
    ensures
        text[start] == '/' ==> parts_from(text, start) == parts_from(text, start + 1),
        start > 0 && text[start] == '.' && start + 1 < text.len() && text[start + 1] == '/' ==> parts_from(text, start)
            == parts_from(text, start + 2),
        parts_from(text, text.len() as int).len() == 0,
{
    let at = next_sep(text, '/', start);
    law_component_ends_at_the_separator(text, '/', start);
    law_component_ends_at_the_separator(text, '/', text.len() as int);
    if text[start] == '/' {
        assert(at == start);
    } else if start > 0 && text[start] == '.' && start + 1 < text.len() && text[start + 1] == '/' {
        assert(at == start + 1) by {
            if at > start + 1 {
                assert(text[start + 1] != '/');
            }
        }
        assert(text.subrange(start, at) =~= seq!['.']);
    }
}

} // verus!
