//! The desktop database: icons, comments and applications of a volume.
//!
//! The database is three tables of byte strings on disk. The functions here
//! make the keys and values, read what a table holds, and say what has to be
//! written; the program does the reading and writing.

use crate::afp::AfpError;
use crate::text::{lossy_text, lossy_utf8};
use crate::wire::{
    be32, bytes_eq, copy_bytes, from_be32, get_be32, law_bytes_count_by_their_place, number32, put_be32, put_bytes, repeat,
    slice_bytes, utf8,
};
use vstd::prelude::*;
use vstd::string::*;

verus! {

/// What icons are found by.
#[derive(Debug, Clone, PartialEq, Eq, Hash)]
pub struct IconKey {
    pub creator: [u8; 4],
    pub file_type: [u8; 4],
    pub icon_type: u8,
}

/// The key of an icon: creator, type and kind.
pub open spec fn icon_key(creator: Seq<u8>, file_type: Seq<u8>, icon_type: u8) -> Seq<u8> {
    creator + file_type + seq![icon_type]
}

impl IconKey {
    /// The key as the database has it.
    pub fn to_bytes(&self) -> (bytes: [u8; 9])
        ensures
            bytes@ == icon_key(self.creator@, self.file_type@, self.icon_type),
    {
        let bytes: [u8; 9] = [
            self.creator[0],
            self.creator[1],
            self.creator[2],
            self.creator[3],
            self.file_type[0],
            self.file_type[1],
            self.file_type[2],
            self.file_type[3],
            self.icon_type,
        ];
        assert(bytes@ =~= icon_key(self.creator@, self.file_type@, self.icon_type));
        bytes
    }
}

/// Icons of different creators, types or kinds have different keys.
pub proof fn law_icon_keys_differ(c1: Seq<u8>, t1: Seq<u8>, k1: u8, c2: Seq<u8>, t2: Seq<u8>, k2: u8)
    requires
        c1.len() == 4,
        c2.len() == 4,
        t1.len() == 4,
        t2.len() == 4,
        icon_key(c1, t1, k1) == icon_key(c2, t2, k2),
    ensures
        c1 == c2,
        t1 == t2,
        k1 == k2,
{
    let a = icon_key(c1, t1, k1);
    let b = icon_key(c2, t2, k2);
    assert(c1 =~= a.subrange(0, 4));
    assert(c2 =~= b.subrange(0, 4));
    assert(t1 =~= a.subrange(4, 8));
    assert(t2 =~= b.subrange(4, 8));
    assert(a[8] == k1 && b[8] == k2);
}

/// A row of a table.
#[derive(Debug)]
pub struct Row {
    pub key: Vec<u8>,
    pub value: Vec<u8>,
}

/// The keys and values of rows.
pub open spec fn rows_of(rows: Seq<Row>) -> Seq<(Seq<u8>, Seq<u8>)> {
    Seq::new(rows.len(), |i: int| (rows[i].key@, rows[i].value@))
}

/// A change of a table.
#[derive(Debug)]
pub enum Change {
    Insert { key: Vec<u8>, value: Vec<u8> },
    Remove { key: Vec<u8> },
}

/// What a change is.
pub enum ChangeView {
    Insert(Seq<u8>, Seq<u8>),
    Remove(Seq<u8>),
}

impl View for Change {
    type V = ChangeView;

    open spec fn view(&self) -> ChangeView {
        match *self {
            Change::Insert { key, value } => ChangeView::Insert(key@, value@),
            Change::Remove { key } => ChangeView::Remove(key@),
        }
    }
}

/// What changes are.
pub open spec fn changes_of(changes: Seq<Change>) -> Seq<ChangeView> {
    Seq::new(changes.len(), |i: int| changes[i]@)
}

/// A table after a change.
pub open spec fn changed(table: Map<Seq<u8>, Seq<u8>>, change: ChangeView) -> Map<Seq<u8>, Seq<u8>> {
    match change {
        ChangeView::Insert(key, value) => table.insert(key, value),
        ChangeView::Remove(key) => table.remove(key),
    }
}

/// A table after the first `n` changes.
pub open spec fn changed_by(table: Map<Seq<u8>, Seq<u8>>, changes: Seq<ChangeView>, n: nat) -> Map<Seq<u8>, Seq<u8>>
    decreases n,
{
    if n == 0 {
        table
    } else {
        changed(changed_by(table, changes, (n - 1) as nat), changes[n - 1])
    }
}

/// Whether rows are all that a table holds.
pub open spec fn lists(rows: Seq<(Seq<u8>, Seq<u8>)>, table: Map<Seq<u8>, Seq<u8>>) -> bool {
    &&& forall|i: int|
        0 <= i < rows.len() ==> table.contains_key((#[trigger] rows[i]).0) && table[rows[i].0] == rows[i].1
    &&& forall|k: Seq<u8>| #[trigger]
        table.contains_key(k) ==> exists|i: int| 0 <= i < rows.len() && (#[trigger] rows[i]).0 == k
}

// ── Icons ────────────────────────────────────────────────────────────────────

/// The row that holds an icon.
pub fn add_icon(creator: [u8; 4], file_type: [u8; 4], icon_type: u8, icon_data: &[u8]) -> (row: Row)
    ensures
        row.key@ == icon_key(creator@, file_type@, icon_type),
        row.value@ == icon_data@,
{
    let key = IconKey { creator, file_type, icon_type }.to_bytes();
    let mut bytes: Vec<u8> = Vec::new();
    put_bytes(&mut bytes, key.as_slice());
    assert(bytes@ =~= key@);
    Row { key: bytes, value: copy_bytes(icon_data) }
}

/// What a table has under a key, as an answer.
pub fn found_or_missing(data: Option<Vec<u8>>) -> (r: Result<Vec<u8>, AfpError>)
    ensures
        r == match data {
            Some(bytes) => Ok::<Vec<u8>, AfpError>(bytes),
            None => Err(AfpError::ItemNotFound),
        },
{
    match data {
        Some(bytes) => Ok(bytes),
        None => Err(AfpError::ItemNotFound),
    }
}

/// Whether a row holds an icon of a creator.
pub open spec fn is_icon_of(row: (Seq<u8>, Seq<u8>), creator: Seq<u8>) -> bool {
    row.0.len() == 9 && row.0.take(4) == creator
}

/// The first row from `start` on that holds an icon of a creator.
pub open spec fn first_icon(rows: Seq<(Seq<u8>, Seq<u8>)>, creator: Seq<u8>, start: int) -> Option<int>
    decreases rows.len() - start,
{
    if start < 0 || start >= rows.len() {
        None
    } else if is_icon_of(rows[start], creator) {
        Some(start)
    } else {
        first_icon(rows, creator, start + 1)
    }
}

/// The tag, the type and the size of a creator's first icon.
pub fn get_icon_info(rows: &[Row], creator: [u8; 4]) -> (r: Result<(u32, u32, u16), AfpError>)
    ensures
        match first_icon(rows_of(rows@), creator@, 0) {
            Some(i) => {
                let (key, value) = rows_of(rows@)[i];
                r == Ok::<(u32, u32, u16), AfpError>(
                    (0u32, from_be32(key[4], key[5], key[6], key[7]), (value.len() % 0x1_0000) as u16),
                )
            },
            None => r == Err::<(u32, u32, u16), AfpError>(AfpError::ItemNotFound),
        },
{
    let mut i: usize = 0;
    while i < rows.len()
        invariant
            i <= rows@.len(),
            first_icon(rows_of(rows@), creator@, 0) == first_icon(rows_of(rows@), creator@, i as int),
        decreases rows@.len() - i,
    {
        let row = &rows[i];
        assert(rows_of(rows@)[i as int] == (row.key@, row.value@));
        if row.key.len() == 9 {
            let front = slice_bytes(&row.key, 0, 4);
            assert(front@ =~= row.key@.take(4));
            if bytes_eq(&front, creator.as_slice()) {
                let file_type: u32 = get_be32(&row.key, 4);
                return Ok((0, file_type, (row.value.len() % 0x1_0000) as u16));
            }
        }
        i += 1;
    }
    Err(AfpError::ItemNotFound)
}

// ── Comments ─────────────────────────────────────────────────────────────────

/// The key of the comment on a file: the bytes of its path.
pub fn comment_key(path: &str) -> (key: Vec<u8>)
    ensures
        key@ == utf8(path@),
{
    copy_bytes(path.as_bytes())
}

/// What moves a comment from one path to another, where there is one.
pub fn move_comment(found: Option<Vec<u8>>, old_path: &str, new_path: &str) -> (changes: Vec<Change>)
    ensures
        changes_of(changes@) == comment_moved(found, utf8(old_path@), utf8(new_path@)),
{
    let mut changes: Vec<Change> = Vec::new();
    if let Some(data) = found {
        changes.push(Change::Remove { key: comment_key(old_path) });
        changes.push(Change::Insert { key: comment_key(new_path), value: data });
    }
    assert(changes_of(changes@) =~= comment_moved(found, utf8(old_path@), utf8(new_path@)));
    changes
}

/// The changes that move a comment.
pub open spec fn comment_moved(found: Option<Vec<u8>>, old_key: Seq<u8>, new_key: Seq<u8>) -> Seq<ChangeView> {
    match found {
        Some(data) => seq![ChangeView::Remove(old_key), ChangeView::Insert(new_key, data@)],
        None => Seq::empty(),
    }
}

/// What copies a comment from one path to another, where there is one.
pub fn copy_comment(found: Option<Vec<u8>>, dst_path: &str) -> (change: Option<Change>)
    ensures
        match found {
            Some(data) => change matches Some(c) && c@ == ChangeView::Insert(utf8(dst_path@), data@),
            None => change is None,
        },
{
    match found {
        Some(data) => Some(Change::Insert { key: comment_key(dst_path), value: data }),
        None => None,
    }
}

/// A comment follows its file: after a move it is found under the new path,
/// and, unless the paths are the same, no longer under the old one; the
/// comments on all other files stay.
pub proof fn law_comment_follows_move(
    table: Map<Seq<u8>, Seq<u8>>,
    found: Option<Vec<u8>>,
    old_key: Seq<u8>,
    new_key: Seq<u8>,
    other: Seq<u8>,
)
    requires
        match found {
            Some(data) => table.contains_key(old_key) && table[old_key] == data@,
            None => !table.contains_key(old_key),
        },
        other != old_key,
        other != new_key,
    ensures
        ({
            let changes = comment_moved(found, old_key, new_key);
            let after = changed_by(table, changes, changes.len());
            &&& found matches Some(data) ==> after.contains_key(new_key) && after[new_key] == data@
            &&& old_key != new_key ==> !after.contains_key(old_key)
            &&& after.contains_key(other) == table.contains_key(other)
            &&& table.contains_key(other) ==> after[other] == table[other]
        }),
{
    reveal_with_fuel(changed_by, 3);
}

// ── Applications ─────────────────────────────────────────────────────────────

/// The key of an application: creator and tag.
pub open spec fn appl_key(creator: Seq<u8>, tag: u32) -> Seq<u8> {
    creator + be32(tag)
}

/// Where an application is: its directory, and its path behind its length.
pub open spec fn appl_value(directory_id: u32, path: Seq<u8>) -> Seq<u8> {
    be32(directory_id) + seq![(path.len() % 256) as u8] + path
}

/// Whether a value says that an application is at a path in a directory.
pub open spec fn is_at(value: Seq<u8>, directory_id: u32, path: Seq<u8>) -> bool {
    &&& value.len() >= 5
    &&& value.take(4) == be32(directory_id)
    &&& value.len() >= 5 + value[4]
    &&& value.subrange(5, 5 + value[4]) == path
}

/// An application that is registered at a path in a directory is found there,
/// as long as its path has at most 255 bytes.
pub proof fn law_registered_is_found(directory_id: u32, path: Seq<u8>, other_dir: u32, other_path: Seq<u8>)
    requires
        path.len() <= 255,
    ensures
        is_at(appl_value(directory_id, path), other_dir, other_path) == (directory_id == other_dir && path == other_path),
{
    let v = appl_value(directory_id, path);
    assert(v.take(4) =~= be32(directory_id));
    assert(v[4] == path.len());
    assert(v.subrange(5, 5 + v[4]) =~= path);
    crate::wire::lemma_be32_round_trip(directory_id);
    crate::wire::lemma_be32_round_trip(other_dir);
}

fn make_appl_value(directory_id: u32, path: &[u8]) -> (value: Vec<u8>)
    ensures
        value@ == appl_value(directory_id, path@),
{
    let mut value: Vec<u8> = Vec::new();
    put_be32(&mut value, directory_id);
    value.push((path.len() % 256) as u8);
    put_bytes(&mut value, path);
    assert(value@ =~= appl_value(directory_id, path@));
    value
}

fn value_is_at(value: &[u8], directory_id: u32, path: &[u8]) -> (r: bool)
    ensures
        r == is_at(value@, directory_id, path@),
{
    if value.len() < 5 {
        return false;
    }
    let mut dir: Vec<u8> = Vec::new();
    put_be32(&mut dir, directory_id);
    assert(dir@ =~= be32(directory_id));
    let front = slice_bytes(value, 0, 4);
    assert(front@ =~= value@.take(4));
    if !bytes_eq(&front, &dir) {
        return false;
    }
    let n: usize = value[4] as usize;
    if value.len() - 5 < n {
        return false;
    }
    let stored = slice_bytes(value, 5, 5 + n);
    bytes_eq(&stored, path)
}

/// The row that registers an application; a path of more than 255 bytes is
/// refused.
pub fn add_appl(creator: [u8; 4], tag: u32, directory_id: u32, path: &str) -> (r: Result<Row, AfpError>)
    ensures
        if utf8(path@).len() > 255 {
            r == Err::<Row, AfpError>(AfpError::ParamError)
        } else {
            r matches Ok(row) && row.key@ == appl_key(creator@, tag) && row.value@ == appl_value(
                directory_id,
                utf8(path@),
            )
        },
{
    let path_bytes = path.as_bytes();
    if path_bytes.len() > 255 {
        return Err(AfpError::ParamError);
    }
    let mut key: Vec<u8> = Vec::new();
    put_bytes(&mut key, creator.as_slice());
    put_be32(&mut key, tag);
    assert(key@ =~= appl_key(creator@, tag));
    Ok(Row { key, value: make_appl_value(directory_id, path_bytes) })
}

/// The changes for the rows among the first `n` that are at a path: each gets
/// a new value.
pub open spec fn moved_rows(
    rows: Seq<(Seq<u8>, Seq<u8>)>,
    directory_id: u32,
    path: Seq<u8>,
    value: Seq<u8>,
    n: nat,
) -> Seq<ChangeView>
    decreases n,
{
    if n == 0 {
        Seq::empty()
    } else {
        let before = moved_rows(rows, directory_id, path, value, (n - 1) as nat);
        if is_at(rows[n - 1].1, directory_id, path) {
            before.push(ChangeView::Insert(rows[n - 1].0, value))
        } else {
            before
        }
    }
}

/// What follows an application to a new path: every row that has it at the old
/// path gets the new one.
pub fn move_appl_path(rows: &[Row], old_path: &str, new_path: &str, old_dir_id: u32, new_dir_id: u32) -> (changes: Vec<
    Change,
>)
    ensures
        changes_of(changes@) == moved_rows(
            rows_of(rows@),
            old_dir_id,
            utf8(old_path@),
            appl_value(new_dir_id, utf8(new_path@)),
            rows@.len(),
        ),
{
    let ghost all = rows_of(rows@);
    let ghost value = appl_value(new_dir_id, utf8(new_path@));
    let mut changes: Vec<Change> = Vec::new();
    let mut i: usize = 0;
    assert(changes_of(changes@) =~= Seq::<ChangeView>::empty());
    while i < rows.len()
        invariant
            i <= rows@.len(),
            all == rows_of(rows@),
            value == appl_value(new_dir_id, utf8(new_path@)),
            changes_of(changes@) == moved_rows(all, old_dir_id, utf8(old_path@), value, i as nat),
        decreases rows@.len() - i,
    {
        let row = &rows[i];
        assert(all[i as int] == (row.key@, row.value@));
        let ghost before = changes_of(changes@);
        if value_is_at(&row.value, old_dir_id, old_path.as_bytes()) {
            changes.push(
                Change::Insert {
                    key: copy_bytes(&row.key),
                    value: make_appl_value(new_dir_id, new_path.as_bytes()),
                },
            );
            assert(changes_of(changes@) =~= before.push(ChangeView::Insert(row.key@, value)));
        }
        i += 1;
    }
    changes
}

/// Whether a key stands for a row with another value.
pub open spec fn is_taken(rows: Seq<(Seq<u8>, Seq<u8>)>, key: Seq<u8>, value: Seq<u8>) -> bool {
    exists|i: int| 0 <= i < rows.len() && (#[trigger] rows[i]).0 == key && rows[i].1 != value
}

/// The length of the longest key.
pub open spec fn longest_key(rows: Seq<(Seq<u8>, Seq<u8>)>, n: nat) -> nat
    decreases n,
{
    if n == 0 {
        0
    } else {
        let before = longest_key(rows, (n - 1) as nat);
        if rows[n - 1].0.len() > before {
            rows[n - 1].0.len()
        } else {
            before
        }
    }
}

/// A key with zeros behind it, until it is longer than `len`.
pub open spec fn lengthened(key: Seq<u8>, len: nat) -> Seq<u8> {
    if key.len() > len {
        key
    } else {
        key + repeat(0, (len + 1 - key.len()) as nat)
    }
}

/// The key of a copied registration: creator and tag, and then the place of the
/// copy. Where a row with another value has that key, the key is made longer
/// than any other.
pub open spec fn copy_key(rows: Seq<(Seq<u8>, Seq<u8>)>, key: Seq<u8>, value: Seq<u8>) -> Seq<u8> {
    let wanted = key.take(8) + value;
    if is_taken(rows, wanted, value) {
        lengthened(wanted, longest_key(rows, rows.len()))
    } else {
        wanted
    }
}

/// Whether a row registers an application, which has a creator and a tag, at a
/// path.
pub open spec fn is_appl_at(row: (Seq<u8>, Seq<u8>), directory_id: u32, path: Seq<u8>) -> bool {
    row.0.len() >= 8 && is_at(row.1, directory_id, path)
}

/// The changes for the rows among the first `n` that register an application at
/// a path: each gets a second row with the new value.
pub open spec fn copied_rows(
    rows: Seq<(Seq<u8>, Seq<u8>)>,
    directory_id: u32,
    path: Seq<u8>,
    value: Seq<u8>,
    n: nat,
) -> Seq<ChangeView>
    decreases n,
{
    if n == 0 {
        Seq::empty()
    } else {
        let before = copied_rows(rows, directory_id, path, value, (n - 1) as nat);
        if is_appl_at(rows[n - 1], directory_id, path) {
            before.push(ChangeView::Insert(copy_key(rows, rows[n - 1].0, value), value))
        } else {
            before
        }
    }
}

proof fn lemma_longest_key(rows: Seq<(Seq<u8>, Seq<u8>)>, n: nat, i: int)
    requires
        0 <= i < n <= rows.len(),
    ensures
        rows[i].0.len() <= longest_key(rows, n),
    decreases n,
{
    if i < n - 1 {
        lemma_longest_key(rows, (n - 1) as nat, i);
    }
}

fn make_copy_key(rows: &[Row], key: &[u8], value: &[u8]) -> (r: Vec<u8>)
    requires
        key@.len() >= 8,
    ensures
        r@ == copy_key(rows_of(rows@), key@, value@),
{
    let ghost all = rows_of(rows@);
    let ghost wanted = key@.take(8) + value@;
    let mut r = slice_bytes(key, 0, 8);
    assert(r@ =~= key@.take(8));
    put_bytes(&mut r, value);
    assert(r@ == wanted);
    let mut taken = false;
    let mut longest: usize = 0;
    let mut i: usize = 0;
    while i < rows.len()
        invariant
            i <= rows@.len(),
            all == rows_of(rows@),
            r@ == wanted,
            longest == longest_key(all, i as nat),
            taken == exists|k: int| 0 <= k < i && (#[trigger] all[k]).0 == wanted && all[k].1 != value@,
        decreases rows@.len() - i,
    {
        let row = &rows[i];
        assert(all[i as int] == (row.key@, row.value@));
        if row.key.len() > longest {
            longest = row.key.len();
        }
        if bytes_eq(&row.key, &r) && !bytes_eq(&row.value, value) {
            taken = true;
        }
        i += 1;
    }
    if taken {
        let ghost start = r@;
        while r.len() <= longest
            invariant
                start.len() <= r@.len(),
                start.len() <= longest ==> r@.len() <= longest + 1,
                start.len() > longest ==> r@ == start,
                r@ == start + repeat(0, (r@.len() - start.len()) as nat),
            decreases longest + 1 - r@.len(),
        {
            let ghost before = r@;
            r.push(0);
            assert(r@ =~= start + repeat(0, (r@.len() - start.len()) as nat));
        }
        assert(r@ =~= lengthened(wanted, longest as nat));
    }
    r
}

/// What copies the registrations of an application to the copy of its file:
/// each gets a second row with the same creator and tag, and stays itself.
pub fn copy_appl(rows: &[Row], src_path: &str, dst_path: &str, src_dir_id: u32, dst_dir_id: u32) -> (changes: Vec<Change>)
    ensures
        changes_of(changes@) == copied_rows(
            rows_of(rows@),
            src_dir_id,
            utf8(src_path@),
            appl_value(dst_dir_id, utf8(dst_path@)),
            rows@.len(),
        ),
{
    let ghost all = rows_of(rows@);
    let value = make_appl_value(dst_dir_id, dst_path.as_bytes());
    let mut changes: Vec<Change> = Vec::new();
    let mut i: usize = 0;
    assert(changes_of(changes@) =~= Seq::<ChangeView>::empty());
    while i < rows.len()
        invariant
            i <= rows@.len(),
            all == rows_of(rows@),
            changes_of(changes@) == copied_rows(all, src_dir_id, utf8(src_path@), value@, i as nat),
        decreases rows@.len() - i,
    {
        let row = &rows[i];
        assert(all[i as int] == (row.key@, row.value@));
        let ghost before = changes_of(changes@);
        if row.key.len() >= 8 && value_is_at(&row.value, src_dir_id, src_path.as_bytes()) {
            changes.push(Change::Insert { key: make_copy_key(rows, &row.key, &value), value: copy_bytes(&value) });
            assert(changes_of(changes@) =~= before.push(
                ChangeView::Insert(copy_key(all, row.key@, value@), value@),
            ));
        }
        i += 1;
    }
    changes
}

/// The keys of the rows among the first `n` that are at a path.
pub open spec fn keys_at(rows: Seq<(Seq<u8>, Seq<u8>)>, directory_id: u32, path: Seq<u8>, n: nat) -> Seq<ChangeView>
    decreases n,
{
    if n == 0 {
        Seq::empty()
    } else {
        let before = keys_at(rows, directory_id, path, (n - 1) as nat);
        if is_at(rows[n - 1].1, directory_id, path) {
            before.push(ChangeView::Remove(rows[n - 1].0))
        } else {
            before
        }
    }
}

/// What forgets the applications at a path.
pub fn delete_appls_for_path(rows: &[Row], dir_id: u32, path: &str) -> (changes: Vec<Change>)
    ensures
        changes_of(changes@) == keys_at(rows_of(rows@), dir_id, utf8(path@), rows@.len()),
{
    let ghost all = rows_of(rows@);
    let mut changes: Vec<Change> = Vec::new();
    let mut i: usize = 0;
    assert(changes_of(changes@) =~= Seq::<ChangeView>::empty());
    while i < rows.len()
        invariant
            i <= rows@.len(),
            all == rows_of(rows@),
            changes_of(changes@) == keys_at(all, dir_id, utf8(path@), i as nat),
        decreases rows@.len() - i,
    {
        let row = &rows[i];
        assert(all[i as int] == (row.key@, row.value@));
        let ghost before = changes_of(changes@);
        if value_is_at(&row.value, dir_id, path.as_bytes()) {
            changes.push(Change::Remove { key: copy_bytes(&row.key) });
            assert(changes_of(changes@) =~= before.push(ChangeView::Remove(row.key@)));
        }
        i += 1;
    }
    changes
}

/// The first row from `start` on that is at a path.
pub open spec fn first_at(rows: Seq<(Seq<u8>, Seq<u8>)>, directory_id: u32, path: Seq<u8>, start: int) -> Option<int>
    decreases rows.len() - start,
{
    if start < 0 || start >= rows.len() {
        None
    } else if is_at(rows[start].1, directory_id, path) {
        Some(start)
    } else {
        first_at(rows, directory_id, path, start + 1)
    }
}

/// What forgets an application, out of the rows of its creator: the first one
/// at the path.
pub fn remove_appl(rows: &[Row], directory_id: u32, path: &str) -> (r: Result<Change, AfpError>)
    ensures
        match first_at(rows_of(rows@), directory_id, utf8(path@), 0) {
            Some(i) => r matches Ok(c) && c@ == ChangeView::Remove(rows_of(rows@)[i].0),
            None => r == Err::<Change, AfpError>(AfpError::ItemNotFound),
        },
{
    let ghost all = rows_of(rows@);
    let mut i: usize = 0;
    while i < rows.len()
        invariant
            i <= rows@.len(),
            all == rows_of(rows@),
            first_at(all, directory_id, utf8(path@), 0) == first_at(all, directory_id, utf8(path@), i as int),
        decreases rows@.len() - i,
    {
        let row = &rows[i];
        assert(all[i as int] == (row.key@, row.value@));
        if value_is_at(&row.value, directory_id, path.as_bytes()) {
            return Ok(Change::Remove { key: copy_bytes(&row.key) });
        }
        i += 1;
    }
    Err(AfpError::ItemNotFound)
}

/// The path that a value holds; none where it is cut short.
pub open spec fn stored_path(value: Seq<u8>) -> Option<Seq<u8>> {
    if value.len() >= 5 + value[4] {
        Some(value.subrange(5, 5 + value[4]))
    } else {
        None
    }
}

/// An application by its place among the rows of its creator, counted from
/// one; zero counts as one. Returns the tag, the directory and the path.
pub fn get_appl(rows: &[Row], index: u16) -> (r: Result<(u32, u32, String), AfpError>)
    ensures
        ({
            let at: int = if index == 0 {
                0
            } else {
                index - 1
            };
            if at < rows@.len() && rows@[at].key@.len() >= 8 && rows@[at].value@.len() >= 5 {
                let key = rows@[at].key@;
                let value = rows@[at].value@;
                &&& r matches Ok((tag, directory_id, path))
                &&& tag == from_be32(key[4], key[5], key[6], key[7])
                &&& directory_id == from_be32(value[0], value[1], value[2], value[3])
                &&& path@ == match stored_path(value) {
                    Some(bytes) => lossy_utf8(bytes),
                    None => Seq::empty(),
                }
            } else {
                r == Err::<(u32, u32, String), AfpError>(AfpError::ItemNotFound)
            }
        }),
{
    let target: usize = index.saturating_sub(1) as usize;
    if target >= rows.len() {
        return Err(AfpError::ItemNotFound);
    }
    let row = &rows[target];
    if row.key.len() < 8 || row.value.len() < 5 {
        return Err(AfpError::ItemNotFound);
    }
    let tag: u32 = get_be32(&row.key, 4);
    let directory_id: u32 = get_be32(&row.value, 0);
    let n: usize = row.value[4] as usize;
    let path = if row.value.len() - 5 >= n {
        let bytes = slice_bytes(&row.value, 5, 5 + n);
        lossy_text(&bytes)
    } else {
        let empty = String::new();
        assert(empty@ =~= Seq::<char>::empty());
        empty
    };
    Ok((tag, directory_id, path))
}

/// An application that is registered is got back as it was: its tag, its
/// directory and its path. That holds of copied registrations too, whose keys
/// are longer.
pub proof fn law_registered_appl_reads_back(
    creator: Seq<u8>,
    tag: u32,
    directory_id: u32,
    path: Seq<char>,
    key: Seq<u8>,
)
    requires
        creator.len() == 4,
        utf8(path).len() <= 255,
        key.len() >= 8,
        key.take(8) == appl_key(creator, tag),
    ensures
        ({
            let value = appl_value(directory_id, utf8(path));
            &&& value.len() >= 5
            &&& from_be32(key[4], key[5], key[6], key[7]) == tag
            &&& from_be32(value[0], value[1], value[2], value[3]) == directory_id
            &&& stored_path(value) == Some(utf8(path))
            &&& lossy_utf8(utf8(path)) == path
        }),
{
    let front = key.take(8);
    let value = appl_value(directory_id, utf8(path));
    crate::wire::lemma_be32_round_trip(tag);
    crate::wire::lemma_be32_round_trip(directory_id);
    assert(front[4] == be32(tag)[0] && front[5] == be32(tag)[1] && front[6] == be32(tag)[2] && front[7] == be32(tag)[3]);
    assert(value[4] == utf8(path).len());
    assert(value.subrange(5, 5 + value[4]) =~= utf8(path));
    vstd::utf8::encode_utf8_valid_utf8(path);
    vstd::utf8::encode_utf8_decode_utf8(path);
}

proof fn lemma_copy_key(
    table: Map<Seq<u8>, Seq<u8>>,
    rows: Seq<(Seq<u8>, Seq<u8>)>,
    key: Seq<u8>,
    value: Seq<u8>,
)
    requires
        lists(rows, table),
        key.len() >= 8,
    ensures
        ({
            let k = copy_key(rows, key, value);
            &&& k.len() >= 8
            &&& k.take(8) == key.take(8)
            &&& table.contains_key(k) ==> table[k] == value
        }),
{
    let k = copy_key(rows, key, value);
    assert(k.take(8) =~= key.take(8));
    if table.contains_key(k) {
        let i = choose|i: int| 0 <= i < rows.len() && (#[trigger] rows[i]).0 == k;
        lemma_longest_key(rows, rows.len(), i);
        assert(table[rows[i].0] == rows[i].1);
    }
}

proof fn lemma_copied_rows(
    table: Map<Seq<u8>, Seq<u8>>,
    rows: Seq<(Seq<u8>, Seq<u8>)>,
    directory_id: u32,
    path: Seq<u8>,
    value: Seq<u8>,
    n: nat,
)
    requires
        lists(rows, table),
        n <= rows.len(),
    ensures
        ({
            let changes = copied_rows(rows, directory_id, path, value, n);
            let after = changed_by(table, changes, changes.len());
            &&& forall|k: Seq<u8>| #[trigger] table.contains_key(k) ==> after.contains_key(k) && after[k] == table[k]
            &&& forall|k: Seq<u8>| #[trigger] after.contains_key(k) ==> table.contains_key(k) || after[k] == value
            &&& forall|i: int|
                0 <= i < n && is_appl_at(#[trigger] rows[i], directory_id, path) ==> after.contains_key(
                    copy_key(rows, rows[i].0, value),
                ) && after[copy_key(rows, rows[i].0, value)] == value
        }),
    decreases n,
{
    if n > 0 {
        let m = (n - 1) as nat;
        lemma_copied_rows(table, rows, directory_id, path, value, m);
        let before = copied_rows(rows, directory_id, path, value, m);
        let changes = copied_rows(rows, directory_id, path, value, n);
        if is_appl_at(rows[n - 1], directory_id, path) {
            let key = copy_key(rows, rows[n - 1].0, value);
            lemma_copy_key(table, rows, rows[n - 1].0, value);
            assert(changes == before.push(ChangeView::Insert(key, value)));
            lemma_changed_by_same(table, changes, before, before.len());
        }
    }
}

/// A copied application is registered twice: nothing that was registered before
/// changes, for every registration at the old path there is one with the same
/// creator and tag at the new path, and there is nothing else.
pub proof fn law_copied_appls_are_beside(
    table: Map<Seq<u8>, Seq<u8>>,
    rows: Seq<(Seq<u8>, Seq<u8>)>,
    src_dir: u32,
    src_path: Seq<u8>,
    dst_dir: u32,
    dst_path: Seq<u8>,
    key: Seq<u8>,
)
    requires
        lists(rows, table),
    ensures
        ({
            let value = appl_value(dst_dir, dst_path);
            let changes = copied_rows(rows, src_dir, src_path, value, rows.len());
            let after = changed_by(table, changes, changes.len());
            &&& table.contains_key(key) ==> after.contains_key(key) && after[key] == table[key]
            &&& after.contains_key(key) ==> table.contains_key(key) || after[key] == value
            &&& table.contains_key(key) && is_appl_at((key, table[key]), src_dir, src_path) ==> exists|k: Seq<u8>|
                #[trigger] after.contains_key(k) && k.len() >= 8 && k.take(8) == key.take(8) && after[k] == value
        }),
{
    let value = appl_value(dst_dir, dst_path);
    let changes = copied_rows(rows, src_dir, src_path, value, rows.len());
    let after = changed_by(table, changes, changes.len());
    lemma_copied_rows(table, rows, src_dir, src_path, value, rows.len());
    if table.contains_key(key) && is_appl_at((key, table[key]), src_dir, src_path) {
        let i = choose|i: int| 0 <= i < rows.len() && (#[trigger] rows[i]).0 == key;
        assert(rows[i] == (key, table[key]));
        lemma_copy_key(table, rows, key, value);
        assert(after.contains_key(copy_key(rows, key, value)));
    }
}

proof fn lemma_moved_rows(
    table: Map<Seq<u8>, Seq<u8>>,
    rows: Seq<(Seq<u8>, Seq<u8>)>,
    directory_id: u32,
    path: Seq<u8>,
    value: Seq<u8>,
    n: nat,
)
    requires
        n <= rows.len(),
        lists(rows, table),
    ensures
        ({
            let changes = moved_rows(rows, directory_id, path, value, n);
            let after = changed_by(table, changes, changes.len());
            &&& after.dom() == table.dom()
            &&& forall|k: Seq<u8>| #[trigger]
                table.contains_key(k) ==> after[k] == if is_at(table[k], directory_id, path) && exists|i: int|
                    0 <= i < n && (#[trigger] rows[i]).0 == k {
                    value
                } else {
                    table[k]
                }
        }),
    decreases n,
{
    if n > 0 {
        let m = (n - 1) as nat;
        lemma_moved_rows(table, rows, directory_id, path, value, m);
        let before = moved_rows(rows, directory_id, path, value, m);
        let changes = moved_rows(rows, directory_id, path, value, n);
        let key = rows[n - 1].0;
        assert(table[key] == rows[n - 1].1);
        if is_at(rows[n - 1].1, directory_id, path) {
            lemma_changed_by_same(table, changes, before, before.len());
            assert(changed_by(table, changes, changes.len()) == changed_by(table, before, before.len()).insert(
                key,
                value,
            ));
        }
        let after = changed_by(table, changes, changes.len());
        assert forall|k: Seq<u8>| #[trigger] table.contains_key(k) implies after[k] == if is_at(
            table[k],
            directory_id,
            path,
        ) && exists|i: int| 0 <= i < n && (#[trigger] rows[i]).0 == k {
            value
        } else {
            table[k]
        } by {
            if k == key {
                assert(rows[n - 1].0 == k);
            } else if exists|i: int| 0 <= i < n && (#[trigger] rows[i]).0 == k {
                let i = choose|i: int| 0 <= i < n && (#[trigger] rows[i]).0 == k;
                assert(i < m);
            }
        }
        assert(after.dom() =~= table.dom());
    }
}

proof fn lemma_changed_by_same(table: Map<Seq<u8>, Seq<u8>>, a: Seq<ChangeView>, b: Seq<ChangeView>, n: nat)
    requires
        n <= a.len(),
        n <= b.len(),
        forall|i: int| 0 <= i < n ==> a[i] == b[i],
    ensures
        changed_by(table, a, n) == changed_by(table, b, n),
    decreases n,
{
    if n > 0 {
        lemma_changed_by_same(table, a, b, (n - 1) as nat);
    }
}

/// Applications follow their file: after a move, exactly those that were at the
/// old path are registered at the new one, and no other registration changes.
pub proof fn law_appls_follow_move(
    table: Map<Seq<u8>, Seq<u8>>,
    rows: Seq<(Seq<u8>, Seq<u8>)>,
    old_dir: u32,
    old_path: Seq<u8>,
    new_dir: u32,
    new_path: Seq<u8>,
)
    requires
        lists(rows, table),
        new_path.len() <= 255,
    ensures
        ({
            let changes = moved_rows(rows, old_dir, old_path, appl_value(new_dir, new_path), rows.len());
            let after = changed_by(table, changes, changes.len());
            &&& after.dom() == table.dom()
            &&& forall|k: Seq<u8>| #[trigger]
                table.contains_key(k) ==> if is_at(table[k], old_dir, old_path) {
                    is_at(after[k], new_dir, new_path)
                } else {
                    after[k] == table[k]
                }
        }),
{
    let value = appl_value(new_dir, new_path);
    lemma_moved_rows(table, rows, old_dir, old_path, value, rows.len());
    law_registered_is_found(new_dir, new_path, new_dir, new_path);
    let changes = moved_rows(rows, old_dir, old_path, value, rows.len());
    let after = changed_by(table, changes, changes.len());
    assert forall|k: Seq<u8>| #[trigger] table.contains_key(k) implies if is_at(table[k], old_dir, old_path) {
        is_at(after[k], new_dir, new_path)
    } else {
        after[k] == table[k]
    } by {
        let i = choose|i: int| 0 <= i < rows.len() && (#[trigger] rows[i]).0 == k;
        assert(rows[i].0 == k);
    }
}

proof fn lemma_keys_at(
    table: Map<Seq<u8>, Seq<u8>>,
    rows: Seq<(Seq<u8>, Seq<u8>)>,
    directory_id: u32,
    path: Seq<u8>,
    n: nat,
)
    requires
        n <= rows.len(),
        lists(rows, table),
    ensures
        ({
            let changes = keys_at(rows, directory_id, path, n);
            let after = changed_by(table, changes, changes.len());
            forall|k: Seq<u8>|
                #![trigger after.contains_key(k)]
                after.contains_key(k) == (table.contains_key(k) && !(is_at(table[k], directory_id, path) && exists|i: int|
                    0 <= i < n && (#[trigger] rows[i]).0 == k)) && (after.contains_key(k) ==> after[k] == table[k])
        }),
    decreases n,
{
    if n > 0 {
        let m = (n - 1) as nat;
        lemma_keys_at(table, rows, directory_id, path, m);
        let before = keys_at(rows, directory_id, path, m);
        let changes = keys_at(rows, directory_id, path, n);
        let key = rows[n - 1].0;
        assert(table[key] == rows[n - 1].1);
        if is_at(rows[n - 1].1, directory_id, path) {
            lemma_changed_by_same(table, changes, before, before.len());
            assert(changed_by(table, changes, changes.len()) == changed_by(table, before, before.len()).remove(key));
        }
        let earlier = changed_by(table, before, before.len());
        let after = changed_by(table, changes, changes.len());
        assert forall|k: Seq<u8>|
            #![trigger after.contains_key(k)]
            after.contains_key(k) == (table.contains_key(k) && !(is_at(table[k], directory_id, path) && exists|i: int|
                0 <= i < n && (#[trigger] rows[i]).0 == k)) && (after.contains_key(k) ==> after[k] == table[k]) by {
            assert(earlier.contains_key(k) || !earlier.contains_key(k));
            if k == key {
                assert(rows[n - 1].0 == k);
            } else if exists|i: int| 0 <= i < n && (#[trigger] rows[i]).0 == k {
                let i = choose|i: int| 0 <= i < n && (#[trigger] rows[i]).0 == k;
                assert(i < m);
            }
        }
    }
}

/// A deleted file takes its applications along: none is registered at its path
/// afterwards, and every other registration stays.
pub proof fn law_appls_go_with_file(
    table: Map<Seq<u8>, Seq<u8>>,
    rows: Seq<(Seq<u8>, Seq<u8>)>,
    directory_id: u32,
    path: Seq<u8>,
)
    requires
        lists(rows, table),
    ensures
        ({
            let changes = keys_at(rows, directory_id, path, rows.len());
            let after = changed_by(table, changes, changes.len());
            forall|k: Seq<u8>|
                #![trigger after.contains_key(k)]
                after.contains_key(k) == (table.contains_key(k) && !is_at(table[k], directory_id, path)) && (
                after.contains_key(k) ==> after[k] == table[k])
        }),
{
    lemma_keys_at(table, rows, directory_id, path, rows.len());
    let changes = keys_at(rows, directory_id, path, rows.len());
    let after = changed_by(table, changes, changes.len());
    assert forall|k: Seq<u8>|
        #![trigger after.contains_key(k)]
        after.contains_key(k) == (table.contains_key(k) && !is_at(table[k], directory_id, path)) && (after.contains_key(
            k,
        ) ==> after[k] == table[k]) by {
        if table.contains_key(k) {
            let i = choose|i: int| 0 <= i < rows.len() && (#[trigger] rows[i]).0 == k;
            assert(rows[i].0 == k);
        }
    }
}

/// An icon is kept by its creator, its file type and its kind, in this order.
pub proof fn law_icon_key_is_in_order(creator: Seq<u8>, file_type: Seq<u8>, icon_type: u8)
    requires
        creator.len() == 4,
        file_type.len() == 4,
    ensures
        ({
            let k = icon_key(creator, file_type, icon_type);
            &&& k.len() == 9
            &&& k.take(4) == creator
            &&& k.subrange(4, 8) == file_type
            &&& k[8] == icon_type
            &&& number32(k, 4) == file_type[0] * 16777216 + file_type[1] * 65536 + file_type[2] * 256 + file_type[3]
        }),
{
    let k = icon_key(creator, file_type, icon_type);
    assert(k.take(4) =~= creator);
    assert(k.subrange(4, 8) =~= file_type);
}

/// The icon that is found for a creator is the first whose key starts with it.
pub proof fn law_first_icon_is_found(rows: Seq<(Seq<u8>, Seq<u8>)>, creator: Seq<u8>, start: int)
    requires
        creator.len() == 4,
        0 <= start <= rows.len(),
    ensures
        match first_icon(rows, creator, start) {
            Some(i) => start <= i < rows.len() && rows[i].0.len() == 9 && rows[i].0.take(4) == creator && forall|k: int|
                start <= k < i ==> !((#[trigger] rows[k]).0.len() == 9 && rows[k].0.take(4) == creator),
            None => forall|k: int|
                start <= k < rows.len() ==> !((#[trigger] rows[k]).0.len() == 9 && rows[k].0.take(4) == creator),
        },
    decreases rows.len() - start,
{
    if start < rows.len() && !is_icon_of(rows[start], creator) {
        law_first_icon_is_found(rows, creator, start + 1);
    }
}

/// An application is registered under its creator and its tag, with its directory
/// in front of its path, which is preceded by its length.
pub proof fn law_appl_is_kept_in_order(creator: Seq<u8>, tag: u32, directory_id: u32, path: Seq<u8>)
    requires
        creator.len() == 4,
        path.len() <= 255,
    ensures
        appl_key(creator, tag).len() == 8,
        appl_key(creator, tag).take(4) == creator,
        number32(appl_key(creator, tag), 4) == tag,
        appl_value(directory_id, path).len() == 5 + path.len(),
        number32(appl_value(directory_id, path), 0) == directory_id,
        appl_value(directory_id, path)[4] == path.len(),
        appl_value(directory_id, path).skip(5) == path,
{
    law_bytes_count_by_their_place(0, tag);
    law_bytes_count_by_their_place(0, directory_id);
    assert(appl_key(creator, tag).take(4) =~= creator);
    assert(appl_value(directory_id, path).skip(5) =~= path);
}

/// A registration is at a path exactly where its directory, the length and the
/// bytes of its path agree.
pub proof fn law_appl_is_at_its_path(value: Seq<u8>, directory_id: u32, path: Seq<u8>)
    requires
        value.len() >= 5,
    ensures
        is_at(value, directory_id, path) <==> {
            &&& number32(value, 0) == directory_id
            &&& value[4] == path.len()
            &&& value.len() >= 5 + path.len()
            &&& forall|k: int| 0 <= k < path.len() ==> #[trigger] value[5 + k] == path[k]
        },
        stored_path(value) matches Some(p) ==> p.len() == value[4] && forall|k: int|
            0 <= k < p.len() ==> #[trigger] p[k] == value[5 + k],
        stored_path(value) is None <==> value.len() < 5 + value[4],
{
    law_bytes_count_by_their_place(0, directory_id);
    let front = value.take(4);
    if front == be32(directory_id) {
        assert(value[0] == front[0] && value[1] == front[1] && value[2] == front[2] && value[3] == front[3]);
    }
    if number32(value, 0) == directory_id {
        let b = be32(directory_id);
        assert(front[0] == b[0] && front[1] == b[1] && front[2] == b[2] && front[3] == b[3]);
        assert(front =~= b);
    }
    if value.len() >= 5 + value[4] {
        let p = value.subrange(5, 5 + value[4]);
        if p == path {
            assert forall|k: int| 0 <= k < path.len() implies #[trigger] value[5 + k] == path[k] by {
                assert(p[k] == value[5 + k]);
            }
        }
        if value[4] == path.len() && forall|k: int| 0 <= k < path.len() ==> #[trigger] value[5 + k] == path[k] {
            assert(p =~= path) by {
                assert forall|k: int| 0 <= k < path.len() implies p[k] == path[k] by {
                    assert(value[5 + k] == path[k]);
                }
            }
        }
    }
}

/// The registration that is found at a path is the first one there.
pub proof fn law_first_appl_is_found(rows: Seq<(Seq<u8>, Seq<u8>)>, directory_id: u32, path: Seq<u8>, start: int)
    requires
        0 <= start <= rows.len(),
    ensures
        match first_at(rows, directory_id, path, start) {
            Some(i) => start <= i < rows.len() && is_at(rows[i].1, directory_id, path) && forall|k: int|
                start <= k < i ==> !is_at((#[trigger] rows[k]).1, directory_id, path),
            None => forall|k: int| start <= k < rows.len() ==> !is_at((#[trigger] rows[k]).1, directory_id, path),
        },
    decreases rows.len() - start,
{
    if start < rows.len() && !is_at(rows[start].1, directory_id, path) {
        law_first_appl_is_found(rows, directory_id, path, start + 1);
    }
}

proof fn lemma_longest(rows: Seq<(Seq<u8>, Seq<u8>)>, n: nat, i: int)
    requires
        0 <= i < n <= rows.len(),
    ensures
        rows[i].0.len() <= longest_key(rows, n),
    decreases n,
{
    if i < n - 1 {
        lemma_longest(rows, (n - 1) as nat, i);
    }
}

/// A copy of a registration keeps the creator and the tag in its key and takes a
/// key that nothing else has; that is the two with the new place behind them,
/// unless that key is taken.
pub proof fn law_copy_takes_a_free_key(rows: Seq<(Seq<u8>, Seq<u8>)>, key: Seq<u8>, value: Seq<u8>)
    requires
        key.len() >= 8,
    ensures
        copy_key(rows, key, value).len() >= 8 + value.len(),
        copy_key(rows, key, value).take(8) == key.take(8),
        copy_key(rows, key, value).subrange(8, (8 + value.len()) as int) == value,
        forall|i: int|
            0 <= i < rows.len() && (#[trigger] rows[i]).0 == copy_key(rows, key, value) ==> rows[i].1 == value,
        (forall|i: int| 0 <= i < rows.len() ==> (#[trigger] rows[i]).0 != key.take(8) + value) ==> copy_key(rows, key, value)
            == key.take(8) + value,
{
    let wanted = key.take(8) + value;
    let k = copy_key(rows, key, value);
    assert(k.take(8) =~= key.take(8));
    assert(k.subrange(8, (8 + value.len()) as int) =~= value);
    if is_taken(rows, wanted, value) {
        assert forall|i: int| 0 <= i < rows.len() implies (#[trigger] rows[i]).0 != k by {
            lemma_longest(rows, rows.len(), i);
            assert(k.len() > longest_key(rows, rows.len()));
        }
    }
}

/// What is put into a table is found under its key, what is taken out is not, and
/// all other keys keep what they have.
pub proof fn law_changes_are_made(table: Map<Seq<u8>, Seq<u8>>, key: Seq<u8>, value: Seq<u8>, other: Seq<u8>)
    requires
        other != key,
    ensures
        changed(table, ChangeView::Insert(key, value)).contains_key(key),
        changed(table, ChangeView::Insert(key, value))[key] == value,
        changed(table, ChangeView::Insert(key, value)).contains_key(other) == table.contains_key(other),
        table.contains_key(other) ==> changed(table, ChangeView::Insert(key, value))[other] == table[other],
        !changed(table, ChangeView::Remove(key)).contains_key(key),
        changed(table, ChangeView::Remove(key)).contains_key(other) == table.contains_key(other),
        table.contains_key(other) ==> changed(table, ChangeView::Remove(key))[other] == table[other],
{
}

/// A row is its key and its value, and a change says which of the two it makes.
pub proof fn law_rows_are_keys_and_values(rows: Seq<Row>, changes: Seq<Change>, i: int)
    ensures
        rows_of(rows).len() == rows.len(),
        0 <= i < rows.len() ==> rows_of(rows)[i].0 == rows[i].key@ && rows_of(rows)[i].1 == rows[i].value@,
        changes_of(changes).len() == changes.len(),
        0 <= i < changes.len() ==> match changes[i] {
            Change::Insert { key, value } => changes_of(changes)[i] is Insert && changes_of(changes)[i]->Insert_0 == key@
                && changes_of(changes)[i]->Insert_1 == value@,
            Change::Remove { key } => changes_of(changes)[i] is Remove && changes_of(changes)[i]->Remove_0 == key@,
        },
{
}

} // verus!
