//! Parameters of files, directories and volumes as clients ask for them.
//!
//! A bitmap says which parameters a reply holds. They stand in a fixed order;
//! a name stands behind all others, and an offset tells where.

use crate::afp::finder::{attributes_of, get_attributes};
use crate::wire::{be16, be32, copy_bytes, number16, number32, put_be16, put_be32, put_bytes, repeat, slice_bytes, utf8};
use crate::{afp_date_v1, time_to_afp_v1};
use encoding_rs::MACINTOSH;
use vstd::prelude::*;
use vstd::string::*;
use vstd::utf8::is_ascii_chars;

verus! {

/// Most characters in a name that is given to the character encoder.
pub const MAX_NAME_CHARS: usize = 0x100_0000;

/// Most bytes of a name in a reply.
pub const MAX_LONG_NAME: usize = 255;

/// What everybody may do with a directory: everything.
pub const ACCESS_RIGHTS: u32 = 0x8707_0707;

/// The signature of a volume whose directories keep their numbers.
pub const SIGNATURE_FIXED_DIRECTORY_ID: u16 = 2;

/// The size and the free space that every volume has.
pub const VOLUME_BYTES: u32 = 1_073_741_823;

/// A text in the Macintosh character set.
pub uninterp spec fn mac_roman(text: Seq<char>) -> Seq<u8>;

/// A text in the Macintosh character set, by `encoding_rs::Encoding::encode` of
/// `encoding_rs::MACINTOSH`. Claims that the bytes are a function of the text,
/// and that a text of ASCII characters keeps its bytes; what becomes of other
/// characters is left unsaid. The function panics where the buffer would get too
/// large to be allocated, which the bound on the text leaves out.
#[verifier::external_body]
pub(crate) fn mac_encode(text: &str) -> (bytes: Vec<u8>)
    requires
        text@.len() <= MAX_NAME_CHARS,
    ensures
        bytes@ == mac_roman(text@),
        is_ascii_chars(text@) ==> bytes@ == utf8(text@),
{
    MACINTOSH.encode(text).0.into_owned()
}

/// The first bytes of a name, as many as fit into a reply.
pub open spec fn long_name(bytes: Seq<u8>) -> Seq<u8> {
    if bytes.len() <= MAX_LONG_NAME {
        bytes
    } else {
        bytes.take(MAX_LONG_NAME as int)
    }
}

/// A name behind its length.
pub open spec fn pascal(bytes: Seq<u8>) -> Seq<u8> {
    seq![(long_name(bytes).len()) as u8] + long_name(bytes)
}

/// The parameters that are asked for, one behind the other: each stands beside
/// whether it is.
pub open spec fn packed(fields: Seq<(bool, Seq<u8>)>) -> Seq<u8>
    decreases fields.len(),
{
    if fields.len() == 0 {
        Seq::empty()
    } else if fields.last().0 {
        packed(fields.drop_last()) + fields.last().1
    } else {
        packed(fields.drop_last())
    }
}

/// The width of the parameters that are asked for: each stands beside whether
/// it is.
pub open spec fn packed_len(shape: Seq<(bool, nat)>) -> nat
    decreases shape.len(),
{
    if shape.len() == 0 {
        0
    } else if shape.last().0 {
        packed_len(shape.drop_last()) + shape.last().1
    } else {
        packed_len(shape.drop_last())
    }
}

/// Whether parameters have the widths of a shape.
pub open spec fn has_shape(fields: Seq<(bool, Seq<u8>)>, shape: Seq<(bool, nat)>) -> bool {
    fields.len() == shape.len() && forall|i: int|
        0 <= i < shape.len() ==> (#[trigger] fields[i]).0 == shape[i].0 && fields[i].1.len() == shape[i].1
}

proof fn lemma_packed_len(fields: Seq<(bool, Seq<u8>)>, shape: Seq<(bool, nat)>)
    requires
        has_shape(fields, shape),
    ensures
        packed(fields).len() == packed_len(shape),
    decreases fields.len(),
{
    if fields.len() > 0 {
        let n = fields.len() - 1;
        assert(fields[n].0 == shape[n].0);
        lemma_packed_len(fields.drop_last(), shape.drop_last());
    }
}

proof fn lemma_packed_len_bound(shape: Seq<(bool, nat)>)
    requires
        forall|i: int| 0 <= i < shape.len() ==> (#[trigger] shape[i]).1 <= 32,
    ensures
        packed_len(shape) <= 32 * shape.len(),
    decreases shape.len(),
{
    if shape.len() > 0 {
        let n = shape.len() - 1;
        assert(shape[n].1 <= 32);
        lemma_packed_len_bound(shape.drop_last());
    }
}

/// A parameter and whether it is asked for.
struct Field {
    present: bool,
    bytes: Vec<u8>,
}

spec fn fields_of(list: Seq<Field>) -> Seq<(bool, Seq<u8>)> {
    Seq::new(list.len(), |i: int| (list[i].present, list[i].bytes@))
}

fn pack(list: &Vec<Field>) -> (out: Vec<u8>)
    ensures
        out@ == packed(fields_of(list@)),
{
    let mut out: Vec<u8> = Vec::new();
    let ghost all = fields_of(list@);
    let mut i: usize = 0;
    assert(all.take(0) =~= Seq::<(bool, Seq<u8>)>::empty());
    while i < list.len()
        invariant
            i <= list@.len(),
            all == fields_of(list@),
            out@ == packed(all.take(i as int)),
        decreases list@.len() - i,
    {
        proof {
            assert(all.take(i + 1).drop_last() =~= all.take(i as int));
            assert(all.take(i + 1).last() == all[i as int]);
        }
        if list[i].present {
            put_bytes(&mut out, &list[i].bytes);
        }
        i += 1;
    }
    assert(all.take(i as int) =~= all);
    out
}

fn field16(present: bool, x: u16) -> (f: Field)
    ensures
        f.present == present,
        f.bytes@ == be16(x),
{
    let mut bytes: Vec<u8> = Vec::new();
    put_be16(&mut bytes, x);
    assert(bytes@ =~= be16(x));
    Field { present, bytes }
}

fn field32(present: bool, x: u32) -> (f: Field)
    ensures
        f.present == present,
        f.bytes@ == be32(x),
{
    let mut bytes: Vec<u8> = Vec::new();
    put_be32(&mut bytes, x);
    assert(bytes@ =~= be32(x));
    Field { present, bytes }
}

fn field_bytes(present: bool, x: &[u8]) -> (f: Field)
    ensures
        f.present == present,
        f.bytes@ == x@,
{
    Field { present, bytes: copy_bytes(x) }
}

fn total_width(shape: &Vec<(bool, usize)>) -> (n: usize)
    requires
        shape@.len() <= 64,
        forall|i: int| 0 <= i < shape@.len() ==> (#[trigger] shape@[i]).1 <= 32,
    ensures
        n == packed_len(Seq::new(shape@.len(), |i: int| (shape@[i].0, shape@[i].1 as nat))),
        n <= 32 * shape@.len(),
{
    let ghost all = Seq::new(shape@.len(), |i: int| (shape@[i].0, shape@[i].1 as nat));
    let mut n: usize = 0;
    let mut i: usize = 0;
    assert(all.take(0) =~= Seq::<(bool, nat)>::empty());
    while i < shape.len()
        invariant
            i <= shape@.len() <= 64,
            all == Seq::new(shape@.len(), |i: int| (shape@[i].0, shape@[i].1 as nat)),
            forall|i: int| 0 <= i < shape@.len() ==> (#[trigger] shape@[i]).1 <= 32,
            n == packed_len(all.take(i as int)),
            n <= 32 * i,
        decreases shape@.len() - i,
    {
        proof {
            assert(all.take(i + 1).drop_last() =~= all.take(i as int));
            assert(all.take(i + 1).last() == all[i as int]);
        }
        let (present, w) = shape[i];
        if present {
            n = n + w;
        }
        i += 1;
    }
    assert(all.take(i as int) =~= all);
    n
}

fn make_pascal(bytes: &[u8]) -> (r: Vec<u8>)
    ensures
        r@ == pascal(bytes@),
{
    let n: usize = if bytes.len() <= MAX_LONG_NAME { bytes.len() } else { MAX_LONG_NAME };
    let front = slice_bytes(bytes, 0, n);
    assert(front@ =~= long_name(bytes@));
    let mut r: Vec<u8> = Vec::new();
    r.push(n as u8);
    put_bytes(&mut r, &front);
    assert(r@ =~= pascal(bytes@));
    r
}

// ── Files ────────────────────────────────────────────────────────────────────

/// Which parameters of a file are asked for.
#[derive(Debug, Clone, Copy, PartialEq, Eq, Structural)]
pub struct FileBitmap {
    /// The bitmap as it stands in requests and replies.
    pub bits: u16,
    pub attributes: bool,
    pub parent_dir_id: bool,
    pub create_date: bool,
    pub modification_date: bool,
    pub backup_date: bool,
    pub finder_info: bool,
    pub long_name: bool,
    pub file_number: bool,
    pub data_fork_length: bool,
    pub resource_fork_length: bool,
    pub prodos_info: bool,
}

/// What the file system knows of a file.
#[derive(Debug, Clone, Copy)]
pub struct FileFacts {
    /// The Finder flags.
    pub flags: u16,
    /// Unix times, negative before 1970.
    pub created: i64,
    pub modified: i64,
    pub finder_info: [u8; 32],
    pub data_len: u64,
    pub rsrc_len: u32,
}

impl FileBitmap {
    /// The width of every parameter but the name, beside whether it is asked
    /// for.
    pub open spec fn shape(self) -> Seq<(bool, nat)> {
        seq![
            (self.attributes, 2nat),
            (self.parent_dir_id, 4nat),
            (self.create_date, 4nat),
            (self.modification_date, 4nat),
            (self.backup_date, 4nat),
            (self.finder_info, 32nat),
            (self.long_name, 2nat),
            (self.file_number, 4nat),
            (self.data_fork_length, 4nat),
            (self.resource_fork_length, 4nat),
            (self.prodos_info, 6nat),
        ]
    }

    /// The length of all parameters without the name, which is where the name
    /// stands.
    pub open spec fn fixed_len(self) -> nat {
        packed_len(self.shape())
    }

    /// Where the name stands.
    pub fn long_name_offset(&self) -> (n: usize)
        ensures
            n == self.fixed_len(),
            n <= 384,
    {
        let shape: Vec<(bool, usize)> = vec![
            (self.attributes, 2),
            (self.parent_dir_id, 4),
            (self.create_date, 4),
            (self.modification_date, 4),
            (self.backup_date, 4),
            (self.finder_info, 32),
            (self.long_name, 2),
            (self.file_number, 4),
            (self.data_fork_length, 4),
            (self.resource_fork_length, 4),
            (self.prodos_info, 6),
        ];
        let ghost seen = Seq::new(shape@.len(), |i: int| (shape@[i].0, shape@[i].1 as nat));
        assert(seen =~= self.shape());
        total_width(&shape)
    }

    /// The length of the parameters of a file whose name has `name_len` bytes.
    pub open spec fn reply_len(self, name_len: nat) -> nat {
        self.fixed_len() + if self.long_name {
            name_len + 1
        } else {
            0
        }
    }

    /// The length of the parameters of a file whose name has `name_len` bytes.
    pub fn response_len(&self, name_len: usize) -> (n: usize)
        requires
            name_len <= usize::MAX - 512,
        ensures
            n == self.reply_len(name_len as nat),
            n <= name_len + 385,
    {
        let fixed: usize = self.long_name_offset();
        if self.long_name {
            fixed + name_len + 1
        } else {
            fixed
        }
    }
}

/// The parameters of a file but its name, beside whether each is asked for.
pub open spec fn file_fields(b: FileBitmap, id: u32, parent_id: u32, facts: FileFacts) -> Seq<(bool, Seq<u8>)> {
    seq![
        (b.attributes, be16(attributes_of(facts.flags))),
        (b.parent_dir_id, be32(parent_id)),
        (b.create_date, be32(afp_date_v1(facts.created))),
        (b.modification_date, be32(afp_date_v1(facts.modified))),
        (b.backup_date, be32(0)),
        (b.finder_info, facts.finder_info@),
        (b.long_name, be16(b.fixed_len() as u16)),
        (b.file_number, be32(id)),
        (b.data_fork_length, be32((facts.data_len % 0x1_0000_0000) as u32)),
        (b.resource_fork_length, be32(facts.rsrc_len)),
        (b.prodos_info, repeat(0, 6)),
    ]
}

/// The parameters of a file, with its name already encoded.
pub open spec fn file_parms_named(b: FileBitmap, id: u32, parent_id: u32, name: Seq<u8>, facts: FileFacts) -> Seq<u8> {
    packed(file_fields(b, id, parent_id, facts)) + if b.long_name {
        pascal(name)
    } else {
        Seq::empty()
    }
}

/// The parameters of a file.
pub open spec fn file_parms(b: FileBitmap, id: u32, parent_id: u32, name: Seq<char>, facts: FileFacts) -> Seq<u8> {
    file_parms_named(b, id, parent_id, mac_roman(name), facts)
}

/// Writes the parameters of a file whose name is already encoded.
pub fn get_file_parms_named(b: FileBitmap, id: u32, parent_id: u32, name: &[u8], facts: &FileFacts) -> (out: Vec<u8>)
    ensures
        out@ == file_parms_named(b, id, parent_id, name@, *facts),
{
    let zeros: [u8; 6] = [0u8; 6];
    assert(zeros@ =~= repeat(0, 6));
    let mut list: Vec<Field> = Vec::new();
    list.push(field16(b.attributes, get_attributes(facts.flags)));
    list.push(field32(b.parent_dir_id, parent_id));
    list.push(field32(b.create_date, time_to_afp_v1(facts.created)));
    list.push(field32(b.modification_date, time_to_afp_v1(facts.modified)));
    list.push(field32(b.backup_date, 0));
    list.push(field_bytes(b.finder_info, facts.finder_info.as_slice()));
    list.push(field16(b.long_name, b.long_name_offset() as u16));
    list.push(field32(b.file_number, id));
    list.push(field32(b.data_fork_length, (facts.data_len % 0x1_0000_0000) as u32));
    list.push(field32(b.resource_fork_length, facts.rsrc_len));
    list.push(field_bytes(b.prodos_info, zeros.as_slice()));
    assert(fields_of(list@) =~= file_fields(b, id, parent_id, *facts));
    let mut out = pack(&list);
    if b.long_name {
        let name = make_pascal(name);
        put_bytes(&mut out, &name);
    }
    assert(out@ =~= file_parms_named(b, id, parent_id, name@, *facts));
    out
}

/// Writes the parameters of a file.
pub fn get_file_parms(b: FileBitmap, id: u32, parent_id: u32, name: &str, facts: &FileFacts) -> (out: Vec<u8>)
    requires
        name@.len() <= MAX_NAME_CHARS,
    ensures
        out@ == file_parms(b, id, parent_id, name@, *facts),
        is_ascii_chars(name@) ==> out@ == file_parms_named(b, id, parent_id, utf8(name@), *facts),
{
    let bytes = mac_encode(name);
    get_file_parms_named(b, id, parent_id, &bytes, facts)
}

// ── Directories ──────────────────────────────────────────────────────────────

/// Which parameters of a directory are asked for.
#[derive(Debug, Clone, Copy, PartialEq, Eq, Structural)]
pub struct DirBitmap {
    /// The bitmap as it stands in requests and replies.
    pub bits: u16,
    pub attributes: bool,
    pub parent_dir_id: bool,
    pub create_date: bool,
    pub modification_date: bool,
    pub backup_date: bool,
    pub finder_info: bool,
    pub long_name: bool,
    pub dir_id: bool,
    pub offspring_count: bool,
    pub owner_id: bool,
    pub group_id: bool,
    pub access_rights: bool,
}

/// What is known of a directory besides its node. The dates are those of the
/// volume.
#[derive(Debug, Clone, Copy)]
pub struct DirFacts {
    /// The Finder flags.
    pub flags: u16,
    pub created_at: u32,
    pub modified_at: u32,
    pub finder_info: [u8; 32],
    pub offspring: u16,
}

impl DirBitmap {
    /// The width of every parameter but the name, beside whether it is asked
    /// for.
    pub open spec fn shape(self) -> Seq<(bool, nat)> {
        seq![
            (self.attributes, 2nat),
            (self.parent_dir_id, 4nat),
            (self.create_date, 4nat),
            (self.modification_date, 4nat),
            (self.backup_date, 4nat),
            (self.finder_info, 32nat),
            (self.long_name, 2nat),
            (self.dir_id, 4nat),
            (self.offspring_count, 2nat),
            (self.owner_id, 4nat),
            (self.group_id, 4nat),
            (self.access_rights, 4nat),
        ]
    }

    /// The length of all parameters without the name, which is where the name
    /// stands.
    pub open spec fn fixed_len(self) -> nat {
        packed_len(self.shape())
    }

    /// Where the name stands.
    pub fn long_name_offset(&self) -> (n: usize)
        ensures
            n == self.fixed_len(),
            n <= 384,
    {
        let shape: Vec<(bool, usize)> = vec![
            (self.attributes, 2),
            (self.parent_dir_id, 4),
            (self.create_date, 4),
            (self.modification_date, 4),
            (self.backup_date, 4),
            (self.finder_info, 32),
            (self.long_name, 2),
            (self.dir_id, 4),
            (self.offspring_count, 2),
            (self.owner_id, 4),
            (self.group_id, 4),
            (self.access_rights, 4),
        ];
        let ghost seen = Seq::new(shape@.len(), |i: int| (shape@[i].0, shape@[i].1 as nat));
        assert(seen =~= self.shape());
        total_width(&shape)
    }

    /// The length of the parameters of a directory whose name has `name_len` bytes.
    pub open spec fn reply_len(self, name_len: nat) -> nat {
        self.fixed_len() + if self.long_name {
            name_len + 1
        } else {
            0
        }
    }

    /// The length of the parameters of a directory whose name has `name_len` bytes.
    pub fn response_len(&self, name_len: usize) -> (n: usize)
        requires
            name_len <= usize::MAX - 512,
        ensures
            n == self.reply_len(name_len as nat),
            n <= name_len + 385,
    {
        let fixed: usize = self.long_name_offset();
        if self.long_name {
            fixed + name_len + 1
        } else {
            fixed
        }
    }
}

/// The parameters of a directory but its name, beside whether each is asked
/// for.
pub open spec fn dir_fields(b: DirBitmap, id: u32, parent_id: u32, facts: DirFacts) -> Seq<(bool, Seq<u8>)> {
    seq![
        (b.attributes, be16(attributes_of(facts.flags))),
        (b.parent_dir_id, be32(parent_id)),
        (b.create_date, be32(facts.created_at)),
        (b.modification_date, be32(facts.modified_at)),
        (b.backup_date, be32(0)),
        (b.finder_info, facts.finder_info@),
        (b.long_name, be16(b.fixed_len() as u16)),
        (b.dir_id, be32(id)),
        (b.offspring_count, be16(facts.offspring)),
        (b.owner_id, be32(0)),
        (b.group_id, be32(0)),
        (b.access_rights, be32(ACCESS_RIGHTS)),
    ]
}

/// The parameters of a directory, with its name already encoded.
pub open spec fn dir_parms_named(b: DirBitmap, id: u32, parent_id: u32, name: Seq<u8>, facts: DirFacts) -> Seq<u8> {
    packed(dir_fields(b, id, parent_id, facts)) + if b.long_name {
        pascal(name)
    } else {
        Seq::empty()
    }
}

/// The parameters of a directory.
pub open spec fn dir_parms(b: DirBitmap, id: u32, parent_id: u32, name: Seq<char>, facts: DirFacts) -> Seq<u8> {
    dir_parms_named(b, id, parent_id, mac_roman(name), facts)
}

/// Writes the parameters of a directory whose name is already encoded.
pub fn get_directory_parms_named(b: DirBitmap, id: u32, parent_id: u32, name: &[u8], facts: &DirFacts) -> (out: Vec<u8>)
    ensures
        out@ == dir_parms_named(b, id, parent_id, name@, *facts),
{
    let mut list: Vec<Field> = Vec::new();
    list.push(field16(b.attributes, get_attributes(facts.flags)));
    list.push(field32(b.parent_dir_id, parent_id));
    list.push(field32(b.create_date, facts.created_at));
    list.push(field32(b.modification_date, facts.modified_at));
    list.push(field32(b.backup_date, 0));
    list.push(field_bytes(b.finder_info, facts.finder_info.as_slice()));
    list.push(field16(b.long_name, b.long_name_offset() as u16));
    list.push(field32(b.dir_id, id));
    list.push(field16(b.offspring_count, facts.offspring));
    list.push(field32(b.owner_id, 0));
    list.push(field32(b.group_id, 0));
    list.push(field32(b.access_rights, ACCESS_RIGHTS));
    assert(fields_of(list@) =~= dir_fields(b, id, parent_id, *facts));
    let mut out = pack(&list);
    if b.long_name {
        let name = make_pascal(name);
        put_bytes(&mut out, &name);
    }
    assert(out@ =~= dir_parms_named(b, id, parent_id, name@, *facts));
    out
}

/// Writes the parameters of a directory.
pub fn get_directory_parms(b: DirBitmap, id: u32, parent_id: u32, name: &str, facts: &DirFacts) -> (out: Vec<u8>)
    requires
        name@.len() <= MAX_NAME_CHARS,
    ensures
        out@ == dir_parms(b, id, parent_id, name@, *facts),
        is_ascii_chars(name@) ==> out@ == dir_parms_named(b, id, parent_id, utf8(name@), *facts),
{
    let bytes = mac_encode(name);
    get_directory_parms_named(b, id, parent_id, &bytes, facts)
}

/// The name of a file stands where its offset says, and the parameters are as
/// long as was told before, for the length that the encoded name has.
pub proof fn law_file_name_stands_at_its_offset(
    b: FileBitmap,
    id: u32,
    parent_id: u32,
    name: Seq<u8>,
    facts: FileFacts,
)
    ensures
        ({
            let out = file_parms_named(b, id, parent_id, name, facts);
            &&& out.len() == b.reply_len(long_name(name).len())
            &&& b.long_name ==> out.skip(b.fixed_len() as int) == pascal(name)
        }),
{
    lemma_packed_len(file_fields(b, id, parent_id, facts), b.shape());
    let out = file_parms_named(b, id, parent_id, name, facts);
    if b.long_name {
        assert(out.skip(b.fixed_len() as int) =~= pascal(name));
    }
}

/// The name of a directory stands where its offset says, and the parameters
/// are as long as was told before, for the length that the encoded name has.
pub proof fn law_dir_name_stands_at_its_offset(b: DirBitmap, id: u32, parent_id: u32, name: Seq<u8>, facts: DirFacts)
    ensures
        ({
            let out = dir_parms_named(b, id, parent_id, name, facts);
            &&& out.len() == b.reply_len(long_name(name).len())
            &&& b.long_name ==> out.skip(b.fixed_len() as int) == pascal(name)
        }),
{
    lemma_packed_len(dir_fields(b, id, parent_id, facts), b.shape());
    let out = dir_parms_named(b, id, parent_id, name, facts);
    if b.long_name {
        assert(out.skip(b.fixed_len() as int) =~= pascal(name));
    }
}

// ── Volumes ──────────────────────────────────────────────────────────────────

/// Which parameters of a volume are asked for.
#[derive(Debug, Clone, Copy, PartialEq, Eq, Structural)]
pub struct VolumeBitmap {
    /// The bitmap as it stands in requests and replies.
    pub bits: u16,
    pub attributes: bool,
    pub signature: bool,
    pub creation_date: bool,
    pub modification_date: bool,
    pub backup_date: bool,
    pub volume_id: bool,
    pub bytes_free: bool,
    pub bytes_total: bool,
    pub volume_name: bool,
}

/// The parameters of a volume but its name, beside whether each is asked for.
pub open spec fn volume_fields(b: VolumeBitmap, created_at: u32, modified_at: u32, volume_id: u16) -> Seq<
    (bool, Seq<u8>),
> {
    seq![
        (b.attributes, be16(0)),
        (b.signature, be16(SIGNATURE_FIXED_DIRECTORY_ID)),
        (b.creation_date, be32(created_at)),
        (b.modification_date, be32(modified_at)),
        (b.backup_date, be32(0)),
        (b.volume_id, be16(volume_id)),
        (b.bytes_free, be32(VOLUME_BYTES)),
        (b.bytes_total, be32(VOLUME_BYTES)),
    ]
}

/// The bitmap of a volume and its parameters without the name.
pub open spec fn volume_fixed(b: VolumeBitmap, created_at: u32, modified_at: u32, volume_id: u16) -> Seq<u8> {
    be16(b.bits) + packed(volume_fields(b, created_at, modified_at, volume_id))
}

/// The parameters of a volume: the bitmap, and what it asks for. The offset of
/// the name counts from behind the bitmap.
pub open spec fn volume_parms(
    b: VolumeBitmap,
    created_at: u32,
    modified_at: u32,
    volume_id: u16,
    name: Seq<char>,
) -> Seq<u8> {
    let fixed = volume_fixed(b, created_at, modified_at, volume_id);
    if b.volume_name {
        fixed + be16(fixed.len() as u16) + seq![(utf8(name).len() % 256) as u8] + utf8(name)
    } else {
        fixed
    }
}

proof fn lemma_volume_fixed_len(b: VolumeBitmap, created_at: u32, modified_at: u32, volume_id: u16)
    ensures
        volume_fixed(b, created_at, modified_at, volume_id).len() <= 258,
{
    let fields = volume_fields(b, created_at, modified_at, volume_id);
    let shape = Seq::new(fields.len(), |i: int| (fields[i].0, fields[i].1.len()));
    lemma_packed_len(fields, shape);
    lemma_packed_len_bound(shape);
}

/// Writes the parameters of a volume.
pub fn get_volume_parms(b: VolumeBitmap, created_at: u32, modified_at: u32, volume_id: u16, name: &str) -> (out: Vec<u8>)
    ensures
        out@ == volume_parms(b, created_at, modified_at, volume_id, name@),
{
    let mut list: Vec<Field> = Vec::new();
    list.push(field16(b.attributes, 0));
    list.push(field16(b.signature, SIGNATURE_FIXED_DIRECTORY_ID));
    list.push(field32(b.creation_date, created_at));
    list.push(field32(b.modification_date, modified_at));
    list.push(field32(b.backup_date, 0));
    list.push(field16(b.volume_id, volume_id));
    list.push(field32(b.bytes_free, VOLUME_BYTES));
    list.push(field32(b.bytes_total, VOLUME_BYTES));
    assert(fields_of(list@) =~= volume_fields(b, created_at, modified_at, volume_id));
    let body = pack(&list);
    let mut out: Vec<u8> = Vec::new();
    put_be16(&mut out, b.bits);
    put_bytes(&mut out, &body);
    assert(out@ =~= volume_fixed(b, created_at, modified_at, volume_id));
    proof {
        lemma_volume_fixed_len(b, created_at, modified_at, volume_id);
    }
    if b.volume_name {
        let at: u16 = out.len() as u16;
        let name_bytes = name.as_bytes();
        put_be16(&mut out, at);
        out.push((name_bytes.len() % 256) as u8);
        put_bytes(&mut out, name_bytes);
    }
    assert(out@ =~= volume_parms(b, created_at, modified_at, volume_id, name@));
    out
}

/// The name of a volume stands where its offset, which counts from behind the
/// bitmap, says.
pub proof fn law_volume_name_stands_at_its_offset(
    b: VolumeBitmap,
    created_at: u32,
    modified_at: u32,
    volume_id: u16,
    name: Seq<char>,
)
    requires
        b.volume_name,
    ensures
        ({
            let out = volume_parms(b, created_at, modified_at, volume_id, name);
            let fixed = volume_fixed(b, created_at, modified_at, volume_id).len();
            &&& fixed <= u16::MAX
            &&& out.subrange(fixed as int, (fixed + 2) as int) == be16(fixed as u16)
            &&& out.skip(2).skip(fixed as int) == seq![(utf8(name).len() % 256) as u8] + utf8(name)
        }),
{
    lemma_volume_fixed_len(b, created_at, modified_at, volume_id);
    let out = volume_parms(b, created_at, modified_at, volume_id, name);
    let fixed = volume_fixed(b, created_at, modified_at, volume_id).len();
    assert(out.subrange(fixed as int, (fixed + 2) as int) =~= be16(fixed as u16));
    assert(out.skip(2).skip(fixed as int) =~= seq![(utf8(name).len() % 256) as u8] + utf8(name));
}

// ── Parameters read back ─────────────────────────────────────────────────────

/// The width of a parameter, which is nothing where it is not asked for.
#[verifier::opaque]
pub open spec fn width(asked: bool, n: nat) -> nat {
    if asked {
        n
    } else {
        0
    }
}

/// Whether a name stands at a place behind its length, cut off behind 255 bytes.
pub open spec fn name_stands(out: Seq<u8>, at: int, name: Seq<u8>) -> bool {
    let n = if name.len() > 255 {
        255
    } else {
        name.len() as int
    };
    out.len() == at + 1 + n && out[at] == n && forall|k: int| 0 <= k < n ==> #[trigger] out[at + 1 + k] == name[k]
}

/// The seconds since 1904 at a Unix time, as far as 32 bits hold them.
pub open spec fn seconds_since_1904(unix_secs: i64) -> int {
    if unix_secs + 2082844800 < 0 {
        0
    } else {
        (unix_secs + 2082844800) % 4294967296
    }
}

/// Whether what a client reads of a file is what is known of it: every parameter
/// that is asked for stands behind those before it.
pub open spec fn tells_of_file(
    out: Seq<u8>,
    b: FileBitmap,
    id: u32,
    parent_id: u32,
    name: Seq<u8>,
    facts: FileFacts,
) -> bool {
    let parent_at = width(b.attributes, 2) as int;
    let created_at = parent_at + width(b.parent_dir_id, 4);
    let modified_at = created_at + width(b.create_date, 4);
    let backup_at = modified_at + width(b.modification_date, 4);
    let finder_at = backup_at + width(b.backup_date, 4);
    let offset_at = finder_at + width(b.finder_info, 32);
    let number_at = offset_at + width(b.long_name, 2);
    let data_at = number_at + width(b.file_number, 4);
    let rsrc_at = data_at + width(b.data_fork_length, 4);
    let prodos_at = rsrc_at + width(b.resource_fork_length, 4);
    let end = prodos_at + width(b.prodos_info, 6);
    &&& b.attributes ==> number16(out, 0) == (facts.flags / 0x4000) % 2
    &&& b.parent_dir_id ==> number32(out, parent_at) == parent_id
    &&& b.create_date ==> number32(out, created_at) == seconds_since_1904(facts.created)
    &&& b.modification_date ==> number32(out, modified_at) == seconds_since_1904(facts.modified)
    &&& b.backup_date ==> number32(out, backup_at) == 0
    &&& b.finder_info ==> forall|k: int| 0 <= k < 32 ==> #[trigger] out[finder_at + k] == facts.finder_info[k]
    &&& b.long_name ==> number16(out, offset_at) == end && name_stands(out, end, name)
    &&& !b.long_name ==> out.len() == end
    &&& b.file_number ==> number32(out, number_at) == id
    &&& b.data_fork_length ==> number32(out, data_at) == facts.data_len % 4294967296
    &&& b.resource_fork_length ==> number32(out, rsrc_at) == facts.rsrc_len
    &&& b.prodos_info ==> forall|k: int| 0 <= k < 6 ==> #[trigger] out[prodos_at + k] == 0
}

/// Whether what a client reads of a directory is what is known of it.
pub open spec fn tells_of_dir(
    out: Seq<u8>,
    b: DirBitmap,
    id: u32,
    parent_id: u32,
    name: Seq<u8>,
    facts: DirFacts,
) -> bool {
    let parent_at = width(b.attributes, 2) as int;
    let created_at = parent_at + width(b.parent_dir_id, 4);
    let modified_at = created_at + width(b.create_date, 4);
    let backup_at = modified_at + width(b.modification_date, 4);
    let finder_at = backup_at + width(b.backup_date, 4);
    let offset_at = finder_at + width(b.finder_info, 32);
    let number_at = offset_at + width(b.long_name, 2);
    let offspring_at = number_at + width(b.dir_id, 4);
    let owner_at = offspring_at + width(b.offspring_count, 2);
    let group_at = owner_at + width(b.owner_id, 4);
    let rights_at = group_at + width(b.group_id, 4);
    let end = rights_at + width(b.access_rights, 4);
    &&& b.attributes ==> number16(out, 0) == (facts.flags / 0x4000) % 2
    &&& b.parent_dir_id ==> number32(out, parent_at) == parent_id
    &&& b.create_date ==> number32(out, created_at) == facts.created_at
    &&& b.modification_date ==> number32(out, modified_at) == facts.modified_at
    &&& b.backup_date ==> number32(out, backup_at) == 0
    &&& b.finder_info ==> forall|k: int| 0 <= k < 32 ==> #[trigger] out[finder_at + k] == facts.finder_info[k]
    &&& b.long_name ==> number16(out, offset_at) == end && name_stands(out, end, name)
    &&& !b.long_name ==> out.len() == end
    &&& b.dir_id ==> number32(out, number_at) == id
    &&& b.offspring_count ==> number16(out, offspring_at) == facts.offspring
    &&& b.owner_id ==> number32(out, owner_at) == 0
    &&& b.group_id ==> number32(out, group_at) == 0
    &&& b.access_rights ==> out[rights_at] == 0x87 && out[rights_at + 1] == 7 && out[rights_at + 2] == 7 && out[rights_at
        + 3] == 7
}

/// Whether what a client reads of a volume is what is known of it. The offset of
/// the name counts from behind the bitmap.
pub open spec fn tells_of_volume(
    out: Seq<u8>,
    b: VolumeBitmap,
    created_at: u32,
    modified_at: u32,
    volume_id: u16,
    name: Seq<u8>,
) -> bool {
    let signature_at = 2 + width(b.attributes, 2) as int;
    let made_at = signature_at + width(b.signature, 2);
    let changed_at = made_at + width(b.creation_date, 4);
    let backup_at = changed_at + width(b.modification_date, 4);
    let id_at = backup_at + width(b.backup_date, 4);
    let free_at = id_at + width(b.volume_id, 2);
    let total_at = free_at + width(b.bytes_free, 4);
    let end = total_at + width(b.bytes_total, 4);
    &&& number16(out, 0) == b.bits
    &&& b.attributes ==> number16(out, 2) == 0
    &&& b.signature ==> number16(out, signature_at) == 2
    &&& b.creation_date ==> number32(out, made_at) == created_at
    &&& b.modification_date ==> number32(out, changed_at) == modified_at
    &&& b.backup_date ==> number32(out, backup_at) == 0
    &&& b.volume_id ==> number16(out, id_at) == volume_id
    &&& b.bytes_free ==> number32(out, free_at) == 1073741823
    &&& b.bytes_total ==> number32(out, total_at) == 1073741823
    &&& if b.volume_name {
        &&& number16(out, end) == end
        &&& out.len() == 2 + number16(out, end) + 1 + name.len()
        &&& out[2 + number16(out, end)] == name.len() % 256
        &&& forall|k: int| 0 <= k < name.len() ==> #[trigger] out[end + 3 + k] == name[k]
    } else {
        out.len() == end
    }
}

/// Whether bytes stand at a place.
#[verifier::opaque]
spec fn stands(out: Seq<u8>, at: int, bytes: Seq<u8>) -> bool {
    at + bytes.len() <= out.len() && forall|j: int| 0 <= j < bytes.len() ==> #[trigger] out[at + j] == bytes[j]
}

/// Where a parameter stands.
#[verifier::opaque]
spec fn place_of(fields: Seq<(bool, Seq<u8>)>, k: int) -> int {
    packed(fields.take(k)).len() as int
}

proof fn lemma_places(fields: Seq<(bool, Seq<u8>)>)
    ensures
        place_of(fields, 0) == 0,
        place_of(fields, fields.len() as int) == packed(fields).len(),
{
    reveal(place_of);
    assert(fields.take(fields.len() as int) =~= fields);
}

proof fn lemma_place_step(fields: Seq<(bool, Seq<u8>)>, k: int, next: int)
    requires
        0 <= k < fields.len(),
        next == k + 1,
    ensures
        place_of(fields, next) == place_of(fields, k) + width(fields[k].0, fields[k].1.len()),
{
    reveal(place_of);
    reveal(width);
    assert(fields.take(k + 1).drop_last() =~= fields.take(k));
    assert(fields.take(k + 1).last() == fields[k]);
}

proof fn lemma_packed_at(fields: Seq<(bool, Seq<u8>)>, k: int)
    requires
        0 <= k < fields.len(),
        fields[k].0,
    ensures
        stands(packed(fields), place_of(fields, k), fields[k].1),
    decreases fields.len(),
{
    reveal(stands);
    reveal(place_of);
    let n = fields.len() - 1;
    let at = packed(fields.take(k)).len() as int;
    if k < n {
        let front = fields.drop_last();
        assert(front.take(k) =~= fields.take(k));
        lemma_packed_at(front, k);
        assert forall|j: int| 0 <= j < fields[k].1.len() implies #[trigger] packed(fields)[at + j] == fields[k].1[j] by {
            assert(packed(front)[at + j] == fields[k].1[j]);
        }
    } else {
        assert(fields.take(k) =~= fields.drop_last());
    }
}

proof fn lemma_field_stands(head: Seq<u8>, fields: Seq<(bool, Seq<u8>)>, tail: Seq<u8>, out: Seq<u8>, k: int)
    requires
        0 <= k < fields.len(),
        fields[k].0,
        out == head + packed(fields) + tail,
    ensures
        stands(out, head.len() + place_of(fields, k), fields[k].1),
{
    lemma_packed_at(fields, k);
    reveal(stands);
    let at = place_of(fields, k);
    assert(at >= 0) by {
        reveal(place_of);
    }
    assert forall|j: int| 0 <= j < fields[k].1.len() implies #[trigger] out[head.len() + at + j] == fields[k].1[j] by {
        assert(packed(fields)[at + j] == fields[k].1[j]);
    }
}

proof fn lemma_number16(out: Seq<u8>, at: int, x: u16)
    requires
        stands(out, at, be16(x)),
    ensures
        number16(out, at) == x,
{
    reveal(stands);
    assert(out[at + 0] == be16(x)[0]);
    assert(out[at + 1] == be16(x)[1]);
}

proof fn lemma_number32(out: Seq<u8>, at: int, x: u32)
    requires
        stands(out, at, be32(x)),
    ensures
        number32(out, at) == x,
{
    reveal(stands);
    assert(out[at + 0] == be32(x)[0]);
    assert(out[at + 1] == be32(x)[1]);
    assert(out[at + 2] == be32(x)[2]);
    assert(out[at + 3] == be32(x)[3]);
}

proof fn lemma_read16(head: Seq<u8>, fields: Seq<(bool, Seq<u8>)>, tail: Seq<u8>, out: Seq<u8>, k: int, x: u16)
    requires
        0 <= k < fields.len(),
        fields[k].1 == be16(x),
        out == head + packed(fields) + tail,
    ensures
        fields[k].0 ==> number16(out, head.len() + place_of(fields, k)) == x,
{
    if fields[k].0 {
        lemma_field_stands(head, fields, tail, out, k);
        lemma_number16(out, head.len() + place_of(fields, k), x);
    }
}

proof fn lemma_read32(head: Seq<u8>, fields: Seq<(bool, Seq<u8>)>, tail: Seq<u8>, out: Seq<u8>, k: int, x: u32)
    requires
        0 <= k < fields.len(),
        fields[k].1 == be32(x),
        out == head + packed(fields) + tail,
    ensures
        fields[k].0 ==> number32(out, head.len() + place_of(fields, k)) == x,
{
    if fields[k].0 {
        lemma_field_stands(head, fields, tail, out, k);
        lemma_number32(out, head.len() + place_of(fields, k), x);
    }
}

proof fn lemma_read_bytes(fields: Seq<(bool, Seq<u8>)>, tail: Seq<u8>, out: Seq<u8>, k: int)
    requires
        0 <= k < fields.len(),
        out == packed(fields) + tail,
    ensures
        fields[k].0 ==> forall|j: int|
            0 <= j < fields[k].1.len() ==> #[trigger] out[place_of(fields, k) + j] == fields[k].1[j],
{
    if fields[k].0 {
        assert(out =~= Seq::<u8>::empty() + packed(fields) + tail);
        lemma_field_stands(Seq::empty(), fields, tail, out, k);
        reveal(stands);
        let at = place_of(fields, k);
        assert forall|j: int| 0 <= j < fields[k].1.len() implies #[trigger] out[at + j] == fields[k].1[j] by {
            assert(out[0 + at + j] == fields[k].1[j]);
        }
    }
}

proof fn lemma_rights(out: Seq<u8>, at: int)
    requires
        forall|j: int| 0 <= j < 4 ==> #[trigger] out[at + j] == be32(ACCESS_RIGHTS)[j],
    ensures
        out[at] == 0x87 && out[at + 1] == 7 && out[at + 2] == 7 && out[at + 3] == 7,
{
    assert(out[at + 0] == be32(ACCESS_RIGHTS)[0]);
    assert(out[at + 1] == be32(ACCESS_RIGHTS)[1]);
    assert(out[at + 2] == be32(ACCESS_RIGHTS)[2]);
    assert(out[at + 3] == be32(ACCESS_RIGHTS)[3]);
}

proof fn lemma_pascal_stands(out: Seq<u8>, fixed: Seq<u8>, name: Seq<u8>)
    requires
        out == fixed + pascal(name),
    ensures
        name_stands(out, fixed.len() as int, name),
{
    let at = fixed.len() as int;
    assert(out[at] == pascal(name)[0]);
    assert forall|k: int| 0 <= k < long_name(name).len() implies #[trigger] out[at + 1 + k] == name[k] by {
        assert(out[at + 1 + k] == pascal(name)[1 + k]);
    }
}

proof fn lemma_invisible(flags: u16)
    ensures
        attributes_of(flags) == (flags / 0x4000) % 2,
{
    assert(flags & 0x4000 != 0 <==> (flags / 0x4000) % 2 == 1) by (bit_vector);
}

proof fn lemma_file_places(b: FileBitmap, id: u32, parent_id: u32, facts: FileFacts)
    ensures
        place_of(file_fields(b, id, parent_id, facts), 0) == 0,
        place_of(file_fields(b, id, parent_id, facts), 1) == place_of(file_fields(b, id, parent_id, facts), 0) + width(b.attributes, 2),
        place_of(file_fields(b, id, parent_id, facts), 2) == place_of(file_fields(b, id, parent_id, facts), 1) + width(b.parent_dir_id, 4),
        place_of(file_fields(b, id, parent_id, facts), 3) == place_of(file_fields(b, id, parent_id, facts), 2) + width(b.create_date, 4),
        place_of(file_fields(b, id, parent_id, facts), 4) == place_of(file_fields(b, id, parent_id, facts), 3) + width(b.modification_date, 4),
        place_of(file_fields(b, id, parent_id, facts), 5) == place_of(file_fields(b, id, parent_id, facts), 4) + width(b.backup_date, 4),
        place_of(file_fields(b, id, parent_id, facts), 6) == place_of(file_fields(b, id, parent_id, facts), 5) + width(b.finder_info, 32),
        place_of(file_fields(b, id, parent_id, facts), 7) == place_of(file_fields(b, id, parent_id, facts), 6) + width(b.long_name, 2),
        place_of(file_fields(b, id, parent_id, facts), 8) == place_of(file_fields(b, id, parent_id, facts), 7) + width(b.file_number, 4),
        place_of(file_fields(b, id, parent_id, facts), 9) == place_of(file_fields(b, id, parent_id, facts), 8) + width(b.data_fork_length, 4),
        place_of(file_fields(b, id, parent_id, facts), 10) == place_of(file_fields(b, id, parent_id, facts), 9) + width(b.resource_fork_length, 4),
        place_of(file_fields(b, id, parent_id, facts), 11) == place_of(file_fields(b, id, parent_id, facts), 10) + width(b.prodos_info, 6),
{
    let f = file_fields(b, id, parent_id, facts);
    lemma_places(f);
    lemma_place_step(f, 0, 1);
    lemma_place_step(f, 1, 2);
    lemma_place_step(f, 2, 3);
    lemma_place_step(f, 3, 4);
    lemma_place_step(f, 4, 5);
    lemma_place_step(f, 5, 6);
    lemma_place_step(f, 6, 7);
    lemma_place_step(f, 7, 8);
    lemma_place_step(f, 8, 9);
    lemma_place_step(f, 9, 10);
    lemma_place_step(f, 10, 11);
}

proof fn lemma_file_end(b: FileBitmap, id: u32, parent_id: u32, facts: FileFacts)
    ensures
        place_of(file_fields(b, id, parent_id, facts), 11) == b.fixed_len(),
        packed(file_fields(b, id, parent_id, facts)).len() == b.fixed_len(),
        b.fixed_len() <= 384,
{
    let f = file_fields(b, id, parent_id, facts);
    lemma_places(f);
    lemma_packed_len(f, b.shape());
    lemma_packed_len_bound(b.shape());
}

/// Each parameter of a file reads back as the fact that it stands for, at its
/// own place: the number and the parent are not taken for each other, nor are
/// the lengths of the forks, nor the dates.
#[verifier::rlimit(40)]
pub proof fn law_file_parms_read_back(b: FileBitmap, id: u32, parent_id: u32, name: Seq<u8>, facts: FileFacts)
    ensures
        tells_of_file(file_parms_named(b, id, parent_id, name, facts), b, id, parent_id, name, facts),
{
    let f = file_fields(b, id, parent_id, facts);
    let none = Seq::<u8>::empty();
    let tail = if b.long_name {
        pascal(name)
    } else {
        none
    };
    let out = file_parms_named(b, id, parent_id, name, facts);
    assert(out =~= none + packed(f) + tail);
    assert(out == packed(f) + tail);
    lemma_file_places(b, id, parent_id, facts);
    lemma_file_end(b, id, parent_id, facts);
    lemma_invisible(facts.flags);
    lemma_read16(none, f, tail, out, 0, attributes_of(facts.flags));
    lemma_read32(none, f, tail, out, 1, parent_id);
    lemma_read32(none, f, tail, out, 2, afp_date_v1(facts.created));
    lemma_read32(none, f, tail, out, 3, afp_date_v1(facts.modified));
    lemma_read32(none, f, tail, out, 4, 0);
    lemma_read_bytes(f, tail, out, 5);
    lemma_read16(none, f, tail, out, 6, b.fixed_len() as u16);
    lemma_read32(none, f, tail, out, 7, id);
    lemma_read32(none, f, tail, out, 8, (facts.data_len % 0x1_0000_0000) as u32);
    lemma_read32(none, f, tail, out, 9, facts.rsrc_len);
    lemma_read_bytes(f, tail, out, 10);
    assert(b.prodos_info ==> forall|k: int| 0 <= k < 6 ==> #[trigger] out[place_of(f, 10) + k] == 0) by {
        if b.prodos_info {
            assert forall|k: int| 0 <= k < 6 implies #[trigger] out[place_of(f, 10) + k] == 0 by {
                assert(out[place_of(f, 10) + k] == f[10].1[k]);
            }
        }
    }
    if b.long_name {
        lemma_pascal_stands(out, packed(f), name);
    }
}

proof fn lemma_dir_places(b: DirBitmap, id: u32, parent_id: u32, facts: DirFacts)
    ensures
        place_of(dir_fields(b, id, parent_id, facts), 0) == 0,
        place_of(dir_fields(b, id, parent_id, facts), 1) == place_of(dir_fields(b, id, parent_id, facts), 0) + width(b.attributes, 2),
        place_of(dir_fields(b, id, parent_id, facts), 2) == place_of(dir_fields(b, id, parent_id, facts), 1) + width(b.parent_dir_id, 4),
        place_of(dir_fields(b, id, parent_id, facts), 3) == place_of(dir_fields(b, id, parent_id, facts), 2) + width(b.create_date, 4),
        place_of(dir_fields(b, id, parent_id, facts), 4) == place_of(dir_fields(b, id, parent_id, facts), 3) + width(b.modification_date, 4),
        place_of(dir_fields(b, id, parent_id, facts), 5) == place_of(dir_fields(b, id, parent_id, facts), 4) + width(b.backup_date, 4),
        place_of(dir_fields(b, id, parent_id, facts), 6) == place_of(dir_fields(b, id, parent_id, facts), 5) + width(b.finder_info, 32),
        place_of(dir_fields(b, id, parent_id, facts), 7) == place_of(dir_fields(b, id, parent_id, facts), 6) + width(b.long_name, 2),
        place_of(dir_fields(b, id, parent_id, facts), 8) == place_of(dir_fields(b, id, parent_id, facts), 7) + width(b.dir_id, 4),
        place_of(dir_fields(b, id, parent_id, facts), 9) == place_of(dir_fields(b, id, parent_id, facts), 8) + width(b.offspring_count, 2),
        place_of(dir_fields(b, id, parent_id, facts), 10) == place_of(dir_fields(b, id, parent_id, facts), 9) + width(b.owner_id, 4),
        place_of(dir_fields(b, id, parent_id, facts), 11) == place_of(dir_fields(b, id, parent_id, facts), 10) + width(b.group_id, 4),
        place_of(dir_fields(b, id, parent_id, facts), 12) == place_of(dir_fields(b, id, parent_id, facts), 11) + width(b.access_rights, 4),
{
    let f = dir_fields(b, id, parent_id, facts);
    lemma_places(f);
    lemma_place_step(f, 0, 1);
    lemma_place_step(f, 1, 2);
    lemma_place_step(f, 2, 3);
    lemma_place_step(f, 3, 4);
    lemma_place_step(f, 4, 5);
    lemma_place_step(f, 5, 6);
    lemma_place_step(f, 6, 7);
    lemma_place_step(f, 7, 8);
    lemma_place_step(f, 8, 9);
    lemma_place_step(f, 9, 10);
    lemma_place_step(f, 10, 11);
    lemma_place_step(f, 11, 12);
}

proof fn lemma_dir_end(b: DirBitmap, id: u32, parent_id: u32, facts: DirFacts)
    ensures
        place_of(dir_fields(b, id, parent_id, facts), 12) == b.fixed_len(),
        packed(dir_fields(b, id, parent_id, facts)).len() == b.fixed_len(),
        b.fixed_len() <= 384,
{
    let f = dir_fields(b, id, parent_id, facts);
    lemma_places(f);
    lemma_packed_len(f, b.shape());
    lemma_packed_len_bound(b.shape());
}

/// Each parameter of a directory reads back as the fact that it stands for, at
/// its own place.
#[verifier::rlimit(40)]
pub proof fn law_dir_parms_read_back(b: DirBitmap, id: u32, parent_id: u32, name: Seq<u8>, facts: DirFacts)
    ensures
        tells_of_dir(dir_parms_named(b, id, parent_id, name, facts), b, id, parent_id, name, facts),
{
    let f = dir_fields(b, id, parent_id, facts);
    let none = Seq::<u8>::empty();
    let tail = if b.long_name {
        pascal(name)
    } else {
        none
    };
    let out = dir_parms_named(b, id, parent_id, name, facts);
    assert(out =~= none + packed(f) + tail);
    assert(out == packed(f) + tail);
    lemma_dir_places(b, id, parent_id, facts);
    lemma_dir_end(b, id, parent_id, facts);
    lemma_invisible(facts.flags);
    lemma_read16(none, f, tail, out, 0, attributes_of(facts.flags));
    lemma_read32(none, f, tail, out, 1, parent_id);
    lemma_read32(none, f, tail, out, 2, facts.created_at);
    lemma_read32(none, f, tail, out, 3, facts.modified_at);
    lemma_read32(none, f, tail, out, 4, 0);
    lemma_read_bytes(f, tail, out, 5);
    lemma_read16(none, f, tail, out, 6, b.fixed_len() as u16);
    lemma_read32(none, f, tail, out, 7, id);
    lemma_read16(none, f, tail, out, 8, facts.offspring);
    lemma_read32(none, f, tail, out, 9, 0);
    lemma_read32(none, f, tail, out, 10, 0);
    lemma_read_bytes(f, tail, out, 11);
    if b.access_rights {
        lemma_rights(out, place_of(f, 11));
    }
    if b.long_name {
        lemma_pascal_stands(out, packed(f), name);
    }
}

/// The parameters of a file or directory whose name has to be encoded tell the
/// same, with the encoded name.
pub proof fn law_encoded_parms_read_back(
    fb: FileBitmap,
    db: DirBitmap,
    id: u32,
    parent_id: u32,
    name: Seq<char>,
    file: FileFacts,
    dir: DirFacts,
)
    ensures
        tells_of_file(file_parms(fb, id, parent_id, name, file), fb, id, parent_id, mac_roman(name), file),
        tells_of_dir(dir_parms(db, id, parent_id, name, dir), db, id, parent_id, mac_roman(name), dir),
{
    law_file_parms_read_back(fb, id, parent_id, mac_roman(name), file);
    law_dir_parms_read_back(db, id, parent_id, mac_roman(name), dir);
}

proof fn lemma_volume_places(b: VolumeBitmap, created_at: u32, modified_at: u32, volume_id: u16)
    ensures
        place_of(volume_fields(b, created_at, modified_at, volume_id), 0) == 0,
        place_of(volume_fields(b, created_at, modified_at, volume_id), 8) == packed(volume_fields(b, created_at, modified_at, volume_id)).len(),
        place_of(volume_fields(b, created_at, modified_at, volume_id), 1) == place_of(volume_fields(b, created_at, modified_at, volume_id), 0) + width(b.attributes, 2),
        place_of(volume_fields(b, created_at, modified_at, volume_id), 2) == place_of(volume_fields(b, created_at, modified_at, volume_id), 1) + width(b.signature, 2),
        place_of(volume_fields(b, created_at, modified_at, volume_id), 3) == place_of(volume_fields(b, created_at, modified_at, volume_id), 2) + width(b.creation_date, 4),
        place_of(volume_fields(b, created_at, modified_at, volume_id), 4) == place_of(volume_fields(b, created_at, modified_at, volume_id), 3) + width(b.modification_date, 4),
        place_of(volume_fields(b, created_at, modified_at, volume_id), 5) == place_of(volume_fields(b, created_at, modified_at, volume_id), 4) + width(b.backup_date, 4),
        place_of(volume_fields(b, created_at, modified_at, volume_id), 6) == place_of(volume_fields(b, created_at, modified_at, volume_id), 5) + width(b.volume_id, 2),
        place_of(volume_fields(b, created_at, modified_at, volume_id), 7) == place_of(volume_fields(b, created_at, modified_at, volume_id), 6) + width(b.bytes_free, 4),
        place_of(volume_fields(b, created_at, modified_at, volume_id), 8) == place_of(volume_fields(b, created_at, modified_at, volume_id), 7) + width(b.bytes_total, 4),
{
    let f = volume_fields(b, created_at, modified_at, volume_id);
    lemma_places(f);
    lemma_place_step(f, 0, 1);
    lemma_place_step(f, 1, 2);
    lemma_place_step(f, 2, 3);
    lemma_place_step(f, 3, 4);
    lemma_place_step(f, 4, 5);
    lemma_place_step(f, 5, 6);
    lemma_place_step(f, 6, 7);
    lemma_place_step(f, 7, 8);
}

proof fn lemma_volume_name(out: Seq<u8>, fixed: Seq<u8>, name: Seq<u8>)
    requires
        fixed.len() <= 258,
        out == fixed + be16(fixed.len() as u16) + seq![(name.len() % 256) as u8] + name,
    ensures
        number16(out, fixed.len() as int) == fixed.len(),
        out.len() == fixed.len() + 3 + name.len(),
        out[(fixed.len() + 2) as int] == name.len() % 256,
        forall|k: int| 0 <= k < name.len() ==> #[trigger] out[fixed.len() + 3 + k] == name[k],
{
    let end = fixed.len() as int;
    assert(out[end] == be16(fixed.len() as u16)[0]);
    assert(out[end + 1] == be16(fixed.len() as u16)[1]);
}

/// Each parameter of a volume reads back as the fact that it stands for, at its
/// own place, behind the bitmap.
#[verifier::rlimit(40)]
pub proof fn law_volume_parms_read_back(
    b: VolumeBitmap,
    created_at: u32,
    modified_at: u32,
    volume_id: u16,
    name: Seq<char>,
)
    ensures
        tells_of_volume(
            volume_parms(b, created_at, modified_at, volume_id, name),
            b,
            created_at,
            modified_at,
            volume_id,
            utf8(name),
        ),
{
    let f = volume_fields(b, created_at, modified_at, volume_id);
    let head = be16(b.bits);
    let fixed = volume_fixed(b, created_at, modified_at, volume_id);
    let out = volume_parms(b, created_at, modified_at, volume_id, name);
    let tail = out.skip(fixed.len() as int);
    lemma_volume_fixed_len(b, created_at, modified_at, volume_id);
    assert(out =~= head + packed(f) + tail);
    lemma_volume_places(b, created_at, modified_at, volume_id);
    assert(out[0] == head[0] && out[1] == head[1]);
    lemma_read16(head, f, tail, out, 0, 0);
    lemma_read16(head, f, tail, out, 1, SIGNATURE_FIXED_DIRECTORY_ID);
    lemma_read32(head, f, tail, out, 2, created_at);
    lemma_read32(head, f, tail, out, 3, modified_at);
    lemma_read32(head, f, tail, out, 4, 0);
    lemma_read16(head, f, tail, out, 5, volume_id);
    lemma_read32(head, f, tail, out, 6, VOLUME_BYTES);
    lemma_read32(head, f, tail, out, 7, VOLUME_BYTES);
    if b.volume_name {
        lemma_volume_name(out, fixed, utf8(name));
    }
}

/// The parameters of a file, one by one: what each of them reads, and where it
/// stands behind those before it that are asked for.
pub proof fn law_file_parms_stand_in_order(b: FileBitmap, id: u32, parent_id: u32, name: Seq<u8>, facts: FileFacts)
    ensures
        ({
            let out = file_parms_named(b, id, parent_id, name, facts);
            let parent_at = (if b.attributes { 2int } else { 0 });
            let created_at = parent_at + (if b.parent_dir_id { 4int } else { 0 });
            let modified_at = created_at + (if b.create_date { 4int } else { 0 });
            let backup_at = modified_at + (if b.modification_date { 4int } else { 0 });
            let finder_at = backup_at + (if b.backup_date { 4int } else { 0 });
            let offset_at = finder_at + (if b.finder_info { 32int } else { 0 });
            let number_at = offset_at + (if b.long_name { 2int } else { 0 });
            let data_at = number_at + (if b.file_number { 4int } else { 0 });
            let rsrc_at = data_at + (if b.data_fork_length { 4int } else { 0 });
            let prodos_at = rsrc_at + (if b.resource_fork_length { 4int } else { 0 });
            let end = prodos_at + (if b.prodos_info { 6int } else { 0 });
            &&& b.attributes ==> number16(out, 0) == (facts.flags / 0x4000) % 2
            &&& b.parent_dir_id ==> number32(out, parent_at) == parent_id
            &&& b.create_date ==> number32(out, created_at) == (if facts.created + 2082844800 < 0 {
                0
            } else {
                (facts.created + 2082844800) % 4294967296
            })
            &&& b.modification_date ==> number32(out, modified_at) == (if facts.modified + 2082844800 < 0 {
                0
            } else {
                (facts.modified + 2082844800) % 4294967296
            })
            &&& b.backup_date ==> number32(out, backup_at) == 0
            &&& b.finder_info ==> forall|k: int| 0 <= k < 32 ==> #[trigger] out[finder_at + k] == facts.finder_info[k]
            &&& b.long_name ==> number16(out, offset_at) == end && out.len() == end + 1 + (if name.len() > 255 {
                255
            } else {
                name.len() as int
            }) && out[end] == out.len() - end - 1 && forall|k: int|
                0 <= k < out.len() - end - 1 ==> #[trigger] out[end + 1 + k] == name[k]
            &&& !b.long_name ==> out.len() == end
            &&& b.file_number ==> number32(out, number_at) == id
            &&& b.data_fork_length ==> number32(out, data_at) == facts.data_len % 4294967296
            &&& b.resource_fork_length ==> number32(out, rsrc_at) == facts.rsrc_len
            &&& b.prodos_info ==> forall|k: int| 0 <= k < 6 ==> #[trigger] out[prodos_at + k] == 0
        }),
{
    law_file_parms_read_back(b, id, parent_id, name, facts);
    reveal(width);
}

/// The parameters of a directory, one by one: what each of them reads, and where it
/// stands behind those before it that are asked for.
pub proof fn law_dir_parms_stand_in_order(b: DirBitmap, id: u32, parent_id: u32, name: Seq<u8>, facts: DirFacts)
    ensures
        ({
            let out = dir_parms_named(b, id, parent_id, name, facts);
            let parent_at = (if b.attributes { 2int } else { 0 });
            let created_at = parent_at + (if b.parent_dir_id { 4int } else { 0 });
            let modified_at = created_at + (if b.create_date { 4int } else { 0 });
            let backup_at = modified_at + (if b.modification_date { 4int } else { 0 });
            let finder_at = backup_at + (if b.backup_date { 4int } else { 0 });
            let offset_at = finder_at + (if b.finder_info { 32int } else { 0 });
            let number_at = offset_at + (if b.long_name { 2int } else { 0 });
            let offspring_at = number_at + (if b.dir_id { 4int } else { 0 });
            let owner_at = offspring_at + (if b.offspring_count { 2int } else { 0 });
            let group_at = owner_at + (if b.owner_id { 4int } else { 0 });
            let rights_at = group_at + (if b.group_id { 4int } else { 0 });
            let end = rights_at + (if b.access_rights { 4int } else { 0 });
            &&& b.attributes ==> number16(out, 0) == (facts.flags / 0x4000) % 2
            &&& b.parent_dir_id ==> number32(out, parent_at) == parent_id
            &&& b.create_date ==> number32(out, created_at) == facts.created_at
            &&& b.modification_date ==> number32(out, modified_at) == facts.modified_at
            &&& b.backup_date ==> number32(out, backup_at) == 0
            &&& b.finder_info ==> forall|k: int| 0 <= k < 32 ==> #[trigger] out[finder_at + k] == facts.finder_info[k]
            &&& b.long_name ==> number16(out, offset_at) == end && out.len() == end + 1 + (if name.len() > 255 {
                255
            } else {
                name.len() as int
            }) && out[end] == out.len() - end - 1 && forall|k: int|
                0 <= k < out.len() - end - 1 ==> #[trigger] out[end + 1 + k] == name[k]
            &&& !b.long_name ==> out.len() == end
            &&& b.dir_id ==> number32(out, number_at) == id
            &&& b.offspring_count ==> number16(out, offspring_at) == facts.offspring
            &&& b.owner_id ==> number32(out, owner_at) == 0
            &&& b.group_id ==> number32(out, group_at) == 0
            &&& b.access_rights ==> out[rights_at] == 0x87 && out[rights_at + 1] == 7 && out[rights_at + 2] == 7 && out[rights_at
                + 3] == 7
        }),
{
    law_dir_parms_read_back(b, id, parent_id, name, facts);
    reveal(width);
}

/// A name is told behind its length, which is at most 255.
pub proof fn law_names_are_told_behind_their_length(name: Seq<u8>)
    ensures
        name.len() <= 255 ==> pascal(name).len() == 1 + name.len() && pascal(name)[0] == name.len() && pascal(name).skip(1)
            == name,
        name.len() > 255 ==> pascal(name).len() == 256 && pascal(name)[0] == 255 && pascal(name).skip(1) == name.take(255),
{
    assert(pascal(name).skip(1) =~= long_name(name));
}

/// The parameters of a volume, one by one: what each of them reads, and where it
/// stands behind those before it that are asked for.
pub proof fn law_volume_parms_stand_in_order(
    b: VolumeBitmap,
    created_at: u32,
    modified_at: u32,
    volume_id: u16,
    name: Seq<char>,
)
    ensures
        ({
            let out = volume_parms(b, created_at, modified_at, volume_id, name);
            let signature_at = 2 + (if b.attributes { 2int } else { 0 });
            let made_at = signature_at + (if b.signature { 2int } else { 0 });
            let changed_at = made_at + (if b.creation_date { 4int } else { 0 });
            let backup_at = changed_at + (if b.modification_date { 4int } else { 0 });
            let id_at = backup_at + (if b.backup_date { 4int } else { 0 });
            let free_at = id_at + (if b.volume_id { 2int } else { 0 });
            let total_at = free_at + (if b.bytes_free { 4int } else { 0 });
            let end = total_at + (if b.bytes_total { 4int } else { 0 });
            &&& number16(out, 0) == b.bits
            &&& b.attributes ==> number16(out, 2) == 0
            &&& b.signature ==> number16(out, signature_at) == 2
            &&& b.creation_date ==> number32(out, made_at) == created_at
            &&& b.modification_date ==> number32(out, changed_at) == modified_at
            &&& b.backup_date ==> number32(out, backup_at) == 0
            &&& b.volume_id ==> number16(out, id_at) == volume_id
            &&& b.bytes_free ==> number32(out, free_at) == 1073741823
            &&& b.bytes_total ==> number32(out, total_at) == 1073741823
            &&& if b.volume_name {
                &&& number16(out, end) == end
                &&& out.len() == 2 + number16(out, end) + 1 + utf8(name).len()
                &&& out[2 + number16(out, end)] == utf8(name).len() % 256
                &&& forall|k: int| 0 <= k < utf8(name).len() ==> #[trigger] out[end + 3 + k] == utf8(name)[k]
            } else {
                out.len() == end
            }
        }),
{
    law_volume_parms_read_back(b, created_at, modified_at, volume_id, name);
    reveal(width);
}

} // verus!
