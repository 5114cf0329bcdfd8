//! What the Finder knows of a file: its type, its creator and its flags.

use crate::afp::path::FsPath;
use crate::wire::{be16, law_bytes_count_by_their_place, number16, str_eq};
use vstd::prelude::*;
use vstd::string::*;

verus! {

/// The Finder flag of an invisible file.
pub const IS_INVISIBLE: u16 = 0x4000;

/// The file attribute of an invisible file.
pub const ATTRIBUTE_INVISIBLE: u16 = 0x0001;

/// A type or a creator: four characters.
pub type OsType = [u8; 4];

/// The type and the creator of a file.
#[derive(Debug, Clone, Copy)]
pub struct TypeCreator {
    pub file_type: OsType,
    pub creator: OsType,
}

/// What the Finder knows of a file, in 32 bytes.
#[derive(Debug, Clone, Copy)]
pub struct FinderInfo {
    pub file_type: OsType,
    pub creator: OsType,
    pub flags: u16,
    /// What follows the flags.
    pub rest: [u8; 22],
}

/// The types that the server knows by themselves.
#[derive(Debug, Clone, Copy, PartialEq, Eq, Structural)]
pub enum KnownType {
    Text,
    StuffIt,
    SelfExtracting,
    DiskImage,
    Pdf,
    BinHex,
}

/// The type and creator of a known type.
pub open spec fn codes(t: KnownType) -> (Seq<u8>, Seq<u8>) {
    match t {
        KnownType::Text => (seq![0x54u8, 0x45u8, 0x58u8, 0x54u8], seq![0x74u8, 0x74u8, 0x78u8, 0x74u8]),
        KnownType::StuffIt => (seq![0x53u8, 0x49u8, 0x54u8, 0x21u8], seq![0x53u8, 0x49u8, 0x54u8, 0x21u8]),
        KnownType::SelfExtracting => (seq![0x41u8, 0x50u8, 0x50u8, 0x4Cu8], seq![0x61u8, 0x75u8, 0x73u8, 0x74u8]),
        KnownType::DiskImage => (seq![0x64u8, 0x49u8, 0x6Du8, 0x67u8], seq![0x64u8, 0x43u8, 0x70u8, 0x79u8]),
        KnownType::Pdf => (seq![0x50u8, 0x44u8, 0x46u8, 0x20u8], seq![0x43u8, 0x41u8, 0x52u8, 0x4Fu8]),
        KnownType::BinHex => (seq![0x54u8, 0x45u8, 0x58u8, 0x54u8], seq![0x42u8, 0x6Eu8, 0x48u8, 0x71u8]),
    }
}

/// Whether a result is the type and creator of a type, if there is one.
pub open spec fn is_codes(r: Option<TypeCreator>, t: Option<KnownType>) -> bool {
    match t {
        Some(t) => r matches Some(tc) && tc.file_type@ == codes(t).0 && tc.creator@ == codes(t).1,
        None => r is None,
    }
}

fn type_creator(t: KnownType) -> (tc: TypeCreator)
    ensures
        tc.file_type@ == codes(t).0,
        tc.creator@ == codes(t).1,
{
    let tc = match t {
        KnownType::Text => TypeCreator { file_type: [0x54, 0x45, 0x58, 0x54], creator: [0x74, 0x74, 0x78, 0x74] },
        KnownType::StuffIt => TypeCreator { file_type: [0x53, 0x49, 0x54, 0x21], creator: [0x53, 0x49, 0x54, 0x21] },
        KnownType::SelfExtracting => TypeCreator {
            file_type: [0x41, 0x50, 0x50, 0x4C],
            creator: [0x61, 0x75, 0x73, 0x74],
        },
        KnownType::DiskImage => TypeCreator { file_type: [0x64, 0x49, 0x6D, 0x67], creator: [0x64, 0x43, 0x70, 0x79] },
        KnownType::Pdf => TypeCreator { file_type: [0x50, 0x44, 0x46, 0x20], creator: [0x43, 0x41, 0x52, 0x4F] },
        KnownType::BinHex => TypeCreator { file_type: [0x54, 0x45, 0x58, 0x54], creator: [0x42, 0x6E, 0x48, 0x71] },
    };
    assert(tc.file_type@ =~= codes(t).0);
    assert(tc.creator@ =~= codes(t).1);
    tc
}

/// The known type of a MIME type.
pub open spec fn type_of_mime(mime: Seq<char>) -> Option<KnownType> {
    if mime == "text/plain"@ {
        Some(KnownType::Text)
    } else if mime == "application/x-stuffit"@ {
        Some(KnownType::StuffIt)
    } else if mime == "application/x-stuffit-x"@ {
        Some(KnownType::SelfExtracting)
    } else if mime == "application/x-apple-diskimage"@ {
        Some(KnownType::DiskImage)
    } else if mime == "application/pdf"@ {
        Some(KnownType::Pdf)
    } else if mime == "application/mac-binhex40"@ {
        Some(KnownType::BinHex)
    } else {
        None
    }
}

/// The type and creator of a file by the MIME type of its contents.
pub fn infer_type_creator_from_content(mime: &str) -> (r: Option<TypeCreator>)
    ensures
        is_codes(r, type_of_mime(mime@)),
{
    if str_eq(mime, "text/plain") {
        Some(type_creator(KnownType::Text))
    } else if str_eq(mime, "application/x-stuffit") {
        Some(type_creator(KnownType::StuffIt))
    } else if str_eq(mime, "application/x-stuffit-x") {
        Some(type_creator(KnownType::SelfExtracting))
    } else if str_eq(mime, "application/x-apple-diskimage") {
        Some(type_creator(KnownType::DiskImage))
    } else if str_eq(mime, "application/pdf") {
        Some(type_creator(KnownType::Pdf))
    } else if str_eq(mime, "application/mac-binhex40") {
        Some(type_creator(KnownType::BinHex))
    } else {
        None
    }
}

/// A character without regard to case, among the letters of ASCII.
pub open spec fn lower(c: char) -> char {
    if 'A' <= c <= 'Z' {
        ((c as u8 + 32) as u8) as char
    } else {
        c
    }
}

/// A text without regard to case, among the letters of ASCII.
pub open spec fn lowered(s: Seq<char>) -> Seq<char> {
    s.map_values(|c: char| lower(c))
}

/// Where the last dot of a name stands, if it has one.
pub open spec fn last_dot(name: Seq<char>) -> int
    decreases name.len(),
{
    if name.len() == 0 {
        -1
    } else if name.last() == '.' {
        name.len() - 1
    } else {
        last_dot(name.drop_last())
    }
}

/// What stands behind the last dot of a name, unless the name starts with it.
pub open spec fn extension_of(name: Seq<char>) -> Option<Seq<char>> {
    if last_dot(name) > 0 {
        Some(name.skip(last_dot(name) + 1))
    } else {
        None
    }
}

/// The known type of an extension.
pub open spec fn type_of_extension(ext: Seq<char>) -> Option<KnownType> {
    let e = lowered(ext);
    if e == "txt"@ {
        Some(KnownType::Text)
    } else if e == "sit"@ {
        Some(KnownType::StuffIt)
    } else if e == "sea"@ {
        Some(KnownType::SelfExtracting)
    } else if e == "img"@ || e == "dsk"@ {
        Some(KnownType::DiskImage)
    } else if e == "pdf"@ {
        Some(KnownType::Pdf)
    } else if e == "hqx"@ {
        Some(KnownType::BinHex)
    } else {
        None
    }
}

fn lower_char(c: char) -> (r: char)
    ensures
        r == lower(c),
{
    if 'A' <= c && c <= 'Z' {
        let b: u8 = c as u8;
        (b + 32) as char
    } else {
        c
    }
}

/// Whether a text from `start` on is `word`, without regard to case.
fn tail_is(name: &str, start: usize, word: &str) -> (r: bool)
    requires
        start <= name@.len(),
    ensures
        r == (lowered(name@.skip(start as int)) == word@),
{
    let n: usize = name.unicode_len();
    let m: usize = word.unicode_len();
    let ghost tail = lowered(name@.skip(start as int));
    if n - start != m {
        assert(tail.len() != word@.len());
        return false;
    }
    let mut i: usize = 0;
    while i < m
        invariant
            i <= m,
            m == word@.len(),
            n == name@.len(),
            n - start == m,
            start <= n,
            tail == lowered(name@.skip(start as int)),
            forall|k: int| 0 <= k < i ==> tail[k] == word@[k],
        decreases m - i,
    {
        assert(tail[i as int] == lower(name@[start + i]));
        if lower_char(name.get_char(start + i)) != word.get_char(i) {
            assert(tail[i as int] != word@[i as int]);
            return false;
        }
        i += 1;
    }
    assert(tail =~= word@);
    true
}

proof fn lemma_last_dot(name: Seq<char>, n: int, at: int)
    requires
        0 <= n <= name.len(),
        at < n,
        forall|k: int| at < k < n ==> name[k] != '.',
        at == -1 || 0 <= at && name[at] == '.',
    ensures
        last_dot(name.take(n)) == at,
    decreases n,
{
    if n > 0 {
        assert(name.take(n).drop_last() =~= name.take(n - 1));
        if at < n - 1 {
            lemma_last_dot(name, n - 1, at);
        }
    }
}

/// The type and creator of a file by the extension of its name.
pub fn infer_type_creator_from_extension(path: &FsPath) -> (r: Option<TypeCreator>)
    ensures
        is_codes(
            r,
            match crate::afp::path::last_name(path@) {
                Some(name) => match extension_of(name) {
                    Some(ext) => type_of_extension(ext),
                    None => None,
                },
                None => None,
            },
        ),
{
    let name = match path.file_name() {
        Some(name) => name,
        None => {
            return None;
        },
    };
    let n: usize = name.as_str().unicode_len();
    let mut i: usize = n;
    while i > 0 && name.as_str().get_char(i - 1) != '.'
        invariant
            i <= n,
            n == name@.len(),
            forall|k: int| i <= k < n ==> name@[k] != '.',
        decreases i,
    {
        i -= 1;
    }
    proof {
        lemma_last_dot(name@, n as int, i - 1);
        assert(name@.take(n as int) =~= name@);
    }
    if i < 2 {
        return None;
    }
    let s = name.as_str();
    if tail_is(s, i, "txt") {
        Some(type_creator(KnownType::Text))
    } else if tail_is(s, i, "sit") {
        Some(type_creator(KnownType::StuffIt))
    } else if tail_is(s, i, "sea") {
        Some(type_creator(KnownType::SelfExtracting))
    } else if tail_is(s, i, "img") || tail_is(s, i, "dsk") {
        Some(type_creator(KnownType::DiskImage))
    } else if tail_is(s, i, "pdf") {
        Some(type_creator(KnownType::Pdf))
    } else if tail_is(s, i, "hqx") {
        Some(type_creator(KnownType::BinHex))
    } else {
        None
    }
}

// ── Finder information ───────────────────────────────────────────────────────

impl FinderInfo {
    /// The Finder information of a file that has none: zeros.
    pub open spec fn is_blank(self) -> bool {
        &&& self.file_type@ == seq![0u8, 0u8, 0u8, 0u8]
        &&& self.creator@ == seq![0u8, 0u8, 0u8, 0u8]
        &&& self.flags == 0
        &&& self.rest@ == crate::wire::repeat(0, 22)
    }

    /// The 32 bytes that stand for it.
    pub open spec fn kept(self) -> Seq<u8> {
        self.file_type@ + self.creator@ + be16(self.flags) + self.rest@
    }

    /// The Finder information that 32 bytes stand for.
    pub fn from_bytes(raw: [u8; 32]) -> (info: Self)
        ensures
            info.kept() == raw@,
    {
        let mut rest: [u8; 22] = [0u8; 22];
        let mut i: usize = 0;
        while i < 22
            invariant
                i <= 22,
                forall|k: int| 0 <= k < i ==> rest@[k] == raw@[10 + k],
            decreases 22 - i,
        {
            rest[i] = raw[10 + i];
            i += 1;
        }
        let flags: u16 = raw[8] as u16 * 256 + raw[9] as u16;
        let info = FinderInfo {
            file_type: [raw[0], raw[1], raw[2], raw[3]],
            creator: [raw[4], raw[5], raw[6], raw[7]],
            flags,
            rest,
        };
        proof {
            assert(be16(flags) =~= seq![raw[8], raw[9]]);
            assert(info.kept() =~= raw@);
        }
        info
    }

    /// The 32 bytes in which Finder information is kept.
    pub fn to_bytes(&self) -> (raw: [u8; 32])
        ensures
            raw@ == self.kept(),
    {
        let mut raw: [u8; 32] = [0u8; 32];
        let mut i: usize = 0;
        while i < 4
            invariant
                i <= 4,
                forall|k: int| 0 <= k < i ==> raw@[k] == self.file_type@[k] && raw@[4 + k] == self.creator@[k],
            decreases 4 - i,
        {
            raw[i] = self.file_type[i];
            raw[4 + i] = self.creator[i];
            i += 1;
        }
        raw[8] = (self.flags / 256) as u8;
        raw[9] = (self.flags % 256) as u8;
        i = 0;
        while i < 22
            invariant
                i <= 22,
                raw@.take(10) =~= self.kept().take(10),
                forall|k: int| 0 <= k < i ==> raw@[10 + k] == self.rest@[k],
            decreases 22 - i,
        {
            raw[10 + i] = self.rest[i];
            i += 1;
        }
        assert forall|k: int| 0 <= k < 32 implies raw@[k] == self.kept()[k] by {
            if k < 10 {
                assert(raw@[k] == raw@.take(10)[k]);
            }
        }
        assert(raw@ =~= self.kept());
        raw
    }
}

/// The bytes in which Finder information is kept tell all of it.
pub proof fn law_finder_info_reads_back(a: FinderInfo, b: FinderInfo)
    requires
        a.kept() == b.kept(),
    ensures
        a.file_type@ == b.file_type@,
        a.creator@ == b.creator@,
        a.flags == b.flags,
        a.rest@ == b.rest@,
{
    assert(a.file_type@ =~= a.kept().subrange(0, 4));
    assert(b.file_type@ =~= b.kept().subrange(0, 4));
    assert(a.creator@ =~= a.kept().subrange(4, 8));
    assert(b.creator@ =~= b.kept().subrange(4, 8));
    assert(a.rest@ =~= a.kept().subrange(10, 32));
    assert(b.rest@ =~= b.kept().subrange(10, 32));
    assert(be16(a.flags)[0] == a.kept()[8] && be16(a.flags)[1] == a.kept()[9]);
    assert(be16(b.flags)[0] == b.kept()[8] && be16(b.flags)[1] == b.kept()[9]);
}

fn all_zero(bytes: &[u8]) -> (r: bool)
    ensures
        r == (bytes@ == crate::wire::repeat(0, bytes@.len())),
{
    let mut i: usize = 0;
    while i < bytes.len()
        invariant
            i <= bytes@.len(),
            forall|k: int| 0 <= k < i ==> bytes@[k] == 0,
        decreases bytes@.len() - i,
    {
        if bytes[i] != 0 {
            assert(crate::wire::repeat(0, bytes@.len())[i as int] == 0);
            return false;
        }
        i += 1;
    }
    assert(bytes@ =~= crate::wire::repeat(0, bytes@.len()));
    true
}

/// What the Finder is told of a file: what is stored, or, for a file of which
/// nothing is stored, what its contents or else its name tell; the second part
/// says whether this is new and has to be stored.
pub fn get_finder_info(
    stored: FinderInfo,
    is_dir: bool,
    from_content: Option<TypeCreator>,
    from_name: Option<TypeCreator>,
) -> (r: (FinderInfo, bool))
    ensures
        ({
            let found = if from_content is Some {
                from_content
            } else {
                from_name
            };
            if stored.is_blank() && !is_dir && found is Some {
                &&& r.1
                &&& r.0.file_type@ == found->0.file_type@
                &&& r.0.creator@ == found->0.creator@
                &&& r.0.flags == 0
                &&& r.0.rest@ == crate::wire::repeat(0, 22)
            } else {
                r == (stored, false)
            }
        }),
{
    let blank = all_zero(stored.file_type.as_slice()) && all_zero(stored.creator.as_slice()) && stored.flags == 0
        && all_zero(stored.rest.as_slice());
    proof {
        assert(crate::wire::repeat(0, 4) =~= seq![0u8, 0u8, 0u8, 0u8]);
        assert(blank == stored.is_blank());
    }
    if blank && !is_dir {
        let found = match from_content {
            Some(tc) => Some(tc),
            None => from_name,
        };
        if let Some(tc) = found {
            let rest: [u8; 22] = [0u8; 22];
            assert(rest@ =~= crate::wire::repeat(0, 22));
            return (FinderInfo { file_type: tc.file_type, creator: tc.creator, flags: 0, rest }, true);
        }
    }
    (stored, false)
}

/// The file attributes that follow from the Finder flags.
pub open spec fn attributes_of(flags: u16) -> u16 {
    if flags & IS_INVISIBLE != 0 {
        ATTRIBUTE_INVISIBLE
    } else {
        0
    }
}

/// The Finder flags after the file attributes have been set.
pub open spec fn flags_with(flags: u16, attributes: u16) -> u16 {
    if attributes & ATTRIBUTE_INVISIBLE != 0 {
        flags | IS_INVISIBLE
    } else {
        flags & !IS_INVISIBLE
    }
}

/// The file attributes that follow from the Finder flags.
pub fn get_attributes(flags: u16) -> (attributes: u16)
    ensures
        attributes == attributes_of(flags),
{
    if flags & IS_INVISIBLE != 0 {
        ATTRIBUTE_INVISIBLE
    } else {
        0
    }
}

/// The Finder flags after the file attributes have been set.
pub fn set_attributes(flags: u16, attributes: u16) -> (r: u16)
    ensures
        r == flags_with(flags, attributes),
{
    if attributes & ATTRIBUTE_INVISIBLE != 0 {
        flags | IS_INVISIBLE
    } else {
        flags & !IS_INVISIBLE
    }
}

/// Attributes that have been set are read back, as far as the server keeps
/// them, and no other Finder flag changes.
pub proof fn law_attributes_read_back(flags: u16, attributes: u16)
    ensures
        attributes_of(flags_with(flags, attributes)) == attributes & ATTRIBUTE_INVISIBLE,
        flags_with(flags, attributes) & !IS_INVISIBLE == flags & !IS_INVISIBLE,
{
    assert(attributes & 0x0001 == 0 || attributes & 0x0001 == 1) by (bit_vector);
    assert((flags | 0x4000) & 0x4000 != 0) by (bit_vector);
    assert((flags & !0x4000u16) & 0x4000 == 0) by (bit_vector);
    assert((flags | 0x4000) & !0x4000u16 == flags & !0x4000u16) by (bit_vector);
    assert((flags & !0x4000u16) & !0x4000u16 == flags & !0x4000u16) by (bit_vector);
}

/// The types and creators of the kinds of files that are known, by their letters.
pub proof fn law_known_types_have_their_letters()
    ensures
        codes(KnownType::Text).0 == seq!['T' as u8, 'E' as u8, 'X' as u8, 'T' as u8],
        codes(KnownType::Text).1 == seq!['t' as u8, 't' as u8, 'x' as u8, 't' as u8],
        codes(KnownType::StuffIt).0 == seq!['S' as u8, 'I' as u8, 'T' as u8, '!' as u8],
        codes(KnownType::StuffIt).1 == seq!['S' as u8, 'I' as u8, 'T' as u8, '!' as u8],
        codes(KnownType::SelfExtracting).0 == seq!['A' as u8, 'P' as u8, 'P' as u8, 'L' as u8],
        codes(KnownType::SelfExtracting).1 == seq!['a' as u8, 'u' as u8, 's' as u8, 't' as u8],
        codes(KnownType::DiskImage).0 == seq!['d' as u8, 'I' as u8, 'm' as u8, 'g' as u8],
        codes(KnownType::DiskImage).1 == seq!['d' as u8, 'C' as u8, 'p' as u8, 'y' as u8],
        codes(KnownType::Pdf).0 == seq!['P' as u8, 'D' as u8, 'F' as u8, ' ' as u8],
        codes(KnownType::Pdf).1 == seq!['C' as u8, 'A' as u8, 'R' as u8, 'O' as u8],
        codes(KnownType::BinHex).0 == seq!['T' as u8, 'E' as u8, 'X' as u8, 'T' as u8],
        codes(KnownType::BinHex).1 == seq!['B' as u8, 'n' as u8, 'H' as u8, 'q' as u8],
{
}

/// A type that is inferred is the type and the creator of the kind, not the other
/// way round, and none where the kind is not known.
pub proof fn law_inferred_type_is_of_its_kind(r: Option<TypeCreator>, t: KnownType)
    ensures
        is_codes(r, Some(t)) <==> r is Some && r->0.file_type@ == codes(t).0 && r->0.creator@ == codes(t).1,
        is_codes(r, None) <==> r is None,
{
}

/// What the contents of a file tell of its kind.
pub proof fn law_contents_tell_the_kind()
    ensures
        type_of_mime("text/plain"@) == Some(KnownType::Text),
        type_of_mime("application/x-stuffit"@) == Some(KnownType::StuffIt),
        type_of_mime("application/x-stuffit-x"@) == Some(KnownType::SelfExtracting),
        type_of_mime("application/x-apple-diskimage"@) == Some(KnownType::DiskImage),
        type_of_mime("application/pdf"@) == Some(KnownType::Pdf),
        type_of_mime("application/mac-binhex40"@) == Some(KnownType::BinHex),
        forall|m: Seq<char>|
            #![trigger type_of_mime(m)]
            type_of_mime(m) is Some ==> m.len() == 10 || m.len() == 15 || m.len() == 21 || m.len() == 23 || m.len() == 24
                || m.len() == 29,
{
    reveal_strlit("text/plain");
    reveal_strlit("application/x-stuffit");
    reveal_strlit("application/x-stuffit-x");
    reveal_strlit("application/x-apple-diskimage");
    reveal_strlit("application/pdf");
    reveal_strlit("application/mac-binhex40");
    assert("text/plain"@.len() == 10);
    assert("application/x-stuffit"@.len() == 21);
    assert("application/x-stuffit-x"@.len() == 23);
    assert("application/x-apple-diskimage"@.len() == 29);
    assert("application/pdf"@.len() == 15);
    assert("application/mac-binhex40"@.len() == 24);
}

/// Only the letters from A to Z have a small form, 32 further on.
pub proof fn law_letters_become_small(c: char)
    ensures
        'A' <= c <= 'Z' ==> lower(c) as int == c as int + 32,
        'A' <= c <= 'Z' ==> 'a' <= lower(c) <= 'z',
        c < 'A' || 'Z' < c ==> lower(c) == c,
{
}

proof fn lemma_dot_is_last(name: Seq<char>)
    ensures
        -1 <= last_dot(name) < name.len(),
        last_dot(name) >= 0 ==> name[last_dot(name)] == '.',
        forall|k: int| last_dot(name) < k < name.len() ==> #[trigger] name[k] != '.',
    decreases name.len(),
{
    if name.len() > 0 && name.last() != '.' {
        let init = name.drop_last();
        lemma_dot_is_last(init);
        assert forall|k: int| last_dot(name) < k < name.len() implies #[trigger] name[k] != '.' by {
            if k < name.len() - 1 {
                assert(init[k] == name[k]);
            }
        }
    }
}

/// A name has its extension behind its last dot, unless that is its first
/// character.
pub proof fn law_extension_is_behind_the_last_dot(name: Seq<char>, dot: int)
    requires
        0 <= dot < name.len(),
        name[dot] == '.',
        forall|k: int| dot < k < name.len() ==> #[trigger] name[k] != '.',
    ensures
        dot > 0 ==> extension_of(name) == Some(name.skip(dot + 1)),
        dot == 0 ==> extension_of(name) is None,
{
    lemma_dot_is_last(name);
    assert(last_dot(name) == dot) by {
        if last_dot(name) > dot {
            assert(name[last_dot(name)] != '.');
        }
    }
}

/// A name without a dot has no extension.
pub proof fn law_no_dot_no_extension(name: Seq<char>)
    requires
        !name.contains('.'),
    ensures
        extension_of(name) is None,
{
    lemma_dot_is_last(name);
}

/// Letters that are made small stay at their places.
pub proof fn law_lowered_by_place(s: Seq<char>, k: int)
    requires
        0 <= k < s.len(),
    ensures
        lowered(s).len() == s.len(),
        lowered(s)[k] == lower(s[k]),
        lowered(lowered(s)) == lowered(s),
{
    assert(lowered(lowered(s)) =~= lowered(s));
}

/// What the extension of a name tells of its kind, with large letters or small
/// ones.
pub proof fn law_extensions_tell_the_kind(ext: Seq<char>)
    ensures
        lowered(ext) == "txt"@ ==> type_of_extension(ext) == Some(KnownType::Text),
        lowered(ext) == "sit"@ ==> type_of_extension(ext) == Some(KnownType::StuffIt),
        lowered(ext) == "sea"@ ==> type_of_extension(ext) == Some(KnownType::SelfExtracting),
        lowered(ext) == "img"@ ==> type_of_extension(ext) == Some(KnownType::DiskImage),
        lowered(ext) == "dsk"@ ==> type_of_extension(ext) == Some(KnownType::DiskImage),
        lowered(ext) == "pdf"@ ==> type_of_extension(ext) == Some(KnownType::Pdf),
        lowered(ext) == "hqx"@ ==> type_of_extension(ext) == Some(KnownType::BinHex),
        type_of_extension(ext) is Some ==> ext.len() == 3,
{
    reveal_strlit("txt");
    reveal_strlit("sit");
    reveal_strlit("sea");
    reveal_strlit("img");
    reveal_strlit("dsk");
    reveal_strlit("pdf");
    reveal_strlit("hqx");
    assert("txt"@[0] == 't' && "sit"@[0] == 's' && "sea"@[0] == 's' && "img"@[0] == 'i' && "dsk"@[0] == 'd' && "pdf"@[0]
        == 'p' && "hqx"@[0] == 'h');
    assert("sit"@[1] == 'i' && "sea"@[1] == 'e');
    assert(lowered(ext).len() == ext.len());
}

/// Finder information is kept in 32 bytes: the type, the creator, the flags, and
/// the rest behind them.
pub proof fn law_finder_info_stands_in_order(f: FinderInfo)
    ensures
        f.kept().len() == 32,
        f.kept().take(4) == f.file_type@,
        f.kept().subrange(4, 8) == f.creator@,
        number16(f.kept(), 8) == f.flags,
        f.kept().skip(10) == f.rest@,
{
    law_bytes_count_by_their_place(f.flags, 0);
    assert(f.kept().take(4) =~= f.file_type@);
    assert(f.kept().subrange(4, 8) =~= f.creator@);
    assert(f.kept().skip(10) =~= f.rest@);
}

/// Finder information is blank exactly where all of its bytes are zero.
pub proof fn law_blank_is_all_zero(f: FinderInfo)
    ensures
        f.is_blank() <==> forall|k: int| 0 <= k < 32 ==> #[trigger] f.kept()[k] == 0,
{
    law_finder_info_stands_in_order(f);
    law_bytes_count_by_their_place(f.flags, 0);
    let all = f.kept();
    if f.is_blank() {
        assert forall|k: int| 0 <= k < 32 implies #[trigger] all[k] == 0 by {}
    }
    if forall|k: int| 0 <= k < 32 ==> #[trigger] all[k] == 0 {
        assert(all[8] == 0 && all[9] == 0);
        assert forall|k: int| 0 <= k < 4 implies f.file_type@[k] == 0 by {
            assert(all[k] == 0);
        }
        assert forall|k: int| 0 <= k < 4 implies f.creator@[k] == 0 by {
            assert(all[4 + k] == 0);
        }
        assert forall|k: int| 0 <= k < 22 implies f.rest@[k] == 0 by {
            assert(all[10 + k] == 0);
        }
        assert(f.file_type@ =~= seq![0u8, 0u8, 0u8, 0u8]);
        assert(f.creator@ =~= seq![0u8, 0u8, 0u8, 0u8]);
        assert(f.rest@ =~= crate::wire::repeat(0, 22));
    }
}

/// A file is invisible to clients exactly where the flag 0x4000 of the Finder is
/// set; setting the attribute sets and clears that flag and no other.
pub proof fn law_invisible_is_one_flag(flags: u16, attributes: u16)
    ensures
        attributes_of(flags) == (flags / 0x4000) % 2,
        (flags_with(flags, attributes) / 0x4000) % 2 == attributes % 2,
        flags_with(flags, attributes) % 0x4000 == flags % 0x4000,
        flags_with(flags, attributes) / 0x8000 == flags / 0x8000,
{
    assert((flags & 0x4000 != 0) == ((flags / 0x4000) % 2 == 1)) by (bit_vector);
    assert((attributes & 0x0001 != 0) == (attributes % 2 == 1)) by (bit_vector);
    assert(((flags | 0x4000) / 0x4000) % 2 == 1 && (flags | 0x4000) % 0x4000 == flags % 0x4000 && (flags | 0x4000) / 0x8000
        == flags / 0x8000) by (bit_vector);
    assert(((flags & !0x4000u16) / 0x4000) % 2 == 0 && (flags & !0x4000u16) % 0x4000 == flags % 0x4000 && (flags
        & !0x4000u16) / 0x8000 == flags / 0x8000) by (bit_vector);
}

} // verus!
