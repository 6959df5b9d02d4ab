use crate::bencode::{
    BencodableByteString,
    bdecode, bencode, datums_of, decode_spec, encode_datum, lemma_datums_of, lemma_view_cases,
    lookup, BencodeDict, BencodeParseError, Bencodable, Datum,
};
use crate::torrent::{lemma_total_file_length_prefix, total_file_length, valid_layout, PiecedContent};
use sha1::{Digest, Sha1};
use vstd::prelude::*;
use vstd::string::{StringExecFns, StringSliceAdditionalSpecFns};
use vstd::utf8::{decode_utf8, encode_utf8_decode_utf8, valid_utf8};

verus! {

/// One output file: its length in bytes and its path.
#[derive(Debug, PartialEq, Eq)]
pub struct File {
    pub length: u32,
    pub path: String,
}

/// The piece digests, each as forty lowercase hex digits.
#[derive(Debug, PartialEq, Eq)]
pub struct Pieces(pub Vec<String>);

#[derive(Debug, PartialEq, Eq)]
pub enum Info {
    SingleFile { piece_length: u32, pieces: Pieces, name: String, file: File },
    MultiFile { piece_length: u32, pieces: Pieces, directory_name: String, files: Vec<File> },
}

#[derive(Debug, PartialEq, Eq)]
pub struct MetaInfoFile {
    pub info: Info,
    pub announce: String,
    pub info_hash: [u8; 20],
}

/// Which required part of the metadata is missing or ill-typed.
#[derive(Debug, PartialEq, Eq)]
pub enum MetaInfoFileParseError {
    Decode(BencodeParseError),
    NotADictionary,
    Info,
    Announce,
    PieceLength,
    Pieces,
    Name,
    Length,
    Files,
    File,
    Layout,
}

/// The SHA-1 digest of a byte sequence.
pub uninterp spec fn sha1_of(data: Seq<u8>) -> Seq<u8>;

/// Relies on sha1's `Sha1::digest`: the SHA-1 digest of `data`, which is a
/// function of the bytes alone.
#[verifier::external_body]
fn sha1_digest(data: &[u8]) -> (r: [u8; 20])
    ensures
        r@ == sha1_of(data@),
{
    Sha1::digest(data).into()
}

/// The hex digit table, lowercase.
pub open spec fn hex_digits() -> Seq<char> {
    seq!['0', '1', '2', '3', '4', '5', '6', '7', '8', '9', 'a', 'b', 'c', 'd', 'e', 'f']
}

/// Two lowercase hex digits per byte, high nibble first.
pub open spec fn hex_text(data: Seq<u8>) -> Seq<char>
    decreases data.len(),
{
    if data.len() == 0 {
        Seq::empty()
    } else {
        let b = data.last();
        hex_text(data.drop_last()) + seq![hex_digits()[(b >> 4u8) as int], hex_digits()[(b & 15u8) as int]]
    }
}

/// Relies on `hex::encode`: each byte becomes two digits from the table
/// `0123456789abcdef`, high nibble first.
#[verifier::external_body]
fn hex_string(data: &[u8]) -> (r: String)
    ensures
        r@ == hex_text(data@),
{
    hex::encode(data)
}

/// Path components, decoded, joined by `separator`.
pub open spec fn path_text(components: Seq<Datum>, separator: Seq<char>) -> Seq<char>
    decreases components.len(),
{
    if components.len() == 0 {
        Seq::empty()
    } else if components.len() == 1 {
        decode_utf8(components[0]->Bytes_0)
    } else {
        path_text(components.drop_last(), separator) + separator + decode_utf8(components.last()->Bytes_0)
    }
}

pub open spec fn is_text(d: Datum) -> bool {
    d matches Datum::Bytes(b) && valid_utf8(b)
}

/// A `files` entry: a dictionary with a non-negative `length` and a `path`
/// list of text components.
pub open spec fn file_ok(f: Datum) -> bool {
    &&& f is Dict
    &&& lookup(f->Dict_0, "length".spec_bytes()) matches Some(Datum::Int(n)) && n >= 0
    &&& lookup(f->Dict_0, "path".spec_bytes()) matches Some(Datum::List(cs))
    &&& forall|j: int| 0 <= j < cs.len() ==> is_text(#[trigger] cs[j])
}

pub open spec fn file_length(f: Datum) -> int {
    lookup(f->Dict_0, "length".spec_bytes())->Some_0->Int_0
}

pub open spec fn file_components(f: Datum) -> Seq<Datum> {
    lookup(f->Dict_0, "path".spec_bytes())->Some_0->List_0
}

pub open spec fn files_total(fs: Seq<Datum>) -> int
    decreases fs.len(),
{
    if fs.len() == 0 {
        0
    } else {
        files_total(fs.drop_last()) + file_length(fs.last())
    }
}

/// The content length the info dictionary declares.
pub open spec fn declared_length(d: Seq<(Seq<u8>, Datum)>) -> int {
    match lookup(d, "length".spec_bytes()) {
        Some(l) => l->Int_0,
        None => files_total(lookup(d, "files".spec_bytes())->Some_0->List_0),
    }
}

/// The first problem with an info dictionary, if any.
pub open spec fn info_error(d: Seq<(Seq<u8>, Datum)>) -> Option<MetaInfoFileParseError> {
    let pl = lookup(d, "piece length".spec_bytes());
    let ps = lookup(d, "pieces".spec_bytes());
    let len = lookup(d, "length".spec_bytes());
    let fs = lookup(d, "files".spec_bytes());
    if !(pl matches Some(Datum::Int(n)) && n > 0) {
        Some(MetaInfoFileParseError::PieceLength)
    } else if !(ps matches Some(Datum::Bytes(b)) && b.len() % 20 == 0) {
        Some(MetaInfoFileParseError::Pieces)
    } else if !(lookup(d, "name".spec_bytes()) matches Some(n) && is_text(n)) {
        Some(MetaInfoFileParseError::Name)
    } else if len is Some && !(len matches Some(Datum::Int(n)) && n >= 0) {
        Some(MetaInfoFileParseError::Length)
    } else if len is None && !(fs matches Some(Datum::List(l))) {
        Some(MetaInfoFileParseError::Files)
    } else if len is None && !(forall|i: int|
        0 <= i < fs->Some_0->List_0.len() ==> file_ok(#[trigger] fs->Some_0->List_0[i])) {
        Some(MetaInfoFileParseError::File)
    } else if declared_length(d) > u32::MAX || !valid_layout(
        ps->Some_0->Bytes_0.len() as int / 20,
        pl->Some_0->Int_0,
        declared_length(d),
    ) {
        Some(MetaInfoFileParseError::Layout)
    } else {
        None
    }
}

/// The digests are the consecutive 20-byte slices of `bytes`, in hex.
pub open spec fn pieces_match(pieces: Pieces, bytes: Seq<u8>) -> bool {
    &&& pieces.0@.len() == bytes.len() / 20
    &&& forall|i: int|
        0 <= i < pieces.0@.len() ==> (#[trigger] pieces.0@[i])@ == hex_text(
            bytes.subrange(20 * i, 20 * i + 20),
        )
}

/// What a well-formed info dictionary describes, with paths joined by
/// `separator`.
pub open spec fn info_matches(info: Info, d: Seq<(Seq<u8>, Datum)>, separator: Seq<char>) -> bool {
    let pl = lookup(d, "piece length".spec_bytes())->Some_0->Int_0;
    let ps = lookup(d, "pieces".spec_bytes())->Some_0->Bytes_0;
    let name = decode_utf8(lookup(d, "name".spec_bytes())->Some_0->Bytes_0);
    match info {
        Info::SingleFile { piece_length, pieces, name: n, file } => {
            &&& lookup(d, "length".spec_bytes()) is Some
            &&& piece_length == pl
            &&& pieces_match(pieces, ps)
            &&& n@ == name
            &&& file.length == declared_length(d)
            &&& file.path@ == name
        },
        Info::MultiFile { piece_length, pieces, directory_name, files } => {
            let fs = lookup(d, "files".spec_bytes())->Some_0->List_0;
            &&& lookup(d, "length".spec_bytes()) is None
            &&& piece_length == pl
            &&& pieces_match(pieces, ps)
            &&& directory_name@ == name
            &&& files@.len() == fs.len()
            &&& forall|i: int|
                0 <= i < fs.len() ==> (#[trigger] files@[i]).length == file_length(fs[i])
                    && files@[i].path@ == path_text(file_components(fs[i]), separator)
        },
    }
}

/// The bytes as text, when they are valid UTF-8.
fn text_of(b: &BencodableByteString) -> (r: Option<String>)
    ensures
        r is Some <==> valid_utf8(b@),
        r matches Some(text) ==> text@ == decode_utf8(b@),
{
    match b.as_string() {
        Ok(text) => {
            proof {
                encode_utf8_decode_utf8(text@);
            }
            Some(String::from_str(text))
        },
        Err(_) => None,
    }
}

/// Each 20-byte slice of `bytes`, in hex.
fn piece_digests(bytes: &[u8]) -> (r: Pieces)
    requires
        bytes@.len() % 20 == 0,
    ensures
        pieces_match(r, bytes@),
{
    let n = bytes.len();
    let count = n / 20;
    let mut digests: Vec<String> = Vec::new();
    let mut i: usize = 0;
    while i < count
        invariant
            n == bytes@.len(),
            count == bytes@.len() / 20,
            bytes@.len() % 20 == 0,
            i <= count,
            digests@.len() == i,
            forall|j: int|
                0 <= j < i ==> (#[trigger] digests@[j])@ == hex_text(
                    bytes@.subrange(20 * j, 20 * j + 20),
                ),
        decreases count - i,
    {
        assert(20 * i + 20 <= bytes@.len()) by (nonlinear_arith)
            requires
                i < count,
                count == bytes@.len() / 20,
        ;
        let start = 20 * i;
        let digest = hex_string(vstd::slice::slice_subrange(bytes, start, start + 20));
        digests.push(digest);
        i = i + 1;
    }
    Pieces(digests)
}

/// Path components joined by `separator`, when every one is text.
fn path_of(components: &Vec<Bencodable>, separator: &str) -> (r: Option<String>)
    ensures
        r is Some <==> forall|j: int|
            0 <= j < components@.len() ==> is_text(#[trigger] components@[j]@),
        r matches Some(path) ==> path@ == path_text(datums_of(components@), separator@),
{
    proof {
        lemma_datums_of(components@);
    }
    let ghost ds = datums_of(components@);
    let mut path = String::new();
    let mut j: usize = 0;
    while j < components.len()
        invariant
            j <= components@.len(),
            ds == datums_of(components@),
            ds.len() == components@.len(),
            forall|m: int| 0 <= m < components@.len() ==> #[trigger] ds[m] == components@[m]@,
            forall|m: int| 0 <= m < j ==> is_text(#[trigger] components@[m]@),
            path@ == path_text(ds.subrange(0, j as int), separator@),
        decreases components@.len() - j,
    {
        proof {
            lemma_view_cases(components@[j as int]);
        }
        let text = match &components[j] {
            Bencodable::ByteString(b) => match text_of(b) {
                Some(t) => t,
                None => {
                    return None;
                },
            },
            _ => {
                return None;
            },
        };
        proof {
            let next = ds.subrange(0, j + 1);
            assert(next.drop_last() =~= ds.subrange(0, j as int));
        }
        if j > 0 {
            path.append(separator);
        }
        path.append(text.as_str());
        j = j + 1;
        proof {
            if j == 1 {
                assert(path@ =~= path_text(ds.subrange(0, j as int), separator@));
            }
        }
    }
    assert(ds.subrange(0, j as int) =~= ds);
    Some(path)
}

/// One entry of a multi-file `files` list.
fn file_entry(f: &Bencodable, separator: &str) -> (r: Option<File>)
    ensures
        r is Some <==> file_ok(f@),
        r matches Some(file) ==> file.length == file_length(f@) && file.path@ == path_text(
            file_components(f@),
            separator@,
        ),
{
    proof {
        lemma_view_cases(*f);
    }
    let d = match f {
        Bencodable::Dictionary(d) => d,
        _ => {
            return None;
        },
    };
    let length = match d.get("length".as_bytes()) {
        Some(v) => {
            proof {
                lemma_view_cases(*v);
            }
            match v {
                Bencodable::Integer(n) => {
                    if *n < 0 {
                        return None;
                    }
                    *n as u32
                },
                _ => {
                    return None;
                },
            }
        },
        None => {
            return None;
        },
    };
    let path = match d.get("path".as_bytes()) {
        Some(v) => {
            proof {
                lemma_view_cases(*v);
            }
            match v {
                Bencodable::List(components) => {
                    proof {
                        lemma_datums_of(components@);
                    }
                    match path_of(components, separator) {
                        Some(p) => p,
                        None => {
                            proof {
                                let j = choose|j: int|
                                    0 <= j < components@.len() && !is_text(
                                        #[trigger] components@[j]@,
                                    );
                                assert(datums_of(components@)[j] == components@[j]@);
                                assert(file_components(f@) == datums_of(components@));
                            }
                            return None;
                        },
                    }
                },
                _ => {
                    return None;
                },
            }
        },
        None => {
            return None;
        },
    };
    Some(File { length, path })
}

proof fn lemma_files_total(files: Seq<File>, fs: Seq<Datum>)
    requires
        files.len() == fs.len(),
        forall|i: int| 0 <= i < fs.len() ==> (#[trigger] files[i]).length == file_length(fs[i]),
    ensures
        total_file_length(files) == files_total(fs),
    decreases fs.len(),
{
    if fs.len() > 0 {
        let a = files.drop_last();
        let b = fs.drop_last();
        assert forall|i: int| 0 <= i < b.len() implies (#[trigger] a[i]).length == file_length(
            b[i],
        ) by {
            assert(a[i] == files[i]);
            assert(b[i] == fs[i]);
        }
        lemma_files_total(a, b);
    }
}

/// Reads an info dictionary: piece length, piece digests, name, and either
/// a single `length` or a `files` list.
fn get_info_from_btm(btm: &BencodeDict, separator: &str) -> (r: Result<
    Info,
    MetaInfoFileParseError,
>)
    ensures
        match r {
            Ok(info) => info_error(btm@) is None && info_matches(info, btm@, separator@)
                && info_total_length(info) == declared_length(btm@) && layout_ok(info),
            Err(e) => info_error(btm@) == Some(e),
        },
{
    let piece_length: u32 = match btm.get("piece length".as_bytes()) {
        Some(v) => {
            proof {
                lemma_view_cases(*v);
            }
            match v {
                Bencodable::Integer(n) => {
                    if *n <= 0 {
                        return Err(MetaInfoFileParseError::PieceLength);
                    }
                    *n as u32
                },
                _ => {
                    return Err(MetaInfoFileParseError::PieceLength);
                },
            }
        },
        None => {
            return Err(MetaInfoFileParseError::PieceLength);
        },
    };
    let piece_bytes: &[u8] = match btm.get("pieces".as_bytes()) {
        Some(v) => {
            proof {
                lemma_view_cases(*v);
            }
            match v {
                Bencodable::ByteString(b) => b.as_bytes(),
                _ => {
                    return Err(MetaInfoFileParseError::Pieces);
                },
            }
        },
        None => {
            return Err(MetaInfoFileParseError::Pieces);
        },
    };
    if piece_bytes.len() % 20 != 0 {
        return Err(MetaInfoFileParseError::Pieces);
    }
    let name: String = match btm.get("name".as_bytes()) {
        Some(v) => {
            proof {
                lemma_view_cases(*v);
            }
            match v {
                Bencodable::ByteString(b) => match text_of(b) {
                    Some(t) => t,
                    None => {
                        return Err(MetaInfoFileParseError::Name);
                    },
                },
                _ => {
                    return Err(MetaInfoFileParseError::Name);
                },
            }
        },
        None => {
            return Err(MetaInfoFileParseError::Name);
        },
    };
    let single_length: Option<u32> = match btm.get("length".as_bytes()) {
        Some(v) => {
            proof {
                lemma_view_cases(*v);
            }
            match v {
                Bencodable::Integer(n) => {
                    if *n < 0 {
                        return Err(MetaInfoFileParseError::Length);
                    }
                    Some(*n as u32)
                },
                _ => {
                    return Err(MetaInfoFileParseError::Length);
                },
            }
        },
        None => None,
    };
    let ghost d = btm@;
    let (files, total): (Vec<File>, u64) = match single_length {
        Some(l) => (Vec::new(), l as u64),
        None => {
            let list = match btm.get("files".as_bytes()) {
                Some(v) => {
                    proof {
                        lemma_view_cases(*v);
                    }
                    match v {
                        Bencodable::List(list) => list,
                        _ => {
                            return Err(MetaInfoFileParseError::Files);
                        },
                    }
                },
                None => {
                    return Err(MetaInfoFileParseError::Files);
                },
            };
            proof {
                lemma_datums_of(list@);
            }
            let ghost fs = datums_of(list@);
            let mut files: Vec<File> = Vec::new();
            let mut sum: u64 = 0;
            let mut i: usize = 0;
            while i < list.len()
                invariant
                    d == btm@,
                    lookup(d, "piece length".spec_bytes()) matches Some(Datum::Int(n)) && n > 0,
                    lookup(d, "pieces".spec_bytes()) matches Some(Datum::Bytes(b)) && b.len() % 20
                        == 0,
                    lookup(d, "name".spec_bytes()) matches Some(nm) && is_text(nm),
                    lookup(d, "length".spec_bytes()) is None,
                    lookup(d, "files".spec_bytes()) == Some(Datum::List(fs)),
                    i <= list@.len(),
                    fs == datums_of(list@),
                    fs.len() == list@.len(),
                    forall|m: int| 0 <= m < list@.len() ==> #[trigger] fs[m] == list@[m]@,
                    files@.len() == i,
                    forall|m: int| 0 <= m < i ==> file_ok(#[trigger] fs[m]),
                    forall|m: int|
                        0 <= m < i ==> (#[trigger] files@[m]).length == file_length(fs[m])
                            && files@[m].path@ == path_text(file_components(fs[m]), separator@),
                    sum == if total_file_length(files@) > u32::MAX {
                        u32::MAX + 1
                    } else {
                        total_file_length(files@)
                    },
                decreases list@.len() - i,
            {
                match file_entry(&list[i], separator) {
                    Some(f) => {
                        let ghost before = files@;
                        let length = f.length as u64;
                        files.push(f);
                        proof {
                            assert(files@.drop_last() =~= before);
                        }
                        sum = if sum + length > u32::MAX as u64 {
                            u32::MAX as u64 + 1
                        } else {
                            sum + length
                        };
                    },
                    None => {
                        assert(!file_ok(fs[i as int]));
                        return Err(MetaInfoFileParseError::File);
                    },
                }
                i = i + 1;
            }
            proof {
                lemma_files_total(files@, fs);
                assert(declared_length(d) == total_file_length(files@));
                assert(forall|m: int| 0 <= m < fs.len() ==> file_ok(#[trigger] fs[m]));
            }
            (files, sum)
        },
    };
    if total > u32::MAX as u64 {
        return Err(MetaInfoFileParseError::Layout);
    }
    let count = (piece_bytes.len() / 20) as u64;
    let pl = piece_length as u64;
    if count == 0 || total == 0 || count > total {
        proof {
            if count > total && total > 0 {
                assert((count - 1) * pl >= total) by (nonlinear_arith)
                    requires
                        count > total,
                        pl >= 1,
                ;
            }
        }
        return Err(MetaInfoFileParseError::Layout);
    }
    proof {
        assert(count * pl <= u32::MAX * u32::MAX) by (nonlinear_arith)
            requires
                count <= u32::MAX,
                pl <= u32::MAX,
        ;
        assert((count - 1) * pl <= count * pl) by (nonlinear_arith)
            requires
                count >= 1,
                pl >= 0,
        ;
    }
    if !((count - 1) * pl < total && total <= count * pl) {
        return Err(MetaInfoFileParseError::Layout);
    }
    let pieces = piece_digests(piece_bytes);
    match single_length {
        Some(length) => {
            let path = name.clone();
            Ok(
                Info::SingleFile {
                    piece_length,
                    pieces,
                    name,
                    file: File { length, path },
                },
            )
        },
        None => Ok(Info::MultiFile { piece_length, pieces, directory_name: name, files }),
    }
}

/// The info dictionary of a metadata document, when there is one.
pub open spec fn info_of(doc: Datum) -> Seq<(Seq<u8>, Datum)> {
    lookup(doc->Dict_0, "info".spec_bytes())->Some_0->Dict_0
}

/// The announce URL bytes of a metadata document.
pub open spec fn announce_of(doc: Datum) -> Seq<u8> {
    lookup(doc->Dict_0, "announce".spec_bytes())->Some_0->Bytes_0
}

/// The first problem with a metadata document, if any.
pub open spec fn meta_error(doc: Datum) -> Option<MetaInfoFileParseError> {
    if !(doc is Dict) {
        Some(MetaInfoFileParseError::NotADictionary)
    } else if !(lookup(doc->Dict_0, "info".spec_bytes()) matches Some(i) && i is Dict) {
        Some(MetaInfoFileParseError::Info)
    } else if info_error(info_of(doc)) is Some {
        info_error(info_of(doc))
    } else if !(lookup(doc->Dict_0, "announce".spec_bytes()) matches Some(a) && is_text(a)) {
        Some(MetaInfoFileParseError::Announce)
    } else {
        None
    }
}

/// What a well-formed metadata document describes; the info-hash is the
/// SHA-1 digest of the canonical encoding of the info dictionary.
pub open spec fn meta_matches(m: MetaInfoFile, doc: Datum, separator: Seq<char>) -> bool {
    &&& info_matches(m.info, info_of(doc), separator)
    &&& m.announce@ == decode_utf8(announce_of(doc))
    &&& m.info_hash@ == sha1_of(encode_datum(Datum::Dict(info_of(doc))))
}

/// Finds the info dictionary of a document and reads it.
pub fn get_info(b: &Bencodable, separator: &str) -> (r: Result<Info, MetaInfoFileParseError>)
    ensures
        !(b@ is Dict) ==> r == Err::<Info, MetaInfoFileParseError>(
            MetaInfoFileParseError::NotADictionary,
        ),
        b@ is Dict && !(lookup(b@->Dict_0, "info".spec_bytes()) matches Some(i) && i is Dict)
            ==> r == Err::<Info, MetaInfoFileParseError>(MetaInfoFileParseError::Info),
        b@ is Dict && (lookup(b@->Dict_0, "info".spec_bytes()) matches Some(i) && i is Dict) ==> match r {
            Ok(info) => info_error(info_of(b@)) is None && info_matches(
                info,
                info_of(b@),
                separator@,
            ) && layout_ok(info),
            Err(e) => info_error(info_of(b@)) == Some(e),
        },
{
    proof {
        lemma_view_cases(*b);
    }
    match b {
        Bencodable::Dictionary(d) => match d.get("info".as_bytes()) {
            Some(v) => {
                proof {
                    lemma_view_cases(*v);
                }
                match v {
                    Bencodable::Dictionary(info) => get_info_from_btm(info, separator),
                    _ => Err(MetaInfoFileParseError::Info),
                }
            },
            None => Err(MetaInfoFileParseError::Info),
        },
        _ => Err(MetaInfoFileParseError::NotADictionary),
    }
}

impl MetaInfoFile {
    /// Reads the metadata from a decoded document; multi-file paths are
    /// joined with `separator` (the platform's path separator).
    pub fn from_bencodable(b: &Bencodable, separator: &str) -> (r: Result<
        MetaInfoFile,
        MetaInfoFileParseError,
    >)
        ensures
            match r {
                Ok(m) => meta_error(b@) is None && meta_matches(m, b@, separator@) && layout_ok(
                    m.info,
                ),
                Err(e) => meta_error(b@) == Some(e),
            },
    {
        let info = match get_info(b, separator) {
            Ok(info) => info,
            Err(e) => {
                return Err(e);
            },
        };
        proof {
            lemma_view_cases(*b);
        }
        let d = match b {
            Bencodable::Dictionary(d) => d,
            _ => {
                return Err(MetaInfoFileParseError::NotADictionary);
            },
        };
        let announce = match d.get("announce".as_bytes()) {
            Some(v) => {
                proof {
                    lemma_view_cases(*v);
                }
                match v {
                    Bencodable::ByteString(s) => match text_of(s) {
                        Some(t) => t,
                        None => {
                            return Err(MetaInfoFileParseError::Announce);
                        },
                    },
                    _ => {
                        return Err(MetaInfoFileParseError::Announce);
                    },
                }
            },
            None => {
                return Err(MetaInfoFileParseError::Announce);
            },
        };
        let info_value = match d.get("info".as_bytes()) {
            Some(v) => v,
            None => {
                return Err(MetaInfoFileParseError::Info);
            },
        };
        let encoded = match bencode(info_value) {
            Ok(bytes) => bytes,
            Err(_) => {
                return Err(MetaInfoFileParseError::Info);
            },
        };
        let info_hash = sha1_digest(encoded.as_slice());
        Ok(MetaInfoFile { info, announce, info_hash })
    }

    /// Decodes a metadata file's bytes and reads them; multi-file paths are
    /// joined with `separator` (the platform's path separator).
    pub fn from_bytes(bytes: &[u8], separator: &str) -> (r: Result<
        MetaInfoFile,
        MetaInfoFileParseError,
    >)
        ensures
            match decode_spec(bytes@) {
                Err((t, i)) => (r matches Err(MetaInfoFileParseError::Decode(e)) && e.error_type
                    == t && e.index == i),
                Ok(doc) => match r {
                    Ok(m) => meta_error(doc) is None && meta_matches(m, doc, separator@)
                        && layout_ok(m.info),
                    Err(e) => meta_error(doc) == Some(e),
                },
            },
    {
        match bdecode(bytes) {
            Ok(doc) => MetaInfoFile::from_bencodable(&doc, separator),
            Err(e) => Err(MetaInfoFileParseError::Decode(e)),
        }
    }

    fn pieces(&self) -> (r: &Pieces)
        ensures
            *r == info_pieces(self.info),
    {
        match &self.info {
            Info::SingleFile { pieces, .. } => pieces,
            Info::MultiFile { pieces, .. } => pieces,
        }
    }
}

/// The piece digests of either kind of info.
pub open spec fn info_pieces(info: Info) -> Pieces {
    match info {
        Info::SingleFile { pieces, .. } => pieces,
        Info::MultiFile { pieces, .. } => pieces,
    }
}

pub open spec fn info_piece_length(info: Info) -> u32 {
    match info {
        Info::SingleFile { piece_length, .. } => piece_length,
        Info::MultiFile { piece_length, .. } => piece_length,
    }
}

/// The content length: the single file's, or the sum over all files.
pub open spec fn info_total_length(info: Info) -> int {
    match info {
        Info::SingleFile { file, .. } => file.length as int,
        Info::MultiFile { files, .. } => total_file_length(files@),
    }
}

/// The info describes a layout the scheduler accepts: its digest count,
/// piece length and content length (which fits in 32 bits) agree.
pub open spec fn layout_ok(info: Info) -> bool {
    &&& info_total_length(info) <= u32::MAX
    &&& valid_layout(
        info_pieces(info).0@.len() as int,
        info_piece_length(info) as int,
        info_total_length(info),
    )
}

/// For accepted metadata the numbers handed to the scheduler are exact: no
/// capping happens, the content length is the sum of the file lengths (or
/// the single file's), and they form a layout the scheduler accepts.
pub proof fn lemma_accepted_layout_is_exact(info: Info)
    requires
        layout_ok(info),
    ensures
        capped(info_total_length(info)) == info_total_length(info),
        capped(info_pieces(info).0@.len() as int) == info_pieces(info).0@.len(),
        valid_layout(
            capped(info_pieces(info).0@.len() as int) as int,
            info_piece_length(info) as int,
            capped(info_total_length(info)) as int,
        ),
{
    let n = info_pieces(info).0@.len() as int;
    let pl = info_piece_length(info) as int;
    let total = info_total_length(info);
    assert((n - 1) * pl >= n - 1) by (nonlinear_arith)
        requires
            n >= 1,
            pl >= 1,
    ;
}

pub open spec fn capped(n: int) -> u32 {
    if n > u32::MAX {
        u32::MAX
    } else {
        n as u32
    }
}

proof fn lemma_total_file_length_nonnegative(files: Seq<File>)
    ensures
        total_file_length(files) >= 0,
    decreases files.len(),
{
    if files.len() > 0 {
        lemma_total_file_length_nonnegative(files.drop_last());
    }
}

impl PiecedContent for MetaInfoFile {
    /// The number of piece digests (capped at `u32::MAX`).
    fn number_of_pieces(&self) -> (r: u32)
        ensures
            r == capped(info_pieces(self.info).0@.len() as int),
    {
        let n = self.pieces().0.len();
        if n > u32::MAX as usize {
            u32::MAX
        } else {
            n as u32
        }
    }

    fn piece_length(&self) -> (r: u32)
        ensures
            r == info_piece_length(self.info),
    {
        match &self.info {
            Info::SingleFile { piece_length, .. } => *piece_length,
            Info::MultiFile { piece_length, .. } => *piece_length,
        }
    }

    /// The content length; a sum past `u32::MAX` (which metadata accepted
    /// here never has) saturates.
    fn total_length(&self) -> (r: u32)
        ensures
            r == capped(info_total_length(self.info)),
    {
        match &self.info {
            Info::SingleFile { file, .. } => file.length,
            Info::MultiFile { files, .. } => {
                let mut sum: u32 = 0;
                let mut i: usize = 0;
                assert(files@.subrange(0, 0) =~= Seq::<File>::empty());
                while i < files.len()
                    invariant
                        i <= files@.len(),
                        sum == capped(total_file_length(files@.subrange(0, i as int))),
                    decreases files@.len() - i,
                {
                    proof {
                        lemma_total_file_length_prefix(files@, i as int);
                        lemma_total_file_length_nonnegative(files@.subrange(0, i as int));
                    }
                    let length = files[i].length;
                    sum = if sum > u32::MAX - length {
                        u32::MAX
                    } else {
                        sum + length
                    };
                    i = i + 1;
                }
                assert(files@.subrange(0, i as int) =~= files@);
                sum
            },
        }
    }
}

} // verus!
