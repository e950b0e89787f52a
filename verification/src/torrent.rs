//! The torrent projection: validating a decoded bencode tree into a
//! `Torrent` record, with the digest of the raw `info` bytes.
//!
//! Every projection function is verified against a spec-level model
//! (`torrent_from_bytes` and its helpers) that mirrors the required
//! procedure field by field, error by error.

use vstd::prelude::*;
use crate::bencode::{
    dec, dec_entries, deep_pairs, deep_seq, enc, lemma_deep_pairs_index, lemma_deep_seq_index,
    lemma_lookup_absent, lemma_lookup_concat, lemma_lookup_first, lemma_lookup_remove_first,
    lookup, BSpec, Bencode, DEPTH_LIMIT,
};
use crate::decode::{bytes_eq, decode, decode_at, decode_str};
use crate::laws::{lemma_dec_sound, lemma_enc_pairs_contains};
use crate::outside::{bytes20, bytes_to_string, sha1_digest, sha1_of};
use vstd::utf8::{decode_utf8, valid_utf8};

verus! {

/// A validated torrent: tracker URL, layout, and the digest of the raw
/// bytes of the `info` dictionary as they stood in the input buffer.
#[derive(Debug, Clone)]
pub struct Torrent {
    pub announce: String,
    pub info: TorrentInfo,
    pub info_hash: SHA1Hash,
}

/// The layout carried by the `info` dictionary.
#[derive(Debug, Clone)]
pub struct TorrentInfo {
    pub name: String,
    pub files: Vec<TorrentFile>,
    pub piece_len: u64,
    pub pieces: Vec<SHA1Hash>,
}

/// One file of the torrent: its byte length and its path segments.
#[derive(Debug, Clone)]
pub struct TorrentFile {
    pub length: u64,
    pub path: Vec<String>,
}

/// A 20-byte SHA-1 digest.
#[derive(Debug, Clone, Copy, PartialEq, Eq, Hash)]
pub struct SHA1Hash(pub [u8; 20]);

/// Why a byte buffer failed to project into a `Torrent`.
#[derive(Debug, Clone, PartialEq, Eq)]
pub enum TorrentParsingError {
    NotADict,
    InvalidString,
    FieldNotFound(String),
    InvalidPieceLen,
    InvalidFileLen,
    InvalidPath,
    MismatchedPieceLength,
    InvalidBencode,
}

/// The model of a `TorrentFile`.
pub struct TFileSpec {
    pub length: int,
    pub path: Seq<Seq<char>>,
}

/// The model of a `TorrentInfo`.
pub struct TInfoSpec {
    pub name: Seq<char>,
    pub files: Seq<TFileSpec>,
    pub piece_len: int,
    pub pieces: Seq<Seq<u8>>,
}

/// The model of a `Torrent`.
pub struct TorrentSpec {
    pub announce: Seq<char>,
    pub info: TInfoSpec,
    pub info_hash: Seq<u8>,
}

/// The model of a `TorrentParsingError`.
pub enum TErr {
    NotADict,
    InvalidString,
    FieldNotFound(Seq<char>),
    InvalidPieceLen,
    InvalidFileLen,
    InvalidPath,
    MismatchedPieceLength,
    InvalidBencode,
}

impl View for SHA1Hash {
    type V = Seq<u8>;

    open spec fn view(&self) -> Seq<u8> {
        self.0@
    }
}

impl View for TorrentFile {
    type V = TFileSpec;

    open spec fn view(&self) -> TFileSpec {
        TFileSpec { length: self.length as int, path: self.path@.map_values(|p: String| p@) }
    }
}

impl View for TorrentInfo {
    type V = TInfoSpec;

    open spec fn view(&self) -> TInfoSpec {
        TInfoSpec {
            name: self.name@,
            files: self.files@.map_values(|f: TorrentFile| f@),
            piece_len: self.piece_len as int,
            pieces: self.pieces@.map_values(|h: SHA1Hash| h.0@),
        }
    }
}

impl View for Torrent {
    type V = TorrentSpec;

    open spec fn view(&self) -> TorrentSpec {
        TorrentSpec {
            announce: self.announce@,
            info: self.info@,
            info_hash: self.info_hash.0@,
        }
    }
}

impl View for TorrentParsingError {
    type V = TErr;

    open spec fn view(&self) -> TErr {
        match self {
            TorrentParsingError::NotADict => TErr::NotADict,
            TorrentParsingError::InvalidString => TErr::InvalidString,
            TorrentParsingError::FieldNotFound(f) => TErr::FieldNotFound(f@),
            TorrentParsingError::InvalidPieceLen => TErr::InvalidPieceLen,
            TorrentParsingError::InvalidFileLen => TErr::InvalidFileLen,
            TorrentParsingError::InvalidPath => TErr::InvalidPath,
            TorrentParsingError::MismatchedPieceLength => TErr::MismatchedPieceLength,
            TorrentParsingError::InvalidBencode => TErr::InvalidBencode,
        }
    }
}

/// The bytes of the key `announce`.
pub open spec fn key_announce() -> Seq<u8> {
    seq![97u8, 110u8, 110u8, 111u8, 117u8, 110u8, 99u8, 101u8]
}

/// The bytes of the key `info`.
pub open spec fn key_info() -> Seq<u8> {
    seq![105u8, 110u8, 102u8, 111u8]
}

/// The bytes of the key `name`.
pub open spec fn key_name() -> Seq<u8> {
    seq![110u8, 97u8, 109u8, 101u8]
}

/// The bytes of the key `files`.
pub open spec fn key_files() -> Seq<u8> {
    seq![102u8, 105u8, 108u8, 101u8, 115u8]
}

/// The bytes of the key `piece length`.
pub open spec fn key_piece_length() -> Seq<u8> {
    seq![112u8, 105u8, 101u8, 99u8, 101u8, 32u8, 108u8, 101u8, 110u8, 103u8, 116u8, 104u8]
}

/// The bytes of the key `pieces`.
pub open spec fn key_pieces() -> Seq<u8> {
    seq![112u8, 105u8, 101u8, 99u8, 101u8, 115u8]
}

/// The bytes of the key `length`.
pub open spec fn key_length() -> Seq<u8> {
    seq![108u8, 101u8, 110u8, 103u8, 116u8, 104u8]
}

/// The bytes of the key `path`.
pub open spec fn key_path() -> Seq<u8> {
    seq![112u8, 97u8, 116u8, 104u8]
}

/// The path segments of one file entry: every element must be a byte
/// string holding UTF-8 text; the first offending element decides.
pub open spec fn path_of(elems: Seq<BSpec>) -> Result<Seq<Seq<char>>, TErr>
    decreases elems.len(),
{
    if elems.len() == 0 {
        Ok(Seq::empty())
    } else {
        match elems[0] {
            BSpec::Str(b) => if valid_utf8(b) {
                match path_of(elems.subrange(1, elems.len() as int)) {
                    Ok(rest) => Ok(seq![decode_utf8(b)] + rest),
                    Err(e) => Err(e),
                }
            } else {
                Err(TErr::InvalidString)
            },
            _ => Err(TErr::InvalidPath),
        }
    }
}

/// The model of one file entry: a dictionary with a non-negative 64-bit
/// `length` and a `path` list of UTF-8 segments.
pub open spec fn project_file(v: BSpec) -> Result<TFileSpec, TErr> {
    match v {
        BSpec::Dict(pairs) => (match lookup(pairs, key_length()) {
            Some(BSpec::Int(n)) => if 0 <= n {
                match lookup(pairs, key_path()) {
                    Some(BSpec::List(elems)) => (match path_of(elems) {
                        Ok(segs) => Ok(TFileSpec { length: n, path: segs }),
                        Err(e) => Err(e),
                    }),
                    _ => Err(TErr::FieldNotFound("file[path]"@)),
                }
            } else {
                Err(TErr::InvalidFileLen)
            },
            _ => Err(TErr::FieldNotFound("file[length]"@)),
        }),
        _ => Err(TErr::NotADict),
    }
}

/// The models of the file entries, in order, first failure deciding.
pub open spec fn files_of(elems: Seq<BSpec>) -> Result<Seq<TFileSpec>, TErr>
    decreases elems.len(),
{
    if elems.len() == 0 {
        Ok(Seq::empty())
    } else {
        match project_file(elems[0]) {
            Ok(f) => (match files_of(elems.subrange(1, elems.len() as int)) {
                Ok(rest) => Ok(seq![f] + rest),
                Err(e) => Err(e),
            }),
            Err(e) => Err(e),
        }
    }
}

/// The `pieces` bytes cut into consecutive 20-byte digests, in order.
pub open spec fn chunks20(b: Seq<u8>) -> Seq<Seq<u8>> {
    Seq::new((b.len() / 20) as nat, |i: int| b.subrange(20 * i, 20 * i + 20))
}

/// The model of the `info` dictionary: `name` (UTF-8), `files`, a positive
/// 64-bit `piece length`, and `pieces` cut into 20-byte digests.
pub open spec fn project_info(v: BSpec) -> Result<TInfoSpec, TErr> {
    match v {
        BSpec::Dict(pairs) => (match lookup(pairs, key_name()) {
            Some(BSpec::Str(nb)) => if valid_utf8(nb) {
                match lookup(pairs, key_files()) {
                    Some(BSpec::List(elems)) => (match files_of(elems) {
                        Ok(fs) => (match lookup(pairs, key_piece_length()) {
                            Some(BSpec::Int(pl)) => if 1 <= pl {
                                match lookup(pairs, key_pieces()) {
                                    Some(BSpec::Str(pb)) => if pb.len() % 20 == 0 {
                                        Ok(
                                            TInfoSpec {
                                                name: decode_utf8(nb),
                                                files: fs,
                                                piece_len: pl,
                                                pieces: chunks20(pb),
                                            },
                                        )
                                    } else {
                                        Err(TErr::MismatchedPieceLength)
                                    },
                                    _ => Err(TErr::FieldNotFound("info[pieces]"@)),
                                }
                            } else {
                                Err(TErr::InvalidPieceLen)
                            },
                            _ => Err(TErr::FieldNotFound("info[piece length]"@)),
                        }),
                        Err(e) => Err(e),
                    }),
                    _ => Err(TErr::FieldNotFound("info[files]"@)),
                }
            } else {
                Err(TErr::InvalidString)
            },
            _ => Err(TErr::FieldNotFound("info[name]"@)),
        }),
        _ => Err(TErr::NotADict),
    }
}

/// The model of the whole projection: decode the buffer, require a
/// dictionary with a UTF-8 `announce` and an `info` entry, project the
/// `info` dictionary, and hash the raw encoded bytes of the `info` value.
pub open spec fn torrent_from_bytes(s: Seq<u8>) -> Result<TorrentSpec, TErr> {
    match dec(s) {
        Some((root, consumed)) => (match root {
            BSpec::Dict(pairs) => (match lookup(pairs, key_announce()) {
                Some(BSpec::Str(ab)) => if valid_utf8(ab) {
                    match lookup(pairs, key_info()) {
                        Some(iv) => (match project_info(iv) {
                            Ok(ti) => Ok(
                                TorrentSpec {
                                    announce: decode_utf8(ab),
                                    info: ti,
                                    info_hash: sha1_of(enc(iv)),
                                },
                            ),
                            Err(e) => Err(e),
                        }),
                        None => Err(TErr::FieldNotFound("info"@)),
                    }
                } else {
                    Err(TErr::InvalidString)
                },
                _ => Err(TErr::FieldNotFound("announce"@)),
            }),
            _ => Err(TErr::NotADict),
        }),
        None => Err(TErr::InvalidBencode),
    }
}

/// The bytes of `announce` as a buffer.
fn key_announce_vec() -> (r: Vec<u8>)
    ensures
        r@ == key_announce(),
{
    let r: Vec<u8> = vec![97u8, 110u8, 110u8, 111u8, 117u8, 110u8, 99u8, 101u8];
    proof {
        assert(r@ =~= key_announce());
    }
    r
}

/// The bytes of `info` as a buffer.
fn key_info_vec() -> (r: Vec<u8>)
    ensures
        r@ == key_info(),
{
    let r: Vec<u8> = vec![105u8, 110u8, 102u8, 111u8];
    proof {
        assert(r@ =~= key_info());
    }
    r
}

/// The bytes of `name` as a buffer.
fn key_name_vec() -> (r: Vec<u8>)
    ensures
        r@ == key_name(),
{
    let r: Vec<u8> = vec![110u8, 97u8, 109u8, 101u8];
    proof {
        assert(r@ =~= key_name());
    }
    r
}

/// The bytes of `files` as a buffer.
fn key_files_vec() -> (r: Vec<u8>)
    ensures
        r@ == key_files(),
{
    let r: Vec<u8> = vec![102u8, 105u8, 108u8, 101u8, 115u8];
    proof {
        assert(r@ =~= key_files());
    }
    r
}

/// The bytes of `piece length` as a buffer.
fn key_piece_length_vec() -> (r: Vec<u8>)
    ensures
        r@ == key_piece_length(),
{
    let r: Vec<u8> = vec![
        112u8,
        105u8,
        101u8,
        99u8,
        101u8,
        32u8,
        108u8,
        101u8,
        110u8,
        103u8,
        116u8,
        104u8,
    ];
    proof {
        assert(r@ =~= key_piece_length());
    }
    r
}

/// The bytes of `pieces` as a buffer.
fn key_pieces_vec() -> (r: Vec<u8>)
    ensures
        r@ == key_pieces(),
{
    let r: Vec<u8> = vec![112u8, 105u8, 101u8, 99u8, 101u8, 115u8];
    proof {
        assert(r@ =~= key_pieces());
    }
    r
}

/// The bytes of `length` as a buffer.
fn key_length_vec() -> (r: Vec<u8>)
    ensures
        r@ == key_length(),
{
    let r: Vec<u8> = vec![108u8, 101u8, 110u8, 103u8, 116u8, 104u8];
    proof {
        assert(r@ =~= key_length());
    }
    r
}

/// The bytes of `path` as a buffer.
fn key_path_vec() -> (r: Vec<u8>)
    ensures
        r@ == key_path(),
{
    let r: Vec<u8> = vec![112u8, 97u8, 116u8, 104u8];
    proof {
        assert(r@ =~= key_path());
    }
    r
}

/// Removes the first entry carrying `key` and hands its value out; every
/// other key still looks up to the same value afterwards.
fn dict_remove(dict: &mut Vec<(Vec<u8>, Bencode)>, key: &[u8]) -> (r: Option<Bencode>)
    ensures
        (match r {
            Some(v) => lookup(deep_pairs(old(dict)@), key@) == Some(v.deep()),
            None => lookup(deep_pairs(old(dict)@), key@) is None && final(dict)@ == old(dict)@,
        }),
        forall|k: Seq<u8>|
            k != key@ ==> lookup(deep_pairs(final(dict)@), k) == lookup(
                deep_pairs(old(dict)@),
                k,
            ),
{
    let n = dict.len();
    let mut i: usize = 0;
    while i < n
        invariant
            0 <= i <= n,
            n == dict@.len(),
            dict@ == old(dict)@,
            forall|j: int| 0 <= j < i ==> (#[trigger] dict@[j]).0@ != key@,
        decreases n - i,
    {
        if bytes_eq(dict[i].0.as_slice(), key) {
            proof {
                let pre = dict@;
                lemma_deep_pairs_index(pre);
                assert forall|j: int| 0 <= j < i implies (#[trigger] deep_pairs(pre)[j]).0 != key@
                by {
                    assert(deep_pairs(pre)[j] == (pre[j].0@, pre[j].1.deep()));
                }
                lemma_lookup_first(deep_pairs(pre), i as int, key@);
                assert forall|k: Seq<u8>| k != key@ implies lookup(
                    deep_pairs(pre).remove(i as int),
                    k,
                ) == lookup(deep_pairs(pre), k) by {
                    lemma_lookup_remove_first(deep_pairs(pre), i as int, k);
                }
            }
            let ghost pre = dict@;
            let pair = dict.remove(i);
            proof {
                lemma_deep_pairs_index(pre);
                lemma_deep_pairs_index(dict@);
                assert(deep_pairs(dict@) =~= deep_pairs(pre).remove(i as int));
            }
            return Some(pair.1);
        }
        i = i + 1;
    }
    proof {
        lemma_deep_pairs_index(dict@);
        assert forall|j: int| 0 <= j < deep_pairs(dict@).len() implies (#[trigger] deep_pairs(
            dict@,
        )[j]).0 != key@ by {
            assert(deep_pairs(dict@)[j] == (dict@[j].0@, dict@[j].1.deep()));
        }
        lemma_lookup_absent(deep_pairs(dict@), key@);
    }
    None
}

impl TorrentFile {
    /// Validates one `files` entry: a dictionary whose `length` is a
    /// non-negative 64-bit integer and whose `path` is a list of UTF-8
    /// byte strings, handed back as path segments in order.
    #[verifier::loop_isolation(false)]
    pub fn try_from(file_bencode: Bencode) -> (r: Result<TorrentFile, TorrentParsingError>)
        ensures
            (match r {
                Ok(f) => project_file(file_bencode.deep()) == Ok::<TFileSpec, TErr>(f@),
                Err(e) => project_file(file_bencode.deep()) == Err::<TFileSpec, TErr>(e@),
            }),
    {
        let mut dict = match file_bencode {
            Bencode::Dictionary(d) => d,
            _ => {
                return Err(TorrentParsingError::NotADict);
            },
        };
        let ghost pairs0 = deep_pairs(dict@);
        let n: i64 = match dict_remove(&mut dict, key_length_vec().as_slice()) {
            Some(Bencode::Integer(n)) => n,
            _ => {
                return Err(TorrentParsingError::FieldNotFound("file[length]".to_owned()));
            },
        };
        if n < 0 {
            return Err(TorrentParsingError::InvalidFileLen);
        }
        proof {
            assert(lookup(deep_pairs(dict@), key_path()) == lookup(pairs0, key_path()));
        }
        let mut elems = match dict_remove(&mut dict, key_path_vec().as_slice()) {
            Some(Bencode::List(es)) => es,
            _ => {
                return Err(TorrentParsingError::FieldNotFound("file[path]".to_owned()));
            },
        };
        let ghost all = deep_seq(elems@);
        let mut segs: Vec<String> = Vec::new();
        proof {
            assert(segs@.map_values(|p: String| p@) =~= Seq::<Seq<char>>::empty());
            assert(path_of(all) matches Ok(rem) ==> Seq::<Seq<char>>::empty() + rem =~= rem);
        }
        while elems.len() > 0
            invariant
                (match path_of(deep_seq(elems@)) {
                    Ok(rem) => path_of(all) == Ok::<Seq<Seq<char>>, TErr>(
                        segs@.map_values(|p: String| p@) + rem,
                    ),
                    Err(e) => path_of(all) == Err::<Seq<Seq<char>>, TErr>(e),
                }),
            decreases elems@.len(),
        {
            let ghost pre = elems@;
            let v = elems.remove(0);
            proof {
                lemma_deep_seq_index(pre);
                lemma_deep_seq_index(elems@);
                assert(deep_seq(pre)[0] == v.deep());
                assert(deep_seq(elems@) =~= deep_seq(pre).subrange(
                    1,
                    deep_seq(pre).len() as int,
                ));
            }
            match v {
                Bencode::ByteString(b) => {
                    let ghost bs = b@;
                    match bytes_to_string(b) {
                        Some(s) => {
                            proof {
                                let m0 = segs@.map_values(|p: String| p@);
                                assert((segs@.push(s)).map_values(|p: String| p@) =~= m0.push(
                                    s@,
                                ));
                                assert(path_of(deep_seq(elems@)) matches Ok(rem2) ==> m0 + (
                                seq![decode_utf8(bs)] + rem2) =~= m0.push(s@) + rem2);
                            }
                            segs.push(s);
                        },
                        None => {
                            return Err(TorrentParsingError::InvalidString);
                        },
                    }
                },
                _ => {
                    return Err(TorrentParsingError::InvalidPath);
                },
            }
        }
        proof {
            assert(deep_seq(elems@) =~= Seq::<BSpec>::empty());
            assert(path_of(deep_seq(elems@)) == Ok::<Seq<Seq<char>>, TErr>(Seq::empty()));
            assert(segs@.map_values(|p: String| p@) + Seq::<Seq<char>>::empty() =~= segs@.map_values(
                |p: String| p@,
            ));
        }
        Ok(TorrentFile { length: n as u64, path: segs })
    }
}

impl TorrentInfo {
    /// Validates the `info` dictionary: a UTF-8 `name`, the `files` list
    /// in order, a positive 64-bit `piece length`, and `pieces` cut into
    /// 20-byte digests in order.
    #[verifier::loop_isolation(false)]
    pub fn try_from(info_bencode: Bencode) -> (r: Result<TorrentInfo, TorrentParsingError>)
        ensures
            (match r {
                Ok(ti) => project_info(info_bencode.deep()) == Ok::<TInfoSpec, TErr>(ti@),
                Err(e) => project_info(info_bencode.deep()) == Err::<TInfoSpec, TErr>(e@),
            }),
    {
        let mut dict = match info_bencode {
            Bencode::Dictionary(d) => d,
            _ => {
                return Err(TorrentParsingError::NotADict);
            },
        };
        let ghost pairs0 = deep_pairs(dict@);
        let name = match dict_remove(&mut dict, key_name_vec().as_slice()) {
            Some(Bencode::ByteString(nb)) => match bytes_to_string(nb) {
                Some(s) => s,
                None => {
                    return Err(TorrentParsingError::InvalidString);
                },
            },
            _ => {
                return Err(TorrentParsingError::FieldNotFound("info[name]".to_owned()));
            },
        };
        proof {
            assert(lookup(deep_pairs(dict@), key_files()) == lookup(pairs0, key_files()));
            assert(lookup(deep_pairs(dict@), key_piece_length()) == lookup(
                pairs0,
                key_piece_length(),
            ));
            assert(lookup(deep_pairs(dict@), key_pieces()) == lookup(pairs0, key_pieces()));
        }
        let ghost pairs1 = deep_pairs(dict@);
        let mut elems = match dict_remove(&mut dict, key_files_vec().as_slice()) {
            Some(Bencode::List(es)) => es,
            _ => {
                return Err(TorrentParsingError::FieldNotFound("info[files]".to_owned()));
            },
        };
        proof {
            assert(lookup(deep_pairs(dict@), key_piece_length()) == lookup(
                pairs1,
                key_piece_length(),
            ));
            assert(lookup(deep_pairs(dict@), key_pieces()) == lookup(pairs1, key_pieces()));
        }
        let ghost all_files = deep_seq(elems@);
        let mut files: Vec<TorrentFile> = Vec::new();
        proof {
            assert(files@.map_values(|f: TorrentFile| f@) =~= Seq::<TFileSpec>::empty());
            assert(files_of(all_files) matches Ok(rem) ==> Seq::<TFileSpec>::empty() + rem
                =~= rem);
        }
        while elems.len() > 0
            invariant
                (match files_of(deep_seq(elems@)) {
                    Ok(rem) => files_of(all_files) == Ok::<Seq<TFileSpec>, TErr>(
                        files@.map_values(|f: TorrentFile| f@) + rem,
                    ),
                    Err(e) => files_of(all_files) == Err::<Seq<TFileSpec>, TErr>(e),
                }),
            decreases elems@.len(),
        {
            let ghost pre = elems@;
            let fb = elems.remove(0);
            proof {
                lemma_deep_seq_index(pre);
                lemma_deep_seq_index(elems@);
                assert(deep_seq(pre)[0] == fb.deep());
                assert(deep_seq(elems@) =~= deep_seq(pre).subrange(
                    1,
                    deep_seq(pre).len() as int,
                ));
            }
            match TorrentFile::try_from(fb) {
                Ok(f) => {
                    proof {
                        let m0 = files@.map_values(|g: TorrentFile| g@);
                        assert((files@.push(f)).map_values(|g: TorrentFile| g@) =~= m0.push(f@));
                        assert(files_of(deep_seq(elems@)) matches Ok(rem2) ==> m0 + (seq![f@]
                            + rem2) =~= m0.push(f@) + rem2);
                    }
                    files.push(f);
                },
                Err(e) => {
                    return Err(e);
                },
            }
        }
        proof {
            assert(deep_seq(elems@) =~= Seq::<BSpec>::empty());
            assert(files_of(deep_seq(elems@)) == Ok::<Seq<TFileSpec>, TErr>(Seq::empty()));
            assert(files@.map_values(|f: TorrentFile| f@) + Seq::<TFileSpec>::empty()
                =~= files@.map_values(|f: TorrentFile| f@));
        }
        let pl = match dict_remove(&mut dict, key_piece_length_vec().as_slice()) {
            Some(Bencode::Integer(pl)) => pl,
            _ => {
                return Err(TorrentParsingError::FieldNotFound("info[piece length]".to_owned()));
            },
        };
        if pl < 1 {
            return Err(TorrentParsingError::InvalidPieceLen);
        }
        proof {
            assert(lookup(deep_pairs(dict@), key_pieces()) == lookup(pairs1, key_pieces()));
        }
        let all_pieces = match dict_remove(&mut dict, key_pieces_vec().as_slice()) {
            Some(Bencode::ByteString(pb)) => pb,
            _ => {
                return Err(TorrentParsingError::FieldNotFound("info[pieces]".to_owned()));
            },
        };
        let total = all_pieces.len();
        if total % 20 != 0 {
            return Err(TorrentParsingError::MismatchedPieceLength);
        }
        let mut pieces: Vec<SHA1Hash> = Vec::new();
        let mut off: usize = 0;
        while off < total
            invariant
                off <= total,
                off % 20 == 0,
                pieces@.len() * 20 == off,
                forall|i: int|
                    0 <= i < pieces@.len() ==> (#[trigger] pieces@[i]).0@ == all_pieces@.subrange(
                        20 * i,
                        20 * i + 20,
                    ),
            decreases total - off,
        {
            proof {
                assert(total - off >= 20) by (nonlinear_arith)
                    requires
                        off < total,
                        off % 20 == 0,
                        total % 20 == 0,
                ;
            }
            let chunk = bytes20(vstd::slice::slice_subrange(all_pieces.as_slice(), off, off + 20));
            pieces.push(SHA1Hash(chunk));
            off = off + 20;
        }
        let ti = TorrentInfo { name, files, piece_len: pl as u64, pieces };
        proof {
            assert(pieces@.len() == all_pieces@.len() / 20) by (nonlinear_arith)
                requires
                    pieces@.len() * 20 == off,
                    off == total,
                    total == all_pieces@.len(),
            ;
            assert(ti@.pieces =~= chunks20(all_pieces@));
        }
        Ok(ti)
    }
}

/// Finds the byte span of the value bound to the `info` key of the root
/// dictionary, walking the grammar exactly as the decoder does, so the
/// span holds precisely the encoding of that value.
#[verifier::loop_isolation(false)]
fn info_span(buf: &[u8]) -> (r: Option<(usize, usize)>)
    ensures
        (match dec(buf@) {
            Some((root, consumed)) => (match root {
                BSpec::Dict(pairs) => (match lookup(pairs, key_info()) {
                    Some(iv) => (match r {
                        Some((a, b)) => a <= b <= buf@.len() && buf@.subrange(
                            a as int,
                            b as int,
                        ) == enc(iv),
                        None => false,
                    }),
                    None => true,
                }),
                _ => true,
            }),
            None => true,
        }),
{
    let len = buf.len();
    if len == 0 {
        return None;
    }
    if buf[0] != 100 {
        return None;
    }
    let dn: usize = DEPTH_LIMIT - 1;
    let key = key_info_vec();
    let mut cur: usize = 1;
    let ghost mut walked: Seq<(Seq<u8>, BSpec)> = Seq::empty();
    proof {
        assert(dec_entries(buf@, 1int, dn as nat) matches Some((rest, fin)) ==> walked + rest
            =~= rest);
    }
    loop
        invariant
            1 <= cur <= len,
            len == buf@.len(),
            buf@[0] == 100,
            dn == DEPTH_LIMIT - 1,
            forall|j: int| 0 <= j < walked.len() ==> (#[trigger] walked[j]).0 != key_info(),
            (match dec_entries(buf@, cur as int, dn as nat) {
                Some((rest, fin)) => dec_entries(buf@, 1int, dn as nat) == Some(
                    (walked + rest, fin),
                ),
                None => dec_entries(buf@, 1int, dn as nat) is None,
            }),
        decreases len - cur,
    {
        if cur >= len {
            return None;
        }
        if buf[cur] == 101 {
            proof {
                if dec_entries(buf@, cur as int, dn as nat) is Some {
                    lemma_lookup_absent(walked, key_info());
                    assert(walked + Seq::<(Seq<u8>, BSpec)>::empty() =~= walked);
                }
            }
            return None;
        }
        if !(48 <= buf[cur] && buf[cur] <= 57) {
            return None;
        }
        let (kb, mid) = match decode_str(buf, cur) {
            None => {
                return None;
            },
            Some(km) => km,
        };
        match decode_at(buf, mid, dn) {
            None => {
                return None;
            },
            Some((v, end)) => {
                if bytes_eq(kb.as_slice(), key.as_slice()) {
                    proof {
                        lemma_dec_sound(buf@, mid as int, dn as nat);
                        if dec_entries(buf@, end as int, dn as nat) is Some {
                            let (rest2, fin2) = dec_entries(buf@, end as int, dn as nat)->Some_0;
                            lemma_lookup_absent(walked, key_info());
                            lemma_lookup_concat(walked, seq![(kb@, v.deep())] + rest2, key_info());
                            assert((seq![(kb@, v.deep())] + rest2)[0] == (kb@, v.deep()));
                        }
                    }
                    return Some((mid, end));
                }
                proof {
                    assert(kb@ != key_info());
                    let w2 = walked.push((kb@, v.deep()));
                    assert(dec_entries(buf@, end as int, dn as nat) matches Some((rest2, fin2))
                        ==> walked + (seq![(kb@, v.deep())] + rest2) =~= w2 + rest2);
                    walked = w2;
                }
                cur = end;
            },
        }
    }
}

/// The digest input is a verbatim substring of the original transmission:
/// whenever a buffer projects to a torrent, some contiguous span of that
/// buffer holds exactly the encoded `info` value, and the `info_hash` is
/// the SHA-1 digest of that very span — never of a re-encoding.
pub proof fn lemma_info_hash_is_raw_digest(s: Seq<u8>)
    requires
        torrent_from_bytes(s) is Ok,
    ensures
        exists|a: int, b: int|
            0 <= a <= b <= s.len() && torrent_from_bytes(s)->Ok_0.info_hash == sha1_of(
                s.subrange(a, b),
            ),
{
    let (root, n) = dec(s)->Some_0;
    let pairs = root->Dict_0;
    let iv = lookup(pairs, key_info())->Some_0;
    lemma_dec_sound(s, 0, DEPTH_LIMIT as nat);
    let (a0, b0) = lemma_enc_pairs_contains(pairs, key_info());
    let body = crate::bencode::enc_pairs(pairs);
    let a = 1 + a0;
    let b = 1 + b0;
    assert(s.subrange(0, n) == enc(root));
    assert(enc(root) =~= seq![100u8] + body + seq![101u8]);
    assert(s.subrange(0, n).len() == n);
    assert((seq![100u8] + body + seq![101u8]).len() == 1 + body.len() + 1);
    assert(n == 2 + body.len());
    assert(0 <= a <= b <= s.len());
    assert(body.subrange(a0, b0).len() == b0 - a0);
    assert(enc(iv).len() == b0 - a0);
    assert forall|i: int| 0 <= i < b0 - a0 implies s.subrange(a, b)[i] == enc(iv)[i] by {
        assert(s.subrange(0, n)[a + i] == (seq![100u8] + body + seq![101u8])[a + i]);
        assert((seq![100u8] + body + seq![101u8])[a + i] == body[a0 + i]);
        assert(body.subrange(a0, b0)[i] == body[a0 + i]);
    }
    assert(s.subrange(a, b) =~= enc(iv));
    assert(0 <= a <= b <= s.len() && torrent_from_bytes(s)->Ok_0.info_hash == sha1_of(
        s.subrange(a, b),
    ));
}

/// The lowercase hexadecimal digit of a value below 16.
pub open spec fn hex_digit(n: u8) -> char {
    if n < 10 {
        ((48 + n) as u8) as char
    } else {
        ((87 + n) as u8) as char
    }
}

/// The bytes rendered as lowercase hexadecimal, two characters per byte,
/// no separators.
pub open spec fn hex_chars(b: Seq<u8>) -> Seq<char> {
    Seq::new(
        b.len() * 2,
        |i: int|
            if i % 2 == 0 {
                hex_digit(b[i / 2] / 16)
            } else {
                hex_digit(b[i / 2] % 16)
            },
    )
}

/// The byte of a lowercase hexadecimal digit below 16.
fn hex_digit_byte(n: u8) -> (r: u8)
    requires
        n < 16,
    ensures
        r as char == hex_digit(n),
        r < 128,
{
    if n < 10 {
        48 + n
    } else {
        87 + n
    }
}

impl SHA1Hash {
    /// The digest as 40 lowercase hexadecimal characters, two per byte.
    #[verifier::loop_isolation(false)]
    pub fn to_hex(&self) -> (r: String)
        ensures
            r@ == hex_chars(self.0@),
    {
        let mut bytes: Vec<u8> = Vec::new();
        let mut i: usize = 0;
        while i < 20
            invariant
                i <= 20,
                bytes@.len() == 2 * i,
                forall|j: int|
                    0 <= j < bytes@.len() ==> #[trigger] bytes@[j] == hex_chars(self.0@)[j] as u8
                        && bytes@[j] < 128,
            decreases 20 - i,
        {
            let hi = self.0[i] / 16;
            let lo = self.0[i] % 16;
            bytes.push(hex_digit_byte(hi));
            bytes.push(hex_digit_byte(lo));
            i = i + 1;
        }
        let ghost cs = hex_chars(self.0@);
        proof {
            broadcast use vstd::utf8::is_ascii_chars_encode_utf8;
            broadcast use vstd::utf8::encode_utf8_valid_utf8;
            broadcast use vstd::utf8::encode_utf8_decode_utf8;

            assert(vstd::utf8::is_ascii_chars(cs));
            assert(bytes@ =~= vstd::utf8::encode_utf8(cs));
        }
        match bytes_to_string(bytes) {
            Some(s) => s,
            None => {
                proof {
                    assert(false);
                }
                String::new()
            },
        }
    }
}

impl Torrent {
    /// Decodes a whole metainfo buffer into a validated `Torrent`.
    ///
    /// The `info_hash` is the SHA-1 digest of the raw bytes the `info`
    /// value occupied in the buffer, never of a re-encoding.
    pub fn try_from(torrent_bytes: Vec<u8>) -> (r: Result<Torrent, TorrentParsingError>)
        ensures
            (match r {
                Ok(t) => torrent_from_bytes(torrent_bytes@) == Ok::<TorrentSpec, TErr>(t@),
                Err(e) => torrent_from_bytes(torrent_bytes@) == Err::<TorrentSpec, TErr>(e@),
            }),
    {
        let buf = torrent_bytes.as_slice();
        let (root, _consumed) = match decode(buf) {
            Some(p) => p,
            None => {
                return Err(TorrentParsingError::InvalidBencode);
            },
        };
        let mut dict = match root {
            Bencode::Dictionary(d) => d,
            _ => {
                return Err(TorrentParsingError::NotADict);
            },
        };
        let ghost pairs0 = deep_pairs(dict@);
        let announce = match dict_remove(&mut dict, key_announce_vec().as_slice()) {
            Some(Bencode::ByteString(ab)) => match bytes_to_string(ab) {
                Some(s) => s,
                None => {
                    return Err(TorrentParsingError::InvalidString);
                },
            },
            _ => {
                return Err(TorrentParsingError::FieldNotFound("announce".to_owned()));
            },
        };
        proof {
            assert(lookup(deep_pairs(dict@), key_info()) == lookup(pairs0, key_info()));
        }
        let infov = match dict_remove(&mut dict, key_info_vec().as_slice()) {
            Some(v) => v,
            None => {
                return Err(TorrentParsingError::FieldNotFound("info".to_owned()));
            },
        };
        let ghost ivd = infov.deep();
        let info = match TorrentInfo::try_from(infov) {
            Ok(ti) => ti,
            Err(e) => {
                return Err(e);
            },
        };
        let (a, b) = match info_span(buf) {
            Some(p) => p,
            None => {
                proof {
                    assert(false);
                }
                return Err(TorrentParsingError::InvalidBencode);
            },
        };
        let digest = sha1_digest(vstd::slice::slice_subrange(buf, a, b));
        Ok(Torrent { announce, info, info_hash: SHA1Hash(digest) })
    }
}

} // verus!
