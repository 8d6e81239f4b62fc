use vstd::prelude::*;
use vstd::string::StringSliceAdditionalSpecFns;
use crate::chunks::{record, split_records};
use crate::decoding::{decode_all, truncated, whole_term, MAX_DEPTH};
use crate::encoding::enc;
use crate::error::TorrentError;
use crate::hashing::{hex_text, info_hash, sha1_digest, to_hex};
use crate::lookup::lookup;
use crate::text::{text_of, utf8_decode};
use crate::value::{Bencode, BencodeValue};

verus! {

/// Size of one SHA-1 piece hash.
pub const HASH_LEN: usize = 20;

/// The metadata of a single-file torrent.
pub struct TorrentInfo {
    pub length: i64,
    pub name: String,
    pub piece_length: i64,
    /// One 20-byte SHA-1 hash per piece, in piece order.
    pub pieces: Vec<Vec<u8>>,
    /// SHA-1 of the bencoding of the `info` dictionary as decoded.
    pub info_hash: Vec<u8>,
}

/// A `.torrent` file: the tracker's announce URL and the file's metadata.
pub struct Torrent {
    pub announce_url: Vec<u8>,
    pub info: TorrentInfo,
}

/// The byte string under key `k`.
pub open spec fn bytes_field(v: Bencode, k: Seq<u8>) -> Result<Seq<u8>, TorrentError> {
    match lookup(v, k) {
        None => Err(TorrentError::MissingField),
        Some(Bencode::Bytes(b)) => Ok(b),
        Some(_) => Err(TorrentError::TypeMismatch),
    }
}

/// The integer under key `k`.
pub open spec fn int_field(v: Bencode, k: Seq<u8>) -> Result<int, TorrentError> {
    match lookup(v, k) {
        None => Err(TorrentError::MissingField),
        Some(Bencode::Int(i)) => Ok(i),
        Some(_) => Err(TorrentError::TypeMismatch),
    }
}

/// The dictionary under key `k`.
pub open spec fn dict_field(v: Bencode, k: Seq<u8>) -> Result<Bencode, TorrentError> {
    match lookup(v, k) {
        None => Err(TorrentError::MissingField),
        Some(Bencode::Dict(d)) => Ok(Bencode::Dict(d)),
        Some(_) => Err(TorrentError::TypeMismatch),
    }
}

pub open spec fn announce_key() -> Seq<u8> {
    "announce".spec_bytes()
}

pub open spec fn info_key() -> Seq<u8> {
    "info".spec_bytes()
}

pub open spec fn length_key() -> Seq<u8> {
    "length".spec_bytes()
}

pub open spec fn name_key() -> Seq<u8> {
    "name".spec_bytes()
}

pub open spec fn piece_length_key() -> Seq<u8> {
    "piece length".spec_bytes()
}

pub open spec fn pieces_key() -> Seq<u8> {
    "pieces".spec_bytes()
}

/// The `info` dictionary of a metainfo term that has one.
pub open spec fn info_of(top: Bencode) -> Bencode {
    dict_field(top, info_key())->Ok_0
}

/// Why a decoded metainfo term is not a single-file torrent, checked in this
/// order: the top-level kind, `announce`, `info`, then `length`, `name`,
/// `piece length` and `pieces` within `info`, the name's UTF-8, the size of
/// the piece table.
pub open spec fn metainfo_error(top: Bencode) -> Option<TorrentError> {
    let info = info_of(top);
    if !(top is Dict) {
        Some(TorrentError::TypeMismatch)
    } else if bytes_field(top, announce_key()) is Err {
        Some(bytes_field(top, announce_key())->Err_0)
    } else if dict_field(top, info_key()) is Err {
        Some(dict_field(top, info_key())->Err_0)
    } else if int_field(info, length_key()) is Err {
        Some(int_field(info, length_key())->Err_0)
    } else if bytes_field(info, name_key()) is Err {
        Some(bytes_field(info, name_key())->Err_0)
    } else if int_field(info, piece_length_key()) is Err {
        Some(int_field(info, piece_length_key())->Err_0)
    } else if bytes_field(info, pieces_key()) is Err {
        Some(bytes_field(info, pieces_key())->Err_0)
    } else if utf8_decode(bytes_field(info, name_key())->Ok_0) is None {
        Some(TorrentError::InvalidUtf8)
    } else if bytes_field(info, pieces_key())->Ok_0.len() % 20 != 0 {
        Some(TorrentError::InvalidLength)
    } else {
        None
    }
}

/// The piece table holds the consecutive 20-byte slices of `raw`.
pub open spec fn is_piece_table(pieces: Seq<Vec<u8>>, raw: Seq<u8>) -> bool {
    &&& pieces.len() == raw.len() / 20
    &&& forall|i: int| 0 <= i < pieces.len() ==> (#[trigger] pieces[i])@ == record(raw, 20, i)
}

/// What a torrent extracted from the metainfo term `top` holds.
pub open spec fn torrent_of(t: Torrent, top: Bencode) -> bool {
    let info = info_of(top);
    &&& t.announce_url@ == bytes_field(top, announce_key())->Ok_0
    &&& t.info.length == int_field(info, length_key())->Ok_0
    &&& utf8_decode(bytes_field(info, name_key())->Ok_0) == Some(t.info.name@)
    &&& t.info.piece_length == int_field(info, piece_length_key())->Ok_0
    &&& is_piece_table(t.info.pieces@, bytes_field(info, pieces_key())->Ok_0)
    &&& t.info.info_hash@ == sha1_digest(enc(info))
}

pub(crate) fn bytes_at<'a>(v: &'a BencodeValue, k: &[u8]) -> (r: Result<&'a Vec<u8>, TorrentError>)
    ensures
        r is Ok ==> bytes_field(v@, k@) == Ok::<Seq<u8>, TorrentError>(r->Ok_0@),
        r is Err ==> bytes_field(v@, k@) == Err::<Seq<u8>, TorrentError>(r->Err_0),
{
    match v.get(k) {
        None => Err(TorrentError::MissingField),
        Some(BencodeValue::ByteString(b)) => Ok(b),
        Some(_) => Err(TorrentError::TypeMismatch),
    }
}

pub(crate) fn int_at(v: &BencodeValue, k: &[u8]) -> (r: Result<i64, TorrentError>)
    ensures
        r is Ok ==> int_field(v@, k@) == Ok::<int, TorrentError>(r->Ok_0 as int),
        r is Err ==> int_field(v@, k@) == Err::<int, TorrentError>(r->Err_0),
{
    match v.get(k) {
        None => Err(TorrentError::MissingField),
        Some(BencodeValue::Integer(i)) => Ok(*i),
        Some(_) => Err(TorrentError::TypeMismatch),
    }
}

fn dict_at<'a>(v: &'a BencodeValue, k: &[u8]) -> (r: Result<&'a BencodeValue, TorrentError>)
    ensures
        r is Ok ==> dict_field(v@, k@) == Ok::<Bencode, TorrentError>(r->Ok_0@),
        r is Err ==> dict_field(v@, k@) == Err::<Bencode, TorrentError>(r->Err_0),
{
    match v.get(k) {
        None => Err(TorrentError::MissingField),
        Some(d) => {
            match d {
                BencodeValue::Dictionary(_) => Ok(d),
                _ => Err(TorrentError::TypeMismatch),
            }
        },
    }
}

/// Slices the `pieces` string into 20-byte hashes, in order.
pub fn split_pieces(raw: &[u8]) -> (r: Result<Vec<Vec<u8>>, TorrentError>)
    ensures
        r is Err <==> raw@.len() % 20 != 0,
        r is Err ==> r == Err::<Vec<Vec<u8>>, TorrentError>(TorrentError::InvalidLength),
        r is Ok ==> is_piece_table(r->Ok_0@, raw@),
{
    if raw.len() % HASH_LEN != 0 {
        return Err(TorrentError::InvalidLength);
    }
    Ok(split_records(raw, HASH_LEN))
}

/// Builds a torrent from a decoded metainfo term. The info-hash is taken
/// over the `info` dictionary exactly as it was decoded.
pub fn extract(top: &BencodeValue) -> (r: Result<Torrent, TorrentError>)
    ensures
        r is Ok <==> metainfo_error(top@) is None,
        r is Err ==> metainfo_error(top@) == Some(r->Err_0),
        r is Ok ==> torrent_of(r->Ok_0, top@),
{
    match top {
        BencodeValue::Dictionary(_) => {},
        _ => {
            return Err(TorrentError::TypeMismatch);
        },
    }
    let announce = match bytes_at(top, "announce".as_bytes()) {
        Ok(b) => b,
        Err(e) => {
            return Err(e);
        },
    };
    let info = match dict_at(top, "info".as_bytes()) {
        Ok(d) => d,
        Err(e) => {
            return Err(e);
        },
    };
    let length = match int_at(info, "length".as_bytes()) {
        Ok(i) => i,
        Err(e) => {
            return Err(e);
        },
    };
    let name_bytes = match bytes_at(info, "name".as_bytes()) {
        Ok(b) => b,
        Err(e) => {
            return Err(e);
        },
    };
    let piece_length = match int_at(info, "piece length".as_bytes()) {
        Ok(i) => i,
        Err(e) => {
            return Err(e);
        },
    };
    let raw_pieces = match bytes_at(info, "pieces".as_bytes()) {
        Ok(b) => b,
        Err(e) => {
            return Err(e);
        },
    };
    let name = match text_of(name_bytes.as_slice()) {
        Ok(s) => s,
        Err(e) => {
            return Err(e);
        },
    };
    let pieces = match split_pieces(raw_pieces.as_slice()) {
        Ok(p) => p,
        Err(e) => {
            return Err(e);
        },
    };
    let hash = info_hash(info);
    let announce_url = announce.clone();
    Ok(Torrent {
        announce_url,
        info: TorrentInfo { length, name, piece_length, pieces, info_hash: hash },
    })
}

/// Reads a `.torrent` file's bytes: one bencoded term, then `extract`.
pub fn read_torrent(data: &[u8]) -> (r: Result<Torrent, TorrentError>)
    ensures
        whole_term(data@) is None ==> r is Err,
        whole_term(data@) is None ==> (r->Err_0 == TorrentError::UnexpectedEnd <==> truncated(data@, MAX_DEPTH as nat)),
        whole_term(data@) is None ==> (r->Err_0 == TorrentError::MalformedInput <==> !truncated(data@, MAX_DEPTH as nat)),
        whole_term(data@) matches Some(top) ==> {
            &&& r is Ok <==> metainfo_error(top) is None
            &&& r is Err ==> metainfo_error(top) == Some(r->Err_0)
            &&& r is Ok ==> torrent_of(r->Ok_0, top)
        },
{
    match decode_all(data) {
        Ok(top) => extract(&top),
        Err(e) => Err(e),
    }
}

impl TorrentInfo {
    /// The bytes of the file that piece `i` covers, `[start, end)` with
    /// `start = i * piece_length` and `end = min((i + 1) * piece_length,
    /// length)`. `None` when there is no piece `i`, the sizes are not positive,
    /// or the bounds do not fit in 64 bits.
    pub fn piece_span(&self, i: usize) -> (r: Option<(u64, u64)>)
        ensures
            r is Some <==> i < self.pieces@.len() && self.piece_length > 0 && self.length >= 0
                && (i + 1) * self.piece_length <= u64::MAX,
            r is Some ==> r->Some_0.0 == i * self.piece_length,
            r is Some ==> r->Some_0.1 == if (i + 1) * self.piece_length <= self.length {
                (i + 1) * self.piece_length
            } else {
                self.length as int
            },
    {
        if i >= self.pieces.len() || self.piece_length <= 0 || self.length < 0 {
            return None;
        }
        let size: u128 = self.piece_length as u128;
        let count: u128 = i as u128 + 1;
        proof {
            assert(count * size <= 0x1_0000_0000_0000_0000 * 0x8000_0000_0000_0000) by (nonlinear_arith)
                requires count <= 0x1_0000_0000_0000_0000, size <= 0x8000_0000_0000_0000;
            assert((count - 1) * size <= count * size) by (nonlinear_arith)
                requires count >= 1;
        }
        let next: u128 = count * size;
        if next > u64::MAX as u128 {
            return None;
        }
        let start: u128 = (count - 1) * size;
        let end: u128 = if next <= self.length as u128 { next } else { self.length as u128 };
        Some((start as u64, end as u64))
    }

    /// The info-hash as 40 lowercase hexadecimal digits.
    pub fn info_hash_hex(&self) -> (r: String)
        ensures
            r@ == hex_text(self.info_hash@),
    {
        to_hex(self.info_hash.as_slice())
    }

    /// The hash of piece `i` as lowercase hexadecimal digits.
    pub fn piece_hash_hex(&self, i: usize) -> (r: String)
        requires
            i < self.pieces@.len(),
        ensures
            r@ == hex_text(self.pieces@[i as int]@),
    {
        to_hex(self.pieces[i].as_slice())
    }
}

} // verus!
