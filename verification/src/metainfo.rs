//! Torrent files.

use crate::bencode::grammar::{info_raw, parsed, reports, Fault};
use crate::bencode::{extract_info_raw, lookup, models, Bencode, BencodeDict, BencodeParser, BencodeValue};
use crate::error::TorrentError;
use crate::outside::{sha1_digest, sha1_of};
use crate::text::{chars_of, joined};
use crate::types::{array20, opt_text, texts, InfoHash};
use vstd::prelude::*;
use vstd::string::*;
use vstd::utf8::{decode_utf8, valid_utf8};

pub mod laws;

verus! {

/// What a torrent file says.
#[derive(Debug, Clone)]
pub struct MetaInfo {
    pub info_hash: InfoHash,
    pub name: String,
    pub piece_length: u64,
    pub pieces: Vec<[u8; 20]>,
    pub files: Vec<FileInfo>,
    pub total_size: u64,
    pub announce: Option<String>,
    pub announce_list: Vec<Vec<String>>,
    pub url_list: Vec<String>,
    pub comment: Option<String>,
    pub created_by: Option<String>,
    pub creation_date: Option<i64>,
    pub is_private: bool,
}

/// A file of a torrent: its path below the download directory and the range
/// of the torrent's bytes that it holds.
#[derive(Debug, Clone)]
pub struct FileInfo {
    pub path: String,
    pub length: u64,
    pub offset: u64,
}

/// The model of a file.
pub struct FileModel {
    pub path: Seq<char>,
    pub length: int,
    pub offset: int,
}

impl View for FileInfo {
    type V = FileModel;

    open spec fn view(&self) -> FileModel {
        FileModel { path: self.path@, length: self.length as int, offset: self.offset as int }
    }
}

/// The model of what a torrent file says.
#[verifier::ext_equal]
pub struct MetaModel {
    pub info_hash: Seq<u8>,
    pub name: Seq<char>,
    pub piece_length: int,
    pub pieces: Seq<Seq<u8>>,
    pub files: Seq<FileModel>,
    pub total_size: int,
    pub announce: Option<Seq<char>>,
    pub announce_list: Seq<Seq<Seq<char>>>,
    pub url_list: Seq<Seq<char>>,
    pub comment: Option<Seq<char>>,
    pub created_by: Option<Seq<char>>,
    pub creation_date: Option<int>,
    pub is_private: bool,
}

/// The models of files.
pub open spec fn file_models(v: Seq<FileInfo>) -> Seq<FileModel> {
    Seq::new(v.len(), |i: int| v[i]@)
}

/// The texts of lists of strings.
pub open spec fn text_lists(v: Seq<Vec<String>>) -> Seq<Seq<Seq<char>>> {
    Seq::new(v.len(), |i: int| texts(v[i]@))
}

/// The contents of arrays of twenty bytes.
pub open spec fn hashes(v: Seq<[u8; 20]>) -> Seq<Seq<u8>> {
    Seq::new(v.len(), |i: int| v[i]@)
}

impl View for MetaInfo {
    type V = MetaModel;

    open spec fn view(&self) -> MetaModel {
        MetaModel {
            info_hash: self.info_hash@,
            name: self.name@,
            piece_length: self.piece_length as int,
            pieces: hashes(self.pieces@),
            files: file_models(self.files@),
            total_size: self.total_size as int,
            announce: opt_text(self.announce),
            announce_list: text_lists(self.announce_list@),
            url_list: texts(self.url_list@),
            comment: opt_text(self.comment),
            created_by: opt_text(self.created_by),
            creation_date: match self.creation_date {
                Some(d) => Some(d as int),
                None => None,
            },
            is_private: self.is_private,
        }
    }
}

/// Why a torrent file is refused.
pub enum MetaFault {
    Bencode(Fault),
    Invalid(Seq<char>),
}

/// The error that reports why a torrent file is refused.
pub open spec fn reports_meta(e: TorrentError, f: MetaFault) -> bool {
    match f {
        MetaFault::Bencode(b) => reports(e, b),
        MetaFault::Invalid(m) => e matches TorrentError::InvalidMetaInfo(s) && s@ == m,
    }
}

/// A signed 64-bit number read as an unsigned one.
pub open spec fn as_unsigned(i: int) -> int {
    if i < 0 {
        i + 0x1_0000_0000_0000_0000
    } else {
        i
    }
}

/// The text that a value holds.
pub open spec fn text_of(b: Bencode) -> Option<Seq<char>> {
    match b {
        Bencode::Bytes(s) if valid_utf8(s) => Some(decode_utf8(s)),
        _ => None,
    }
}

/// The text bound to a key.
pub open spec fn text_field(e: Seq<(Seq<char>, Bencode)>, key: Seq<char>) -> Option<Seq<char>> {
    match lookup(e, key) {
        Some(b) => text_of(b),
        None => None,
    }
}

/// The integer bound to a key.
pub open spec fn integer_field(e: Seq<(Seq<char>, Bencode)>, key: Seq<char>) -> Option<int> {
    match lookup(e, key) {
        Some(Bencode::Integer(i)) => Some(i),
        _ => None,
    }
}

/// The bytes bound to a key.
pub open spec fn bytes_field(e: Seq<(Seq<char>, Bencode)>, key: Seq<char>) -> Option<Seq<u8>> {
    match lookup(e, key) {
        Some(Bencode::Bytes(b)) => Some(b),
        _ => None,
    }
}

/// The texts among values, in order.
pub open spec fn texts_in(l: Seq<Bencode>) -> Seq<Seq<char>>
    decreases l.len(),
{
    if l.len() == 0 {
        seq![]
    } else {
        match text_of(l.last()) {
            Some(t) => texts_in(l.drop_last()).push(t),
            None => texts_in(l.drop_last()),
        }
    }
}

/// The texts in a list; none if the value is no list.
pub open spec fn string_list(b: Option<Bencode>) -> Seq<Seq<char>> {
    match b {
        Some(Bencode::List(l)) => texts_in(l),
        _ => seq![],
    }
}

/// The texts of each list among values, in order.
pub open spec fn tiers_in(l: Seq<Bencode>) -> Seq<Seq<Seq<char>>>
    decreases l.len(),
{
    if l.len() == 0 {
        seq![]
    } else {
        match l.last() {
            Bencode::List(t) => tiers_in(l.drop_last()).push(texts_in(t)),
            _ => tiers_in(l.drop_last()),
        }
    }
}

/// The tiers in a list of lists; none if the value is no list.
pub open spec fn announce_tiers(b: Option<Bencode>) -> Seq<Seq<Seq<char>>> {
    match b {
        Some(Bencode::List(l)) => tiers_in(l),
        _ => seq![],
    }
}

/// A text with two dots in a row.
pub open spec fn has_double_dot(s: Seq<char>) -> bool {
    exists|i: int| 0 <= i < s.len() - 1 && #[trigger] s[i] == '.' && s[i + 1] == '.'
}

/// A path component that could lead out of the torrent's directory.
pub open spec fn unsafe_component(s: Seq<char>) -> bool {
    has_double_dot(s) || s.contains('/') || s.contains('\\') || s.contains('\0')
}

/// The path of components below a base; nothing if a component is unsafe.
/// Components that are no text are passed over.
pub open spec fn joined_path(base: Seq<char>, parts: Seq<Seq<char>>) -> Option<Seq<char>>
    decreases parts.len(),
{
    if parts.len() == 0 {
        Some(base)
    } else {
        match joined_path(base, parts.drop_last()) {
            Some(p) if !unsafe_component(parts.last()) => Some(p.push('/') + parts.last()),
            _ => None,
        }
    }
}

/// The file that an entry of the `files` list describes, placed at `offset`.
pub open spec fn file_at(b: Bencode, base: Seq<char>, offset: int) -> Result<FileModel, Seq<char>> {
    match b {
        Bencode::Dict(e) => match integer_field(e, "length"@) {
            None => Err("Missing file length"@),
            Some(n) => match lookup(e, "path"@) {
                Some(Bencode::List(parts)) => match joined_path(base, texts_in(parts)) {
                    None => Err("Invalid path component in torrent file"@),
                    Some(path) => Ok(FileModel { path, length: as_unsigned(n), offset }),
                },
                _ => Err("Missing file path"@),
            },
        },
        _ => Err("file not a dict"@),
    }
}

/// The files of a list, one after the other, with their total length modulo
/// 2^64.
pub open spec fn files_in(l: Seq<Bencode>, base: Seq<char>) -> Result<(Seq<FileModel>, int), Seq<char>>
    decreases l.len(),
{
    if l.len() == 0 {
        Ok((seq![], 0))
    } else {
        match files_in(l.drop_last(), base) {
            Err(m) => Err(m),
            Ok((files, offset)) => match file_at(l.last(), base, offset) {
                Err(m) => Err(m),
                Ok(f) => Ok((files.push(f), (offset + f.length) % 0x1_0000_0000_0000_0000)),
            },
        }
    }
}

/// The files of a torrent's info dictionary with their total length.
pub open spec fn files_of_info(info: Seq<(Seq<char>, Bencode)>, name: Seq<char>) -> Result<
    (Seq<FileModel>, int),
    Seq<char>,
> {
    match lookup(info, "files"@) {
        Some(Bencode::List(l)) => files_in(l, name),
        Some(_) => Err("files not a list"@),
        None => match integer_field(info, "length"@) {
            None => Err("Missing length"@),
            Some(n) => Ok(
                (
                    seq![FileModel { path: name, length: as_unsigned(n), offset: 0 }],
                    as_unsigned(n),
                ),
            ),
        },
    }
}

/// The name of a torrent.
pub open spec fn name_of_info(info: Seq<(Seq<char>, Bencode)>) -> Seq<char> {
    match text_field(info, "name"@) {
        Some(n) => n,
        None => "unknown"@,
    }
}

/// Bytes in groups of twenty.
pub open spec fn groups_of_20(raw: Seq<u8>) -> Seq<Seq<u8>> {
    Seq::new(raw.len() / 20, |k: int| raw.subrange(20 * k, 20 * k + 20))
}

/// What the root and info dictionaries of a torrent file say.
pub open spec fn meta_of_dicts(
    hash: Seq<u8>,
    root: Seq<(Seq<char>, Bencode)>,
    info: Seq<(Seq<char>, Bencode)>,
) -> Result<MetaModel, MetaFault> {
    match integer_field(info, "piece length"@) {
        None => Err(MetaFault::Invalid("Missing piece length"@)),
        Some(piece_length) => match bytes_field(info, "pieces"@) {
            None => Err(MetaFault::Invalid("Missing pieces"@)),
            Some(raw) => if raw.len() % 20 != 0 {
                Err(MetaFault::Invalid("Invalid pieces length"@))
            } else {
                match files_of_info(info, name_of_info(info)) {
                    Err(m) => Err(MetaFault::Invalid(m)),
                    Ok((files, total)) => Ok(
                        MetaModel {
                            info_hash: hash,
                            name: name_of_info(info),
                            piece_length: as_unsigned(piece_length),
                            pieces: groups_of_20(raw),
                            files,
                            total_size: total,
                            announce: text_field(root, "announce"@),
                            announce_list: announce_tiers(lookup(root, "announce-list"@)),
                            url_list: string_list(lookup(root, "url-list"@)),
                            comment: text_field(root, "comment"@),
                            created_by: text_field(root, "created by"@),
                            creation_date: integer_field(root, "creation date"@),
                            is_private: integer_field(info, "private"@) == Some(1int),
                        },
                    ),
                }
            },
        },
    }
}

/// What a torrent file says. Its identity is the digest of the info
/// dictionary's bytes as they stand in the file.
pub open spec fn meta_of(data: Seq<u8>) -> Result<MetaModel, MetaFault> {
    match info_raw(data) {
        Err(f) => Err(MetaFault::Bencode(f)),
        Ok(raw) => match parsed(data) {
            Err(f) => Err(MetaFault::Bencode(f)),
            Ok(Bencode::Dict(root)) => match lookup(root, "info"@) {
                None => Err(MetaFault::Invalid("Missing info dict"@)),
                Some(Bencode::Dict(info)) => meta_of_dicts(sha1_of(raw), root, info),
                Some(_) => Err(MetaFault::Invalid("info not a dict"@)),
            },
            Ok(_) => Err(MetaFault::Invalid("Root not a dict"@)),
        },
    }
}

fn get_text(d: &BencodeDict, key: &str) -> (r: Option<String>)
    ensures
        opt_text(r) == text_field(d@, key@),
{
    match d.get(key) {
        Some(v) => match v.as_string() {
            Some(s) => Some(s.to_string()),
            None => None,
        },
        None => None,
    }
}

fn get_integer(d: &BencodeDict, key: &str) -> (r: Option<i64>)
    ensures
        match r {
            Some(i) => integer_field(d@, key@) == Some(i as int),
            None => integer_field(d@, key@) is None,
        },
{
    match d.get(key) {
        Some(v) => v.as_integer(),
        None => None,
    }
}

/// Reads a signed 64-bit number as an unsigned one.
pub fn unsigned(i: i64) -> (r: u64)
    ensures
        r == as_unsigned(i as int),
{
    if i < 0 {
        // The two's complement reading of a negative number.
        18446744073709551615 - (-(i + 1)) as u64
    } else {
        i as u64
    }
}

fn is_unsafe_component(part: &str) -> (r: bool)
    ensures
        r == unsafe_component(part@),
{
    let chars = chars_of(part);
    let mut i: usize = 0;
    while i < chars.len()
        invariant
            i <= chars.len(),
            chars@ == part@,
            forall|k: int| 0 <= k < i ==> part@[k] != '/' && part@[k] != '\\' && part@[k] != '\0',
            forall|k: int|
                0 <= k < i && k < part@.len() - 1 ==> !(#[trigger] part@[k] == '.' && part@[k + 1]
                    == '.'),
        decreases chars.len() - i,
    {
        let c: char = chars[i];
        if c == '/' || c == '\\' || c == '\0' {
            assert(part@.contains(part@[i as int]));
            return true;
        }
        if c == '.' && i + 1 < chars.len() && chars[i + 1] == '.' {
            assert(part@[i as int] == '.' && part@[i + 1] == '.');
            return true;
        }
        i += 1;
    }
    false
}

/// The failure that an invalid torrent file is refused with.
fn invalid<T>(message: &str) -> (r: Result<T, TorrentError>)
    ensures
        r matches Err(TorrentError::InvalidMetaInfo(s)) && s@ == message@,
{
    Err(TorrentError::InvalidMetaInfo(message.to_string()))
}

impl MetaInfo {
    /// Reads a torrent file.
    pub fn from_bytes(data: &[u8]) -> (r: Result<MetaInfo, TorrentError>)
        ensures
            match (r, meta_of(data@)) {
                (Ok(m), Ok(spec)) => m@ == spec,
                (Err(e), Err(f)) => reports_meta(e, f),
                _ => false,
            },
    {
        let raw = match extract_info_raw(data) {
            Ok(raw) => raw,
            Err(e) => {
                return Err(e);
            },
        };
        let info_hash = InfoHash(sha1_digest(raw));
        let root = match BencodeParser::parse(data) {
            Ok(v) => v,
            Err(e) => {
                return Err(e);
            },
        };
        let root_dict = match root.as_dict() {
            Some(d) => d,
            None => {
                return invalid("Root not a dict");
            },
        };
        let info = match root_dict.get("info") {
            Some(v) => v,
            None => {
                return invalid("Missing info dict");
            },
        };
        let info_dict = match info.as_dict() {
            Some(d) => d,
            None => {
                return invalid("info not a dict");
            },
        };
        Self::from_dicts(info_hash, root_dict, info_dict)
    }

    /// Reads the root and info dictionaries of a torrent file whose identity
    /// is known.
    pub fn from_dicts(info_hash: InfoHash, root_dict: &BencodeDict, info_dict: &BencodeDict) -> (r:
        Result<MetaInfo, TorrentError>)
        ensures
            match (r, meta_of_dicts(info_hash@, root_dict@, info_dict@)) {
                (Ok(m), Ok(spec)) => m@ == spec,
                (Err(e), Err(f)) => reports_meta(e, f),
                _ => false,
            },
    {
        let announce = get_text(root_dict, "announce");
        let announce_list = Self::parse_announce_list(root_dict.get("announce-list"));
        let url_list = Self::parse_string_list(root_dict.get("url-list"));
        let comment = get_text(root_dict, "comment");
        let created_by = get_text(root_dict, "created by");
        let creation_date: Option<i64> = get_integer(root_dict, "creation date");
        let name = match get_text(info_dict, "name") {
            Some(n) => n,
            None => "unknown".to_string(),
        };
        let piece_length: u64 = match get_integer(info_dict, "piece length") {
            Some(n) => unsigned(n),
            None => {
                return invalid("Missing piece length");
            },
        };
        let pieces_value = match info_dict.get("pieces") {
            Some(v) => v,
            None => {
                return invalid("Missing pieces");
            },
        };
        let pieces_raw = match pieces_value.as_bytes() {
            Some(b) => b,
            None => {
                return invalid("Missing pieces");
            },
        };
        if pieces_raw.len() % 20 != 0 {
            return invalid("Invalid pieces length");
        }
        let pieces = Self::split_hashes(pieces_raw);
        let is_private = match get_integer(info_dict, "private") {
            Some(n) => n == 1,
            None => false,
        };
        let (files, total_size): (Vec<FileInfo>, u64) = match info_dict.get("files") {
            Some(files_val) => match Self::parse_multi_file(files_val, name.as_str()) {
                Ok((f, t)) => (f, t),
                Err(e) => {
                    return Err(e);
                },
            },
            None => {
                let length: u64 = match get_integer(info_dict, "length") {
                    Some(n) => unsigned(n),
                    None => {
                        return invalid("Missing length");
                    },
                };
                let files: Vec<FileInfo> = vec![FileInfo { path: name.clone(), length, offset: 0 }];
                assert(file_models(files@) =~= seq![
                    FileModel { path: name@, length: length as int, offset: 0 },
                ]);
                (files, length)
            },
        };
        let m = MetaInfo {
            info_hash,
            name,
            piece_length,
            pieces,
            files,
            total_size,
            announce,
            announce_list,
            url_list,
            comment,
            created_by,
            creation_date,
            is_private,
        };
        Ok(m)
    }

    /// Splits bytes into groups of twenty.
    fn split_hashes(raw: &[u8]) -> (r: Vec<[u8; 20]>)
        requires
            raw@.len() % 20 == 0,
        ensures
            hashes(r@) == groups_of_20(raw@),
    {
        let mut out: Vec<[u8; 20]> = Vec::new();
        let mut pos: usize = 0;
        while pos < raw.len()
            invariant
                pos <= raw.len(),
                raw@.len() % 20 == 0,
                pos == 20 * out.len(),
                hashes(out@) == groups_of_20(raw@).take(out.len() as int),
            decreases raw.len() - pos,
        {
            let h = array20(vstd::slice::slice_subrange(raw, pos, pos + 20));
            out.push(h);
            pos += 20;
            assert(hashes(out@) =~= groups_of_20(raw@).take(out.len() as int));
        }
        assert(hashes(out@) =~= groups_of_20(raw@));
        out
    }

    /// Reads the `files` list of a torrent with several files.
    #[verifier::loop_isolation(false)]
    pub fn parse_multi_file(files_val: &BencodeValue, base_name: &str) -> (r: Result<
        (Vec<FileInfo>, u64),
        TorrentError,
    >)
        ensures
            match files_val@ {
                Bencode::List(l) => match (r, files_in(l, base_name@)) {
                    (Ok((files, total)), Ok((f, t))) => file_models(files@) == f && total == t,
                    (Err(TorrentError::InvalidMetaInfo(s)), Err(m)) => s@ == m,
                    _ => false,
                },
                _ => r matches Err(TorrentError::InvalidMetaInfo(s)) && s@ == "files not a list"@,
            },
    {
        let list = match files_val.as_list() {
            Some(l) => l,
            None => {
                return invalid("files not a list");
            },
        };
        let ghost all = models(list@);
        let mut files: Vec<FileInfo> = Vec::new();
        let mut offset: u64 = 0;
        let mut i: usize = 0;
        assert(all.take(0) =~= seq![]);
        assert(file_models(files@) =~= seq![]);
        while i < list.len()
            invariant
                i <= list.len(),
                all == models(list@),
                files_in(all.take(i as int), base_name@) == Ok::<
                    (Seq<FileModel>, int),
                    Seq<char>,
                >((file_models(files@), offset as int)),
            decreases list.len() - i,
        {
            proof {
                let t = all.take(i + 1);
                assert(t.drop_last() =~= all.take(i as int));
                assert(t.last() == list@[i as int]@);
                lemma_files_error(all, base_name@, i + 1);
            }
            match Self::parse_file(&list[i], base_name, offset) {
                Ok(f) => {
                    let ghost before = file_models(files@);
                    let length: u64 = f.length;
                    files.push(f);
                    assert(file_models(files@) =~= before.push(f@));
                    offset = offset.wrapping_add(length);
                },
                Err(e) => {
                    return Err(e);
                },
            }
            i += 1;
        }
        assert(all.take(i as int) =~= all);
        Ok((files, offset))
    }

    /// Reads one entry of the `files` list.
    #[verifier::loop_isolation(false)]
    fn parse_file(file_val: &BencodeValue, base_name: &str, offset: u64) -> (r: Result<
        FileInfo,
        TorrentError,
    >)
        ensures
            match (r, file_at(file_val@, base_name@, offset as int)) {
                (Ok(f), Ok(m)) => f@ == m,
                (Err(TorrentError::InvalidMetaInfo(s)), Err(m)) => s@ == m,
                _ => false,
            },
    {
        let file_dict = match file_val.as_dict() {
            Some(d) => d,
            None => {
                return invalid("file not a dict");
            },
        };
        let length: u64 = match get_integer(file_dict, "length") {
            Some(n) => unsigned(n),
            None => {
                return invalid("Missing file length");
            },
        };
        let path_value = match file_dict.get("path") {
            Some(v) => v,
            None => {
                return invalid("Missing file path");
            },
        };
        let parts = match path_value.as_list() {
            Some(l) => l,
            None => {
                return invalid("Missing file path");
            },
        };
        let ghost all = models(parts@);
        let mut full_path = base_name.to_string();
        let mut i: usize = 0;
        assert(all.take(0) =~= seq![]);
        while i < parts.len()
            invariant
                i <= parts.len(),
                all == models(parts@),
                joined_path(base_name@, texts_in(all.take(i as int))) == Some(full_path@),
            decreases parts.len() - i,
        {
            proof {
                let t = all.take(i + 1);
                assert(t.drop_last() =~= all.take(i as int));
                assert(t.last() == parts@[i as int]@);
                let known = texts_in(all.take(i as int));
                if let Some(p) = text_of(all[i as int]) {
                    assert(known.push(p).drop_last() =~= known);
                }
                lemma_path_refused(base_name@, all, i + 1);
            }
            if let Some(part) = parts[i].as_string() {
                if is_unsafe_component(part) {
                    return invalid("Invalid path component in torrent file");
                }
                let ghost before = full_path@;
                full_path.append("/");
                full_path.append(part);
                proof {
                    reveal_strlit("/");
                    assert(full_path@ =~= before.push('/') + part@);
                }
            }
            i += 1;
        }
        assert(all.take(i as int) =~= all);
        Ok(FileInfo { path: full_path, length, offset })
    }

    /// Reads the tiers of trackers.
    pub fn parse_announce_list(val: Option<&BencodeValue>) -> (r: Vec<Vec<String>>)
        ensures
            text_lists(r@) == announce_tiers(
                match val {
                    Some(v) => Some(v@),
                    None => None,
                },
            ),
    {
        let mut out: Vec<Vec<String>> = Vec::new();
        assert(text_lists(out@) =~= seq![]);
        if let Some(v) = val {
            if let Some(tiers) = v.as_list() {
                let ghost all = models(tiers@);
                let mut i: usize = 0;
                assert(all.take(0) =~= seq![]);
                while i < tiers.len()
                    invariant
                        i <= tiers.len(),
                        all == models(tiers@),
                        text_lists(out@) == tiers_in(all.take(i as int)),
                    decreases tiers.len() - i,
                {
                    proof {
                        let t = all.take(i + 1);
                        assert(t.drop_last() =~= all.take(i as int));
                        assert(t.last() == tiers@[i as int]@);
                    }
                    let ghost before = text_lists(out@);
                    if let Some(urls) = tiers[i].as_list() {
                        let tier = Self::strings_among(urls);
                        out.push(tier);
                        assert(text_lists(out@) =~= before.push(texts(tier@)));
                    }
                    i += 1;
                }
                assert(all.take(i as int) =~= all);
            }
        }
        out
    }

    /// Reads a list of strings.
    pub fn parse_string_list(val: Option<&BencodeValue>) -> (r: Vec<String>)
        ensures
            texts(r@) == string_list(
                match val {
                    Some(v) => Some(v@),
                    None => None,
                },
            ),
    {
        if let Some(v) = val {
            if let Some(items) = v.as_list() {
                return Self::strings_among(items);
            }
        }
        let out: Vec<String> = Vec::new();
        assert(texts(out@) =~= seq![]);
        out
    }

    /// The texts among values.
    fn strings_among(items: &[BencodeValue]) -> (r: Vec<String>)
        ensures
            texts(r@) == texts_in(models(items@)),
    {
        let ghost all = models(items@);
        let mut out: Vec<String> = Vec::new();
        let mut i: usize = 0;
        assert(texts(out@) =~= seq![]);
        assert(all.take(0) =~= seq![]);
        while i < items.len()
            invariant
                i <= items.len(),
                all == models(items@),
                texts(out@) == texts_in(all.take(i as int)),
            decreases items.len() - i,
        {
            proof {
                let t = all.take(i + 1);
                assert(t.drop_last() =~= all.take(i as int));
                assert(t.last() == items@[i as int]@);
            }
            let ghost before = texts(out@);
            if let Some(s) = items[i].as_string() {
                out.push(s.to_string());
                assert(texts(out@) =~= before.push(s@));
            }
            i += 1;
        }
        assert(all.take(i as int) =~= all);
        out
    }

    /// The address of a file at a web seed: the base, closed by a slash, and
    /// the file's path.
    pub fn webseed_url_for(&self, base: &str, file_path: &str) -> (r: String)
        ensures
            r@ == seed_url(base@, file_path@),
    {
        let chars = chars_of(base);
        let slashed = if chars.len() > 0 && chars[chars.len() - 1] == '/' {
            base.to_string()
        } else {
            joined(base, "/")
        };
        proof {
            reveal_strlit("/");
            assert(base@ + "/"@ =~= base@.push('/'));
        }
        joined(slashed.as_str(), file_path)
    }

    /// The number of pieces, as the protocol counts them.
    pub fn num_pieces(&self) -> (r: u32)
        ensures
            r == self.pieces@.len() as u32,
    {
        self.pieces.len() as u32
    }

    /// The size of a piece: the piece length, but for a shorter last piece.
    pub fn piece_size(&self, index: u32) -> (r: u64)
        requires
            self.pieces@.len() > 0,
            index == self.pieces@.len() - 1 ==> self.piece_length > 0,
        ensures
            r == size_of_piece(
                self.total_size as int,
                self.piece_length as int,
                self.pieces@.len() as int,
                index as int,
            ),
    {
        if index as u64 == self.pieces.len() as u64 - 1 {
            let remainder: u64 = self.total_size % self.piece_length;
            if remainder == 0 {
                self.piece_length
            } else {
                remainder
            }
        } else {
            self.piece_length
        }
    }
}

/// The address of a file at a web seed.
pub open spec fn seed_url(base: Seq<char>, file_path: Seq<char>) -> Seq<char> {
    if base.len() > 0 && base.last() == '/' {
        base + file_path
    } else {
        base.push('/') + file_path
    }
}

/// The size of piece `index` of `count` pieces of `piece_length` bytes that
/// hold `total` bytes.
pub open spec fn size_of_piece(total: int, piece_length: int, count: int, index: int) -> int {
    if index == count - 1 && total % piece_length != 0 {
        total % piece_length
    } else {
        piece_length
    }
}

/// An error among the first files is the error of all files.
proof fn lemma_files_error(l: Seq<Bencode>, base: Seq<char>, n: int)
    requires
        0 <= n <= l.len(),
    ensures
        files_in(l.take(n), base) matches Err(m) ==> files_in(l, base) == Err::<
            (Seq<FileModel>, int),
            Seq<char>,
        >(m),
    decreases l.len() - n,
{
    if n < l.len() {
        assert(l.take(n + 1).drop_last() =~= l.take(n));
        lemma_files_error(l, base, n + 1);
    } else {
        assert(l.take(n) =~= l);
    }
}

/// An unsafe component among the first parts makes the whole path unsafe.
proof fn lemma_path_refused(base: Seq<char>, l: Seq<Bencode>, n: int)
    requires
        0 <= n <= l.len(),
    ensures
        joined_path(base, texts_in(l.take(n))) is None ==> joined_path(base, texts_in(l)) is None,
    decreases l.len() - n,
{
    if n < l.len() {
        let t = l.take(n + 1);
        assert(t.drop_last() =~= l.take(n));
        let known = texts_in(l.take(n));
        if let Some(p) = text_of(t.last()) {
            assert(known.push(p).drop_last() =~= known);
        }
        lemma_path_refused(base, l, n + 1);
    } else {
        assert(l.take(n) =~= l);
    }
}

} // verus!
