use vstd::prelude::*;
use vstd::utf8::{valid_utf8, decode_utf8};
use crate::value::{Value, Bencode, DecodeError};
use crate::decode::{key_position, entry_models, bytes_eq};
use crate::text::{text_from_utf8, parse_url, url_parses};

verus! {

/// The size of one piece hash, in bytes.
pub const HASH_LEN: usize = 20;

/// The piece hashes of a torrent, cut from one blob.
#[derive(Debug, Clone)]
pub struct Hashes(pub Vec<[u8; 20]>);

impl View for Hashes {
    type V = Seq<Seq<u8>>;

    open spec fn view(&self) -> Seq<Seq<u8>> {
        Seq::new(self.0@.len(), |i: int| self.0@[i]@)
    }
}

/// A blob cut into consecutive pieces of `HASH_LEN` bytes.
pub open spec fn chunks(b: Seq<u8>) -> Seq<Seq<u8>> {
    Seq::new(b.len() / 20, |i: int| b.subrange(20 * i, 20 * i + 20))
}

/// Cuts `blob` into hashes of `HASH_LEN` bytes, in order. Fails when its
/// length is not a multiple of `HASH_LEN`.
pub fn hashes_from_blob(blob: &[u8]) -> (r: Result<Hashes, DecodeError>)
    ensures
        blob@.len() % 20 != 0 ==> r == Err::<Hashes, _>(DecodeError::HashBlobMisaligned),
        blob@.len() % 20 == 0 ==> (r matches Ok(h) && h@ == chunks(blob@)),
{
    if blob.len() % HASH_LEN != 0 {
        return Err(DecodeError::HashBlobMisaligned);
    }
    let n = blob.len() / HASH_LEN;
    let mut out: Vec<[u8; 20]> = Vec::new();
    let mut c: usize = 0;
    let mut start: usize = 0;
    while c < n
        invariant
            n == blob.len() / 20,
            blob.len() % 20 == 0,
            c <= n,
            start == 20 * c,
            out.len() == c,
            forall|i: int| 0 <= i < c ==> (#[trigger] out[i])@ == blob@.subrange(20 * i, 20 * i + 20),
        decreases n - c,
    {
        let mut h: [u8; 20] = [0u8; 20];
        let mut j: usize = 0;
        while j < HASH_LEN
            invariant
                j <= 20,
                start == 20 * c,
                c < n,
                n == blob.len() / 20,
                blob.len() % 20 == 0,
                forall|k: int| 0 <= k < j ==> h@[k] == blob@[start + k],
            decreases 20 - j,
        {
            h[j] = blob[start + j];
            j = j + 1;
        }
        assert(h@ =~= blob@.subrange(20 * c, 20 * c + 20));
        out.push(h);
        c = c + 1;
        start = start + HASH_LEN;
    }
    let r = Hashes(out);
    assert(r@ =~= chunks(blob@));
    Ok(r)
}

/// One file of a multi-file torrent.
#[derive(Debug, Clone)]
pub struct File {
    pub length: usize,
    /// Directory components, then the file's name.
    pub path: Vec<String>,
}

/// Which layout a torrent has, told by whether `length` or `files` is present.
#[derive(Debug, Clone)]
pub enum Keys {
    SingleFile { length: usize },
    MultiFile { files: Vec<File> },
}

/// The `info` dictionary of a torrent.
#[derive(Debug, Clone)]
pub struct Info {
    pub plength: usize,
    pub name: String,
    pub pieces: Hashes,
    pub keys: Keys,
}

/// A torrent: where its tracker is, and its `info` dictionary.
#[derive(Debug)]
pub struct Torrent {
    pub announce: reqwest::Url,
    pub info: Info,
}

pub struct FileModel {
    pub length: nat,
    pub path: Seq<Seq<char>>,
}

pub enum KeysModel {
    SingleFile { length: nat },
    MultiFile { files: Seq<FileModel> },
}

pub struct InfoModel {
    pub plength: nat,
    pub name: Seq<char>,
    pub pieces: Seq<Seq<u8>>,
    pub keys: KeysModel,
}

pub open spec fn path_model(p: Seq<String>) -> Seq<Seq<char>> {
    Seq::new(p.len(), |i: int| p[i]@)
}

impl File {
    pub open spec fn model(&self) -> FileModel {
        FileModel { length: self.length as nat, path: path_model(self.path@) }
    }
}

pub open spec fn files_model(fs: Seq<File>) -> Seq<FileModel> {
    Seq::new(fs.len(), |i: int| fs[i].model())
}

impl Keys {
    pub open spec fn model(&self) -> KeysModel {
        match self {
            Keys::SingleFile { length } => KeysModel::SingleFile { length: *length as nat },
            Keys::MultiFile { files } => KeysModel::MultiFile { files: files_model(files@) },
        }
    }
}

impl Info {
    pub open spec fn model(&self) -> InfoModel {
        InfoModel {
            plength: self.plength as nat,
            name: self.name@,
            pieces: self.pieces@,
            keys: self.keys.model(),
        }
    }
}

/// The value under `key` in a dictionary's entries.
pub open spec fn lookup(d: Seq<(Seq<u8>, Bencode)>, key: Seq<u8>) -> Option<Bencode> {
    let p = key_position(d, key, 0);
    if p >= 0 {
        Some(d[p].1)
    } else {
        None
    }
}

pub open spec fn required(d: Seq<(Seq<u8>, Bencode)>, key: Seq<u8>) -> Result<Bencode, DecodeError> {
    match lookup(d, key) {
        Some(v) => Ok(v),
        None => Err(DecodeError::MissingField),
    }
}

/// A value read as a size: an integer that fits a `usize`.
pub open spec fn as_size(v: Bencode) -> Result<nat, DecodeError> {
    match v {
        Bencode::Int(n) => if 0 <= n <= usize::MAX {
            Ok(n as nat)
        } else {
            Err(DecodeError::InvalidField)
        },
        _ => Err(DecodeError::InvalidField),
    }
}

/// A value read as text: a byte string that is valid UTF-8, else `bad_text`.
pub open spec fn as_text(v: Bencode, bad_text: DecodeError) -> Result<Seq<char>, DecodeError> {
    match v {
        Bencode::Bytes(b) => if valid_utf8(b) {
            Ok(decode_utf8(b))
        } else {
            Err(bad_text)
        },
        _ => Err(DecodeError::InvalidField),
    }
}

/// Path segments read as text, the first failure winning.
pub open spec fn path_spec(items: Seq<Bencode>) -> Result<Seq<Seq<char>>, DecodeError>
    decreases items.len(),
{
    if items.len() == 0 {
        Ok(Seq::empty())
    } else {
        match path_spec(items.drop_last()) {
            Err(e) => Err(e),
            Ok(p) => match as_text(items.last(), DecodeError::InvalidField) {
                Err(e) => Err(e),
                Ok(t) => Ok(p.push(t)),
            },
        }
    }
}

/// A `files` entry: a dictionary with a `length` and a `path` list.
pub open spec fn file_spec(v: Bencode) -> Result<FileModel, DecodeError> {
    match v {
        Bencode::Dict(d) => match required(d, key_length()) {
            Err(e) => Err(e),
            Ok(lv) => match as_size(lv) {
                Err(e) => Err(e),
                Ok(length) => match required(d, key_path()) {
                    Err(e) => Err(e),
                    Ok(Bencode::List(items)) => match path_spec(items) {
                        Err(e) => Err(e),
                        Ok(path) => Ok(FileModel { length, path }),
                    },
                    Ok(_) => Err(DecodeError::InvalidField),
                },
            },
        },
        _ => Err(DecodeError::InvalidField),
    }
}

pub open spec fn files_spec(items: Seq<Bencode>) -> Result<Seq<FileModel>, DecodeError>
    decreases items.len(),
{
    if items.len() == 0 {
        Ok(Seq::empty())
    } else {
        match files_spec(items.drop_last()) {
            Err(e) => Err(e),
            Ok(fs) => match file_spec(items.last()) {
                Err(e) => Err(e),
                Ok(f) => Ok(fs.push(f)),
            },
        }
    }
}

/// The layout of an `info` dictionary, chosen by which of `length` and
/// `files` it holds.
pub open spec fn layout_spec(d: Seq<(Seq<u8>, Bencode)>) -> Result<KeysModel, DecodeError> {
    match (lookup(d, key_length()), lookup(d, key_files())) {
        (Some(lv), None) => match as_size(lv) {
            Err(e) => Err(e),
            Ok(length) => Ok(KeysModel::SingleFile { length }),
        },
        (None, Some(Bencode::List(items))) => match files_spec(items) {
            Err(e) => Err(e),
            Ok(files) => Ok(KeysModel::MultiFile { files }),
        },
        (None, Some(_)) => Err(DecodeError::InvalidField),
        _ => Err(DecodeError::AmbiguousLayout),
    }
}

/// What reading an `info` dictionary gives: `piece length`, `name`, `pieces`
/// and the layout are read in that order, and the first failure is returned.
pub open spec fn info_spec(v: Bencode) -> Result<InfoModel, DecodeError> {
    match v {
        Bencode::Dict(d) => match required(d, key_piece_length()) {
            Err(e) => Err(e),
            Ok(pv) => match as_size(pv) {
                Err(e) => Err(e),
                Ok(plength) => match required(d, key_name()) {
                    Err(e) => Err(e),
                    Ok(nv) => match as_text(nv, DecodeError::InvalidName) {
                        Err(e) => Err(e),
                        Ok(name) => match required(d, key_pieces()) {
                            Err(e) => Err(e),
                            Ok(Bencode::Bytes(blob)) => if blob.len() % 20 != 0 {
                                Err(DecodeError::HashBlobMisaligned)
                            } else {
                                match layout_spec(d) {
                                    Err(e) => Err(e),
                                    Ok(keys) => Ok(
                                        InfoModel { plength, name, pieces: chunks(blob), keys },
                                    ),
                                }
                            },
                            Ok(_) => Err(DecodeError::InvalidField),
                        },
                    },
                },
            },
        },
        _ => Err(DecodeError::InvalidField),
    }
}

/// `piece length`
pub open spec fn key_piece_length() -> Seq<u8> {
    seq![112u8, 105, 101, 99, 101, 32, 108, 101, 110, 103, 116, 104]
}

/// `name`
pub open spec fn key_name() -> Seq<u8> {
    seq![110u8, 97, 109, 101]
}

/// `pieces`
pub open spec fn key_pieces() -> Seq<u8> {
    seq![112u8, 105, 101, 99, 101, 115]
}

/// `length`
pub open spec fn key_length() -> Seq<u8> {
    seq![108u8, 101, 110, 103, 116, 104]
}

/// `files`
pub open spec fn key_files() -> Seq<u8> {
    seq![102u8, 105, 108, 101, 115]
}

/// `path`
pub open spec fn key_path() -> Seq<u8> {
    seq![112u8, 97, 116, 104]
}

/// `announce`
pub open spec fn key_announce() -> Seq<u8> {
    seq![97u8, 110, 110, 111, 117, 110, 99, 101]
}

/// `info`
pub open spec fn key_info() -> Seq<u8> {
    seq![105u8, 110, 102, 111]
}

/// The value under `key` in a dictionary's entries.
pub fn dict_get<'a>(entries: &'a Vec<(Vec<u8>, Value)>, key: &[u8]) -> (r: Option<&'a Value>)
    ensures
        match lookup(entry_models(entries@), key@) {
            Some(m) => r matches Some(v) && v.model() == m,
            None => r is None,
        },
{
    let ghost d = entry_models(entries@);
    let mut i: usize = 0;
    while i < entries.len()
        invariant
            i <= entries.len(),
            d == entry_models(entries@),
            key_position(d, key@, 0) == key_position(d, key@, i as int),
        decreases entries.len() - i,
    {
        if bytes_eq(entries[i].0.as_slice(), key) {
            assert(key_position(d, key@, i as int) == i as int);
            return Some(&entries[i].1);
        }
        i = i + 1;
    }
    None
}


pub open spec fn size_outcome(r: Result<usize, DecodeError>) -> Result<nat, DecodeError> {
    match r {
        Ok(n) => Ok(n as nat),
        Err(e) => Err(e),
    }
}

pub open spec fn text_outcome(r: Result<String, DecodeError>) -> Result<Seq<char>, DecodeError> {
    match r {
        Ok(s) => Ok(s@),
        Err(e) => Err(e),
    }
}

pub open spec fn path_outcome(r: Result<Vec<String>, DecodeError>) -> Result<Seq<Seq<char>>, DecodeError> {
    match r {
        Ok(p) => Ok(path_model(p@)),
        Err(e) => Err(e),
    }
}

pub open spec fn file_outcome(r: Result<File, DecodeError>) -> Result<FileModel, DecodeError> {
    match r {
        Ok(f) => Ok(f.model()),
        Err(e) => Err(e),
    }
}

pub open spec fn files_outcome(r: Result<Vec<File>, DecodeError>) -> Result<Seq<FileModel>, DecodeError> {
    match r {
        Ok(fs) => Ok(files_model(fs@)),
        Err(e) => Err(e),
    }
}

pub open spec fn keys_outcome(r: Result<Keys, DecodeError>) -> Result<KeysModel, DecodeError> {
    match r {
        Ok(k) => Ok(k.model()),
        Err(e) => Err(e),
    }
}

pub open spec fn info_outcome(r: Result<Info, DecodeError>) -> Result<InfoModel, DecodeError> {
    match r {
        Ok(i) => Ok(i.model()),
        Err(e) => Err(e),
    }
}

fn read_size(v: &Value) -> (r: Result<usize, DecodeError>)
    ensures
        size_outcome(r) == as_size(v.model()),
{
    match v {
        Value::Integer(n) => if *n >= 0 && (*n as u64) <= (usize::MAX as u64) {
            Ok(*n as usize)
        } else {
            Err(DecodeError::InvalidField)
        },
        _ => Err(DecodeError::InvalidField),
    }
}

fn read_text(v: &Value, bad_text: DecodeError) -> (r: Result<String, DecodeError>)
    ensures
        text_outcome(r) == as_text(v.model(), bad_text),
{
    match v {
        Value::ByteString(b) => {
            let bytes = vstd::slice::slice_to_vec(b.as_slice());
            match text_from_utf8(bytes) {
                Some(s) => Ok(s),
                None => Err(bad_text),
            }
        },
        _ => Err(DecodeError::InvalidField),
    }
}

fn read_path(items: &Vec<Value>) -> (r: Result<Vec<String>, DecodeError>)
    ensures
        path_outcome(r) == path_spec(crate::decode::models(items@)),
{
    let ghost ms = crate::decode::models(items@);
    let mut out: Vec<String> = Vec::new();
    let mut i: usize = 0;
    assert(ms.subrange(0, 0) =~= Seq::<Bencode>::empty());
    assert(path_model(out@) =~= Seq::<Seq<char>>::empty());
    while i < items.len()
        invariant
            i <= items.len(),
            ms == crate::decode::models(items@),
            out.len() == i,
            path_spec(ms.subrange(0, i as int)) == Ok::<Seq<Seq<char>>, DecodeError>(path_model(out@)),
        decreases items.len() - i,
    {
        let ghost prev = path_model(out@);
        assert(ms.subrange(0, i + 1).drop_last() =~= ms.subrange(0, i as int));
        let t = read_text(&items[i], DecodeError::InvalidField);
        match t {
            Ok(s) => {
                out.push(s);
                assert(path_model(out@) =~= prev.push(out@[i as int]@));
            },
            Err(e) => {
                proof {
                    lemma_path_spec_prefix_err(ms, i as int + 1);
                    assert(ms.subrange(0, ms.len() as int) =~= ms);
                }
                return Err(e);
            },
        }
        i = i + 1;
    }
    assert(ms.subrange(0, i as int) =~= ms);
    Ok(out)
}

/// Once a prefix fails, every longer prefix fails the same way.
proof fn lemma_path_spec_prefix_err(items: Seq<Bencode>, i: int)
    requires
        0 <= i <= items.len(),
        path_spec(items.subrange(0, i)) is Err,
    ensures
        path_spec(items.subrange(0, items.len() as int)) == path_spec(items.subrange(0, i)),
    decreases items.len() - i,
{
    if i < items.len() {
        assert(items.subrange(0, i + 1).drop_last() =~= items.subrange(0, i));
        lemma_path_spec_prefix_err(items, i + 1);
    }
}

/// Once a prefix fails, every longer prefix fails the same way.
proof fn lemma_files_spec_prefix_err(items: Seq<Bencode>, i: int)
    requires
        0 <= i <= items.len(),
        files_spec(items.subrange(0, i)) is Err,
    ensures
        files_spec(items.subrange(0, items.len() as int)) == files_spec(items.subrange(0, i)),
    decreases items.len() - i,
{
    if i < items.len() {
        assert(items.subrange(0, i + 1).drop_last() =~= items.subrange(0, i));
        lemma_files_spec_prefix_err(items, i + 1);
    }
}

fn read_file(v: &Value) -> (r: Result<File, DecodeError>)
    ensures
        file_outcome(r) == file_spec(v.model()),
{
    let entries = match v {
        Value::Dictionary(entries) => entries,
        _ => {
            return Err(DecodeError::InvalidField);
        },
    };
    let ghost d = entry_models(entries@);
    assert(v.model() matches Bencode::Dict(m) && m =~= d);
    let k_length: Vec<u8> = vec![108u8, 101, 110, 103, 116, 104];
    assert(k_length@ =~= key_length());
    let length = match dict_get(entries, k_length.as_slice()) {
        None => {
            return Err(DecodeError::MissingField);
        },
        Some(lv) => read_size(lv)?,
    };
    let k_path: Vec<u8> = vec![112u8, 97, 116, 104];
    assert(k_path@ =~= key_path());
    let path = match dict_get(entries, k_path.as_slice()) {
        None => {
            return Err(DecodeError::MissingField);
        },
        Some(pv) => match pv {
            Value::List(items) => {
                assert(pv.model() matches Bencode::List(m) && m =~= crate::decode::models(items@));
                read_path(items)?
            },
            _ => {
                return Err(DecodeError::InvalidField);
            },
        },
    };
    Ok(File { length, path })
}

fn read_files(items: &Vec<Value>) -> (r: Result<Vec<File>, DecodeError>)
    ensures
        files_outcome(r) == files_spec(crate::decode::models(items@)),
{
    let ghost ms = crate::decode::models(items@);
    let mut out: Vec<File> = Vec::new();
    let mut i: usize = 0;
    assert(ms.subrange(0, 0) =~= Seq::<Bencode>::empty());
    assert(files_model(out@) =~= Seq::<FileModel>::empty());
    while i < items.len()
        invariant
            i <= items.len(),
            ms == crate::decode::models(items@),
            out.len() == i,
            files_spec(ms.subrange(0, i as int)) == Ok::<Seq<FileModel>, DecodeError>(files_model(out@)),
        decreases items.len() - i,
    {
        let ghost prev = files_model(out@);
        assert(ms.subrange(0, i + 1).drop_last() =~= ms.subrange(0, i as int));
        match read_file(&items[i]) {
            Ok(f) => {
                out.push(f);
                assert(files_model(out@) =~= prev.push(out@[i as int].model()));
            },
            Err(e) => {
                proof {
                    lemma_files_spec_prefix_err(ms, i as int + 1);
                    assert(ms.subrange(0, ms.len() as int) =~= ms);
                }
                return Err(e);
            },
        }
        i = i + 1;
    }
    assert(ms.subrange(0, i as int) =~= ms);
    Ok(out)
}

/// Reads the layout of an `info` dictionary: `length` alone gives a single
/// file, `files` alone a list of files, and both or neither fail with
/// `AmbiguousLayout`.
pub fn read_layout(entries: &Vec<(Vec<u8>, Value)>) -> (r: Result<Keys, DecodeError>)
    ensures
        keys_outcome(r) == layout_spec(entry_models(entries@)),
{
    let k_length: Vec<u8> = vec![108u8, 101, 110, 103, 116, 104];
    assert(k_length@ =~= key_length());
    let k_files: Vec<u8> = vec![102u8, 105, 108, 101, 115];
    assert(k_files@ =~= key_files());
    match (dict_get(entries, k_length.as_slice()), dict_get(entries, k_files.as_slice())) {
        (Some(lv), None) => {
            let length = read_size(lv)?;
            Ok(Keys::SingleFile { length })
        },
        (None, Some(fv)) => match fv {
            Value::List(items) => {
                assert(fv.model() matches Bencode::List(m) && m =~= crate::decode::models(items@));
                let files = read_files(items)?;
                Ok(Keys::MultiFile { files })
            },
            _ => Err(DecodeError::InvalidField),
        },
        _ => Err(DecodeError::AmbiguousLayout),
    }
}

/// Reads an `info` dictionary into an `Info`.
pub fn info_from_value(v: &Value) -> (r: Result<Info, DecodeError>)
    ensures
        info_outcome(r) == info_spec(v.model()),
{
    let entries = match v {
        Value::Dictionary(entries) => entries,
        _ => {
            return Err(DecodeError::InvalidField);
        },
    };
    assert(v.model() matches Bencode::Dict(m) && m =~= entry_models(entries@));
    let k_plength: Vec<u8> = vec![112u8, 105, 101, 99, 101, 32, 108, 101, 110, 103, 116, 104];
    assert(k_plength@ =~= key_piece_length());
    let plength = match dict_get(entries, k_plength.as_slice()) {
        None => {
            return Err(DecodeError::MissingField);
        },
        Some(pv) => read_size(pv)?,
    };
    let k_name: Vec<u8> = vec![110u8, 97, 109, 101];
    assert(k_name@ =~= key_name());
    let name = match dict_get(entries, k_name.as_slice()) {
        None => {
            return Err(DecodeError::MissingField);
        },
        Some(nv) => read_text(nv, DecodeError::InvalidName)?,
    };
    let k_pieces: Vec<u8> = vec![112u8, 105, 101, 99, 101, 115];
    assert(k_pieces@ =~= key_pieces());
    let pieces = match dict_get(entries, k_pieces.as_slice()) {
        None => {
            return Err(DecodeError::MissingField);
        },
        Some(bv) => match bv {
            Value::ByteString(blob) => hashes_from_blob(blob.as_slice())?,
            _ => {
                return Err(DecodeError::InvalidField);
            },
        },
    };
    let keys = read_layout(entries)?;
    Ok(Info { plength, name, pieces, keys })
}

/// Builds a torrent from the outcome of parsing its announce text and from
/// its `info` dictionary: `InvalidAnnounceUrl` when there is no URL, else
/// what reading `info` gives.
pub fn assemble_torrent(announce: Option<reqwest::Url>, info: &Value) -> (r: Result<Torrent, DecodeError>)
    ensures
        announce is None ==> torrent_outcome(r) == Err::<InfoModel, _>(DecodeError::InvalidAnnounceUrl),
        announce is Some ==> torrent_outcome(r) == info_spec(info.model()),
{
    let url = match announce {
        Some(u) => u,
        None => {
            return Err(DecodeError::InvalidAnnounceUrl);
        },
    };
    let info = info_from_value(info)?;
    Ok(Torrent { announce: url, info })
}

/// The announce text of a top-level metainfo dictionary: `announce` must be
/// present and a byte string; text that is not UTF-8 cannot be a URL.
pub open spec fn announce_spec(v: Bencode) -> Result<Seq<char>, DecodeError> {
    match v {
        Bencode::Dict(d) => match required(d, key_announce()) {
            Err(e) => Err(e),
            Ok(av) => as_text(av, DecodeError::InvalidAnnounceUrl),
        },
        _ => Err(DecodeError::InvalidField),
    }
}

/// What reading a top-level metainfo dictionary gives, as the `info` it
/// holds: `announce` is read first and must parse as a URL, then `info`.
pub open spec fn torrent_spec(v: Bencode) -> Result<InfoModel, DecodeError> {
    match announce_spec(v) {
        Err(e) => Err(e),
        Ok(text) => if !url_parses(text) {
            Err(DecodeError::InvalidAnnounceUrl)
        } else {
            match v {
                Bencode::Dict(d) => match required(d, key_info()) {
                    Err(e) => Err(e),
                    Ok(iv) => info_spec(iv),
                },
                _ => Err(DecodeError::InvalidField),
            }
        },
    }
}

pub open spec fn torrent_outcome(r: Result<Torrent, DecodeError>) -> Result<InfoModel, DecodeError> {
    match r {
        Ok(t) => Ok(t.info.model()),
        Err(e) => Err(e),
    }
}

/// Reads a top-level metainfo dictionary into a `Torrent`.
pub fn torrent_from_value(v: &Value) -> (r: Result<Torrent, DecodeError>)
    ensures
        torrent_outcome(r) == torrent_spec(v.model()),
{
    let entries = match v {
        Value::Dictionary(entries) => entries,
        _ => {
            return Err(DecodeError::InvalidField);
        },
    };
    assert(v.model() matches Bencode::Dict(m) && m =~= entry_models(entries@));
    let k_announce: Vec<u8> = vec![97u8, 110, 110, 111, 117, 110, 99, 101];
    assert(k_announce@ =~= key_announce());
    let text = match dict_get(entries, k_announce.as_slice()) {
        None => {
            return Err(DecodeError::MissingField);
        },
        Some(av) => read_text(av, DecodeError::InvalidAnnounceUrl)?,
    };
    let url = parse_url(text.as_str());
    if url.is_none() {
        return Err(DecodeError::InvalidAnnounceUrl);
    }
    let k_info: Vec<u8> = vec![105u8, 110, 102, 111];
    assert(k_info@ =~= key_info());
    match dict_get(entries, k_info.as_slice()) {
        None => Err(DecodeError::MissingField),
        Some(iv) => assemble_torrent(url, iv),
    }
}

/// Decodes a metainfo file into a `Torrent`; bytes after the top-level value
/// are ignored.
pub fn decode_torrent(input: &[u8]) -> (r: Result<Torrent, DecodeError>)
    ensures
        torrent_outcome(r) == match crate::decode::decode_spec(
            input@,
            crate::decode::DEFAULT_MAX_DEPTH as nat,
        ) {
            Err(e) => Err(e),
            Ok((m, _)) => torrent_spec(m),
        },
{
    let (v, _rest) = crate::decode::decode_bencoded_value(input)?;
    torrent_from_value(&v)
}

/// The layout is chosen by which key is present: `length` alone can only
/// give a single file, `files` alone only a list of files, and both or
/// neither fail with `AmbiguousLayout`.
pub proof fn law_layout_by_key_presence(d: Seq<(Seq<u8>, Bencode)>)
    ensures
        lookup(d, key_length()) is Some && lookup(d, key_files()) is Some ==> layout_spec(d)
            == Err::<KeysModel, _>(DecodeError::AmbiguousLayout),
        lookup(d, key_length()) is None && lookup(d, key_files()) is None ==> layout_spec(d)
            == Err::<KeysModel, _>(DecodeError::AmbiguousLayout),
        lookup(d, key_length()) is Some && lookup(d, key_files()) is None ==> (layout_spec(d) is Err
            || layout_spec(d) matches Ok(KeysModel::SingleFile { .. })),
        lookup(d, key_length()) is None && lookup(d, key_files()) is Some ==> (layout_spec(d) is Err
            || layout_spec(d) matches Ok(KeysModel::MultiFile { .. })),
        match lookup(d, key_length()) {
            Some(Bencode::Int(n)) => 0 <= n <= usize::MAX && lookup(d, key_files()) is None
                ==> layout_spec(d) == Ok::<_, DecodeError>(KeysModel::SingleFile { length: n as nat }),
            _ => true,
        },
{
}

} // verus!



