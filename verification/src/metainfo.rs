//! Reading a metainfo file: what a bencoded value says of a torrent, and the
//! reasons for which it says nothing.

use vstd::prelude::*;
use vstd::string::{StringExecFns, StringSliceAdditionalSpecFns};
use vstd::utf8::{decode_utf8, valid_utf8};
use crate::bencoding::{
    entries_view, items_view, key_index, BEncoding, BEncodingParseError, BValue, DecodeReason,
    DictEntry,
};
use crate::error::Error;
use crate::geometry::piece_count;
use crate::torrent::{end_to_end, files_total, FileItem};
use crate::utils::sha1_digest;

verus! {

/// Why a value says nothing of a torrent.
pub ghost enum Failure {
    NotADict,
    NotAList,
    NotAInt,
    NotAStr,
    NotUtf8,
    MissingKey(Seq<char>),
    Decode(DecodeReason, int),
    MalformedPieces,
    InvalidLength,
}

/// The failure that a typed-read error stands for.
pub open spec fn parse_failure(e: BEncodingParseError) -> Failure {
    match e {
        BEncodingParseError::NotADict => Failure::NotADict,
        BEncodingParseError::NotAList => Failure::NotAList,
        BEncodingParseError::NotAInt => Failure::NotAInt,
        BEncodingParseError::NotAStr => Failure::NotAStr,
        BEncodingParseError::NotUtf8 => Failure::NotUtf8,
        BEncodingParseError::MissingKey(key) => Failure::MissingKey(key@),
    }
}

/// True when the error reports the failure.
pub open spec fn fails_with(e: Error, f: Failure) -> bool {
    match e {
        Error::BEncoding(inner) => parse_failure(inner) == f,
        Error::Decode(inner) => f == Failure::Decode(inner.reason, inner.offset as int),
        Error::MalformedPieces => f == Failure::MalformedPieces,
        Error::InvalidLength => f == Failure::InvalidLength,
        _ => false,
    }
}

/// The first index from `from` on whose entry has the key, or the number of
/// entries when there is none.
pub open spec fn find_entry(entries: Seq<(Seq<u8>, BValue)>, key: Seq<u8>, from: int) -> int
    decreases entries.len() - from,
{
    if 0 <= from < entries.len() {
        if entries[from].0 == key {
            from
        } else {
            find_entry(entries, key, from + 1)
        }
    } else {
        entries.len() as int
    }
}

/// The value bound to `key` in a dictionary, or the failure of the lookup.
pub open spec fn read_value(d: BValue, key: &str) -> Result<BValue, Failure> {
    match d {
        BValue::Dict(entries) => {
            let i = find_entry(entries, key.spec_bytes(), 0);
            if i < entries.len() {
                Ok(entries[i].1)
            } else {
                Err(Failure::MissingKey(key@))
            }
        },
        _ => Err(Failure::NotADict),
    }
}

/// The integer that a value is.
pub open spec fn as_int(v: BValue) -> Result<int, Failure> {
    match v {
        BValue::Int(n) => Ok(n),
        _ => Err(Failure::NotAInt),
    }
}

/// The text that a value holds.
pub open spec fn as_text(v: BValue) -> Result<Seq<char>, Failure> {
    match v {
        BValue::Str(s) => if valid_utf8(s) {
            Ok(decode_utf8(s))
        } else {
            Err(Failure::NotUtf8)
        },
        _ => Err(Failure::NotAStr),
    }
}

/// The bytes that a value holds.
pub open spec fn as_bytes(v: BValue) -> Result<Seq<u8>, Failure> {
    match v {
        BValue::Str(s) => Ok(s),
        _ => Err(Failure::NotAStr),
    }
}

/// The items that a value holds.
pub open spec fn as_list(v: BValue) -> Result<Seq<BValue>, Failure> {
    match v {
        BValue::List(items) => Ok(items),
        _ => Err(Failure::NotAList),
    }
}

/// The dictionary that a value is.
pub open spec fn as_dict(v: BValue) -> Result<BValue, Failure> {
    match v {
        BValue::Dict(_) => Ok(v),
        _ => Err(Failure::NotADict),
    }
}

/// The integer bound to `key`.
pub open spec fn read_int(d: BValue, key: &str) -> Result<int, Failure> {
    match read_value(d, key) {
        Ok(v) => as_int(v),
        Err(f) => Err(f),
    }
}

/// The text bound to `key`.
pub open spec fn read_text(d: BValue, key: &str) -> Result<Seq<char>, Failure> {
    match read_value(d, key) {
        Ok(v) => as_text(v),
        Err(f) => Err(f),
    }
}

/// The bytes bound to `key`.
pub open spec fn read_bytes(d: BValue, key: &str) -> Result<Seq<u8>, Failure> {
    match read_value(d, key) {
        Ok(v) => as_bytes(v),
        Err(f) => Err(f),
    }
}

/// The list bound to `key`.
pub open spec fn read_list(d: BValue, key: &str) -> Result<Seq<BValue>, Failure> {
    match read_value(d, key) {
        Ok(v) => as_list(v),
        Err(f) => Err(f),
    }
}

/// The dictionary bound to `key`.
pub open spec fn read_dict(d: BValue, key: &str) -> Result<BValue, Failure> {
    match read_value(d, key) {
        Ok(v) => as_dict(v),
        Err(f) => Err(f),
    }
}

proof fn lemma_key_index_view(map: Vec<DictEntry>, key: Seq<u8>, from: int)
    requires
        0 <= from,
    ensures
        key_index(map@, key, from) == find_entry(entries_view(map), key, from),
        from <= map@.len() ==> from <= key_index(map@, key, from) <= map@.len(),
    decreases map@.len() - from,
{
    if from < map@.len() {
        lemma_key_index_view(map, key, from + 1);
    }
}

/// A lookup in a value finds what a lookup in its content finds.
pub proof fn lemma_lookup_view(d: BEncoding, key: &str)
    ensures
        d.has_key(key.spec_bytes()) <==> read_value(d@, key) is Ok,
        d.has_key(key.spec_bytes()) ==> read_value(d@, key) == Ok::<BValue, Failure>(
            d.value_at(key.spec_bytes())@,
        ),
        !d.has_key(key.spec_bytes()) ==> read_value(d@, key) == Err::<BValue, Failure>(
            if d is Dict {
                Failure::MissingKey(key@)
            } else {
                Failure::NotADict
            },
        ),
{
    match d {
        BEncoding::Dict(map) => {
            lemma_key_index_view(map, key.spec_bytes(), 0);
            let i = key_index(map@, key.spec_bytes(), 0);
            if 0 <= i < map@.len() {
                assert(entries_view(map)[i] == (map@[i].key@, map@[i].value@));
            }
            assert(d@ == BValue::Dict(entries_view(map)));
        },
        _ => {},
    }
}

/// The integer bound to `key`.
pub fn int_at(d: &BEncoding, key: &str) -> (r: Result<i64, Error>)
    ensures
        match read_int(d@, key) {
            Ok(n) => r matches Ok(x) && x == n,
            Err(f) => r matches Err(e) && fails_with(e, f),
        },
{
    proof {
        lemma_lookup_view(*d, key);
    }
    match d.get_int(key) {
        Ok(n) => Ok(n),
        Err(e) => Err(Error::BEncoding(e)),
    }
}

/// The text bound to `key`.
pub fn text_at(d: &BEncoding, key: &str) -> (r: Result<String, Error>)
    ensures
        match read_text(d@, key) {
            Ok(t) => r matches Ok(x) && x@ == t,
            Err(f) => r matches Err(e) && fails_with(e, f),
        },
{
    proof {
        lemma_lookup_view(*d, key);
    }
    match d.get_str(key) {
        Ok(t) => Ok(t),
        Err(e) => Err(Error::BEncoding(e)),
    }
}

/// The bytes bound to `key`.
pub fn bytes_at(d: &BEncoding, key: &str) -> (r: Result<Vec<u8>, Error>)
    ensures
        match read_bytes(d@, key) {
            Ok(b) => r matches Ok(x) && x@ == b,
            Err(f) => r matches Err(e) && fails_with(e, f),
        },
{
    proof {
        lemma_lookup_view(*d, key);
    }
    match d.get_bytes(key) {
        Ok(b) => Ok(b),
        Err(e) => Err(Error::BEncoding(e)),
    }
}

/// The list bound to `key`.
pub fn list_at<'a>(d: &'a BEncoding, key: &str) -> (r: Result<&'a Vec<BEncoding>, Error>)
    ensures
        match read_list(d@, key) {
            Ok(items) => r matches Ok(x) && items_view(*x) == items,
            Err(f) => r matches Err(e) && fails_with(e, f),
        },
{
    proof {
        lemma_lookup_view(*d, key);
    }
    match d.get_list(key) {
        Ok(l) => Ok(l),
        Err(e) => Err(Error::BEncoding(e)),
    }
}

/// The dictionary bound to `key`.
pub fn dict_at<'a>(d: &'a BEncoding, key: &str) -> (r: Result<&'a BEncoding, Error>)
    ensures
        match read_dict(d@, key) {
            Ok(v) => r matches Ok(x) && x@ == v,
            Err(f) => r matches Err(e) && fails_with(e, f),
        },
{
    proof {
        lemma_lookup_view(*d, key);
    }
    match d.get_dict(key) {
        Ok(v) => Ok(v),
        Err(e) => Err(Error::BEncoding(e)),
    }
}

/// The text that a value holds.
pub fn text_of_value(v: &BEncoding) -> (r: Result<String, Error>)
    ensures
        match as_text(v@) {
            Ok(t) => r matches Ok(x) && x@ == t,
            Err(f) => r matches Err(e) && fails_with(e, f),
        },
{
    match v.to_str() {
        Ok(t) => Ok(t),
        Err(e) => Err(Error::BEncoding(e)),
    }
}


/// The texts of a list of strings.
pub open spec fn text_views(texts: Seq<String>) -> Seq<Seq<char>> {
    Seq::new(texts.len(), |i: int| texts[i]@)
}

/// The list with `url` at its end, unless it holds `url` already.
pub open spec fn add_url(urls: Seq<Seq<char>>, url: Seq<char>) -> Seq<Seq<char>> {
    if urls.contains(url) {
        urls
    } else {
        urls.push(url)
    }
}

/// `urls` and then the texts of the items `0 .. n`, each added once.
pub open spec fn tier_urls(items: Seq<BValue>, n: int, urls: Seq<Seq<char>>) -> Result<
    Seq<Seq<char>>,
    Failure,
>
    decreases n,
{
    if n <= 0 || n > items.len() {
        Ok(urls)
    } else {
        match tier_urls(items, n - 1, urls) {
            Err(f) => Err(f),
            Ok(before) => match as_text(items[n - 1]) {
                Err(f) => Err(f),
                Ok(url) => Ok(add_url(before, url)),
            },
        }
    }
}

/// `urls` and then the addresses in the lists `0 .. n`, each added once.
pub open spec fn list_urls(lists: Seq<BValue>, n: int, urls: Seq<Seq<char>>) -> Result<
    Seq<Seq<char>>,
    Failure,
>
    decreases n,
{
    if n <= 0 || n > lists.len() {
        Ok(urls)
    } else {
        match list_urls(lists, n - 1, urls) {
            Err(f) => Err(f),
            Ok(before) => match lists[n - 1] {
                BValue::List(items) => tier_urls(items, items.len() as int, before),
                _ => Err(Failure::NotAList),
            },
        }
    }
}

/// The tracker addresses of a metainfo: `announce`, then every address in
/// the list of lists `announce-list` where there is one, in order and
/// without repeats.
pub open spec fn urls_of(root: BValue) -> Result<Seq<Seq<char>>, Failure> {
    match read_text(root, "announce") {
        Err(f) => Err(f),
        Ok(announce) => match read_list(root, "announce-list") {
            Err(_) => Ok(seq![announce]),
            Ok(lists) => list_urls(lists, lists.len() as int, seq![announce]),
        },
    }
}

/// The hashes that a `pieces` string holds: twenty bytes each.
pub open spec fn hashes_of(pieces: Seq<u8>) -> Result<Seq<Seq<u8>>, Failure> {
    if pieces.len() % 20 == 0 {
        Ok(Seq::new(pieces.len() / 20, |i: int| pieces.subrange(20 * i, 20 * i + 20)))
    } else {
        Err(Failure::MalformedPieces)
    }
}

/// The mathematical content of a `FileItem`.
pub ghost struct FileView {
    pub length: int,
    pub offset: int,
    pub path: Seq<char>,
}

/// The contents of a list of files.
pub open spec fn file_views(files: Seq<FileItem>) -> Seq<FileView> {
    Seq::new(
        files.len(),
        |i: int| FileView { length: files[i].length as int, offset: files[i].offset as int, path: files[i].path@ },
    )
}

/// Where the last of the files ends in the content.
pub open spec fn end_of(files: Seq<FileView>) -> int {
    if files.len() == 0 {
        0
    } else {
        files.last().offset + files.last().length
    }
}

/// `base` and then the components `0 .. n`, each after a slash.
pub open spec fn path_of(base: Seq<char>, parts: Seq<BValue>, n: int) -> Result<Seq<char>, Failure>
    decreases n,
{
    if n <= 0 || n > parts.len() {
        Ok(base)
    } else {
        match path_of(base, parts, n - 1) {
            Err(f) => Err(f),
            Ok(before) => match as_text(parts[n - 1]) {
                Err(f) => Err(f),
                Ok(part) => Ok(before + "/"@ + part),
            },
        }
    }
}

/// The file that an entry of `files` describes, laid at `offset`.
pub open spec fn file_of(file: BValue, dir: Seq<char>, offset: int) -> Result<FileView, Failure> {
    match read_int(file, "length") {
        Err(f) => Err(f),
        Ok(length) => if length < 0 || offset + length > usize::MAX {
            Err(Failure::InvalidLength)
        } else {
            match read_list(file, "path") {
                Err(f) => Err(f),
                Ok(parts) => match path_of("./"@ + dir, parts, parts.len() as int) {
                    Err(f) => Err(f),
                    Ok(path) => Ok(FileView { length, offset, path }),
                },
            }
        },
    }
}

/// The files that the entries `0 .. n` describe, laid end to end.
pub open spec fn many_files(files: Seq<BValue>, dir: Seq<char>, n: int) -> Result<
    Seq<FileView>,
    Failure,
>
    decreases n,
{
    if n <= 0 || n > files.len() {
        Ok(Seq::empty())
    } else {
        match many_files(files, dir, n - 1) {
            Err(f) => Err(f),
            Ok(before) => match file_of(files[n - 1], dir, end_of(before)) {
                Err(f) => Err(f),
                Ok(file) => Ok(before.push(file)),
            },
        }
    }
}

/// The files of a torrent: those that the list `files` describes, under a
/// directory with the torrent's name; or, where there is no such list, one
/// file with the torrent's name and the length `length`.
pub open spec fn files_of(info: BValue, name: Seq<char>) -> Result<Seq<FileView>, Failure> {
    match read_list(info, "files") {
        Ok(files) => many_files(files, name, files.len() as int),
        Err(_) => match read_int(info, "length") {
            Err(f) => Err(f),
            Ok(length) => if 0 <= length <= usize::MAX {
                Ok(seq![FileView { length, offset: 0, path: "./"@ + name }])
            } else {
                Err(Failure::InvalidLength)
            },
        },
    }
}

/// What a metainfo says of a torrent.
pub ghost struct MetainfoView {
    pub name: Seq<char>,
    pub info_hash: Seq<u8>,
    pub urls: Seq<Seq<char>>,
    pub piece_size: int,
    pub hashes: Seq<Seq<u8>>,
    pub files: Seq<FileView>,
}

/// The rest of `load_spec`, once the name and the addresses are read.
pub open spec fn load_pieces(
    info: BValue,
    name: Seq<char>,
    urls: Seq<Seq<char>>,
) -> Result<MetainfoView, Failure> {
    match read_int(info, "piece length") {
        Err(f) => Err(f),
        Ok(piece_size) => if !(0 < piece_size <= u32::MAX) {
            Err(Failure::InvalidLength)
        } else {
            match read_bytes(info, "pieces") {
                Err(f) => Err(f),
                Ok(pieces) => match hashes_of(pieces) {
                    Err(f) => Err(f),
                    Ok(hashes) => match files_of(info, name) {
                        Err(f) => Err(f),
                        Ok(files) => if hashes.len() == piece_count(end_of(files), piece_size)
                            && hashes.len() <= u32::MAX {
                            Ok(
                                MetainfoView {
                                    name,
                                    info_hash: sha1_digest(crate::bencoding::encode_spec(info)),
                                    urls,
                                    piece_size,
                                    hashes,
                                    files,
                                },
                            )
                        } else {
                            Err(Failure::MalformedPieces)
                        },
                    },
                },
            }
        },
    }
}

/// What a decoded metainfo says of a torrent, or the first reason for which
/// it says nothing. The identity of the torrent is the digest of the
/// encoding of its `info` dictionary.
pub open spec fn load_spec(root: BValue) -> Result<MetainfoView, Failure> {
    match read_dict(root, "info") {
        Err(f) => Err(f),
        Ok(info) => match read_text(info, "name") {
            Err(f) => Err(f),
            Ok(name) => match urls_of(root) {
                Err(f) => Err(f),
                Ok(urls) => load_pieces(info, name, urls),
            },
        },
    }
}

fn has_url(urls: &Vec<String>, url: &String) -> (found: bool)
    ensures
        found == text_views(urls@).contains(url@),
{
    let mut i: usize = 0;
    while i < urls.len()
        invariant
            i <= urls@.len(),
            forall|k: int| 0 <= k < i ==> text_views(urls@)[k] != url@,
        decreases urls@.len() - i,
    {
        if urls[i] == *url {
            assert(text_views(urls@)[i as int] == url@);
            return true;
        }
        i += 1;
    }
    false
}

fn push_url(urls: &mut Vec<String>, url: String)
    ensures
        text_views(final(urls)@) == add_url(text_views(old(urls)@), url@),
{
    if !has_url(urls, &url) {
        urls.push(url);
        assert(text_views(urls@) =~= text_views(old(urls)@).push(url@));
    }
}

/// The tracker addresses of a metainfo.
pub fn tracker_urls(root: &BEncoding) -> (r: Result<Vec<String>, Error>)
    ensures
        match urls_of(root@) {
            Ok(urls) => r matches Ok(x) && text_views(x@) == urls,
            Err(f) => r matches Err(e) && fails_with(e, f),
        },
{
    let announce = text_at(root, "announce")?;
    let mut urls: Vec<String> = Vec::new();
    urls.push(announce);
    assert(text_views(urls@) =~= seq![announce@]);
    let lists = match list_at(root, "announce-list") {
        Err(_) => {
            return Ok(urls);
        },
        Ok(lists) => lists,
    };
    let ghost first = text_views(urls@);
    let ghost lists_v = items_view(*lists);
    let mut i: usize = 0;
    while i < lists.len()
        invariant
            i <= lists@.len(),
            lists_v == items_view(*lists),
            list_urls(lists_v, i as int, first) == Ok::<Seq<Seq<char>>, Failure>(text_views(urls@)),
            urls_of(root@) == list_urls(lists_v, lists_v.len() as int, first),
        decreases lists@.len() - i,
    {
        assert(lists_v[i as int] == lists@[i as int]@);
        match &lists[i] {
            BEncoding::List(items) => {
                let ghost before = text_views(urls@);
                let ghost items_v = items_view(*items);
                let mut j: usize = 0;
                while j < items.len()
                    invariant
                        j <= items@.len(),
                        i < lists@.len(),
                        lists_v.len() == lists@.len(),
                        items_v == items_view(*items),
                        lists_v[i as int] == BValue::List(items_v),
                        list_urls(lists_v, i as int, first) == Ok::<Seq<Seq<char>>, Failure>(
                            before,
                        ),
                        tier_urls(items_v, j as int, before) == Ok::<Seq<Seq<char>>, Failure>(
                            text_views(urls@),
                        ),
                        urls_of(root@) == list_urls(lists_v, lists_v.len() as int, first),
                    decreases items@.len() - j,
                {
                    assert(items_v[j as int] == items@[j as int]@);
                    match text_of_value(&items[j]) {
                        Err(e) => {
                            proof {
                                lemma_tier_fails(items_v, j + 1, items_v.len() as int, before);
                                lemma_list_fails(lists_v, i + 1, lists_v.len() as int, first);
                            }
                            return Err(e);
                        },
                        Ok(url) => {
                            push_url(&mut urls, url);
                        },
                    }
                    j += 1;
                }
            },
            _ => {
                proof {
                    lemma_list_fails(lists_v, i + 1, lists_v.len() as int, first);
                }
                return Err(Error::BEncoding(BEncodingParseError::NotAList));
            },
        }
        i += 1;
    }
    Ok(urls)
}

proof fn lemma_tier_fails(items: Seq<BValue>, n: int, m: int, urls: Seq<Seq<char>>)
    requires
        0 <= n <= m <= items.len(),
        tier_urls(items, n, urls) is Err,
    ensures
        tier_urls(items, m, urls) == tier_urls(items, n, urls),
    decreases m - n,
{
    if n < m {
        lemma_tier_fails(items, n, m - 1, urls);
    }
}

proof fn lemma_list_fails(lists: Seq<BValue>, n: int, m: int, urls: Seq<Seq<char>>)
    requires
        0 <= n <= m <= lists.len(),
        list_urls(lists, n, urls) is Err,
    ensures
        list_urls(lists, m, urls) == list_urls(lists, n, urls),
    decreases m - n,
{
    if n < m {
        lemma_list_fails(lists, n, m - 1, urls);
    }
}

/// The contents of a list of hashes.
pub open spec fn hash_views(hashes: Seq<crate::utils::Hash>) -> Seq<Seq<u8>> {
    Seq::new(hashes.len(), |i: int| hashes[i]@)
}

/// The hashes that a `pieces` string holds.
pub fn piece_hashes(pieces: &Vec<u8>) -> (r: Result<Vec<crate::utils::Hash>, Error>)
    ensures
        match hashes_of(pieces@) {
            Ok(hashes) => r matches Ok(x) && hash_views(x@) == hashes,
            Err(f) => r matches Err(e) && fails_with(e, f),
        },
{
    if pieces.len() % 20 != 0 {
        return Err(Error::MalformedPieces);
    }
    let len: usize = pieces.len();
    let n: usize = len / 20;
    let mut hashes: Vec<crate::utils::Hash> = Vec::new();
    let mut i: usize = 0;
    while i < n
        invariant
            i <= n,
            len == pieces@.len(),
            n == pieces@.len() / 20,
            pieces@.len() % 20 == 0,
            hashes@.len() == i,
            forall|k: int|
                0 <= k < i ==> (#[trigger] hashes@[k])@ == pieces@.subrange(20 * k, 20 * k + 20),
        decreases n - i,
    {
        let chunk = vstd::slice::slice_subrange(pieces.as_slice(), 20 * i, 20 * i + 20);
        hashes.push(crate::utils::Hash::from_slice(chunk));
        i += 1;
    }
    assert(hash_views(hashes@) =~= hashes_of(pieces@)->Ok_0);
    Ok(hashes)
}


proof fn lemma_path_fails(base: Seq<char>, parts: Seq<BValue>, n: int, m: int)
    requires
        0 <= n <= m <= parts.len(),
        path_of(base, parts, n) is Err,
    ensures
        path_of(base, parts, m) == path_of(base, parts, n),
    decreases m - n,
{
    if n < m {
        lemma_path_fails(base, parts, n, m - 1);
    }
}

proof fn lemma_many_fails(files: Seq<BValue>, dir: Seq<char>, n: int, m: int)
    requires
        0 <= n <= m <= files.len(),
        many_files(files, dir, n) is Err,
    ensures
        many_files(files, dir, m) == many_files(files, dir, n),
    decreases m - n,
{
    if n < m {
        lemma_many_fails(files, dir, n, m - 1);
    }
}

proof fn lemma_files_total_pushed(files: Seq<FileItem>, file: FileItem, n: int)
    requires
        0 <= n <= files.len(),
    ensures
        files_total(files.push(file), n) == files_total(files, n),
    decreases n,
{
    if n > 0 {
        lemma_files_total_pushed(files, file, n - 1);
    }
}

/// The path of one file of a torrent with many files.
pub fn file_path(name: &String, parts: &Vec<BEncoding>) -> (r: Result<String, Error>)
    ensures
        match path_of("./"@ + name@, items_view(*parts), parts@.len() as int) {
            Ok(path) => r matches Ok(x) && x@ == path,
            Err(f) => r matches Err(e) && fails_with(e, f),
        },
{
    let ghost parts_v = items_view(*parts);
    let ghost base = "./"@ + name@;
    let mut path = String::from_str("./");
    path.append(name.as_str());
    let mut j: usize = 0;
    while j < parts.len()
        invariant
            j <= parts@.len(),
            parts_v == items_view(*parts),
            base == "./"@ + name@,
            path_of(base, parts_v, j as int) == Ok::<Seq<char>, Failure>(path@),
        decreases parts@.len() - j,
    {
        assert(parts_v[j as int] == parts@[j as int]@);
        match text_of_value(&parts[j]) {
            Err(e) => {
                proof {
                    lemma_path_fails(base, parts_v, j + 1, parts_v.len() as int);
                }
                return Err(e);
            },
            Ok(part) => {
                path.append("/");
                path.append(part.as_str());
            },
        }
        j += 1;
    }
    Ok(path)
}

/// The files of a torrent, laid end to end.
pub fn file_items(info: &BEncoding, name: &String) -> (r: Result<Vec<FileItem>, Error>)
    ensures
        match files_of(info@, name@) {
            Ok(files) => r matches Ok(x) && file_views(x@) == files && end_to_end(x@)
                && files_total(x@, x@.len() as int) == end_of(files) && end_of(files)
                <= usize::MAX,
            Err(f) => r matches Err(e) && fails_with(e, f),
        },
{
    let mut items: Vec<FileItem> = Vec::new();
    match list_at(info, "files") {
        Ok(files) => {
            let ghost files_v = items_view(*files);
            let mut offset: usize = 0;
            let mut i: usize = 0;
            assert(file_views(items@) =~= Seq::<FileView>::empty());
            while i < files.len()
                invariant
                    i <= files@.len(),
                    files_v == items_view(*files),
                    files_of(info@, name@) == many_files(files_v, name@, files_v.len() as int),
                    many_files(files_v, name@, i as int) == Ok::<Seq<FileView>, Failure>(
                        file_views(items@),
                    ),
                    offset == end_of(file_views(items@)),
                    offset == files_total(items@, items@.len() as int),
                    end_to_end(items@),
                decreases files@.len() - i,
            {
                assert(files_v[i as int] == files@[i as int]@);
                let file = &files[i];
                let length = match int_at(file, "length") {
                    Err(e) => {
                        proof {
                            lemma_many_fails(files_v, name@, i + 1, files_v.len() as int);
                        }
                        return Err(e);
                    },
                    Ok(length) => length,
                };
                if length < 0 || length as u64 > (usize::MAX - offset) as u64 {
                    proof {
                        lemma_many_fails(files_v, name@, i + 1, files_v.len() as int);
                    }
                    return Err(Error::InvalidLength);
                }
                let parts = match list_at(file, "path") {
                    Err(e) => {
                        proof {
                            lemma_many_fails(files_v, name@, i + 1, files_v.len() as int);
                        }
                        return Err(e);
                    },
                    Ok(parts) => parts,
                };
                let path = match file_path(name, parts) {
                    Err(e) => {
                        proof {
                            lemma_many_fails(files_v, name@, i + 1, files_v.len() as int);
                        }
                        return Err(e);
                    },
                    Ok(path) => path,
                };
                let ghost before = items@;
                let item = FileItem { length: length as usize, offset, path };
                items.push(item);
                proof {
                    assert(file_views(items@) =~= file_views(before).push(
                        FileView { length: length as int, offset: offset as int, path: path@ },
                    ));
                    assert forall|k: int| 0 <= k < items@.len() implies (
                    #[trigger] items@[k]).offset == files_total(items@, k) by {
                        lemma_files_total_pushed(before, item, k);
                    }
                    lemma_files_total_pushed(before, item, before.len() as int);
                }
                offset = offset + length as usize;
                i += 1;
            }
            Ok(items)
        },
        Err(_) => {
            let length = int_at(info, "length")?;
            if length < 0 || length as u64 > usize::MAX as u64 {
                return Err(Error::InvalidLength);
            }
            let mut path = String::from_str("./");
            path.append(name.as_str());
            items.push(FileItem { length: length as usize, offset: 0, path });
            assert(file_views(items@) =~= seq![
                FileView { length: length as int, offset: 0, path: "./"@ + name@ },
            ]);
            assert(files_total(items@, 0) == 0);
            Ok(items)
        },
    }
}

} // verus!
