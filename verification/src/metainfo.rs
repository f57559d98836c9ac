//! `.torrent` metainfo: type definitions, parsing and the info hash.
//!
//! A `.torrent` is a bencoded dictionary; the most important nested value is the `info`
//! dictionary, whose SHA-1 hash (the "info hash") uniquely identifies the torrent on the wire
//! and to trackers.

use vstd::prelude::*;
use crate::bencode::{
    encoded_bytes, encoded_number, encoded_text, push_bytes, push_number, push_text, Bencode,
    BencodeView, DICT, END, LIST,
};
use crate::decode::{metainfo_of, read_metainfo, tier_texts};
use crate::digest::{sha1_digest, sha1_of};
use crate::error::{outcome, BencodeError, BencodeFault, Error, Fault, Result};
use crate::peer::handshake::take_20;
use crate::keys::{find_key_fault, key_fault};
use crate::outline::{read_outline, torrent_outline};
use crate::span::{extract_raw_info, info_span};
use crate::text::{debug_text, hex, push_hex, quoted};

verus! {

/// The number of bytes in a SHA-1 digest. Each piece hash, and the info hash itself, is exactly
/// this wide.
pub const SHA1_LEN: usize = 20;

/// A 20-byte SHA-1 info hash, wrapped in a newtype so it cannot be confused with arbitrary byte
/// buffers elsewhere (e.g. peer IDs, piece hashes).
#[derive(Debug, Clone, Copy, PartialEq, Eq, Hash)]
pub struct InfoHash(pub [u8; SHA1_LEN]);

impl View for InfoHash {
    type V = Seq<u8>;

    open spec fn view(&self) -> Seq<u8> {
        self.0@
    }
}

impl InfoHash {
    /// Borrow the raw 20 bytes (e.g. for the tracker `info_hash` query param).
    pub fn as_bytes(&self) -> (bytes: &[u8; SHA1_LEN])
        ensures
            *bytes == self.0,
    {
        &self.0
    }

    /// The hash in lower-case hexadecimal.
    pub fn to_string(&self) -> (text: String)
        ensures
            text@ == hex(self@),
    {
        let mut text = String::new();
        push_hex(&mut text, self.0.as_slice());
        assert(text@ =~= hex(self@));
        text
    }
}

/// One entry in a multi-file torrent's `files` list.
#[derive(Debug, PartialEq, Eq)]
pub struct FileEntry {
    /// Length of this file in bytes.
    pub length: u64,
    /// Path components, relative to the torrent's root directory. Bencode stores the path as a
    /// list so we never have to parse separators.
    pub path: Vec<String>,
    /// Optional legacy MD5 checksum; almost never present in modern torrents.
    pub md5sum: Option<String>,
}

/// The `info` dictionary: describes the content being shared.
///
/// This is a *typed view* of the info dict, not the source of truth for the info hash. A
/// `.torrent` may carry info-dict keys we don't model here (a top-level `md5sum`, a tracker
/// `source` tag, BitTorrent v2 fields, ...). Re-serializing this struct would silently drop
/// those keys and produce a hash no tracker recognizes, so the real info hash is taken from the
/// original bytes at parse time (see [`Metainfo::from_bytes`]).
#[derive(Debug, PartialEq, Eq)]
pub struct Info {
    /// Suggested file name (single-file) or root directory name (multi-file).
    pub name: String,
    /// Number of bytes in each piece (the final piece may be shorter).
    pub piece_length: u64,
    /// Concatenated 20-byte SHA-1 digests, one per piece.
    pub pieces: Vec<u8>,
    /// Present only in single-file mode: the total length of the lone file.
    pub length: Option<u64>,
    /// Present only in multi-file mode: the list of files under `name`.
    pub files: Option<Vec<FileEntry>>,
    /// `1` if this is a private torrent (tracker-only, no DHT/PEX).
    pub private: Option<u8>,
}

/// A normalized view of the torrent's file layout, hiding the single-vs-multi distinction from
/// the rest of the crate.
#[derive(Debug, PartialEq, Eq)]
pub enum FileLayout {
    /// One file of the given length, named `Info::name`.
    Single { length: u64 },
    /// Multiple files rooted at a directory named `Info::name`.
    Multi { files: Vec<FileEntry> },
}

/// The top-level `.torrent` metainfo dictionary.
#[derive(Debug, PartialEq, Eq)]
pub struct Metainfo {
    /// Primary tracker URL. Optional because DHT-only / announce-list-only torrents may omit
    /// it.
    pub announce: Option<String>,
    /// Tiered list of backup trackers (BEP 12). Outer list = tiers, inner = trackers within a
    /// tier.
    pub announce_list: Option<Vec<Vec<String>>>,
    /// The info dictionary describing the content.
    pub info: Info,
    pub comment: Option<String>,
    pub created_by: Option<String>,
    pub creation_date: Option<i64>,
    pub encoding: Option<String>,
    /// SHA-1 of the *original* `info`-dict bytes, captured during [`Metainfo::from_bytes`].
    /// This, not a re-serialization of [`Info`], is the authoritative info hash. `None` when the
    /// `Metainfo` was built by hand rather than parsed from bytes.
    pub raw_info_hash: Option<InfoHash>,
}

/// A [`Metainfo`] over plain values.
#[verifier::ext_equal]
pub struct MetainfoView {
    pub announce: Option<Seq<char>>,
    pub announce_list: Option<Seq<Seq<Seq<char>>>>,
    pub info: InfoView,
    pub comment: Option<Seq<char>>,
    pub created_by: Option<Seq<char>>,
    pub creation_date: Option<i64>,
    pub encoding: Option<Seq<char>>,
    pub raw_info_hash: Option<Seq<u8>>,
}

impl View for Metainfo {
    type V = MetainfoView;

    open spec fn view(&self) -> MetainfoView {
        MetainfoView {
            announce: optional_text(self.announce),
            announce_list: match self.announce_list {
                Some(tiers) => Some(tier_texts(tiers@)),
                None => None,
            },
            info: self.info@,
            comment: optional_text(self.comment),
            created_by: optional_text(self.created_by),
            creation_date: self.creation_date,
            encoding: optional_text(self.encoding),
            raw_info_hash: match self.raw_info_hash {
                Some(hash) => Some(hash@),
                None => None,
            },
        }
    }
}

/// A [`FileEntry`] over plain values.
#[verifier::ext_equal]
pub struct FileEntryView {
    pub length: u64,
    pub path: Seq<Seq<char>>,
    pub md5sum: Option<Seq<char>>,
}

/// An [`Info`] over plain values.
#[verifier::ext_equal]
pub struct InfoView {
    pub name: Seq<char>,
    pub piece_length: u64,
    pub pieces: Seq<u8>,
    pub length: Option<u64>,
    pub files: Option<Seq<FileEntryView>>,
    pub private: Option<u8>,
}

/// A [`FileLayout`] over plain values.
#[verifier::ext_equal]
pub enum FileLayoutView {
    Single { length: u64 },
    Multi { files: Seq<FileEntryView> },
}

/// The texts that strings hold.
pub open spec fn texts(strings: Seq<String>) -> Seq<Seq<char>> {
    Seq::new(strings.len(), |i: int| strings[i]@)
}

/// The text that an optional string holds.
pub open spec fn optional_text(string: Option<String>) -> Option<Seq<char>> {
    match string {
        Some(string) => Some(string@),
        None => None,
    }
}

/// The entries of a file list, over plain values.
pub open spec fn file_entries(files: Seq<FileEntry>) -> Seq<FileEntryView> {
    Seq::new(files.len(), |i: int| files[i]@)
}

impl View for FileEntry {
    type V = FileEntryView;

    open spec fn view(&self) -> FileEntryView {
        FileEntryView {
            length: self.length,
            path: texts(self.path@),
            md5sum: optional_text(self.md5sum),
        }
    }
}

impl View for Info {
    type V = InfoView;

    open spec fn view(&self) -> InfoView {
        InfoView {
            name: self.name@,
            piece_length: self.piece_length,
            pieces: self.pieces@,
            length: self.length,
            files: match self.files {
                Some(files) => Some(file_entries(files@)),
                None => None,
            },
            private: self.private,
        }
    }
}

impl View for FileLayout {
    type V = FileLayoutView;

    open spec fn view(&self) -> FileLayoutView {
        match self {
            FileLayout::Single { length } => FileLayoutView::Single { length: *length },
            FileLayout::Multi { files } => FileLayoutView::Multi { files: file_entries(files@) },
        }
    }
}

/// The layout of the files: exactly one of `length` and `files` must be there.
pub open spec fn layout_of(info: InfoView) -> std::result::Result<FileLayoutView, Fault> {
    match (info.length, info.files) {
        (Some(length), None) => Ok(FileLayoutView::Single { length }),
        (None, Some(files)) => Ok(FileLayoutView::Multi { files }),
        _ => Err(Fault::InvalidFileLayout),
    }
}

/// The sum of the lengths of `files`.
pub open spec fn sum_lengths(files: Seq<FileEntryView>) -> nat
    decreases files.len(),
{
    if files.len() == 0 {
        0
    } else {
        sum_lengths(files.drop_last()) + files.last().length as nat
    }
}

/// The length of the content across all files.
pub open spec fn content_length(layout: FileLayoutView) -> nat {
    match layout {
        FileLayoutView::Single { length } => length as nat,
        FileLayoutView::Multi { files } => sum_lengths(files),
    }
}

/// The content length of the torrent, or why it has none.
pub open spec fn total_length_of(info: InfoView) -> std::result::Result<nat, Fault> {
    match layout_of(info) {
        Ok(layout) => Ok(content_length(layout)),
        Err(fault) => Err(fault),
    }
}

/// Whether the content length fits in 64 bits, where there is one.
pub open spec fn length_fits(info: InfoView) -> bool {
    total_length_of(info) matches Ok(total) ==> total <= u64::MAX
}

/// The digest of piece `index`.
pub open spec fn piece_hash(pieces: Seq<u8>, index: int) -> Seq<u8> {
    pieces.subrange(20 * index, 20 * index + 20)
}

/// The components of a path in bencode, one after another.
pub open spec fn encoded_path(path: Seq<Seq<char>>) -> Seq<u8>
    decreases path.len(),
{
    if path.len() == 0 {
        Seq::empty()
    } else {
        encoded_path(path.drop_last()) + encoded_text(path.last())
    }
}

/// A file entry as a bencoded dictionary, its keys in sorted order.
pub open spec fn encoded_file(file: FileEntryView) -> Seq<u8> {
    seq![DICT] + (encoded_text("length"@) + encoded_number(file.length as nat)) + md5sum_entry(
        file.md5sum,
    ) + (encoded_text("path"@) + seq![LIST] + encoded_path(file.path) + seq![END]) + seq![END]
}

/// The `md5sum` entry of a file, left out where there is none.
pub open spec fn md5sum_entry(md5sum: Option<Seq<char>>) -> Seq<u8> {
    match md5sum {
        Some(md5sum) => encoded_text("md5sum"@) + encoded_text(md5sum),
        None => Seq::empty(),
    }
}

/// The file entries one after another.
pub open spec fn encoded_files(files: Seq<FileEntryView>) -> Seq<u8>
    decreases files.len(),
{
    if files.len() == 0 {
        Seq::empty()
    } else {
        encoded_files(files.drop_last()) + encoded_file(files.last())
    }
}

/// A key and its value in bencode.
pub open spec fn encoded_entry(key: Seq<char>, value: Seq<u8>) -> Seq<u8> {
    encoded_text(key) + value
}

/// The `files` entry, left out where there are none.
pub open spec fn files_entry(files: Option<Seq<FileEntryView>>) -> Seq<u8> {
    match files {
        Some(files) => encoded_entry("files"@, seq![LIST] + encoded_files(files) + seq![END]),
        None => Seq::empty(),
    }
}

/// An entry for a number, left out where there is none.
pub open spec fn optional_number_entry(key: Seq<char>, number: Option<nat>) -> Seq<u8> {
    match number {
        Some(number) => encoded_entry(key, encoded_number(number)),
        None => Seq::empty(),
    }
}

/// The info dictionary in bencode, its keys in sorted order and absent values left out.
pub open spec fn encoded_info(info: InfoView) -> Seq<u8> {
    seq![DICT] + files_entry(info.files) + optional_number_entry(
        "length"@,
        match info.length {
            Some(length) => Some(length as nat),
            None => None,
        },
    ) + encoded_entry("name"@, encoded_text(info.name)) + encoded_entry(
        "piece length"@,
        encoded_number(info.piece_length as nat),
    ) + encoded_entry("pieces"@, encoded_bytes(info.pieces)) + optional_number_entry(
        "private"@,
        match info.private {
            Some(private) => Some(private as nat),
            None => None,
        },
    ) + seq![END]
}

/// The announce URLs of a torrent: the primary one, then those of the tiers in order.
pub open spec fn listed_trackers(meta: MetainfoView) -> Seq<Seq<char>> {
    (match meta.announce {
        Some(url) => seq![url],
        None => Seq::empty(),
    }) + (match meta.announce_list {
        Some(tiers) => flatten(tiers),
        None => Seq::empty(),
    })
}

/// The tiers one after another.
pub open spec fn flatten(tiers: Seq<Seq<Seq<char>>>) -> Seq<Seq<char>>
    decreases tiers.len(),
{
    if tiers.len() == 0 {
        Seq::empty()
    } else {
        flatten(tiers.drop_last()) + tiers.last()
    }
}

/// The items, each where it first appears.
pub open spec fn first_appearances<T>(items: Seq<T>) -> Seq<T>
    decreases items.len(),
{
    if items.len() == 0 {
        Seq::empty()
    } else {
        add_new(first_appearances(items.drop_last()), items.last())
    }
}

/// The items with one more, unless it is there already.
pub open spec fn add_new<T>(items: Seq<T>, item: T) -> Seq<T> {
    if items.contains(item) {
        items
    } else {
        items.push(item)
    }
}

/// Whether a name from a torrent could lead out of the download directory: it is empty, names
/// this or the parent directory, or holds a separator or a NUL.
pub open spec fn is_unsafe_component(component: Seq<char>) -> bool {
    ||| component.len() == 0
    ||| component == "."@
    ||| component == ".."@
    ||| component.contains('/')
    ||| component.contains('\\')
    ||| component.contains('\0')
}

/// The complaint about an unsafe name.
pub open spec fn unsafe_text(component: Seq<char>) -> Seq<char> {
    "unsafe path component "@ + debug_text(component) + " in torrent (possible path traversal)"@
}

/// The first unsafe component of a path.
pub open spec fn first_unsafe(path: Seq<Seq<char>>) -> Option<Seq<char>>
    decreases path.len(),
{
    if path.len() == 0 {
        None
    } else {
        match first_unsafe(path.drop_last()) {
            Some(component) => Some(component),
            None => if is_unsafe_component(path.last()) {
                Some(path.last())
            } else {
                None
            },
        }
    }
}

/// The first unsafe component of the paths of files.
pub open spec fn first_unsafe_of(files: Seq<FileEntryView>) -> Option<Seq<char>>
    decreases files.len(),
{
    if files.len() == 0 {
        None
    } else {
        match first_unsafe_of(files.drop_last()) {
            Some(component) => Some(component),
            None => first_unsafe(files.last().path),
        }
    }
}

/// Where each file goes, as the names from `root` down, with its length.
pub open spec fn paths_under(root: Seq<Seq<char>>, info: InfoView) -> std::result::Result<
    Seq<(Seq<Seq<char>>, u64)>,
    Fault,
> {
    if is_unsafe_component(info.name) {
        Err(Fault::MalformedTorrent(unsafe_text(info.name)))
    } else {
        match layout_of(info) {
            Err(fault) => Err(fault),
            Ok(FileLayoutView::Single { length }) => Ok(seq![(root.push(info.name), length)]),
            Ok(FileLayoutView::Multi { files }) => match first_unsafe_of(files) {
                Some(component) => Err(Fault::MalformedTorrent(unsafe_text(component))),
                None => Ok(
                    Seq::new(
                        files.len(),
                        |i: int| (root.push(info.name) + files[i].path, files[i].length),
                    ),
                ),
            },
        }
    }
}

/// Paths with lengths, over plain values.
pub open spec fn path_list(paths: Seq<(Vec<String>, u64)>) -> Seq<(Seq<Seq<char>>, u64)> {
    Seq::new(paths.len(), |i: int| (texts(paths[i].0@), paths[i].1))
}

/// The torrent that `bytes` hold, where `parsed` is the value at their front as far as it is read
/// (`None` where that is no bencode); or what is wrong with them.
pub open spec fn metainfo_from(bytes: Seq<u8>, parsed: Option<BencodeView>) -> std::result::Result<
    MetainfoView,
    Fault,
> {
    match parsed {
        None => Err(Fault::BencodeDecode(BencodeFault::Syntax)),
        Some(value) => match key_fault(bytes) {
            Some(fault) => Err(Fault::BencodeDecode(fault)),
            None => match metainfo_of(value) {
                Err(fault) => Err(Fault::BencodeDecode(fault)),
                Ok(meta) => match info_span(bytes) {
                    Err(text) => Err(Fault::MalformedTorrent(text)),
                    Ok((start, end)) => Ok(
                        MetainfoView {
                            raw_info_hash: Some(sha1_of(bytes.subrange(start, end))),
                            ..meta
                        },
                    ),
                },
            },
        },
    }
}

/// A copy of a list of strings.
pub fn clone_texts(strings: &Vec<String>) -> (copy: Vec<String>)
    ensures
        texts(copy@) == texts(strings@),
{
    let mut copy: Vec<String> = Vec::new();
    let mut i: usize = 0;
    while i < strings.len()
        invariant
            i <= strings@.len(),
            copy@.len() == i,
            forall|k: int| 0 <= k < i ==> copy@[k]@ == strings@[k]@,
        decreases strings@.len() - i,
    {
        copy.push(strings[i].clone());
        i += 1;
    }
    assert(texts(copy@) =~= texts(strings@));
    copy
}

/// A copy of an optional string.
pub fn clone_optional_text(string: &Option<String>) -> (copy: Option<String>)
    ensures
        optional_text(copy) == optional_text(*string),
{
    match string {
        Some(string) => Some(string.clone()),
        None => None,
    }
}

/// A copy of a file list.
pub fn clone_files(files: &Vec<FileEntry>) -> (copy: Vec<FileEntry>)
    ensures
        file_entries(copy@) == file_entries(files@),
{
    let mut copy: Vec<FileEntry> = Vec::new();
    let mut i: usize = 0;
    while i < files.len()
        invariant
            i <= files@.len(),
            copy@.len() == i,
            forall|k: int| 0 <= k < i ==> copy@[k]@ == files@[k]@,
        decreases files@.len() - i,
    {
        copy.push(files[i].clone());
        i += 1;
    }
    assert(file_entries(copy@) =~= file_entries(files@));
    copy
}

impl Clone for FileEntry {
    fn clone(&self) -> (copy: Self)
        ensures
            copy@ == self@,
    {
        FileEntry {
            length: self.length,
            path: clone_texts(&self.path),
            md5sum: clone_optional_text(&self.md5sum),
        }
    }
}

impl Clone for Info {
    fn clone(&self) -> (copy: Self)
        ensures
            copy@ == self@,
    {
        let pieces: Vec<u8> = self.pieces.clone();
        assert(pieces@ =~= self.pieces@);
        Info {
            name: self.name.clone(),
            piece_length: self.piece_length,
            pieces,
            length: self.length,
            files: match &self.files {
                Some(files) => Some(clone_files(files)),
                None => None,
            },
            private: self.private,
        }
    }
}

/// A copy of tiers of strings.
pub fn clone_tiers(tiers: &Vec<Vec<String>>) -> (copy: Vec<Vec<String>>)
    ensures
        tier_texts(copy@) == tier_texts(tiers@),
{
    let mut copy: Vec<Vec<String>> = Vec::new();
    let mut i: usize = 0;
    while i < tiers.len()
        invariant
            i <= tiers@.len(),
            copy@.len() == i,
            forall|k: int| 0 <= k < i ==> texts((#[trigger] copy@[k])@) == texts(tiers@[k]@),
        decreases tiers@.len() - i,
    {
        copy.push(clone_texts(&tiers[i]));
        i += 1;
    }
    assert(tier_texts(copy@) =~= tier_texts(tiers@));
    copy
}

impl Clone for Metainfo {
    fn clone(&self) -> (copy: Self)
        ensures
            copy@ == self@,
    {
        Metainfo {
            announce: clone_optional_text(&self.announce),
            announce_list: match &self.announce_list {
                Some(tiers) => Some(clone_tiers(tiers)),
                None => None,
            },
            info: self.info.clone(),
            comment: clone_optional_text(&self.comment),
            created_by: clone_optional_text(&self.created_by),
            creation_date: self.creation_date,
            encoding: clone_optional_text(&self.encoding),
            raw_info_hash: self.raw_info_hash,
        }
    }
}

impl Clone for FileLayout {
    fn clone(&self) -> (copy: Self)
        ensures
            copy@ == self@,
    {
        match self {
            FileLayout::Single { length } => FileLayout::Single { length: *length },
            FileLayout::Multi { files } => FileLayout::Multi { files: clone_files(files) },
        }
    }
}

impl Info {
    /// Compute an info hash by **re-serializing** this typed struct to bencode.
    ///
    /// This is correct *only* when the struct captures every key the original info dict held.
    /// It does not when the torrent carries keys we don't model (the common case). Prefer
    /// [`Metainfo::info_hash`], which hashes the original bytes. This method exists for `Info`
    /// values that were constructed in-memory and therefore have no original bytes to point
    /// back to.
    pub fn info_hash(&self) -> (result: Result<InfoHash>)
        ensures
            outcome(result) == Ok::<Seq<u8>, Fault>(sha1_of(encoded_info(self@))),
    {
        let encoded: Vec<u8> = self.to_bencode();
        Ok(InfoHash(sha1_digest(encoded.as_slice())))
    }

    /// The info dictionary in bencode.
    pub fn to_bencode(&self) -> (bytes: Vec<u8>)
        ensures
            bytes@ == encoded_info(self@),
    {
        let mut out: Vec<u8> = Vec::new();
        out.push(DICT);
        let ghost s0 = out@;
        match &self.files {
            Some(files) => {
                push_files_entry(&mut out, files);
            },
            None => {
                assert(out@ =~= s0 + files_entry(None));
            },
        }
        let ghost s1 = out@;
        match self.length {
            Some(length) => {
                push_number_entry(&mut out, "length", length);
            },
            None => {
                assert(out@ =~= s1 + optional_number_entry("length"@, None));
            },
        }
        push_text_entry(&mut out, "name", self.name.as_str());
        push_number_entry(&mut out, "piece length", self.piece_length);
        let ghost s4 = out@;
        push_text(&mut out, "pieces");
        push_bytes(&mut out, self.pieces.as_slice());
        proof {
            lemma_append(s4, encoded_text("pieces"@), encoded_bytes(self@.pieces));
        }
        let ghost s5 = out@;
        match self.private {
            Some(private) => {
                push_number_entry(&mut out, "private", private as u64);
            },
            None => {
                assert(out@ =~= s5 + optional_number_entry("private"@, None));
            },
        }
        let ghost s6 = out@;
        out.push(END);
        assert(out@ =~= s6 + seq![END]);
        assert(s0 =~= seq![DICT]);
        out
    }

    /// Total number of pieces in the torrent.
    pub fn num_pieces(&self) -> (n: usize)
        ensures
            n == self@.pieces.len() / 20,
    {
        self.pieces.len() / SHA1_LEN
    }

    /// Each piece's 20-byte SHA-1 hash, in order.
    ///
    /// Returns an error if `pieces` is not a clean multiple of 20 bytes.
    pub fn piece_hashes(&self) -> (result: Result<Vec<[u8; SHA1_LEN]>>)
        ensures
            if self@.pieces.len() % 20 == 0 {
                &&& result matches Ok(hashes)
                &&& hashes@.len() == self@.pieces.len() / 20
                &&& forall|i: int|
                    0 <= i < hashes@.len() ==> (#[trigger] hashes@[i])@ == piece_hash(
                        self@.pieces,
                        i,
                    )
            } else {
                &&& result matches Err(error)
                &&& error@ == Fault::InvalidPiecesLength(self@.pieces.len())
            },
    {
        if self.pieces.len() % SHA1_LEN != 0 {
            return Err(Error::InvalidPiecesLength(self.pieces.len()));
        }
        let n: usize = self.pieces.len() / SHA1_LEN;
        let mut hashes: Vec<[u8; SHA1_LEN]> = Vec::new();
        let mut i: usize = 0;
        while i < n
            invariant
                i <= n,
                n * 20 == self.pieces@.len(),
                n * 20 <= usize::MAX,
                hashes@.len() == i,
                forall|k: int|
                    0 <= k < i ==> (#[trigger] hashes@[k])@ == piece_hash(self@.pieces, k),
            decreases n - i,
        {
            hashes.push(take_20(self.pieces.as_slice(), i * 20));
            i += 1;
        }
        Ok(hashes)
    }

    /// Normalize the single-vs-multi file representation.
    pub fn layout(&self) -> (result: Result<FileLayout>)
        ensures
            outcome(result) == layout_of(self@),
    {
        match (self.length, &self.files) {
            (Some(length), None) => Ok(FileLayout::Single { length }),
            (None, Some(files)) => Ok(FileLayout::Multi { files: clone_files(files) }),
            _ => Err(Error::InvalidFileLayout),
        }
    }

    /// Total content length in bytes, across all files.
    pub fn total_length(&self) -> (result: Result<u64>)
        requires
            length_fits(self@),
        ensures
            match total_length_of(self@) {
                Ok(total) => result matches Ok(found) && found == total,
                Err(fault) => result matches Err(error) && error@ == fault,
            },
    {
        match self.layout() {
            Err(error) => Err(error),
            Ok(FileLayout::Single { length }) => Ok(length),
            Ok(FileLayout::Multi { files }) => {
                match sum_of_lengths(&files) {
                    Some(total) => Ok(total),
                    None => Ok(0),
                }
            },
        }
    }

    /// Whether the content length fits in 64 bits, so that [`total_length`](Self::total_length)
    /// may be called.
    pub fn length_fits(&self) -> (fits: bool)
        ensures
            fits == length_fits(self@),
    {
        match self.layout() {
            Ok(FileLayout::Multi { files }) => {
                match sum_of_lengths(&files) {
                    Some(_) => true,
                    None => false,
                }
            },
            _ => true,
        }
    }
}

/// Hash the exact bytes of the top-level `info` value. Hashing the original bytes (rather than a
/// re-encode of our typed struct) is the only way to get an info hash that matches what every
/// other client and tracker computes.
pub fn raw_info_hash(buf: &[u8]) -> (result: Result<InfoHash>)
    ensures
        match info_span(buf@) {
            Ok((start, end)) => {
                &&& 0 <= start <= end <= buf@.len()
                &&& result matches Ok(hash)
                &&& hash@ == sha1_of(buf@.subrange(start, end))
            },
            Err(text) => result matches Err(error) && error@ == Fault::MalformedTorrent(text),
        },
{
    match extract_raw_info(buf) {
        Err(error) => Err(error),
        Ok(info) => Ok(InfoHash(sha1_digest(info))),
    }
}

impl Metainfo {
    /// Parse metainfo from in-memory bencoded bytes.
    ///
    /// Besides the typed fields, this captures the SHA-1 of the original `info`-dict bytes so
    /// [`info_hash`](Self::info_hash) is faithful even for torrents carrying keys we don't
    /// model.
    pub fn from_bytes(bytes: &[u8]) -> (result: Result<Self>)
        ensures
            outcome(result) == metainfo_from(bytes@, torrent_outline(bytes@)),
    {
        match read_outline(bytes) {
            Err(text) => Err(Error::BencodeDecode(BencodeError::Syntax(text))),
            Ok(value) => Metainfo::from_value(bytes, &value),
        }
    }

    /// The torrent that `bytes` hold, where `value` is the bencoded value at their front, as far
    /// as it is read.
    pub fn from_value(bytes: &[u8], value: &Bencode) -> (result: Result<Self>)
        ensures
            outcome(result) == metainfo_from(bytes@, Some(value.view())),
    {
        match find_key_fault(bytes) {
            Some(error) => return Err(Error::BencodeDecode(error)),
            None => {},
        }
        let mut meta: Metainfo = match read_metainfo(value) {
            Err(error) => return Err(Error::BencodeDecode(error)),
            Ok(meta) => meta,
        };
        match raw_info_hash(bytes) {
            Err(error) => Err(error),
            Ok(hash) => {
                meta.raw_info_hash = Some(hash);
                Ok(meta)
            },
        }
    }

    /// The torrent's info hash.
    ///
    /// Returns the hash captured from the original `info`-dict bytes when this `Metainfo` was
    /// parsed via [`from_bytes`](Self::from_bytes). For a hand-constructed `Metainfo` (no
    /// original bytes), it falls back to re-serializing the typed [`Info`].
    pub fn info_hash(&self) -> (result: Result<InfoHash>)
        ensures
            outcome(result) == Ok::<Seq<u8>, Fault>(
                match self@.raw_info_hash {
                    Some(hash) => hash,
                    None => sha1_of(encoded_info(self@.info)),
                },
            ),
    {
        match self.raw_info_hash {
            Some(hash) => Ok(hash),
            None => self.info.info_hash(),
        }
    }

    /// All announce URLs (primary + announce-list), de-duplicated by first appearance and
    /// flattened across tiers.
    pub fn all_trackers(&self) -> (urls: Vec<String>)
        ensures
            texts(urls@) == first_appearances(listed_trackers(self@)),
    {
        let mut out: Vec<String> = Vec::new();
        let ghost mut listed: Seq<Seq<char>> = Seq::empty();
        assert(texts(out@) =~= first_appearances(listed));
        match &self.announce {
            Some(announce) => {
                push_new(&mut out, announce);
                proof {
                    listed = listed.push(announce@);
                    assert(listed.drop_last() =~= Seq::<Seq<char>>::empty());
                }
            },
            None => {},
        }
        let ghost first = listed;
        match &self.announce_list {
            Some(tiers) => {
                let ghost all = tier_texts(tiers@);
                let mut i: usize = 0;
                assert(listed =~= first + flatten(all.take(0)));
                while i < tiers.len()
                    invariant
                        i <= tiers@.len(),
                        all == tier_texts(tiers@),
                        texts(out@) == first_appearances(listed),
                        listed == first + flatten(all.take(i as int)),
                    decreases tiers@.len() - i,
                {
                    let tier: &Vec<String> = &tiers[i];
                    let ghost before = listed;
                    let mut j: usize = 0;
                    assert(listed =~= before + texts(tier@).take(0));
                    while j < tier.len()
                        invariant
                            j <= tier@.len(),
                            texts(out@) == first_appearances(listed),
                            listed == before + texts(tier@).take(j as int),
                        decreases tier@.len() - j,
                    {
                        push_new(&mut out, &tier[j]);
                        proof {
                            let next = listed.push(tier@[j as int]@);
                            assert(next.drop_last() =~= listed);
                            assert(next =~= before + texts(tier@).take(j + 1));
                            listed = next;
                        }
                        j += 1;
                    }
                    proof {
                        assert(texts(tier@).take(j as int) =~= texts(tier@));
                        assert(all.take(i + 1).drop_last() =~= all.take(i as int));
                        assert(all.take(i + 1).last() == texts(tier@));
                        assert(listed =~= first + flatten(all.take(i + 1)));
                    }
                    i += 1;
                }
                assert(all.take(i as int) =~= all);
            },
            None => {},
        }
        assert(listed =~= listed_trackers(self@));
        out
    }

    /// Resolve on-disk paths for each file, rooted at `base_dir`, as the names from there down.
    ///
    /// For a single-file torrent this is `base_dir/<name>`. For multi-file it is
    /// `base_dir/<name>/<path components...>`. Returned alongside each file's length.
    ///
    /// Every name component (the torrent `name` and each `path` element) is validated to be a
    /// single, plain segment: a malicious `.torrent` cannot use `..`, an absolute path, or
    /// embedded separators to escape `base_dir`.
    pub fn file_paths(&self, base_dir: &str) -> (result: Result<Vec<(Vec<String>, u64)>>)
        ensures
            match paths_under(seq![base_dir@], self@.info) {
                Ok(paths) => result matches Ok(found) && path_list(found@) == paths,
                Err(fault) => result matches Err(error) && error@ == fault,
            },
    {
        let mut root: Vec<String> = Vec::new();
        root.push(base_dir.to_owned());
        assert(texts(root@) =~= seq![base_dir@]);
        self.info.paths(root)
    }
}

impl Info {
    /// Where each file goes, as the names from `root` down, with its length.
    pub fn paths(&self, root: Vec<String>) -> (result: Result<Vec<(Vec<String>, u64)>>)
        ensures
            match paths_under(texts(root@), self@) {
                Ok(paths) => result matches Ok(found) && path_list(found@) == paths,
                Err(fault) => result matches Err(error) && error@ == fault,
            },
    {
        match validate_path_component(self.name.as_str()) {
            Err(error) => return Err(error),
            Ok(()) => {},
        }
        let ghost base = texts(root@);
        let mut root = root;
        root.push(self.name.clone());
        assert(texts(root@) =~= base.push(self@.name));
        match self.layout() {
            Err(error) => Err(error),
            Ok(FileLayout::Single { length }) => {
                let mut paths: Vec<(Vec<String>, u64)> = Vec::new();
                paths.push((root, length));
                assert(path_list(paths@) =~= seq![(base.push(self@.name), length)]);
                Ok(paths)
            },
            Ok(FileLayout::Multi { files }) => {
                let ghost entries = file_entries(files@);
                let mut paths: Vec<(Vec<String>, u64)> = Vec::new();
                let mut i: usize = 0;
                while i < files.len()
                    invariant
                        i <= files@.len(),
                        entries == file_entries(files@),
                        layout_of(self@) == Ok::<FileLayoutView, Fault>(
                            FileLayoutView::Multi { files: entries },
                        ),
                        !is_unsafe_component(self@.name),
                        first_unsafe_of(entries.take(i as int)) is None,
                        texts(root@) == base.push(self@.name),
                        paths@.len() == i,
                        forall|k: int|
                            0 <= k < i ==> #[trigger] path_list(paths@)[k] == (
                                texts(root@) + entries[k].path,
                                entries[k].length,
                            ),
                    decreases files@.len() - i,
                {
                    proof {
                        assert(entries.take(i + 1).drop_last() =~= entries.take(i as int));
                        assert(entries.take(i + 1).last() == files@[i as int]@);
                        lemma_first_unsafe_of(entries, i + 1);
                    }
                    let path: Vec<String> = match join_path(&root, &files[i].path) {
                        Err(error) => return Err(error),
                        Ok(path) => path,
                    };
                    let ghost before = paths@;
                    paths.push((path, files[i].length));
                    proof {
                        assert forall|k: int| 0 <= k < i + 1 implies #[trigger] path_list(
                            paths@,
                        )[k] == (texts(root@) + entries[k].path, entries[k].length) by {
                            if k < i {
                                assert(path_list(before)[k] == path_list(paths@)[k]);
                            }
                        }
                    }
                    i += 1;
                }
                proof {
                    assert(entries.take(i as int) =~= entries);
                    assert(path_list(paths@) =~= Seq::new(
                        entries.len(),
                        |k: int| (base.push(self@.name) + entries[k].path, entries[k].length),
                    ));
                }
                Ok(paths)
            },
        }
    }
}

/// Where a prefix of the files has an unsafe name, the files have the same one.
proof fn lemma_first_unsafe_of(files: Seq<FileEntryView>, n: int)
    requires
        0 <= n <= files.len(),
    ensures
        first_unsafe_of(files.take(n)) is Some ==> first_unsafe_of(files) == first_unsafe_of(
            files.take(n),
        ),
    decreases files.len(),
{
    if n == files.len() {
        assert(files.take(n) =~= files);
    } else {
        assert(files.drop_last().take(n) =~= files.take(n));
        lemma_first_unsafe_of(files.drop_last(), n);
    }
}

/// `root` with the components of `path`, each of them validated.
fn join_path(root: &Vec<String>, path: &Vec<String>) -> (result: Result<Vec<String>>)
    ensures
        match first_unsafe(texts(path@)) {
            Some(component) => result matches Err(error) && error@ == Fault::MalformedTorrent(
                unsafe_text(component),
            ),
            None => result matches Ok(joined) && texts(joined@) == texts(root@) + texts(path@),
        },
{
    let ghost parts = texts(path@);
    let mut joined: Vec<String> = clone_texts(root);
    let mut i: usize = 0;
    assert(texts(joined@) =~= texts(root@) + parts.take(0));
    while i < path.len()
        invariant
            i <= path@.len(),
            parts == texts(path@),
            first_unsafe(parts.take(i as int)) is None,
            texts(joined@) == texts(root@) + parts.take(i as int),
        decreases path@.len() - i,
    {
        proof {
            assert(parts.take(i + 1).drop_last() =~= parts.take(i as int));
            assert(parts.take(i + 1).last() == path@[i as int]@);
            lemma_first_unsafe(parts, i + 1);
        }
        match validate_path_component(path[i].as_str()) {
            Err(error) => return Err(error),
            Ok(()) => {},
        }
        let ghost before = texts(joined@);
        joined.push(path[i].clone());
        proof {
            assert(texts(joined@) =~= before.push(path@[i as int]@));
            assert(texts(joined@) =~= texts(root@) + parts.take(i + 1));
        }
        i += 1;
    }
    assert(parts.take(i as int) =~= parts);
    Ok(joined)
}

/// Where a prefix of a path has an unsafe name, the path has the same one.
proof fn lemma_first_unsafe(path: Seq<Seq<char>>, n: int)
    requires
        0 <= n <= path.len(),
    ensures
        first_unsafe(path.take(n)) is Some ==> first_unsafe(path) == first_unsafe(path.take(n)),
    decreases path.len(),
{
    if n == path.len() {
        assert(path.take(n) =~= path);
    } else {
        assert(path.drop_last().take(n) =~= path.take(n));
        lemma_first_unsafe(path.drop_last(), n);
    }
}

/// Appends `url` unless it is there already.
fn push_new(urls: &mut Vec<String>, url: &String)
    ensures
        texts(final(urls)@) == add_new(texts(old(urls)@), url@),
{
    let ghost before = texts(urls@);
    let mut i: usize = 0;
    while i < urls.len()
        invariant
            i <= urls@.len(),
            before == texts(urls@),
            forall|k: int| 0 <= k < i ==> before[k] != url@,
        decreases urls@.len() - i,
    {
        if urls[i] == *url {
            assert(before[i as int] == url@);
            return;
        }
        i += 1;
    }
    assert(!before.contains(url@));
    urls.push(url.clone());
    assert(texts(urls@) =~= before.push(url@));
}

/// Reject a path component taken from a `.torrent` that could escape the download directory.
///
/// A hostile torrent can place `..`, an absolute path, or embedded separators in its `name` or a
/// file's `path` list; joining those straight onto a path would let it write anywhere the
/// process can (classic path traversal). Each component must be a single, plain, non-relative
/// segment with no separators or NUL bytes.
pub fn validate_path_component(component: &str) -> (result: Result<()>)
    ensures
        if is_unsafe_component(component@) {
            result matches Err(error) && error@ == Fault::MalformedTorrent(
                unsafe_text(component@),
            )
        } else {
            result is Ok
        },
{
    let name: String = component.to_owned();
    let bad: bool = component.is_empty() || name == ".".to_owned() || name == "..".to_owned()
        || holds_char(component, '/') || holds_char(component, '\\') || holds_char(component, '\0');
    if bad {
        let mut text = "unsafe path component ".to_owned();
        let shown: String = quoted(component);
        text.append(shown.as_str());
        text.append(" in torrent (possible path traversal)");
        return Err(Error::MalformedTorrent(text));
    }
    Ok(())
}

/// Whether a text holds a character.
pub fn holds_char(text: &str, wanted: char) -> (found: bool)
    ensures
        found == text@.contains(wanted),
{
    let mut found: bool = false;
    for ch in it: text.chars()
        invariant
            it.seq() == text@,
            found == (exists|k: int| 0 <= k < it.index() && #[trigger] text@[k] == wanted),
    {
        if ch == wanted {
            found = true;
        }
    }
    found
}

/// No tracker is listed twice, and exactly the announce URLs of the torrent are listed.
pub proof fn law_trackers_without_repeats<T>(items: Seq<T>)
    ensures
        first_appearances(items).no_duplicates(),
        forall|item: T| first_appearances(items).contains(item) <==> items.contains(item),
    decreases items.len(),
{
    if items.len() > 0 {
        let front = items.drop_last();
        law_trackers_without_repeats(front);
        let before = first_appearances(front);
        let after = first_appearances(items);
        assert forall|item: T| after.contains(item) <==> items.contains(item) by {
            if after.contains(item) && item != items.last() {
                let i = choose|i: int| 0 <= i < after.len() && after[i] == item;
                assert(before[i] == item);
                assert(first_appearances(front).contains(item));
                assert(front.contains(item));
                let k = choose|k: int| 0 <= k < front.len() && front[k] == item;
                assert(items[k] == item);
            }
            if items.contains(item) && item != items.last() {
                let k = choose|k: int| 0 <= k < items.len() && items[k] == item;
                assert(front[k] == item);
                assert(front.contains(item));
                assert(first_appearances(front).contains(item));
                let i = choose|i: int| 0 <= i < before.len() && before[i] == item;
                assert(after[i] == item);
            }
            if item == items.last() {
                assert(items[items.len() - 1] == item);
                if !before.contains(item) {
                    assert(after[before.len() as int] == item);
                }
            }
        }
    }
}

/// A tracker listed earlier comes out earlier: what is listed first stays in front, whatever
/// follows.
pub proof fn law_trackers_keep_their_order<T>(items: Seq<T>, more: Seq<T>)
    ensures
        first_appearances(items).is_prefix_of(first_appearances(items + more)),
    decreases more.len(),
{
    if more.len() == 0 {
        assert(items + more =~= items);
    } else {
        law_trackers_keep_their_order(items, more.drop_last());
        assert((items + more).drop_last() =~= items + more.drop_last());
    }
}

/// No path leads out of the root: every path begins with the root, and every name after that is
/// a single plain segment.
pub proof fn law_paths_stay_below_the_root(root: Seq<Seq<char>>, info: InfoView)
    ensures
        paths_under(root, info) matches Ok(paths) ==> forall|i: int, k: int|
            0 <= i < paths.len() && root.len() <= k < (#[trigger] paths[i]).0.len()
                ==> root.is_prefix_of(paths[i].0) && !is_unsafe_component(
                #[trigger] paths[i].0[k],
            ),
{
    match paths_under(root, info) {
        Ok(paths) => {
            assert forall|i: int, k: int|
                0 <= i < paths.len() && root.len() <= k < (
                #[trigger] paths[i]).0.len() implies root.is_prefix_of(paths[i].0)
                && !is_unsafe_component(#[trigger] paths[i].0[k]) by {
                match layout_of(info) {
                    Ok(FileLayoutView::Multi { files }) => {
                        lemma_safe_files(files, i);
                        if k > root.len() {
                            lemma_safe_path(files[i].path, k - root.len() - 1);
                        }
                    },
                    _ => {},
                }
            }
        },
        Err(_) => {},
    }
}

proof fn lemma_safe_files(files: Seq<FileEntryView>, i: int)
    requires
        first_unsafe_of(files) is None,
        0 <= i < files.len(),
    ensures
        first_unsafe(files[i].path) is None,
    decreases files.len(),
{
    if i < files.len() - 1 {
        lemma_safe_files(files.drop_last(), i);
    }
}

proof fn lemma_safe_path(path: Seq<Seq<char>>, i: int)
    requires
        first_unsafe(path) is None,
        0 <= i < path.len(),
    ensures
        !is_unsafe_component(path[i]),
    decreases path.len(),
{
    if i < path.len() - 1 {
        lemma_safe_path(path.drop_last(), i);
    }
}

/// The sum of the lengths, where it fits in 64 bits.
fn sum_of_lengths(files: &Vec<FileEntry>) -> (sum: Option<u64>)
    ensures
        match sum {
            Some(total) => total == sum_lengths(file_entries(files@)),
            None => sum_lengths(file_entries(files@)) > u64::MAX,
        },
{
    let ghost entries = file_entries(files@);
    let mut total: u64 = 0;
    let mut i: usize = 0;
    while i < files.len()
        invariant
            i <= files@.len(),
            entries == file_entries(files@),
            total == sum_lengths(entries.take(i as int)),
        decreases files@.len() - i,
    {
        proof {
            assert(entries.take(i + 1).drop_last() =~= entries.take(i as int));
            lemma_sum_prefix(entries, i + 1);
        }
        match total.checked_add(files[i].length) {
            Some(next) => {
                total = next;
            },
            None => {
                return None;
            },
        }
        i += 1;
    }
    assert(entries.take(i as int) =~= entries);
    Some(total)
}

/// The lengths of a prefix sum to no more than those of the whole list.
proof fn lemma_sum_prefix(files: Seq<FileEntryView>, n: int)
    requires
        0 <= n <= files.len(),
    ensures
        sum_lengths(files.take(n)) <= sum_lengths(files),
    decreases files.len(),
{
    if n == files.len() {
        assert(files.take(n) =~= files);
    } else {
        assert(files.drop_last().take(n) =~= files.take(n));
        lemma_sum_prefix(files.drop_last(), n);
    }
}

fn push_files(out: &mut Vec<u8>, files: &Vec<FileEntry>)
    ensures
        final(out)@ == old(out)@ + encoded_files(file_entries(files@)),
{
    let ghost start = out@;
    let ghost entries = file_entries(files@);
    let mut i: usize = 0;
    assert(out@ =~= start + encoded_files(entries.take(0)));
    while i < files.len()
        invariant
            i <= files@.len(),
            entries == file_entries(files@),
            out@ == start + encoded_files(entries.take(i as int)),
        decreases files@.len() - i,
    {
        push_file(out, &files[i]);
        proof {
            assert(entries.take(i + 1).drop_last() =~= entries.take(i as int));
            assert(entries.take(i + 1).last() == files@[i as int]@);
            assert(out@ =~= start + encoded_files(entries.take(i + 1)));
        }
        i += 1;
    }
    assert(entries.take(i as int) =~= entries);
}

/// Appending one part after another appends them together.
proof fn lemma_append(start: Seq<u8>, front: Seq<u8>, next: Seq<u8>)
    ensures
        (start + front) + next == start + (front + next),
{
    assert((start + front) + next =~= start + (front + next));
}

proof fn lemma_append_byte(start: Seq<u8>, front: Seq<u8>, byte: u8)
    ensures
        (start + front).push(byte) == start + (front + seq![byte]),
{
    assert((start + front).push(byte) =~= start + (front + seq![byte]));
}

fn push_file(out: &mut Vec<u8>, file: &FileEntry)
    ensures
        final(out)@ == old(out)@ + encoded_file(file@),
{
    let ghost start = out@;
    let ghost head = seq![DICT];
    out.push(DICT);
    assert(out@ =~= start + head);
    push_number_entry(out, "length", file.length);
    let ghost length = encoded_text("length"@) + encoded_number(file.length as nat);
    proof {
        lemma_append(start, head, length);
    }
    push_md5sum_entry(out, &file.md5sum);
    let ghost md5sum = md5sum_entry(file@.md5sum);
    proof {
        lemma_append(start, head + length, md5sum);
    }
    push_path_entry(out, &file.path);
    let ghost path = encoded_text("path"@) + seq![LIST] + encoded_path(file@.path) + seq![END];
    proof {
        lemma_append(start, head + length + md5sum, path);
        lemma_append_byte(start, head + length + md5sum + path, END);
    }
    out.push(END);
}

fn push_number_entry(out: &mut Vec<u8>, key: &str, number: u64)
    ensures
        final(out)@ == old(out)@ + encoded_entry(key@, encoded_number(number as nat)),
{
    let ghost start = out@;
    push_text(out, key);
    push_number(out, number);
    proof {
        lemma_append(start, encoded_text(key@), encoded_number(number as nat));
    }
}

fn push_text_entry(out: &mut Vec<u8>, key: &str, text: &str)
    ensures
        final(out)@ == old(out)@ + encoded_entry(key@, encoded_text(text@)),
{
    let ghost start = out@;
    push_text(out, key);
    push_text(out, text);
    proof {
        lemma_append(start, encoded_text(key@), encoded_text(text@));
    }
}

fn push_files_entry(out: &mut Vec<u8>, files: &Vec<FileEntry>)
    ensures
        final(out)@ == old(out)@ + files_entry(Some(file_entries(files@))),
{
    let ghost start = out@;
    let ghost key = encoded_text("files"@);
    let ghost entries = encoded_files(file_entries(files@));
    push_text(out, "files");
    proof {
        lemma_append_byte(start, key, LIST);
    }
    out.push(LIST);
    push_files(out, files);
    proof {
        lemma_append(start, key + seq![LIST], entries);
        lemma_append_byte(start, key + seq![LIST] + entries, END);
        lemma_append(key, seq![LIST], entries);
        lemma_append(key, seq![LIST] + entries, seq![END]);
    }
    out.push(END);
}

fn push_md5sum_entry(out: &mut Vec<u8>, md5sum: &Option<String>)
    ensures
        final(out)@ == old(out)@ + md5sum_entry(
            match md5sum {
                Some(md5sum) => Some(md5sum@),
                None => None,
            },
        ),
{
    let ghost start = out@;
    match md5sum {
        Some(md5sum) => {
            push_text_entry(out, "md5sum", md5sum.as_str());
        },
        None => {
            assert(out@ =~= start + Seq::<u8>::empty());
        },
    }
}

fn push_path_entry(out: &mut Vec<u8>, path: &Vec<String>)
    ensures
        final(out)@ == old(out)@ + (encoded_text("path"@) + seq![LIST] + encoded_path(texts(path@))
            + seq![END]),
{
    let ghost start = out@;
    let ghost key = encoded_text("path"@);
    push_text(out, "path");
    proof {
        lemma_append_byte(start, key, LIST);
    }
    out.push(LIST);
    push_path(out, path);
    proof {
        lemma_append(start, key + seq![LIST], encoded_path(texts(path@)));
        lemma_append_byte(start, key + seq![LIST] + encoded_path(texts(path@)), END);
    }
    out.push(END);
}

fn push_path(out: &mut Vec<u8>, path: &Vec<String>)
    ensures
        final(out)@ == old(out)@ + encoded_path(texts(path@)),
{
    let ghost start = out@;
    let ghost parts = texts(path@);
    let mut i: usize = 0;
    assert(out@ =~= start + encoded_path(parts.take(0)));
    while i < path.len()
        invariant
            i <= path@.len(),
            parts == texts(path@),
            out@ == start + encoded_path(parts.take(i as int)),
        decreases path@.len() - i,
    {
        push_text(out, path[i].as_str());
        proof {
            assert(parts.take(i + 1).drop_last() =~= parts.take(i as int));
            assert(parts.take(i + 1).last() == path@[i as int]@);
            assert(out@ =~= start + encoded_path(parts.take(i + 1)));
        }
        i += 1;
    }
    assert(parts.take(i as int) =~= parts);
}

} // verus!
