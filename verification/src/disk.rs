//! Disk layout and file assembly.
//!
//! A torrent is a single logical byte stream split into pieces, but on disk it maps to one
//! (single-file) or many (multi-file) files laid end to end. Piece `index` lives at global
//! offset `index * piece_length`, and a single piece may **straddle** a file boundary: ending
//! one file and beginning the next.
//!
//! [`map_region`] is the heart of this module: it turns a `(global_offset, length)` range into
//! the list of per-file writes that cover it. [`Storage`] plans the writes of a torrent; who owns
//! the open files performs them.

use vstd::prelude::*;
use crate::download::piece::{geometry_of, law_every_byte_in_one_piece, Geometry, GeometryView};
use crate::error::{Error, Fault, Result};
use crate::metainfo::{
    clone_texts, content_length, layout_of, length_fits, path_list, paths_under, sum_lengths, texts,
    FileEntryView, FileLayoutView, InfoView, Metainfo,
};
use crate::text::{decimal, push_decimal};

verus! {

/// One file in the torrent, placed at a global offset in the byte stream.
#[derive(Debug, PartialEq, Eq)]
pub struct MappedFile {
    /// The names from the download directory down to the file.
    pub path: Vec<String>,
    /// File length in bytes.
    pub length: u64,
    /// Where this file begins in the concatenated torrent stream.
    pub offset: u64,
}

/// A [`MappedFile`] over plain values.
#[verifier::ext_equal]
pub struct MappedFileView {
    pub path: Seq<Seq<char>>,
    pub length: nat,
    pub offset: nat,
}

impl View for MappedFile {
    type V = MappedFileView;

    open spec fn view(&self) -> MappedFileView {
        MappedFileView {
            path: texts(self.path@),
            length: self.length as nat,
            offset: self.offset as nat,
        }
    }
}

impl Clone for MappedFile {
    fn clone(&self) -> (copy: Self)
        ensures
            copy@ == self@,
    {
        MappedFile { path: clone_texts(&self.path), length: self.length, offset: self.offset }
    }
}

/// A single positioned write: copy `src[src_start..src_start+len]` to file `file_index` starting
/// at `file_offset`.
#[derive(Debug, Clone, Copy, PartialEq, Eq, Structural)]
pub struct WriteOp {
    pub file_index: usize,
    pub file_offset: u64,
    pub src_start: usize,
    pub len: usize,
}

/// The files of a list, over plain values.
pub open spec fn mapped(files: Seq<MappedFile>) -> Seq<MappedFileView> {
    Seq::new(files.len(), |i: int| files[i]@)
}

/// Whether every file ends within 64 bits.
pub open spec fn files_fit(files: Seq<MappedFileView>) -> bool {
    forall|i: int|
        0 <= i < files.len() ==> (#[trigger] files[i]).offset + files[i].length <= u64::MAX
}

/// Where the overlap of a file with the region `[offset, offset + len)` starts.
pub open spec fn overlap_start(file: MappedFileView, offset: nat) -> nat {
    if offset < file.offset {
        file.offset
    } else {
        offset
    }
}

/// Where the overlap of a file with the region `[offset, offset + len)` ends.
pub open spec fn overlap_end(file: MappedFileView, offset: nat, len: nat) -> nat {
    if offset + len < file.offset + file.length {
        offset + len
    } else {
        file.offset + file.length
    }
}

/// Whether a file overlaps the region `[offset, offset + len)`.
pub open spec fn overlaps(file: MappedFileView, offset: nat, len: nat) -> bool {
    overlap_start(file, offset) < overlap_end(file, offset, len)
}

/// The write of the overlap of a file with a region.
pub open spec fn overlap_op(file: MappedFileView, index: int, offset: nat, len: nat) -> WriteOp {
    let start = overlap_start(file, offset);
    let end = overlap_end(file, offset, len);
    WriteOp {
        file_index: index as usize,
        file_offset: (start - file.offset) as u64,
        src_start: (start - offset) as usize,
        len: (end - start) as usize,
    }
}

/// The writes that cover `[offset, offset + len)`: one for each file that overlaps it, in the
/// order of the files.
pub open spec fn region_ops(files: Seq<MappedFileView>, offset: nat, len: nat) -> Seq<WriteOp>
    decreases files.len(),
{
    if files.len() == 0 {
        Seq::empty()
    } else {
        let last = files.len() - 1;
        let before = region_ops(files.drop_last(), offset, len);
        if overlaps(files[last], offset, len) {
            before.push(overlap_op(files[last], last, offset, len))
        } else {
            before
        }
    }
}

/// The bytes that writes cover.
pub open spec fn covered(ops: Seq<WriteOp>) -> nat
    decreases ops.len(),
{
    if ops.len() == 0 {
        0
    } else {
        covered(ops.drop_last()) + ops.last().len as nat
    }
}

/// The file map of paths with lengths: each file begins where the one before it ends.
pub open spec fn lay_out(paths: Seq<(Seq<Seq<char>>, u64)>) -> Seq<MappedFileView>
    decreases paths.len(),
{
    if paths.len() == 0 {
        Seq::empty()
    } else {
        lay_out(paths.drop_last()).push(
            MappedFileView {
                path: paths.last().0,
                length: paths.last().1 as nat,
                offset: sum_of(paths.drop_last()),
            },
        )
    }
}

/// The sum of the lengths.
pub open spec fn sum_of(paths: Seq<(Seq<Seq<char>>, u64)>) -> nat
    decreases paths.len(),
{
    if paths.len() == 0 {
        0
    } else {
        sum_of(paths.drop_last()) + paths.last().1 as nat
    }
}

/// The file map of a torrent, or why it has none.
pub open spec fn file_map_of(info: InfoView) -> std::result::Result<Seq<MappedFileView>, Fault> {
    match paths_under(Seq::empty(), info) {
        Err(fault) => Err(fault),
        Ok(paths) => if sum_of(paths) > u64::MAX {
            Err(Fault::Storage("total torrent size overflows u64"@))
        } else {
            Ok(lay_out(paths))
        },
    }
}

/// Build the file map (paths + cumulative offsets) for a torrent, handling both single- and
/// multi-file layouts. Paths are given from the download directory down.
pub fn build_file_map(meta: &Metainfo) -> (result: Result<Vec<MappedFile>>)
    ensures
        match file_map_of(meta@.info) {
            Ok(files) => result matches Ok(found) && mapped(found@) == files,
            Err(fault) => result matches Err(error) && error@ == fault,
        },
{
    let root: Vec<String> = Vec::new();
    assert(texts(root@) =~= Seq::<Seq<char>>::empty());
    let paths: Vec<(Vec<String>, u64)> = match meta.info.paths(root) {
        Err(error) => return Err(error),
        Ok(paths) => paths,
    };
    let ghost all = path_list(paths@);
    let mut offset: u64 = 0;
    let mut files: Vec<MappedFile> = Vec::new();
    let mut i: usize = 0;
    assert(mapped(files@) =~= lay_out(all.take(0)));
    while i < paths.len()
        invariant
            i <= paths@.len(),
            all == path_list(paths@),
            file_map_of(meta@.info) == (if sum_of(all) > u64::MAX {
                Err::<Seq<MappedFileView>, Fault>(
                    Fault::Storage("total torrent size overflows u64"@),
                )
            } else {
                Ok(lay_out(all))
            }),
            offset == sum_of(all.take(i as int)),
            files@.len() == i,
            mapped(files@) == lay_out(all.take(i as int)),
        decreases paths@.len() - i,
    {
        let length: u64 = paths[i].1;
        let ghost before = mapped(files@);
        files.push(
            MappedFile { path: clone_texts(&paths[i].0), length, offset },
        );
        proof {
            assert(all.take(i + 1).drop_last() =~= all.take(i as int));
            assert(all.take(i + 1).last() == all[i as int]);
            assert(mapped(files@) =~= before.push(files@[i as int]@));
            assert(mapped(files@) =~= lay_out(all.take(i + 1)));
            lemma_sum_of_prefix(all, i + 1);
        }
        match offset.checked_add(length) {
            None => return Err(Error::Storage("total torrent size overflows u64".to_owned())),
            Some(next) => {
                offset = next;
            },
        }
        i += 1;
    }
    assert(all.take(i as int) =~= all);
    Ok(files)
}

proof fn lemma_sum_of_prefix(paths: Seq<(Seq<Seq<char>>, u64)>, n: int)
    requires
        0 <= n <= paths.len(),
    ensures
        sum_of(paths.take(n)) <= sum_of(paths),
    decreases paths.len(),
{
    if n == paths.len() {
        assert(paths.take(n) =~= paths);
    } else {
        assert(paths.drop_last().take(n) =~= paths.take(n));
        lemma_sum_of_prefix(paths.drop_last(), n);
    }
}

/// Compute the per-file writes covering `[global_offset, global_offset + len)`.
///
/// Walks the files once, emitting a [`WriteOp`] for each that overlaps the range (zero-length and
/// non-overlapping files are skipped). A piece straddling N files yields N ops.
pub fn map_region(files: &[MappedFile], global_offset: u64, len: usize) -> (ops: Vec<WriteOp>)
    requires
        global_offset + len <= u64::MAX,
        files_fit(mapped(files@)),
    ensures
        ops@ == region_ops(mapped(files@), global_offset as nat, len as nat),
{
    let ghost all = mapped(files@);
    let region_end: u64 = global_offset + len as u64;
    let mut ops: Vec<WriteOp> = Vec::new();
    let mut i: usize = 0;
    assert(all.take(0) =~= Seq::<MappedFileView>::empty());
    while i < files.len()
        invariant
            i <= files@.len(),
            region_end == global_offset + len,
            all == mapped(files@),
            files_fit(all),
            ops@ == region_ops(all.take(i as int), global_offset as nat, len as nat),
        decreases files@.len() - i,
    {
        let file: &MappedFile = &files[i];
        proof {
            assert(all[i as int] == file@);
            assert(all.take(i + 1).drop_last() =~= all.take(i as int));
            assert(all.take(i + 1)[i as int] == all[i as int]);
        }
        let file_end: u64 = file.offset + file.length;
        let start: u64 = if global_offset < file.offset {
            file.offset
        } else {
            global_offset
        };
        let end: u64 = if region_end < file_end {
            region_end
        } else {
            file_end
        };
        if start < end {
            ops.push(
                WriteOp {
                    file_index: i,
                    file_offset: start - file.offset,
                    src_start: (start - global_offset) as usize,
                    len: (end - start) as usize,
                },
            );
        }
        i += 1;
    }
    assert(all.take(i as int) =~= all);
    ops
}

/// The complaint about a piece that does not fit into the files.
pub open spec fn uncovered_text(index: nat, covered: nat, len: nat) -> Seq<char> {
    "piece "@ + decimal(index) + " mapped "@ + decimal(covered) + " of "@ + decimal(len)
        + " bytes to files"@
}

/// Where the pieces of a torrent go on disk.
#[derive(Debug)]
pub struct Storage {
    geometry: Geometry,
    files: Vec<MappedFile>,
}

/// A [`Storage`] over plain values.
#[verifier::ext_equal]
pub struct StorageView {
    pub geometry: GeometryView,
    pub files: Seq<MappedFileView>,
}

impl View for Storage {
    type V = StorageView;

    closed spec fn view(&self) -> StorageView {
        StorageView { geometry: self.geometry@, files: mapped(self.files@) }
    }
}

/// The layout of a torrent on disk, or why it has none.
pub open spec fn storage_of(info: InfoView) -> std::result::Result<StorageView, Fault> {
    match geometry_of(info) {
        Err(fault) => Err(fault),
        Ok(geometry) => match file_map_of(info) {
            Err(fault) => Err(fault),
            Ok(files) => Ok(StorageView { geometry, files }),
        },
    }
}

impl Storage {
    /// The files lie end to end, and each ends within 64 bits.
    #[verifier::type_invariant]
    spec fn well_formed(self) -> bool {
        files_fit(mapped(self.files@)) && end_to_end(mapped(self.files@))
    }

    /// Plan all of the torrent's files.
    pub fn create(meta: &Metainfo) -> (result: Result<Self>)
        requires
            length_fits(meta@.info),
        ensures
            match storage_of(meta@.info) {
                Ok(storage) => result matches Ok(found) && found@ == storage,
                Err(fault) => result matches Err(error) && error@ == fault,
            },
    {
        let geometry: Geometry = match Geometry::from_info(&meta.info) {
            Err(error) => return Err(error),
            Ok(geometry) => geometry,
        };
        let files: Vec<MappedFile> = match build_file_map(meta) {
            Err(error) => return Err(error),
            Ok(files) => files,
        };
        proof {
            lemma_lay_out(paths_under(Seq::empty(), meta@.info)->Ok_0);
        }
        Ok(Storage { geometry, files })
    }

    /// The resolved file map (paths, lengths, offsets).
    pub fn files(&self) -> (files: &[MappedFile])
        ensures
            mapped(files@) == self@.files,
    {
        self.files.as_slice()
    }

    /// Whether a piece of `len` bytes at `index` ends within 64 bits, so that
    /// [`plan_piece`](Self::plan_piece) may be called.
    pub fn can_plan(&self, index: u32, len: usize) -> (ok: bool)
        ensures
            ok == (self@.geometry.offset(index as nat) + len <= u64::MAX),
    {
        len as u64 <= u64::MAX - self.geometry.piece_offset(index)
    }

    /// The writes that put one verified piece of `len` bytes into the correct file region(s).
    pub fn plan_piece(&self, index: u32, len: usize) -> (ops: Vec<WriteOp>)
        requires
            self@.geometry.offset(index as nat) + len <= u64::MAX,
        ensures
            ops@ == region_ops(self@.files, self@.geometry.offset(index as nat), len as nat),
            covered(ops@) <= len,
    {
        proof {
            use_type_invariant(self);
            assert(self.files.len() <= usize::MAX);
            law_regions_are_covered(
                self@.files,
                self@.geometry.offset(index as nat),
                len as nat,
            );
        }
        let global_offset: u64 = self.geometry.piece_offset(index);
        map_region(self.files.as_slice(), global_offset, len)
    }

    /// Every byte of the piece must land somewhere; otherwise the torrent geometry and file map
    /// disagree. `ops` are the writes that were planned for the piece.
    pub fn confirm_piece(&self, index: u32, ops: &Vec<WriteOp>, len: usize) -> (result: Result<()>)
        requires
            covered(ops@) <= usize::MAX,
        ensures
            if covered(ops@) == len {
                result is Ok
            } else {
                result matches Err(error) && error@ == Fault::Storage(
                    uncovered_text(index as nat, covered(ops@), len as nat),
                )
            },
    {
        let mut total: usize = 0;
        let mut i: usize = 0;
        assert(ops@.take(0) =~= Seq::<WriteOp>::empty());
        while i < ops.len()
            invariant
                i <= ops@.len(),
                covered(ops@) <= usize::MAX,
                total == covered(ops@.take(i as int)),
            decreases ops@.len() - i,
        {
            proof {
                assert(ops@.take(i + 1).drop_last() =~= ops@.take(i as int));
                lemma_covered_prefix(ops@, i + 1);
            }
            total = total + ops[i].len;
            i += 1;
        }
        assert(ops@.take(i as int) =~= ops@);
        if total != len {
            let mut text = "piece ".to_owned();
            push_decimal(&mut text, index as u64);
            text.append(" mapped ");
            push_decimal(&mut text, total as u64);
            text.append(" of ");
            push_decimal(&mut text, len as u64);
            text.append(" bytes to files");
            return Err(Error::Storage(text));
        }
        Ok(())
    }
}

proof fn lemma_covered_prefix(ops: Seq<WriteOp>, n: int)
    requires
        0 <= n <= ops.len(),
    ensures
        covered(ops.take(n)) <= covered(ops),
    decreases ops.len(),
{
    if n == ops.len() {
        assert(ops.take(n) =~= ops);
    } else {
        assert(ops.drop_last().take(n) =~= ops.take(n));
        lemma_covered_prefix(ops.drop_last(), n);
    }
}

/// Whether files lie end to end from the start of the stream.
pub open spec fn end_to_end(files: Seq<MappedFileView>) -> bool {
    &&& files.len() > 0 ==> files[0].offset == 0
    &&& forall|i: int, j: int|
        0 <= i && j == i + 1 && j < files.len() ==> (#[trigger] files[j]).offset == (
        #[trigger] files[i]).offset + files[i].length
}

/// Where files laid end to end end.
pub open spec fn stream_end(files: Seq<MappedFileView>) -> nat {
    if files.len() == 0 {
        0
    } else {
        files.last().offset + files.last().length
    }
}

proof fn lemma_lay_out(paths: Seq<(Seq<Seq<char>>, u64)>)
    ensures
        lay_out(paths).len() == paths.len(),
        end_to_end(lay_out(paths)),
        stream_end(lay_out(paths)) == sum_of(paths),
        forall|i: int|
            0 <= i < paths.len() ==> (#[trigger] lay_out(paths)[i]).offset + lay_out(paths)[i].length
                <= sum_of(paths),
        forall|i: int|
            0 <= i < paths.len() ==> (#[trigger] lay_out(paths)[i]).length == paths[i].1
                && lay_out(paths)[i].path == paths[i].0,
    decreases paths.len(),
{
    if paths.len() > 0 {
        let front = paths.drop_last();
        let files = lay_out(paths);
        lemma_lay_out(front);
        assert forall|i: int| 0 <= i < paths.len() implies (#[trigger] files[i]).offset
            + files[i].length <= sum_of(paths) by {
            if i < front.len() {
                assert(files[i] == lay_out(front)[i]);
            }
        }
        assert forall|i: int| 0 <= i < paths.len() implies (#[trigger] files[i]).length
            == paths[i].1 && files[i].path == paths[i].0 by {
            if i < front.len() {
                assert(files[i] == lay_out(front)[i]);
            }
        }
        assert forall|i: int, j: int|
            0 <= i && j == i + 1 && j < files.len() implies (#[trigger] files[j]).offset == (
        #[trigger] files[i]).offset + files[i].length by {
            assert(files[i] == lay_out(front)[i]);
            if j < front.len() {
                assert(files[j] == lay_out(front)[j]);
            }
        }
        if front.len() > 0 {
            assert(files[0] == lay_out(front)[0]);
        }
    }
}

/// The files of a torrent lie end to end, in the order of its file list and with its lengths, and
/// together they are as long as its content.
pub proof fn law_file_map_is_end_to_end(info: InfoView)
    ensures
        file_map_of(info) matches Ok(files) ==> {
            &&& end_to_end(files)
            &&& layout_of(info) matches Ok(layout)
            &&& stream_end(files) == content_length(layout)
        },
{
    match file_map_of(info) {
        Ok(files) => {
            let paths = paths_under(Seq::empty(), info)->Ok_0;
            lemma_lay_out(paths);
            match layout_of(info) {
                Ok(FileLayoutView::Single { length }) => {
                    assert(paths.drop_last() =~= Seq::<(Seq<Seq<char>>, u64)>::empty());
                },
                Ok(FileLayoutView::Multi { files: entries }) => {
                    lemma_sum_matches(paths, entries);
                },
                Err(_) => {},
            }
        },
        Err(_) => {},
    }
}

proof fn lemma_sum_matches(paths: Seq<(Seq<Seq<char>>, u64)>, files: Seq<FileEntryView>)
    requires
        paths.len() == files.len(),
        forall|i: int| 0 <= i < files.len() ==> (#[trigger] paths[i]).1 == files[i].length,
    ensures
        sum_of(paths) == sum_lengths(files),
    decreases files.len(),
{
    if files.len() > 0 {
        let front = paths.drop_last();
        assert forall|i: int| 0 <= i < files.len() - 1 implies (#[trigger] front[i]).1
            == files.drop_last()[i].length by {
            assert(front[i] == paths[i]);
        }
        lemma_sum_matches(front, files.drop_last());
    }
}

/// In files laid end to end, a region that lies within them is covered to the last byte.
pub proof fn law_regions_are_covered(files: Seq<MappedFileView>, offset: nat, len: nat)
    requires
        end_to_end(files),
        files_fit(files),
        files.len() <= usize::MAX,
        len <= usize::MAX,
    ensures
        offset + len <= stream_end(files) ==> covered(region_ops(files, offset, len)) == len,
        covered(region_ops(files, offset, len)) <= len,
{
    lemma_covered(files, offset, len);
}

/// The bytes that the writes cover are those of the region that lie in the files.
proof fn lemma_covered(files: Seq<MappedFileView>, offset: nat, len: nat)
    requires
        end_to_end(files),
        files_fit(files),
        files.len() <= usize::MAX,
        len <= usize::MAX,
    ensures
        covered(region_ops(files, offset, len)) == (if stream_end(files) <= offset {
            0
        } else if offset + len <= stream_end(files) {
            len as int
        } else {
            stream_end(files) - offset
        }),
    decreases files.len(),
{
    if files.len() > 0 {
        let front = files.drop_last();
        let last = files.len() - 1;
        assert(end_to_end(front)) by {
            assert forall|i: int, j: int|
                0 <= i && j == i + 1 && j < front.len() implies (#[trigger] front[j]).offset == (
            #[trigger] front[i]).offset + front[i].length by {
                assert(files[j].offset == files[i].offset + files[i].length);
            }
        }
        assert(files_fit(front)) by {
            assert forall|i: int| 0 <= i < front.len() implies (#[trigger] front[i]).offset
                + front[i].length <= u64::MAX by {
                assert(files[i].offset + files[i].length <= u64::MAX);
            }
        }
        lemma_covered(front, offset, len);
        assert(files[last].offset == stream_end(front)) by {
            if last > 0 {
                assert(files[last].offset == files[last - 1].offset + files[last - 1].length);
                assert(front.last() == files[last - 1]);
            }
        }
        let before = region_ops(front, offset, len);
        if overlaps(files[last], offset, len) {
            let op = overlap_op(files[last], last, offset, len);
            assert(region_ops(files, offset, len).drop_last() =~= before);
            assert(op.len == overlap_end(files[last], offset, len) - overlap_start(
                files[last],
                offset,
            ));
        }
    }
}

/// Every piece of a torrent fits into its files to the last byte, so that writing a verified
/// piece is always confirmed.
pub proof fn law_pieces_fit_into_the_files(info: InfoView, index: nat)
    requires
        length_fits(info),
    ensures
        storage_of(info) matches Ok(storage) ==> storage.files.len() <= usize::MAX ==> index
            < storage.geometry.num_pieces ==> covered(
            region_ops(
                storage.files,
                storage.geometry.offset(index),
                storage.geometry.piece_len(index),
            ),
        ) == storage.geometry.piece_len(index),
{
    match storage_of(info) {
        Ok(storage) => if storage.files.len() <= usize::MAX && index
            < storage.geometry.num_pieces {
            law_file_map_is_end_to_end(info);
            lemma_lay_out(paths_under(Seq::empty(), info)->Ok_0);
            lemma_piece_in_content(storage.geometry, index);
            law_regions_are_covered(
                storage.files,
                storage.geometry.offset(index),
                storage.geometry.piece_len(index),
            );
        },
        Err(_) => {},
    }
}

/// The contents of the files after one write.
pub open spec fn after_write(disk: Seq<Seq<u8>>, op: WriteOp, data: Seq<u8>) -> Seq<Seq<u8>> {
    let file = disk[op.file_index as int];
    disk.update(
        op.file_index as int,
        Seq::new(
            file.len(),
            |p: int|
                if op.file_offset <= p < op.file_offset + op.len {
                    data[op.src_start + p - op.file_offset]
                } else {
                    file[p]
                },
        ),
    )
}

/// The contents of the files after writes, in order.
pub open spec fn after_writes(disk: Seq<Seq<u8>>, ops: Seq<WriteOp>, data: Seq<u8>) -> Seq<
    Seq<u8>,
>
    decreases ops.len(),
{
    if ops.len() == 0 {
        disk
    } else {
        after_write(after_writes(disk, ops.drop_last(), data), ops.last(), data)
    }
}

/// Whether `disk` holds the files, each with its length.
pub open spec fn is_disk(disk: Seq<Seq<u8>>, files: Seq<MappedFileView>) -> bool {
    &&& disk.len() == files.len()
    &&& forall|f: int| 0 <= f < files.len() ==> (#[trigger] disk[f]).len() == files[f].length
}

/// The byte of the stream at `at`, once `data` is written at `offset`; `old` is what was there.
pub open spec fn spliced(offset: nat, data: Seq<u8>, at: int, old: u8) -> u8 {
    if offset <= at < offset + data.len() {
        data[at - offset]
    } else {
        old
    }
}

/// Writing a region writes exactly that region: every byte of every file that lies in it is the
/// byte of the data for its place in the stream, and every other byte is what it was.
pub proof fn law_region_is_written_exactly(
    files: Seq<MappedFileView>,
    disk: Seq<Seq<u8>>,
    offset: nat,
    data: Seq<u8>,
)
    requires
        is_disk(disk, files),
        files_fit(files),
        files.len() <= usize::MAX,
        data.len() <= usize::MAX,
    ensures
        ({
            let after = after_writes(disk, region_ops(files, offset, data.len()), data);
            &&& is_disk(after, files)
            &&& forall|f: int, p: int|
                0 <= f < files.len() && 0 <= p < files[f].length ==> #[trigger] after[f][p]
                    == spliced(offset, data, files[f].offset + p, disk[f][p])
        }),
{
    assert(files.take(files.len() as int) =~= files);
    lemma_written(files, disk, offset, data, files.len() as int);
}

/// After the writes into the first `n` files, those hold the region and the others are as they
/// were.
proof fn lemma_written(
    files: Seq<MappedFileView>,
    disk: Seq<Seq<u8>>,
    offset: nat,
    data: Seq<u8>,
    n: int,
)
    requires
        is_disk(disk, files),
        files_fit(files),
        files.len() <= usize::MAX,
        data.len() <= usize::MAX,
        0 <= n <= files.len(),
    ensures
        ({
            let after = after_writes(disk, region_ops(files.take(n), offset, data.len()), data);
            &&& is_disk(after, files)
            &&& forall|f: int, p: int|
                0 <= f < files.len() && 0 <= p < files[f].length ==> #[trigger] after[f][p] == if f
                    < n {
                    spliced(offset, data, files[f].offset + p, disk[f][p])
                } else {
                    disk[f][p]
                }
        }),
    decreases n,
{
    if n > 0 {
        let last = n - 1;
        lemma_written(files, disk, offset, data, last);
        assert(files.take(n).drop_last() =~= files.take(last));
        assert(files.take(n)[last] == files[last]);
        let before_ops = region_ops(files.take(last), offset, data.len());
        let ops = region_ops(files.take(n), offset, data.len());
        let before = after_writes(disk, before_ops, data);
        let after = after_writes(disk, ops, data);
        let file = files[last];
        assert(file.offset + file.length <= u64::MAX);
        if overlaps(file, offset, data.len()) {
            let op = overlap_op(file, last, offset, data.len());
            assert(ops.drop_last() =~= before_ops);
            assert(op.file_index == last);
            assert(op.file_offset == overlap_start(file, offset) - file.offset);
            assert(op.src_start == overlap_start(file, offset) - offset);
            assert(op.len == overlap_end(file, offset, data.len()) - overlap_start(file, offset));
            assert(after == after_write(before, op, data));
            assert forall|f: int, p: int|
                0 <= f < files.len() && 0 <= p < files[f].length implies #[trigger] after[f][p]
                == if f < n {
                spliced(offset, data, files[f].offset + p, disk[f][p])
            } else {
                disk[f][p]
            } by {
                assert(before[f][p] == if f < last {
                    spliced(offset, data, files[f].offset + p, disk[f][p])
                } else {
                    disk[f][p]
                });
                if f == last {
                    assert(before[f].len() == file.length);
                }
            }
            assert forall|f: int| 0 <= f < files.len() implies (#[trigger] after[f]).len()
                == files[f].length by {
                assert(before[f].len() == files[f].length);
            }
        } else {
            assert forall|f: int, p: int|
                0 <= f < files.len() && 0 <= p < files[f].length implies #[trigger] after[f][p]
                == if f < n {
                spliced(offset, data, files[f].offset + p, disk[f][p])
            } else {
                disk[f][p]
            } by {
                assert(before[f][p] == if f < last {
                    spliced(offset, data, files[f].offset + p, disk[f][p])
                } else {
                    disk[f][p]
                });
            }
        }
    }
}

/// The disk after the pieces of `content` with the given indices are written, in that order.
pub open spec fn after_pieces(
    storage: StorageView,
    disk: Seq<Seq<u8>>,
    content: Seq<u8>,
    order: Seq<nat>,
) -> Seq<Seq<u8>>
    decreases order.len(),
{
    if order.len() == 0 {
        disk
    } else {
        let before = after_pieces(storage, disk, content, order.drop_last());
        let index = order.last();
        let offset = storage.geometry.offset(index);
        let data = content.subrange(
            offset as int,
            (offset + storage.geometry.piece_len(index)) as int,
        );
        after_writes(before, region_ops(storage.files, offset, data.len()), data)
    }
}

/// Once every piece of a torrent's content is written, in whatever order and with repeats, every
/// file holds exactly its part of the content.
pub proof fn law_download_restores_the_files(
    info: InfoView,
    disk: Seq<Seq<u8>>,
    content: Seq<u8>,
    order: Seq<nat>,
)
    requires
        length_fits(info),
        storage_of(info) is Ok,
        storage_of(info)->Ok_0.files.len() <= usize::MAX,
        content.len() == storage_of(info)->Ok_0.geometry.total_length,
        is_disk(disk, storage_of(info)->Ok_0.files),
        forall|k: int|
            0 <= k < order.len() ==> (#[trigger] order[k])
                < storage_of(info)->Ok_0.geometry.num_pieces,
        forall|index: nat|
            index < storage_of(info)->Ok_0.geometry.num_pieces ==> #[trigger] order.contains(index),
    ensures
        ({
            let storage = storage_of(info)->Ok_0;
            let after = after_pieces(storage, disk, content, order);
            &&& after.len() == storage.files.len()
            &&& forall|f: int|
                0 <= f < storage.files.len() ==> #[trigger] after[f] == content.subrange(
                    storage.files[f].offset as int,
                    (storage.files[f].offset + storage.files[f].length) as int,
                )
        }),
{
    let storage = storage_of(info)->Ok_0;
    law_file_map_is_end_to_end(info);
    lemma_lay_out(paths_under(Seq::empty(), info)->Ok_0);
    lemma_files_restored(storage, disk, content, order);
}

/// Where files lie within the content, they hold their parts of it once every piece is written.
proof fn lemma_files_restored(
    storage: StorageView,
    disk: Seq<Seq<u8>>,
    content: Seq<u8>,
    order: Seq<nat>,
)
    requires
        storage.geometry.consistent(),
        content.len() == storage.geometry.total_length,
        files_fit(storage.files),
        storage.files.len() <= usize::MAX,
        forall|f: int|
            0 <= f < storage.files.len() ==> (#[trigger] storage.files[f]).offset
                + storage.files[f].length <= content.len(),
        is_disk(disk, storage.files),
        forall|k: int| 0 <= k < order.len() ==> (#[trigger] order[k]) < storage.geometry.num_pieces,
        forall|index: nat| index < storage.geometry.num_pieces ==> #[trigger] order.contains(index),
    ensures
        ({
            let after = after_pieces(storage, disk, content, order);
            &&& after.len() == storage.files.len()
            &&& forall|f: int|
                0 <= f < storage.files.len() ==> #[trigger] after[f] == content.subrange(
                    storage.files[f].offset as int,
                    (storage.files[f].offset + storage.files[f].length) as int,
                )
        }),
{
    lemma_after_pieces(storage, disk, content, order);
    let after = after_pieces(storage, disk, content, order);
    assert forall|f: int| 0 <= f < storage.files.len() implies #[trigger] after[f]
        == content.subrange(
        storage.files[f].offset as int,
        (storage.files[f].offset + storage.files[f].length) as int,
    ) by {
        let file = storage.files[f];
        let part = content.subrange(file.offset as int, (file.offset + file.length) as int);
        assert(after[f].len() == file.length);
        assert forall|p: int| 0 <= p < file.length implies after[f][p] == part[p] by {
            let at = (file.offset + p) as nat;
            let index = law_every_byte_in_one_piece(storage.geometry, at);
            assert(order.contains(index));
            let k = choose|k: int| 0 <= k < order.len() && order[k] == index;
            assert(piece_holds(storage.geometry, order[k], at));
        }
        assert(after[f] =~= part);
    }
}

/// Whether the byte at `at` lies in piece `index`.
pub open spec fn piece_holds(geometry: GeometryView, index: nat, at: nat) -> bool {
    geometry.offset(index) <= at < geometry.offset(index) + geometry.piece_len(index)
}

/// A byte that lies in one of the written pieces is that of the content.
proof fn lemma_after_pieces(
    storage: StorageView,
    disk: Seq<Seq<u8>>,
    content: Seq<u8>,
    order: Seq<nat>,
)
    requires
        storage.geometry.consistent(),
        content.len() == storage.geometry.total_length,
        files_fit(storage.files),
        storage.files.len() <= usize::MAX,
        is_disk(disk, storage.files),
        forall|k: int| 0 <= k < order.len() ==> (#[trigger] order[k]) < storage.geometry.num_pieces,
    ensures
        is_disk(after_pieces(storage, disk, content, order), storage.files),
        forall|f: int, p: int, k: int|
            0 <= f < storage.files.len() && 0 <= p < storage.files[f].length && 0 <= k
                < order.len() && #[trigger] piece_holds(
                storage.geometry,
                order[k],
                (storage.files[f].offset + p) as nat,
            ) ==> #[trigger] after_pieces(storage, disk, content, order)[f][p]
                == content[storage.files[f].offset + p],
    decreases order.len(),
{
    if order.len() > 0 {
        let front = order.drop_last();
        assert forall|k: int| 0 <= k < front.len() implies (#[trigger] front[k])
            < storage.geometry.num_pieces by {
            assert(order[k] < storage.geometry.num_pieces);
        }
        lemma_after_pieces(storage, disk, content, front);
        let before = after_pieces(storage, disk, content, front);
        let index = order.last();
        assert(order[order.len() - 1] < storage.geometry.num_pieces);
        let offset = storage.geometry.offset(index);
        let len = storage.geometry.piece_len(index);
        lemma_piece_in_content(storage.geometry, index);
        let data = content.subrange(offset as int, (offset + len) as int);
        law_region_is_written_exactly(storage.files, before, offset, data);
        let after = after_pieces(storage, disk, content, order);
        assert forall|f: int, p: int, k: int|
            0 <= f < storage.files.len() && 0 <= p < storage.files[f].length && 0 <= k
                < order.len() && #[trigger] piece_holds(
                storage.geometry,
                order[k],
                (storage.files[f].offset + p) as nat,
            ) implies #[trigger] after[f][p] == content[storage.files[f].offset + p] by {
            let at = storage.files[f].offset + p;
            assert(after[f][p] == spliced(offset, data, at, before[f][p]));
            if k < front.len() {
                assert(piece_holds(storage.geometry, front[k], at as nat));
            }
        }
    }
}

/// A piece ends within the content.
proof fn lemma_piece_in_content(geometry: GeometryView, index: nat)
    requires
        geometry.consistent(),
        index < geometry.num_pieces,
    ensures
        geometry.offset(index) + geometry.piece_len(index) <= geometry.total_length,
{
    if index + 1 < geometry.num_pieces {
        assert(index * geometry.piece_length + geometry.piece_length <= (geometry.num_pieces - 1)
            * geometry.piece_length) by (nonlinear_arith)
            requires
                index + 1 <= geometry.num_pieces - 1,
        ;
    }
}

} // verus!
