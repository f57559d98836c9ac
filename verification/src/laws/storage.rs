//! Where the bytes of a torrent go on disk.

use vstd::prelude::*;
use crate::disk::{
    build_file_map, covered, files_fit, lay_out, map_region, mapped, overlap_op, overlaps,
    region_ops, sum_of, MappedFile, MappedFileView, Storage, WriteOp,
};
use crate::download::piece::Geometry;
use crate::error::Result;
use crate::metainfo::{path_list, texts, Info, Metainfo};

verus! {

/// Whether files lie one behind another from the start of the content.
pub open spec fn lie_in_line(files: Seq<MappedFileView>) -> bool {
    &&& files.len() > 0 ==> files[0].offset == 0
    &&& forall|i: int, j: int|
        #![trigger files[i], files[j]]
        0 <= i && j == i + 1 && j < files.len() ==> files[j].offset == files[i].offset
            + files[i].length
}

/// The bytes of the first `n` of the paths.
pub open spec fn bytes_up_to(paths: Seq<(Vec<String>, u64)>, n: int) -> int
    decreases n,
{
    if n <= 0 {
        0
    } else {
        bytes_up_to(paths, n - 1) + paths[n - 1].1
    }
}

proof fn lemma_bytes_up_to(paths: Seq<(Vec<String>, u64)>, n: int)
    requires
        0 <= n <= paths.len(),
    ensures
        bytes_up_to(paths, n) == sum_of(path_list(paths).take(n)),
    decreases n,
{
    let all = path_list(paths);
    if n > 0 {
        lemma_bytes_up_to(paths, n - 1);
        assert(all.take(n).drop_last() =~= all.take(n - 1));
    }
}

proof fn lemma_laid_out(paths: Seq<(Vec<String>, u64)>, n: int)
    requires
        0 <= n <= paths.len(),
    ensures
        lay_out(path_list(paths).take(n)).len() == n,
        forall|i: int|
            0 <= i < n ==> {
                let file = #[trigger] lay_out(path_list(paths).take(n))[i];
                &&& file.path == texts(paths[i].0@)
                &&& file.length == paths[i].1
                &&& file.offset == bytes_up_to(paths, i)
            },
    decreases n,
{
    let all = path_list(paths);
    if n > 0 {
        lemma_laid_out(paths, n - 1);
        lemma_bytes_up_to(paths, n - 1);
        assert(all.take(n).drop_last() =~= all.take(n - 1));
        let files = lay_out(all.take(n));
        assert forall|i: int| 0 <= i < n implies {
            let file = #[trigger] files[i];
            &&& file.path == texts(paths[i].0@)
            &&& file.length == paths[i].1
            &&& file.offset == bytes_up_to(paths, i)
        } by {
            if i < n - 1 {
                assert(files[i] == lay_out(all.take(n - 1))[i]);
            }
        }
    }
}

/// The files of a torrent are those of its paths, in order and with their lengths, one behind
/// another from the start of the content. There are none where it has no paths, or where they are
/// longer together than can be counted.
pub proof fn law_files_lie_in_line(
    meta: &Metainfo,
    result: Result<Vec<MappedFile>>,
    root: Vec<String>,
    paths: Result<Vec<(Vec<String>, u64)>>,
)
    requires
        call_ensures(build_file_map, (meta,), result),
        call_ensures(Info::paths, (&meta.info, root), paths),
        root@.len() == 0,
    ensures
        result is Ok <==> (paths matches Ok(paths) && bytes_up_to(paths@, paths@.len() as int)
            <= 0xffff_ffff_ffff_ffff),
        paths matches Ok(paths) ==> (result matches Ok(files) ==> {
            &&& files@.len() == paths@.len()
            &&& forall|i: int|
                0 <= i < files@.len() ==> {
                    &&& (#[trigger] files@[i])@.path == texts(paths@[i].0@)
                    &&& files@[i].length == paths@[i].1
                    &&& files@[i].offset == bytes_up_to(paths@, i)
                }
            &&& lie_in_line(mapped(files@))
        }),
        paths is Ok ==> (result matches Err(error) ==> error@ is Storage),
{
    assert(texts(root@) =~= Seq::<Seq<char>>::empty());
    match paths {
        Ok(list) => {
            let n = list@.len() as int;
            lemma_bytes_up_to(list@, n);
            lemma_laid_out(list@, n);
            assert(path_list(list@).take(n) =~= path_list(list@));
            match result {
                Ok(files) => {
                    let all = mapped(files@);
                    assert forall|i: int| 0 <= i < files@.len() implies {
                        &&& (#[trigger] files@[i])@.path == texts(list@[i].0@)
                        &&& files@[i].length == list@[i].1
                        &&& files@[i].offset == bytes_up_to(list@, i)
                    } by {
                        assert(all[i] == files@[i]@);
                        assert(all[i] == lay_out(path_list(list@))[i]);
                    }
                    assert forall|i: int, j: int|
                        #![trigger all[i], all[j]]
                        0 <= i && j == i + 1 && j < all.len() implies all[j].offset
                        == all[i].offset + all[i].length by {
                        assert(all[i] == files@[i]@);
                        assert(all[j] == files@[j]@);
                        assert(bytes_up_to(list@, j) == bytes_up_to(list@, i) + list@[i].1);
                    }
                    if all.len() > 0 {
                        assert(all[0] == files@[0]@);
                    }
                },
                Err(_) => {},
            }
        },
        Err(_) => {},
    }
}

/// Whether a write takes bytes of the region to where they belong: it stays within its file and
/// within the region, and each byte goes to its own place in the content.
pub open spec fn is_write_of(
    op: WriteOp,
    files: Seq<MappedFileView>,
    offset: int,
    len: int,
) -> bool {
    let file = files[op.file_index as int];
    &&& op.file_index < files.len()
    &&& op.len > 0
    &&& op.file_offset + op.len <= file.length
    &&& op.src_start + op.len <= len
    &&& file.offset + op.file_offset == offset + op.src_start
}

/// Whether a write takes byte `k` of the region into file `f`.
pub open spec fn takes(op: WriteOp, f: int, k: int) -> bool {
    op.file_index == f && op.src_start <= k < op.src_start + op.len
}

/// Whether the writes put the `len` bytes from `offset` of the content into the files: each write
/// takes bytes where they belong, there is at most one for a file, in the order of the files, and
/// every byte that lies in a file is taken there.
pub open spec fn are_writes_of(
    ops: Seq<WriteOp>,
    files: Seq<MappedFileView>,
    offset: int,
    len: int,
) -> bool {
    &&& forall|i: int| 0 <= i < ops.len() ==> is_write_of(#[trigger] ops[i], files, offset, len)
    &&& forall|i: int, j: int|
        0 <= i < j < ops.len() ==> (#[trigger] ops[i]).file_index < (#[trigger] ops[j]).file_index
    &&& forall|f: int, k: int|
        #![trigger lies_in(files, f, offset + k)]
        0 <= k < len && lies_in(files, f, offset + k) ==> exists|i: int|
            0 <= i < ops.len() && takes(#[trigger] ops[i], f, k)
}

/// Whether byte `at` of the content lies in file `f`.
pub open spec fn lies_in(files: Seq<MappedFileView>, f: int, at: int) -> bool {
    0 <= f < files.len() && files[f].offset <= at < files[f].offset + files[f].length
}

proof fn lemma_region(files: Seq<MappedFileView>, offset: nat, len: nat, n: int)
    requires
        files_fit(files),
        files.len() <= usize::MAX,
        len <= usize::MAX,
        offset + len <= u64::MAX,
        0 <= n <= files.len(),
    ensures
        ({
            let ops = region_ops(files.take(n), offset, len);
            &&& forall|i: int|
                0 <= i < ops.len() ==> is_write_of(
                    #[trigger] ops[i],
                    files,
                    offset as int,
                    len as int,
                ) && ops[i].file_index < n
            &&& forall|i: int, j: int|
                0 <= i < j < ops.len() ==> (#[trigger] ops[i]).file_index < (
                #[trigger] ops[j]).file_index
            &&& forall|f: int, k: int|
                #![trigger lies_in(files, f, offset + k)]
                0 <= k < len && f < n && lies_in(files, f, offset + k) ==> exists|i: int|
                    0 <= i < ops.len() && takes(#[trigger] ops[i], f, k)
        }),
    decreases n,
{
    if n > 0 {
        let last = n - 1;
        lemma_region(files, offset, len, last);
        assert(files.take(n).drop_last() =~= files.take(last));
        assert(files.take(n)[last] == files[last]);
        let before = region_ops(files.take(last), offset, len);
        let ops = region_ops(files.take(n), offset, len);
        let file = files[last];
        assert(file.offset + file.length <= u64::MAX);
        if overlaps(file, offset, len) {
            let op = overlap_op(file, last, offset, len);
            assert(ops =~= before.push(op));
            assert(is_write_of(op, files, offset as int, len as int));
        }
        assert forall|i: int| 0 <= i < ops.len() implies is_write_of(
            #[trigger] ops[i],
            files,
            offset as int,
            len as int,
        ) && ops[i].file_index < n by {
            if i < before.len() {
                assert(ops[i] == before[i]);
            }
        }
        assert forall|i: int, j: int| 0 <= i < j < ops.len() implies (
        #[trigger] ops[i]).file_index < (#[trigger] ops[j]).file_index by {
            assert(ops[i] == before[i]);
            if j < before.len() {
                assert(ops[j] == before[j]);
            }
        }
        assert forall|f: int, k: int|
            #![trigger lies_in(files, f, offset + k)]
            0 <= k < len && f < n && lies_in(files, f, offset + k) implies exists|i: int|
            0 <= i < ops.len() && takes(#[trigger] ops[i], f, k) by {
            if f < last {
                let i = choose|i: int| 0 <= i < before.len() && takes(#[trigger] before[i], f, k);
                assert(ops[i] == before[i]);
                assert(takes(ops[i], f, k));
            } else {
                assert(overlaps(file, offset, len));
                assert(takes(ops[before.len() as int], f, k));
            }
        }
    }
}

/// A region of the content is written to the files that it lies in, each byte to its place, and
/// nothing else is written.
pub proof fn law_regions_are_written_where_they_belong(
    files: &[MappedFile],
    offset: u64,
    len: usize,
    ops: Vec<WriteOp>,
)
    requires
        call_ensures(map_region, (files, offset, len), ops),
        files_fit(mapped(files@)),
        files@.len() <= usize::MAX,
        offset + len <= u64::MAX,
    ensures
        are_writes_of(ops@, mapped(files@), offset as int, len as int),
{
    let all = mapped(files@);
    lemma_region(all, offset as nat, len as nat, all.len() as int);
    assert(all.take(all.len() as int) =~= all);
}

/// A storage is planned just where the sizes of the torrent fit together and it has files, and then
/// it has those sizes and those files.
pub proof fn law_storage_has_the_files_of_the_torrent(
    meta: &Metainfo,
    result: Result<Storage>,
    geometry: Result<Geometry>,
    files: Result<Vec<MappedFile>>,
    probe: &Storage,
    shown: &[MappedFile],
)
    requires
        call_ensures(Storage::create, (meta,), result),
        call_ensures(Geometry::from_info, (&meta.info,), geometry),
        call_ensures(build_file_map, (meta,), files),
        call_ensures(Storage::files, (probe,), shown),
    ensures
        result is Ok <==> geometry is Ok && files is Ok,
        result matches Ok(storage) ==> {
            &&& geometry matches Ok(geometry) && storage@.geometry == geometry@
            &&& files matches Ok(files) && storage@.files == mapped(files@)
        },
        mapped(shown@) == probe@.files,
{
}

/// The bytes that the first `n` writes take.
pub open spec fn bytes_taken(ops: Seq<WriteOp>, n: int) -> int
    decreases n,
{
    if n <= 0 {
        0
    } else {
        bytes_taken(ops, n - 1) + ops[n - 1].len
    }
}

proof fn lemma_bytes_taken(ops: Seq<WriteOp>, n: int)
    requires
        0 <= n <= ops.len(),
    ensures
        bytes_taken(ops, n) == covered(ops.take(n)),
    decreases n,
{
    if n > 0 {
        lemma_bytes_taken(ops, n - 1);
        assert(ops.take(n).drop_last() =~= ops.take(n - 1));
    }
}

/// A piece is written where it lies in the content: as many piece lengths behind the start as its
/// index says. It can be where that can be counted.
pub proof fn law_pieces_are_written_where_they_belong(
    storage: &Storage,
    index: u32,
    len: usize,
    ops: Vec<WriteOp>,
    ok: bool,
)
    requires
        call_ensures(Storage::plan_piece, (storage, index, len), ops),
        call_ensures(Storage::can_plan, (storage, index, len), ok),
        files_fit(storage@.files),
        storage@.files.len() <= usize::MAX,
    ensures
        ok <==> index * storage@.geometry.piece_length + len <= 0xffff_ffff_ffff_ffff,
        ok ==> are_writes_of(
            ops@,
            storage@.files,
            index * storage@.geometry.piece_length,
            len as int,
        ),
{
    let all = storage@.files;
    if ok {
        lemma_region(
            all,
            (index * storage@.geometry.piece_length) as nat,
            len as nat,
            all.len() as int,
        );
        assert(all.take(all.len() as int) =~= all);
    }
}

/// A piece is confirmed just where the writes took all of its bytes.
pub proof fn law_pieces_are_confirmed_to_the_last_byte(
    storage: &Storage,
    index: u32,
    ops: &Vec<WriteOp>,
    len: usize,
    result: Result<()>,
)
    requires
        call_ensures(Storage::confirm_piece, (storage, index, ops, len), result),
    ensures
        result is Ok <==> bytes_taken(ops@, ops@.len() as int) == len,
        result matches Err(error) ==> error@ is Storage,
{
    lemma_bytes_taken(ops@, ops@.len() as int);
    assert(ops@.take(ops@.len() as int) =~= ops@);
}

} // verus!
