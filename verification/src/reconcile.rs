//! Resume from a prior run's export artefact.
//!
//! A prior `result` file is parsed (elsewhere) into records; a file of the
//! work set whose record count equals the total its first record advertises
//! is complete and drops out, so the new run redoes only unfinished work.

use vstd::prelude::*;
use crate::export::ExportFrame;
use crate::utils::FileItem;

verus! {

/// How many checkpoint records belong to the file at `path`.
pub open spec fn spec_record_count(frames: Seq<ExportFrame>, path: Seq<char>) -> int
    decreases frames.len(),
{
    if frames.len() == 0 {
        0
    } else {
        spec_record_count(frames.drop_last(), path) + if frames.last().file.file_path@ == path {
            1int
        } else {
            0int
        }
    }
}

/// The `total_frames` advertised by the first checkpoint record of the file
/// at `path`, if it has any.
pub open spec fn spec_first_total(frames: Seq<ExportFrame>, path: Seq<char>) -> Option<int>
    decreases frames.len(),
{
    if frames.len() == 0 {
        None
    } else if frames[0].file.file_path@ == path {
        Some(frames[0].total_frames as int)
    } else {
        spec_first_total(frames.drop_first(), path)
    }
}

/// The checkpoint holds all of the file's records: as many as its first
/// record advertised.
pub open spec fn spec_completed(frames: Seq<ExportFrame>, path: Seq<char>) -> bool {
    match spec_first_total(frames, path) {
        Some(t) => spec_record_count(frames, path) == t,
        None => false,
    }
}

/// Count the checkpoint records belonging to the file at `path`.
pub fn record_count(frames: &Vec<ExportFrame>, path: &String) -> (n: usize)
    ensures
        n as int == spec_record_count(frames@, path@),
{
    let mut n: usize = 0;
    let mut i: usize = 0;
    proof {
        assert(frames@.subrange(0, 0) =~= Seq::<ExportFrame>::empty());
    }
    while i < frames.len()
        invariant
            i <= frames@.len(),
            n <= i,
            n as int == spec_record_count(frames@.subrange(0, i as int), path@),
        decreases frames@.len() - i,
    {
        proof {
            assert(frames@.subrange(0, i + 1).drop_last() =~= frames@.subrange(0, i as int));
            assert(frames@.subrange(0, i + 1).last() == frames@[i as int]);
        }
        if frames[i].file.file_path.eq(path) {
            n = n + 1;
        }
        i = i + 1;
    }
    proof {
        assert(frames@.subrange(0, frames@.len() as int) =~= frames@);
    }
    n
}

/// When no record before `i` belongs to `path`, the first record of `path`
/// in the whole checkpoint is its first record from `i` on.
proof fn lemma_first_total_skip(frames: Seq<ExportFrame>, path: Seq<char>, i: int)
    requires
        0 <= i <= frames.len(),
        forall|j: int| 0 <= j < i ==> (#[trigger] frames[j]).file.file_path@ != path,
    ensures
        spec_first_total(frames, path) == spec_first_total(frames.skip(i), path),
    decreases i,
{
    if i == 0 {
        assert(frames.skip(0) =~= frames);
    } else {
        assert(frames[0].file.file_path@ != path);
        lemma_first_total_skip(frames.drop_first(), path, i - 1);
        assert(frames.drop_first().skip(i - 1) =~= frames.skip(i));
    }
}

/// The `total_frames` advertised by the first checkpoint record of the file
/// at `path`, if it has any.
pub fn first_total(frames: &Vec<ExportFrame>, path: &String) -> (r: Option<usize>)
    ensures
        match r {
            Some(t) => spec_first_total(frames@, path@) == Some(t as int),
            None => spec_first_total(frames@, path@) is None,
        },
{
    let mut i: usize = 0;
    while i < frames.len()
        invariant
            i <= frames@.len(),
            forall|j: int| 0 <= j < i ==> (#[trigger] frames@[j]).file.file_path@ != path@,
        decreases frames@.len() - i,
    {
        if frames[i].file.file_path.eq(path) {
            proof {
                lemma_first_total_skip(frames@, path@, i as int);
                assert(frames@.skip(i as int)[0] == frames@[i as int]);
            }
            return Some(frames[i].total_frames);
        }
        i = i + 1;
    }
    proof {
        lemma_first_total_skip(frames@, path@, frames@.len() as int);
        assert(frames@.skip(frames@.len() as int).len() == 0);
    }
    None
}

/// Narrow the work set by a prior run's records: a file whose records are
/// all present drops out; the rest stay, in their given order.
pub fn resume_from_checkpoint(frames: &Vec<ExportFrame>, all_files: Vec<FileItem>) -> (r: Vec<
    FileItem,
>)
    ensures
        r@ == all_files@.filter(|f: FileItem| !spec_completed(frames@, f.file_path@)),
{
    let mut r: Vec<FileItem> = Vec::new();
    let mut i: usize = 0;
    proof {
        reveal_with_fuel(Seq::<FileItem>::filter, 2);
        assert(all_files@.subrange(0, 0) =~= Seq::<FileItem>::empty());
        assert(r@ =~= all_files@.subrange(0, 0).filter(
            |f: FileItem| !spec_completed(frames@, f.file_path@),
        ));
    }
    while i < all_files.len()
        invariant
            i <= all_files@.len(),
            r@ == all_files@.subrange(0, i as int).filter(
                |f: FileItem| !spec_completed(frames@, f.file_path@),
            ),
        decreases all_files@.len() - i,
    {
        proof {
            reveal_with_fuel(Seq::<FileItem>::filter, 2);
            assert(all_files@.subrange(0, i + 1).drop_last() =~= all_files@.subrange(0, i as int));
            assert(all_files@.subrange(0, i + 1).last() == all_files@[i as int]);
        }
        let file = &all_files[i];
        let count = record_count(frames, &file.file_path);
        let total = first_total(frames, &file.file_path);
        let completed = match total {
            Some(t) => count == t,
            None => false,
        };
        if !completed {
            r.push(file.duplicate());
            proof {
                assert(r@.last() == all_files@[i as int]);
            }
        }
        i = i + 1;
    }
    proof {
        assert(all_files@.subrange(0, all_files@.len() as int) =~= all_files@);
    }
    r
}

/// Resume idempotence, reconciliation half: a checkpoint that already holds
/// every record of every file of the work set leaves nothing to do.
pub proof fn lemma_resume_idempotent(frames: Seq<ExportFrame>, files: Seq<FileItem>)
    requires
        forall|i: int|
            0 <= i < files.len() ==> spec_completed(frames, (#[trigger] files[i]).file_path@),
    ensures
        files.filter(|f: FileItem| !spec_completed(frames, f.file_path@)).len() == 0,
    decreases files.len(),
{
    reveal_with_fuel(Seq::<FileItem>::filter, 2);
    if files.len() > 0 {
        lemma_resume_idempotent(frames, files.drop_last());
        assert(files.last() == files[files.len() - 1]);
    }
}

/// The converse: a file none of whose records are in the checkpoint always
/// stays in the work set.
pub proof fn lemma_unseen_file_stays(frames: Seq<ExportFrame>, files: Seq<FileItem>, i: int)
    requires
        0 <= i < files.len(),
        spec_first_total(frames, files[i].file_path@) is None,
    ensures
        files.filter(|f: FileItem| !spec_completed(frames, f.file_path@)).contains(files[i]),
    decreases files.len(),
{
    reveal_with_fuel(Seq::<FileItem>::filter, 2);
    let pred = |f: FileItem| !spec_completed(frames, f.file_path@);
    if i == files.len() - 1 {
        assert(files.last() == files[i]);
        assert(pred(files[i]));
        let out = files.filter(pred);
        assert(out.last() == files[i]);
    } else {
        lemma_unseen_file_stays(frames, files.drop_last(), i);
        assert(files.drop_last()[i] == files[i]);
        let sub = files.drop_last().filter(pred);
        let out = files.filter(pred);
        assert(sub.contains(files[i]));
        let w = choose|w: int| 0 <= w < sub.len() && sub[w] == files[i];
        assert(out[w] == files[i]);
    }
}

} // verus!
