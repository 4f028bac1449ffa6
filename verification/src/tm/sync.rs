//! How a synchronisation changes the store: the model of matching the rows of
//! the store against a snapshot of the directory.
use crate::tm::db::database::{add_file_row, new_file_row, updated_file, with_file_replaced, without_file};
use crate::tm::db::state::{any_file, ranked_files, DbState};
use crate::tm::db::types::{FileOrder, FileView};
use vstd::prelude::*;

verus! {

/// The position of the first row with path `p`, or the length when there is none.
pub open spec fn first_with_path(rem: Seq<FileView>, p: Seq<char>) -> int
    decreases rem.len(),
{
    if rem.len() == 0 {
        0
    } else if rem[0].path == p {
        0
    } else {
        1 + first_with_path(rem.drop_first(), p)
    }
}

/// The position of the first row with the given content hash and size, or the
/// length when there is none.
pub open spec fn first_with_content(rem: Seq<FileView>, h: Seq<char>, size: u64) -> int
    decreases rem.len(),
{
    if rem.len() == 0 {
        0
    } else if rem[0].content_hash == h && rem[0].size == size {
        0
    } else {
        1 + first_with_content(rem.drop_first(), h, size)
    }
}

pub proof fn lemma_first_with_path(rem: Seq<FileView>, p: Seq<char>, i: int)
    requires
        0 <= i <= rem.len(),
        forall|j: int| 0 <= j < i ==> rem[j].path != p,
        i == rem.len() || rem[i].path == p,
    ensures
        first_with_path(rem, p) == i,
    decreases rem.len(),
{
    if rem.len() > 0 && i > 0 {
        lemma_first_with_path(rem.drop_first(), p, i - 1);
    }
}

pub proof fn lemma_first_with_content(rem: Seq<FileView>, h: Seq<char>, size: u64, i: int)
    requires
        0 <= i <= rem.len(),
        forall|j: int| 0 <= j < i ==> !(rem[j].content_hash == h && rem[j].size == size),
        i == rem.len() || (rem[i].content_hash == h && rem[i].size == size),
    ensures
        first_with_content(rem, h, size) == i,
    decreases rem.len(),
{
    if rem.len() > 0 && i > 0 {
        lemma_first_with_content(rem.drop_first(), h, size, i - 1);
    }
}

/// The rows that stand for their path: of the rows with one path, the last one in
/// `listed` (a later row with the same path replaces an earlier one).
pub open spec fn representatives(listed: Seq<FileView>) -> Seq<FileView>
    decreases listed.len(),
{
    if listed.len() == 0 {
        Seq::empty()
    } else {
        let rest = representatives(listed.drop_first());
        if exists|j: int| 0 <= j < rest.len() && #[trigger] rest[j].path == listed[0].path {
            rest
        } else {
            seq![listed[0]] + rest
        }
    }
}

/// One file of the snapshot, matched against the rows not yet matched.
/// A row at the same path is refreshed when its content changed; otherwise a row
/// with the same content and size is taken to have moved to the new path;
/// otherwise the file is new. `None` when a new id cannot be drawn.
pub open spec fn sync_step(d: DbState, rem: Seq<FileView>, f: FileView) -> Option<(DbState, Seq<FileView>)> {
    let i = first_with_path(rem, f.path);
    if i < rem.len() {
        let r = rem[i];
        let d2 = if r.content_hash != f.content_hash {
            with_file_replaced(
                d,
                r.id,
                updated_file(
                    d.file(r.id),
                    None,
                    Some(f.size),
                    Some(f.content_hash),
                    Some(f.last_modified),
                    Some(f.last_accessed),
                    Some(f.created),
                ),
            )
        } else {
            d
        };
        Some((d2, rem.remove(i)))
    } else {
        let j = first_with_content(rem, f.content_hash, f.size);
        if j < rem.len() {
            let r = rem[j];
            Some(
                (
                    with_file_replaced(
                        d,
                        r.id,
                        updated_file(d.file(r.id), Some(f.path), None, None, None, None, None),
                    ),
                    rem.remove(j),
                ),
            )
        } else if d.last_file_id == i64::MAX {
            None
        } else {
            Some(
                (
                    add_file_row(
                        d,
                        new_file_row(
                            (d.last_file_id + 1) as i64,
                            f.path,
                            f.size,
                            f.content_hash,
                            f.last_modified,
                            f.last_accessed,
                            f.created,
                        ),
                    ),
                    rem,
                ),
            )
        }
    }
}

/// The snapshot files matched in order.
pub open spec fn sync_files(d: DbState, rem: Seq<FileView>, fs: Seq<FileView>) -> Option<(DbState, Seq<FileView>)>
    decreases fs.len(),
{
    if fs.len() == 0 {
        Some((d, rem))
    } else {
        match sync_files(d, rem, fs.drop_last()) {
            None => None,
            Some((d1, r1)) => sync_step(d1, r1, fs.last()),
        }
    }
}

/// The store after the rows in `rem` are deleted.
pub open spec fn delete_rows(d: DbState, rem: Seq<FileView>) -> DbState
    decreases rem.len(),
{
    if rem.len() == 0 {
        d
    } else {
        without_file(delete_rows(d, rem.drop_last()), rem.last().id)
    }
}

/// The store after a full synchronisation with the snapshot `fs`: every row that no
/// snapshot file matched is deleted. `None` when a new id cannot be drawn.
pub open spec fn full_sync_result(s: DbState, fs: Seq<FileView>) -> Option<DbState> {
    let reps = representatives(ranked_files(FileOrder::CreatedDesc, s.files, any_file()));
    match sync_files(s, reps, fs) {
        None => None,
        Some((d, rem)) => Some(delete_rows(d, rem)),
    }
}

/// Once a prefix of the snapshot cannot be matched, neither can the whole.
pub proof fn lemma_sync_files_none_extends(d: DbState, rem: Seq<FileView>, fs: Seq<FileView>, k: int)
    requires
        0 <= k <= fs.len(),
        sync_files(d, rem, fs.take(k)) is None,
    ensures
        sync_files(d, rem, fs) is None,
    decreases fs.len() - k,
{
    if k < fs.len() {
        assert(fs.take(k + 1).drop_last() =~= fs.take(k));
        lemma_sync_files_none_extends(d, rem, fs, k + 1);
    } else {
        assert(fs.take(k) =~= fs);
    }
}

/// Every row that stands for its path is a row of the listing.
pub proof fn lemma_representatives_subset(listed: Seq<FileView>)
    ensures
        forall|v: FileView| #[trigger] representatives(listed).contains(v) ==> listed.contains(v),
    decreases listed.len(),
{
    if listed.len() > 0 {
        let t = listed.drop_first();
        lemma_representatives_subset(t);
        assert forall|v: FileView| #[trigger] representatives(listed).contains(v) implies listed.contains(v) by {
            let rest = representatives(t);
            if rest.contains(v) {
                let j = choose|j: int| 0 <= j < t.len() && t[j] == v;
                assert(listed[j + 1] == v);
            } else {
                assert(listed[0] == v);
            }
        }
    }
}

/// Replacing a row by one with the same id keeps the set of ids.
pub proof fn lemma_replace_keeps_ids(s: DbState, id: i64, f: FileView, x: i64)
    requires
        s.has_file(id),
        f.id == id,
    ensures
        with_file_replaced(s, id, f).has_file(x) <==> s.has_file(x),
{
    let k = s.file_index(id);
    let t = with_file_replaced(s, id, f);
    assert(s.files[k].id == id);
    if s.has_file(x) {
        let i = choose|i: int| 0 <= i < s.files.len() && s.files[i].id == x;
        assert(t.files[i].id == x);
    }
    if t.has_file(x) {
        let i = choose|i: int| 0 <= i < t.files.len() && t.files[i].id == x;
        assert(s.files[i].id == x);
    }
}

/// Replacing a row by one with the same id keeps the set of ids.
pub proof fn lemma_replace_keeps_all_ids(s: DbState, id: i64, f: FileView)
    requires
        s.has_file(id),
        f.id == id,
    ensures
        forall|x: i64| #[trigger] with_file_replaced(s, id, f).has_file(x) <==> s.has_file(x),
{
    assert forall|x: i64| #[trigger] with_file_replaced(s, id, f).has_file(x) <==> s.has_file(x) by {
        lemma_replace_keeps_ids(s, id, f, x);
    }
}

} // verus!
