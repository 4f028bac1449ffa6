//! What a synchronisation guarantees: the store ends up listing exactly the
//! files of the snapshot, each with its current content hash.
use crate::ranking::strictly_ranked;
use crate::tm::db::database::{add_file_row, new_file_row, updated_file, with_file_replaced, without_file};
use crate::tm::db::state::{any_file, file_other_than, lemma_filter_contains_iff, lemma_ranked_files_props, ranked_files, DbState};
use crate::tm::db::types::{DBFile, FileOrder, FileView};
use crate::tm::sync::{delete_rows, first_with_content, first_with_path, full_sync_result, representatives, sync_files, sync_step};
use vstd::prelude::*;

verus! {

/// No two rows share a path.
pub open spec fn paths_distinct(files: Seq<FileView>) -> bool {
    forall|i: int, j: int|
        0 <= i < files.len() && 0 <= j < files.len() && i != j ==> #[trigger] files[i].path != #[trigger] files[j].path
}

/// Some row has path `p`.
pub open spec fn covered(d: DbState, p: Seq<char>) -> bool {
    exists|x: FileView| #[trigger] d.files.contains(x) && x.path == p
}

spec fn ids_ok(d: DbState) -> bool {
    &&& forall|i: int, j: int| 0 <= i < j < d.files.len() ==> #[trigger] d.files[i].id < #[trigger] d.files[j].id
    &&& forall|i: int| 0 <= i < d.files.len() ==> #[trigger] d.files[i].id <= d.last_file_id
}

/// Snapshot file `j` is matched by row `x`: same path, same content hash.
spec fn matched_by(fs: Seq<FileView>, j: int, x: FileView) -> bool {
    fs[j].path == x.path && fs[j].content_hash == x.content_hash
}

spec fn sync_inv(d: DbState, rem: Seq<FileView>, fs: Seq<FileView>, k: int) -> bool {
    &&& 0 <= k <= fs.len()
    &&& ids_ok(d)
    &&& paths_distinct(d.files)
    &&& forall|x: FileView| #[trigger] d.files.contains(x) ==> rem.contains(x) || exists|j: int|
        0 <= j < k && #[trigger] matched_by(fs, j, x)
    &&& forall|j: int| 0 <= j < k ==> covered(d, #[trigger] fs[j].path)
    &&& forall|x: FileView| #[trigger] rem.contains(x) ==> d.files.contains(x)
    &&& rem.no_duplicates()
    &&& forall|x: FileView, j: int| #[trigger] rem.contains(x) && 0 <= j < k ==> x.path != #[trigger] fs[j].path
}

proof fn lemma_row_of_id(d: DbState, x: FileView)
    requires
        ids_ok(d),
        d.files.contains(x),
    ensures
        d.has_file(x.id),
        d.files[d.file_index(x.id)] == x,
        d.file(x.id) == x,
{
    let i = choose|i: int| 0 <= i < d.files.len() && d.files[i] == x;
    assert(d.files[i].id == x.id);
    let k = d.file_index(x.id);
    if k < i {
        assert(d.files[k].id < d.files[i].id);
    } else if k > i {
        assert(d.files[i].id < d.files[k].id);
    }
}

/// What the store holds after one row is replaced by another with its id.
proof fn lemma_replaced_contains(d: DbState, r: FileView, f2: FileView)
    requires
        ids_ok(d),
        d.files.contains(r),
        f2.id == r.id,
    ensures
        ({
            let t = with_file_replaced(d, r.id, f2);
            &&& ids_ok(t)
            &&& forall|x: FileView| #[trigger] t.files.contains(x) <==> (x == f2 || (d.files.contains(x) && x != r))
            &&& t.last_file_id == d.last_file_id
        }),
{
    lemma_row_of_id(d, r);
    let idx = d.file_index(r.id);
    let t = with_file_replaced(d, r.id, f2);
    assert(t.files == d.files.update(idx, f2));
    assert forall|x: FileView| #[trigger] t.files.contains(x) <==> (x == f2 || (d.files.contains(x) && x != r)) by {
        if t.files.contains(x) {
            let i = choose|i: int| 0 <= i < t.files.len() && t.files[i] == x;
            if i != idx {
                assert(d.files[i] == x);
                assert(d.files[i].id != d.files[idx].id);
            }
        }
        if x == f2 {
            assert(t.files[idx] == x);
        } else if d.files.contains(x) && x != r {
            let i = choose|i: int| 0 <= i < d.files.len() && d.files[i] == x;
            assert(i != idx);
            assert(t.files[i] == x);
        }
    }
    assert forall|i: int, j: int| 0 <= i < j < t.files.len() implies #[trigger] t.files[i].id < #[trigger] t.files[j].id by {
        assert(d.files[i].id < d.files[j].id);
    }
    assert forall|i: int| 0 <= i < t.files.len() implies #[trigger] t.files[i].id <= t.last_file_id by {
        assert(d.files[i].id <= d.last_file_id);
    }
}

proof fn lemma_first_with_path_props(rem: Seq<FileView>, p: Seq<char>)
    ensures
        0 <= first_with_path(rem, p) <= rem.len(),
        first_with_path(rem, p) < rem.len() ==> rem[first_with_path(rem, p)].path == p,
        first_with_path(rem, p) == rem.len() ==> forall|j: int| 0 <= j < rem.len() ==> #[trigger] rem[j].path != p,
    decreases rem.len(),
{
    if rem.len() > 0 && rem[0].path != p {
        lemma_first_with_path_props(rem.drop_first(), p);
        assert forall|j: int| 0 <= j < rem.len() && first_with_path(rem, p) == rem.len() implies #[trigger] rem[j].path != p by {
            if j > 0 {
                assert(rem[j] == rem.drop_first()[j - 1]);
            }
        }
    }
}

proof fn lemma_first_with_content_props(rem: Seq<FileView>, h: Seq<char>, size: u64)
    ensures
        0 <= first_with_content(rem, h, size) <= rem.len(),
        first_with_content(rem, h, size) < rem.len() ==> rem[first_with_content(rem, h, size)].content_hash == h
            && rem[first_with_content(rem, h, size)].size == size,
    decreases rem.len(),
{
    if rem.len() > 0 && !(rem[0].content_hash == h && rem[0].size == size) {
        lemma_first_with_content_props(rem.drop_first(), h, size);
    }
}

proof fn lemma_remove_contains(rem: Seq<FileView>, i: int)
    requires
        0 <= i < rem.len(),
        rem.no_duplicates(),
    ensures
        rem.remove(i).no_duplicates(),
        forall|x: FileView| #[trigger] rem.remove(i).contains(x) <==> (rem.contains(x) && x != rem[i]),
{
    let t = rem.remove(i);
    assert forall|a: int, b: int| 0 <= a < b < t.len() implies t[a] != t[b] by {
        let a2 = if a < i { a } else { a + 1 };
        let b2 = if b < i { b } else { b + 1 };
        assert(t[a] == rem[a2] && t[b] == rem[b2]);
    }
    assert forall|x: FileView| #[trigger] t.contains(x) <==> (rem.contains(x) && x != rem[i]) by {
        if t.contains(x) {
            let a = choose|a: int| 0 <= a < t.len() && t[a] == x;
            let a2 = if a < i { a } else { a + 1 };
            assert(rem[a2] == x);
        }
        if rem.contains(x) && x != rem[i] {
            let a = choose|a: int| 0 <= a < rem.len() && rem[a] == x;
            if a < i {
                assert(t[a] == x);
            } else {
                assert(t[a - 1] == x);
            }
        }
    }
}

/// One matched snapshot file keeps the invariant.
proof fn lemma_sync_step_inv(d: DbState, rem: Seq<FileView>, fs: Seq<FileView>, k: int)
    requires
        sync_inv(d, rem, fs, k),
        k < fs.len(),
        paths_distinct(fs),
        sync_step(d, rem, fs[k]) is Some,
    ensures
        sync_step(d, rem, fs[k]) matches Some((d2, rem2)) && sync_inv(d2, rem2, fs, k + 1),
{
    let f = fs[k];
    let (d2, rem2) = sync_step(d, rem, f)->0;
    lemma_first_with_path_props(rem, f.path);
    lemma_first_with_content_props(rem, f.content_hash, f.size);
    let i = first_with_path(rem, f.path);
    // a row at f's path can only be one not yet matched
    assert forall|x: FileView| #[trigger] d.files.contains(x) && x.path == f.path implies rem.contains(x) by {
        if !rem.contains(x) {
            let j = choose|j: int| 0 <= j < k && #[trigger] matched_by(fs, j, x);
            assert(fs[j].path == fs[k].path);
        }
    }
    if i < rem.len() {
        let r = rem[i];
        assert(rem.contains(r));
        assert(d.files.contains(r));
        lemma_row_of_id(d, r);
        lemma_remove_contains(rem, i);
        let f2 = updated_file(d.file(r.id), None, Some(f.size), Some(f.content_hash), Some(f.last_modified), Some(f.last_accessed), Some(f.created));
        let nr = if r.content_hash != f.content_hash { f2 } else { r };
        if r.content_hash != f.content_hash {
            lemma_replaced_contains(d, r, f2);
        }
        assert(forall|x: FileView| #[trigger] d2.files.contains(x) <==> (x == nr || (d.files.contains(x) && x != r)));
        assert(matched_by(fs, k, nr));
        // paths stay distinct: the replaced row keeps its path
        assert forall|a: int, b: int| 0 <= a < d2.files.len() && 0 <= b < d2.files.len() && a != b implies
            #[trigger] d2.files[a].path != #[trigger] d2.files[b].path by {
            if r.content_hash != f.content_hash {
                let idx = d.file_index(r.id);
                assert(d2.files == d.files.update(idx, f2));
                assert(d.files[a].path == d2.files[a].path);
                assert(d.files[b].path == d2.files[b].path);
            }
        }
        assert forall|x: FileView| #[trigger] d2.files.contains(x) implies rem2.contains(x) || exists|j: int|
            0 <= j < k + 1 && #[trigger] matched_by(fs, j, x) by {
            if x != nr {
                assert(d.files.contains(x) && x != r);
                if !rem.contains(x) {
                    let j = choose|j: int| 0 <= j < k && #[trigger] matched_by(fs, j, x);
                }
            }
        }
        assert forall|j: int| 0 <= j < k + 1 implies covered(d2, #[trigger] fs[j].path) by {
            if j == k {
                assert(d2.files.contains(nr));
            } else {
                assert(covered(d, fs[j].path));
                    let x = choose|x: FileView| #[trigger] d.files.contains(x) && x.path == fs[j].path;
                if x == r {
                    assert(rem.contains(r));
                    assert(false);
                }
                assert(d2.files.contains(x));
            }
        }
        assert forall|x: FileView, j: int| #[trigger] rem2.contains(x) && 0 <= j < k + 1 implies x.path != #[trigger] fs[j].path by {
            if j == k && x.path == f.path {
                assert(d.files.contains(x));
                let a = choose|a: int| 0 <= a < d.files.len() && d.files[a] == x;
                let b = choose|b: int| 0 <= b < d.files.len() && d.files[b] == r;
                assert(a == b);
            }
        }
    } else {
        let j0 = first_with_content(rem, f.content_hash, f.size);
        if j0 < rem.len() {
            let r = rem[j0];
            assert(rem.contains(r));
            assert(d.files.contains(r));
            lemma_row_of_id(d, r);
            lemma_remove_contains(rem, j0);
            let f2 = updated_file(d.file(r.id), Some(f.path), None, None, None, None, None);
            lemma_replaced_contains(d, r, f2);
            assert(matched_by(fs, k, f2));
            assert forall|x: FileView| #[trigger] d.files.contains(x) implies x.path != f.path by {
                if x.path == f.path {
                    assert(rem.contains(x));
                    let a = choose|a: int| 0 <= a < rem.len() && rem[a] == x;
                    assert(rem[a].path != f.path);
                }
            }
            assert forall|a: int, b: int| 0 <= a < d2.files.len() && 0 <= b < d2.files.len() && a != b implies
                #[trigger] d2.files[a].path != #[trigger] d2.files[b].path by {
                let idx = d.file_index(r.id);
                assert(d2.files == d.files.update(idx, f2));
                if a != idx && b != idx {
                    assert(d.files[a].path != d.files[b].path);
                } else if a == idx {
                    assert(d.files.contains(d.files[b]));
                } else {
                    assert(d.files.contains(d.files[a]));
                }
            }
            assert forall|x: FileView| #[trigger] d2.files.contains(x) implies rem2.contains(x) || exists|j: int|
                0 <= j < k + 1 && #[trigger] matched_by(fs, j, x) by {
                if x != f2 {
                    if !rem.contains(x) {
                        let j = choose|j: int| 0 <= j < k && #[trigger] matched_by(fs, j, x);
                    }
                }
            }
            assert forall|j: int| 0 <= j < k + 1 implies covered(d2, #[trigger] fs[j].path) by {
                if j == k {
                    assert(d2.files.contains(f2));
                } else {
                    assert(covered(d, fs[j].path));
                    let x = choose|x: FileView| #[trigger] d.files.contains(x) && x.path == fs[j].path;
                    if x == r {
                        assert(false);
                    }
                    assert(d2.files.contains(x));
                }
            }
            assert forall|x: FileView, j: int| #[trigger] rem2.contains(x) && 0 <= j < k + 1 implies x.path != #[trigger] fs[j].path by {
                if j == k {
                    assert(d.files.contains(x));
                }
            }
        } else {
            let row = new_file_row((d.last_file_id + 1) as i64, f.path, f.size, f.content_hash, f.last_modified, f.last_accessed, f.created);
            assert(d2 == add_file_row(d, row));
            assert(d2.files == d.files.push(row));
            assert forall|x: FileView| #[trigger] d2.files.contains(x) <==> (x == row || d.files.contains(x)) by {
                if d2.files.contains(x) {
                    let a = choose|a: int| 0 <= a < d2.files.len() && d2.files[a] == x;
                    if a < d.files.len() {
                        assert(d.files[a] == x);
                    }
                }
                if d.files.contains(x) {
                    let a = choose|a: int| 0 <= a < d.files.len() && d.files[a] == x;
                    assert(d2.files[a] == x);
                }
                if x == row {
                    assert(d2.files[d.files.len() as int] == x);
                }
            }
            assert forall|x: FileView| #[trigger] d.files.contains(x) implies x.path != f.path by {
                if x.path == f.path {
                    assert(rem.contains(x));
                    let a = choose|a: int| 0 <= a < rem.len() && rem[a] == x;
                    assert(rem[a].path != f.path);
                }
            }
            assert(matched_by(fs, k, row));
            assert forall|a: int, b: int| 0 <= a < j_len(d2) && 0 <= b < j_len(d2) && a != b implies
                #[trigger] d2.files[a].path != #[trigger] d2.files[b].path by {
                if a < d.files.len() && b < d.files.len() {
                } else if a == d.files.len() {
                    assert(d.files.contains(d.files[b]));
                } else {
                    assert(d.files.contains(d.files[a]));
                }
            }
            assert forall|a: int, b: int| 0 <= a < b < d2.files.len() implies #[trigger] d2.files[a].id < #[trigger] d2.files[b].id by {
                if b == d.files.len() {
                    assert(d.files[a].id <= d.last_file_id);
                }
            }
            assert forall|x: FileView| #[trigger] d2.files.contains(x) implies rem2.contains(x) || exists|j: int|
                0 <= j < k + 1 && #[trigger] matched_by(fs, j, x) by {
                if x != row {
                    if !rem.contains(x) {
                        let j = choose|j: int| 0 <= j < k && #[trigger] matched_by(fs, j, x);
                    }
                }
            }
            assert forall|j: int| 0 <= j < k + 1 implies covered(d2, #[trigger] fs[j].path) by {
                if j == k {
                    assert(d2.files.contains(row));
                } else {
                    assert(covered(d, fs[j].path));
                    let x = choose|x: FileView| #[trigger] d.files.contains(x) && x.path == fs[j].path;
                    assert(d2.files.contains(x));
                }
            }
            assert forall|x: FileView, j: int| #[trigger] rem2.contains(x) && 0 <= j < k + 1 implies x.path != #[trigger] fs[j].path by {
                if j == k {
                    assert(d.files.contains(x));
                }
            }
        }
    }
}

spec fn j_len(d: DbState) -> int {
    d.files.len() as int
}

proof fn lemma_sync_fold_inv(s: DbState, reps: Seq<FileView>, fs: Seq<FileView>, k: int)
    requires
        sync_inv(s, reps, fs, 0),
        paths_distinct(fs),
        0 <= k <= fs.len(),
        sync_files(s, reps, fs.take(k)) is Some,
    ensures
        sync_files(s, reps, fs.take(k)) matches Some((d, r)) && sync_inv(d, r, fs, k),
    decreases k,
{
    if k == 0 {
        assert(fs.take(0) =~= Seq::<FileView>::empty());
    } else {
        assert(fs.take(k).drop_last() =~= fs.take(k - 1));
        assert(fs.take(k).last() == fs[k - 1]);
        if sync_files(s, reps, fs.take(k - 1)) is None {
            assert(sync_files(s, reps, fs.take(k)) is None);
        }
        lemma_sync_fold_inv(s, reps, fs, k - 1);
        let (d1, r1) = sync_files(s, reps, fs.take(k - 1))->0;
        lemma_sync_step_inv(d1, r1, fs, k - 1);
    }
}

/// With distinct paths every row stands for itself.
proof fn lemma_representatives_of_distinct(listed: Seq<FileView>)
    requires
        paths_distinct(listed),
    ensures
        representatives(listed) == listed,
    decreases listed.len(),
{
    if listed.len() > 0 {
        let t = listed.drop_first();
        assert(paths_distinct(t)) by {
            assert forall|i: int, j: int| 0 <= i < t.len() && 0 <= j < t.len() && i != j implies #[trigger] t[i].path
                != #[trigger] t[j].path by {
                assert(t[i] == listed[i + 1] && t[j] == listed[j + 1]);
            }
        }
        lemma_representatives_of_distinct(t);
        assert(!exists|j: int| 0 <= j < t.len() && #[trigger] t[j].path == listed[0].path) by {
            assert forall|j: int| 0 <= j < t.len() implies #[trigger] t[j].path != listed[0].path by {
                assert(t[j] == listed[j + 1]);
            }
        }
        assert(listed =~= seq![listed[0]] + t);
    }
}

/// Deleting rows one by one keeps exactly the rows whose id is not deleted.
proof fn lemma_delete_rows(d: DbState, rem: Seq<FileView>)
    requires
        forall|i: int, j: int| 0 <= i < j < d.files.len() ==> #[trigger] d.files[i].id < #[trigger] d.files[j].id,
        paths_distinct(d.files),
    ensures
        ({
            let t = delete_rows(d, rem);
            &&& forall|i: int, j: int| 0 <= i < j < t.files.len() ==> #[trigger] t.files[i].id < #[trigger] t.files[j].id
            &&& paths_distinct(t.files)
            &&& forall|x: FileView| #[trigger] t.files.contains(x) <==> (d.files.contains(x) && forall|i: int|
                0 <= i < rem.len() ==> #[trigger] rem[i].id != x.id)
        }),
    decreases rem.len(),
{
    if rem.len() > 0 {
        let r0 = rem.drop_last();
        lemma_delete_rows(d, r0);
        let p = delete_rows(d, r0);
        let id = rem.last().id;
        let pf = p.files;
        let t = delete_rows(d, rem);
        assert(t.files == pf.filter(file_other_than(id)));
        crate::tm::db::state::lemma_filter_keeps_increasing(pf, file_other_than(id), |v: FileView| v.id as int);
        lemma_filter_contains_iff(pf, file_other_than(id));
        assert forall|i: int, j: int| 0 <= i < j < t.files.len() implies #[trigger] t.files[i].id < #[trigger] t.files[j].id by {
            assert((|v: FileView| v.id as int)(t.files[i]) < (|v: FileView| v.id as int)(t.files[j]));
        }
        assert forall|a: int, b: int| 0 <= a < t.files.len() && 0 <= b < t.files.len() && a != b implies
            #[trigger] t.files[a].path != #[trigger] t.files[b].path by {
            assert(t.files.contains(t.files[a]));
            assert(t.files.contains(t.files[b]));
            let a2 = choose|a2: int| 0 <= a2 < pf.len() && pf[a2] == t.files[a];
            let b2 = choose|b2: int| 0 <= b2 < pf.len() && pf[b2] == t.files[b];
            if a < b {
                assert(t.files[a].id < t.files[b].id);
            } else {
                assert(t.files[b].id < t.files[a].id);
            }
            assert(a2 != b2);
        }
        assert forall|x: FileView| #[trigger] t.files.contains(x) <==> (d.files.contains(x) && forall|i: int|
            0 <= i < rem.len() ==> #[trigger] rem[i].id != x.id) by {
            if d.files.contains(x) && forall|i: int| 0 <= i < rem.len() ==> #[trigger] rem[i].id != x.id {
                assert forall|i: int| 0 <= i < r0.len() implies #[trigger] r0[i].id != x.id by {
                    assert(r0[i] == rem[i]);
                }
                assert(rem[rem.len() - 1].id != x.id);
            }
            if t.files.contains(x) {
                assert(pf.contains(x));
                assert forall|i: int| 0 <= i < rem.len() implies #[trigger] rem[i].id != x.id by {
                    if i < r0.len() {
                        assert(r0[i] == rem[i]);
                    }
                }
            }
        }
    }
}

/// The rows that a synchronisation matches against, for a store whose paths are
/// distinct: every row, once.
proof fn lemma_listing_reps(s: DbState)
    requires
        forall|i: int, j: int| 0 <= i < j < s.files.len() ==> #[trigger] s.files[i].id < #[trigger] s.files[j].id,
        paths_distinct(s.files),
    ensures
        ({
            let reps = representatives(ranked_files(FileOrder::CreatedDesc, s.files, any_file()));
            &&& reps.no_duplicates()
            &&& paths_distinct(reps)
            &&& forall|x: FileView| #[trigger] reps.contains(x) <==> s.files.contains(x)
        }),
{
    let ranked = ranked_files(FileOrder::CreatedDesc, s.files, any_file());
    lemma_ranked_files_props(FileOrder::CreatedDesc, s.files, any_file());
    // the listing has distinct paths, so every row stands for itself
    assert(paths_distinct(ranked)) by {
        assert forall|a: int, b: int| 0 <= a < ranked.len() && 0 <= b < ranked.len() && a != b implies
            #[trigger] ranked[a].path != #[trigger] ranked[b].path by {
            assert(ranked.contains(ranked[a]));
            assert(ranked.contains(ranked[b]));
            let a2 = choose|a2: int| 0 <= a2 < s.files.len() && s.files[a2] == ranked[a];
            let b2 = choose|b2: int| 0 <= b2 < s.files.len() && s.files[b2] == ranked[b];
            if ranked[a].path == ranked[b].path {
                assert(a2 == b2);
                <DBFile as crate::ranking::Ranked>::lemma_rank_lt_strict(FileOrder::CreatedDesc, ranked[a], ranked[a], ranked[a]);
                if a < b {
                    assert(crate::tm::db::types::file_before(FileOrder::CreatedDesc, ranked[a], ranked[b]));
                } else {
                    assert(crate::tm::db::types::file_before(FileOrder::CreatedDesc, ranked[b], ranked[a]));
                }
            }
        }
    }
    lemma_representatives_of_distinct(ranked);
    let reps = representatives(ranked);
    assert(reps.no_duplicates()) by {
        assert forall|a: int, b: int| 0 <= a < b < reps.len() implies reps[a] != reps[b] by {
            assert(reps == ranked);
            assert(<DBFile as crate::ranking::Ranked>::rank_lt(FileOrder::CreatedDesc, ranked[a], ranked[b]));
            <DBFile as crate::ranking::Ranked>::lemma_rank_lt_strict(FileOrder::CreatedDesc, reps[a], reps[a], reps[a]);
        }
    }
    assert(reps == ranked);
}

/// After a synchronisation with a snapshot whose paths are distinct, of a store
/// whose paths are distinct, the store lists each path of the snapshot exactly
/// once, with the content hash that the snapshot gives it, and no other path.
pub proof fn law_sync_mirrors_snapshot(s: DbState, fs: Seq<FileView>)
    requires
        s.valid(),
        paths_distinct(s.files),
        paths_distinct(fs),
        full_sync_result(s, fs) is Some,
    ensures
        ({
            let t = full_sync_result(s, fs)->0;
            &&& forall|i: int, j: int| 0 <= i < j < t.files.len() ==> #[trigger] t.files[i].id < #[trigger] t.files[j].id
            &&& paths_distinct(t.files)
            &&& forall|x: FileView| #[trigger] t.files.contains(x) ==> exists|j: int|
                0 <= j < fs.len() && fs[j].path == x.path && fs[j].content_hash == x.content_hash
            &&& forall|j: int| 0 <= j < fs.len() ==> covered(t, #[trigger] fs[j].path)
        }),
{
    lemma_listing_reps(s);
    let reps = representatives(ranked_files(FileOrder::CreatedDesc, s.files, any_file()));
    assert(sync_inv(s, reps, fs, 0));
    assert(fs.take(fs.len() as int) =~= fs);
    lemma_sync_fold_inv(s, reps, fs, fs.len() as int);
    let (d, rem) = sync_files(s, reps, fs)->0;
    lemma_delete_rows(d, rem);
    let t = delete_rows(d, rem);
    assert(t == full_sync_result(s, fs)->0);
    assert forall|x: FileView| #[trigger] t.files.contains(x) implies exists|j: int|
        0 <= j < fs.len() && fs[j].path == x.path && fs[j].content_hash == x.content_hash by {
        assert(d.files.contains(x));
        if rem.contains(x) {
            let i = choose|i: int| 0 <= i < rem.len() && rem[i] == x;
            assert(rem[i].id != x.id);
        }
        let j = choose|j: int| 0 <= j < fs.len() && #[trigger] matched_by(fs, j, x);
    }
    assert forall|j: int| 0 <= j < fs.len() implies covered(t, #[trigger] fs[j].path) by {
        assert(covered(d, fs[j].path));
        let x = choose|x: FileView| #[trigger] d.files.contains(x) && x.path == fs[j].path;
        assert forall|i: int| 0 <= i < rem.len() implies #[trigger] rem[i].id != x.id by {
            assert(rem.contains(rem[i]));
            assert(d.files.contains(rem[i]));
            assert(rem[i].path != fs[j].path);
            if rem[i].id == x.id {
                lemma_row_of_id(d, x);
                lemma_row_of_id(d, rem[i]);
            }
        }
        assert(t.files.contains(x));
    }
}

/// The store is in step with the snapshot: its paths are distinct, each row has
/// the path and content hash of a snapshot file, and each snapshot path has a row.
pub open spec fn in_step(t: DbState, fs: Seq<FileView>) -> bool {
    &&& paths_distinct(t.files)
    &&& forall|x: FileView| #[trigger] t.files.contains(x) ==> exists|j: int|
        0 <= j < fs.len() && fs[j].path == x.path && fs[j].content_hash == x.content_hash
    &&& forall|j: int| 0 <= j < fs.len() ==> covered(t, #[trigger] fs[j].path)
}

/// The rows still to match after the first `k` snapshot files: those whose path
/// is not among theirs.
spec fn unmatched_after(t: DbState, rem: Seq<FileView>, fs: Seq<FileView>, k: int) -> bool {
    &&& rem.no_duplicates()
    &&& forall|x: FileView| #[trigger] rem.contains(x) <==> (t.files.contains(x) && forall|j: int|
        0 <= j < k ==> #[trigger] fs[j].path != x.path)
}

proof fn lemma_in_step_fold(t: DbState, fs: Seq<FileView>, k: int)
    requires
        forall|i: int, j: int| 0 <= i < j < t.files.len() ==> #[trigger] t.files[i].id < #[trigger] t.files[j].id,
        paths_distinct(fs),
        in_step(t, fs),
        0 <= k <= fs.len(),
    ensures
        ({
            let reps = representatives(ranked_files(FileOrder::CreatedDesc, t.files, any_file()));
            sync_files(t, reps, fs.take(k)) matches Some((d, rem)) && d == t && unmatched_after(t, rem, fs, k)
        }),
    decreases k,
{
    lemma_listing_reps(t);
    let reps = representatives(ranked_files(FileOrder::CreatedDesc, t.files, any_file()));
    if k == 0 {
        assert(fs.take(0) =~= Seq::<FileView>::empty());
    } else {
        lemma_in_step_fold(t, fs, k - 1);
        assert(fs.take(k).drop_last() =~= fs.take(k - 1));
        assert(fs.take(k).last() == fs[k - 1]);
        let (d, rem) = sync_files(t, reps, fs.take(k - 1))->0;
        let f = fs[k - 1];
        // the row at the path of `f` is still to match
        assert(covered(t, f.path));
        let x = choose|x: FileView| #[trigger] t.files.contains(x) && x.path == f.path;
        assert forall|j: int| 0 <= j < k - 1 implies #[trigger] fs[j].path != x.path by {
            assert(fs[j].path != fs[k - 1].path);
        }
        assert(rem.contains(x));
        lemma_first_with_path_props(rem, f.path);
        let i = first_with_path(rem, f.path);
        if i == rem.len() {
            let a = choose|a: int| 0 <= a < rem.len() && rem[a] == x;
            assert(rem[a].path != f.path);
        }
        assert(i < rem.len());
        let r = rem[i];
        assert(rem.contains(r));
        assert(t.files.contains(r));
        assert(r == x) by {
            let a = choose|a: int| 0 <= a < t.files.len() && t.files[a] == r;
            let b = choose|b: int| 0 <= b < t.files.len() && t.files[b] == x;
            if a != b {
                assert(t.files[a].path != t.files[b].path);
            }
        }
        // its content hash is that of `f`
        let j = choose|j: int| 0 <= j < fs.len() && fs[j].path == x.path && fs[j].content_hash == x.content_hash;
        if j != k - 1 {
            assert(fs[j].path != fs[k - 1].path);
        }
        assert(sync_step(d, rem, f) == Some((d, rem.remove(i))));
        lemma_remove_contains(rem, i);
        let rem2 = rem.remove(i);
        assert forall|y: FileView| #[trigger] rem2.contains(y) <==> (t.files.contains(y) && forall|j2: int|
            0 <= j2 < k ==> #[trigger] fs[j2].path != y.path) by {
            if rem2.contains(y) {
                assert(rem.contains(y) && y != x);
                assert forall|j2: int| 0 <= j2 < k implies #[trigger] fs[j2].path != y.path by {
                    if j2 == k - 1 && fs[j2].path == y.path {
                        let a = choose|a: int| 0 <= a < t.files.len() && t.files[a] == y;
                        let b = choose|b: int| 0 <= b < t.files.len() && t.files[b] == x;
                        if a != b {
                            assert(t.files[a].path != t.files[b].path);
                        }
                    }
                }
            }
            if t.files.contains(y) && forall|j2: int| 0 <= j2 < k ==> #[trigger] fs[j2].path != y.path {
                assert forall|j2: int| 0 <= j2 < k - 1 implies #[trigger] fs[j2].path != y.path by {
                    assert(fs[j2].path != y.path);
                }
                assert(rem.contains(y));
                assert(fs[k - 1].path != y.path);
            }
        }
    }
}

proof fn lemma_in_step_sync_is_identity(t: DbState, fs: Seq<FileView>)
    requires
        forall|i: int, j: int| 0 <= i < j < t.files.len() ==> #[trigger] t.files[i].id < #[trigger] t.files[j].id,
        paths_distinct(fs),
        in_step(t, fs),
    ensures
        full_sync_result(t, fs) == Some(t),
{
    lemma_in_step_fold(t, fs, fs.len() as int);
    assert(fs.take(fs.len() as int) =~= fs);
    let reps = representatives(ranked_files(FileOrder::CreatedDesc, t.files, any_file()));
    let (d, rem) = sync_files(t, reps, fs)->0;
    // every row was matched, so none is left to delete
    assert(rem.len() == 0) by {
        if rem.len() > 0 {
            assert(rem.contains(rem[0]));
            assert(t.files.contains(rem[0]));
            let j = choose|j: int| 0 <= j < fs.len() && fs[j].path == rem[0].path && fs[j].content_hash == rem[0].content_hash;
            assert(fs[j].path != rem[0].path);
        }
    }
}

/// Synchronising a store that is already in step with the snapshot leaves it as
/// it is.
pub proof fn law_sync_of_store_in_step_changes_nothing(t: DbState, fs: Seq<FileView>)
    requires
        t.valid(),
        paths_distinct(fs),
        in_step(t, fs),
    ensures
        full_sync_result(t, fs) == Some(t),
{
    lemma_in_step_sync_is_identity(t, fs);
}

/// After one synchronisation the store is in step with the snapshot, so
/// synchronising again with the same snapshot changes nothing.
pub proof fn law_sync_is_idempotent(s: DbState, fs: Seq<FileView>)
    requires
        s.valid(),
        paths_distinct(s.files),
        paths_distinct(fs),
        full_sync_result(s, fs) is Some,
    ensures
        full_sync_result(full_sync_result(s, fs)->0, fs) == full_sync_result(s, fs),
{
    law_sync_mirrors_snapshot(s, fs);
    lemma_in_step_sync_is_identity(full_sync_result(s, fs)->0, fs);
}

} // verus!
