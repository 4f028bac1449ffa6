//! What holds of the path-keyed store across its operations.
use crate::db::database::{add_pair, add_path, add_tag_name, names_of_file, new_path_count, tagged_by_path, with_paths, TagTables};
use vstd::prelude::*;

verus! {

/// Adding paths to a store that holds them all changes nothing and adds none.
proof fn lemma_with_held_paths(s: TagTables, ps: Seq<Seq<char>>)
    requires
        forall|i: int| 0 <= i < ps.len() ==> s.files.contains(#[trigger] ps[i]),
    ensures
        with_paths(s, ps) == s,
        new_path_count(s, ps) == 0,
    decreases ps.len(),
{
    if ps.len() > 0 {
        let t = ps.drop_last();
        assert forall|i: int| 0 <= i < t.len() implies s.files.contains(#[trigger] t[i]) by {
            assert(t[i] == ps[i]);
        }
        lemma_with_held_paths(s, t);
        assert(s.files.contains(ps[ps.len() - 1]));
    }
}

/// Adding a path keeps the paths held and holds the new one.
proof fn lemma_add_path_holds(s: TagTables, q: Seq<char>)
    ensures
        add_path(s, q).files.contains(q),
        forall|p: Seq<char>| s.files.contains(p) ==> #[trigger] add_path(s, q).files.contains(p),
{
    if !s.files.contains(q) {
        assert(add_path(s, q).files[s.files.len() as int] == q);
        assert forall|p: Seq<char>| s.files.contains(p) implies #[trigger] add_path(s, q).files.contains(p) by {
            let k = choose|k: int| 0 <= k < s.files.len() && s.files[k] == p;
            assert(add_path(s, q).files[k] == p);
        }
    }
}

/// After the files that a scan found are indexed, the store holds each of them.
pub proof fn law_indexed_files_are_held(s: TagTables, ps: Seq<Seq<char>>)
    ensures
        forall|i: int| 0 <= i < ps.len() ==> with_paths(s, ps).files.contains(#[trigger] ps[i]),
    decreases ps.len(),
{
    if ps.len() > 0 {
        let t = ps.drop_last();
        law_indexed_files_are_held(s, t);
        let before = with_paths(s, t);
        lemma_add_path_holds(before, ps.last());
        assert forall|i: int| 0 <= i < ps.len() implies with_paths(s, ps).files.contains(#[trigger] ps[i]) by {
            if i < ps.len() - 1 {
                assert(t[i] == ps[i]);
                assert(before.files.contains(ps[i]));
            }
        }
    }
}

/// Indexing the same scan a second time changes nothing and adds no file.
pub proof fn law_reindexing_adds_nothing(s: TagTables, ps: Seq<Seq<char>>)
    ensures
        with_paths(with_paths(s, ps), ps) == with_paths(s, ps),
        new_path_count(with_paths(s, ps), ps) == 0,
{
    law_indexed_files_are_held(s, ps);
    lemma_with_held_paths(with_paths(s, ps), ps);
}

/// Giving a file a tag that it already has changes nothing.
pub proof fn law_assigning_twice_is_assigning_once(s: TagTables, p: Seq<char>, n: Seq<char>)
    ensures
        tagged_by_path(tagged_by_path(s, p, n), p, n) == tagged_by_path(s, p, n),
{
    let s1 = add_path(s, p);
    if !s.files.contains(p) {
        assert(s1.files[s.files.len() as int] == p);
    }
    assert(s1.files.contains(p));
    let s2 = add_tag_name(s1, n);
    if !s1.tags.contains(n) {
        assert(s2.tags[s1.tags.len() as int] == n);
    }
    assert(s2.tags.contains(n));
    let f = s1.path_id(p);
    let t = s2.tag_id(n);
    let s3 = add_pair(s2, f, t);
    if !s2.links.contains((f, t)) {
        assert(s3.links[s2.links.len() as int] == (f, t));
    }
    assert(s3.links.contains((f, t)));
    assert(s3.files == s1.files);
    assert(s3.tags == s2.tags);
    assert(tagged_by_path(s, p, n) == s3);
    assert(add_path(s3, p) == s3);
    assert(add_tag_name(s3, n) == s3);
    assert(s3.path_id(p) == f);
    assert(s3.tag_id(n) == t);
}

/// The names of the tags of a file include the name of each tag that it carries.
proof fn lemma_names_of_file_has(s: TagTables, f: i64, m: int, k: int)
    requires
        1 <= k <= m,
        m <= s.tags.len(),
        s.links.contains((f, k as i64)),
    ensures
        names_of_file(s, f, m).contains(s.tags[k - 1]),
    decreases m,
{
    if k == m {
        let rest = names_of_file(s, f, m - 1);
        assert(names_of_file(s, f, m) == rest.push(s.tags[m - 1]));
        assert(rest.push(s.tags[m - 1])[rest.len() as int] == s.tags[m - 1]);
    } else {
        lemma_names_of_file_has(s, f, m - 1, k);
        let rest = names_of_file(s, f, m - 1);
        let j = choose|j: int| 0 <= j < rest.len() && rest[j] == s.tags[k - 1];
        if s.links.contains((f, m as i64)) {
            assert(rest.push(s.tags[m - 1])[j] == s.tags[k - 1]);
        }
    }
}

/// After a file is given a tag, the tags listed for that file include it.
pub proof fn law_assigned_tag_is_listed(s: TagTables, p: Seq<char>, n: Seq<char>)
    requires
        s.valid(),
    ensures
        ({
            let t = tagged_by_path(s, p, n);
            names_of_file(t, t.path_id(p), t.tags.len() as int).contains(n)
        }),
{
    let s1 = add_path(s, p);
    if !s.files.contains(p) {
        assert(s1.files[s.files.len() as int] == p);
    }
    let s2 = add_tag_name(s1, n);
    if !s1.tags.contains(n) {
        assert(s2.tags[s1.tags.len() as int] == n);
    }
    assert(s2.tags.contains(n));
    let f = s1.path_id(p);
    let k = s2.tags.index_of(n);
    assert(s2.tags[k] == n);
    let t = tagged_by_path(s, p, n);
    assert(t.files == s1.files);
    assert(t.tags == s2.tags);
    if !s2.links.contains((f, (k + 1) as i64)) {
        assert(t.links[s2.links.len() as int] == (f, (k + 1) as i64));
    }
    assert(t.links.contains((f, (k + 1) as i64)));
    lemma_names_of_file_has(t, f, t.tags.len() as int, k + 1);
}

/// After a tag is renamed, it answers to the new name under the same id and no
/// tag answers to the old name; the links stay as they were.
pub proof fn law_renamed_tag_keeps_its_id(s: TagTables, old_name: Seq<char>, new_name: Seq<char>)
    requires
        s.valid(),
        s.tags.contains(old_name),
        !s.tags.contains(new_name),
    ensures
        ({
            let t = TagTables { tags: s.tags.update(s.tags.index_of(old_name), new_name), ..s };
            &&& t.tags.contains(new_name)
            &&& !t.tags.contains(old_name)
            &&& t.tag_id(new_name) == s.tag_id(old_name)
            &&& t.links == s.links
        }),
{
    let k = s.tags.index_of(old_name);
    assert(s.tags[k] == old_name);
    let t = TagTables { tags: s.tags.update(k, new_name), ..s };
    assert(t.tags[k] == new_name);
    assert(!t.tags.contains(old_name)) by {
        if t.tags.contains(old_name) {
            let j = choose|j: int| 0 <= j < t.tags.len() && t.tags[j] == old_name;
            if j != k {
                assert(s.tags[j] == old_name);
            }
        }
    }
    let m = t.tags.index_of(new_name);
    assert(t.tags[m] == new_name);
    if m != k {
        assert(s.tags[m] == new_name);
    }
}

} // verus!
