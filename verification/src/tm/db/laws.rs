//! Laws of the store: what one operation guarantees to the next.
use crate::tm::db::database::{
    link_added,
    add_file_row, add_tag_row, new_file_row, tag_used, with_link, with_tag_renamed, without_file,
    without_link, without_tag, without_unused_tags,
};
use crate::tm::db::state::{
    lemma_filter_contains_iff, lemma_tag_at, link_not_of_file, link_not_of_tag, link_other_than,
    tag_other_than, file_other_than, DbState,
};
use crate::tm::db::types::{FileView, TagView};
use crate::times::TimePoint;
use vstd::prelude::*;

verus! {

/// A file that was just created reads back with the columns it was given
/// (times to the second), under the id that `create_file` returned.
pub proof fn law_created_file_reads_back(
    s: DbState,
    path: Seq<char>,
    size: u64,
    content_hash: Seq<char>,
    last_modified: TimePoint,
    last_accessed: TimePoint,
    created: TimePoint,
)
    requires
        s.valid(),
        s.last_file_id < i64::MAX,
    ensures
        ({
            let id = (s.last_file_id + 1) as i64;
            let row = new_file_row(id, path, size, content_hash, last_modified, last_accessed, created);
            let t = add_file_row(s, row);
            &&& id > 0
            &&& t.has_file(id)
            &&& t.file(id) == row
            &&& t.files.len() == s.files.len() + 1
            &&& forall|x: i64| x != id ==> (t.has_file(x) <==> s.has_file(x))
        }),
{
    let id = (s.last_file_id + 1) as i64;
    let row = new_file_row(id, path, size, content_hash, last_modified, last_accessed, created);
    let t = add_file_row(s, row);
    let n = s.files.len() as int;
    assert(t.files[n].id == id);
    let k = t.file_index(id);
    if k < n {
        assert(t.files[k] == s.files[k]);
    }
    assert forall|x: i64| x != id implies (t.has_file(x) <==> s.has_file(x)) by {
        if s.has_file(x) {
            let i = choose|i: int| 0 <= i < s.files.len() && s.files[i].id == x;
            assert(t.files[i].id == x);
        }
        if t.has_file(x) {
            let i = choose|i: int| 0 <= i < t.files.len() && t.files[i].id == x;
            assert(s.files[i].id == x);
        }
    }
}

/// Once a tag exists, creating it again finds it: the second `create_tag` of a
/// name returns the id that the first one drew.
pub proof fn law_created_tag_is_found_by_name(s: DbState, name: Seq<char>)
    requires
        s.valid(),
        !s.has_tag_named(name),
        s.last_tag_id < i64::MAX,
    ensures
        ({
            let id = (s.last_tag_id + 1) as i64;
            let t = add_tag_row(s, TagView { id, name });
            &&& t.has_tag_named(name)
            &&& t.tag_named(name).id == id
            &&& t.has_tag(id)
            &&& t.tag(id).name == name
        }),
{
    let id = (s.last_tag_id + 1) as i64;
    let t = add_tag_row(s, TagView { id, name });
    let n = s.tags.len() as int;
    assert(t.tags[n].name == name);
    assert(t.tags[n].id == id);
    let k = t.tag_named_index(name);
    if k < n {
        assert(t.tags[k] == s.tags[k]);
    }
    let j = t.tag_index(id);
    if j < n {
        assert(t.tags[j] == s.tags[j]);
    }
}

/// Removing a link that was just added gives back the store as it was.
pub proof fn law_remove_undoes_add_link(s: DbState, file_id: i64, tag_id: i64)
    requires
        s.valid(),
        !s.has_link(file_id, tag_id),
    ensures
        with_link(s, file_id, tag_id).has_link(file_id, tag_id),
        without_link(with_link(s, file_id, tag_id), file_id, tag_id) == s,
{
    let t = with_link(s, file_id, tag_id);
    assert(t.links[s.links.len() as int] == (file_id, tag_id));
    reveal(Seq::filter);
    let p = link_other_than(file_id, tag_id);
    assert(t.links.drop_last() =~= s.links);
    assert(s.links.filter(p) =~= s.links) by {
        lemma_filter_all(s.links, p);
    }
    assert(t.links.filter(p) =~= s.links);
}

/// Linking a file to a tag a second time changes nothing.
pub proof fn law_linking_twice_is_linking_once(s: DbState, file_id: i64, tag_id: i64)
    ensures
        link_added(link_added(s, file_id, tag_id), file_id, tag_id) == link_added(s, file_id, tag_id),
{
    if s.has_file(file_id) && s.has_tag(tag_id) && !s.has_link(file_id, tag_id) {
        let t = with_link(s, file_id, tag_id);
        assert(t.links[s.links.len() as int] == (file_id, tag_id));
        assert(t.has_link(file_id, tag_id));
    }
}

proof fn lemma_filter_all<A>(s: Seq<A>, p: spec_fn(A) -> bool)
    requires
        forall|x: A| s.contains(x) ==> p(x),
    ensures
        s.filter(p) == s,
    decreases s.len(),
{
    reveal(Seq::filter);
    if s.len() > 0 {
        let t = s.drop_last();
        assert forall|x: A| t.contains(x) implies p(x) by {
            let i = choose|i: int| 0 <= i < t.len() && t[i] == x;
            assert(s[i] == x);
            assert(s.contains(x));
        }
        lemma_filter_all(t, p);
        assert(s.contains(s[s.len() - 1]));
        assert(t.push(s.last()) =~= s);
    }
}

/// Deleting a tag deletes it and every link to it, and nothing else.
pub proof fn law_delete_tag_cascades(s: DbState, id: i64)
    requires
        s.valid(),
    ensures
        ({
            let t = without_tag(s, id);
            &&& !t.has_tag(id)
            &&& forall|f: i64| !t.has_link(f, id)
            &&& forall|x: i64| x != id ==> (t.has_tag(x) <==> s.has_tag(x))
            &&& forall|f: i64, x: i64| x != id ==> (t.has_link(f, x) <==> s.has_link(f, x))
            &&& t.files == s.files
        }),
{
    let t = without_tag(s, id);
    lemma_filter_contains_iff(s.tags, tag_other_than(id));
    lemma_filter_contains_iff(s.links, link_not_of_tag(id));
    if t.has_tag(id) {
        let i = choose|i: int| 0 <= i < t.tags.len() && t.tags[i].id == id;
        assert(t.tags.contains(t.tags[i]));
    }
    assert forall|x: i64| x != id implies (t.has_tag(x) <==> s.has_tag(x)) by {
        if s.has_tag(x) {
            let i = choose|i: int| 0 <= i < s.tags.len() && s.tags[i].id == x;
            assert(s.tags.contains(s.tags[i]));
            assert(t.tags.contains(s.tags[i]));
            let j = choose|j: int| 0 <= j < t.tags.len() && t.tags[j] == s.tags[i];
            assert(t.tags[j].id == x);
        }
        if t.has_tag(x) {
            let i = choose|i: int| 0 <= i < t.tags.len() && t.tags[i].id == x;
            assert(t.tags.contains(t.tags[i]));
            let j = choose|j: int| 0 <= j < s.tags.len() && s.tags[j] == t.tags[i];
            assert(s.tags[j].id == x);
        }
    }
}

/// Deleting a file deletes it and its links; the tags stay.
pub proof fn law_delete_file_keeps_tags(s: DbState, id: i64)
    requires
        s.valid(),
    ensures
        ({
            let t = without_file(s, id);
            &&& !t.has_file(id)
            &&& forall|x: i64| !t.has_link(id, x)
            &&& t.tags == s.tags
            &&& forall|x: i64| x != id ==> (t.has_file(x) <==> s.has_file(x))
        }),
{
    let t = without_file(s, id);
    lemma_filter_contains_iff(s.files, file_other_than(id));
    lemma_filter_contains_iff(s.links, link_not_of_file(id));
    if t.has_file(id) {
        let i = choose|i: int| 0 <= i < t.files.len() && t.files[i].id == id;
        assert(t.files.contains(t.files[i]));
    }
    assert forall|x: i64| x != id implies (t.has_file(x) <==> s.has_file(x)) by {
        if s.has_file(x) {
            let i = choose|i: int| 0 <= i < s.files.len() && s.files[i].id == x;
            assert(s.files.contains(s.files[i]));
            assert(t.files.contains(s.files[i]));
            let j = choose|j: int| 0 <= j < t.files.len() && t.files[j] == s.files[i];
            assert(t.files[j].id == x);
        }
        if t.has_file(x) {
            let i = choose|i: int| 0 <= i < t.files.len() && t.files[i].id == x;
            assert(t.files.contains(t.files[i]));
            let j = choose|j: int| 0 <= j < s.files.len() && s.files[j] == t.files[i];
            assert(s.files[j].id == x);
        }
    }
}

/// After the clean-up, every tag that is left carries a file, and every tag that
/// carried a file is left.
pub proof fn law_cleanup_keeps_exactly_used_tags(s: DbState)
    requires
        s.valid(),
    ensures
        ({
            let t = without_unused_tags(s);
            &&& forall|i: int| 0 <= i < t.tags.len() ==> #[trigger] tag_used(t.links)(t.tags[i])
            &&& forall|l: (i64, i64)| #[trigger] s.links.contains(l) ==> t.has_tag(l.1)
            &&& t.links == s.links
            &&& t.files == s.files
        }),
{
    let t = without_unused_tags(s);
    lemma_filter_contains_iff(s.tags, tag_used(s.links));
    assert forall|i: int| 0 <= i < t.tags.len() implies #[trigger] tag_used(t.links)(t.tags[i]) by {
        assert(t.tags.contains(t.tags[i]));
        assert(tag_used(s.links)(t.tags[i]));
    }
    assert forall|l: (i64, i64)| #[trigger] s.links.contains(l) implies t.has_tag(l.1) by {
        assert(s.has_tag(l.1));
        let k = s.tag_index(l.1);
        assert(s.tags[k].id == l.1);
        let j = choose|j: int| 0 <= j < s.links.len() && s.links[j] == l;
        assert(s.links[j].1 == s.tags[k].id);
        assert(tag_used(s.links)(s.tags[k]));
        assert(s.tags.contains(s.tags[k]));
        assert(t.tags.contains(s.tags[k]));
        let m = choose|m: int| 0 <= m < t.tags.len() && t.tags[m] == s.tags[k];
        assert(t.tags[m].id == l.1);
    }
}

/// After a rename, the tag is found under its new name with its old id.
pub proof fn law_renamed_tag_is_found(s: DbState, id: i64, name: Seq<char>)
    requires
        s.valid(),
        s.has_tag(id),
        !(s.has_tag_named(name) && s.tag_named(name).id != id),
    ensures
        ({
            let t = with_tag_renamed(s, id, name);
            &&& t.has_tag_named(name)
            &&& t.tag_named(name).id == id
            &&& t.has_tag(id)
            &&& t.tags.len() == s.tags.len()
        }),
{
    let k = s.tag_index(id);
    assert(s.tags[k].id == id);
    lemma_tag_at(s, k);
    let t = with_tag_renamed(s, id, name);
    assert(t.tags[k] == TagView { id, name });
    assert(t.tags[k].name == name);
    assert(t.has_tag_named(name));
    let m = t.tag_named_index(name);
    if m != k {
        assert(t.tags[m] == s.tags[m]);
        assert(s.tags[m].name == name);
        assert(s.has_tag_named(name));
        lemma_tag_at(s, m);
        assert(s.tags[m].id != id);
    }
}

} // verus!
