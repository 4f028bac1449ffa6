//! The hash of a whole directory snapshot, used to tell whether anything changed.
use crate::hashing::{hash_file_contents, spec_sha256_hex};
use crate::ranking::{pairwise_comparable, sort_ranked, views};
use crate::tm::db::state::{any_file, ranked_files};
use crate::tm::db::types::{lemma_file_before_total, DBFile, FileOrder, FileView, file_before};
use crate::text::{chars_lt, lemma_chars_lt_connected, lemma_chars_lt_irreflexive, str_equal};
use vstd::prelude::*;
use vstd::utf8::encode_utf8;

verus! {

/// The bytes that are hashed: each path followed by its content hash, as UTF-8.
pub open spec fn root_hash_input(entries: Seq<FileView>) -> Seq<u8>
    decreases entries.len(),
{
    if entries.len() == 0 {
        Seq::empty()
    } else {
        root_hash_input(entries.drop_last()) + encode_utf8(entries.last().path) + encode_utf8(
            entries.last().content_hash,
        )
    }
}

/// No two entries share a path.
pub open spec fn distinct_paths(entries: Seq<FileView>) -> bool {
    forall|i: int, j: int|
        0 <= i < entries.len() && 0 <= j < entries.len() && i != j ==> entries[i].path != entries[j].path
}

/// Whether no two entries of the snapshot share a path.
pub fn has_distinct_paths(entries: &Vec<DBFile>) -> (r: bool)
    ensures
        r == distinct_paths(views(entries@)),
{
    let ghost v = views(entries@);
    let mut i: usize = 0;
    while i < entries.len()
        invariant
            v == views(entries@),
            i <= v.len(),
            forall|a: int, b: int| 0 <= a < i && a < b < v.len() ==> #[trigger] v[a].path != #[trigger] v[b].path,
        decreases v.len() - i,
    {
        let mut j: usize = i + 1;
        while j < entries.len()
            invariant
                v == views(entries@),
                i < v.len(),
                i + 1 <= j <= v.len(),
                forall|a: int, b: int| 0 <= a < i && a < b < v.len() ==> #[trigger] v[a].path != #[trigger] v[b].path,
                forall|b: int| i < b < j ==> v[i as int].path != #[trigger] v[b].path,
            decreases v.len() - j,
        {
            proof {
                assert(v[i as int] == entries@[i as int]@);
                assert(v[j as int] == entries@[j as int]@);
            }
            if str_equal(entries[i].path.as_str(), entries[j].path.as_str()) {
                return false;
            }
            j = j + 1;
        }
        i = i + 1;
    }
    proof {
        assert forall|a: int, b: int| 0 <= a < v.len() && 0 <= b < v.len() && a != b implies v[a].path != v[b].path by {
            if b < a {
                assert(v[b].path != v[a].path);
            }
        }
    }
    true
}

/// The hash of a snapshot: the entries sorted by path, each path and content hash
/// fed in turn to SHA-256, in lowercase hexadecimal.
pub open spec fn root_hash(entries: Seq<FileView>) -> Seq<char> {
    spec_sha256_hex(root_hash_input(ranked_files(FileOrder::Path, entries, any_file())))
}

fn append_bytes(out: &mut Vec<u8>, bytes: &[u8])
    ensures
        final(out)@ == old(out)@ + bytes@,
{
    let mut i: usize = 0;
    while i < bytes.len()
        invariant
            i <= bytes@.len(),
            out@ == old(out)@ + bytes@.take(i as int),
        decreases bytes@.len() - i,
    {
        out.push(bytes[i]);
        i = i + 1;
        assert(out@ =~= old(out)@ + bytes@.take(i as int));
    }
    assert(bytes@.take(bytes@.len() as int) =~= bytes@);
}

/// The hash of a directory snapshot, independent of the order of its entries.
pub fn calculate_root_hash(entries: &Vec<DBFile>) -> (r: String)
    requires
        distinct_paths(views(entries@)),
    ensures
        r@ == root_hash(views(entries@)),
        r@.len() == 64,
{
    let mut copies: Vec<DBFile> = Vec::new();
    let mut i: usize = 0;
    while i < entries.len()
        invariant
            i <= entries@.len(),
            views(copies@) == views(entries@).take(i as int),
        decreases entries@.len() - i,
    {
        let ghost before = views(copies@);
        let row = entries[i].duplicate();
        copies.push(row);
        assert(views(copies@) =~= before.push(row@));
        assert(views(entries@)[i as int] == entries@[i as int]@);
        assert(views(copies@) =~= views(entries@).take(i + 1));
        i = i + 1;
    }
    let ghost ev = views(entries@);
    proof {
        assert(ev.take(ev.len() as int) =~= ev);
        assert forall|a: int, b: int| 0 <= a < ev.len() && 0 <= b < ev.len() && a != b implies
            file_before(FileOrder::Path, ev[a], ev[b]) || file_before(FileOrder::Path, ev[b], ev[a]) by {
            lemma_chars_lt_connected(ev[a].path, ev[b].path);
        }
        assert(pairwise_comparable::<DBFile>(FileOrder::Path, views(copies@)));
    }
    let sorted = sort_ranked(FileOrder::Path, copies);
    let ghost sv = views(sorted@);
    proof {
        let target = ranked_files(FileOrder::Path, ev, any_file());
        crate::ranking::lemma_strictly_ranked_unique::<DBFile>(FileOrder::Path, sv, target);
    }
    let mut bytes: Vec<u8> = Vec::new();
    let mut k: usize = 0;
    while k < sorted.len()
        invariant
            k <= sorted@.len(),
            sv == views(sorted@),
            bytes@ == root_hash_input(sv.take(k as int)),
        decreases sorted@.len() - k,
    {
        append_bytes(&mut bytes, sorted[k].path.as_str().as_bytes());
        append_bytes(&mut bytes, sorted[k].content_hash.as_str().as_bytes());
        proof {
            assert(sv.take(k + 1).drop_last() =~= sv.take(k as int));
            assert(sv.take(k + 1).last() == sorted@[k as int]@);
        }
        k = k + 1;
    }
    assert(sv.take(sv.len() as int) =~= sv);
    hash_file_contents(bytes.as_slice())
}

proof fn lemma_ranked_snapshot(a: Seq<FileView>)
    requires
        distinct_paths(a),
    ensures
        crate::ranking::strictly_ranked::<DBFile>(FileOrder::Path, ranked_files(FileOrder::Path, a, any_file())),
        forall|v: FileView| #[trigger] ranked_files(FileOrder::Path, a, any_file()).contains(v) <==> a.contains(v),
{
    assert forall|i: int, j: int| 0 <= i < a.len() && 0 <= j < a.len() && i != j implies
        file_before(FileOrder::Path, a[i], a[j]) || file_before(FileOrder::Path, a[j], a[i]) by {
        lemma_chars_lt_connected(a[i].path, a[j].path);
    }
    assert(pairwise_comparable::<DBFile>(FileOrder::Path, a));
    let r = crate::ranking::lemma_ranked_exists::<DBFile>(FileOrder::Path, a);
    assert(crate::ranking::strictly_ranked::<DBFile>(FileOrder::Path, r) && forall|v: FileView| #[trigger]
        r.contains(v) <==> (a.contains(v) && any_file()(v)));
}

/// The hash of a snapshot does not depend on the order in which its entries come.
pub proof fn law_root_hash_ignores_order(a: Seq<FileView>, b: Seq<FileView>)
    requires
        distinct_paths(a),
        distinct_paths(b),
        forall|v: FileView| a.contains(v) <==> b.contains(v),
    ensures
        root_hash(a) == root_hash(b),
{
    lemma_ranked_snapshot(a);
    lemma_ranked_snapshot(b);
    crate::ranking::lemma_strictly_ranked_unique::<DBFile>(
        FileOrder::Path,
        ranked_files(FileOrder::Path, a, any_file()),
        ranked_files(FileOrder::Path, b, any_file()),
    );
}

proof fn lemma_root_hash_input_one(f: FileView)
    ensures
        root_hash_input(seq![f]) == encode_utf8(f.path) + encode_utf8(f.content_hash),
{
    let a = seq![f];
    assert(a.drop_last() =~= Seq::<FileView>::empty());
    assert(a.last() == f);
    assert(root_hash_input(a.drop_last()) == Seq::<u8>::empty());
    assert(root_hash_input(a) == root_hash_input(a.drop_last()) + encode_utf8(f.path) + encode_utf8(f.content_hash));
    assert(Seq::<u8>::empty() + encode_utf8(f.path) =~= encode_utf8(f.path));
}

/// The hash of a snapshot of one file is the SHA-256, in lowercase hexadecimal,
/// of the file's path followed by its content hash, both as UTF-8.
pub proof fn law_root_hash_of_one_file(f: FileView)
    ensures
        root_hash(seq![f]) == spec_sha256_hex(encode_utf8(f.path) + encode_utf8(f.content_hash)),
{
    let a = seq![f];
    assert(distinct_paths(a));
    lemma_ranked_snapshot(a);
    let r = ranked_files(FileOrder::Path, a, any_file());
    crate::ranking::lemma_strictly_ranked_unique::<DBFile>(FileOrder::Path, r, a);
    lemma_root_hash_input_one(f);
}

/// The hash of a snapshot of two files takes the file whose path sorts first
/// first, whatever order the snapshot lists them in: its path and content hash,
/// then the other's, all as UTF-8.
pub proof fn law_root_hash_of_two_files(f: FileView, g: FileView)
    requires
        chars_lt(f.path, g.path),
    ensures
        root_hash(seq![g, f]) == spec_sha256_hex(
            encode_utf8(f.path) + encode_utf8(f.content_hash) + encode_utf8(g.path) + encode_utf8(g.content_hash),
        ),
        root_hash(seq![f, g]) == root_hash(seq![g, f]),
{
    lemma_chars_lt_irreflexive(f.path);
    let a = seq![g, f];
    let sorted = seq![f, g];
    assert(distinct_paths(a));
    lemma_ranked_snapshot(a);
    let r = ranked_files(FileOrder::Path, a, any_file());
    assert(crate::ranking::strictly_ranked::<DBFile>(FileOrder::Path, sorted)) by {
        assert(file_before(FileOrder::Path, sorted[0], sorted[1]));
    }
    assert forall|v: FileView| r.contains(v) <==> sorted.contains(v) by {
        if a.contains(v) {
            let i = choose|i: int| 0 <= i < a.len() && a[i] == v;
            if i == 0 {
                assert(sorted[1] == v);
            } else {
                assert(sorted[0] == v);
            }
        }
        if sorted.contains(v) {
            let i = choose|i: int| 0 <= i < sorted.len() && sorted[i] == v;
            if i == 0 {
                assert(a[1] == v);
            } else {
                assert(a[0] == v);
            }
        }
    }
    crate::ranking::lemma_strictly_ranked_unique::<DBFile>(FileOrder::Path, r, sorted);
    assert(sorted.drop_last() =~= seq![f]);
    assert(sorted.last() == g);
    lemma_root_hash_input_one(f);
    assert(root_hash_input(sorted) == root_hash_input(seq![f]) + encode_utf8(g.path) + encode_utf8(g.content_hash));
    assert(root_hash_input(sorted) =~= encode_utf8(f.path) + encode_utf8(f.content_hash) + encode_utf8(g.path)
        + encode_utf8(g.content_hash));
    law_root_hash_ignores_order(sorted, a);
}

/// Moving a file to another path changes the bytes that the root hash is taken
/// of, even when its content stays the same: a snapshot in which a file was
/// renamed is not taken for the saved one.
pub proof fn law_renamed_file_changes_hashed_bytes(f: FileView, g: FileView)
    requires
        f.content_hash == g.content_hash,
        f.path != g.path,
    ensures
        ({
            let bf = encode_utf8(f.path) + encode_utf8(f.content_hash);
            let bg = encode_utf8(g.path) + encode_utf8(g.content_hash);
            &&& root_hash(seq![f]) == spec_sha256_hex(bf)
            &&& root_hash(seq![g]) == spec_sha256_hex(bg)
            &&& bf != bg
        }),
{
    law_root_hash_of_one_file(f);
    law_root_hash_of_one_file(g);
    let pf = encode_utf8(f.path);
    let pg = encode_utf8(g.path);
    let h = encode_utf8(f.content_hash);
    if pf + h == pg + h {
        assert((pf + h).len() == pf.len() + h.len());
        assert((pg + h).len() == pg.len() + h.len());
        assert(pf.len() == pg.len());
        assert(pf =~= (pf + h).subrange(0, pf.len() as int));
        assert(pg =~= (pg + h).subrange(0, pg.len() as int));
        vstd::utf8::encode_utf8_decode_utf8(f.path);
        vstd::utf8::encode_utf8_decode_utf8(g.path);
    }
}

} // verus!
