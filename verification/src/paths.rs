//! Paths as strings: joining, the final name and its extension, with the
//! meaning that `std::path` gives them on Unix.
use crate::text::{concat, owned, str_chars};
use vstd::prelude::*;

verus! {

/// The index of the last `c` in `s`, or -1.
pub open spec fn last_index_of(s: Seq<char>, c: char) -> int
    decreases s.len(),
{
    if s.len() == 0 {
        -1
    } else if s.last() == c {
        s.len() - 1
    } else {
        last_index_of(s.drop_last(), c)
    }
}

pub proof fn lemma_last_index_of_bounds(s: Seq<char>, c: char)
    ensures
        -1 <= last_index_of(s, c) < s.len(),
        last_index_of(s, c) >= 0 ==> s[last_index_of(s, c)] == c,
        forall|j: int| last_index_of(s, c) < j < s.len() ==> s[j] != c,
    decreases s.len(),
{
    if s.len() > 0 && s.last() != c {
        let t = s.drop_last();
        lemma_last_index_of_bounds(t, c);
        assert forall|j: int| last_index_of(s, c) < j < s.len() implies s[j] != c by {
            if j < s.len() - 1 {
                assert(t[j] == s[j]);
            }
        }
    }
}

/// The last normal component of a path: trailing separators and `.` components
/// are skipped; a final `..`, a root or an empty path have none.
pub open spec fn file_name(p: Seq<char>) -> Option<Seq<char>>
    decreases p.len(),
{
    if p.len() == 0 {
        None
    } else if p.last() == '/' {
        file_name(p.drop_last())
    } else {
        let k = last_index_of(p, '/');
        let seg = p.subrange(k + 1, p.len() as int);
        if seg == seq!['.'] {
            if 0 <= k + 1 < p.len() {
                file_name(p.subrange(0, k + 1))
            } else {
                None
            }
        } else if seg == seq!['.', '.'] {
            None
        } else {
            Some(seg)
        }
    }
}

/// A name that holds no separator and is neither `.` nor `..`, put after a
/// directory part that is empty or ends in a separator, is the file name.
pub proof fn lemma_file_name_of_last_component(q: Seq<char>, n: Seq<char>)
    requires
        q.len() == 0 || q.last() == '/',
        n.len() > 0,
        forall|i: int| 0 <= i < n.len() ==> n[i] != '/',
        n != seq!['.'],
        n != seq!['.', '.'],
    ensures
        file_name(q + n) == Some(n),
{
    let p = q + n;
    assert(p.last() == n[n.len() - 1]);
    lemma_last_index_of_bounds(p, '/');
    let k = last_index_of(p, '/');
    if k >= q.len() {
        assert(p[k] == n[k - q.len()]);
    }
    if k < q.len() - 1 {
        assert(p[q.len() - 1] == '/');
    }
    assert(k == q.len() - 1);
    assert(p.subrange(k + 1, p.len() as int) =~= n);
}

/// The extension of a path: what follows the last `.` of its file name, when that
/// dot is not the first character of the name.
pub open spec fn extension(p: Seq<char>) -> Option<Seq<char>> {
    match file_name(p) {
        None => None,
        Some(n) => {
            let d = last_index_of(n, '.');
            if d <= 0 {
                None
            } else {
                Some(n.subrange(d + 1, n.len() as int))
            }
        },
    }
}

/// `base` joined with `p`: an absolute `p` replaces `base`, otherwise a
/// separator is put between them when `base` is not empty and does not end in one.
pub open spec fn path_join(base: Seq<char>, p: Seq<char>) -> Seq<char> {
    if p.len() > 0 && p[0] == '/' {
        p
    } else if base.len() == 0 || base.last() == '/' {
        base + p
    } else {
        base + seq!['/'] + p
    }
}

/// One past the last `c` before `end`, or 0 when there is none.
fn after_last(s: &Vec<char>, c: char, end: usize) -> (r: usize)
    requires
        end <= s@.len(),
    ensures
        r == last_index_of(s@.take(end as int), c) + 1,
{
    let mut i: usize = end;
    while i > 0 && s[i - 1] != c
        invariant
            i <= end <= s@.len(),
            last_index_of(s@.take(end as int), c) == last_index_of(s@.take(i as int), c),
        decreases i,
    {
        proof {
            assert(s@.take(i as int).drop_last() =~= s@.take(i - 1));
        }
        i = i - 1;
    }
    if i == 0 {
        proof {
            assert(s@.take(0) =~= Seq::<char>::empty());
        }
    }
    i
}

/// The file name of `path`, as `Path::file_name`.
pub fn path_file_name(path: &str) -> (r: Option<String>)
    ensures
        r is None <==> file_name(path@) is None,
        r matches Some(n) ==> file_name(path@) == Some(n@),
{
    let cs = str_chars(path);
    let mut end: usize = cs.len();
    assert(cs@.take(cs@.len() as int) =~= cs@);
    loop
        invariant
            cs@ == path@,
            end <= cs@.len(),
            file_name(path@) == file_name(cs@.take(end as int)),
        decreases end,
    {
        if end == 0 {
            proof {
                assert(cs@.take(0) =~= Seq::<char>::empty());
            }
            return None;
        }
        if cs[end - 1] == '/' {
            proof {
                assert(cs@.take(end as int).drop_last() =~= cs@.take(end - 1));
            }
            end = end - 1;
        } else {
            let start = after_last(&cs, '/', end);
            let ghost p = cs@.take(end as int);
            let ghost k = start - 1;
            proof {
                lemma_last_index_of_bounds(p, '/');
            }
            let seg_len = end - start;
            let is_dot = seg_len == 1 && cs[start] == '.';
            let is_dotdot = seg_len == 2 && cs[start] == '.' && cs[start + 1] == '.';
            proof {
                let seg = p.subrange(k + 1, p.len() as int);
                assert(seg.len() == seg_len);
                if seg_len == 1 {
                    assert(seg[0] == cs@[start as int]);
                    if is_dot {
                        assert(seg =~= seq!['.']);
                    }
                }
                if seg_len == 2 {
                    assert(seg[0] == cs@[start as int]);
                    assert(seg[1] == cs@[start + 1]);
                    if is_dotdot {
                        assert(seg =~= seq!['.', '.']);
                    }
                }
                if !is_dot {
                    assert(seg != seq!['.'] || seg.len() != 1 || seg[0] != '.');
                }
            }
            if is_dot {
                proof {
                    assert(p.subrange(0, k + 1) =~= cs@.take(start as int));
                }
                end = start;
            } else if is_dotdot {
                return None;
            } else {
                let name = owned(path.substring_char(start, end));
                proof {
                    assert(name@ =~= p.subrange(k + 1, p.len() as int));
                }
                return Some(name);
            }
        }
    }
}

/// The extension of `path`, as `Path::extension`.
pub fn path_extension(path: &str) -> (r: Option<String>)
    ensures
        r is None <==> extension(path@) is None,
        r matches Some(e) ==> extension(path@) == Some(e@),
{
    let name = match path_file_name(path) {
        Some(n) => n,
        None => return None,
    };
    let cs = str_chars(name.as_str());
    let after = after_last(&cs, '.', cs.len());
    proof {
        assert(cs@.take(cs@.len() as int) =~= cs@);
        lemma_last_index_of_bounds(cs@, '.');
    }
    if after <= 1 {
        return None;
    }
    let e = owned(name.as_str().substring_char(after, cs.len()));
    Some(e)
}

/// `base` joined with `p`, as `Path::join`.
pub fn join_paths(base: &str, p: &str) -> (r: String)
    ensures
        r@ == path_join(base@, p@),
{
    let pc = str_chars(p);
    if pc.len() > 0 && pc[0] == '/' {
        return owned(p);
    }
    let bc = str_chars(base);
    if bc.len() == 0 || bc[bc.len() - 1] == '/' {
        concat(base, p)
    } else {
        let mut r = owned(base);
        proof {
            reveal_strlit("/");
        }
        r.append("/");
        r.append(p);
        r
    }
}

} // verus!
