//! Text helpers: the character order used for sorting names and paths,
//! and small string builders whose results are stated over `Seq<char>`.
use vstd::prelude::*;

verus! {

/// `a` comes strictly before `b` in lexicographic order of code points,
/// which is also the order of their UTF-8 bytes.
pub open spec fn chars_lt(a: Seq<char>, b: Seq<char>) -> bool {
    exists|k: int|
        #![trigger a.take(k), b.take(k)]
        0 <= k <= a.len() && k <= b.len() && a.take(k) == b.take(k) && ((k == a.len() && k
            < b.len()) || (k < a.len() && k < b.len() && a[k] < b[k]))
}

/// The first index at which two sequences differ, or the length of the shorter one.
pub open spec fn common_prefix_len(a: Seq<char>, b: Seq<char>, k: int) -> bool {
    &&& 0 <= k <= a.len()
    &&& k <= b.len()
    &&& a.take(k) == b.take(k)
    &&& (k < a.len() && k < b.len() ==> a[k] != b[k])
}

proof fn lemma_prefix_witness(a: Seq<char>, b: Seq<char>, k: int, m: int)
    requires
        common_prefix_len(a, b, m),
        0 <= k <= a.len(),
        k <= b.len(),
        a.take(k) == b.take(k),
    ensures
        k <= m,
{
    if k > m {
        assert(a.take(k)[m] == a[m]);
        assert(b.take(k)[m] == b[m]);
    }
}

proof fn lemma_common_prefix_exists(a: Seq<char>, b: Seq<char>) -> (m: int)
    ensures
        common_prefix_len(a, b, m),
    decreases a.len(),
{
    if a.len() == 0 || b.len() == 0 || a[0] != b[0] {
        assert(a.take(0) =~= b.take(0));
        0
    } else {
        let m1 = lemma_common_prefix_exists(a.drop_first(), b.drop_first());
        assert(a.take(m1 + 1) =~= seq![a[0]] + a.drop_first().take(m1));
        assert(b.take(m1 + 1) =~= seq![b[0]] + b.drop_first().take(m1));
        m1 + 1
    }
}

/// `chars_lt` decided by the first position where the sequences differ.
pub proof fn lemma_chars_lt_at(a: Seq<char>, b: Seq<char>, m: int)
    requires
        common_prefix_len(a, b, m),
    ensures
        chars_lt(a, b) <==> ((m == a.len() && m < b.len()) || (m < a.len() && m < b.len() && a[m] < b[m])),
{
    if chars_lt(a, b) {
        let k = choose|k: int|
            #![trigger a.take(k), b.take(k)]
            0 <= k <= a.len() && k <= b.len() && a.take(k) == b.take(k) && ((k == a.len() && k
                < b.len()) || (k < a.len() && k < b.len() && a[k] < b[k]));
        lemma_prefix_witness(a, b, k, m);
        if k < m {
            assert(a.take(m)[k] == a[k]);
            assert(b.take(m)[k] == b[k]);
        }
    }
}

pub proof fn lemma_chars_lt_irreflexive(a: Seq<char>)
    ensures
        !chars_lt(a, a),
{
    assert(a.take(a.len() as int) =~= a);
    lemma_chars_lt_at(a, a, a.len() as int);
}

pub proof fn lemma_chars_lt_transitive(a: Seq<char>, b: Seq<char>, c: Seq<char>)
    requires
        chars_lt(a, b),
        chars_lt(b, c),
    ensures
        chars_lt(a, c),
{
    let m1 = lemma_common_prefix_exists(a, b);
    let m2 = lemma_common_prefix_exists(b, c);
    let m3 = lemma_common_prefix_exists(a, c);
    lemma_chars_lt_at(a, b, m1);
    lemma_chars_lt_at(b, c, m2);
    lemma_chars_lt_at(a, c, m3);
    let m = if m1 < m2 { m1 } else { m2 };
    assert forall|i: int| 0 <= i < m implies a[i] == c[i] by {
        assert(a.take(m1)[i] == a[i]);
        assert(b.take(m1)[i] == b[i]);
        assert(b.take(m2)[i] == b[i]);
        assert(c.take(m2)[i] == c[i]);
    }
    assert(a.take(m) =~= c.take(m));
    lemma_prefix_witness(a, c, m, m3);
    if m < m3 {
        assert(a.take(m3)[m] == a[m]);
        assert(c.take(m3)[m] == c[m]);
        if m1 < m2 {
            assert(b.take(m2)[m1] == b[m1]);
            assert(c.take(m2)[m1] == c[m1]);
        } else if m2 < m1 {
            assert(a.take(m1)[m2] == a[m2]);
            assert(b.take(m1)[m2] == b[m2]);
        }
    } else if m1 < m2 {
        assert(b.take(m2)[m1] == b[m1]);
        assert(c.take(m2)[m1] == c[m1]);
    } else if m2 < m1 {
        assert(a.take(m1)[m2] == a[m2]);
        assert(b.take(m1)[m2] == b[m2]);
    }
}

pub proof fn lemma_chars_lt_connected(a: Seq<char>, b: Seq<char>)
    requires
        a != b,
    ensures
        chars_lt(a, b) || chars_lt(b, a),
{
    let m = lemma_common_prefix_exists(a, b);
    lemma_chars_lt_at(a, b, m);
    assert(b.take(m) == a.take(m));
    lemma_chars_lt_at(b, a, m);
    if m == a.len() && m == b.len() {
        assert(a =~= a.take(m));
        assert(b =~= b.take(m));
    }
    if m < a.len() && m < b.len() {
    }
}

/// The characters of `s`, one by one.
pub fn str_chars(s: &str) -> (r: Vec<char>)
    ensures
        r@ == s@,
{
    let mut r: Vec<char> = Vec::new();
    let n = s.unicode_len();
    let mut i: usize = 0;
    while i < n
        invariant
            n == s@.len(),
            i <= n,
            r@ == s@.take(i as int),
        decreases n - i,
    {
        let c = s.get_char(i);
        r.push(c);
        i = i + 1;
        assert(r@ =~= s@.take(i as int));
    }
    assert(r@ =~= s@);
    r
}

/// Whether `a` sorts strictly before `b`.
pub fn str_less(a: &str, b: &str) -> (r: bool)
    ensures
        r == chars_lt(a@, b@),
{
    let ac = str_chars(a);
    let bc = str_chars(b);
    let mut i: usize = 0;
    while i < ac.len() && i < bc.len() && ac[i] == bc[i]
        invariant
            ac@ == a@,
            bc@ == b@,
            i <= ac.len(),
            i <= bc.len(),
            ac@.take(i as int) == bc@.take(i as int),
        decreases ac.len() - i,
    {
        assert(ac@.take(i + 1) =~= ac@.take(i as int).push(ac@[i as int]));
        assert(bc@.take(i + 1) =~= bc@.take(i as int).push(bc@[i as int]));
        i = i + 1;
    }
    proof {
        lemma_chars_lt_at(a@, b@, i as int);
    }
    if i < ac.len() && i < bc.len() {
        ac[i] < bc[i]
    } else {
        i == ac.len() && i < bc.len()
    }
}

/// Whether two strings hold the same characters.
pub fn str_equal(a: &str, b: &str) -> (r: bool)
    ensures
        r == (a@ == b@),
{
    let ac = str_chars(a);
    let bc = str_chars(b);
    if ac.len() != bc.len() {
        return false;
    }
    let mut i: usize = 0;
    while i < ac.len()
        invariant
            ac@ == a@,
            bc@ == b@,
            ac.len() == bc.len(),
            i <= ac.len(),
            forall|j: int| 0 <= j < i ==> ac@[j] == bc@[j],
        decreases ac.len() - i,
    {
        if ac[i] != bc[i] {
            return false;
        }
        i = i + 1;
    }
    assert(ac@ =~= bc@);
    true
}

/// An owned copy of `s`.
pub fn owned(s: &str) -> (r: String)
    ensures
        r@ == s@,
{
    s.to_owned()
}

/// `a` followed by `b`.
pub fn concat(a: &str, b: &str) -> (r: String)
    ensures
        r@ == a@ + b@,
{
    let mut r = a.to_owned();
    r.append(b);
    r
}

/// The parts with `sep` between each two.
pub open spec fn joined(parts: Seq<Seq<char>>, sep: Seq<char>) -> Seq<char>
    decreases parts.len(),
{
    if parts.len() == 0 {
        Seq::empty()
    } else if parts.len() == 1 {
        parts[0]
    } else {
        joined(parts.drop_last(), sep) + sep + parts.last()
    }
}

/// The strings with `sep` between each two, as `join` on a slice of strings.
pub fn join_strings(parts: &Vec<String>, sep: &str) -> (r: String)
    ensures
        r@ == joined(views_of_strings(parts@), sep@),
{
    let ghost ps = views_of_strings(parts@);
    let mut acc = String::new();
    proof {
        assert(ps.take(0) =~= Seq::<Seq<char>>::empty());
    }
    let mut k: usize = 0;
    while k < parts.len()
        invariant
            ps == views_of_strings(parts@),
            k <= parts@.len(),
            acc@ == joined(ps.take(k as int), sep@),
        decreases parts@.len() - k,
    {
        proof {
            assert(ps.take(k + 1).drop_last() =~= ps.take(k as int));
            assert(ps.take(k + 1).last() == parts@[k as int]@);
        }
        if k == 0 {
            acc = owned(parts[k].as_str());
            proof {
                assert(ps.take(1)[0] == parts@[0]@);
            }
        } else {
            acc.append(sep);
            acc.append(parts[k].as_str());
        }
        k = k + 1;
    }
    proof {
        assert(ps.take(parts@.len() as int) =~= ps);
    }
    acc
}

/// Whether `needle` occurs as a contiguous part of `hay`.
pub open spec fn contains_chars(hay: Seq<char>, needle: Seq<char>) -> bool {
    exists|i: int| 0 <= i && i + needle.len() <= hay.len() && #[trigger] hay.subrange(i, i + needle.len()) == needle
}

/// Substring test, as `str::contains` with a string pattern.
pub fn str_contains(hay: &str, needle: &str) -> (r: bool)
    ensures
        r == contains_chars(hay@, needle@),
{
    let h = str_chars(hay);
    let n = str_chars(needle);
    if n.len() > h.len() {
        assert forall|i: int| 0 <= i && i + needle@.len() <= hay@.len() implies #[trigger] hay@.subrange(i, i + needle@.len()) != needle@ by {}
        return false;
    }
    let last = h.len() - n.len();
    let mut i: usize = 0;
    while i <= last
        invariant
            h@ == hay@,
            n@ == needle@,
            last == h.len() - n.len(),
            n.len() <= h.len(),
            i <= last + 1,
            forall|p: int| 0 <= p < i ==> #[trigger] h@.subrange(p, p + n@.len()) != n@,
        decreases last + 1 - i,
    {
        let mut j: usize = 0;
        while j < n.len() && h[i + j] == n[j]
            invariant
                h@ == hay@,
                n@ == needle@,
                i <= last,
                last == h.len() - n.len(),
                j <= n.len(),
                forall|q: int| 0 <= q < j ==> h@[i + q] == n@[q],
            decreases n.len() - j,
        {
            j = j + 1;
        }
        if j == n.len() {
            assert(h@.subrange(i as int, i + n@.len()) =~= n@);
            return true;
        }
        assert(h@.subrange(i as int, i + n@.len())[j as int] == h@[i + j]);
        i = i + 1;
    }
    false
}

/// The lowercase form of a string, as `str::to_lowercase` computes it.
pub uninterp spec fn spec_lowercase(s: Seq<char>) -> Seq<char>;

/// Calls `str::to_lowercase`. Trusted: the result is the lowercase form that std
/// computes for `s` (named [`spec_lowercase`]); it depends on `s` alone.
#[verifier::external_body]
pub(crate) fn lowercase(s: &str) -> (r: String)
    ensures
        r@ == spec_lowercase(s@),
{
    s.to_lowercase()
}

/// The decimal digits of `n`, without leading zeros.
pub open spec fn decimal(n: nat) -> Seq<char>
    decreases n,
{
    if n < 10 {
        seq![digit_char(n)]
    } else {
        decimal(n / 10).push(digit_char(n % 10))
    }
}

pub open spec fn digit_char(d: nat) -> char {
    seq!['0', '1', '2', '3', '4', '5', '6', '7', '8', '9'][d as int]
}

fn digit_str(d: u64) -> (r: &'static str)
    requires
        d < 10,
    ensures
        r@ == seq![digit_char(d as nat)],
{
    proof {
        reveal_strlit("0");
        reveal_strlit("1");
        reveal_strlit("2");
        reveal_strlit("3");
        reveal_strlit("4");
        reveal_strlit("5");
        reveal_strlit("6");
        reveal_strlit("7");
        reveal_strlit("8");
        reveal_strlit("9");
    }
    let r = match d {
        0 => "0",
        1 => "1",
        2 => "2",
        3 => "3",
        4 => "4",
        5 => "5",
        6 => "6",
        7 => "7",
        8 => "8",
        _ => "9",
    };
    assert(r@ =~= seq![digit_char(d as nat)]);
    r
}

/// `n` in decimal.
pub fn decimal_string(n: u64) -> (r: String)
    ensures
        r@ == decimal(n as nat),
    decreases n,
{
    if n < 10 {
        owned(digit_str(n))
    } else {
        let mut r = decimal_string(n / 10);
        r.append(digit_str(n % 10));
        r
    }
}

/// `n` in decimal, with a leading `-` when it is negative.
pub open spec fn signed_decimal(n: int) -> Seq<char> {
    if n < 0 {
        seq!['-'] + decimal((-n) as nat)
    } else {
        decimal(n as nat)
    }
}

/// `n` in decimal, as `i64` displays it.
pub fn i64_string(n: i64) -> (r: String)
    ensures
        r@ == signed_decimal(n as int),
{
    if n < 0 {
        let magnitude: u64 = (-(n + 1)) as u64 + 1;
        let digits = decimal_string(magnitude);
        proof {
            reveal_strlit("-");
        }
        concat("-", digits.as_str())
    } else {
        decimal_string(n as u64)
    }
}

/// The parts of `s` between commas, empty ones included.
pub open spec fn comma_split(s: Seq<char>) -> Seq<Seq<char>>
    decreases s.len(),
{
    if s.len() == 0 {
        seq![Seq::<char>::empty()]
    } else {
        let t = comma_split(s.drop_last());
        if s.last() == ',' {
            t.push(Seq::empty())
        } else {
            t.update(t.len() - 1, t.last().push(s.last()))
        }
    }
}

pub proof fn lemma_comma_split_len(s: Seq<char>)
    ensures
        comma_split(s).len() >= 1,
    decreases s.len(),
{
    if s.len() > 0 {
        lemma_comma_split_len(s.drop_last());
    }
}

/// The non-empty parts of `s` between commas, as `split(',')` followed by
/// dropping the empty ones gives them.
pub open spec fn comma_pieces(s: Seq<char>) -> Seq<Seq<char>> {
    comma_split(s).filter(|p: Seq<char>| p.len() > 0)
}

/// Appends the non-empty parts of `s` between commas to `out`.
pub fn push_comma_pieces(out: &mut Vec<String>, s: &str)
    ensures
        views_of_strings(final(out)@) == views_of_strings(old(out)@) + comma_pieces(s@),
{
    let cs = str_chars(s);
    let ghost base = views_of_strings(out@);
    let mut start: usize = 0;
    let mut i: usize = 0;
    proof {
        lemma_comma_split_len(cs@.take(0));
        assert(cs@.take(0) =~= Seq::<char>::empty());
        assert(comma_split(Seq::<char>::empty()).drop_last() =~= Seq::<Seq<char>>::empty());
        reveal(Seq::filter);
        assert(Seq::<Seq<char>>::empty().filter(|p: Seq<char>| p.len() > 0) =~= Seq::<Seq<char>>::empty());
    }
    while i < cs.len()
        invariant
            cs@ == s@,
            start <= i <= cs@.len(),
            comma_split(cs@.take(i as int)).len() >= 1,
            comma_split(cs@.take(i as int)).last() == cs@.subrange(start as int, i as int),
            views_of_strings(out@) == base + comma_split(cs@.take(i as int)).drop_last().filter(|p: Seq<char>| p.len() > 0),
        decreases cs@.len() - i,
    {
        let ghost t = comma_split(cs@.take(i as int));
        proof {
            assert(cs@.take(i + 1).drop_last() =~= cs@.take(i as int));
            assert(cs@.take(i + 1).last() == cs@[i as int]);
        }
        if cs[i] == ',' {
            if start < i {
                let piece = owned(s.substring_char(start, i));
                let ghost before = views_of_strings(out@);
                out.push(piece);
                proof {
                    assert(views_of_strings(out@) =~= before.push(piece@));
                }
            }
            proof {
                let t2 = comma_split(cs@.take(i + 1));
                assert(t2 == t.push(Seq::empty()));
                assert(t2.drop_last() =~= t);
                assert(t =~= t.drop_last().push(t.last()));
                reveal(Seq::filter);
                assert(t.drop_last().push(t.last()).drop_last() =~= t.drop_last());
                assert(cs@.subrange(start as int, i as int).len() == i - start);
            }
            start = i + 1;
            proof {
                assert(cs@.subrange(start as int, i + 1) =~= Seq::<char>::empty());
            }
        } else {
            proof {
                let t2 = comma_split(cs@.take(i + 1));
                assert(t2 == t.update(t.len() - 1, t.last().push(cs@[i as int])));
                assert(t2.drop_last() =~= t.drop_last());
                assert(t2.last() =~= cs@.subrange(start as int, i + 1));
            }
        }
        i = i + 1;
    }
    proof {
        assert(cs@.take(cs@.len() as int) =~= cs@);
        let t = comma_split(cs@);
        assert(t =~= t.drop_last().push(t.last()));
        reveal(Seq::filter);
    }
    if start < cs.len() {
        let piece = owned(s.substring_char(start, cs.len()));
        let ghost before = views_of_strings(out@);
        out.push(piece);
        proof {
            assert(views_of_strings(out@) =~= before.push(piece@));
        }
    }
    proof {
        let t = comma_split(cs@);
        let p = |q: Seq<char>| q.len() > 0;
        assert(t.drop_last().push(t.last()).filter(p) == (if p(t.last()) { t.drop_last().filter(p).push(t.last()) } else { t.drop_last().filter(p) })) by {
            assert(t.drop_last().push(t.last()).drop_last() =~= t.drop_last());
        }
    }
}

/// The characters of each string.
pub open spec fn views_of_strings(s: Seq<String>) -> Seq<Seq<char>> {
    s.map_values(|x: String| x@)
}

} // verus!
