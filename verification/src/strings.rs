//! Verified helpers on character sequences and strings: splitting at a
//! separator, lexicographic ordering, substring search, line splitting
//! and whitespace trimming.
use vstd::prelude::*;
use vstd::string::*;
use vstd::multiset::Multiset;

verus! {

/// Index of the first occurrence of `c` in `s`, or `s.len()` if absent.
pub open spec fn find_ch(s: Seq<char>, c: char) -> int
    decreases s.len(),
{
    if s.len() == 0 {
        0
    } else if s[0] == c {
        0
    } else {
        1 + find_ch(s.drop_first(), c)
    }
}

pub proof fn lemma_find_ch(s: Seq<char>, c: char)
    ensures
        0 <= find_ch(s, c) <= s.len(),
        forall|k: int| 0 <= k < find_ch(s, c) ==> s[k] != c,
        find_ch(s, c) < s.len() ==> s[find_ch(s, c)] == c,
    decreases s.len(),
{
    if s.len() > 0 && s[0] != c {
        lemma_find_ch(s.drop_first(), c);
        assert forall|k: int| 0 <= k < find_ch(s, c) implies s[k] != c by {
            if k > 0 {
                assert(s.drop_first()[k - 1] != c);
            }
        }
        if find_ch(s, c) < s.len() {
            assert(s[find_ch(s, c)] == s.drop_first()[find_ch(s.drop_first(), c)]);
        }
    }
}

/// `find_ch` is pinned down by: no occurrence before `i`, and an
/// occurrence at `i` unless `i` is the length.
pub proof fn lemma_find_ch_is(s: Seq<char>, c: char, i: int)
    requires
        0 <= i <= s.len(),
        forall|k: int| 0 <= k < i ==> s[k] != c,
        i < s.len() ==> s[i] == c,
    ensures
        find_ch(s, c) == i,
    decreases s.len(),
{
    if s.len() == 0 {
    } else if s[0] == c {
        assert(i == 0) by {
            if i > 0 {
                assert(s[0] != c);
            }
        }
    } else {
        assert(s[0] != c);
        assert(i > 0);
        assert forall|k: int| 0 <= k < i - 1 implies s.drop_first()[k] != c by {
            assert(s[k + 1] != c);
        }
        lemma_find_ch_is(s.drop_first(), c, i - 1);
    }
}

/// Splits `s` at every occurrence of `c`. The empty sequence yields one
/// empty segment; a trailing separator yields a trailing empty segment.
pub open spec fn split_ch(s: Seq<char>, c: char) -> Seq<Seq<char>>
    decreases s.len(),
{
    let i = find_ch(s, c);
    if 0 <= i < s.len() {
        seq![s.subrange(0, i)] + split_ch(s.skip(i + 1), c)
    } else {
        seq![s]
    }
}

/// Unfolds `split_ch` at the first separator position.
pub proof fn lemma_split_ch_step(s: Seq<char>, c: char, i: int)
    requires
        0 <= i < s.len(),
        forall|k: int| 0 <= k < i ==> s[k] != c,
        s[i] == c,
    ensures
        split_ch(s, c) == seq![s.subrange(0, i)] + split_ch(s.skip(i + 1), c),
{
    lemma_find_ch_is(s, c, i);
}

/// A sequence without the separator is a single segment.
pub proof fn lemma_split_ch_whole(s: Seq<char>, c: char)
    requires
        forall|k: int| 0 <= k < s.len() ==> s[k] != c,
    ensures
        split_ch(s, c) == seq![s],
{
    lemma_find_ch_is(s, c, s.len() as int);
}

/// No segment of a split contains the separator.
pub proof fn lemma_split_ch_no_sep(s: Seq<char>, c: char)
    ensures
        split_ch(s, c).len() >= 1,
        forall|i: int, k: int|
            0 <= i < split_ch(s, c).len() && 0 <= k < split_ch(s, c)[i].len()
                ==> split_ch(s, c)[i][k] != c,
    decreases s.len(),
{
    lemma_find_ch(s, c);
    let f = find_ch(s, c);
    if 0 <= f < s.len() {
        lemma_split_ch_no_sep(s.skip(f + 1), c);
        assert forall|i: int, k: int|
            0 <= i < split_ch(s, c).len() && 0 <= k < split_ch(s, c)[i].len()
                implies split_ch(s, c)[i][k] != c by {
            if i == 0 {
                assert(split_ch(s, c)[0] == s.subrange(0, f));
                assert(s.subrange(0, f)[k] == s[k]);
            } else {
                assert(split_ch(s, c)[i] == split_ch(s.skip(f + 1), c)[i - 1]);
            }
        }
    }
}

/// The views of a vector of strings.
pub open spec fn views_of(v: Seq<String>) -> Seq<Seq<char>> {
    v.map_values(|s: String| s@)
}

/// Splits a title into its `/`-separated segments.
pub fn split_title(t: &str) -> (v: Vec<String>)
    ensures
        views_of(v@) == split_ch(t@, '/'),
        v@.len() >= 1,
{
    let n = t.unicode_len();
    let mut v: Vec<String> = Vec::new();
    let mut start: usize = 0;
    let mut i: usize = 0;
    proof {
        assert(views_of(v@) =~= Seq::<Seq<char>>::empty());
        assert(t@.skip(0) =~= t@);
        assert(views_of(v@) + split_ch(t@, '/') =~= split_ch(t@, '/'));
    }
    while i < n
        invariant
            start <= i <= n,
            n == t@.len(),
            forall|k: int| start <= k < i ==> t@[k] != '/',
            split_ch(t@, '/') == views_of(v@) + split_ch(t@.skip(start as int), '/'),
        decreases n - i,
    {
        if t.get_char(i) == '/' {
            let seg = t.substring_char(start, i).to_owned();
            proof {
                let ss = t@.skip(start as int);
                assert forall|k: int| 0 <= k < i - start implies ss[k] != '/' by {
                    assert(t@[start + k] != '/');
                }
                assert(ss[i - start] == '/');
                lemma_split_ch_step(ss, '/', i - start);
                assert(ss.subrange(0, i - start) =~= t@.subrange(start as int, i as int));
                assert(ss.skip(i - start + 1) =~= t@.skip(i + 1));
                assert(views_of(v@.push(seg)) =~= views_of(v@).push(seg@));
                assert(views_of(v@).push(seg@) + split_ch(t@.skip(i + 1), '/')
                    =~= views_of(v@) + split_ch(ss, '/'));
            }
            v.push(seg);
            start = i + 1;
        }
        i += 1;
    }
    let seg = t.substring_char(start, n).to_owned();
    proof {
        let ss = t@.skip(start as int);
        assert forall|k: int| 0 <= k < ss.len() implies ss[k] != '/' by {
            assert(t@[start + k] != '/');
        }
        lemma_split_ch_whole(ss, '/');
        assert(seg@ =~= ss);
        assert(views_of(v@.push(seg)) =~= views_of(v@).push(seg@));
        assert(views_of(v@).push(seg@) =~= views_of(v@) + seq![ss]);
    }
    v.push(seg);
    v
}

/// Lexicographic order on character sequences, by code point.
pub open spec fn seq_le(a: Seq<char>, b: Seq<char>) -> bool
    decreases a.len(),
{
    if a.len() == 0 {
        true
    } else if b.len() == 0 {
        false
    } else if a[0] != b[0] {
        (a[0] as u32) < (b[0] as u32)
    } else {
        seq_le(a.drop_first(), b.drop_first())
    }
}

pub proof fn lemma_seq_le_total(a: Seq<char>, b: Seq<char>)
    ensures
        seq_le(a, b) || seq_le(b, a),
    decreases a.len(),
{
    if a.len() > 0 && b.len() > 0 {
        if a[0] == b[0] {
            lemma_seq_le_total(a.drop_first(), b.drop_first());
        } else {
            vstd::utf8::char_u32_cast(a[0], a[0] as u32);
            vstd::utf8::char_u32_cast(b[0], b[0] as u32);
            assert((a[0] as u32) != (b[0] as u32));
        }
    }
}

pub proof fn lemma_seq_le_antisym(a: Seq<char>, b: Seq<char>)
    requires
        seq_le(a, b),
        seq_le(b, a),
    ensures
        a == b,
    decreases a.len(),
{
    if a.len() > 0 && b.len() > 0 && a[0] == b[0] {
        lemma_seq_le_antisym(a.drop_first(), b.drop_first());
        assert(a =~= seq![a[0]] + a.drop_first());
        assert(b =~= seq![b[0]] + b.drop_first());
    }
}

pub proof fn lemma_seq_le_trans(a: Seq<char>, b: Seq<char>, c: Seq<char>)
    requires
        seq_le(a, b),
        seq_le(b, c),
    ensures
        seq_le(a, c),
    decreases a.len(),
{
    if a.len() > 0 && b.len() > 0 && c.len() > 0 && a[0] == b[0] && b[0] == c[0] {
        lemma_seq_le_trans(a.drop_first(), b.drop_first(), c.drop_first());
    }
}

/// Compares two strings lexicographically by character code.
pub fn str_le(a: &String, b: &String) -> (r: bool)
    ensures
        r == seq_le(a@, b@),
{
    let na = a.as_str().unicode_len();
    let nb = b.as_str().unicode_len();
    let mut i: usize = 0;
    proof {
        assert(a@.skip(0) =~= a@);
        assert(b@.skip(0) =~= b@);
    }
    loop
        invariant
            i <= na,
            i <= nb,
            na == a@.len(),
            nb == b@.len(),
            seq_le(a@, b@) == seq_le(a@.skip(i as int), b@.skip(i as int)),
        decreases na - i,
    {
        if i >= na {
            return true;
        }
        if i >= nb {
            return false;
        }
        let ca = a.as_str().get_char(i);
        let cb = b.as_str().get_char(i);
        proof {
            assert(a@.skip(i as int)[0] == a@[i as int]);
            assert(b@.skip(i as int)[0] == b@[i as int]);
        }
        if ca != cb {
            return (ca as u32) < (cb as u32);
        }
        proof {
            assert(a@.skip(i as int).drop_first() =~= a@.skip(i + 1));
            assert(b@.skip(i as int).drop_first() =~= b@.skip(i + 1));
        }
        i += 1;
    }
}

pub open spec fn sorted_le(s: Seq<Seq<char>>) -> bool {
    forall|i: int, j: int| 0 <= i < j < s.len() ==> seq_le(s[i], s[j])
}

/// Inserts `x` in front of the first element it is not above.
fn insert_sorted(r: &mut Vec<String>, x: String)
    requires
        sorted_le(views_of(old(r)@)),
    ensures
        sorted_le(views_of(final(r)@)),
        views_of(final(r)@).to_multiset() == views_of(old(r)@).to_multiset().insert(x@),
{
    let ghost r0 = r@;
    let mut j: usize = 0;
    while j < r.len() && str_le(&r[j], &x)
        invariant
            j <= r@.len(),
            r@ == r0,
            forall|k: int| 0 <= k < j ==> seq_le(views_of(r@)[k], x@),
        decreases r@.len() - j,
    {
        proof {
            assert(views_of(r@)[j as int] == r@[j as int]@);
        }
        j += 1;
    }
    proof {
        assert forall|k: int| j <= k < r0.len() implies seq_le(x@, views_of(r0)[k]) by {
            assert(views_of(r0)[j as int] == r0[j as int]@);
            assert(views_of(r0)[k] == r0[k]@);
            assert(!seq_le(r0[j as int]@, x@));
            lemma_seq_le_total(r0[j as int]@, x@);
            if k > j {
                assert(seq_le(views_of(r0)[j as int], views_of(r0)[k]));
                lemma_seq_le_trans(x@, r0[j as int]@, r0[k]@);
            }
        }
    }
    r.insert(j, x);
    proof {
        let vnew = views_of(r@);
        let vold = views_of(r0);
        assert(vnew =~= vold.take(j as int) + seq![x@] + vold.skip(j as int));
        assert forall|i: int, k: int| 0 <= i < k < vnew.len() implies seq_le(
            vnew[i],
            vnew[k],
        ) by {
            if i < j && k < j {
            } else if i < j && k == j {
            } else if i < j && k > j {
                assert(seq_le(vold[i], vold[k - 1]));
            } else if i == j {
            } else {
                assert(seq_le(vold[i - 1], vold[k - 1]));
            }
        }
        broadcast use vstd::seq_lib::group_to_multiset_ensures;

        assert(vnew =~= vold.take(j as int) + (seq![x@] + vold.skip(j as int)));
        vstd::seq_lib::lemma_multiset_commutative(vold.take(j as int), seq![x@] + vold.skip(j as int));
        vstd::seq_lib::lemma_multiset_commutative(seq![x@], vold.skip(j as int));
        vstd::seq_lib::lemma_multiset_commutative(vold.take(j as int), vold.skip(j as int));
        assert(vold.take(j as int) + vold.skip(j as int) =~= vold);
        assert(seq![x@] =~= Seq::<Seq<char>>::empty().push(x@));
        assert(Seq::<Seq<char>>::empty().push(x@).to_multiset() =~= Seq::<Seq<char>>::empty().to_multiset().insert(x@));
        assert(Seq::<Seq<char>>::empty().to_multiset() =~= Multiset::<Seq<char>>::empty());
        assert(vnew.to_multiset() =~= vold.to_multiset().insert(x@));
    }
}

/// Sorts strings lexicographically by character code; the result holds
/// exactly the elements of the input.
pub fn sort_strings(v: Vec<String>) -> (r: Vec<String>)
    ensures
        sorted_le(views_of(r@)),
        views_of(r@).to_multiset() == views_of(v@).to_multiset(),
{
    broadcast use vstd::seq_lib::group_to_multiset_ensures;

    let ghost v0 = v@;
    let mut v = v;
    let mut r: Vec<String> = Vec::new();
    proof {
        assert(views_of(r@) =~= Seq::<Seq<char>>::empty());
        assert(views_of(r@).to_multiset() =~= Multiset::<Seq<char>>::empty());
        assert(views_of(v@).to_multiset().add(views_of(r@).to_multiset()) =~= views_of(
            v0,
        ).to_multiset());
    }
    while v.len() > 0
        invariant
            sorted_le(views_of(r@)),
            views_of(v@).to_multiset().add(views_of(r@).to_multiset()) == views_of(
                v0,
            ).to_multiset(),
        decreases v@.len(),
    {
        let ghost vpre = v@;
        let x = v.remove(0);
        proof {
            views_of(vpre).to_multiset_ensures();
            assert(views_of(vpre).remove(0) =~= views_of(v@));
            assert(views_of(vpre).remove(0).to_multiset() =~= views_of(vpre).to_multiset().remove(
                views_of(vpre)[0],
            ));
            assert(views_of(vpre)[0] == x@);
            assert(views_of(vpre).contains(x@));
            assert(views_of(vpre).to_multiset().count(x@) > 0);
        }
        insert_sorted(&mut r, x);
        proof {
            assert(views_of(v@).to_multiset().add(views_of(r@).to_multiset()) =~= views_of(
                v0,
            ).to_multiset());
        }
    }
    proof {
        assert(views_of(v@) =~= Seq::<Seq<char>>::empty());
        assert(views_of(v@).to_multiset() =~= Multiset::<Seq<char>>::empty());
        assert(views_of(r@).to_multiset() =~= views_of(v0).to_multiset());
    }
    r
}

/// `sub` occurs contiguously in `s`.
pub open spec fn spec_contains(s: Seq<char>, sub: Seq<char>) -> bool {
    exists|i: int| 0 <= i <= s.len() - sub.len() && #[trigger] s.subrange(i, i + sub.len()) == sub
}

/// Case-exact substring test.
pub fn str_contains(s: &str, sub: &str) -> (r: bool)
    ensures
        r == spec_contains(s@, sub@),
{
    let n = s.unicode_len();
    let m = sub.unicode_len();
    if m > n {
        return false;
    }
    let mut i: usize = 0;
    while i <= n - m
        invariant
            m <= n,
            n == s@.len(),
            m == sub@.len(),
            i <= n - m + 1,
            forall|p: int| 0 <= p < i ==> #[trigger] s@.subrange(p, p + m as int) != sub@,
        decreases n - m - i + 1,
    {
        let mut j: usize = 0;
        while j < m && s.get_char(i + j) == sub.get_char(j)
            invariant
                i + m <= n,
                n == s@.len(),
                m == sub@.len(),
                j <= m,
                forall|q: int| 0 <= q < j ==> s@[i + q] == sub@[q],
            decreases m - j,
        {
            j += 1;
        }
        if j == m {
            proof {
                assert(s@.subrange(i as int, i + m as int) =~= sub@);
            }
            return true;
        }
        proof {
            assert(s@.subrange(i as int, i + m as int)[j as int] == s@[i + j]);
            assert(s@.subrange(i as int, i + m as int) != sub@);
        }
        i += 1;
    }
    false
}

/// What `str::to_lowercase` returns for a given character sequence.
pub uninterp spec fn lower_of(s: Seq<char>) -> Seq<char>;

/// Relies on `str::to_lowercase`: the result is a function of the input
/// characters alone (Unicode lowercasing, locale-independent).
#[verifier::external_body]
pub(crate) fn lowercase(s: &str) -> (r: String)
    ensures
        r@ == lower_of(s@),
{
    s.to_lowercase()
}

/// What `char::is_whitespace` returns for a given character.
pub uninterp spec fn char_is_space(c: char) -> bool;

/// Relies on `char::is_whitespace`: a fixed predicate of the character.
#[verifier::external_body]
pub(crate) fn is_space_char(c: char) -> (r: bool)
    ensures
        r == char_is_space(c),
{
    c.is_whitespace()
}

/// Strips one trailing carriage return, as `str::lines` does on each
/// newline-terminated line.
pub open spec fn strip_cr(l: Seq<char>) -> Seq<char> {
    if l.len() > 0 && l[l.len() - 1] == '\r' {
        l.drop_last()
    } else {
        l
    }
}

/// The lines of `s`: split at `'\n'`, each newline-terminated line
/// stripped of one trailing `'\r'`; a final line ending adds no empty line.
pub open spec fn lines_of(s: Seq<char>) -> Seq<Seq<char>>
    decreases s.len(),
{
    if s.len() == 0 {
        Seq::empty()
    } else {
        let i = find_ch(s, '\n');
        if 0 <= i < s.len() {
            seq![strip_cr(s.subrange(0, i))] + lines_of(s.skip(i + 1))
        } else {
            seq![s]
        }
    }
}

pub open spec fn trim_front(s: Seq<char>) -> Seq<char>
    decreases s.len(),
{
    if s.len() > 0 && char_is_space(s[0]) {
        trim_front(s.drop_first())
    } else {
        s
    }
}

pub open spec fn trim_back(s: Seq<char>) -> Seq<char>
    decreases s.len(),
{
    if s.len() > 0 && char_is_space(s[s.len() - 1]) {
        trim_back(s.drop_last())
    } else {
        s
    }
}

/// What `str::trim` returns: both ends stripped of whitespace.
pub open spec fn trim_of(s: Seq<char>) -> Seq<char> {
    trim_back(trim_front(s))
}

/// Strips leading and trailing whitespace characters.
pub fn trim_str(s: &str) -> (r: String)
    ensures
        r@ == trim_of(s@),
{
    let n = s.unicode_len();
    let mut a: usize = 0;
    proof {
        assert(s@.skip(0) =~= s@);
    }
    while a < n && is_space_char(s.get_char(a))
        invariant
            a <= n,
            n == s@.len(),
            trim_front(s@) == trim_front(s@.skip(a as int)),
        decreases n - a,
    {
        proof {
            assert(s@.skip(a as int)[0] == s@[a as int]);
            assert(s@.skip(a as int).drop_first() =~= s@.skip(a + 1));
        }
        a += 1;
    }
    let ghost f = s@.skip(a as int);
    proof {
        if a < n {
            assert(f[0] == s@[a as int]);
        }
        assert(trim_front(s@) == f);
    }
    let mut b: usize = n;
    proof {
        assert(f.take(n - a) =~= f);
    }
    while b > a && is_space_char(s.get_char(b - 1))
        invariant
            a <= b <= n,
            n == s@.len(),
            f == s@.skip(a as int),
            trim_back(f) == trim_back(f.take(b - a)),
        decreases b,
    {
        proof {
            let t = f.take(b - a);
            assert(t[t.len() - 1] == s@[b - 1]);
            assert(t.drop_last() =~= f.take(b - 1 - a));
        }
        b -= 1;
    }
    proof {
        let t = f.take(b - a);
        if b > a {
            assert(t[t.len() - 1] == s@[b - 1]);
        }
        assert(trim_back(t) == t);
        assert(s@.subrange(a as int, b as int) =~= f.take(b - a));
    }
    s.substring_char(a, b).to_owned()
}

} // verus!
