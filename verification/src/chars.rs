//! Character-sequence utilities: the renderer works on `Vec<char>` so that
//! every layout decision counts Unicode scalars, never bytes.

use vstd::prelude::*;

verus! {

/// Relies on `str::chars`: it yields the characters of the slice in order.
#[verifier::external_body]
pub fn chars_of_str(s: &str) -> (r: Vec<char>)
    ensures
        r@ == s@,
{
    s.chars().collect()
}

/// Relies on `String: FromIterator<char>`: collecting characters builds the
/// string of exactly those characters.
#[verifier::external_body]
pub fn string_of_chars(v: &Vec<char>) -> (r: String)
    ensures
        r@ == v@,
{
    v.iter().collect()
}

/// The whitespace class used for trimming and word splitting.
pub open spec fn is_space_char(c: char) -> bool {
    c == ' ' || c == '\t' || c == '\r' || c == '\n'
}

pub fn is_space(c: char) -> (b: bool)
    ensures
        b == is_space_char(c),
{
    c == ' ' || c == '\t' || c == '\r' || c == '\n'
}

/// A sequence of character sequences, as the view of a `Vec<Vec<char>>`.
pub open spec fn views(s: Seq<Vec<char>>) -> Seq<Seq<char>> {
    s.map_values(|v: Vec<char>| v@)
}

pub open spec fn trim_front_spec(s: Seq<char>) -> Seq<char>
    decreases s.len(),
{
    if s.len() > 0 && is_space_char(s[0]) {
        trim_front_spec(s.drop_first())
    } else {
        s
    }
}

pub open spec fn trim_back_spec(s: Seq<char>) -> Seq<char>
    decreases s.len(),
{
    if s.len() > 0 && is_space_char(s.last()) {
        trim_back_spec(s.drop_last())
    } else {
        s
    }
}

/// The input with leading and trailing whitespace removed.
pub open spec fn trim_spec(s: Seq<char>) -> Seq<char> {
    trim_back_spec(trim_front_spec(s))
}

proof fn lemma_trim_front_skip(s: Seq<char>, i: int)
    requires
        0 <= i <= s.len(),
        forall|j: int| 0 <= j < i ==> is_space_char(s[j]),
    ensures
        trim_front_spec(s) == trim_front_spec(s.skip(i)),
    decreases i,
{
    if i > 0 {
        assert(s.skip(0) =~= s);
        assert(is_space_char(s[0]));
        assert(s.drop_first() =~= s.skip(1));
        lemma_trim_front_skip(s.skip(1), i - 1);
        assert(s.skip(1).skip(i - 1) =~= s.skip(i));
    } else {
        assert(s.skip(0) =~= s);
    }
}

proof fn lemma_trim_back_take(s: Seq<char>, i: int)
    requires
        0 <= i <= s.len(),
        forall|j: int| i <= j < s.len() ==> is_space_char(s[j]),
    ensures
        trim_back_spec(s) == trim_back_spec(s.take(i)),
    decreases s.len() - i,
{
    if i < s.len() {
        assert(is_space_char(s.last()));
        assert(s.drop_last() =~= s.take(s.len() - 1));
        assert(forall|j: int|
            i <= j < s.len() - 1 ==> is_space_char(#[trigger] s.take(s.len() - 1)[j]));
        lemma_trim_back_take(s.take(s.len() - 1), i);
        assert(s.take(s.len() - 1).take(i) =~= s.take(i));
    } else {
        assert(s.take(s.len() as int) =~= s);
    }
}

pub fn trim_chars(v: &Vec<char>) -> (r: Vec<char>)
    ensures
        r@ == trim_spec(v@),
{
    let n = v.len();
    let mut start: usize = 0;
    while start < n && is_space(v[start])
        invariant
            0 <= start <= n,
            n == v.len(),
            forall|j: int| 0 <= j < start ==> is_space_char(v@[j]),
        decreases n - start,
    {
        start = start + 1;
    }
    proof {
        lemma_trim_front_skip(v@, start as int);
        if start < n {
            assert(v@.skip(start as int)[0] == v@[start as int]);
            assert(trim_front_spec(v@.skip(start as int)) == v@.skip(start as int));
        } else {
            assert(v@.skip(start as int).len() == 0);
            assert(trim_front_spec(v@.skip(start as int)) == v@.skip(start as int));
        }
    }
    let mut end: usize = n;
    while end > start && is_space(v[end - 1])
        invariant
            start <= end <= n,
            n == v.len(),
            forall|j: int| end <= j < n ==> is_space_char(v@[j]),
        decreases end,
    {
        end = end - 1;
    }
    proof {
        let t = v@.skip(start as int);
        assert(forall|j: int| end - start <= j < t.len() ==> is_space_char(#[trigger] t[j]));
        lemma_trim_back_take(t, end - start);
        if end > start {
            assert(t.take(end - start).last() == v@[end - 1]);
            assert(trim_back_spec(t.take(end - start)) == t.take(end - start));
        } else {
            assert(t.take(end - start).len() == 0);
            assert(trim_back_spec(t.take(end - start)) == t.take(end - start));
        }
        assert(trim_spec(v@) == t.take(end - start));
    }
    let mut r: Vec<char> = Vec::new();
    let mut i: usize = start;
    while i < end
        invariant
            start <= i <= end <= n,
            n == v.len(),
            r@ == v@.subrange(start as int, i as int),
        decreases end - i,
    {
        r.push(v[i]);
        proof {
            assert(v@.subrange(start as int, i + 1 as int) =~= v@.subrange(
                start as int,
                i as int,
            ).push(v@[i as int]));
        }
        i = i + 1;
    }
    proof {
        assert(v@.subrange(start as int, end as int) =~= v@.skip(start as int).take(
            end - start,
        ));
    }
    r
}

/// Index of the first occurrence of `c` in `s`, or `s.len()` if absent.
pub open spec fn find_char(s: Seq<char>, c: char) -> int
    decreases s.len(),
{
    if s.len() == 0 {
        0
    } else if s[0] == c {
        0
    } else {
        1 + find_char(s.drop_first(), c)
    }
}

pub proof fn lemma_find_char(s: Seq<char>, c: char)
    ensures
        0 <= find_char(s, c) <= s.len(),
        find_char(s, c) < s.len() ==> s[find_char(s, c)] == c,
        forall|j: int| 0 <= j < find_char(s, c) ==> s[j] != c,
        find_char(s, c) == s.len() ==> !s.contains(c),
    decreases s.len(),
{
    if s.len() > 0 && s[0] != c {
        lemma_find_char(s.drop_first(), c);
        let f = find_char(s, c);
        assert(forall|j: int| 1 <= j < f ==> s[j] == s.drop_first()[j - 1]);
        if f == s.len() {
            assert forall|j: int| 0 <= j < s.len() implies s[j] != c by {
                if j > 0 {
                    assert(s[j] == s.drop_first()[j - 1]);
                }
            }
        }
    }
}

pub proof fn lemma_find_char_concat(p: Seq<char>, s: Seq<char>, c: char)
    requires
        !p.contains(c),
    ensures
        find_char(p + s, c) == p.len() + find_char(s, c),
    decreases p.len(),
{
    if p.len() == 0 {
        assert(p + s =~= s);
    } else {
        assert(p[0] != c);
        assert((p + s)[0] == p[0]);
        assert((p + s).drop_first() =~= p.drop_first() + s);
        assert(!p.drop_first().contains(c)) by {
            assert(forall|j: int|
                0 <= j < p.drop_first().len() ==> p.drop_first()[j] == p[j + 1]);
        }
        lemma_find_char_concat(p.drop_first(), s, c);
    }
}

/// The pieces of `s` split at every occurrence of `c` (separators removed;
/// empty pieces kept, so there is always at least one piece).
pub open spec fn split_char_spec(s: Seq<char>, c: char) -> Seq<Seq<char>>
    decreases s.len(),
{
    let f = find_char(s, c);
    if f == s.len() {
        seq![s]
    } else if 0 <= f < s.len() {
        seq![s.take(f)] + split_char_spec(s.skip(f + 1), c)
    } else {
        seq![s]
    }
}

proof fn lemma_split_no_sep(s: Seq<char>, c: char)
    requires
        !s.contains(c),
    ensures
        split_char_spec(s, c) == seq![s],
{
    lemma_find_char(s, c);
    if find_char(s, c) < s.len() {
        assert(s.contains(c)) by {
            assert(s[find_char(s, c)] == c);
        }
    }
}

proof fn lemma_split_concat(p: Seq<char>, s: Seq<char>, c: char)
    requires
        !p.contains(c),
        s.len() > 0,
        s[0] == c,
    ensures
        split_char_spec(p + s, c) == seq![p] + split_char_spec(s.drop_first(), c),
{
    lemma_find_char_concat(p, s, c);
    assert(find_char(s, c) == 0);
    let f = p.len() as int;
    assert(find_char(p + s, c) == f);
    assert((p + s).len() > f);
    assert((p + s).take(f) =~= p);
    assert((p + s).skip(f + 1) =~= s.drop_first());
}

pub fn split_char(v: &Vec<char>, c: char) -> (r: Vec<Vec<char>>)
    ensures
        views(r@) == split_char_spec(v@, c),
        r@.len() >= 1,
{
    let n = v.len();
    let mut r: Vec<Vec<char>> = Vec::new();
    let mut cur: Vec<char> = Vec::new();
    let mut i: usize = 0;
    proof {
        assert(views(r@) =~= Seq::<Seq<char>>::empty());
        assert(cur@ + v@.skip(0) =~= v@);
        assert(views(r@) + split_char_spec(v@, c) =~= split_char_spec(v@, c));
    }
    while i < n
        invariant
            0 <= i <= n,
            n == v.len(),
            !cur@.contains(c),
            split_char_spec(v@, c) == views(r@) + split_char_spec(cur@ + v@.skip(i as int), c),
        decreases n - i,
    {
        let ch = v[i];
        if ch == c {
            proof {
                let rest = v@.skip(i as int);
                assert(rest[0] == c);
                lemma_split_concat(cur@, rest, c);
                assert(rest.drop_first() =~= v@.skip(i + 1));
                assert(views(r@.push(cur)) =~= views(r@) + seq![cur@]);
                assert(views(r@) + (seq![cur@] + split_char_spec(v@.skip(i + 1), c)) =~= views(
                    r@.push(cur),
                ) + split_char_spec(v@.skip(i + 1), c));
            }
            r.push(cur);
            cur = Vec::new();
            proof {
                assert(cur@ + v@.skip(i + 1) =~= v@.skip(i + 1));
            }
        } else {
            proof {
                assert(cur@ + v@.skip(i as int) =~= cur@.push(ch) + v@.skip(i + 1));
                assert(!cur@.push(ch).contains(c)) by {
                    assert(forall|j: int|
                        0 <= j < cur@.push(ch).len() ==> cur@.push(ch)[j] == (if j < cur@.len() {
                            cur@[j]
                        } else {
                            ch
                        }));
                }
            }
            cur.push(ch);
        }
        i = i + 1;
    }
    proof {
        assert(cur@ + v@.skip(n as int) =~= cur@);
        lemma_split_no_sep(cur@, c);
        assert(views(r@.push(cur)) =~= views(r@) + seq![cur@]);
    }
    r.push(cur);
    r
}

pub fn contains_char(v: &Vec<char>, c: char) -> (b: bool)
    ensures
        b == v@.contains(c),
{
    let n = v.len();
    let mut i: usize = 0;
    while i < n
        invariant
            0 <= i <= n,
            n == v.len(),
            forall|j: int| 0 <= j < i ==> v@[j] != c,
        decreases n - i,
    {
        if v[i] == c {
            assert(v@.contains(c)) by {
                assert(v@[i as int] == c);
            }
            return true;
        }
        i = i + 1;
    }
    false
}

/// How many times `c` occurs in `s`.
pub open spec fn count_char(s: Seq<char>, c: char) -> int
    decreases s.len(),
{
    if s.len() == 0 {
        0
    } else {
        count_char(s.drop_last(), c) + if s.last() == c {
            1int
        } else {
            0int
        }
    }
}

pub fn count_char_exec(v: &Vec<char>, c: char) -> (r: usize)
    ensures
        r == count_char(v@, c),
        r <= v@.len(),
{
    let n = v.len();
    let mut r: usize = 0;
    let mut i: usize = 0;
    while i < n
        invariant
            0 <= i <= n,
            n == v.len(),
            r == count_char(v@.take(i as int), c),
            r <= i,
        decreases n - i,
    {
        proof {
            assert(v@.take(i + 1).drop_last() =~= v@.take(i as int));
            assert(v@.take(i + 1).last() == v@[i as int]);
        }
        if v[i] == c {
            r = r + 1;
        }
        i = i + 1;
    }
    proof {
        assert(v@.take(n as int) =~= v@);
    }
    r
}

/// The input with every leading and trailing occurrence of `c` removed.
pub open spec fn trim_matches_spec(s: Seq<char>, c: char) -> Seq<char> {
    let a = trim_matches_front(s, c);
    trim_matches_back(a, c)
}

pub open spec fn trim_matches_front(s: Seq<char>, c: char) -> Seq<char>
    decreases s.len(),
{
    if s.len() > 0 && s[0] == c {
        trim_matches_front(s.drop_first(), c)
    } else {
        s
    }
}

pub open spec fn trim_matches_back(s: Seq<char>, c: char) -> Seq<char>
    decreases s.len(),
{
    if s.len() > 0 && s.last() == c {
        trim_matches_back(s.drop_last(), c)
    } else {
        s
    }
}

proof fn lemma_trim_matches_front_skip(s: Seq<char>, c: char, i: int)
    requires
        0 <= i <= s.len(),
        forall|j: int| 0 <= j < i ==> s[j] == c,
    ensures
        trim_matches_front(s, c) == trim_matches_front(s.skip(i), c),
    decreases i,
{
    if i > 0 {
        assert(s.drop_first() =~= s.skip(1));
        lemma_trim_matches_front_skip(s.skip(1), c, i - 1);
        assert(s.skip(1).skip(i - 1) =~= s.skip(i));
    } else {
        assert(s.skip(0) =~= s);
    }
}

proof fn lemma_trim_matches_back_take(s: Seq<char>, c: char, i: int)
    requires
        0 <= i <= s.len(),
        forall|j: int| i <= j < s.len() ==> s[j] == c,
    ensures
        trim_matches_back(s, c) == trim_matches_back(s.take(i), c),
    decreases s.len() - i,
{
    if i < s.len() {
        assert(s.drop_last() =~= s.take(s.len() - 1));
        assert(forall|j: int| i <= j < s.len() - 1 ==> #[trigger] s.take(s.len() - 1)[j] == c);
        lemma_trim_matches_back_take(s.take(s.len() - 1), c, i);
        assert(s.take(s.len() - 1).take(i) =~= s.take(i));
    } else {
        assert(s.take(s.len() as int) =~= s);
    }
}

pub fn trim_matches_char(v: &Vec<char>, c: char) -> (r: Vec<char>)
    ensures
        r@ == trim_matches_spec(v@, c),
{
    let n = v.len();
    let mut start: usize = 0;
    while start < n && v[start] == c
        invariant
            0 <= start <= n,
            n == v.len(),
            forall|j: int| 0 <= j < start ==> v@[j] == c,
        decreases n - start,
    {
        start = start + 1;
    }
    proof {
        lemma_trim_matches_front_skip(v@, c, start as int);
        assert(trim_matches_front(v@.skip(start as int), c) == v@.skip(start as int));
    }
    let mut end: usize = n;
    while end > start && v[end - 1] == c
        invariant
            start <= end <= n,
            n == v.len(),
            forall|j: int| end <= j < n ==> v@[j] == c,
        decreases end,
    {
        end = end - 1;
    }
    proof {
        let t = v@.skip(start as int);
        assert(forall|j: int| end - start <= j < t.len() ==> #[trigger] t[j] == c);
        lemma_trim_matches_back_take(t, c, end - start);
        if end > start {
            assert(t.take(end - start).last() == v@[end - 1]);
        }
        assert(trim_matches_back(t.take(end - start), c) == t.take(end - start));
    }
    let mut r: Vec<char> = Vec::new();
    let mut i: usize = start;
    while i < end
        invariant
            start <= i <= end <= n,
            n == v.len(),
            r@ == v@.subrange(start as int, i as int),
        decreases end - i,
    {
        proof {
            assert(v@.subrange(start as int, i + 1 as int) =~= v@.subrange(
                start as int,
                i as int,
            ).push(v@[i as int]));
        }
        r.push(v[i]);
        i = i + 1;
    }
    proof {
        assert(v@.subrange(start as int, end as int) =~= v@.skip(start as int).take(
            end - start,
        ));
    }
    r
}

pub fn eq_chars(a: &Vec<char>, b: &Vec<char>) -> (r: bool)
    ensures
        r == (a@ == b@),
{
    let n = a.len();
    if n != b.len() {
        proof {
            assert(a@ != b@);
        }
        return false;
    }
    let mut i: usize = 0;
    while i < n
        invariant
            0 <= i <= n,
            n == a.len(),
            n == b.len(),
            forall|j: int| 0 <= j < i ==> a@[j] == b@[j],
        decreases n - i,
    {
        if a[i] != b[i] {
            proof {
                assert(a@[i as int] != b@[i as int]);
            }
            return false;
        }
        i = i + 1;
    }
    proof {
        assert(a@ =~= b@);
    }
    true
}

/// Appends a copy of `src` to `dst`.
pub fn extend_chars(dst: &mut Vec<char>, src: &Vec<char>)
    ensures
        final(dst)@ == old(dst)@ + src@,
{
    let n = src.len();
    let mut i: usize = 0;
    while i < n
        invariant
            0 <= i <= n,
            n == src.len(),
            dst@ == old(dst)@ + src@.take(i as int),
        decreases n - i,
    {
        proof {
            assert(old(dst)@ + src@.take(i + 1) =~= (old(dst)@ + src@.take(i as int)).push(
                src@[i as int],
            ));
        }
        dst.push(src[i]);
        i = i + 1;
    }
    proof {
        assert(src@.take(n as int) =~= src@);
    }
}

pub fn trim_end_chars(v: &Vec<char>) -> (r: Vec<char>)
    ensures
        r@ == trim_back_spec(v@),
{
    let n = v.len();
    let mut end: usize = n;
    while end > 0 && is_space(v[end - 1])
        invariant
            0 <= end <= n,
            n == v.len(),
            forall|j: int| end <= j < n ==> is_space_char(v@[j]),
        decreases end,
    {
        end = end - 1;
    }
    proof {
        lemma_trim_back_take(v@, end as int);
        if end > 0 {
            assert(v@.take(end as int).last() == v@[end - 1]);
            assert(trim_back_spec(v@.take(end as int)) == v@.take(end as int));
        } else {
            assert(v@.take(0).len() == 0);
            assert(trim_back_spec(v@.take(0)) == v@.take(0));
        }
    }
    let mut r: Vec<char> = Vec::new();
    let mut i: usize = 0;
    while i < end
        invariant
            0 <= i <= end <= n,
            n == v.len(),
            r@ == v@.take(i as int),
        decreases end - i,
    {
        proof {
            assert(v@.take(i + 1) =~= v@.take(i as int).push(v@[i as int]));
        }
        r.push(v[i]);
        i = i + 1;
    }
    r
}

pub fn clone_chars(v: &Vec<char>) -> (r: Vec<char>)
    ensures
        r@ == v@,
{
    let n = v.len();
    let mut r: Vec<char> = Vec::new();
    let mut i: usize = 0;
    while i < n
        invariant
            0 <= i <= n,
            n == v.len(),
            r@ == v@.take(i as int),
        decreases n - i,
    {
        proof {
            assert(v@.take(i + 1) =~= v@.take(i as int).push(v@[i as int]));
        }
        r.push(v[i]);
        i = i + 1;
    }
    proof {
        assert(v@.take(n as int) =~= v@);
    }
    r
}

/// A line piece with one trailing carriage return removed.
pub open spec fn strip_cr(l: Seq<char>) -> Seq<char> {
    if l.len() > 0 && l.last() == '\r' {
        l.drop_last()
    } else {
        l
    }
}

/// The lines of `s`: pieces split at `'\n'`, each newline-terminated piece
/// also stripped of one trailing `'\r'`; a final empty piece (from a trailing
/// newline, or from empty input) is dropped.
pub open spec fn lines_spec(s: Seq<char>) -> Seq<Seq<char>> {
    let ps = split_char_spec(s, '\n');
    let k = ps.len() as int;
    ps.take(k - 1).map_values(|l: Seq<char>| strip_cr(l)) + if ps[k - 1].len() == 0 {
        Seq::<Seq<char>>::empty()
    } else {
        seq![ps[k - 1]]
    }
}

pub fn split_lines(v: &Vec<char>) -> (r: Vec<Vec<char>>)
    ensures
        views(r@) == lines_spec(v@),
{
    let pieces = split_char(v, '\n');
    let np = pieces.len();
    assert(np >= 1);
    let mut r: Vec<Vec<char>> = Vec::new();
    let mut i: usize = 0;
    while i < np - 1
        invariant
            0 <= i <= np - 1,
            np == pieces.len(),
            np >= 1,
            views(r@) =~= views(pieces@).take(i as int).map_values(|l: Seq<char>| strip_cr(l)),
        decreases np - 1 - i,
    {
        let mut p = clone_chars(&pieces[i]);
        let pl = p.len();
        if pl > 0 && p[pl - 1] == '\r' {
            p.pop();
        }
        assert(p@ == strip_cr(pieces@[i as int]@));
        proof {
            let f = |l: Seq<char>| strip_cr(l);
            assert(views(pieces@).take(i + 1) =~= views(pieces@).take(i as int).push(
                pieces@[i as int]@,
            ));
            assert(views(pieces@).take(i + 1).map_values(f) =~= views(pieces@).take(
                i as int,
            ).map_values(f).push(f(pieces@[i as int]@)));
            assert(views(r@.push(p)) =~= views(r@).push(p@));
        }
        r.push(p);
        i = i + 1;
    }
    let last = &pieces[np - 1];
    if last.len() > 0 {
        let l = clone_chars(last);
        r.push(l);
    }
    proof {
        assert(views(pieces@).take(np - 1) =~= split_char_spec(v@, '\n').take(np - 1));
        assert(views(r@) =~= lines_spec(v@));
    }
    r
}

/// The lines of `s` with their `'\n'` terminators kept: each piece ends with
/// `'\n'` except possibly the last; empty input has no lines.
pub open spec fn lines_keep_endings(s: Seq<char>) -> Seq<Seq<char>>
    decreases s.len(),
{
    if s.len() == 0 {
        Seq::empty()
    } else {
        let f = find_char(s, '\n');
        if f == s.len() {
            seq![s]
        } else if 0 <= f < s.len() {
            seq![s.take(f + 1)] + lines_keep_endings(s.skip(f + 1))
        } else {
            seq![s]
        }
    }
}

proof fn lemma_lke_step(p: Seq<char>, s: Seq<char>)
    requires
        !p.contains('\n'),
        s.len() > 0,
        s[0] == '\n',
    ensures
        lines_keep_endings(p + s) == seq![p.push('\n')] + lines_keep_endings(s.drop_first()),
{
    lemma_find_char_concat(p, s, '\n');
    assert(find_char(s, '\n') == 0);
    let f = p.len() as int;
    assert(find_char(p + s, '\n') == f);
    assert((p + s).len() > f);
    assert((p + s).take(f + 1) =~= p.push('\n'));
    assert((p + s).skip(f + 1) =~= s.drop_first());
}

proof fn lemma_lke_no_newline(s: Seq<char>)
    requires
        !s.contains('\n'),
    ensures
        lines_keep_endings(s) == if s.len() == 0 {
            Seq::<Seq<char>>::empty()
        } else {
            seq![s]
        },
{
    lemma_find_char(s, '\n');
    if s.len() > 0 && find_char(s, '\n') < s.len() {
        assert(s.contains('\n')) by {
            assert(s[find_char(s, '\n')] == '\n');
        }
    }
}

pub fn split_lines_keep_endings(v: &Vec<char>) -> (r: Vec<Vec<char>>)
    ensures
        views(r@) == lines_keep_endings(v@),
{
    let n = v.len();
    let mut r: Vec<Vec<char>> = Vec::new();
    let mut cur: Vec<char> = Vec::new();
    let mut i: usize = 0;
    proof {
        assert(views(r@) =~= Seq::<Seq<char>>::empty());
        assert(cur@ + v@.skip(0) =~= v@);
        assert(views(r@) + lines_keep_endings(v@) =~= lines_keep_endings(v@));
    }
    while i < n
        invariant
            0 <= i <= n,
            n == v.len(),
            !cur@.contains('\n'),
            lines_keep_endings(v@) == views(r@) + lines_keep_endings(cur@ + v@.skip(i as int)),
        decreases n - i,
    {
        let ch = v[i];
        if ch == '\n' {
            proof {
                let rest = v@.skip(i as int);
                assert(rest[0] == '\n');
                lemma_lke_step(cur@, rest);
                assert(rest.drop_first() =~= v@.skip(i + 1));
            }
            cur.push('\n');
            proof {
                assert(views(r@.push(cur)) =~= views(r@) + seq![cur@]);
                assert(views(r@) + (seq![cur@] + lines_keep_endings(v@.skip(i + 1))) =~= views(
                    r@.push(cur),
                ) + lines_keep_endings(v@.skip(i + 1)));
            }
            r.push(cur);
            cur = Vec::new();
            proof {
                assert(cur@ + v@.skip(i + 1) =~= v@.skip(i + 1));
            }
        } else {
            proof {
                assert(cur@ + v@.skip(i as int) =~= cur@.push(ch) + v@.skip(i + 1));
                assert(!cur@.push(ch).contains('\n')) by {
                    assert(forall|j: int|
                        0 <= j < cur@.push(ch).len() ==> cur@.push(ch)[j] == (if j < cur@.len() {
                            cur@[j]
                        } else {
                            ch
                        }));
                }
            }
            cur.push(ch);
        }
        i = i + 1;
    }
    proof {
        assert(cur@ + v@.skip(n as int) =~= cur@);
        lemma_lke_no_newline(cur@);
    }
    if cur.len() > 0 {
        proof {
            assert(views(r@.push(cur)) =~= views(r@) + seq![cur@]);
        }
        r.push(cur);
    } else {
        proof {
            assert(views(r@) + Seq::<Seq<char>>::empty() =~= views(r@));
        }
    }
    r
}

/// Every character of a split piece is a character of the input.
pub proof fn lemma_split_chars(s: Seq<char>, c: char)
    ensures
        forall|k: int, j: int|
            0 <= k < split_char_spec(s, c).len() && 0 <= j < split_char_spec(s, c)[k].len()
                ==> s.contains(#[trigger] split_char_spec(s, c)[k][j]),
    decreases s.len(),
{
    lemma_find_char(s, c);
    let f = find_char(s, c);
    if f == s.len() {
        assert forall|k: int, j: int|
            0 <= k < split_char_spec(s, c).len() && 0 <= j < split_char_spec(s, c)[k].len()
                implies s.contains(#[trigger] split_char_spec(s, c)[k][j]) by {
            assert(split_char_spec(s, c)[k] == s);
        }
    } else {
        lemma_split_chars(s.skip(f + 1), c);
        assert forall|k: int, j: int|
            0 <= k < split_char_spec(s, c).len() && 0 <= j < split_char_spec(s, c)[k].len()
                implies s.contains(#[trigger] split_char_spec(s, c)[k][j]) by {
            if k == 0 {
                assert(split_char_spec(s, c)[0] == s.take(f));
                assert(s.take(f)[j] == s[j]);
            } else {
                assert(split_char_spec(s, c)[k] == split_char_spec(s.skip(f + 1), c)[k - 1]);
                assert(s.skip(f + 1).contains(split_char_spec(s, c)[k][j]));
                let x = choose|x: int|
                    0 <= x < s.skip(f + 1).len() && (#[trigger] s.skip(f + 1)[x])
                        == split_char_spec(s, c)[k][j];
                assert(s[x + f + 1] == split_char_spec(s, c)[k][j]);
            }
        }
    }
}

/// Every character of the trimmed text is a character of the input.
pub proof fn lemma_trim_chars_sub(s: Seq<char>)
    ensures
        forall|j: int| 0 <= j < trim_spec(s).len() ==> s.contains(#[trigger] trim_spec(s)[j]),
{
    lemma_trim_front_chars_sub(s);
    let a = trim_front_spec(s);
    lemma_trim_back_chars_sub(a);
    assert forall|j: int| 0 <= j < trim_spec(s).len() implies s.contains(
        #[trigger] trim_spec(s)[j],
    ) by {
        assert(a.contains(trim_spec(s)[j]));
        let x = choose|x: int| 0 <= x < a.len() && a[x] == trim_spec(s)[j];
        assert(s.contains(a[x]));
    }
}

proof fn lemma_trim_front_chars_sub(s: Seq<char>)
    ensures
        forall|j: int|
            0 <= j < trim_front_spec(s).len() ==> s.contains(#[trigger] trim_front_spec(s)[j]),
    decreases s.len(),
{
    if s.len() > 0 && is_space_char(s[0]) {
        lemma_trim_front_chars_sub(s.drop_first());
        assert forall|j: int| 0 <= j < trim_front_spec(s).len() implies s.contains(
            #[trigger] trim_front_spec(s)[j],
        ) by {
            assert(trim_front_spec(s) == trim_front_spec(s.drop_first()));
            assert(s.drop_first().contains(trim_front_spec(s.drop_first())[j]));
            assert(s.drop_first().contains(trim_front_spec(s)[j]));
            let x = choose|x: int|
                0 <= x < s.drop_first().len() && s.drop_first()[x] == trim_front_spec(s)[j];
            assert(s[x + 1] == trim_front_spec(s)[j]);
        }
    }
}

pub proof fn lemma_trim_back_chars_sub(s: Seq<char>)
    ensures
        forall|j: int|
            0 <= j < trim_back_spec(s).len() ==> s.contains(#[trigger] trim_back_spec(s)[j]),
    decreases s.len(),
{
    if s.len() > 0 && is_space_char(s.last()) {
        lemma_trim_back_chars_sub(s.drop_last());
        assert forall|j: int| 0 <= j < trim_back_spec(s).len() implies s.contains(
            #[trigger] trim_back_spec(s)[j],
        ) by {
            assert(trim_back_spec(s) == trim_back_spec(s.drop_last()));
            assert(s.drop_last().contains(trim_back_spec(s.drop_last())[j]));
            assert(s.drop_last().contains(trim_back_spec(s)[j]));
            let x = choose|x: int|
                0 <= x < s.drop_last().len() && s.drop_last()[x] == trim_back_spec(s)[j];
            assert(s[x] == trim_back_spec(s)[j]);
        }
    }
}

/// Every character of every line is a character of the input.
pub proof fn lemma_lines_chars(s: Seq<char>)
    ensures
        forall|k: int, j: int|
            0 <= k < lines_spec(s).len() && 0 <= j < lines_spec(s)[k].len() ==> s.contains(
                #[trigger] lines_spec(s)[k][j],
            ),
{
    lemma_split_chars(s, '\n');
    let ps = split_char_spec(s, '\n');
    let kk = ps.len() as int;
    assert forall|k: int, j: int|
        0 <= k < lines_spec(s).len() && 0 <= j < lines_spec(s)[k].len() implies s.contains(
        #[trigger] lines_spec(s)[k][j],
    ) by {
        if k < kk - 1 {
            assert(lines_spec(s)[k] == strip_cr(ps[k]));
            assert(lines_spec(s)[k][j] == ps[k][j]);
        } else {
            assert(lines_spec(s)[k] == ps[kk - 1]);
            assert(lines_spec(s)[k][j] == ps[kk - 1][j]);
        }
    }
}

/// ASCII lower-casing of one character; other characters pass unchanged.
pub open spec fn lower_char_spec(c: char) -> char {
    if 'A' <= c && c <= 'Z' {
        ((c as u8) + 32) as char
    } else {
        c
    }
}

pub open spec fn lower_spec(s: Seq<char>) -> Seq<char> {
    s.map_values(|c: char| lower_char_spec(c))
}

pub fn lower_char(c: char) -> (r: char)
    ensures
        r == lower_char_spec(c),
{
    if 'A' <= c && c <= 'Z' {
        ((c as u8) + 32) as char
    } else {
        c
    }
}

pub fn lower_chars(v: &Vec<char>) -> (r: Vec<char>)
    ensures
        r@ == lower_spec(v@),
{
    let n = v.len();
    let mut r: Vec<char> = Vec::new();
    let mut i: usize = 0;
    while i < n
        invariant
            0 <= i <= n,
            n == v.len(),
            r@.len() == i,
            forall|j: int| 0 <= j < i ==> r@[j] == lower_char_spec(v@[j]),
        decreases n - i,
    {
        let c = lower_char(v[i]);
        r.push(c);
        i = i + 1;
    }
    proof {
        assert(r@ =~= lower_spec(v@));
    }
    r
}

/// Whether `sub` occurs in `s` as a contiguous run.
pub open spec fn contains_seq(s: Seq<char>, sub: Seq<char>) -> bool {
    exists|i: int|
        0 <= i <= s.len() - sub.len() && (#[trigger] s.subrange(i, i + sub.len())) == sub
}

pub fn contains_sub(s: &Vec<char>, sub: &Vec<char>) -> (b: bool)
    ensures
        b == contains_seq(s@, sub@),
{
    let n = s.len();
    let m = sub.len();
    if m == 0 {
        proof {
            assert(s@.subrange(0, 0) =~= sub@);
            assert(contains_seq(s@, sub@)) by {
                assert(0 <= 0 <= s@.len() - sub@.len() && s@.subrange(
                    0,
                    0 + sub@.len() as int,
                ) == sub@);
            }
        }
        return true;
    }
    if m > n {
        proof {
            assert(!contains_seq(s@, sub@));
        }
        return false;
    }
    let last = n - m;
    let mut i: usize = 0;
    while i <= last
        invariant
            0 <= i <= last + 1,
            m <= n,
            m >= 1,
            last == n - m,
            n == s.len(),
            m == sub.len(),
            forall|t: int| 0 <= t < i ==> (#[trigger] s@.subrange(t, t + m)) != sub@,
        decreases last + 1 - i,
    {
        let mut j: usize = 0;
        let mut matches_here: bool = true;
        while j < m
            invariant
                0 <= j <= m,
                0 <= i <= n - m,
                n == s.len(),
                m == sub.len(),
                matches_here ==> forall|t: int| 0 <= t < j ==> s@[i + t] == sub@[t],
                !matches_here ==> s@.subrange(i as int, i + m) != sub@,
            decreases m - j,
        {
            if s[i + j] != sub[j] {
                proof {
                    assert(s@.subrange(i as int, i + m)[j as int] == s@[i + j]);
                    assert(s@.subrange(i as int, i + m) != sub@);
                }
                matches_here = false;
                j = m;
            } else {
                j = j + 1;
            }
        }
        if matches_here {
            proof {
                assert(s@.subrange(i as int, i + m) =~= sub@);
                assert(contains_seq(s@, sub@)) by {
                    assert(0 <= i as int <= s@.len() - sub@.len() && s@.subrange(
                        i as int,
                        i + m,
                    ) == sub@);
                }
            }
            return true;
        }
        i = i + 1;
    }
    proof {
        assert(!contains_seq(s@, sub@));
    }
    false
}

/// Every character of every ending-preserving line is a character of the
/// input.
pub proof fn lemma_lke_chars(s: Seq<char>)
    ensures
        forall|k: int, j: int|
            0 <= k < lines_keep_endings(s).len() && 0 <= j < lines_keep_endings(s)[k].len()
                ==> s.contains(#[trigger] lines_keep_endings(s)[k][j]),
    decreases s.len(),
{
    if s.len() > 0 {
        lemma_find_char(s, '\n');
        let f = find_char(s, '\n');
        if f == s.len() {
            assert forall|k: int, j: int|
                0 <= k < lines_keep_endings(s).len() && 0 <= j < lines_keep_endings(s)[k].len()
                    implies s.contains(#[trigger] lines_keep_endings(s)[k][j]) by {
                assert(lines_keep_endings(s)[k] == s);
            }
        } else {
            lemma_lke_chars(s.skip(f + 1));
            assert forall|k: int, j: int|
                0 <= k < lines_keep_endings(s).len() && 0 <= j < lines_keep_endings(s)[k].len()
                    implies s.contains(#[trigger] lines_keep_endings(s)[k][j]) by {
                if k == 0 {
                    assert(lines_keep_endings(s)[0] == s.take(f + 1));
                    assert(s.take(f + 1)[j] == s[j]);
                } else {
                    assert(lines_keep_endings(s)[k] == lines_keep_endings(s.skip(f + 1))[k - 1]);
                    assert(s.skip(f + 1).contains(lines_keep_endings(s)[k][j]));
                    let x = choose|x: int|
                        0 <= x < s.skip(f + 1).len() && (#[trigger] s.skip(f + 1)[x])
                            == lines_keep_endings(s)[k][j];
                    assert(s[x + f + 1] == lines_keep_endings(s)[k][j]);
                }
            }
        }
    }
}

/// `n` copies of `c`.
pub open spec fn repeat_char(c: char, n: int) -> Seq<char>
    decreases n,
{
    if n <= 0 {
        Seq::empty()
    } else {
        repeat_char(c, n - 1).push(c)
    }
}

pub fn push_repeat(dst: &mut Vec<char>, c: char, n: usize)
    ensures
        final(dst)@ == old(dst)@ + repeat_char(c, n as int),
{
    let mut i: usize = 0;
    while i < n
        invariant
            0 <= i <= n,
            dst@ == old(dst)@ + repeat_char(c, i as int),
        decreases n - i,
    {
        dst.push(c);
        i = i + 1;
    }
}

} // verus!
