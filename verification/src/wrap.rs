//! Greedy word wrapping. Widths count *visible* characters: ANSI escape
//! sequences (`ESC [ ... m`) are zero-width for layout purposes, so decorated
//! text wraps at the same points as its undecorated form.

use vstd::prelude::*;
use crate::chars::{
    is_space_char, is_space, find_char, lemma_find_char, split_char_spec, split_char, views,
    trim_spec, trim_chars, clone_chars, extend_chars,
};

verus! {

/// The number of visible characters in `s`: characters inside an
/// `ESC [ ... m` escape sequence do not count.
pub open spec fn visible_len_spec(s: Seq<char>) -> int
    decreases s.len(),
{
    if s.len() == 0 {
        0
    } else if s[0] == '\u{1b}' && s.len() >= 2 && s[1] == '[' {
        let m = find_char(s, 'm');
        if m == s.len() {
            0
        } else if 0 <= m < s.len() {
            visible_len_spec(s.skip(m + 1))
        } else {
            0
        }
    } else {
        1 + visible_len_spec(s.drop_first())
    }
}

pub proof fn lemma_visible_le_len(s: Seq<char>)
    ensures
        0 <= visible_len_spec(s) <= s.len(),
    decreases s.len(),
{
    if s.len() == 0 {
    } else if s[0] == '\u{1b}' && s.len() >= 2 && s[1] == '[' {
        lemma_find_char(s, 'm');
        let m = find_char(s, 'm');
        if m < s.len() {
            lemma_visible_le_len(s.skip(m + 1));
        }
    } else {
        lemma_visible_le_len(s.drop_first());
    }
}

/// Text with no escape character is all visible.
pub proof fn lemma_visible_no_esc(s: Seq<char>)
    requires
        !s.contains('\u{1b}'),
    ensures
        visible_len_spec(s) == s.len(),
    decreases s.len(),
{
    if s.len() > 0 {
        assert(s[0] != '\u{1b}') by {
            if s[0] == '\u{1b}' {
                assert(s.contains('\u{1b}'));
            }
        }
        assert(!s.drop_first().contains('\u{1b}')) by {
            if s.drop_first().contains('\u{1b}') {
                let j = choose|j: int|
                    0 <= j < s.drop_first().len() && s.drop_first()[j] == '\u{1b}';
                assert(s[j + 1] == '\u{1b}');
            }
        }
        lemma_visible_no_esc(s.drop_first());
    }
}

pub fn visible_len(v: &Vec<char>) -> (r: usize)
    ensures
        r == visible_len_spec(v@),
{
    let n = v.len();
    let mut r: usize = 0;
    let mut i: usize = 0;
    proof {
        assert(v@.skip(0) =~= v@);
    }
    while i < n
        invariant
            0 <= i <= n,
            n == v.len(),
            r <= i,
            visible_len_spec(v@) == r + visible_len_spec(v@.skip(i as int)),
        decreases n - i,
    {
        let ghost s = v@.skip(i as int);
        if v[i] == '\u{1b}' && i + 1 < n && v[i + 1] == '[' {
            proof {
                assert(s[0] == '\u{1b}' && s.len() >= 2 && s[1] == '[');
            }
            let mut j: usize = i;
            while j < n && v[j] != 'm'
                invariant
                    i <= j <= n,
                    n == v.len(),
                    forall|k: int| i <= k < j ==> v@[k] != 'm',
                decreases n - j,
            {
                j = j + 1;
            }
            proof {
                lemma_find_char(s, 'm');
                if j < n {
                    assert(s[j - i] == 'm');
                    assert(forall|k: int| 0 <= k < j - i ==> s[k] != 'm');
                    assert(find_char(s, 'm') == j - i) by {
                        let f = find_char(s, 'm');
                        if f < j - i {
                            assert(s[f] == 'm');
                        }
                        if f > j - i {
                            assert(s[j - i] != 'm');
                        }
                    }
                    assert(s.skip(j - i + 1) =~= v@.skip(j + 1));
                    assert(visible_len_spec(s) == visible_len_spec(v@.skip(j + 1)));
                } else {
                    assert(forall|k: int| 0 <= k < s.len() ==> s[k] != 'm');
                    assert(find_char(s, 'm') == s.len()) by {
                        let f = find_char(s, 'm');
                        if f < s.len() {
                            assert(s[f] == 'm');
                        }
                    }
                    assert(visible_len_spec(s) == 0);
                    assert(v@.skip(n as int).len() == 0);
                }
            }
            if j < n {
                i = j + 1;
            } else {
                i = n;
            }
        } else {
            proof {
                assert(s.len() > 0);
                assert(!(s[0] == '\u{1b}' && s.len() >= 2 && s[1] == '['));
                assert(s.drop_first() =~= v@.skip(i + 1));
                lemma_visible_le_len(s.drop_first());
            }
            r = r + 1;
            i = i + 1;
        }
    }
    proof {
        assert(v@.skip(n as int).len() == 0);
    }
    r
}

/// Index of the first whitespace character of `s`, or `s.len()` if none.
pub open spec fn find_space(s: Seq<char>) -> int
    decreases s.len(),
{
    if s.len() == 0 {
        0
    } else if is_space_char(s[0]) {
        0
    } else {
        1 + find_space(s.drop_first())
    }
}

pub proof fn lemma_find_space(s: Seq<char>)
    ensures
        0 <= find_space(s) <= s.len(),
        find_space(s) < s.len() ==> is_space_char(s[find_space(s)]),
        forall|j: int| 0 <= j < find_space(s) ==> !is_space_char(s[j]),
    decreases s.len(),
{
    if s.len() > 0 && !is_space_char(s[0]) {
        lemma_find_space(s.drop_first());
        let f = find_space(s);
        assert(forall|j: int| 1 <= j < f ==> s[j] == s.drop_first()[j - 1]);
    }
}

proof fn lemma_find_space_none(s: Seq<char>)
    requires
        forall|j: int| 0 <= j < s.len() ==> !is_space_char(s[j]),
    ensures
        find_space(s) == s.len(),
    decreases s.len(),
{
    if s.len() > 0 {
        assert(forall|j: int|
            0 <= j < s.drop_first().len() ==> s.drop_first()[j] == s[j + 1]);
        lemma_find_space_none(s.drop_first());
    }
}

proof fn lemma_find_space_concat(p: Seq<char>, s: Seq<char>)
    requires
        forall|j: int| 0 <= j < p.len() ==> !is_space_char(p[j]),
    ensures
        find_space(p + s) == p.len() + find_space(s),
    decreases p.len(),
{
    if p.len() == 0 {
        assert(p + s =~= s);
    } else {
        assert(!is_space_char((p + s)[0]));
        assert((p + s).drop_first() =~= p.drop_first() + s);
        assert(forall|j: int|
            0 <= j < p.drop_first().len() ==> p.drop_first()[j] == p[j + 1]);
        lemma_find_space_concat(p.drop_first(), s);
    }
}

/// The whitespace-separated words of `s`, in order, each nonempty.
pub open spec fn words_spec(s: Seq<char>) -> Seq<Seq<char>>
    decreases s.len(),
    via words_spec_decreases
{
    if s.len() == 0 {
        Seq::empty()
    } else if is_space_char(s[0]) {
        words_spec(s.drop_first())
    } else {
        seq![s.take(find_space(s))] + words_spec(s.skip(find_space(s)))
    }
}

#[via_fn]
proof fn words_spec_decreases(s: Seq<char>) {
    lemma_find_space(s);
}

/// Every word is nonempty, contains no whitespace, and draws its characters
/// from the input.
pub proof fn lemma_words_chars(s: Seq<char>)
    ensures
        forall|k: int|
            0 <= k < words_spec(s).len() ==> {
                let w = #[trigger] words_spec(s)[k];
                w.len() > 0 && (forall|j: int| 0 <= j < w.len() ==> !is_space_char(#[trigger] w[j]))
                    && (forall|j: int| 0 <= j < w.len() ==> s.contains(#[trigger] w[j]))
            },
    decreases s.len(),
{
    if s.len() == 0 {
    } else if is_space_char(s[0]) {
        lemma_words_chars(s.drop_first());
        assert forall|k: int| 0 <= k < words_spec(s).len() implies {
            let w = #[trigger] words_spec(s)[k];
            w.len() > 0 && (forall|j: int| 0 <= j < w.len() ==> !is_space_char(#[trigger] w[j]))
                && (forall|j: int| 0 <= j < w.len() ==> s.contains(#[trigger] w[j]))
        } by {
            let w = words_spec(s)[k];
            assert(w == words_spec(s.drop_first())[k]);
            assert forall|j: int| 0 <= j < w.len() implies s.contains(#[trigger] w[j]) by {
                assert(s.drop_first().contains(w[j]));
                let x = choose|x: int|
                    0 <= x < s.drop_first().len() && s.drop_first()[x] == w[j];
                assert(s[x + 1] == w[j]);
            }
        }
    } else {
        lemma_find_space(s);
        let f = find_space(s);
        lemma_words_chars(s.skip(f));
        assert forall|k: int| 0 <= k < words_spec(s).len() implies {
            let w = #[trigger] words_spec(s)[k];
            w.len() > 0 && (forall|j: int| 0 <= j < w.len() ==> !is_space_char(#[trigger] w[j]))
                && (forall|j: int| 0 <= j < w.len() ==> s.contains(#[trigger] w[j]))
        } by {
            let w = words_spec(s)[k];
            if k == 0 {
                assert(w == s.take(f));
                assert(f >= 1);
                assert forall|j: int| 0 <= j < w.len() implies !is_space_char(
                    #[trigger] w[j],
                ) by {
                    assert(w[j] == s[j]);
                }
                assert forall|j: int| 0 <= j < w.len() implies s.contains(#[trigger] w[j]) by {
                    assert(w[j] == s[j]);
                }
            } else {
                assert(w == words_spec(s.skip(f))[k - 1]);
                assert forall|j: int| 0 <= j < w.len() implies s.contains(#[trigger] w[j]) by {
                    assert(s.skip(f).contains(w[j]));
                    let x = choose|x: int| 0 <= x < s.skip(f).len() && s.skip(f)[x] == w[j];
                    assert(s[x + f] == w[j]);
                }
            }
        }
    }
}

pub fn split_words(v: &Vec<char>) -> (r: Vec<Vec<char>>)
    ensures
        views(r@) == words_spec(v@),
{
    let n = v.len();
    let mut r: Vec<Vec<char>> = Vec::new();
    let mut cur: Vec<char> = Vec::new();
    let mut i: usize = 0;
    proof {
        assert(views(r@) =~= Seq::<Seq<char>>::empty());
        assert(cur@ + v@.skip(0) =~= v@);
        assert(views(r@) + words_spec(v@) =~= words_spec(v@));
    }
    while i < n
        invariant
            0 <= i <= n,
            n == v.len(),
            forall|j: int| 0 <= j < cur@.len() ==> !is_space_char(#[trigger] cur@[j]),
            words_spec(v@) == views(r@) + words_spec(cur@ + v@.skip(i as int)),
        decreases n - i,
    {
        let ch = v[i];
        if is_space(ch) {
            if cur.len() > 0 {
                proof {
                    let rest = v@.skip(i as int);
                    lemma_find_space_concat(cur@, rest);
                    assert(find_space(rest) == 0);
                    let f = cur@.len() as int;
                    assert(find_space(cur@ + rest) == f);
                    assert(!is_space_char((cur@ + rest)[0]));
                    assert((cur@ + rest).take(f) =~= cur@);
                    assert((cur@ + rest).skip(f) =~= rest);
                    assert(words_spec(cur@ + rest) == seq![cur@] + words_spec(rest));
                    assert(views(r@.push(cur)) =~= views(r@) + seq![cur@]);
                    assert(views(r@) + (seq![cur@] + words_spec(rest)) =~= views(r@.push(cur))
                        + words_spec(rest));
                }
                r.push(cur);
                cur = Vec::new();
            }
            proof {
                let rest = v@.skip(i as int);
                assert(cur@ + rest =~= rest);
                assert(is_space_char(rest[0]));
                assert(rest.drop_first() =~= v@.skip(i + 1));
                assert(cur@ + v@.skip(i + 1) =~= v@.skip(i + 1));
            }
        } else {
            proof {
                assert(cur@ + v@.skip(i as int) =~= cur@.push(ch) + v@.skip(i + 1));
                assert(forall|j: int|
                    0 <= j < cur@.push(ch).len() ==> cur@.push(ch)[j] == (if j < cur@.len() {
                        cur@[j]
                    } else {
                        ch
                    }));
            }
            cur.push(ch);
        }
        i = i + 1;
    }
    proof {
        assert(cur@ + v@.skip(n as int) =~= cur@);
    }
    if cur.len() > 0 {
        proof {
            lemma_find_space_none(cur@);
            let f = cur@.len() as int;
            assert(cur@.take(f) =~= cur@);
            assert(cur@.skip(f).len() == 0);
            assert(words_spec(cur@) == seq![cur@] + words_spec(cur@.skip(f)));
            assert(seq![cur@] + Seq::<Seq<char>>::empty() =~= seq![cur@]);
            assert(views(r@.push(cur)) =~= views(r@) + seq![cur@]);
        }
        r.push(cur);
    } else {
        proof {
            assert(views(r@) + Seq::<Seq<char>>::empty() =~= views(r@));
        }
    }
    r
}

/// One greedy step: lines so far, the line under construction, the words
/// still to place.
pub open spec fn wrap_acc(
    lines: Seq<Seq<char>>,
    cur: Seq<char>,
    ws: Seq<Seq<char>>,
    width: int,
) -> Seq<Seq<char>>
    decreases ws.len(),
{
    if ws.len() == 0 {
        if cur.len() == 0 {
            lines
        } else {
            lines.push(cur)
        }
    } else {
        let w = ws[0];
        let test = if cur.len() == 0 {
            w
        } else {
            cur + seq![' '] + w
        };
        if visible_len_spec(test) <= width {
            wrap_acc(lines, test, ws.drop_first(), width)
        } else {
            let nl = if cur.len() == 0 {
                lines
            } else {
                lines.push(cur)
            };
            wrap_acc(nl, w, ws.drop_first(), width)
        }
    }
}

/// Greedy word wrap: words accumulate on a line while its visible length
/// stays within `width`; a word that does not fit starts a new line.
pub open spec fn wrap_words_spec(ws: Seq<Seq<char>>, width: int) -> Seq<Seq<char>> {
    wrap_acc(Seq::empty(), Seq::empty(), ws, width)
}

pub open spec fn wrap_text_spec(s: Seq<char>, width: int) -> Seq<Seq<char>> {
    wrap_words_spec(words_spec(s), width)
}

pub fn wrap_words(words: &Vec<Vec<char>>, width: usize) -> (r: Vec<Vec<char>>)
    ensures
        views(r@) == wrap_words_spec(views(words@), width as int),
{
    let n = words.len();
    let mut r: Vec<Vec<char>> = Vec::new();
    let mut cur: Vec<char> = Vec::new();
    let mut i: usize = 0;
    proof {
        assert(views(r@) =~= Seq::<Seq<char>>::empty());
        assert(views(words@).skip(0) =~= views(words@));
    }
    while i < n
        invariant
            0 <= i <= n,
            n == words.len(),
            wrap_words_spec(views(words@), width as int) == wrap_acc(
                views(r@),
                cur@,
                views(words@).skip(i as int),
                width as int,
            ),
        decreases n - i,
    {
        let ghost rest = views(words@).skip(i as int);
        proof {
            assert(rest[0] == words@[i as int]@);
            assert(rest.drop_first() =~= views(words@).skip(i + 1));
        }
        let w = &words[i];
        let mut test: Vec<char>;
        if cur.len() == 0 {
            test = clone_chars(w);
        } else {
            test = clone_chars(&cur);
            test.push(' ');
            extend_chars(&mut test, w);
            proof {
                assert(test@ =~= cur@ + seq![' '] + w@);
            }
        }
        let ghost r0 = views(r@);
        let ghost cur0 = cur@;
        let ghost test_sp = if cur0.len() == 0 {
            rest[0]
        } else {
            cur0 + seq![' '] + rest[0]
        };
        proof {
            assert(test@ == test_sp);
        }
        let vl = visible_len(&test);
        if vl <= width {
            proof {
                assert(wrap_acc(r0, cur0, rest, width as int) == wrap_acc(
                    r0,
                    test_sp,
                    rest.drop_first(),
                    width as int,
                ));
            }
            cur = test;
        } else {
            if cur.len() > 0 {
                proof {
                    assert(wrap_acc(r0, cur0, rest, width as int) == wrap_acc(
                        r0.push(cur0),
                        rest[0],
                        rest.drop_first(),
                        width as int,
                    ));
                }
                r.push(cur);
                proof {
                    assert(views(r@) =~= r0.push(cur0));
                }
            } else {
                proof {
                    assert(wrap_acc(r0, cur0, rest, width as int) == wrap_acc(
                        r0,
                        rest[0],
                        rest.drop_first(),
                        width as int,
                    ));
                }
            }
            cur = clone_chars(w);
        }
        i = i + 1;
    }
    proof {
        assert(views(words@).skip(n as int).len() == 0);
    }
    if cur.len() > 0 {
        proof {
            assert(views(r@.push(cur)) =~= views(r@) + seq![cur@]);
        }
        r.push(cur);
    }
    r
}

pub fn wrap_text(v: &Vec<char>, width: usize) -> (r: Vec<Vec<char>>)
    ensures
        views(r@) == wrap_text_spec(v@, width as int),
{
    let ws = split_words(v);
    wrap_words(&ws, width)
}

/// The words of `ws` joined by single spaces.
pub open spec fn join_words(ws: Seq<Seq<char>>) -> Seq<char>
    decreases ws.len(),
{
    if ws.len() == 0 {
        Seq::empty()
    } else if ws.len() == 1 {
        ws[0]
    } else {
        ws[0] + seq![' '] + join_words(ws.drop_first())
    }
}

proof fn lemma_wrap_full(lines: Seq<Seq<char>>, cur: Seq<char>, ws: Seq<Seq<char>>, width: int)
    requires
        forall|k: int| 0 <= k < ws.len() ==> (#[trigger] ws[k]).len() > 0,
        !cur.contains('\u{1b}'),
        forall|k: int| 0 <= k < ws.len() ==> !(#[trigger] ws[k]).contains('\u{1b}'),
        ({
            let full = if ws.len() == 0 {
                cur
            } else if cur.len() == 0 {
                join_words(ws)
            } else {
                cur + seq![' '] + join_words(ws)
            };
            full.len() <= width
        }),
    ensures
        ({
            let full = if ws.len() == 0 {
                cur
            } else if cur.len() == 0 {
                join_words(ws)
            } else {
                cur + seq![' '] + join_words(ws)
            };
            wrap_acc(lines, cur, ws, width) == if full.len() == 0 {
                lines
            } else {
                lines.push(full)
            }
        }),
    decreases ws.len(),
{
    let full = if ws.len() == 0 {
        cur
    } else if cur.len() == 0 {
        join_words(ws)
    } else {
        cur + seq![' '] + join_words(ws)
    };
    if ws.len() == 0 {
    } else {
        let w = ws[0];
        let test = if cur.len() == 0 {
            w
        } else {
            cur + seq![' '] + w
        };
        assert(!test.contains('\u{1b}')) by {
            if test.contains('\u{1b}') {
                let j = choose|j: int| 0 <= j < test.len() && test[j] == '\u{1b}';
                if cur.len() == 0 {
                } else {
                    if j < cur.len() {
                        assert(cur[j] == '\u{1b}');
                    } else if j == cur.len() {
                    } else {
                        assert(w[j - cur.len() - 1] == '\u{1b}');
                    }
                }
            }
        }
        let rest = ws.drop_first();
        if rest.len() == 0 {
            assert(join_words(ws) == w);
            assert(full =~= test);
        } else {
            assert(join_words(ws) == w + seq![' '] + join_words(rest));
            assert(full =~= test + seq![' '] + join_words(rest));
        }
        assert(test.len() <= full.len());
        lemma_visible_no_esc(test);
        assert(visible_len_spec(test) <= width);
        assert(test.len() > 0);
        assert(forall|k: int| 0 <= k < rest.len() ==> rest[k] == ws[k + 1]);
        lemma_wrap_full(lines, test, rest, width);
        let full2 = if rest.len() == 0 {
            test
        } else {
            test + seq![' '] + join_words(rest)
        };
        assert(full2 =~= full);
    }
}

/// Wrapping cannot change text that already fits: a normalized line (its
/// words joined by single spaces, no escape characters) whose length is
/// within the width wraps to exactly itself.
pub proof fn lemma_wrap_narrow(t: Seq<char>, width: int)
    requires
        t == join_words(words_spec(t)),
        t.len() > 0,
        t.len() <= width,
        !t.contains('\u{1b}'),
    ensures
        wrap_text_spec(t, width) == seq![t],
{
    lemma_words_chars(t);
    let ws = words_spec(t);
    assert forall|k: int| 0 <= k < ws.len() implies !(#[trigger] ws[k]).contains('\u{1b}') by {
        if ws[k].contains('\u{1b}') {
            let j = choose|j: int| 0 <= j < ws[k].len() && ws[k][j] == '\u{1b}';
            assert(t.contains(ws[k][j]));
        }
    }
    lemma_wrap_full(Seq::empty(), Seq::empty(), ws, width);
    if ws.len() == 0 {
        assert(join_words(ws).len() == 0);
    }
    assert(Seq::<Seq<char>>::empty().push(t) =~= seq![t]);
}

/// Effective content width once a fixed indent is reserved; at least one
/// column so progress is always possible.
pub open spec fn eff_width(width: int, indent: int) -> int {
    if width - indent >= 1 {
        width - indent
    } else {
        1
    }
}

pub fn eff_width_exec(width: usize, indent: usize) -> (r: usize)
    ensures
        r == eff_width(width as int, indent as int),
{
    if width > indent {
        width - indent
    } else {
        1
    }
}

/// The plain-paragraph indent.
pub open spec fn ind2() -> Seq<char> {
    seq![' ', ' ']
}

/// The first-line prefix of a list item: indent, bullet, space.
pub open spec fn bullet4() -> Seq<char> {
    seq![' ', ' ', '\u{2022}', ' ']
}

/// The continuation prefix of a list item: blanks aligning under the text.
pub open spec fn cont4() -> Seq<char> {
    seq![' ', ' ', ' ', ' ']
}

/// Lines joined with a newline after every line.
pub open spec fn joined(ls: Seq<Seq<char>>) -> Seq<char>
    decreases ls.len(),
{
    if ls.len() == 0 {
        Seq::empty()
    } else {
        ls.first() + seq!['\n'] + joined(ls.drop_first())
    }
}

pub proof fn lemma_joined_push(ls: Seq<Seq<char>>, x: Seq<char>)
    ensures
        joined(ls.push(x)) == joined(ls) + x + seq!['\n'],
    decreases ls.len(),
{
    if ls.len() == 0 {
        assert(ls.push(x).first() == x);
        assert(ls.push(x).drop_first() =~= Seq::<Seq<char>>::empty());
        assert(joined(Seq::<Seq<char>>::empty()) == Seq::<char>::empty());
        assert(joined(ls.push(x)) == x + seq!['\n'] + Seq::<char>::empty());
        assert(x + seq!['\n'] + Seq::<char>::empty() =~= joined(ls) + x + seq!['\n']);
    } else {
        assert(ls.push(x).first() == ls.first());
        assert(ls.push(x).drop_first() =~= ls.drop_first().push(x));
        lemma_joined_push(ls.drop_first(), x);
        assert(ls.first() + seq!['\n'] + (joined(ls.drop_first()) + x + seq!['\n']) =~= joined(
            ls,
        ) + x + seq!['\n']);
    }
}

/// The rendered lines of one list item whose trimmed text is `t`.
pub open spec fn item_lines(t: Seq<char>, width: int) -> Seq<Seq<char>> {
    wrap_text_spec(t, eff_width(width, 4)).map(
        |k: int, l: Seq<char>|
            (if k == 0 {
                bullet4()
            } else {
                cont4()
            }) + l,
    )
}

/// Every list item's first rendered line leads with the bullet marker and a
/// space; every continuation line is indented with blanks to align under the
/// item's first character, not under the bullet.
pub proof fn lemma_list_item_indent(t: Seq<char>, width: int)
    ensures
        forall|k: int|
            0 <= k < item_lines(t, width).len() ==> (#[trigger] item_lines(t, width)[k]).take(4)
                == (if k == 0 {
                bullet4()
            } else {
                cont4()
            }),
{
    assert forall|k: int| 0 <= k < item_lines(t, width).len() implies (#[trigger] item_lines(
        t,
        width,
    )[k]).take(4) == (if k == 0 {
        bullet4()
    } else {
        cont4()
    }) by {
        let pre = if k == 0 {
            bullet4()
        } else {
            cont4()
        };
        let l = wrap_text_spec(t, eff_width(width, 4))[k];
        assert(item_lines(t, width)[k] == pre + l);
        assert((pre + l).take(4) =~= pre);
    }
}

/// Appended text for one item piece of a bullet buffer.
pub open spec fn item_text(p: Seq<char>, width: int) -> Seq<char> {
    let t = trim_spec(p);
    if t.len() == 0 {
        Seq::empty()
    } else {
        joined(item_lines(t, width))
    }
}

pub open spec fn items_text(pieces: Seq<Seq<char>>, width: int) -> Seq<char>
    decreases pieces.len(),
{
    if pieces.len() == 0 {
        Seq::empty()
    } else {
        item_text(pieces.first(), width) + items_text(pieces.drop_first(), width)
    }
}

proof fn lemma_items_push(pieces: Seq<Seq<char>>, x: Seq<char>, width: int)
    ensures
        items_text(pieces.push(x), width) == items_text(pieces, width) + item_text(x, width),
    decreases pieces.len(),
{
    if pieces.len() == 0 {
        assert(pieces.push(x).first() == x);
        assert(pieces.push(x).drop_first() =~= Seq::<Seq<char>>::empty());
        assert(items_text(Seq::<Seq<char>>::empty(), width) == Seq::<char>::empty());
        assert(items_text(pieces.push(x), width) == item_text(x, width) + Seq::<char>::empty());
        assert(item_text(x, width) + Seq::<char>::empty() =~= items_text(pieces, width)
            + item_text(x, width));
    } else {
        assert(pieces.push(x).first() == pieces.first());
        assert(pieces.push(x).drop_first() =~= pieces.drop_first().push(x));
        lemma_items_push(pieces.drop_first(), x, width);
        assert(item_text(pieces.first(), width) + (items_text(pieces.drop_first(), width)
            + item_text(x, width)) =~= items_text(pieces, width) + item_text(x, width));
    }
}

/// What flushing a nonempty inline buffer appends to the output: bullet
/// buffers render as independent list items, anything else as an indented
/// paragraph; an empty buffer appends nothing.
pub open spec fn para_flush_spec(buf: Seq<char>, width: int) -> Seq<char> {
    if buf.len() == 0 {
        Seq::empty()
    } else if buf[0] == '\u{2022}' {
        items_text(split_char_spec(buf, '\u{2022}').drop_first(), width)
    } else {
        joined(
            wrap_text_spec(buf, eff_width(width, 2)).map_values(|l: Seq<char>| ind2() + l),
        )
    }
}

/// Wraps the buffer and appends the rendered lines to `out`.
pub fn flush_paragraph_into(out: &mut Vec<char>, buf: &Vec<char>, width: usize)
    ensures
        final(out)@ == old(out)@ + para_flush_spec(buf@, width as int),
{
    if buf.len() == 0 {
        proof {
            assert(old(out)@ + para_flush_spec(buf@, width as int) =~= old(out)@);
        }
        return ;
    }
    if buf[0] == '\u{2022}' {
        let pieces = split_char(buf, '\u{2022}');
        let np = pieces.len();
        let ghost ps = views(pieces@).drop_first();
        let mut i: usize = 1;
        proof {
            assert(ps.subrange(0, 0).len() == 0);
            assert(out@ + items_text(ps.subrange(0, 0), width as int) =~= out@);
        }
        while i < np
            invariant
                1 <= i <= np,
                np == pieces.len(),
                np >= 1,
                width <= usize::MAX,
                ps == views(pieces@).drop_first(),
                out@ == old(out)@ + items_text(ps.subrange(0, i - 1), width as int),
            decreases np - i,
        {
            let t = trim_chars(&pieces[i]);
            proof {
                assert(ps[i - 1] == pieces@[i as int]@);
                assert(ps.subrange(0, i as int) =~= ps.subrange(0, i - 1).push(ps[i - 1]));
                lemma_items_push(ps.subrange(0, i - 1), ps[i - 1], width as int);
            }
            if t.len() > 0 {
                let ew = eff_width_exec(width, 4);
                let ls = wrap_text(&t, ew);
                let nl = ls.len();
                let ghost il = item_lines(t@, width as int);
                proof {
                    assert(il.len() == nl);
                    assert(out@ + joined(il.subrange(0, 0)) =~= out@);
                }
                let ghost out_entry = out@;
                let mut k: usize = 0;
                while k < nl
                    invariant
                        0 <= k <= nl,
                        nl == ls.len(),
                        il == item_lines(t@, width as int),
                        il.len() == nl,
                        views(ls@) == wrap_text_spec(t@, eff_width(width as int, 4)),
                        out@ == out_entry + joined(il.subrange(0, k as int)),
                    decreases nl - k,
                {
                    if k == 0 {
                        out.push(' ');
                        out.push(' ');
                        out.push('\u{2022}');
                        out.push(' ');
                    } else {
                        out.push(' ');
                        out.push(' ');
                        out.push(' ');
                        out.push(' ');
                    }
                    extend_chars(out, &ls[k]);
                    out.push('\n');
                    proof {
                        let pre = if k == 0 {
                            bullet4()
                        } else {
                            cont4()
                        };
                        assert(il[k as int] == pre + views(ls@)[k as int]);
                        assert(il.subrange(0, k + 1) =~= il.subrange(0, k as int).push(
                            il[k as int],
                        ));
                        lemma_joined_push(il.subrange(0, k as int), il[k as int]);
                        assert(out@ =~= out_entry + joined(il.subrange(0, k + 1)));
                    }
                    k = k + 1;
                }
                proof {
                    assert(il.subrange(0, nl as int) =~= il);
                    assert(item_text(ps[i - 1], width as int) == joined(il)) by {
                        assert(trim_spec(ps[i - 1]) == t@);
                    }
                    assert(out@ =~= old(out)@ + items_text(ps.subrange(0, i as int), width as int));
                }
            } else {
                proof {
                    assert(item_text(ps[i - 1], width as int) =~= Seq::<char>::empty());
                    assert(out@ + Seq::<char>::empty() =~= out@);
                    assert(out@ =~= old(out)@ + items_text(ps.subrange(0, i as int), width as int));
                }
            }
            i = i + 1;
        }
        proof {
            assert(ps.subrange(0, np - 1) =~= ps);
            assert(para_flush_spec(buf@, width as int) == items_text(ps, width as int));
        }
    } else {
        let ew = eff_width_exec(width, 2);
        let ls = wrap_text(buf, ew);
        let nl = ls.len();
        let ghost ml = wrap_text_spec(buf@, eff_width(width as int, 2)).map_values(
            |l: Seq<char>| ind2() + l,
        );
        proof {
            assert(ml.len() == nl);
            assert(out@ + joined(ml.subrange(0, 0)) =~= out@);
        }
        let ghost out_entry = out@;
        let mut k: usize = 0;
        while k < nl
            invariant
                0 <= k <= nl,
                nl == ls.len(),
                ml == wrap_text_spec(buf@, eff_width(width as int, 2)).map_values(
                    |l: Seq<char>| ind2() + l,
                ),
                ml.len() == nl,
                views(ls@) == wrap_text_spec(buf@, eff_width(width as int, 2)),
                out@ == out_entry + joined(ml.subrange(0, k as int)),
            decreases nl - k,
        {
            out.push(' ');
            out.push(' ');
            extend_chars(out, &ls[k]);
            out.push('\n');
            proof {
                assert(ml[k as int] == ind2() + views(ls@)[k as int]);
                assert(ml.subrange(0, k + 1) =~= ml.subrange(0, k as int).push(ml[k as int]));
                lemma_joined_push(ml.subrange(0, k as int), ml[k as int]);
                assert(out@ =~= out_entry + joined(ml.subrange(0, k + 1)));
            }
            k = k + 1;
        }
        proof {
            assert(ml.subrange(0, nl as int) =~= ml);
        }
    }
}

pub proof fn lemma_joined_chars(ls: Seq<Seq<char>>, ok: spec_fn(char) -> bool)
    requires
        ok('\n'),
        forall|k: int, t: int|
            0 <= k < ls.len() && 0 <= t < ls[k].len() ==> ok(#[trigger] ls[k][t]),
    ensures
        forall|j: int| 0 <= j < joined(ls).len() ==> ok(#[trigger] joined(ls)[j]),
    decreases ls.len(),
{
    if ls.len() > 0 {
        assert(forall|k: int, t: int|
            0 <= k < ls.drop_first().len() && 0 <= t < ls.drop_first()[k].len() ==> ok(
                #[trigger] ls.drop_first()[k][t],
            )) by {
            assert(forall|k: int|
                0 <= k < ls.drop_first().len() ==> #[trigger] ls.drop_first()[k] == ls[k + 1]);
        }
        lemma_joined_chars(ls.drop_first(), ok);
        assert forall|j: int| 0 <= j < joined(ls).len() implies ok(#[trigger] joined(ls)[j]) by {
            let head = ls.first() + seq!['\n'];
            assert(joined(ls) == head + joined(ls.drop_first()));
            if j < head.len() {
                assert(joined(ls)[j] == head[j]);
                if j < ls.first().len() {
                    assert(head[j] == ls[0][j]);
                }
            } else {
                assert(joined(ls)[j] == joined(ls.drop_first())[j - head.len()]);
            }
        }
    }
}

proof fn lemma_wrap_acc_chars(
    lines: Seq<Seq<char>>,
    cur: Seq<char>,
    ws: Seq<Seq<char>>,
    width: int,
    ok: spec_fn(char) -> bool,
)
    requires
        ok(' '),
        forall|k: int, t: int|
            0 <= k < lines.len() && 0 <= t < lines[k].len() ==> ok(#[trigger] lines[k][t]),
        forall|t: int| 0 <= t < cur.len() ==> ok(#[trigger] cur[t]),
        forall|k: int, t: int|
            0 <= k < ws.len() && 0 <= t < ws[k].len() ==> ok(#[trigger] ws[k][t]),
    ensures
        forall|k: int, t: int|
            0 <= k < wrap_acc(lines, cur, ws, width).len() && 0 <= t < wrap_acc(
                lines,
                cur,
                ws,
                width,
            )[k].len() ==> ok(#[trigger] wrap_acc(lines, cur, ws, width)[k][t]),
    decreases ws.len(),
{
    if ws.len() == 0 {
        let res = if cur.len() == 0 {
            lines
        } else {
            lines.push(cur)
        };
        assert(wrap_acc(lines, cur, ws, width) == res);
        assert forall|k: int, t: int|
            0 <= k < res.len() && 0 <= t < res[k].len() implies ok(#[trigger] res[k][t]) by {
            if k < lines.len() {
                assert(res[k] == lines[k]);
            } else {
                assert(res[k] == cur);
            }
        }
    } else {
        let w = ws[0];
        let test = if cur.len() == 0 {
            w
        } else {
            cur + seq![' '] + w
        };
        assert(forall|t: int| 0 <= t < test.len() ==> ok(#[trigger] test[t])) by {
            assert forall|t: int| 0 <= t < test.len() implies ok(#[trigger] test[t]) by {
                if cur.len() == 0 {
                    assert(test[t] == ws[0][t]);
                } else {
                    if t < cur.len() {
                        assert(test[t] == cur[t]);
                    } else if t == cur.len() {
                        assert(test[t] == ' ');
                    } else {
                        assert(test[t] == ws[0][t - cur.len() - 1]);
                    }
                }
            }
        }
        let rest = ws.drop_first();
        assert(forall|k: int, t: int|
            0 <= k < rest.len() && 0 <= t < rest[k].len() ==> ok(#[trigger] rest[k][t])) by {
            assert(forall|k: int| 0 <= k < rest.len() ==> #[trigger] rest[k] == ws[k + 1]);
        }
        if visible_len_spec(test) <= width {
            lemma_wrap_acc_chars(lines, test, rest, width, ok);
            assert(wrap_acc(lines, cur, ws, width) == wrap_acc(lines, test, rest, width));
        } else {
            let nl = if cur.len() == 0 {
                lines
            } else {
                lines.push(cur)
            };
            assert(forall|k: int, t: int|
                0 <= k < nl.len() && 0 <= t < nl[k].len() ==> ok(#[trigger] nl[k][t])) by {
                assert forall|k: int, t: int|
                    0 <= k < nl.len() && 0 <= t < nl[k].len() implies ok(#[trigger] nl[k][t]) by {
                    if k < lines.len() {
                        assert(nl[k] == lines[k]);
                    } else {
                        assert(nl[k] == cur);
                    }
                }
            }
            assert(forall|t: int| 0 <= t < w.len() ==> ok(#[trigger] w[t])) by {
                assert(forall|t: int| 0 <= t < ws[0].len() ==> ok(#[trigger] ws[0][t]));
            }
            lemma_wrap_acc_chars(nl, w, rest, width, ok);
            assert(wrap_acc(lines, cur, ws, width) == wrap_acc(nl, w, rest, width));
        }
    }
}

/// Every character of every wrapped line is a character of the text or a
/// joining space.
pub proof fn lemma_wrap_text_chars(s: Seq<char>, width: int, ok: spec_fn(char) -> bool)
    requires
        ok(' '),
        forall|t: int| 0 <= t < s.len() ==> ok(#[trigger] s[t]),
    ensures
        forall|k: int, t: int|
            0 <= k < wrap_text_spec(s, width).len() && 0 <= t < wrap_text_spec(s, width)[k].len()
                ==> ok(#[trigger] wrap_text_spec(s, width)[k][t]),
{
    lemma_words_chars(s);
    let ws = words_spec(s);
    assert(forall|k: int, t: int|
        0 <= k < ws.len() && 0 <= t < ws[k].len() ==> ok(#[trigger] ws[k][t])) by {
        assert forall|k: int, t: int|
            0 <= k < ws.len() && 0 <= t < ws[k].len() implies ok(#[trigger] ws[k][t]) by {
            assert(s.contains(ws[k][t]));
            let x = choose|x: int| 0 <= x < s.len() && s[x] == ws[k][t];
            assert(ok(s[x]));
        }
    }
    lemma_wrap_acc_chars(Seq::empty(), Seq::empty(), ws, width, ok);
}

/// What a paragraph flush appends is drawn from the buffer, joining spaces,
/// newlines and the bullet glyph alone.
pub proof fn lemma_para_flush_chars(buf: Seq<char>, width: int, ok: spec_fn(char) -> bool)
    requires
        ok(' '),
        ok('\n'),
        ok('\u{2022}'),
        forall|t: int| 0 <= t < buf.len() ==> ok(#[trigger] buf[t]),
    ensures
        forall|j: int|
            0 <= j < para_flush_spec(buf, width).len() ==> ok(
                #[trigger] para_flush_spec(buf, width)[j],
            ),
{
    if buf.len() == 0 {
    } else if buf[0] == '\u{2022}' {
        crate::chars::lemma_split_chars(buf, '\u{2022}');
        let pieces = split_char_spec(buf, '\u{2022}').drop_first();
        assert(forall|k: int, t: int|
            0 <= k < pieces.len() && 0 <= t < pieces[k].len() ==> ok(#[trigger] pieces[k][t]))
            by {
            assert forall|k: int, t: int|
                0 <= k < pieces.len() && 0 <= t < pieces[k].len() implies ok(
                #[trigger] pieces[k][t],
            ) by {
                assert(pieces[k] == split_char_spec(buf, '\u{2022}')[k + 1]);
                assert(buf.contains(split_char_spec(buf, '\u{2022}')[k + 1][t]));
                let x = choose|x: int| 0 <= x < buf.len() && buf[x] == pieces[k][t];
                assert(ok(buf[x]));
            }
        }
        lemma_items_chars(pieces, width, ok);
    } else {
        lemma_wrap_text_chars(buf, eff_width(width, 2), ok);
        let ls = wrap_text_spec(buf, eff_width(width, 2));
        let ml = ls.map_values(|l: Seq<char>| ind2() + l);
        assert(forall|k: int, t: int|
            0 <= k < ml.len() && 0 <= t < ml[k].len() ==> ok(#[trigger] ml[k][t])) by {
            assert forall|k: int, t: int|
                0 <= k < ml.len() && 0 <= t < ml[k].len() implies ok(#[trigger] ml[k][t]) by {
                assert(ml[k] == ind2() + ls[k]);
                if t < 2 {
                    assert(ml[k][t] == ' ');
                } else {
                    assert(ml[k][t] == ls[k][t - 2]);
                }
            }
        }
        lemma_joined_chars(ml, ok);
    }
}

proof fn lemma_items_chars(pieces: Seq<Seq<char>>, width: int, ok: spec_fn(char) -> bool)
    requires
        ok(' '),
        ok('\n'),
        ok('\u{2022}'),
        forall|k: int, t: int|
            0 <= k < pieces.len() && 0 <= t < pieces[k].len() ==> ok(#[trigger] pieces[k][t]),
    ensures
        forall|j: int|
            0 <= j < items_text(pieces, width).len() ==> ok(#[trigger] items_text(pieces, width)[j]),
    decreases pieces.len(),
{
    if pieces.len() > 0 {
        let rest = pieces.drop_first();
        assert(forall|k: int, t: int|
            0 <= k < rest.len() && 0 <= t < rest[k].len() ==> ok(#[trigger] rest[k][t])) by {
            assert(forall|k: int| 0 <= k < rest.len() ==> #[trigger] rest[k] == pieces[k + 1]);
        }
        lemma_items_chars(rest, width, ok);
        lemma_item_text_chars(pieces.first(), width, ok);
        assert forall|j: int| 0 <= j < items_text(pieces, width).len() implies ok(
            #[trigger] items_text(pieces, width)[j],
        ) by {
            let head = item_text(pieces.first(), width);
            assert(items_text(pieces, width) == head + items_text(rest, width));
            if j < head.len() {
                assert(items_text(pieces, width)[j] == head[j]);
            } else {
                assert(items_text(pieces, width)[j] == items_text(rest, width)[j - head.len()]);
            }
        }
    }
}

proof fn lemma_item_text_chars(p: Seq<char>, width: int, ok: spec_fn(char) -> bool)
    requires
        ok(' '),
        ok('\n'),
        ok('\u{2022}'),
        forall|t: int| 0 <= t < p.len() ==> ok(#[trigger] p[t]),
    ensures
        forall|j: int|
            0 <= j < item_text(p, width).len() ==> ok(#[trigger] item_text(p, width)[j]),
{
    let t = trim_spec(p);
    if t.len() > 0 {
        crate::chars::lemma_trim_chars_sub(p);
        assert(forall|x: int| 0 <= x < t.len() ==> ok(#[trigger] t[x])) by {
            assert forall|x: int| 0 <= x < t.len() implies ok(#[trigger] t[x]) by {
                assert(p.contains(t[x]));
                let y = choose|y: int| 0 <= y < p.len() && p[y] == t[x];
                assert(ok(p[y]));
            }
        }
        lemma_wrap_text_chars(t, eff_width(width, 4), ok);
        let ls = wrap_text_spec(t, eff_width(width, 4));
        let il = item_lines(t, width);
        assert(forall|k: int, x: int|
            0 <= k < il.len() && 0 <= x < il[k].len() ==> ok(#[trigger] il[k][x])) by {
            assert forall|k: int, x: int|
                0 <= k < il.len() && 0 <= x < il[k].len() implies ok(#[trigger] il[k][x]) by {
                let pre = if k == 0 {
                    bullet4()
                } else {
                    cont4()
                };
                assert(il[k] == pre + ls[k]);
                if x < 4 {
                    assert(il[k][x] == pre[x]);
                } else {
                    assert(il[k][x] == ls[k][x - 4]);
                }
            }
        }
        lemma_joined_chars(il, ok);
    }
}

} // verus!
