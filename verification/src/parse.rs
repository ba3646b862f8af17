//! The pipe-table fast path: a preprocessor that normalizes table-looking
//! lines, and a strict parser that accepts an input only when it is a single
//! well-formed pipe table (header line, alignment row, data rows).

use vstd::prelude::*;
use crate::chars::{
    views, trim_spec, trim_chars, trim_matches_spec, trim_matches_char, split_char_spec,
    split_char, count_char, count_char_exec, contains_char, lines_spec, split_lines, clone_chars,
    extend_chars, repeat_char, push_repeat,
};
use crate::wrap::joined;
use crate::table::Align;

verus! {

/// The accumulator of the preprocessor: emitted text, whether a run of
/// table-looking lines is open, those lines, and the column count set by the
/// first of them.
pub ghost struct PreState {
    pub out: Seq<char>,
    pub in_table: bool,
    pub tls: Seq<Seq<char>>,
    pub cols: int,
}

pub open spec fn pre_init() -> PreState {
    PreState { out: Seq::empty(), in_table: false, tls: Seq::empty(), cols: 0 }
}

/// A table-looking line bracketed with pipes and padded with empty cells up
/// to the expected column count.
pub open spec fn normalized_line(t: Seq<char>, cols: int) -> Seq<char> {
    let a = if t.len() > 0 && t[0] != '|' {
        seq!['|'] + t
    } else {
        t
    };
    let b = if a.len() > 0 && a.last() != '|' {
        a.push('|')
    } else {
        a
    };
    let cur = count_char(b, '|') - 1;
    if cur < cols {
        b + repeat_char('|', cols - cur)
    } else {
        b
    }
}

pub open spec fn pre_step(st: PreState, line: Seq<char>) -> PreState {
    let t = trim_spec(line);
    if t.contains('|') {
        let tls0 = if st.in_table {
            st.tls
        } else {
            Seq::empty()
        };
        let cols0 = if st.in_table {
            st.cols
        } else {
            count_char(t, '|') - 1
        };
        PreState {
            out: st.out,
            in_table: true,
            tls: tls0.push(normalized_line(t, cols0)),
            cols: cols0,
        }
    } else if st.in_table {
        if t.len() > 0 {
            PreState {
                out: st.out + joined(st.tls) + t + seq!['\n'],
                in_table: false,
                tls: st.tls,
                cols: st.cols,
            }
        } else {
            st
        }
    } else {
        PreState { out: st.out + t + seq!['\n'], in_table: st.in_table, tls: st.tls, cols: st.cols }
    }
}

pub open spec fn pre_run(lines: Seq<Seq<char>>) -> PreState
    decreases lines.len(),
{
    if lines.len() == 0 {
        pre_init()
    } else {
        pre_step(pre_run(lines.drop_last()), lines.last())
    }
}

/// The preprocessed text: every line trimmed, table-looking runs normalized,
/// blank lines inside such a run dropped, a still-open run emitted at the end.
pub open spec fn preprocess_spec(s: Seq<char>) -> Seq<char> {
    let st = pre_run(lines_spec(s));
    if st.in_table {
        st.out + joined(st.tls)
    } else {
        st.out
    }
}

pub fn preprocess_table_text(text: &Vec<char>) -> (r: Vec<char>)
    ensures
        r@ == preprocess_spec(text@),
{
    let lines = split_lines(text);
    let nl = lines.len();
    let mut out: Vec<char> = Vec::new();
    let mut in_table: bool = false;
    let mut tls: Vec<Vec<char>> = Vec::new();
    let mut cols: usize = 0;
    let ghost lv = views(lines@);
    let mut i: usize = 0;
    proof {
        assert(lv.take(0).len() == 0);
        let st0 = pre_run(lv.take(0));
        assert(st0 == pre_init());
        assert(out@ =~= st0.out);
        assert(views(tls@) =~= st0.tls);
    }
    while i < nl
        invariant
            0 <= i <= nl,
            nl == lines.len(),
            lv == views(lines@),
            ({
                let st = pre_run(lv.take(i as int));
                out@ == st.out && in_table == st.in_table && views(tls@) == st.tls && (in_table
                    ==> cols as int == st.cols)
            }),
        decreases nl - i,
    {
        let ghost st_pre = pre_run(lv.take(i as int));
        proof {
            assert(lv.take(i + 1).drop_last() =~= lv.take(i as int));
            assert(lv.take(i + 1).last() == lv[i as int]);
            assert(pre_run(lv.take(i + 1)) == pre_step(st_pre, lv[i as int]));
        }
        let t = trim_chars(&lines[i]);
        if contains_char(&t, '|') {
            if !in_table {
                in_table = true;
                tls = Vec::new();
                let pipe_count = count_char_exec(&t, '|');
                proof {
                    assert(t@.contains('|'));
                    assert(count_char(t@, '|') >= 1) by {
                        crate::parse::lemma_count_pos(t@, '|');
                    }
                }
                cols = pipe_count - 1;
                proof {
                    assert(views(tls@) =~= Seq::<Seq<char>>::empty());
                }
            }
            let mut cleaned = clone_chars(&t);
            proof {
                assert(t@.len() > 0) by {
                    assert(t@.contains('|'));
                }
            }
            if cleaned[0] != '|' {
                let mut with_pipe: Vec<char> = Vec::new();
                with_pipe.push('|');
                extend_chars(&mut with_pipe, &cleaned);
                cleaned = with_pipe;
                proof {
                    assert(cleaned@ =~= seq!['|'] + t@);
                }
            }
            let cl = cleaned.len();
            if cleaned[cl - 1] != '|' {
                cleaned.push('|');
            }
            let ghost b = cleaned@;
            let cur_pipes = count_char_exec(&cleaned, '|');
            proof {
                assert(b.contains('|')) by {
                    assert(b.last() == '|' || t@.contains('|'));
                    if b.last() == '|' {
                        assert(b[b.len() - 1] == '|');
                    } else {
                        let j = choose|j: int| 0 <= j < t@.len() && t@[j] == '|';
                        if t@[0] != '|' {
                            assert(b[j + 1] == '|');
                        } else {
                            assert(b[j] == '|');
                        }
                    }
                }
                lemma_count_pos(b, '|');
            }
            let cur_cols = cur_pipes - 1;
            if cur_cols < cols {
                push_repeat(&mut cleaned, '|', cols - cur_cols);
            }
            proof {
                assert(cleaned@ == normalized_line(t@, cols as int));
                assert(views(tls@.push(cleaned)) =~= views(tls@) + seq![cleaned@]);
                assert(st_pre.tls.push(cleaned@) =~= st_pre.tls + seq![cleaned@]);
            }
            tls.push(cleaned);
            proof {
                let st_post = pre_step(st_pre, lv[i as int]);
                assert(views(tls@) =~= st_post.tls);
            }
        } else if in_table {
            if t.len() > 0 {
                in_table = false;
                let ntl = tls.len();
                let mut j: usize = 0;
                let ghost tv = views(tls@);
                proof {
                    assert(tv.take(0).len() == 0);
                    assert(out@ + joined(tv.take(0)) =~= out@);
                }
                while j < ntl
                    invariant
                        0 <= j <= ntl,
                        ntl == tls.len(),
                        tv == views(tls@),
                        out@ == st_pre.out + joined(tv.take(j as int)),
                    decreases ntl - j,
                {
                    extend_chars(&mut out, &tls[j]);
                    out.push('\n');
                    proof {
                        crate::wrap::lemma_joined_push(tv.take(j as int), tv[j as int]);
                        assert(tv.take(j + 1) =~= tv.take(j as int).push(tv[j as int]));
                        assert(out@ =~= st_pre.out + joined(tv.take(j + 1)));
                    }
                    j = j + 1;
                }
                proof {
                    assert(tv.take(ntl as int) =~= tv);
                }
                extend_chars(&mut out, &t);
                out.push('\n');
                proof {
                    assert(out@ =~= st_pre.out + joined(st_pre.tls) + t@ + seq!['\n']);
                }
            }
        } else {
            extend_chars(&mut out, &t);
            out.push('\n');
            proof {
                assert(out@ =~= st_pre.out + t@ + seq!['\n']);
            }
        }
        i = i + 1;
    }
    proof {
        assert(lv.take(nl as int) =~= lv);
    }
    if in_table {
        let ntl = tls.len();
        let ghost tv = views(tls@);
        let ghost st_fin = pre_run(lv);
        let mut j: usize = 0;
        proof {
            assert(tv.take(0).len() == 0);
            assert(out@ + joined(tv.take(0)) =~= out@);
        }
        while j < ntl
            invariant
                0 <= j <= ntl,
                ntl == tls.len(),
                tv == views(tls@),
                out@ == st_fin.out + joined(tv.take(j as int)),
            decreases ntl - j,
        {
            extend_chars(&mut out, &tls[j]);
            out.push('\n');
            proof {
                crate::wrap::lemma_joined_push(tv.take(j as int), tv[j as int]);
                assert(tv.take(j + 1) =~= tv.take(j as int).push(tv[j as int]));
                assert(out@ =~= st_fin.out + joined(tv.take(j + 1)));
            }
            j = j + 1;
        }
        proof {
            assert(tv.take(ntl as int) =~= tv);
        }
    }
    out
}

/// Triple-depth view of a vector of rows of cells.
pub open spec fn views3(s: Seq<Vec<Vec<char>>>) -> Seq<Seq<Seq<char>>> {
    s.map_values(|v: Vec<Vec<char>>| views(v@))
}

pub open spec fn keep_line(l: Seq<char>) -> bool {
    l.len() > 0 && l.contains('|')
}

/// The trimmed lines of the input that look like table lines.
pub open spec fn candidate_lines(ls: Seq<Seq<char>>) -> Seq<Seq<char>>
    decreases ls.len(),
{
    if ls.len() == 0 {
        Seq::empty()
    } else {
        candidate_lines(ls.drop_last()) + if keep_line(trim_spec(ls.last())) {
            seq![trim_spec(ls.last())]
        } else {
            Seq::empty()
        }
    }
}

/// Trimmed, nonempty cells of a header line.
pub open spec fn hdr_cells(pieces: Seq<Seq<char>>) -> Seq<Seq<char>>
    decreases pieces.len(),
{
    if pieces.len() == 0 {
        Seq::empty()
    } else {
        hdr_cells(pieces.drop_last()) + if trim_spec(pieces.last()).len() > 0 {
            seq![trim_spec(pieces.last())]
        } else {
            Seq::empty()
        }
    }
}

pub open spec fn header_cells_of(l: Seq<char>) -> Seq<Seq<char>> {
    hdr_cells(split_char_spec(trim_matches_spec(l, '|'), '|'))
}

/// A valid alignment cell: dashes with at most a leading and a trailing
/// colon, nothing else.
pub open spec fn valid_align_piece(p: Seq<char>) -> bool {
    p.len() > 0 && p.contains('-') && (forall|j: int|
        0 <= j < p.len() ==> p[j] == '-' || p[j] == ':')
}

pub open spec fn align_pieces_of(l: Seq<char>) -> Seq<Seq<char>> {
    split_char_spec(trim_matches_spec(l, '|'), '|').map_values(|p: Seq<char>| trim_spec(p))
}

pub open spec fn valid_align_row(l: Seq<char>) -> bool {
    forall|j: int|
        0 <= j < align_pieces_of(l).len() ==> valid_align_piece(#[trigger] align_pieces_of(l)[j])
}

/// The alignment a cell's colon markers encode.
pub open spec fn piece_align(p: Seq<char>) -> Align
    recommends
        p.len() > 0,
{
    if p[0] == ':' && p.last() == ':' {
        Align::Center
    } else if p[0] == ':' {
        Align::Left
    } else if p.last() == ':' {
        Align::Right
    } else {
        Align::Unset
    }
}

/// Per-column alignments, padded with the default when the alignment row is
/// short and truncated when it is long.
pub open spec fn aligns_of(l: Seq<char>, n: int) -> Seq<Align>
    recommends
        n >= 0,
{
    Seq::new(
        n as nat,
        |i: int|
            if i < align_pieces_of(l).len() {
                piece_align(align_pieces_of(l)[i])
            } else {
                Align::Unset
            },
    )
}

pub open spec fn cells_of(l: Seq<char>) -> Seq<Seq<char>> {
    split_char_spec(trim_matches_spec(l, '|'), '|').map_values(|p: Seq<char>| trim_spec(p))
}

/// A data line is kept only if some cell has content.
pub open spec fn row_keep(l: Seq<char>) -> bool {
    exists|j: int| 0 <= j < cells_of(l).len() && (#[trigger] cells_of(l)[j]).len() > 0
}

/// A row padded with empty cells, or truncated, to `n` columns.
pub open spec fn padded_cells(cs: Seq<Seq<char>>, n: int) -> Seq<Seq<char>>
    recommends
        n >= 0,
{
    Seq::new(n as nat, |i: int| if i < cs.len() { cs[i] } else { Seq::<char>::empty() })
}

pub open spec fn data_rows(ls: Seq<Seq<char>>, n: int) -> Seq<Seq<Seq<char>>>
    decreases ls.len(),
{
    if ls.len() == 0 {
        Seq::empty()
    } else {
        data_rows(ls.drop_last(), n) + if row_keep(ls.last()) {
            seq![padded_cells(cells_of(ls.last()), n)]
        } else {
            Seq::empty()
        }
    }
}

/// The fast path applies only when the whole input is one table: every
/// nonempty line must look like a table line.
pub open spec fn only_table_lines(ls: Seq<Seq<char>>) -> bool {
    forall|k: int|
        0 <= k < ls.len() ==> trim_spec(#[trigger] ls[k]).len() == 0 || trim_spec(
            ls[k],
        ).contains('|')
}

/// The strict pipe-table reading of the whole input: nothing but a single
/// table — at least a header line, a valid alignment row and one data row
/// with content, all pipe-delimited; anything else is rejected.
pub open spec fn parse_table_spec(s: Seq<char>) -> Option<
    (Seq<Seq<char>>, Seq<Align>, Seq<Seq<Seq<char>>>),
> {
    let pl = candidate_lines(lines_spec(s));
    if !only_table_lines(lines_spec(s)) {
        None
    } else if pl.len() < 3 {
        None
    } else {
        let headers = header_cells_of(pl[0]);
        if headers.len() == 0 {
            None
        } else if !valid_align_row(pl[1]) {
            None
        } else {
            let rows = data_rows(pl.skip(2), headers.len() as int);
            if rows.len() == 0 {
                None
            } else {
                Some((headers, aligns_of(pl[1], headers.len() as int), rows))
            }
        }
    }
}

/// The data a well-formed pipe table carries.
pub struct ParsedTable {
    pub headers: Vec<Vec<char>>,
    pub aligns: Vec<Align>,
    pub rows: Vec<Vec<Vec<char>>>,
}

fn valid_align_piece_exec(p: &Vec<char>) -> (b: bool)
    ensures
        b == valid_align_piece(p@),
{
    if p.len() == 0 {
        return false;
    }
    if !contains_char(p, '-') {
        return false;
    }
    let n = p.len();
    let mut j: usize = 0;
    while j < n
        invariant
            0 <= j <= n,
            n == p.len(),
            forall|k: int| 0 <= k < j ==> p@[k] == '-' || p@[k] == ':',
        decreases n - j,
    {
        let c = p[j];
        if c != '-' && c != ':' {
            proof {
                assert(!(p@[j as int] == '-' || p@[j as int] == ':'));
            }
            return false;
        }
        j = j + 1;
    }
    true
}

/// Parses the whole input as one pipe table, or rejects it.
pub fn parse_markdown_table(text: &Vec<char>) -> (r: Option<ParsedTable>)
    ensures
        (r is Some) == (parse_table_spec(text@) is Some),
        r matches Some(pt) ==> {
            let sp = parse_table_spec(text@)->Some_0;
            views(pt.headers@) == sp.0 && pt.aligns@ == sp.1 && views3(pt.rows@) == sp.2
        },
{
    let lines = split_lines(text);
    let nl = lines.len();
    let ghost lv = views(lines@);
    let mut pl: Vec<Vec<char>> = Vec::new();
    let mut i: usize = 0;
    proof {
        assert(candidate_lines(lv.take(0)) =~= Seq::<Seq<char>>::empty());
        assert(views(pl@) =~= candidate_lines(lv.take(0)));
    }
    let mut other_seen: bool = false;
    while i < nl
        invariant
            0 <= i <= nl,
            nl == lines.len(),
            lv == views(lines@),
            views(pl@) == candidate_lines(lv.take(i as int)),
            !other_seen ==> forall|k: int|
                0 <= k < i ==> trim_spec(#[trigger] lv[k]).len() == 0 || trim_spec(
                    lv[k],
                ).contains('|'),
            other_seen ==> !only_table_lines(lv),
        decreases nl - i,
    {
        proof {
            assert(lv.take(i + 1).drop_last() =~= lv.take(i as int));
            assert(lv.take(i + 1).last() == lv[i as int]);
        }
        let t = trim_chars(&lines[i]);
        if t.len() > 0 && contains_char(&t, '|') {
            proof {
                assert(views(pl@.push(t)) =~= views(pl@) + seq![t@]);
            }
            pl.push(t);
        } else {
            if t.len() > 0 {
                proof {
                    assert(trim_spec(lv[i as int]).len() > 0 && !trim_spec(lv[i as int]).contains(
                        '|',
                    ));
                }
                other_seen = true;
            }
            proof {
                assert(views(pl@) + Seq::<Seq<char>>::empty() =~= views(pl@));
            }
        }
        i = i + 1;
    }
    proof {
        assert(lv.take(nl as int) =~= lv);
    }
    if other_seen {
        return None;
    }
    proof {
        assert(only_table_lines(lv));
    }
    let ghost plv = candidate_lines(lv);
    let npl = pl.len();
    if npl < 3 {
        return None;
    }
    let hl = trim_matches_char(&pl[0], '|');
    let hpieces = split_char(&hl, '|');
    let ghost hpv = views(hpieces@);
    let nh = hpieces.len();
    let mut headers: Vec<Vec<char>> = Vec::new();
    let mut j: usize = 0;
    proof {
        assert(plv[0] == pl@[0]@);
        assert(hdr_cells(hpv.take(0)) =~= Seq::<Seq<char>>::empty());
        assert(views(headers@) =~= hdr_cells(hpv.take(0)));
    }
    while j < nh
        invariant
            0 <= j <= nh,
            nh == hpieces.len(),
            hpv == views(hpieces@),
            views(headers@) == hdr_cells(hpv.take(j as int)),
        decreases nh - j,
    {
        proof {
            assert(hpv.take(j + 1).drop_last() =~= hpv.take(j as int));
            assert(hpv.take(j + 1).last() == hpv[j as int]);
        }
        let tp = trim_chars(&hpieces[j]);
        if tp.len() > 0 {
            proof {
                assert(views(headers@.push(tp)) =~= views(headers@) + seq![tp@]);
            }
            headers.push(tp);
        } else {
            proof {
                assert(views(headers@) + Seq::<Seq<char>>::empty() =~= views(headers@));
            }
        }
        j = j + 1;
    }
    proof {
        assert(hpv.take(nh as int) =~= hpv);
        assert(views(headers@) == header_cells_of(plv[0]));
    }
    let n = headers.len();
    if n == 0 {
        return None;
    }
    let al = trim_matches_char(&pl[1], '|');
    let apieces_raw = split_char(&al, '|');
    let na = apieces_raw.len();
    let mut apieces: Vec<Vec<char>> = Vec::new();
    let mut k: usize = 0;
    proof {
        assert(plv[1] == pl@[1]@);
    }
    while k < na
        invariant
            0 <= k <= na,
            na == apieces_raw.len(),
            views(apieces_raw@) == split_char_spec(trim_matches_spec(plv[1], '|'), '|'),
            apieces@.len() == k,
            forall|t: int|
                0 <= t < k ==> (#[trigger] apieces@[t])@ == align_pieces_of(plv[1])[t],
        decreases na - k,
    {
        let tp = trim_chars(&apieces_raw[k]);
        proof {
            assert(align_pieces_of(plv[1])[k as int] == trim_spec(views(apieces_raw@)[k as int]));
        }
        apieces.push(tp);
        k = k + 1;
    }
    proof {
        assert(align_pieces_of(plv[1]).len() == na);
    }
    let mut v: usize = 0;
    let mut all_valid: bool = true;
    while v < na
        invariant
            0 <= v <= na,
            na == apieces.len(),
            align_pieces_of(plv[1]).len() == na,
            forall|t: int|
                0 <= t < na ==> (#[trigger] apieces@[t])@ == align_pieces_of(plv[1])[t],
            all_valid ==> forall|t: int|
                0 <= t < v ==> valid_align_piece(#[trigger] align_pieces_of(plv[1])[t]),
            !all_valid ==> !valid_align_row(plv[1]),
        decreases na - v,
    {
        if !valid_align_piece_exec(&apieces[v]) {
            proof {
                assert(!valid_align_piece(align_pieces_of(plv[1])[v as int]));
                assert(!valid_align_row(plv[1]));
            }
            all_valid = false;
        }
        v = v + 1;
    }
    if !all_valid {
        return None;
    }
    proof {
        assert(valid_align_row(plv[1]));
    }
    let mut aligns: Vec<Align> = Vec::new();
    let mut q: usize = 0;
    while q < n
        invariant
            0 <= q <= n,
            n == headers@.len(),
            na == apieces.len(),
            align_pieces_of(plv[1]).len() == na,
            forall|t: int|
                0 <= t < na ==> (#[trigger] apieces@[t])@ == align_pieces_of(plv[1])[t],
            forall|t: int|
                0 <= t < na ==> valid_align_piece(#[trigger] align_pieces_of(plv[1])[t]),
            aligns@.len() == q,
            forall|t: int| 0 <= t < q ==> aligns@[t] == aligns_of(plv[1], n as int)[t],
        decreases n - q,
    {
        let a: Align = if q < na {
            let p = &apieces[q];
            proof {
                assert(valid_align_piece(align_pieces_of(plv[1])[q as int]));
                assert(p@.len() > 0);
            }
            let pn = p.len();
            let first_colon = p[0] == ':';
            let last_colon = p[pn - 1] == ':';
            if first_colon && last_colon {
                Align::Center
            } else if first_colon {
                Align::Left
            } else if last_colon {
                Align::Right
            } else {
                Align::Unset
            }
        } else {
            Align::Unset
        };
        proof {
            assert(a == aligns_of(plv[1], n as int)[q as int]);
        }
        aligns.push(a);
        q = q + 1;
    }
    proof {
        assert(aligns@ =~= aligns_of(plv[1], n as int));
    }
    let mut rows: Vec<Vec<Vec<char>>> = Vec::new();
    let mut r: usize = 2;
    let ghost dls = plv.skip(2);
    proof {
        assert(data_rows(dls.take(0), n as int) =~= Seq::<Seq<Seq<char>>>::empty());
        assert(views3(rows@) =~= data_rows(dls.take(0), n as int));
    }
    while r < npl
        invariant
            2 <= r <= npl,
            npl == pl.len(),
            n == headers@.len(),
            plv == candidate_lines(lv),
            forall|t: int| 0 <= t < npl ==> (#[trigger] pl@[t])@ == plv[t],
            plv.len() == npl,
            dls == plv.skip(2),
            views3(rows@) == data_rows(dls.take(r - 2), n as int),
        decreases npl - r,
    {
        proof {
            assert(dls.take(r - 2 + 1).drop_last() =~= dls.take(r - 2));
            assert(dls.take(r - 2 + 1).last() == dls[r - 2]);
            assert(dls[r - 2] == plv[r as int]);
        }
        let l = trim_matches_char(&pl[r], '|');
        let cpieces = split_char(&l, '|');
        let nc = cpieces.len();
        let mut cells: Vec<Vec<char>> = Vec::new();
        let mut c: usize = 0;
        while c < nc
            invariant
                0 <= c <= nc,
                nc == cpieces.len(),
                views(cpieces@) == split_char_spec(trim_matches_spec(plv[r as int], '|'), '|'),
                cells@.len() == c,
                forall|t: int|
                    0 <= t < c ==> (#[trigger] cells@[t])@ == cells_of(plv[r as int])[t],
            decreases nc - c,
        {
            let tp = trim_chars(&cpieces[c]);
            proof {
                assert(cells_of(plv[r as int])[c as int] == trim_spec(
                    views(cpieces@)[c as int],
                ));
            }
            cells.push(tp);
            c = c + 1;
        }
        proof {
            assert(cells_of(plv[r as int]).len() == nc);
        }
        let mut keep: bool = false;
        let mut w: usize = 0;
        while w < nc
            invariant
                0 <= w <= nc,
                nc == cells.len(),
                cells_of(plv[r as int]).len() == nc,
                forall|t: int|
                    0 <= t < nc ==> (#[trigger] cells@[t])@ == cells_of(plv[r as int])[t],
                keep ==> row_keep(plv[r as int]),
                !keep ==> forall|t: int|
                    0 <= t < w ==> (#[trigger] cells_of(plv[r as int])[t]).len() == 0,
            decreases nc - w,
        {
            if cells[w].len() > 0 {
                proof {
                    assert(cells_of(plv[r as int])[w as int].len() > 0);
                }
                keep = true;
            }
            w = w + 1;
        }
        if keep {
            let mut padded: Vec<Vec<char>> = Vec::new();
            let mut x: usize = 0;
            while x < n
                invariant
                    0 <= x <= n,
                    nc == cells.len(),
                    forall|t: int|
                        0 <= t < nc ==> (#[trigger] cells@[t])@ == cells_of(plv[r as int])[t],
                    cells_of(plv[r as int]).len() == nc,
                    padded@.len() == x,
                    forall|t: int|
                        0 <= t < x ==> (#[trigger] padded@[t])@ == padded_cells(
                            cells_of(plv[r as int]),
                            n as int,
                        )[t],
                decreases n - x,
            {
                if x < nc {
                    let cc = clone_chars(&cells[x]);
                    padded.push(cc);
                } else {
                    let e: Vec<char> = Vec::new();
                    padded.push(e);
                }
                x = x + 1;
            }
            proof {
                assert(views(padded@) =~= padded_cells(cells_of(plv[r as int]), n as int));
                assert(views3(rows@.push(padded)) =~= views3(rows@) + seq![views(padded@)]);
                assert(data_rows(dls.take(r - 2 + 1), n as int) =~= data_rows(
                    dls.take(r - 2),
                    n as int,
                ) + seq![padded_cells(cells_of(plv[r as int]), n as int)]);
            }
            rows.push(padded);
        } else {
            proof {
                assert(!row_keep(plv[r as int]));
                assert(data_rows(dls.take(r - 2 + 1), n as int) =~= data_rows(
                    dls.take(r - 2),
                    n as int,
                ));
            }
        }
        r = r + 1;
    }
    proof {
        assert(dls.take(npl - 2) =~= dls);
    }
    if rows.len() == 0 {
        return None;
    }
    Some(ParsedTable { headers, aligns, rows })
}

proof fn lemma_data_rows_len(ls: Seq<Seq<char>>, n: int)
    requires
        n >= 0,
    ensures
        forall|t: int|
            0 <= t < data_rows(ls, n).len() ==> (#[trigger] data_rows(ls, n)[t]).len() == n,
    decreases ls.len(),
{
    if ls.len() > 0 {
        lemma_data_rows_len(ls.drop_last(), n);
        assert forall|t: int| 0 <= t < data_rows(ls, n).len() implies (#[trigger] data_rows(
            ls,
            n,
        )[t]).len() == n by {
            if t < data_rows(ls.drop_last(), n).len() {
                assert(data_rows(ls, n)[t] == data_rows(ls.drop_last(), n)[t]);
            }
        }
    }
}

/// When the parser accepts, every row has exactly one cell per header.
pub proof fn lemma_data_rows_len_all(s: Seq<char>)
    requires
        parse_table_spec(s) is Some,
    ensures
        forall|t: int|
            0 <= t < parse_table_spec(s)->Some_0.2.len()
                ==> (#[trigger] parse_table_spec(s)->Some_0.2[t]).len()
                == parse_table_spec(s)->Some_0.0.len(),
{
    let pl = candidate_lines(lines_spec(s));
    let headers = header_cells_of(pl[0]);
    lemma_data_rows_len(pl.skip(2), headers.len() as int);
}

proof fn lemma_no_pipe_no_candidates(ls: Seq<Seq<char>>)
    requires
        forall|k: int, j: int|
            0 <= k < ls.len() && 0 <= j < ls[k].len() ==> #[trigger] ls[k][j] != '|',
    ensures
        candidate_lines(ls).len() == 0,
    decreases ls.len(),
{
    if ls.len() > 0 {
        assert(forall|k: int, j: int|
            0 <= k < ls.drop_last().len() && 0 <= j < ls.drop_last()[k].len()
                ==> #[trigger] ls.drop_last()[k][j] != '|') by {
            assert(forall|k: int|
                0 <= k < ls.drop_last().len() ==> #[trigger] ls.drop_last()[k] == ls[k]);
        }
        lemma_no_pipe_no_candidates(ls.drop_last());
        let t = trim_spec(ls.last());
        if keep_line(t) {
            crate::chars::lemma_trim_chars_sub(ls.last());
            let j = choose|j: int| 0 <= j < t.len() && t[j] == '|';
            assert(ls.last().contains(t[j]));
            let x = choose|x: int| 0 <= x < ls.last().len() && ls.last()[x] == t[j];
            assert(ls[ls.len() - 1][x] == '|');
        }
    }
}

/// An input without a pipe character is never read as a table.
pub proof fn lemma_no_pipe_rejected(text: Seq<char>)
    requires
        !text.contains('|'),
    ensures
        parse_table_spec(text) is None,
{
    crate::chars::lemma_lines_chars(text);
    let ls = lines_spec(text);
    assert forall|k: int, j: int| 0 <= k < ls.len() && 0 <= j < ls[k].len() implies #[trigger] ls[k][j]
        != '|' by {
        if ls[k][j] == '|' {
            assert(text.contains(ls[k][j]));
        }
    }
    lemma_no_pipe_no_candidates(ls);
    if !only_table_lines(ls) {
    } else {
        assert(candidate_lines(ls).len() < 3);
    }
}

pub proof fn lemma_count_pos(s: Seq<char>, c: char)
    requires
        s.contains(c),
    ensures
        count_char(s, c) >= 1,
        count_char(s, c) <= s.len(),
    decreases s.len(),
{
    lemma_count_le(s, c);
    lemma_count_le(s.drop_last(), c);
    if s.last() == c {
    } else {
        let j = choose|j: int| 0 <= j < s.len() && s[j] == c;
        assert(j < s.len() - 1);
        assert(s.drop_last().contains(c)) by {
            assert(s.drop_last()[j] == c);
        }
        lemma_count_pos(s.drop_last(), c);
    }
}

pub proof fn lemma_count_le(s: Seq<char>, c: char)
    ensures
        0 <= count_char(s, c) <= s.len(),
    decreases s.len(),
{
    if s.len() > 0 {
        lemma_count_le(s.drop_last(), c);
    }
}

} // verus!
