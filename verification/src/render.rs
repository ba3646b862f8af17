//! The event-driven renderer: it consumes the markdown event stream,
//! maintains the per-call renderer state, and dispatches to the wrapper, the
//! table engine and the syntax cache at block transitions. `render` and
//! `render_with_hint` are total: every input yields a string.

use vstd::prelude::*;
use crate::chars::{
    views, chars_of_str, string_of_chars, trim_spec, trim_chars, trim_back_spec,
    lines_keep_endings, split_lines_keep_endings, extend_chars, clone_chars,
};
use crate::wrap::{para_flush_spec, flush_paragraph_into, lemma_para_flush_chars};
use crate::table::{Align, Table, TableRow, TableCell, widths_spec, table_text, cell_contents};
use crate::parse::{
    preprocess_spec, preprocess_table_text, parse_table_spec, parse_markdown_table, padded_cells,
    views3,
};
use crate::events::{MdEvent, MdTag, EventView, TagView, events_of, event_views, parse_events};
use crate::syntax::{SyntaxCache, lang_known, highlight_spec};

verus! {

/// The wrap budget for prose: the caller's width less a two-column margin.
pub open spec fn prose_width(w: int) -> int {
    if w >= 2 {
        w - 2
    } else {
        0
    }
}

/// The width budget for tables: the caller's width less a four-column margin.
pub open spec fn table_budget(w: int) -> int {
    if w >= 4 {
        w - 4
    } else {
        0
    }
}

pub open spec fn min2(a: int, b: int) -> int {
    if a <= b {
        a
    } else {
        b
    }
}

pub open spec fn esc_italic_on() -> Seq<char> {
    seq!['\u{1b}', '[', '3', 'm']
}

pub open spec fn esc_italic_off() -> Seq<char> {
    seq!['\u{1b}', '[', '2', '3', 'm']
}

pub open spec fn esc_bold_on() -> Seq<char> {
    seq!['\u{1b}', '[', '1', 'm']
}

pub open spec fn esc_bold_off() -> Seq<char> {
    seq!['\u{1b}', '[', '2', '2', 'm']
}

/// The renderer's state between events.
pub ghost struct RState {
    pub out: Seq<char>,
    pub para: Seq<char>,
    pub in_code: bool,
    pub lang: Seq<char>,
    pub in_list: bool,
    pub in_table: bool,
    pub t_aligns: Seq<Align>,
    pub t_headers: Seq<Seq<char>>,
    pub cur_row: Seq<Seq<char>>,
    pub t_rows: Seq<Seq<Seq<char>>>,
}

pub open spec fn r_init() -> RState {
    RState {
        out: Seq::empty(),
        para: Seq::empty(),
        in_code: false,
        lang: Seq::empty(),
        in_list: false,
        in_table: false,
        t_aligns: Seq::empty(),
        t_headers: Seq::empty(),
        cur_row: Seq::empty(),
        t_rows: Seq::empty(),
    }
}

pub open spec fn opt_or_empty(o: Option<Seq<char>>) -> Seq<char> {
    match o {
        Some(h) => h,
        None => Seq::empty(),
    }
}

/// The fence token when it is nonempty, else the caller's hint, else nothing.
pub open spec fn fence_or_hint(fence: Option<Seq<char>>, hint: Option<Seq<char>>) -> Seq<char> {
    match fence {
        Some(l) => if l.len() > 0 {
            l
        } else {
            opt_or_empty(hint)
        },
        None => opt_or_empty(hint),
    }
}

/// The language retained for a code block: the fence-or-hint token when it
/// resolves to a known lexer, else empty, which means the plain fallback.
pub open spec fn effective_lang(fence: Option<Seq<char>>, hint: Option<Seq<char>>) -> Seq<char> {
    let tok = fence_or_hint(fence, hint);
    if tok.len() > 0 && lang_known(tok) {
        tok
    } else {
        Seq::empty()
    }
}

/// One rendered code line: the fixed four-space indent, then the line
/// highlighted under the active language, or verbatim on the plain fallback.
pub open spec fn code_line_out(lang: Seq<char>, line: Seq<char>) -> Seq<char> {
    seq![' ', ' ', ' ', ' '] + if lang.len() == 0 {
        line
    } else {
        highlight_spec(lang, line)
    }
}

pub open spec fn code_text_out(lang: Seq<char>, lines: Seq<Seq<char>>) -> Seq<char>
    decreases lines.len(),
{
    if lines.len() == 0 {
        Seq::empty()
    } else {
        code_text_out(lang, lines.drop_last()) + code_line_out(lang, lines.last())
    }
}

pub open spec fn code_block_out(lang: Seq<char>, text: Seq<char>) -> Seq<char> {
    code_text_out(lang, lines_keep_endings(text))
}

pub open spec fn flush_para_st(st: RState, pw: int) -> RState {
    RState { out: st.out + para_flush_spec(st.para, pw), para: Seq::empty(), ..st }
}

/// What a completed table accumulator renders to: headers zipped with their
/// alignments, every cell trimmed, rows padded to the column count, widths
/// negotiated against the table budget. A table without columns renders
/// nothing.
pub open spec fn table_out(st: RState, tw: int) -> Seq<char> {
    let n = min2(st.t_headers.len() as int, st.t_aligns.len() as int);
    if n == 0 {
        Seq::empty()
    } else {
        let headers = Seq::new(n as nat, |i: int| trim_spec(st.t_headers[i]));
        let aligns = Seq::new(n as nat, |i: int| st.t_aligns[i]);
        let rows = st.t_rows.map_values(
            |r: Seq<Seq<char>>| padded_cells(r.map_values(|c: Seq<char>| trim_spec(c)), n),
        );
        table_text(headers, aligns, rows, widths_spec(tw, headers, rows))
    }
}

pub open spec fn flush_table_st(st: RState, tw: int) -> RState {
    if st.in_table {
        RState {
            out: st.out + table_out(st, tw),
            in_table: false,
            t_aligns: Seq::empty(),
            t_headers: Seq::empty(),
            cur_row: Seq::empty(),
            t_rows: Seq::empty(),
            ..st
        }
    } else {
        st
    }
}

/// The transition rules of the renderer, one per event.
pub open spec fn r_step(st: RState, ev: EventView, width: int, hint: Option<Seq<char>>) -> RState {
    let pw = prose_width(width);
    let tw = table_budget(width);
    match ev {
        EventView::Start(tag) => match tag {
            TagView::Table(als) => {
                let s1 = flush_para_st(st, pw);
                RState { in_table: true, t_aligns: als, ..s1 }
            },
            TagView::TableHead => RState { cur_row: Seq::empty(), ..st },
            TagView::TableRow => RState { cur_row: Seq::empty(), ..st },
            TagView::TableCell => RState { para: Seq::empty(), ..st },
            TagView::CodeBlock(fence) => {
                let s1 = flush_para_st(st, pw);
                RState {
                    in_code: true,
                    lang: effective_lang(fence, hint),
                    out: s1.out + seq!['\n'],
                    ..s1
                }
            },
            TagView::List => {
                let s1 = flush_para_st(st, pw);
                RState { in_list: true, ..s1 }
            },
            TagView::Item => {
                let s1 = flush_para_st(st, pw);
                RState { para: seq!['\u{2022}', ' '], ..s1 }
            },
            TagView::Paragraph => if st.para.len() > 0 {
                flush_para_st(st, pw)
            } else {
                st
            },
            TagView::Emphasis => RState { para: st.para + esc_italic_on(), ..st },
            TagView::Strong => RState { para: st.para + esc_bold_on(), ..st },
            TagView::Other => st,
        },
        EventView::End(tag) => match tag {
            TagView::Table(als) => flush_table_st(st, tw),
            TagView::TableHead => RState { t_headers: st.cur_row, cur_row: Seq::empty(), ..st },
            TagView::TableRow => if st.cur_row.len() > 0 {
                RState { t_rows: st.t_rows.push(st.cur_row), cur_row: Seq::empty(), ..st }
            } else {
                st
            },
            TagView::TableCell => if st.in_table {
                RState { cur_row: st.cur_row.push(st.para), para: Seq::empty(), ..st }
            } else {
                st
            },
            TagView::CodeBlock(fence) => RState {
                in_code: false,
                lang: Seq::empty(),
                out: st.out + seq!['\n'],
                ..st
            },
            TagView::List => RState { in_list: false, out: st.out + seq!['\n'], ..st },
            TagView::Item => flush_para_st(st, pw),
            TagView::Paragraph => {
                let s1 = flush_para_st(st, pw);
                if st.in_list {
                    s1
                } else {
                    RState { out: s1.out + seq!['\n'], ..s1 }
                }
            },
            TagView::Emphasis => RState { para: st.para + esc_italic_off(), ..st },
            TagView::Strong => RState { para: st.para + esc_bold_off(), ..st },
            TagView::Other => st,
        },
        EventView::Text(t) => if st.in_code {
            RState { out: st.out + code_block_out(st.lang, t), ..st }
        } else {
            RState { para: st.para + t, ..st }
        },
        EventView::Code(t) => RState { para: st.para + seq!['`'] + t + seq!['`'], ..st },
        EventView::SoftBreak => RState { para: st.para.push(' '), ..st },
        EventView::HardBreak => {
            let s1 = flush_para_st(st, pw);
            RState { out: s1.out + seq!['\n'], ..s1 }
        },
        EventView::Other => st,
    }
}

pub open spec fn r_run(evs: Seq<EventView>, width: int, hint: Option<Seq<char>>) -> RState
    decreases evs.len(),
{
    if evs.len() == 0 {
        r_init()
    } else {
        r_step(r_run(evs.drop_last(), width, hint), evs.last(), width, hint)
    }
}

/// The text the event-driven path produces: the fold of the transition rules
/// over the stream, the paragraph buffer and any still-open table flushed at
/// stream end, trailing whitespace trimmed.
pub open spec fn render_events_spec(
    evs: Seq<EventView>,
    width: int,
    hint: Option<Seq<char>>,
) -> Seq<char> {
    let st = r_run(evs, width, hint);
    let st1 = flush_para_st(st, prose_width(width));
    let st2 = flush_table_st(st1, table_budget(width));
    trim_back_spec(st2.out)
}

/// The full rendering pipeline: preprocess, then either the whole-input
/// pipe-table fast path or the event-driven path over the tokenizer's stream.
pub open spec fn render_spec(text: Seq<char>, width: int, hint: Option<Seq<char>>) -> Seq<char> {
    let pre = preprocess_spec(text);
    match parse_table_spec(pre) {
        Some(t) => table_text(t.0, t.1, t.2, widths_spec(table_budget(width), t.0, t.2)),
        None => render_events_spec(events_of(pre), width, hint),
    }
}

pub open spec fn hint_view(h: Option<&str>) -> Option<Seq<char>> {
    match h {
        Some(s) => Some(s@),
        None => None,
    }
}

pub open spec fn hint_vec_view(h: Option<&Vec<char>>) -> Option<Seq<char>> {
    match h {
        Some(v) => Some(v@),
        None => None,
    }
}

fn prose_width_exec(w: usize) -> (r: usize)
    ensures
        r as int == prose_width(w as int),
{
    if w >= 2 {
        w - 2
    } else {
        0
    }
}

fn table_budget_exec(w: usize) -> (r: usize)
    ensures
        r as int == table_budget(w as int),
{
    if w >= 4 {
        w - 4
    } else {
        0
    }
}

/// The per-call mutable context, exclusively owned by one render invocation.
struct RendererCtx {
    out: Vec<char>,
    para: Vec<char>,
    in_code: bool,
    lang: Vec<char>,
    in_list: bool,
    in_table: bool,
    t_aligns: Vec<Align>,
    t_headers: Vec<Vec<char>>,
    cur_row: Vec<Vec<char>>,
    t_rows: Vec<Vec<Vec<char>>>,
}

impl RendererCtx {
    spec fn matches(self, st: RState) -> bool {
        self.out@ == st.out && self.para@ == st.para && self.in_code == st.in_code && self.lang@
            == st.lang && self.in_list == st.in_list && self.in_table == st.in_table
            && self.t_aligns@ == st.t_aligns && views(self.t_headers@) == st.t_headers && views(
            self.cur_row@,
        ) == st.cur_row && views3(self.t_rows@) == st.t_rows
    }

    spec fn lang_ok(self) -> bool {
        self.lang@.len() > 0 ==> lang_known(self.lang@)
    }
}

fn ctx_new() -> (r: RendererCtx)
    ensures
        r.matches(r_init()),
        r.lang_ok(),
{
    let r = RendererCtx {
        out: Vec::new(),
        para: Vec::new(),
        in_code: false,
        lang: Vec::new(),
        in_list: false,
        in_table: false,
        t_aligns: Vec::new(),
        t_headers: Vec::new(),
        cur_row: Vec::new(),
        t_rows: Vec::new(),
    };
    proof {
        assert(views(r.t_headers@) =~= Seq::<Seq<char>>::empty());
        assert(views(r.cur_row@) =~= Seq::<Seq<char>>::empty());
        assert(views3(r.t_rows@) =~= Seq::<Seq<Seq<char>>>::empty());
    }
    r
}

fn ctx_flush_para(ctx: &mut RendererCtx, width: usize, Ghost(st): Ghost<RState>)
    requires
        old(ctx).matches(st),
    ensures
        final(ctx).matches(flush_para_st(st, prose_width(width as int))),
        final(ctx).lang == old(ctx).lang,
{
    let pw = prose_width_exec(width);
    flush_paragraph_into(&mut ctx.out, &ctx.para, pw);
    ctx.para = Vec::new();
    proof {
        assert(ctx.para@ =~= Seq::<char>::empty());
    }
}

#[verifier::rlimit(60)]
fn ctx_flush_table(ctx: &mut RendererCtx, width: usize, Ghost(st): Ghost<RState>)
    requires
        old(ctx).matches(st),
    ensures
        final(ctx).matches(flush_table_st(st, table_budget(width as int))),
        final(ctx).lang == old(ctx).lang,
{
    if !ctx.in_table {
        return ;
    }
    let tw = table_budget_exec(width);
    let nh = ctx.t_headers.len();
    let na = ctx.t_aligns.len();
    let n: usize = if nh <= na {
        nh
    } else {
        na
    };
    let ghost nn = min2(st.t_headers.len() as int, st.t_aligns.len() as int);
    proof {
        assert(n as int == nn);
    }
    if n > 0 {
        let ghost headers_sp = Seq::new(nn as nat, |i: int| trim_spec(st.t_headers[i]));
        let ghost aligns_sp = Seq::new(nn as nat, |i: int| st.t_aligns[i]);
        let ghost rows_sp = st.t_rows.map_values(
            |r: Seq<Seq<char>>| padded_cells(r.map_values(|c: Seq<char>| trim_spec(c)), nn),
        );
        let mut hcells: Vec<TableCell> = Vec::new();
        let mut i: usize = 0;
        while i < n
            invariant
                0 <= i <= n,
                n <= ctx.t_headers@.len(),
                n <= ctx.t_aligns@.len(),
                views(ctx.t_headers@) == st.t_headers,
                ctx.t_aligns@ == st.t_aligns,
                nn == n as int,
                headers_sp == Seq::new(nn as nat, |t: int| trim_spec(st.t_headers[t])),
                aligns_sp == Seq::new(nn as nat, |t: int| st.t_aligns[t]),
                hcells@.len() == i,
                forall|j: int|
                    0 <= j < i ==> (#[trigger] hcells@[j]).content@ == headers_sp[j]
                        && hcells@[j].alignment == aligns_sp[j],
            decreases n - i,
        {
            let content = trim_chars(&ctx.t_headers[i]);
            let alignment = ctx.t_aligns[i];
            proof {
                assert(st.t_headers[i as int] == ctx.t_headers@[i as int]@);
            }
            hcells.push(TableCell { content, alignment });
            i = i + 1;
        }
        let nr = ctx.t_rows.len();
        let mut rows: Vec<TableRow> = Vec::new();
        let mut r: usize = 0;
        while r < nr
            invariant
                0 <= r <= nr,
                nr == ctx.t_rows@.len(),
                n <= ctx.t_aligns@.len(),
                views3(ctx.t_rows@) == st.t_rows,
                ctx.t_aligns@ == st.t_aligns,
                nn == n as int,
                rows_sp == st.t_rows.map_values(
                    |rr: Seq<Seq<char>>| padded_cells(
                        rr.map_values(|c: Seq<char>| trim_spec(c)),
                        nn,
                    ),
                ),
                hcells@.len() == n,
                forall|j: int|
                    0 <= j < n ==> (#[trigger] hcells@[j]).alignment == st.t_aligns[j],
                rows@.len() == r,
                forall|t: int|
                    0 <= t < r ==> cell_contents((#[trigger] rows@[t]).cells@) == rows_sp[t]
                        && rows@[t].cells@.len() == n && (forall|j: int|
                        0 <= j < n ==> (#[trigger] rows@[t].cells@[j]).alignment
                            == st.t_aligns[j]),
            decreases nr - r,
        {
            let row = &ctx.t_rows[r];
            let rl = row.len();
            let mut rcells: Vec<TableCell> = Vec::new();
            let mut j: usize = 0;
            while j < n
                invariant
                    0 <= j <= n,
                    0 <= r < nr,
                    nr == ctx.t_rows@.len(),
                    row == &ctx.t_rows@[r as int],
                    rl == row@.len(),
                    n <= ctx.t_aligns@.len(),
                    views3(ctx.t_rows@) == st.t_rows,
                    ctx.t_aligns@ == st.t_aligns,
                    nn == n as int,
                    rcells@.len() == j,
                    forall|t: int|
                        0 <= t < j ==> (#[trigger] rcells@[t]).content@ == (if t
                            < st.t_rows[r as int].len() {
                            trim_spec(st.t_rows[r as int][t])
                        } else {
                            Seq::<char>::empty()
                        }) && rcells@[t].alignment == st.t_aligns[t],
                decreases n - j,
            {
                let content: Vec<char> = if j < rl {
                    proof {
                        assert(st.t_rows[r as int] == views(ctx.t_rows@[r as int]@));
                        assert(st.t_rows[r as int][j as int] == ctx.t_rows@[r as int]@[j as int]@);
                    }
                    trim_chars(&row[j])
                } else {
                    proof {
                        assert(st.t_rows[r as int] == views(ctx.t_rows@[r as int]@));
                    }
                    Vec::new()
                };
                let alignment = ctx.t_aligns[j];
                rcells.push(TableCell { content, alignment });
                j = j + 1;
            }
            proof {
                assert(st.t_rows[r as int] == views(ctx.t_rows@[r as int]@));
                assert(cell_contents(rcells@) =~= padded_cells(
                    st.t_rows[r as int].map_values(|c: Seq<char>| trim_spec(c)),
                    nn,
                ));
                assert(rows_sp[r as int] == padded_cells(
                    st.t_rows[r as int].map_values(|c: Seq<char>| trim_spec(c)),
                    nn,
                ));
            }
            rows.push(TableRow { cells: rcells });
            r = r + 1;
        }
        let mut widths0: Vec<usize> = Vec::new();
        let mut w0: usize = 0;
        while w0 < n
            invariant
                widths0@.len() == w0,
                0 <= w0 <= n,
            decreases n - w0,
        {
            widths0.push(0);
            w0 = w0 + 1;
        }
        let mut tb = Table { headers: TableRow { cells: hcells }, rows, column_widths: widths0 };
        proof {
            assert(tb.well_formed());
            assert(tb.header_contents() =~= headers_sp);
            assert(tb.header_aligns() =~= aligns_sp);
            assert(tb.rows_contents() =~~= rows_sp);
        }
        tb.calculate_column_widths(tw);
        let rendered = tb.render();
        let rc = chars_of_str(rendered.as_str());
        extend_chars(&mut ctx.out, &rc);
        proof {
            assert(ctx.out@ == st.out + table_out(st, table_budget(width as int)));
        }
    } else {
        proof {
            assert(table_out(st, table_budget(width as int)) =~= Seq::<char>::empty());
            assert(ctx.out@ =~= st.out + table_out(st, table_budget(width as int)));
        }
    }
    ctx.t_headers = Vec::new();
    ctx.t_rows = Vec::new();
    ctx.cur_row = Vec::new();
    ctx.t_aligns = Vec::new();
    ctx.in_table = false;
    proof {
        assert(views(ctx.t_headers@) =~= Seq::<Seq<char>>::empty());
        assert(views(ctx.cur_row@) =~= Seq::<Seq<char>>::empty());
        assert(views3(ctx.t_rows@) =~= Seq::<Seq<Seq<char>>>::empty());
    }
}

fn clone_aligns(v: &Vec<Align>) -> (r: Vec<Align>)
    ensures
        r@ == v@,
{
    let n = v.len();
    let mut r: Vec<Align> = Vec::new();
    let mut i: usize = 0;
    while i < n
        invariant
            0 <= i <= n,
            n == v.len(),
            r@ == v@.take(i as int),
        decreases n - i,
    {
        proof {
            assert(v@.take(i + 1) =~= v@.take(i as int).push(v@[i as int]));
        }
        r.push(v[i]);
        i = i + 1;
    }
    proof {
        assert(v@.take(n as int) =~= v@);
    }
    r
}

fn clone_rows(v: &Vec<Vec<char>>) -> (r: Vec<Vec<char>>)
    ensures
        views(r@) == views(v@),
{
    let n = v.len();
    let mut r: Vec<Vec<char>> = Vec::new();
    let mut i: usize = 0;
    while i < n
        invariant
            0 <= i <= n,
            n == v.len(),
            views(r@) == views(v@).take(i as int),
        decreases n - i,
    {
        let c = clone_chars(&v[i]);
        proof {
            assert(views(r@.push(c)) =~= views(r@).push(c@));
            assert(views(v@).take(i + 1) =~= views(v@).take(i as int).push(v@[i as int]@));
        }
        r.push(c);
        i = i + 1;
    }
    proof {
        assert(views(v@).take(n as int) =~= views(v@));
    }
    r
}

#[verifier::rlimit(100)]
fn ctx_step(
    ctx: &mut RendererCtx,
    cache: &SyntaxCache,
    ev: &MdEvent,
    width: usize,
    hint: Option<&Vec<char>>,
    Ghost(st): Ghost<RState>,
)
    requires
        old(ctx).matches(st),
        old(ctx).lang_ok(),
    ensures
        final(ctx).matches(r_step(st, ev@, width as int, hint_vec_view(hint))),
        final(ctx).lang_ok(),
{
    let ghost hv = hint_vec_view(hint);
    match ev {
        MdEvent::Start(tag) => match tag {
            MdTag::Table(als) => {
                proof {
                    assert(ev@ == EventView::Start(TagView::Table(als@)));
                }
                ctx_flush_para(ctx, width, Ghost(st));
                ctx.in_table = true;
                ctx.t_aligns = clone_aligns(als);
            },
            MdTag::TableHead => {
                ctx.cur_row = Vec::new();
                proof {
                    assert(views(ctx.cur_row@) =~= Seq::<Seq<char>>::empty());
                }
            },
            MdTag::TableRow => {
                ctx.cur_row = Vec::new();
                proof {
                    assert(views(ctx.cur_row@) =~= Seq::<Seq<char>>::empty());
                }
            },
            MdTag::TableCell => {
                ctx.para = Vec::new();
                proof {
                    assert(ctx.para@ =~= Seq::<char>::empty());
                }
            },
            MdTag::CodeBlock(fence) => {
                let ghost fv = match fence {
                    Some(v) => Some(v@),
                    None => None,
                };
                proof {
                    assert(ev@ == EventView::Start(TagView::CodeBlock(fv)));
                }
                ctx_flush_para(ctx, width, Ghost(st));
                let tok: Vec<char> = match fence {
                    Some(l) => if l.len() > 0 {
                        clone_chars(l)
                    } else {
                        match hint {
                            Some(h) => clone_chars(h),
                            None => Vec::new(),
                        }
                    },
                    None => match hint {
                        Some(h) => clone_chars(h),
                        None => Vec::new(),
                    },
                };
                proof {
                    assert(tok@ =~= fence_or_hint(fv, hv));
                }
                if tok.len() > 0 {
                    if cache.resolves(&tok) {
                        ctx.lang = tok;
                    } else {
                        ctx.lang = Vec::new();
                        proof {
                            assert(ctx.lang@ =~= Seq::<char>::empty());
                        }
                    }
                } else {
                    ctx.lang = tok;
                }
                proof {
                    assert(ctx.lang@ == effective_lang(fv, hv));
                }
                ctx.in_code = true;
                let ghost s1 = flush_para_st(st, prose_width(width as int));
                ctx.out.push('\n');
                proof {
                    assert(ctx.out@ =~= s1.out + seq!['\n']);
                }
            },
            MdTag::List => {
                ctx_flush_para(ctx, width, Ghost(st));
                ctx.in_list = true;
            },
            MdTag::Item => {
                ctx_flush_para(ctx, width, Ghost(st));
                ctx.para = Vec::new();
                ctx.para.push('\u{2022}');
                ctx.para.push(' ');
                proof {
                    assert(ctx.para@ =~= seq!['\u{2022}', ' ']);
                }
            },
            MdTag::Paragraph => {
                if ctx.para.len() > 0 {
                    ctx_flush_para(ctx, width, Ghost(st));
                }
            },
            MdTag::Emphasis => {
                ctx.para.push('\u{1b}');
                ctx.para.push('[');
                ctx.para.push('3');
                ctx.para.push('m');
                proof {
                    assert(ctx.para@ =~= st.para + esc_italic_on());
                }
            },
            MdTag::Strong => {
                ctx.para.push('\u{1b}');
                ctx.para.push('[');
                ctx.para.push('1');
                ctx.para.push('m');
                proof {
                    assert(ctx.para@ =~= st.para + esc_bold_on());
                }
            },
            MdTag::Other => {},
        },
        MdEvent::End(tag) => match tag {
            MdTag::Table(als) => {
                proof {
                    assert(ev@ == EventView::End(TagView::Table(als@)));
                }
                ctx_flush_table(ctx, width, Ghost(st));
            },
            MdTag::TableHead => {
                let cr = clone_rows(&ctx.cur_row);
                ctx.t_headers = cr;
                ctx.cur_row = Vec::new();
                proof {
                    assert(views(ctx.cur_row@) =~= Seq::<Seq<char>>::empty());
                }
            },
            MdTag::TableRow => {
                if ctx.cur_row.len() > 0 {
                    let cr = clone_rows(&ctx.cur_row);
                    proof {
                        assert(views3(ctx.t_rows@.push(cr)) =~= views3(ctx.t_rows@).push(
                            views(cr@),
                        ));
                    }
                    ctx.t_rows.push(cr);
                    ctx.cur_row = Vec::new();
                    proof {
                        assert(views(ctx.cur_row@) =~= Seq::<Seq<char>>::empty());
                    }
                }
            },
            MdTag::TableCell => {
                if ctx.in_table {
                    let p = clone_chars(&ctx.para);
                    proof {
                        assert(views(ctx.cur_row@.push(p)) =~= views(ctx.cur_row@).push(p@));
                    }
                    ctx.cur_row.push(p);
                    ctx.para = Vec::new();
                    proof {
                        assert(ctx.para@ =~= Seq::<char>::empty());
                    }
                }
            },
            MdTag::CodeBlock(fence) => {
                let ghost fv = match fence {
                    Some(v) => Some(v@),
                    None => None,
                };
                proof {
                    assert(ev@ == EventView::End(TagView::CodeBlock(fv)));
                }
                ctx.in_code = false;
                ctx.lang = Vec::new();
                ctx.out.push('\n');
                proof {
                    assert(ctx.lang@ =~= Seq::<char>::empty());
                    assert(ctx.out@ =~= st.out + seq!['\n']);
                }
            },
            MdTag::List => {
                ctx.in_list = false;
                ctx.out.push('\n');
                proof {
                    assert(ctx.out@ =~= st.out + seq!['\n']);
                }
            },
            MdTag::Item => {
                ctx_flush_para(ctx, width, Ghost(st));
            },
            MdTag::Paragraph => {
                ctx_flush_para(ctx, width, Ghost(st));
                let ghost s1 = flush_para_st(st, prose_width(width as int));
                if !ctx.in_list {
                    ctx.out.push('\n');
                    proof {
                        assert(ctx.out@ =~= s1.out + seq!['\n']);
                    }
                }
            },
            MdTag::Emphasis => {
                ctx.para.push('\u{1b}');
                ctx.para.push('[');
                ctx.para.push('2');
                ctx.para.push('3');
                ctx.para.push('m');
                proof {
                    assert(ctx.para@ =~= st.para + esc_italic_off());
                }
            },
            MdTag::Strong => {
                ctx.para.push('\u{1b}');
                ctx.para.push('[');
                ctx.para.push('2');
                ctx.para.push('2');
                ctx.para.push('m');
                proof {
                    assert(ctx.para@ =~= st.para + esc_bold_off());
                }
            },
            MdTag::Other => {},
        },
        MdEvent::Text(t) => {
            if ctx.in_code {
                let lines = split_lines_keep_endings(t);
                let nl = lines.len();
                let ghost lsv = views(lines@);
                let ghost out0 = ctx.out@;
                let mut k: usize = 0;
                proof {
                    assert(code_text_out(st.lang, lsv.take(0)) =~= Seq::<char>::empty());
                    assert(ctx.out@ =~= out0 + code_text_out(st.lang, lsv.take(0)));
                }
                while k < nl
                    invariant
                        0 <= k <= nl,
                        nl == lines.len(),
                        lsv == views(lines@),
                        ctx.lang@ == st.lang,
                        ctx.lang@.len() > 0 ==> lang_known(ctx.lang@),
                        ctx.para@ == st.para,
                        ctx.in_code == st.in_code,
                        ctx.in_list == st.in_list,
                        ctx.in_table == st.in_table,
                        ctx.t_aligns@ == st.t_aligns,
                        views(ctx.t_headers@) == st.t_headers,
                        views(ctx.cur_row@) == st.cur_row,
                        views3(ctx.t_rows@) == st.t_rows,
                        out0 == st.out,
                        ctx.out@ == out0 + code_text_out(st.lang, lsv.take(k as int)),
                    decreases nl - k,
                {
                    proof {
                        assert(lsv.take(k + 1).drop_last() =~= lsv.take(k as int));
                        assert(lsv.take(k + 1).last() == lsv[k as int]);
                        assert(lsv[k as int] == lines@[k as int]@);
                    }
                    ctx.out.push(' ');
                    ctx.out.push(' ');
                    ctx.out.push(' ');
                    ctx.out.push(' ');
                    if ctx.lang.len() > 0 {
                        let hl = cache.highlight_line(&ctx.lang, &lines[k]);
                        extend_chars(&mut ctx.out, &hl);
                        proof {
                            assert(ctx.out@ =~= out0 + code_text_out(st.lang, lsv.take(k as int))
                                + code_line_out(st.lang, lsv[k as int]));
                        }
                    } else {
                        extend_chars(&mut ctx.out, &lines[k]);
                        proof {
                            assert(ctx.out@ =~= out0 + code_text_out(st.lang, lsv.take(k as int))
                                + code_line_out(st.lang, lsv[k as int]));
                        }
                    }
                    proof {
                        assert(out0 + code_text_out(st.lang, lsv.take(k as int)) + code_line_out(
                            st.lang,
                            lsv[k as int],
                        ) =~= out0 + code_text_out(st.lang, lsv.take(k + 1)));
                    }
                    k = k + 1;
                }
                proof {
                    assert(lsv.take(nl as int) =~= lsv);
                    assert(code_block_out(st.lang, t@) == code_text_out(st.lang, lsv));
                }
            } else {
                extend_chars(&mut ctx.para, t);
            }
        },
        MdEvent::Code(t) => {
            ctx.para.push('`');
            extend_chars(&mut ctx.para, t);
            ctx.para.push('`');
            proof {
                assert(ctx.para@ =~= st.para + seq!['`'] + t@ + seq!['`']);
            }
        },
        MdEvent::SoftBreak => {
            ctx.para.push(' ');
        },
        MdEvent::HardBreak => {
            ctx_flush_para(ctx, width, Ghost(st));
            let ghost s1 = flush_para_st(st, prose_width(width as int));
            ctx.out.push('\n');
            proof {
                assert(ctx.out@ =~= s1.out + seq!['\n']);
            }
        },
        MdEvent::Other => {},
    }
}

/// The renderer configuration: the caller's display width in columns. The
/// mutable per-call state lives in a fresh context for each render.
pub struct MarkdownRenderer {
    pub width: usize,
    pub cache: SyntaxCache,
}

impl MarkdownRenderer {
    /// A renderer for the given display width; loads the syntax cache.
    pub fn new(width: usize) -> (r: MarkdownRenderer)
        ensures
            r.width == width,
    {
        MarkdownRenderer { width, cache: SyntaxCache::new() }
    }

    /// Renders a stream of markdown events to decorated text, exactly as the
    /// transition rules fold over the stream.
    pub fn render_events(&self, events: &Vec<MdEvent>, hint: Option<&Vec<char>>) -> (r: String)
        ensures
            r@ == render_events_spec(
                event_views(events@),
                self.width as int,
                hint_vec_view(hint),
            ),
    {
        let ghost evv = event_views(events@);
        let ghost hv = hint_vec_view(hint);
        let mut ctx = ctx_new();
        let n = events.len();
        let mut i: usize = 0;
        proof {
            assert(evv.take(0).len() == 0);
            assert(r_run(evv.take(0), self.width as int, hv) == r_init());
        }
        while i < n
            invariant
                0 <= i <= n,
                n == events.len(),
                evv == event_views(events@),
                hv == hint_vec_view(hint),
                ctx.matches(r_run(evv.take(i as int), self.width as int, hv)),
                ctx.lang_ok(),
            decreases n - i,
        {
            let ghost st = r_run(evv.take(i as int), self.width as int, hv);
            proof {
                assert(evv.take(i + 1).drop_last() =~= evv.take(i as int));
                assert(evv.take(i + 1).last() == evv[i as int]);
                assert(evv[i as int] == events@[i as int]@);
            }
            ctx_step(&mut ctx, &self.cache, &events[i], self.width, hint, Ghost(st));
            i = i + 1;
        }
        proof {
            assert(evv.take(n as int) =~= evv);
        }
        let ghost st_end = r_run(evv, self.width as int, hv);
        ctx_flush_para(&mut ctx, self.width, Ghost(st_end));
        let ghost st1 = flush_para_st(st_end, prose_width(self.width as int));
        ctx_flush_table(&mut ctx, self.width, Ghost(st1));
        let trimmed = crate::chars::trim_end_chars(&ctx.out);
        string_of_chars(&trimmed)
    }

    fn render_core(&self, text: &str, hint: Option<&Vec<char>>) -> (r: String)
        ensures
            r@ == render_spec(text@, self.width as int, hint_vec_view(hint)),
    {
        let chars = chars_of_str(text);
        let pre = preprocess_table_text(&chars);
        match parse_markdown_table(&pre) {
            Some(pt) => {
                let ghost sp = parse_table_spec(pre@)->Some_0;
                let n = pt.headers.len();
                proof {
                    assert(views(pt.headers@) == sp.0);
                    assert(pt.aligns@ == sp.1);
                    assert(views3(pt.rows@) == sp.2);
                    assert(sp.1.len() == sp.0.len());
                }
                let mut hcells: Vec<TableCell> = Vec::new();
                let mut i: usize = 0;
                while i < n
                    invariant
                        0 <= i <= n,
                        n == pt.headers@.len(),
                        pt.aligns@.len() == n,
                        views(pt.headers@) == sp.0,
                        pt.aligns@ == sp.1,
                        hcells@.len() == i,
                        forall|j: int|
                            0 <= j < i ==> (#[trigger] hcells@[j]).content@ == sp.0[j]
                                && hcells@[j].alignment == sp.1[j],
                    decreases n - i,
                {
                    let content = clone_chars(&pt.headers[i]);
                    let alignment = pt.aligns[i];
                    hcells.push(TableCell { content, alignment });
                    i = i + 1;
                }
                proof {
                    crate::parse::lemma_data_rows_len_all(pre@);
                }
                let nr = pt.rows.len();
                let mut rows: Vec<TableRow> = Vec::new();
                let mut r: usize = 0;
                while r < nr
                    invariant
                        0 <= r <= nr,
                        nr == pt.rows@.len(),
                        n == pt.headers@.len(),
                        pt.aligns@.len() == n,
                        views3(pt.rows@) == sp.2,
                        pt.aligns@ == sp.1,
                        forall|t: int| 0 <= t < nr ==> (#[trigger] sp.2[t]).len() == n,
                        rows@.len() == r,
                        forall|t: int|
                            0 <= t < r ==> cell_contents((#[trigger] rows@[t]).cells@) == sp.2[t]
                                && rows@[t].cells@.len() == n && (forall|j: int|
                                0 <= j < n ==> (#[trigger] rows@[t].cells@[j]).alignment
                                    == sp.1[j]),
                    decreases nr - r,
                {
                    let row = &pt.rows[r];
                    proof {
                        assert(views(row@) == sp.2[r as int]);
                    }
                    let mut rcells: Vec<TableCell> = Vec::new();
                    let mut j: usize = 0;
                    while j < n
                        invariant
                            0 <= j <= n,
                            0 <= r < nr,
                            nr == pt.rows@.len(),
                            row == &pt.rows@[r as int],
                            views(row@) == sp.2[r as int],
                            sp.2[r as int].len() == n,
                            row@.len() == n,
                            pt.aligns@.len() == n,
                            pt.aligns@ == sp.1,
                            rcells@.len() == j,
                            forall|t: int|
                                0 <= t < j ==> (#[trigger] rcells@[t]).content@ == sp.2[r as int][t]
                                    && rcells@[t].alignment == sp.1[t],
                        decreases n - j,
                    {
                        let content = clone_chars(&row[j]);
                        let alignment = pt.aligns[j];
                        rcells.push(TableCell { content, alignment });
                        j = j + 1;
                    }
                    proof {
                        assert(cell_contents(rcells@) =~= sp.2[r as int]);
                    }
                    rows.push(TableRow { cells: rcells });
                    r = r + 1;
                }
                let mut widths0: Vec<usize> = Vec::new();
                let mut w0: usize = 0;
                while w0 < n
                    invariant
                        widths0@.len() == w0,
                        0 <= w0 <= n,
                    decreases n - w0,
                {
                    widths0.push(0);
                    w0 = w0 + 1;
                }
                let mut tb = Table {
                    headers: TableRow { cells: hcells },
                    rows,
                    column_widths: widths0,
                };
                proof {
                    assert(tb.well_formed());
                    assert(tb.header_contents() =~= sp.0);
                    assert(tb.header_aligns() =~= sp.1);
                    assert(tb.rows_contents() =~~= sp.2);
                }
                let tw = table_budget_exec(self.width);
                tb.calculate_column_widths(tw);
                tb.render()
            },
            None => {
                let pres = string_of_chars(&pre);
                let evs = parse_events(pres.as_str());
                self.render_events(&evs, hint)
            },
        }
    }

    /// Renders markdown text for the configured width. Total: every input
    /// yields a string; internal failures degrade to plain text.
    pub fn render(&self, text: &str) -> (r: String)
        ensures
            r@ == render_spec(text@, self.width as int, None),
    {
        self.render_core(text, None)
    }

    /// Like `render`, with a caller-supplied language guess used for code
    /// fences that carry no language of their own.
    pub fn render_with_hint(&self, text: &str, language_hint: Option<&str>) -> (r: String)
        ensures
            r@ == render_spec(text@, self.width as int, hint_view(language_hint)),
    {
        match language_hint {
            Some(h) => {
                let hv = chars_of_str(h);
                self.render_core(text, Some(&hv))
            },
            None => self.render_core(text, None),
        }
    }
}

proof fn lemma_code_text_plain_chars(lines: Seq<Seq<char>>, text: Seq<char>)
    requires
        forall|k: int, j: int|
            0 <= k < lines.len() && 0 <= j < lines[k].len() ==> text.contains(
                #[trigger] lines[k][j],
            ),
    ensures
        forall|j: int|
            0 <= j < code_text_out(Seq::<char>::empty(), lines).len() ==> (#[trigger] code_text_out(
                Seq::<char>::empty(),
                lines,
            )[j]) == ' ' || text.contains(code_text_out(Seq::<char>::empty(), lines)[j]),
    decreases lines.len(),
{
    let e = Seq::<char>::empty();
    if lines.len() > 0 {
        assert(forall|k: int, j: int|
            0 <= k < lines.drop_last().len() && 0 <= j < lines.drop_last()[k].len()
                ==> text.contains(#[trigger] lines.drop_last()[k][j])) by {
            assert(forall|k: int|
                0 <= k < lines.drop_last().len() ==> #[trigger] lines.drop_last()[k] == lines[k]);
        }
        lemma_code_text_plain_chars(lines.drop_last(), text);
        let pre = code_text_out(e, lines.drop_last());
        let line = lines.last();
        assert forall|j: int| 0 <= j < code_text_out(e, lines).len() implies (
        #[trigger] code_text_out(e, lines)[j]) == ' ' || text.contains(
            code_text_out(e, lines)[j],
        ) by {
            assert(code_text_out(e, lines) == pre + code_line_out(e, line));
            if j < pre.len() {
                assert(code_text_out(e, lines)[j] == pre[j]);
            } else {
                let j2 = j - pre.len();
                assert(code_text_out(e, lines)[j] == code_line_out(e, line)[j2]);
                if j2 >= 4 {
                    assert(code_line_out(e, line)[j2] == line[j2 - 4]);
                    assert(lines[lines.len() - 1][j2 - 4] == line[j2 - 4]);
                }
            }
        }
    }
}

/// A fenced code block with an empty language tag and no caller hint takes
/// the plain fallback: no language is retained, and its rendered lines embed
/// no decoration of their own — beyond the indent spaces, every character
/// comes from the block's text.
pub proof fn lemma_plain_code_block(fence: Option<Seq<char>>, text: Seq<char>)
    requires
        opt_or_empty(fence).len() == 0,
    ensures
        effective_lang(fence, None) == Seq::<char>::empty(),
        forall|j: int|
            0 <= j < code_block_out(Seq::<char>::empty(), text).len() ==> (
            #[trigger] code_block_out(Seq::<char>::empty(), text)[j]) == ' ' || text.contains(
                code_block_out(Seq::<char>::empty(), text)[j],
            ),
{
    crate::chars::lemma_lke_chars(text);
    lemma_code_text_plain_chars(lines_keep_endings(text), text);
}

/// The glyphs that only the table layout engine draws.
pub open spec fn is_box_glyph(c: char) -> bool {
    c == '\u{250c}' || c == '\u{252c}' || c == '\u{2510}' || c == '\u{251c}' || c == '\u{253c}'
        || c == '\u{2524}' || c == '\u{2514}' || c == '\u{2534}' || c == '\u{2518}' || c
        == '\u{2502}' || c == '\u{2500}'
}

pub open spec fn glyph_free(s: Seq<char>) -> bool {
    forall|j: int| 0 <= j < s.len() ==> !is_box_glyph(#[trigger] s[j])
}

pub open spec fn is_table_event(ev: EventView) -> bool {
    match ev {
        EventView::Start(tag) => match tag {
            TagView::Table(_) => true,
            TagView::TableHead => true,
            TagView::TableRow => true,
            TagView::TableCell => true,
            _ => false,
        },
        EventView::End(tag) => match tag {
            TagView::Table(_) => true,
            TagView::TableHead => true,
            TagView::TableRow => true,
            TagView::TableCell => true,
            _ => false,
        },
        _ => false,
    }
}

pub open spec fn payload_glyph_free(ev: EventView) -> bool {
    match ev {
        EventView::Text(t) => glyph_free(t),
        EventView::Code(t) => glyph_free(t),
        _ => true,
    }
}

pub open spec fn code_start_plain(ev: EventView, hint: Option<Seq<char>>) -> bool {
    match ev {
        EventView::Start(tag) => match tag {
            TagView::CodeBlock(fence) => effective_lang(fence, hint).len() == 0,
            _ => true,
        },
        _ => true,
    }
}

spec fn no_box_inv(st: RState) -> bool {
    glyph_free(st.out) && glyph_free(st.para) && !st.in_table && st.lang == Seq::<char>::empty()
}

proof fn lemma_step_no_box(st: RState, ev: EventView, width: int, hint: Option<Seq<char>>)
    requires
        no_box_inv(st),
        !is_table_event(ev),
        payload_glyph_free(ev),
        code_start_plain(ev, hint),
    ensures
        no_box_inv(r_step(st, ev, width, hint)),
{
    let ok = |c: char| !is_box_glyph(c);
    let pw = prose_width(width);
    let s1 = flush_para_st(st, pw);
    assert(glyph_free(s1.out)) by {
        lemma_para_flush_chars(st.para, pw, ok);
        assert forall|j: int| 0 <= j < s1.out.len() implies !is_box_glyph(
            #[trigger] s1.out[j],
        ) by {
            if j < st.out.len() {
                assert(s1.out[j] == st.out[j]);
            } else {
                assert(s1.out[j] == para_flush_spec(st.para, pw)[j - st.out.len()]);
                assert(ok(para_flush_spec(st.para, pw)[j - st.out.len()]));
            }
        }
    }
    match ev {
        EventView::Start(tag) => match tag {
            TagView::CodeBlock(fence) => {
                assert(effective_lang(fence, hint) =~= Seq::<char>::empty());
                assert(glyph_free(s1.out + seq!['\n'])) by {
                    assert(forall|j: int|
                        0 <= j < (s1.out + seq!['\n']).len() ==> (#[trigger] (s1.out + seq![
                            '\n',
                        ])[j]) == (if j < s1.out.len() {
                            s1.out[j]
                        } else {
                            '\n'
                        }));
                }
            },
            TagView::Item => {
                assert(glyph_free(seq!['\u{2022}', ' ']));
            },
            TagView::Emphasis => {
                assert(glyph_free(st.para + esc_italic_on())) by {
                    lemma_concat_glyph_free(st.para, esc_italic_on());
                }
            },
            TagView::Strong => {
                assert(glyph_free(st.para + esc_bold_on())) by {
                    lemma_concat_glyph_free(st.para, esc_bold_on());
                }
            },
            _ => {},
        },
        EventView::End(tag) => match tag {
            TagView::CodeBlock(fence) => {
                lemma_concat_glyph_free(st.out, seq!['\n']);
            },
            TagView::List => {
                lemma_concat_glyph_free(st.out, seq!['\n']);
            },
            TagView::Paragraph => {
                lemma_concat_glyph_free(s1.out, seq!['\n']);
            },
            TagView::Emphasis => {
                lemma_concat_glyph_free(st.para, esc_italic_off());
            },
            TagView::Strong => {
                lemma_concat_glyph_free(st.para, esc_bold_off());
            },
            _ => {},
        },
        EventView::Text(t) => {
            if st.in_code {
                let cb = code_block_out(st.lang, t);
                lemma_plain_code_block(Some(Seq::empty()), t);
                assert(glyph_free(cb)) by {
                    assert forall|j: int| 0 <= j < cb.len() implies !is_box_glyph(
                        #[trigger] cb[j],
                    ) by {
                        if cb[j] == ' ' {
                        } else {
                            assert(t.contains(cb[j]));
                            let x = choose|x: int| 0 <= x < t.len() && t[x] == cb[j];
                            assert(!is_box_glyph(t[x]));
                        }
                    }
                }
                lemma_concat_glyph_free(st.out, cb);
            } else {
                lemma_concat_glyph_free(st.para, t);
            }
        },
        EventView::Code(t) => {
            assert(glyph_free(st.para + seq!['`'] + t + seq!['`'])) by {
                lemma_concat_glyph_free(st.para, seq!['`']);
                lemma_concat_glyph_free(st.para + seq!['`'], t);
                lemma_concat_glyph_free(st.para + seq!['`'] + t, seq!['`']);
            }
        },
        EventView::SoftBreak => {
            lemma_concat_glyph_free(st.para, seq![' ']);
            assert(st.para.push(' ') =~= st.para + seq![' ']);
        },
        EventView::HardBreak => {
            lemma_concat_glyph_free(s1.out, seq!['\n']);
        },
        EventView::Other => {},
    }
}

proof fn lemma_concat_glyph_free(a: Seq<char>, b: Seq<char>)
    requires
        glyph_free(a),
        glyph_free(b),
    ensures
        glyph_free(a + b),
{
    assert forall|j: int| 0 <= j < (a + b).len() implies !is_box_glyph(#[trigger] (a + b)[j]) by {
        if j < a.len() {
            assert((a + b)[j] == a[j]);
        } else {
            assert((a + b)[j] == b[j - a.len()]);
        }
    }
}

proof fn lemma_run_no_box(evs: Seq<EventView>, width: int, hint: Option<Seq<char>>)
    requires
        forall|k: int| 0 <= k < evs.len() ==> !is_table_event(#[trigger] evs[k]),
        forall|k: int| 0 <= k < evs.len() ==> payload_glyph_free(#[trigger] evs[k]),
        forall|k: int| 0 <= k < evs.len() ==> code_start_plain(#[trigger] evs[k], hint),
    ensures
        no_box_inv(r_run(evs, width, hint)),
    decreases evs.len(),
{
    if evs.len() == 0 {
        assert(glyph_free(Seq::<char>::empty()));
    } else {
        let pre = evs.drop_last();
        assert(forall|k: int| 0 <= k < pre.len() ==> #[trigger] pre[k] == evs[k]);
        lemma_run_no_box(pre, width, hint);
        lemma_step_no_box(r_run(pre, width, hint), evs.last(), width, hint);
    }
}

/// When the stream holds no table events, the table layout engine is never
/// invoked, and — provided the inline payloads carry no box-drawing glyph of
/// their own and every code block takes the plain fallback — the rendered
/// output contains no box-drawing glyph: those glyphs are drawn by the table
/// engine alone. (A tokenizer can conjure a glyph or a pipe from escaped
/// input text, so the payload conditions are part of the statement.)
pub proof fn lemma_no_table_events_no_box(
    evs: Seq<EventView>,
    width: int,
    hint: Option<Seq<char>>,
)
    requires
        forall|k: int| 0 <= k < evs.len() ==> !is_table_event(#[trigger] evs[k]),
        forall|k: int| 0 <= k < evs.len() ==> payload_glyph_free(#[trigger] evs[k]),
        forall|k: int| 0 <= k < evs.len() ==> code_start_plain(#[trigger] evs[k], hint),
    ensures
        glyph_free(render_events_spec(evs, width, hint)),
{
    let ok = |c: char| !is_box_glyph(c);
    lemma_run_no_box(evs, width, hint);
    let st = r_run(evs, width, hint);
    let pw = prose_width(width);
    let st1 = flush_para_st(st, pw);
    assert(glyph_free(st1.out)) by {
        lemma_para_flush_chars(st.para, pw, ok);
        assert forall|j: int| 0 <= j < st1.out.len() implies !is_box_glyph(
            #[trigger] st1.out[j],
        ) by {
            if j < st.out.len() {
                assert(st1.out[j] == st.out[j]);
            } else {
                assert(st1.out[j] == para_flush_spec(st.para, pw)[j - st.out.len()]);
                assert(ok(para_flush_spec(st.para, pw)[j - st.out.len()]));
            }
        }
    }
    let st2 = flush_table_st(st1, table_budget(width));
    assert(st2 == st1);
    assert(glyph_free(trim_back_spec(st2.out))) by {
        crate::chars::lemma_trim_back_chars_sub(st2.out);
        assert forall|j: int| 0 <= j < trim_back_spec(st2.out).len() implies !is_box_glyph(
            #[trigger] trim_back_spec(st2.out)[j],
        ) by {
            assert(st2.out.contains(trim_back_spec(st2.out)[j]));
            let x = choose|x: int| 0 <= x < st2.out.len() && st2.out[x] == trim_back_spec(
                st2.out,
            )[j];
            assert(!is_box_glyph(st2.out[x]));
        }
    }
}

/// For all inputs with no pipe character, the whole-input table fast path is
/// never taken: the strict parser rejects them.
pub proof fn lemma_no_pipe_no_table(text: Seq<char>)
    requires
        !text.contains('|'),
    ensures
        parse_table_spec(text) is None,
{
    crate::parse::lemma_no_pipe_rejected(text);
}

} // verus!
