//! The laws of the parser's event stream: marker pairing, column count
//! consistency, and the style/content split round trip.

use crate::parser::{run_buf, run_state, spec_run, spec_step, EventModel, State};
use crate::scan::{scan, scan_step, spec_tokenize};
use crate::split::{depth_after, is_sep_marker, next_depth, sep_index_from, spec_split};
use crate::text::spec_trim;
use crate::tokenizer::TableSpecialTokens;
use vstd::prelude::*;

verus! {

/// How many events of `es` satisfy `f`.
pub open spec fn count_events(f: spec_fn(EventModel) -> bool, es: Seq<EventModel>) -> int
    decreases es.len(),
{
    if es.len() == 0 {
        0
    } else {
        (if f(es[0]) {
            1int
        } else {
            0int
        }) + count_events(f, es.drop_first())
    }
}

/// The `TableStart` events.
pub open spec fn ev_table_start() -> spec_fn(EventModel) -> bool {
    |e: EventModel| e is TableStart
}

/// The `TableEnd` events.
pub open spec fn ev_table_end() -> spec_fn(EventModel) -> bool {
    |e: EventModel| e is TableEnd
}

/// The `RowStart` events.
pub open spec fn ev_row_start() -> spec_fn(EventModel) -> bool {
    |e: EventModel| e is RowStart
}

/// The `RowEnd` events.
pub open spec fn ev_row_end() -> spec_fn(EventModel) -> bool {
    |e: EventModel| e is RowEnd
}

/// The `ColStart` events.
pub open spec fn ev_col_start() -> spec_fn(EventModel) -> bool {
    |e: EventModel| e is ColStart
}

/// The `ColEnd` events.
pub open spec fn ev_col_end() -> spec_fn(EventModel) -> bool {
    |e: EventModel| e is ColEnd
}

pub proof fn lemma_count_app(f: spec_fn(EventModel) -> bool, a: Seq<EventModel>, b: Seq<EventModel>)
    ensures
        count_events(f, a + b) == count_events(f, a) + count_events(f, b),
    decreases a.len(),
{
    if a.len() == 0 {
        assert(a + b =~= b);
    } else {
        assert((a + b)[0] == a[0]);
        assert((a + b).drop_first() =~= a.drop_first() + b);
        lemma_count_app(f, a.drop_first(), b);
    }
}

proof fn lemma_count1(f: spec_fn(EventModel) -> bool, a: EventModel)
    ensures
        count_events(f, seq![a]) == (if f(a) {
            1int
        } else {
            0int
        }),
{
    assert(seq![a].drop_first() =~= Seq::<EventModel>::empty());
    assert(count_events(f, seq![a].drop_first()) == 0);
}

proof fn lemma_count2(f: spec_fn(EventModel) -> bool, a: EventModel, b: EventModel)
    ensures
        count_events(f, seq![a, b]) == (if f(a) {
            1int
        } else {
            0int
        }) + (if f(b) {
            1int
        } else {
            0int
        }),
{
    lemma_count1(f, b);
    assert(seq![a, b].drop_first() =~= seq![b]);
}

proof fn lemma_count4(
    f: spec_fn(EventModel) -> bool,
    a: EventModel,
    b: EventModel,
    c: EventModel,
    d: EventModel,
)
    ensures
        count_events(f, seq![a, b, c, d]) == (if f(a) {
            1int
        } else {
            0int
        }) + (if f(b) {
            1int
        } else {
            0int
        }) + (if f(c) {
            1int
        } else {
            0int
        }) + (if f(d) {
            1int
        } else {
            0int
        }),
{
    lemma_count2(f, c, d);
    assert(seq![a, b, c, d].drop_first() =~= seq![b, c, d]);
    assert(seq![b, c, d].drop_first() =~= seq![c, d]);
    assert(count_events(f, seq![b, c, d]) == (if f(b) {
        1int
    } else {
        0int
    }) + count_events(f, seq![c, d]));
}

/// 1 when the condition holds, else 0.
pub open spec fn b2i(x: bool) -> int {
    if x {
        1
    } else {
        0
    }
}

proof fn lemma_counts_each1(a: EventModel)
    ensures
        count_events(ev_table_start(), seq![a]) == b2i(a is TableStart),
        count_events(ev_table_end(), seq![a]) == b2i(a is TableEnd),
        count_events(ev_row_start(), seq![a]) == b2i(a is RowStart),
        count_events(ev_row_end(), seq![a]) == b2i(a is RowEnd),
        count_events(ev_col_start(), seq![a]) == b2i(a is ColStart),
        count_events(ev_col_end(), seq![a]) == b2i(a is ColEnd),
{
    lemma_count1(ev_table_start(), a);
    lemma_count1(ev_table_end(), a);
    lemma_count1(ev_row_start(), a);
    lemma_count1(ev_row_end(), a);
    lemma_count1(ev_col_start(), a);
    lemma_count1(ev_col_end(), a);
}

proof fn lemma_counts_each2(a: EventModel, b: EventModel)
    ensures
        count_events(ev_table_start(), seq![a, b]) == b2i(a is TableStart) + b2i(b is TableStart),
        count_events(ev_table_end(), seq![a, b]) == b2i(a is TableEnd) + b2i(b is TableEnd),
        count_events(ev_row_start(), seq![a, b]) == b2i(a is RowStart) + b2i(b is RowStart),
        count_events(ev_row_end(), seq![a, b]) == b2i(a is RowEnd) + b2i(b is RowEnd),
        count_events(ev_col_start(), seq![a, b]) == b2i(a is ColStart) + b2i(b is ColStart),
        count_events(ev_col_end(), seq![a, b]) == b2i(a is ColEnd) + b2i(b is ColEnd),
{
    lemma_count2(ev_table_start(), a, b);
    lemma_count2(ev_table_end(), a, b);
    lemma_count2(ev_row_start(), a, b);
    lemma_count2(ev_row_end(), a, b);
    lemma_count2(ev_col_start(), a, b);
    lemma_count2(ev_col_end(), a, b);
}

proof fn lemma_counts_each4(a: EventModel, b: EventModel, c: EventModel, d: EventModel)
    ensures
        count_events(ev_table_start(), seq![a, b, c, d]) == b2i(a is TableStart) + b2i(
            b is TableStart,
        ) + b2i(c is TableStart) + b2i(d is TableStart),
        count_events(ev_table_end(), seq![a, b, c, d]) == b2i(a is TableEnd) + b2i(b is TableEnd)
            + b2i(c is TableEnd) + b2i(d is TableEnd),
        count_events(ev_row_start(), seq![a, b, c, d]) == b2i(a is RowStart) + b2i(b is RowStart)
            + b2i(c is RowStart) + b2i(d is RowStart),
        count_events(ev_row_end(), seq![a, b, c, d]) == b2i(a is RowEnd) + b2i(b is RowEnd) + b2i(
            c is RowEnd,
        ) + b2i(d is RowEnd),
        count_events(ev_col_start(), seq![a, b, c, d]) == b2i(a is ColStart) + b2i(b is ColStart)
            + b2i(c is ColStart) + b2i(d is ColStart),
        count_events(ev_col_end(), seq![a, b, c, d]) == b2i(a is ColEnd) + b2i(b is ColEnd) + b2i(
            c is ColEnd,
        ) + b2i(d is ColEnd),
{
    lemma_count4(ev_table_start(), a, b, c, d);
    lemma_count4(ev_table_end(), a, b, c, d);
    lemma_count4(ev_row_start(), a, b, c, d);
    lemma_count4(ev_row_end(), a, b, c, d);
    lemma_count4(ev_col_start(), a, b, c, d);
    lemma_count4(ev_col_end(), a, b, c, d);
}

/// How many open tables a state stands inside.
pub open spec fn tbl_depth(st: State) -> int {
    if st is Idle {
        0
    } else {
        1
    }
}

/// How many open rows a state stands inside.
pub open spec fn row_depth(st: State) -> int {
    if st is ReadRow || st is ReadCol {
        1
    } else {
        0
    }
}

/// The structural marker strings the laws speak of.
pub open spec fn start_marker() -> Seq<char> {
    TableSpecialTokens::TableStart.spec_marker()
}

pub open spec fn end_marker() -> Seq<char> {
    TableSpecialTokens::TableEnd.spec_marker()
}

pub open spec fn row_marker() -> Seq<char> {
    TableSpecialTokens::TableRow.spec_marker()
}

/// A marker that opens a cell: `\n|`, `||`, `\n!` or `!!`.
pub open spec fn is_cell_marker(tok: Seq<char>) -> bool {
    tok == TableSpecialTokens::TableDataCell.spec_marker() || tok
        == TableSpecialTokens::TableDataCell2.spec_marker() || tok
        == TableSpecialTokens::TableHeaderCell.spec_marker() || tok
        == TableSpecialTokens::TableHeaderCell2.spec_marker()
}

/// The eight markers the parser dispatches on are pairwise distinct.
proof fn lemma_markers_distinct()
    ensures
        TableSpecialTokens::TableStart.spec_marker() != TableSpecialTokens::TableCaption.spec_marker(),
        TableSpecialTokens::TableStart.spec_marker() != TableSpecialTokens::TableRow.spec_marker(),
        TableSpecialTokens::TableStart.spec_marker() != TableSpecialTokens::TableEnd.spec_marker(),
        TableSpecialTokens::TableStart.spec_marker() != TableSpecialTokens::TableDataCell.spec_marker(),
        TableSpecialTokens::TableStart.spec_marker() != TableSpecialTokens::TableDataCell2.spec_marker(),
        TableSpecialTokens::TableStart.spec_marker() != TableSpecialTokens::TableHeaderCell.spec_marker(),
        TableSpecialTokens::TableStart.spec_marker() != TableSpecialTokens::TableHeaderCell2.spec_marker(),
        TableSpecialTokens::TableCaption.spec_marker() != TableSpecialTokens::TableRow.spec_marker(),
        TableSpecialTokens::TableCaption.spec_marker() != TableSpecialTokens::TableEnd.spec_marker(),
        TableSpecialTokens::TableCaption.spec_marker() != TableSpecialTokens::TableDataCell.spec_marker(),
        TableSpecialTokens::TableCaption.spec_marker() != TableSpecialTokens::TableDataCell2.spec_marker(),
        TableSpecialTokens::TableCaption.spec_marker() != TableSpecialTokens::TableHeaderCell.spec_marker(),
        TableSpecialTokens::TableCaption.spec_marker() != TableSpecialTokens::TableHeaderCell2.spec_marker(),
        TableSpecialTokens::TableRow.spec_marker() != TableSpecialTokens::TableEnd.spec_marker(),
        TableSpecialTokens::TableRow.spec_marker() != TableSpecialTokens::TableDataCell.spec_marker(),
        TableSpecialTokens::TableRow.spec_marker() != TableSpecialTokens::TableDataCell2.spec_marker(),
        TableSpecialTokens::TableRow.spec_marker() != TableSpecialTokens::TableHeaderCell.spec_marker(),
        TableSpecialTokens::TableRow.spec_marker() != TableSpecialTokens::TableHeaderCell2.spec_marker(),
        TableSpecialTokens::TableEnd.spec_marker() != TableSpecialTokens::TableDataCell.spec_marker(),
        TableSpecialTokens::TableEnd.spec_marker() != TableSpecialTokens::TableDataCell2.spec_marker(),
        TableSpecialTokens::TableEnd.spec_marker() != TableSpecialTokens::TableHeaderCell.spec_marker(),
        TableSpecialTokens::TableEnd.spec_marker() != TableSpecialTokens::TableHeaderCell2.spec_marker(),
        TableSpecialTokens::TableDataCell.spec_marker() != TableSpecialTokens::TableDataCell2.spec_marker(),
        TableSpecialTokens::TableDataCell.spec_marker() != TableSpecialTokens::TableHeaderCell.spec_marker(),
        TableSpecialTokens::TableDataCell.spec_marker() != TableSpecialTokens::TableHeaderCell2.spec_marker(),
        TableSpecialTokens::TableDataCell2.spec_marker() != TableSpecialTokens::TableHeaderCell.spec_marker(),
        TableSpecialTokens::TableDataCell2.spec_marker() != TableSpecialTokens::TableHeaderCell2.spec_marker(),
        TableSpecialTokens::TableHeaderCell.spec_marker() != TableSpecialTokens::TableHeaderCell2.spec_marker(),
{
    assert(TableSpecialTokens::TableStart.spec_marker().len() == 3);
    assert(TableSpecialTokens::TableStart.spec_marker()[0] == '\n');
    assert(TableSpecialTokens::TableStart.spec_marker()[1] == '{');
    assert(TableSpecialTokens::TableStart.spec_marker()[2] == '|');
    assert(TableSpecialTokens::TableCaption.spec_marker().len() == 3);
    assert(TableSpecialTokens::TableCaption.spec_marker()[0] == '\n');
    assert(TableSpecialTokens::TableCaption.spec_marker()[1] == '|');
    assert(TableSpecialTokens::TableCaption.spec_marker()[2] == '+');
    assert(TableSpecialTokens::TableRow.spec_marker().len() == 3);
    assert(TableSpecialTokens::TableRow.spec_marker()[0] == '\n');
    assert(TableSpecialTokens::TableRow.spec_marker()[1] == '|');
    assert(TableSpecialTokens::TableRow.spec_marker()[2] == '-');
    assert(TableSpecialTokens::TableEnd.spec_marker().len() == 3);
    assert(TableSpecialTokens::TableEnd.spec_marker()[0] == '\n');
    assert(TableSpecialTokens::TableEnd.spec_marker()[1] == '|');
    assert(TableSpecialTokens::TableEnd.spec_marker()[2] == '}');
    assert(TableSpecialTokens::TableDataCell.spec_marker().len() == 2);
    assert(TableSpecialTokens::TableDataCell.spec_marker()[0] == '\n');
    assert(TableSpecialTokens::TableDataCell.spec_marker()[1] == '|');
    assert(TableSpecialTokens::TableDataCell2.spec_marker().len() == 2);
    assert(TableSpecialTokens::TableDataCell2.spec_marker()[0] == '|');
    assert(TableSpecialTokens::TableDataCell2.spec_marker()[1] == '|');
    assert(TableSpecialTokens::TableHeaderCell.spec_marker().len() == 2);
    assert(TableSpecialTokens::TableHeaderCell.spec_marker()[0] == '\n');
    assert(TableSpecialTokens::TableHeaderCell.spec_marker()[1] == '!');
    assert(TableSpecialTokens::TableHeaderCell2.spec_marker().len() == 2);
    assert(TableSpecialTokens::TableHeaderCell2.spec_marker()[0] == '!');
    assert(TableSpecialTokens::TableHeaderCell2.spec_marker()[1] == '!');
}

/// All the facts about one step that the laws rest on: which events a
/// step emits, and when it enters or leaves the table.
proof fn lemma_step_facts(p: Set<Seq<char>>, st: State, buf: Seq<char>, tok: Seq<char>)
    ensures
        ({
            let step = spec_step(p, st, buf, tok);
            &&& count_events(ev_table_start(), step.2) == (if st is Idle && tok
                == start_marker() {
                1int
            } else {
                0int
            })
            &&& count_events(ev_table_end(), step.2) == (if (st is ReadTable || st is ReadRow
                || st is ReadCol) && tok == end_marker() {
                1int
            } else {
                0int
            })
            &&& count_events(ev_table_start(), step.2) - count_events(ev_table_end(), step.2)
                == tbl_depth(step.0) - tbl_depth(st)
            &&& count_events(ev_row_start(), step.2) - count_events(ev_row_end(), step.2)
                == row_depth(step.0) - row_depth(st)
            &&& (step.0 is Idle <==> ((st is Idle && tok != start_marker()) || ((st is ReadTable
                || st is ReadRow || st is ReadCol) && tok == end_marker())))
            &&& (st is Idle && tok != start_marker() ==> step.2 =~= Seq::<EventModel>::empty()
                && step.1 == buf)
            &&& count_events(ev_col_end(), step.2) == (if st is ReadCol && (is_cell_marker(tok)
                || tok == row_marker() || tok == end_marker()) {
                1int
            } else {
                0int
            })
            &&& count_events(ev_col_start(), step.2) == (if (st is ReadRow && is_cell_marker(
                tok,
            )) || (st is ReadTableCaption && tok
                == TableSpecialTokens::TableHeaderCell.spec_marker()) {
                1int
            } else {
                0int
            })
        }),
{
    let step = spec_step(p, st, buf, tok);
    lemma_markers_distinct();
    let style = crate::split::spec_split(p, crate::text::spec_trim(buf)).0;
    let content = crate::split::spec_split(p, crate::text::spec_trim(buf)).1;
    let hc = crate::parser::CellType::HeaderCell;
    let dc = crate::parser::CellType::DataCell;
    lemma_counts_each1(EventModel::TableStart);
    lemma_counts_each1(EventModel::TableEnd);
    lemma_counts_each2(EventModel::TableStyle(content), EventModel::TableCaptionStart);
    lemma_counts_each2(EventModel::TableStyle(content), EventModel::RowStart);
    lemma_counts_each2(EventModel::TableCaption(content), EventModel::RowStart);
    lemma_counts_each4(
        EventModel::TableCaption(content),
        EventModel::RowStart,
        EventModel::RowStyle(Seq::<char>::empty()),
        EventModel::ColStart(hc),
    );
    lemma_counts_each2(EventModel::RowStyle(content), EventModel::ColStart(dc));
    lemma_counts_each2(EventModel::RowStyle(content), EventModel::ColStart(hc));
    lemma_counts_each2(EventModel::RowEnd, EventModel::TableEnd);
    lemma_counts_each2(EventModel::ColStyle(style), EventModel::ColEnd(content));
    lemma_counts_each4(
        EventModel::ColStyle(style),
        EventModel::ColEnd(content),
        EventModel::RowEnd,
        EventModel::RowStart,
    );
    lemma_counts_each4(
        EventModel::ColStyle(style),
        EventModel::ColEnd(content),
        EventModel::RowEnd,
        EventModel::TableEnd,
    );
}

/// A run over concatenated token sequences is the two runs in sequence.
pub proof fn lemma_run_app(
    p: Set<Seq<char>>,
    st: State,
    buf: Seq<char>,
    t1: Seq<Seq<char>>,
    t2: Seq<Seq<char>>,
)
    ensures
        spec_run(p, st, buf, t1 + t2) == spec_run(p, st, buf, t1) + spec_run(
            p,
            run_state(p, st, buf, t1),
            run_buf(p, st, buf, t1),
            t2,
        ),
        run_state(p, st, buf, t1 + t2) == run_state(
            p,
            run_state(p, st, buf, t1),
            run_buf(p, st, buf, t1),
            t2,
        ),
        run_buf(p, st, buf, t1 + t2) == run_buf(
            p,
            run_state(p, st, buf, t1),
            run_buf(p, st, buf, t1),
            t2,
        ),
    decreases t1.len(),
{
    if t1.len() == 0 {
        assert(t1 + t2 =~= t2);
        assert(spec_run(p, st, buf, t1) =~= Seq::<EventModel>::empty());
        assert(spec_run(p, st, buf, t1) + spec_run(p, st, buf, t2) =~= spec_run(p, st, buf, t2));
    } else {
        let step = spec_step(p, st, buf, t1[0]);
        assert((t1 + t2)[0] == t1[0]);
        assert((t1 + t2).drop_first() =~= t1.drop_first() + t2);
        lemma_run_app(p, step.0, step.1, t1.drop_first(), t2);
        let mid_st = run_state(p, st, buf, t1);
        let mid_buf = run_buf(p, st, buf, t1);
        assert(step.2 + (spec_run(p, step.0, step.1, t1.drop_first()) + spec_run(
            p,
            mid_st,
            mid_buf,
            t2,
        )) =~= (step.2 + spec_run(p, step.0, step.1, t1.drop_first())) + spec_run(
            p,
            mid_st,
            mid_buf,
            t2,
        ));
    }
}

/// Across any run, table starts minus table ends equals the change in
/// table depth, and row starts minus row ends the change in row depth.
pub proof fn lemma_run_balance(p: Set<Seq<char>>, st: State, buf: Seq<char>, toks: Seq<Seq<char>>)
    ensures
        count_events(ev_table_start(), spec_run(p, st, buf, toks)) - count_events(
            ev_table_end(),
            spec_run(p, st, buf, toks),
        ) == tbl_depth(run_state(p, st, buf, toks)) - tbl_depth(st),
        count_events(ev_row_start(), spec_run(p, st, buf, toks)) - count_events(
            ev_row_end(),
            spec_run(p, st, buf, toks),
        ) == row_depth(run_state(p, st, buf, toks)) - row_depth(st),
    decreases toks.len(),
{
    if toks.len() == 0 {
    } else {
        let step = spec_step(p, st, buf, toks[0]);
        lemma_step_facts(p, st, buf, toks[0]);
        lemma_run_balance(p, step.0, step.1, toks.drop_first());
        lemma_count_app(ev_table_start(), step.2, spec_run(p, step.0, step.1, toks.drop_first()));
        lemma_count_app(ev_table_end(), step.2, spec_run(p, step.0, step.1, toks.drop_first()));
        lemma_count_app(ev_row_start(), step.2, spec_run(p, step.0, step.1, toks.drop_first()));
        lemma_count_app(ev_row_end(), step.2, spec_run(p, step.0, step.1, toks.drop_first()));
    }
}

/// Without a table-start token no `TableStart` event is emitted.
pub proof fn lemma_run_no_start(p: Set<Seq<char>>, st: State, buf: Seq<char>, toks: Seq<Seq<char>>)
    requires
        forall|i: int| 0 <= i < toks.len() ==> #[trigger] toks[i] != start_marker(),
    ensures
        count_events(ev_table_start(), spec_run(p, st, buf, toks)) == 0,
    decreases toks.len(),
{
    if toks.len() > 0 {
        let step = spec_step(p, st, buf, toks[0]);
        lemma_step_facts(p, st, buf, toks[0]);
        assert(forall|i: int|
            0 <= i < toks.drop_first().len() ==> #[trigger] toks.drop_first()[i]
                != start_marker());
        lemma_run_no_start(p, step.0, step.1, toks.drop_first());
        lemma_count_app(ev_table_start(), step.2, spec_run(p, step.0, step.1, toks.drop_first()));
    }
}

/// Without a table-end token no `TableEnd` event is emitted, and a run
/// that stands inside a table stays inside it.
pub proof fn lemma_run_no_end(p: Set<Seq<char>>, st: State, buf: Seq<char>, toks: Seq<Seq<char>>)
    requires
        forall|i: int| 0 <= i < toks.len() ==> #[trigger] toks[i] != end_marker(),
    ensures
        count_events(ev_table_end(), spec_run(p, st, buf, toks)) == 0,
        !(st is Idle) ==> !(run_state(p, st, buf, toks) is Idle),
    decreases toks.len(),
{
    if toks.len() > 0 {
        let step = spec_step(p, st, buf, toks[0]);
        lemma_step_facts(p, st, buf, toks[0]);
        assert(forall|i: int|
            0 <= i < toks.drop_first().len() ==> #[trigger] toks.drop_first()[i] != end_marker());
        lemma_run_no_end(p, step.0, step.1, toks.drop_first());
        lemma_count_app(ev_table_end(), step.2, spec_run(p, step.0, step.1, toks.drop_first()));
    }
}

/// Before any table-start token arrives, the parser stays in `Idle`,
/// emits nothing and leaves the buffer alone.
pub proof fn lemma_run_idle(p: Set<Seq<char>>, buf: Seq<char>, toks: Seq<Seq<char>>)
    requires
        forall|i: int| 0 <= i < toks.len() ==> #[trigger] toks[i] != start_marker(),
    ensures
        spec_run(p, State::Idle, buf, toks) == Seq::<EventModel>::empty(),
        run_state(p, State::Idle, buf, toks) is Idle,
        run_buf(p, State::Idle, buf, toks) == buf,
    decreases toks.len(),
{
    if toks.len() == 0 {
        assert(spec_run(p, State::Idle, buf, toks) =~= Seq::<EventModel>::empty());
    } else {
        let step = spec_step(p, State::Idle, buf, toks[0]);
        lemma_step_facts(p, State::Idle, buf, toks[0]);
        assert(forall|i: int|
            0 <= i < toks.drop_first().len() ==> #[trigger] toks.drop_first()[i]
                != start_marker());
        lemma_run_idle(p, buf, toks.drop_first());
        assert(spec_run(p, State::Idle, buf, toks) =~= step.2 + spec_run(
            p,
            State::Idle,
            buf,
            toks.drop_first(),
        ));
        assert(spec_run(p, State::Idle, buf, toks) =~= Seq::<EventModel>::empty());
    }
}

/// Marker pairing. A well-formed table input carries exactly one
/// table-start and one table-end token, the start before the end: its
/// token sequence is `a + [start] + b + [end] + c` where `a`, `b` and `c`
/// hold neither marker. Provided the end marker does not arrive while a
/// caption is being read (where it is ignored), the event stream holds
/// exactly one `TableStart` and exactly one `TableEnd`, and as many
/// `RowStart` events as `RowEnd` events.
pub proof fn lemma_marker_pairing(
    p: Set<Seq<char>>,
    a: Seq<Seq<char>>,
    b: Seq<Seq<char>>,
    c: Seq<Seq<char>>,
)
    requires
        forall|i: int|
            0 <= i < a.len() ==> #[trigger] a[i] != start_marker() && a[i] != end_marker(),
        forall|i: int|
            0 <= i < b.len() ==> #[trigger] b[i] != start_marker() && b[i] != end_marker(),
        forall|i: int|
            0 <= i < c.len() ==> #[trigger] c[i] != start_marker() && c[i] != end_marker(),
        !(run_state(p, State::ReadTable, Seq::<char>::empty(), b) is ReadTableCaption),
    ensures
        ({
            let toks = a + seq![start_marker()] + b + seq![end_marker()] + c;
            let es = spec_run(p, State::Idle, Seq::<char>::empty(), toks);
            &&& count_events(ev_table_start(), es) == 1
            &&& count_events(ev_table_end(), es) == 1
            &&& count_events(ev_row_start(), es) == count_events(ev_row_end(), es)
        }),
{
    let empty = Seq::<char>::empty();
    let s1 = seq![start_marker()];
    let e1 = seq![end_marker()];
    let toks = a + s1 + b + e1 + c;
    lemma_markers_distinct();

    // over `a`: nothing happens
    lemma_run_idle(p, empty, a);
    lemma_run_app(p, State::Idle, empty, a, s1);

    // the start token: one TableStart event, into the table
    let step_s = spec_step(p, State::Idle, empty, start_marker());
    lemma_step_facts(p, State::Idle, empty, start_marker());
    assert(spec_run(p, State::Idle, empty, s1) =~= step_s.2 + spec_run(
        p,
        step_s.0,
        step_s.1,
        s1.drop_first(),
    ));
    assert(s1.drop_first().len() == 0);
    assert(spec_run(p, State::Idle, empty, s1) =~= step_s.2);
    assert(step_s.0 == State::ReadTable);
    assert(step_s.1 == empty);
    assert(s1[0] == start_marker());
    assert(run_state(p, step_s.0, step_s.1, s1.drop_first()) == step_s.0);
    assert(run_buf(p, step_s.0, step_s.1, s1.drop_first()) == step_s.1);
    assert(run_state(p, State::Idle, empty, s1) == State::ReadTable);
    assert(run_buf(p, State::Idle, empty, s1) == empty);
    lemma_counts_each1(EventModel::TableStart);
    assert(count_events(ev_table_start(), step_s.2) == 1);
    assert(count_events(ev_table_end(), step_s.2) == 0);

    // over the prefix `a + s1`
    let pre1 = a + s1;
    assert(run_state(p, State::Idle, empty, pre1) == State::ReadTable);
    assert(run_buf(p, State::Idle, empty, pre1) == empty);
    let es1 = spec_run(p, State::Idle, empty, pre1);
    lemma_count_app(ev_table_start(), spec_run(p, State::Idle, empty, a), step_s.2);
    lemma_count_app(ev_table_end(), spec_run(p, State::Idle, empty, a), step_s.2);
    assert(count_events(ev_table_start(), es1) == 1);
    assert(count_events(ev_table_end(), es1) == 0);

    // over `b`: no table events, never back to Idle
    let st_b = run_state(p, State::ReadTable, empty, b);
    let buf_b = run_buf(p, State::ReadTable, empty, b);
    lemma_run_no_start(p, State::ReadTable, empty, b);
    lemma_run_no_end(p, State::ReadTable, empty, b);
    assert(!(st_b is Idle));
    assert(!(st_b is ReadTableCaption));
    lemma_run_app(p, State::Idle, empty, pre1, b);
    let pre2 = pre1 + b;
    let es_b = spec_run(p, State::ReadTable, empty, b);
    lemma_count_app(ev_table_start(), es1, es_b);
    lemma_count_app(ev_table_end(), es1, es_b);
    let es2 = spec_run(p, State::Idle, empty, pre2);
    assert(count_events(ev_table_start(), es2) == 1);
    assert(count_events(ev_table_end(), es2) == 0);
    assert(run_state(p, State::Idle, empty, pre2) == st_b);
    assert(run_buf(p, State::Idle, empty, pre2) == buf_b);

    // the end token: one TableEnd event, back to Idle
    let step_e = spec_step(p, st_b, buf_b, end_marker());
    lemma_step_facts(p, st_b, buf_b, end_marker());
    assert(st_b is ReadTable || st_b is ReadRow || st_b is ReadCol);
    assert(count_events(ev_table_end(), step_e.2) == 1);
    assert(count_events(ev_table_start(), step_e.2) == 0);
    assert(step_e.0 is Idle);
    assert(spec_run(p, st_b, buf_b, e1) =~= step_e.2 + spec_run(
        p,
        step_e.0,
        step_e.1,
        e1.drop_first(),
    ));
    assert(e1.drop_first().len() == 0);
    assert(spec_run(p, st_b, buf_b, e1) =~= step_e.2);
    assert(e1[0] == end_marker());
    assert(run_state(p, step_e.0, step_e.1, e1.drop_first()) == step_e.0);
    assert(run_buf(p, step_e.0, step_e.1, e1.drop_first()) == step_e.1);
    assert(run_state(p, st_b, buf_b, e1) == step_e.0);
    lemma_run_app(p, State::Idle, empty, pre2, e1);
    let pre3 = pre2 + e1;
    lemma_count_app(ev_table_start(), es2, step_e.2);
    lemma_count_app(ev_table_end(), es2, step_e.2);
    let es3 = spec_run(p, State::Idle, empty, pre3);
    assert(count_events(ev_table_start(), es3) == 1);
    assert(count_events(ev_table_end(), es3) == 1);
    assert(run_state(p, State::Idle, empty, pre3) is Idle);

    // over `c`: nothing happens
    lemma_run_idle(p, run_buf(p, State::Idle, empty, pre3), c);
    lemma_run_app(p, State::Idle, empty, pre3, c);
    assert(toks =~= pre3 + c);
    let es = spec_run(p, State::Idle, empty, toks);
    let es_c = spec_run(p, run_state(p, State::Idle, empty, pre3), run_buf(p, State::Idle, empty, pre3), c);
    assert(es_c =~= Seq::<EventModel>::empty());
    lemma_count_app(ev_table_start(), es3, es_c);
    lemma_count_app(ev_table_end(), es3, es_c);
    assert(es =~= es3 + es_c);
    assert(count_events(ev_table_start(), es) == 1);
    assert(count_events(ev_table_end(), es) == 1);

    // rows: the run starts and ends outside any table
    assert(run_state(p, State::Idle, empty, toks) is Idle);
    lemma_run_balance(p, State::Idle, empty, toks);
}


/// A run over a single token is a single step.
proof fn lemma_run_one(p: Set<Seq<char>>, st: State, buf: Seq<char>, t: Seq<char>)
    ensures
        spec_run(p, st, buf, seq![t]) == spec_step(p, st, buf, t).2,
        run_state(p, st, buf, seq![t]) == spec_step(p, st, buf, t).0,
        run_buf(p, st, buf, seq![t]) == spec_step(p, st, buf, t).1,
{
    let step = spec_step(p, st, buf, t);
    assert(seq![t][0] == t);
    assert(seq![t].drop_first().len() == 0);
    assert(spec_run(p, step.0, step.1, seq![t].drop_first()) =~= Seq::<EventModel>::empty());
    assert(run_state(p, step.0, step.1, seq![t].drop_first()) == step.0);
    assert(run_buf(p, step.0, step.1, seq![t].drop_first()) == step.1);
    assert(spec_run(p, st, buf, seq![t]) =~= step.2 + spec_run(
        p,
        step.0,
        step.1,
        seq![t].drop_first(),
    ));
    assert(step.2 + Seq::<EventModel>::empty() =~= step.2);
}

/// How many cell markers a token sequence holds.
pub open spec fn cell_mark_count(toks: Seq<Seq<char>>) -> int
    decreases toks.len(),
{
    if toks.len() == 0 {
        0
    } else {
        (if is_cell_marker(toks[0]) {
            1int
        } else {
            0int
        }) + cell_mark_count(toks.drop_first())
    }
}

pub proof fn lemma_cell_mark_count_nonneg(toks: Seq<Seq<char>>)
    ensures
        cell_mark_count(toks) >= 0,
    decreases toks.len(),
{
    if toks.len() > 0 {
        lemma_cell_mark_count_nonneg(toks.drop_first());
    }
}

/// Inside a cell, over tokens holding no row and no table-end marker:
/// every cell marker closes exactly one cell, no new column is opened
/// explicitly, and the parser stays inside the row.
proof fn lemma_cells_in_col(p: Set<Seq<char>>, buf: Seq<char>, toks: Seq<Seq<char>>)
    requires
        forall|i: int|
            0 <= i < toks.len() ==> #[trigger] toks[i] != row_marker() && toks[i] != end_marker(),
    ensures
        count_events(ev_col_end(), spec_run(p, State::ReadCol, buf, toks)) == cell_mark_count(
            toks,
        ),
        count_events(ev_col_start(), spec_run(p, State::ReadCol, buf, toks)) == 0,
        run_state(p, State::ReadCol, buf, toks) == State::ReadCol,
    decreases toks.len(),
{
    if toks.len() > 0 {
        let step = spec_step(p, State::ReadCol, buf, toks[0]);
        lemma_step_facts(p, State::ReadCol, buf, toks[0]);
        lemma_markers_distinct();
        assert(forall|i: int|
            0 <= i < toks.drop_first().len() ==> #[trigger] toks.drop_first()[i] != row_marker()
                && toks.drop_first()[i] != end_marker());
        assert(step.0 == State::ReadCol);
        lemma_cells_in_col(p, step.1, toks.drop_first());
        lemma_count_app(ev_col_end(), step.2, spec_run(p, step.0, step.1, toks.drop_first()));
        lemma_count_app(ev_col_start(), step.2, spec_run(p, step.0, step.1, toks.drop_first()));
    }
}

/// Column count consistency, per row: from the start of a row to its
/// closing marker (the next row marker or the table end), the number of
/// `ColEnd` events is exactly the number of cell markers in the row, and
/// `ColStart` is emitted once as soon as the row has any cell at all.
/// The cell events of a row are therefore determined by its cell-marker
/// count alone, whatever text stands between them.
pub proof fn lemma_row_cell_count(
    p: Set<Seq<char>>,
    buf: Seq<char>,
    toks: Seq<Seq<char>>,
    t: Seq<char>,
)
    requires
        forall|i: int|
            0 <= i < toks.len() ==> #[trigger] toks[i] != row_marker() && toks[i] != end_marker(),
        t == row_marker() || t == end_marker(),
    ensures
        count_events(ev_col_end(), spec_run(p, State::ReadRow, buf, toks.push(t)))
            == cell_mark_count(toks),
        count_events(ev_col_start(), spec_run(p, State::ReadRow, buf, toks.push(t))) == (
        if cell_mark_count(toks) > 0 {
            1int
        } else {
            0int
        }),
    decreases toks.len(),
{
    lemma_markers_distinct();
    if toks.len() == 0 {
        assert(toks.push(t) =~= seq![t]);
        lemma_run_one(p, State::ReadRow, buf, t);
        lemma_step_facts(p, State::ReadRow, buf, t);
    } else {
        let step = spec_step(p, State::ReadRow, buf, toks[0]);
        lemma_step_facts(p, State::ReadRow, buf, toks[0]);
        assert(toks.push(t)[0] == toks[0]);
        assert(toks.push(t).drop_first() =~= toks.drop_first().push(t));
        assert(forall|i: int|
            0 <= i < toks.drop_first().len() ==> #[trigger] toks.drop_first()[i] != row_marker()
                && toks.drop_first()[i] != end_marker());
        if is_cell_marker(toks[0]) {
            // the first cell opens: ColStart now, one ColEnd per marker after
            lemma_cell_mark_count_nonneg(toks.drop_first());
            assert(step.0 == State::ReadCol);
            assert(count_events(ev_col_start(), step.2) == 1);
            assert(count_events(ev_col_end(), step.2) == 0);
            let rest = toks.drop_first().push(t);
            assert(rest =~= toks.drop_first() + seq![t]);
            lemma_run_app(p, State::ReadCol, step.1, toks.drop_first(), seq![t]);
            lemma_cells_in_col(p, step.1, toks.drop_first());
            let mid_buf = run_buf(p, State::ReadCol, step.1, toks.drop_first());
            lemma_run_one(p, State::ReadCol, mid_buf, t);
            let step_t = spec_step(p, State::ReadCol, mid_buf, t);
            lemma_step_facts(p, State::ReadCol, mid_buf, t);
            assert(count_events(ev_col_end(), step_t.2) == 1);
            assert(count_events(ev_col_start(), step_t.2) == 0);
            let es_mid = spec_run(p, State::ReadCol, step.1, toks.drop_first());
            lemma_count_app(ev_col_end(), es_mid, step_t.2);
            lemma_count_app(ev_col_start(), es_mid, step_t.2);
            let es_rest = spec_run(p, State::ReadCol, step.1, rest);
            lemma_count_app(ev_col_end(), step.2, es_rest);
            lemma_count_app(ev_col_start(), step.2, es_rest);
        } else {
            assert(step.0 == State::ReadRow);
            assert(count_events(ev_col_start(), step.2) == 0);
            assert(count_events(ev_col_end(), step.2) == 0);
            lemma_row_cell_count(p, step.1, toks.drop_first(), t);
            let es_rest = spec_run(p, State::ReadRow, step.1, toks.drop_first().push(t));
            lemma_count_app(ev_col_end(), step.2, es_rest);
            lemma_count_app(ev_col_start(), step.2, es_rest);
        }
    }
}

/// Column count consistency, across rows: two rows with the same number
/// of cell markers produce the same number of cells, whatever their text
/// and however they are closed.
pub proof fn lemma_column_count_consistency(
    p: Set<Seq<char>>,
    buf1: Seq<char>,
    buf2: Seq<char>,
    r1: Seq<Seq<char>>,
    r2: Seq<Seq<char>>,
    t1: Seq<char>,
    t2: Seq<char>,
)
    requires
        forall|i: int|
            0 <= i < r1.len() ==> #[trigger] r1[i] != row_marker() && r1[i] != end_marker(),
        forall|i: int|
            0 <= i < r2.len() ==> #[trigger] r2[i] != row_marker() && r2[i] != end_marker(),
        t1 == row_marker() || t1 == end_marker(),
        t2 == row_marker() || t2 == end_marker(),
        cell_mark_count(r1) == cell_mark_count(r2),
    ensures
        count_events(ev_col_end(), spec_run(p, State::ReadRow, buf1, r1.push(t1))) == count_events(
            ev_col_end(),
            spec_run(p, State::ReadRow, buf2, r2.push(t2)),
        ),
{
    lemma_row_cell_count(p, buf1, r1, t1);
    lemma_row_cell_count(p, buf2, r2, t2);
}


/// The path set of the cell-content tokenizer: every nonempty prefix of
/// the cell-content vocabulary. `Tokenizer::build` over
/// `get_all_cell_text_special_tokens()` yields a tokenizer with exactly
/// this view.
pub open spec fn cell_token_paths() -> Set<Seq<char>> {
    crate::tokenizer::prefix_closure(crate::tokenizer::cell_vocab())
}

/// In the cell-content vocabulary, the separator `|` is a whole path of
/// its own and part of no other: no path ends in `|` after other
/// characters, and none continues past it.
proof fn lemma_cell_paths_sep()
    ensures
        cell_token_paths().contains(seq!['|']),
        forall|tmp: Seq<char>|
            #[trigger] cell_token_paths().contains(tmp.push('|')) <==> tmp.len() == 0,
        forall|c: char| !(#[trigger] cell_token_paths().contains(seq!['|'].push(c))),
{
    let vs = crate::tokenizer::cell_vocab();
    assert(vs[0] =~= seq!['[', '[']);
    assert(vs[1] =~= seq![']', ']']);
    assert(vs[2] =~= seq!['{', '{']);
    assert(vs[3] =~= seq!['}', '}']);
    assert(vs[4] =~= seq!['s', 't', 'y', 'l', 'e']);
    assert(vs[5] =~= seq!['|']);
    assert(cell_token_paths().contains(seq!['|'])) by {
        assert(seq!['|'].is_prefix_of(vs[5]));
    }
    assert forall|tmp: Seq<char>|
        #[trigger] cell_token_paths().contains(tmp.push('|')) <==> tmp.len() == 0 by {
        if tmp.len() == 0 {
            assert(tmp.push('|') =~= seq!['|']);
        }
        if cell_token_paths().contains(tmp.push('|')) && tmp.len() > 0 {
            let q = tmp.push('|');
            let i = choose|i: int| 0 <= i < vs.len() && q.is_prefix_of(#[trigger] vs[i]);
            assert(q.len() >= 2);
            assert(q[q.len() - 1] == '|');
            assert(q[q.len() - 1] == vs[i][q.len() - 1]);
            if i == 0 {
                assert(vs[0][1] == '[');
            } else if i == 1 {
                assert(vs[1][1] == ']');
            } else if i == 2 {
                assert(vs[2][1] == '{');
            } else if i == 3 {
                assert(vs[3][1] == '}');
            } else if i == 4 {
                assert(vs[4][1] == 't' && vs[4][2] == 'y' && vs[4][3] == 'l' && vs[4][4] == 'e');
            } else {
                assert(vs[5].len() == 1);
            }
            assert(false);
        }
    }
    assert forall|c: char| !(#[trigger] cell_token_paths().contains(seq!['|'].push(c))) by {
        if cell_token_paths().contains(seq!['|'].push(c)) {
            let q = seq!['|'].push(c);
            let i = choose|i: int| 0 <= i < vs.len() && q.is_prefix_of(#[trigger] vs[i]);
            assert(q.len() == 2);
            assert(q[0] == '|');
            assert(q[0] == vs[i][0]);
            if i == 0 {
                assert(vs[0][0] == '[');
            } else if i == 1 {
                assert(vs[1][0] == ']');
            } else if i == 2 {
                assert(vs[2][0] == '{');
            } else if i == 3 {
                assert(vs[3][0] == '}');
            } else if i == 4 {
                assert(vs[4][0] == 's');
            } else {
                assert(vs[5].len() == 1);
            }
            assert(false);
        }
    }
}

/// After the scan has just committed up to a lone `|`, scanning on is the
/// fresh scan of the rest, with the `|` handed out first.
proof fn lemma_scan_after_pipe(b: Seq<char>)
    requires
        b.len() > 0,
    ensures
        scan(cell_token_paths(), seq!['|'], b).0 == seq![seq!['|']] + scan(
            cell_token_paths(),
            Seq::<char>::empty(),
            b,
        ).0,
        scan(cell_token_paths(), seq!['|'], b).1 == scan(
            cell_token_paths(),
            Seq::<char>::empty(),
            b,
        ).1,
{
    let p = cell_token_paths();
    lemma_cell_paths_sep();
    let c = b[0];
    assert(!p.contains(seq!['|'].push(c)));
    let s1 = scan_step(p, seq!['|'], c);
    let s2 = scan_step(p, Seq::<char>::empty(), c);
    assert(Seq::<char>::empty().push(c) =~= seq![c]);
    if p.contains(seq![c]) {
        assert(s1 == (seq![seq!['|']], seq![c]));
        assert(s2 == (Seq::<Seq<char>>::empty(), seq![c]));
    } else {
        assert(s1 == (seq![seq!['|']].push(seq![c]), Seq::<char>::empty()));
        assert(s2 == (Seq::<Seq<char>>::empty().push(seq![c]), Seq::<char>::empty()));
    }
    assert(s1.1 == s2.1);
    let rest = scan(p, s1.1, b.drop_first());
    assert(scan(p, seq!['|'], b).0 =~= s1.0 + rest.0);
    assert(scan(p, Seq::<char>::empty(), b).0 =~= s2.0 + rest.0);
    assert(s1.0 =~= seq![seq!['|']] + s2.0);
    assert(scan(p, seq!['|'], b).0 =~= seq![seq!['|']] + (s2.0 + rest.0));
    assert(scan(p, seq!['|'], b).1 == rest.1);
    assert(scan(p, Seq::<char>::empty(), b).1 == rest.1);
}

/// Tokenizing `a + "|" + b` with the cell-content vocabulary tokenizes
/// `a` and `b` separately, with the `|` as a token of its own between
/// them: no marker of that vocabulary spans the separator.
proof fn lemma_tokenize_around_sep(a: Seq<char>, b: Seq<char>)
    ensures
        spec_tokenize(cell_token_paths(), a + seq!['|'] + b) == spec_tokenize(
            cell_token_paths(),
            a,
        ) + seq![seq!['|']] + spec_tokenize(cell_token_paths(), b),
{
    let p = cell_token_paths();
    lemma_cell_paths_sep();
    let empty = Seq::<char>::empty();
    let u = seq!['|'] + b;
    assert(a + seq!['|'] + b =~= a + u);
    crate::scan::lemma_scan_app(p, empty, a, u);
    let o1 = scan(p, empty, a).0;
    let t1 = scan(p, empty, a).1;
    // the separator commits the pending match and stands alone
    assert(u[0] == '|');
    assert(u.drop_first() =~= b);
    let s1 = scan_step(p, t1, '|');
    assert(!p.contains(t1.push('|')) <==> t1.len() > 0);
    if t1.len() == 0 {
        assert(t1.push('|') =~= seq!['|']);
        assert(p.contains(t1.push('|')));
        assert(s1 == (Seq::<Seq<char>>::empty(), t1.push('|')));
        assert(s1.1 =~= seq!['|']);
    } else {
        assert(p.contains(seq!['|']));
        assert(s1 == (seq![t1], seq!['|']));
    }
    let sb = scan(p, s1.1, b);
    assert(scan(p, t1, u).0 =~= s1.0 + sb.0);
    assert(scan(p, t1, u).1 == sb.1);
    assert(scan(p, empty, a + u).0 =~= o1 + (s1.0 + sb.0));
    assert(scan(p, empty, a + u).1 == sb.1);
    let tok_a = spec_tokenize(p, a);
    let tok_b = spec_tokenize(p, b);
    if b.len() == 0 {
        assert(sb == (Seq::<Seq<char>>::empty(), s1.1));
        assert(s1.1 =~= seq!['|']);
        assert(sb.1.len() == 1);
        assert(spec_tokenize(p, a + u) =~= (o1 + s1.0).push(seq!['|']));
        assert(tok_b =~= Seq::<Seq<char>>::empty());
        if t1.len() == 0 {
            assert(tok_a =~= o1);
            assert(s1.0 =~= Seq::<Seq<char>>::empty());
            assert((o1 + s1.0).push(seq!['|']) =~= tok_a + seq![seq!['|']] + tok_b);
        } else {
            assert(tok_a =~= o1.push(t1));
            assert(s1.0 =~= seq![t1]);
            assert((o1 + s1.0).push(seq!['|']) =~= tok_a + seq![seq!['|']] + tok_b);
        }
    } else {
        assert(s1.1 =~= seq!['|']);
        lemma_scan_after_pipe(b);
        let sb0 = scan(p, empty, b);
        assert(sb.0 =~= seq![seq!['|']] + sb0.0);
        assert(sb.1 == sb0.1);
        if sb0.1.len() == 0 {
            assert(tok_b =~= sb0.0);
            assert(spec_tokenize(p, a + u) =~= o1 + s1.0 + seq![seq!['|']] + sb0.0);
        } else {
            assert(tok_b =~= sb0.0.push(sb0.1));
            assert(spec_tokenize(p, a + u) =~= (o1 + s1.0 + seq![seq!['|']] + sb0.0).push(sb0.1));
        }
        if t1.len() == 0 {
            assert(tok_a =~= o1);
            assert(s1.0 =~= Seq::<Seq<char>>::empty());
        } else {
            assert(tok_a =~= o1.push(t1));
            assert(s1.0 =~= seq![t1]);
        }
        assert(spec_tokenize(p, a + u) =~= tok_a + seq![seq!['|']] + tok_b);
    }
    assert(a + seq!['|'] + b == a + u);
}

/// The boundary search over concatenated token sequences: the first
/// depth-zero separator of the left part wins; otherwise the search goes
/// on in the right part at the depth the left part ends with.
proof fn lemma_sep_index_app(t1: Seq<Seq<char>>, t2: Seq<Seq<char>>, d: nat)
    ensures
        sep_index_from(t1 + t2, d) == (match sep_index_from(t1, d) {
            Some(i) => Some(i),
            None => match sep_index_from(t2, depth_after(t1, d)) {
                Some(j) => Some(t1.len() + j),
                None => None::<int>,
            },
        }),
    decreases t1.len(),
{
    if t1.len() == 0 {
        assert(t1 + t2 =~= t2);
        assert(depth_after(t1, d) == d);
    } else {
        assert((t1 + t2)[0] == t1[0]);
        assert((t1 + t2).drop_first() =~= t1.drop_first() + t2);
        lemma_sep_index_app(t1.drop_first(), t2, next_depth(t1[0], d));
    }
}

/// The split round trip. When `a` holds no free separator (no `|` at
/// closure depth zero) and no unbalanced brackets (its closure depth
/// ends at zero), splitting `a + "|" + b` recovers `a` and `b`, trimmed:
/// the appended separator is the boundary, whatever `b` holds.
pub proof fn lemma_split_round_trip(a: Seq<char>, b: Seq<char>)
    requires
        sep_index_from(spec_tokenize(cell_token_paths(), a), 0) is None,
        depth_after(spec_tokenize(cell_token_paths(), a), 0) == 0,
    ensures
        spec_split(cell_token_paths(), a + seq!['|'] + b) == (spec_trim(a), spec_trim(b)),
{
    let p = cell_token_paths();
    lemma_tokenize_around_sep(a, b);
    let tok_a = spec_tokenize(p, a);
    let tok_b = spec_tokenize(p, b);
    let toks = spec_tokenize(p, a + seq!['|'] + b);
    assert(toks == tok_a + seq![seq!['|']] + tok_b);
    lemma_sep_index_app(tok_a, seq![seq!['|']] + tok_b, 0);
    assert((seq![seq!['|']] + tok_b)[0] =~= seq!['|']);
    assert(is_sep_marker((seq![seq!['|']] + tok_b)[0]));
    assert(sep_index_from(seq![seq!['|']] + tok_b, 0) == Some(0int));
    assert(tok_a + seq![seq!['|']] + tok_b =~= tok_a + (seq![seq!['|']] + tok_b));
    assert(sep_index_from(toks, 0) == Some(tok_a.len() as int));
    let bnd = tok_a.len() as int;
    assert(toks.take(bnd) =~= tok_a);
    assert(toks.skip(bnd + 1) =~= tok_b);
    crate::scan::lemma_tokenize_lossless(p, a);
    crate::scan::lemma_tokenize_lossless(p, b);
    assert(spec_split(p, a + seq!['|'] + b).0 == spec_trim(a));
    assert(spec_split(p, a + seq!['|'] + b).1 == spec_trim(b));
}

} // verus!

