//! The table parser: a finite-state machine over the structural token
//! sequence that emits table, row and cell events.
//!
//! Wikitext quick reference:
//! <https://en.wikiversity.org/wiki/Help:Wikitext_quick_reference>

use crate::scan::spec_tokenize;
use crate::split::{spec_split, split_style_content};
use crate::text::{append_chars, chars_eq, chars_to_string, spec_trim, str_to_chars, trim_chars};
use crate::tokenizer::{TableSpecialTokens, Tokenizer};
use vstd::prelude::*;

verus! {

/// The parser's state: where in the table the scan currently stands.
#[derive(Debug, Clone, Copy, PartialEq, Eq, Structural)]
pub enum State {
    Idle,
    ReadTable,
    ReadTableCaption,
    ReadCol,
    ReadRow,
}

/// Which marker opened a cell.
#[derive(Debug, Clone, Copy, PartialEq, Eq, Structural)]
pub enum CellType {
    HeaderCell,
    DataCell,
}

/// One structural event of the output stream, in emission order.
#[derive(Debug, Clone)]
pub enum Event {
    TableStart,
    TableStyle(String),
    TableEnd,
    ColStart(CellType),
    ColStyle(String),
    ColEnd(String),
    TableCaptionStart,
    TableCaption(String),
    RowStart,
    RowStyle(String),
    RowEnd,
}

/// The mathematical model of an event: the same shape with the text
/// payloads as character sequences.
pub enum EventModel {
    TableStart,
    TableStyle(Seq<char>),
    TableEnd,
    ColStart(CellType),
    ColStyle(Seq<char>),
    ColEnd(Seq<char>),
    TableCaptionStart,
    TableCaption(Seq<char>),
    RowStart,
    RowStyle(Seq<char>),
    RowEnd,
}

impl View for Event {
    type V = EventModel;

    open spec fn view(&self) -> EventModel {
        match self {
            Event::TableStart => EventModel::TableStart,
            Event::TableStyle(s) => EventModel::TableStyle(s@),
            Event::TableEnd => EventModel::TableEnd,
            Event::ColStart(k) => EventModel::ColStart(*k),
            Event::ColStyle(s) => EventModel::ColStyle(s@),
            Event::ColEnd(s) => EventModel::ColEnd(s@),
            Event::TableCaptionStart => EventModel::TableCaptionStart,
            Event::TableCaption(s) => EventModel::TableCaption(s@),
            Event::RowStart => EventModel::RowStart,
            Event::RowStyle(s) => EventModel::RowStyle(s@),
            Event::RowEnd => EventModel::RowEnd,
        }
    }
}

/// The models of a queue of events, in order.
pub open spec fn events_view(q: Seq<Event>) -> Seq<EventModel> {
    q.map_values(|e: Event| e@)
}

/// The structural token whose marker is exactly `q`, if any.
pub open spec fn spec_table_token_of(q: Seq<char>) -> Option<TableSpecialTokens> {
    if q == TableSpecialTokens::TableStart.spec_marker() {
        Some(TableSpecialTokens::TableStart)
    } else if q == TableSpecialTokens::TableCaption.spec_marker() {
        Some(TableSpecialTokens::TableCaption)
    } else if q == TableSpecialTokens::TableRow.spec_marker() {
        Some(TableSpecialTokens::TableRow)
    } else if q == TableSpecialTokens::TableHeaderCell.spec_marker() {
        Some(TableSpecialTokens::TableHeaderCell)
    } else if q == TableSpecialTokens::TableHeaderCell2.spec_marker() {
        Some(TableSpecialTokens::TableHeaderCell2)
    } else if q == TableSpecialTokens::TableDataCell.spec_marker() {
        Some(TableSpecialTokens::TableDataCell)
    } else if q == TableSpecialTokens::TableDataCell2.spec_marker() {
        Some(TableSpecialTokens::TableDataCell2)
    } else if q == TableSpecialTokens::TableEnd.spec_marker() {
        Some(TableSpecialTokens::TableEnd)
    } else if q == TableSpecialTokens::NoWikiStart.spec_marker() {
        Some(TableSpecialTokens::NoWikiStart)
    } else if q == TableSpecialTokens::NoWikiEnd.spec_marker() {
        Some(TableSpecialTokens::NoWikiEnd)
    } else {
        None
    }
}

/// Whether `q` is one of the structural markers. Such a token is never
/// appended to the text buffer.
pub open spec fn is_structural_marker(q: Seq<char>) -> bool {
    spec_table_token_of(q) is Some
}

/// The structural markers are exactly the entries of the structural
/// vocabulary the tokenizer is built from.
pub proof fn lemma_structural_marker_is_vocab(q: Seq<char>)
    ensures
        is_structural_marker(q) <==> crate::tokenizer::table_vocab().contains(q),
{
    let vs = crate::tokenizer::table_vocab();
    if is_structural_marker(q) {
        if q == TableSpecialTokens::TableStart.spec_marker() {
            assert(vs[0] == q);
        } else if q == TableSpecialTokens::TableCaption.spec_marker() {
            assert(vs[1] == q);
        } else if q == TableSpecialTokens::TableRow.spec_marker() {
            assert(vs[2] == q);
        } else if q == TableSpecialTokens::TableHeaderCell.spec_marker() {
            assert(vs[3] == q);
        } else if q == TableSpecialTokens::TableHeaderCell2.spec_marker() {
            assert(vs[4] == q);
        } else if q == TableSpecialTokens::TableDataCell.spec_marker() {
            assert(vs[5] == q);
        } else if q == TableSpecialTokens::TableDataCell2.spec_marker() {
            assert(vs[6] == q);
        } else if q == TableSpecialTokens::TableEnd.spec_marker() {
            assert(vs[7] == q);
        } else if q == TableSpecialTokens::NoWikiStart.spec_marker() {
            assert(vs[8] == q);
        } else {
            assert(vs[9] == q);
        }
    }
    if vs.contains(q) {
        let i = choose|i: int| 0 <= i < vs.len() && vs[i] == q;
        assert(is_structural_marker(q));
    }
}

/// The state after one event is emitted in state `st`.
pub open spec fn spec_transition(st: State, ev: EventModel) -> State {
    match (st, ev) {
        (State::Idle, EventModel::TableStart) => State::ReadTable,
        (State::ReadTableCaption, EventModel::TableCaption(_)) => State::ReadTable,
        (State::ReadTable, EventModel::TableCaptionStart) => State::ReadTableCaption,
        (State::ReadTable, EventModel::TableEnd) => State::Idle,
        (State::ReadTable, EventModel::RowStart) => State::ReadRow,
        (State::ReadRow, EventModel::ColStart(_)) => State::ReadCol,
        (State::ReadRow, EventModel::TableEnd) => State::Idle,
        (State::ReadCol, EventModel::ColEnd(_)) => State::ReadCol,
        (State::ReadCol, EventModel::RowStart) => State::ReadRow,
        (State::ReadCol, EventModel::TableEnd) => State::Idle,
        _ => st,
    }
}

/// One step of the parser on one token: the next state, the text buffer
/// after the step, and the events emitted, in order. `p` is the path set
/// of the cell-content tokenizer, which the buffer texts are split with.
pub open spec fn spec_step(p: Set<Seq<char>>, st: State, buf: Seq<char>, tok: Seq<char>) -> (
    State,
    Seq<char>,
    Seq<EventModel>,
) {
    let style = spec_split(p, spec_trim(buf)).0;
    let content = spec_split(p, spec_trim(buf)).1;
    let buf2 = if is_structural_marker(tok) {
        buf
    } else {
        buf + tok
    };
    match st {
        State::Idle => {
            if tok == TableSpecialTokens::TableStart.spec_marker() {
                (State::ReadTable, buf, seq![EventModel::TableStart])
            } else {
                (State::Idle, buf, seq![])
            }
        },
        State::ReadTable => {
            if tok == TableSpecialTokens::TableCaption.spec_marker() {
                (
                    State::ReadTableCaption,
                    Seq::<char>::empty(),
                    seq![EventModel::TableStyle(content), EventModel::TableCaptionStart],
                )
            } else if tok == TableSpecialTokens::TableRow.spec_marker() {
                (
                    State::ReadRow,
                    Seq::<char>::empty(),
                    seq![EventModel::TableStyle(content), EventModel::RowStart],
                )
            } else if tok == TableSpecialTokens::TableEnd.spec_marker() {
                (State::Idle, buf2, seq![EventModel::TableEnd])
            } else {
                (State::ReadTable, buf2, seq![])
            }
        },
        State::ReadTableCaption => {
            if tok == TableSpecialTokens::TableRow.spec_marker() {
                (
                    State::ReadRow,
                    Seq::<char>::empty(),
                    seq![EventModel::TableCaption(content), EventModel::RowStart],
                )
            } else if tok == TableSpecialTokens::TableHeaderCell.spec_marker() {
                (
                    State::ReadCol,
                    Seq::<char>::empty(),
                    seq![
                        EventModel::TableCaption(content),
                        EventModel::RowStart,
                        EventModel::RowStyle(Seq::<char>::empty()),
                        EventModel::ColStart(CellType::HeaderCell),
                    ],
                )
            } else {
                (State::ReadTableCaption, buf2, seq![])
            }
        },
        State::ReadRow => {
            if tok == TableSpecialTokens::TableDataCell.spec_marker() || tok
                == TableSpecialTokens::TableDataCell2.spec_marker() {
                (
                    State::ReadCol,
                    Seq::<char>::empty(),
                    seq![
                        EventModel::RowStyle(content),
                        EventModel::ColStart(CellType::DataCell),
                    ],
                )
            } else if tok == TableSpecialTokens::TableHeaderCell.spec_marker() || tok
                == TableSpecialTokens::TableHeaderCell2.spec_marker() {
                (
                    State::ReadCol,
                    Seq::<char>::empty(),
                    seq![
                        EventModel::RowStyle(content),
                        EventModel::ColStart(CellType::HeaderCell),
                    ],
                )
            } else if tok == TableSpecialTokens::TableEnd.spec_marker() {
                (
                    State::Idle,
                    Seq::<char>::empty(),
                    seq![EventModel::RowEnd, EventModel::TableEnd],
                )
            } else {
                (State::ReadRow, buf2, seq![])
            }
        },
        State::ReadCol => {
            if tok == TableSpecialTokens::TableDataCell.spec_marker() || tok
                == TableSpecialTokens::TableDataCell2.spec_marker() || tok
                == TableSpecialTokens::TableHeaderCell.spec_marker() || tok
                == TableSpecialTokens::TableHeaderCell2.spec_marker() {
                (
                    State::ReadCol,
                    Seq::<char>::empty(),
                    seq![EventModel::ColStyle(style), EventModel::ColEnd(content)],
                )
            } else if tok == TableSpecialTokens::TableRow.spec_marker() {
                (
                    State::ReadRow,
                    Seq::<char>::empty(),
                    seq![
                        EventModel::ColStyle(style),
                        EventModel::ColEnd(content),
                        EventModel::RowEnd,
                        EventModel::RowStart,
                    ],
                )
            } else if tok == TableSpecialTokens::TableEnd.spec_marker() {
                (
                    State::Idle,
                    Seq::<char>::empty(),
                    seq![
                        EventModel::ColStyle(style),
                        EventModel::ColEnd(content),
                        EventModel::RowEnd,
                        EventModel::TableEnd,
                    ],
                )
            } else {
                (State::ReadCol, buf2, seq![])
            }
        },
    }
}

/// The full run of the parser over a token sequence: every event emitted,
/// in order.
pub open spec fn spec_run(p: Set<Seq<char>>, st: State, buf: Seq<char>, toks: Seq<Seq<char>>) -> Seq<
    EventModel,
>
    decreases toks.len(),
{
    if toks.len() == 0 {
        seq![]
    } else {
        let (st2, buf2, evs) = spec_step(p, st, buf, toks[0]);
        evs + spec_run(p, st2, buf2, toks.drop_first())
    }
}

/// The state in which the run over a token sequence ends.
pub open spec fn run_state(p: Set<Seq<char>>, st: State, buf: Seq<char>, toks: Seq<Seq<char>>) -> State
    decreases toks.len(),
{
    if toks.len() == 0 {
        st
    } else {
        let (st2, buf2, evs) = spec_step(p, st, buf, toks[0]);
        run_state(p, st2, buf2, toks.drop_first())
    }
}

/// The text buffer with which the run over a token sequence ends.
pub open spec fn run_buf(p: Set<Seq<char>>, st: State, buf: Seq<char>, toks: Seq<Seq<char>>) -> Seq<
    char,
>
    decreases toks.len(),
{
    if toks.len() == 0 {
        buf
    } else {
        let (st2, buf2, evs) = spec_step(p, st, buf, toks[0]);
        run_buf(p, st2, buf2, toks.drop_first())
    }
}

/// strum-style lookup: the structural token whose marker is exactly `t`,
/// if any.
pub fn table_token_of(t: &Vec<char>) -> (r: Option<TableSpecialTokens>)
    ensures
        r == spec_table_token_of(t@),
{
    let kinds = [
        TableSpecialTokens::TableStart,
        TableSpecialTokens::TableCaption,
        TableSpecialTokens::TableRow,
        TableSpecialTokens::TableHeaderCell,
        TableSpecialTokens::TableHeaderCell2,
        TableSpecialTokens::TableDataCell,
        TableSpecialTokens::TableDataCell2,
        TableSpecialTokens::TableEnd,
        TableSpecialTokens::NoWikiStart,
        TableSpecialTokens::NoWikiEnd,
    ];
    let mut k: usize = 0;
    while k < 10
        invariant
            0 <= k <= 10,
            kinds@ =~= seq![
                TableSpecialTokens::TableStart,
                TableSpecialTokens::TableCaption,
                TableSpecialTokens::TableRow,
                TableSpecialTokens::TableHeaderCell,
                TableSpecialTokens::TableHeaderCell2,
                TableSpecialTokens::TableDataCell,
                TableSpecialTokens::TableDataCell2,
                TableSpecialTokens::TableEnd,
                TableSpecialTokens::NoWikiStart,
                TableSpecialTokens::NoWikiEnd,
            ],
            forall|m: int| 0 <= m < k ==> t@ != (#[trigger] kinds@[m]).spec_marker(),
        decreases 10 - k,
    {
        let kind = kinds[k];
        let m = kind.marker_chars();
        if chars_eq(t, &m) {
            return Some(kind);
        }
        k += 1;
    }
    None
}

/// The table parser. Construct it with `new`, then drain the event
/// stream with `next_event`; a drained parser is not restartable.
#[derive(Debug)]
pub struct WikitextTableParser {
    state: State,
    event_log_queue: Vec<Event>,
    tokens: Vec<Vec<char>>,
    text_buffer: Vec<char>,
    table_tokenizer: Tokenizer,
    cell_tokenizer: Tokenizer,
    clean_cell_text: bool,
}

impl WikitextTableParser {
    /// Both tokenizers are well formed.
    pub closed spec fn wf(&self) -> bool {
        self.table_tokenizer.wf() && self.cell_tokenizer.wf()
    }

    /// The path set of the cell-content tokenizer, which cell texts are
    /// split with.
    pub closed spec fn cell_paths(&self) -> Set<Seq<char>> {
        self.cell_tokenizer@
    }

    /// Every event this parser has yet to hand out: the queued ones, then
    /// those of the run over the remaining tokens.
    pub closed spec fn remaining_events(&self) -> Seq<EventModel> {
        events_view(self.event_log_queue@) + spec_run(
            self.cell_tokenizer@,
            self.state,
            self.text_buffer@,
            self.tokens.deep_view(),
        )
    }

    /// Build a parser over one table's wikitext. A newline is prepended
    /// so that a table beginning at the first character still matches the
    /// `\n{|` marker. The whole input is tokenized eagerly; events are
    /// computed as they are drained.
    pub fn new(
        table_tokenizer: Tokenizer,
        cell_tokenizer: Tokenizer,
        wikitext_table: &str,
        clean_cell_text: bool,
    ) -> (r: WikitextTableParser)
        requires
            table_tokenizer.wf(),
            cell_tokenizer.wf(),
        ensures
            r.wf(),
            r.remaining_events() == spec_run(
                cell_tokenizer@,
                State::Idle,
                Seq::<char>::empty(),
                spec_tokenize(table_tokenizer@, seq!['\n'] + wikitext_table@),
            ),
    {
        let mut text_for_parse: Vec<char> = Vec::new();
        text_for_parse.push('\n');
        let rest = str_to_chars(wikitext_table);
        append_chars(&mut text_for_parse, &rest);
        proof {
            assert(text_for_parse@ =~= seq!['\n'] + wikitext_table@);
        }
        let tokens = table_tokenizer.tokenize_chars(&text_for_parse);
        let parser = WikitextTableParser {
            state: State::Idle,
            tokens,
            event_log_queue: Vec::new(),
            text_buffer: Vec::new(),
            table_tokenizer,
            cell_tokenizer,
            clean_cell_text,
        };
        proof {
            assert(events_view(parser.event_log_queue@) =~= Seq::<EventModel>::empty());
            assert(parser.remaining_events() =~= spec_run(
                parser.cell_tokenizer@,
                State::Idle,
                Seq::<char>::empty(),
                parser.tokens.deep_view(),
            ));
        }
        parser
    }

    /// Append a token's text to the buffer, unless it is a structural
    /// marker: markers never become text.
    fn append_to_text_buffer(&mut self, s: &Vec<char>)
        ensures
            final(self).text_buffer@ == (if is_structural_marker(s@) {
                old(self).text_buffer@
            } else {
                old(self).text_buffer@ + s@
            }),
            final(self).state == old(self).state,
            final(self).event_log_queue == old(self).event_log_queue,
            final(self).tokens == old(self).tokens,
            final(self).table_tokenizer == old(self).table_tokenizer,
            final(self).cell_tokenizer == old(self).cell_tokenizer,
            final(self).clean_cell_text == old(self).clean_cell_text,
    {
        let token = table_token_of(s);
        match token {
            Some(_) => {
                // a structural marker carries no text
            },
            None => {
                append_chars(&mut self.text_buffer, s);
            },
        }
    }

    /// Empty the text buffer.
    fn clear_text_buffer(&mut self)
        ensures
            final(self).text_buffer@ == Seq::<char>::empty(),
            final(self).state == old(self).state,
            final(self).event_log_queue == old(self).event_log_queue,
            final(self).tokens == old(self).tokens,
            final(self).table_tokenizer == old(self).table_tokenizer,
            final(self).cell_tokenizer == old(self).cell_tokenizer,
            final(self).clean_cell_text == old(self).clean_cell_text,
    {
        self.text_buffer = Vec::new();
    }

    /// Split a cell's raw text into its style and its content: the pair
    /// `[style, content]`, both trimmed. A `|` inside an open link or
    /// template does not separate.
    pub fn split_cell_style_and_text(&self, cell_text: String) -> (r: Vec<String>)
        requires
            self.wf(),
        ensures
            r@.len() == 2,
            r@[0]@ == spec_split(self.cell_paths(), cell_text@).0,
            r@[1]@ == spec_split(self.cell_paths(), cell_text@).1,
    {
        let chars = str_to_chars(cell_text.as_str());
        let (style_chars, content_chars) = split_style_content(&self.cell_tokenizer, &chars);
        let mut r: Vec<String> = Vec::new();
        r.push(chars_to_string(&style_chars));
        r.push(chars_to_string(&content_chars));
        r
    }

    /// The content part of the trimmed text buffer.
    fn get_text_buffer_data(&self) -> (s: String)
        requires
            self.wf(),
        ensures
            s@ == spec_split(self.cell_paths(), spec_trim(self.text_buffer@)).1,
    {
        let trimmed = trim_chars(&self.text_buffer);
        let cell_raw_text = chars_to_string(&trimmed);
        let split_texts = self.split_cell_style_and_text(cell_raw_text);
        let cell_text = split_texts[1].clone();
        cell_text
    }

    /// The style part of the trimmed text buffer.
    fn get_style_text_buffer_data(&self) -> (s: String)
        requires
            self.wf(),
        ensures
            s@ == spec_split(self.cell_paths(), spec_trim(self.text_buffer@)).0,
    {
        let trimmed = trim_chars(&self.text_buffer);
        let cell_raw_text = chars_to_string(&trimmed);
        let split_texts = self.split_cell_style_and_text(cell_raw_text);
        let style = split_texts[0].clone();
        style
    }

    /// Emit one event: append it to the queue and move to the next state.
    fn transition(&mut self, event: Event)
        ensures
            final(self).state == spec_transition(old(self).state, event@),
            final(self).event_log_queue@ == old(self).event_log_queue@.push(event),
            events_view(final(self).event_log_queue@) == events_view(
                old(self).event_log_queue@,
            ).push(event@),
            final(self).text_buffer == old(self).text_buffer,
            final(self).tokens == old(self).tokens,
            final(self).table_tokenizer == old(self).table_tokenizer,
            final(self).cell_tokenizer == old(self).cell_tokenizer,
            final(self).clean_cell_text == old(self).clean_cell_text,
    {
        let next = match (self.state, &event) {
            (State::Idle, Event::TableStart) => State::ReadTable,
            (State::ReadTableCaption, Event::TableCaption(_)) => State::ReadTable,
            (State::ReadTable, Event::TableCaptionStart) => State::ReadTableCaption,
            (State::ReadTable, Event::TableEnd) => State::Idle,
            (State::ReadTable, Event::RowStart) => State::ReadRow,
            (State::ReadRow, Event::ColStart(_)) => State::ReadCol,
            (State::ReadRow, Event::TableEnd) => State::Idle,
            (State::ReadCol, Event::ColStyle(_)) => State::ReadCol,
            (State::ReadCol, Event::ColEnd(_)) => State::ReadCol,
            (State::ReadCol, Event::RowStart) => State::ReadRow,
            (State::ReadCol, Event::TableEnd) => State::Idle,
            (_, _) => self.state,
        };
        let ghost q0 = self.event_log_queue@;
        self.event_log_queue.push(event);
        self.state = next;
        proof {
            assert(events_view(self.event_log_queue@) =~= events_view(q0).push(
                self.event_log_queue@.last()@,
            ));
        }
    }

    /// Process the front token of the remaining sequence: one step of the
    /// state machine.
    fn step(&mut self)
        requires
            old(self).wf(),
            old(self).tokens@.len() > 0,
        ensures
            final(self).wf(),
            final(self).state == spec_step(
                old(self).cell_paths(),
                old(self).state,
                old(self).text_buffer@,
                old(self).tokens.deep_view()[0],
            ).0,
            final(self).text_buffer@ == spec_step(
                old(self).cell_paths(),
                old(self).state,
                old(self).text_buffer@,
                old(self).tokens.deep_view()[0],
            ).1,
            events_view(final(self).event_log_queue@) == events_view(old(self).event_log_queue@)
                + spec_step(
                old(self).cell_paths(),
                old(self).state,
                old(self).text_buffer@,
                old(self).tokens.deep_view()[0],
            ).2,
            final(self).tokens.deep_view() == old(self).tokens.deep_view().drop_first(),
            final(self).table_tokenizer == old(self).table_tokenizer,
            final(self).cell_tokenizer == old(self).cell_tokenizer,
            final(self).clean_cell_text == old(self).clean_cell_text,
    {
        let ghost p = self.cell_paths();
        let ghost st0 = self.state;
        let ghost buf0 = self.text_buffer@;
        let ghost q0 = events_view(self.event_log_queue@);
        let token = self.tokens.remove(0);
        proof {
            assert(old(self).tokens.deep_view()[0] =~= token@);
            assert(self.tokens.deep_view() =~= old(self).tokens.deep_view().drop_first());
        }
        let kind = table_token_of(&token);
        match self.state {
            State::Idle => {
                if matches!(kind, Some(TableSpecialTokens::TableStart)) {
                    self.transition(Event::TableStart);
                }
            },
            State::ReadTable => {
                self.append_to_text_buffer(&token);
                match kind {
                    Some(TableSpecialTokens::TableCaption) => {
                        let text = self.get_text_buffer_data();
                        self.transition(Event::TableStyle(text));
                        self.clear_text_buffer();
                        self.transition(Event::TableCaptionStart);
                    },
                    Some(TableSpecialTokens::TableRow) => {
                        let text = self.get_text_buffer_data();
                        self.transition(Event::TableStyle(text));
                        self.clear_text_buffer();
                        self.transition(Event::RowStart);
                    },
                    Some(TableSpecialTokens::TableEnd) => {
                        self.transition(Event::TableEnd);
                    },
                    _ => {},
                }
            },
            State::ReadTableCaption => {
                self.append_to_text_buffer(&token);
                match kind {
                    Some(TableSpecialTokens::TableRow) => {
                        let text = self.get_text_buffer_data();
                        self.transition(Event::TableCaption(text));
                        self.clear_text_buffer();
                        self.transition(Event::RowStart);
                    },
                    Some(TableSpecialTokens::TableHeaderCell) => {
                        // a header cell may follow the caption with no row
                        // marker in between: synthesize the row
                        let text = self.get_text_buffer_data();
                        self.transition(Event::TableCaption(text));
                        self.clear_text_buffer();
                        self.transition(Event::RowStart);
                        self.transition(Event::RowStyle(String::new()));
                        self.transition(Event::ColStart(CellType::HeaderCell));
                    },
                    _ => {},
                }
            },
            State::ReadRow => {
                self.append_to_text_buffer(&token);
                match kind {
                    Some(TableSpecialTokens::TableDataCell)
                    | Some(TableSpecialTokens::TableDataCell2) => {
                        let text = self.get_text_buffer_data();
                        self.transition(Event::RowStyle(text));
                        self.clear_text_buffer();
                        self.transition(Event::ColStart(CellType::DataCell));
                    },
                    Some(TableSpecialTokens::TableHeaderCell)
                    | Some(TableSpecialTokens::TableHeaderCell2) => {
                        let text = self.get_text_buffer_data();
                        self.transition(Event::RowStyle(text));
                        self.clear_text_buffer();
                        self.transition(Event::ColStart(CellType::HeaderCell));
                    },
                    Some(TableSpecialTokens::TableEnd) => {
                        self.transition(Event::RowEnd);
                        self.transition(Event::TableEnd);
                        self.clear_text_buffer();
                    },
                    _ => {},
                }
            },
            State::ReadCol => {
                self.append_to_text_buffer(&token);
                match kind {
                    Some(TableSpecialTokens::TableDataCell)
                    | Some(TableSpecialTokens::TableDataCell2)
                    | Some(TableSpecialTokens::TableHeaderCell)
                    | Some(TableSpecialTokens::TableHeaderCell2) => {
                        let style = self.get_style_text_buffer_data();
                        let text = self.get_text_buffer_data();
                        self.transition(Event::ColStyle(style));
                        self.transition(Event::ColEnd(text));
                        self.clear_text_buffer();
                    },
                    Some(TableSpecialTokens::TableRow) => {
                        let style = self.get_style_text_buffer_data();
                        let text = self.get_text_buffer_data();
                        self.transition(Event::ColStyle(style));
                        self.transition(Event::ColEnd(text));
                        self.clear_text_buffer();
                        self.transition(Event::RowEnd);
                        self.transition(Event::RowStart);
                    },
                    Some(TableSpecialTokens::TableEnd) => {
                        let style = self.get_style_text_buffer_data();
                        let text = self.get_text_buffer_data();
                        self.transition(Event::ColStyle(style));
                        self.transition(Event::ColEnd(text));
                        self.clear_text_buffer();
                        self.transition(Event::RowEnd);
                        self.transition(Event::TableEnd);
                    },
                    _ => {},
                }
            },
        }
        proof {
            let step = spec_step(p, st0, buf0, token@);
            assert(events_view(self.event_log_queue@) =~= q0 + step.2);
        }
    }

    /// Hand out the next event, if any is left. The first call processes
    /// the whole token sequence; the queued events are then drained one by
    /// one, in emission order.
    pub fn next_event(&mut self) -> (r: Option<Event>)
        requires
            old(self).wf(),
        ensures
            final(self).wf(),
            match r {
                Some(e) => {
                    &&& old(self).remaining_events().len() > 0
                    &&& e@ == old(self).remaining_events()[0]
                    &&& final(self).remaining_events() == old(self).remaining_events().drop_first()
                },
                None => {
                    &&& old(self).remaining_events().len() == 0
                    &&& final(self).remaining_events().len() == 0
                },
            },
    {
        let ghost rem0 = self.remaining_events();
        while self.tokens.len() > 0
            invariant
                self.wf(),
                self.remaining_events() == rem0,
            decreases self.tokens@.len(),
        {
            let ghost pre = *self;
            self.step();
            proof {
                let toks = pre.tokens.deep_view();
                let step = spec_step(pre.cell_paths(), pre.state, pre.text_buffer@, toks[0]);
                assert(spec_run(pre.cell_paths(), pre.state, pre.text_buffer@, toks) == step.2
                    + spec_run(pre.cell_paths(), step.0, step.1, toks.drop_first()));
                assert(self.remaining_events() =~= rem0);
            }
        }
        proof {
            assert(self.tokens.deep_view().len() == 0);
            assert(spec_run(
                self.cell_tokenizer@,
                self.state,
                self.text_buffer@,
                self.tokens.deep_view(),
            ) =~= Seq::<EventModel>::empty());
            assert(self.remaining_events() =~= events_view(self.event_log_queue@));
        }
        if self.event_log_queue.len() > 0 {
            let ghost q0 = self.event_log_queue@;
            let event = self.event_log_queue.remove(0);
            proof {
                assert(self.event_log_queue@ =~= q0.drop_first());
                assert(events_view(q0)[0] == event@);
                assert(events_view(self.event_log_queue@) =~= events_view(q0).drop_first());
                assert(self.remaining_events() =~= rem0.drop_first());
            }
            return Some(event);
        }
        proof {
            assert(rem0.len() == 0);
        }
        None
    }
}

} // verus!
