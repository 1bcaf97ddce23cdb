//! Exports: all at once, or in chunks that the caller drives.

use crate::cells;
use crate::cells::Row;
use crate::cells::Selector;
use crate::cells::SelectorView;
use crate::cells::Table;
use crate::export;
use crate::export::begin_csv_state;
use crate::export::begin_xlsx_state;
use crate::export::continue_export;
use crate::export::end_export;
use crate::export::ExportError;
use crate::export::ExportOptions;
use crate::export::ExportState;
use crate::export::ExportView;
use crate::export_args;
use crate::export_args::read_format;
use crate::export_args::ExportFormat;
use crate::header;
use crate::header::HeaderNode;
use crate::sheet;
use crate::sheet::Dating;
use crate::text;
use crate::zip;
use std::collections::HashMap;
use vstd::prelude::*;
use vstd::std_specs::hash::*;

verus! {

/// What is to be exported: the options, the heading, which is a tree or else the labels, what
/// the columns take from a row, and how many rows there are.
pub struct Export {
    pub options: ExportOptions,
    pub tree: Option<Vec<HeaderNode>>,
    pub labels: Vec<String>,
    pub selectors: Vec<Selector>,
    pub total_rows: usize,
}

/// The format that is asked for.
pub open spec fn format_asked(o: ExportOptions) -> Option<ExportFormat> {
    export_args::format_of(text::opt_text(o.format))
}

/// A workbook is asked for.
pub open spec fn wants_xlsx(o: ExportOptions) -> bool {
    format_asked(o) == Some(ExportFormat::Xlsx)
}

/// Comma-separated values are asked for.
pub open spec fn wants_csv(o: ExportOptions) -> bool {
    format_asked(o) == Some(ExportFormat::Csv)
}

/// A format is asked for that there is.
pub open spec fn wanted(o: ExportOptions) -> bool {
    wants_xlsx(o) || wants_csv(o)
}

impl Export {
    /// The selectors by their texts.
    pub open spec fn columns(self) -> Seq<SelectorView> {
        cells::selector_views(self.selectors@)
    }

    /// The labels by their characters.
    pub open spec fn label_texts(self) -> Seq<Seq<char>> {
        header::texts_of(self.labels@)
    }

    /// The heading's tree, if there is one, fits in machine integers.
    pub open spec fn fits(self) -> bool {
        self.tree matches Some(t) ==> header::fits(header::views_of(t@))
    }

    /// The rows that are looked at for column types.
    pub open spec fn sampled(self) -> int {
        if wants_xlsx(self.options) {
            cells::sampled(self.total_rows as int, export::type_opts_of(self.options))
        } else {
            0
        }
    }

    /// The export with nothing but the heading written.
    pub open spec fn begun(self, chunk: int, g: Table) -> ExportView {
        if wants_xlsx(self.options) {
            export::xlsx_begun(
                self.options,
                sheet::head_of(export::tree_view(self.tree), self.label_texts()),
                self.columns(),
                self.total_rows as int,
                chunk,
                g,
            )
        } else {
            export::csv_begun(
                self.options,
                self.label_texts(),
                self.columns(),
                self.total_rows as int,
                chunk,
            )
        }
    }

    /// What comes before the rows cannot be deflated: a workbook's fixed files, or the heading.
    pub open spec fn begin_fails(self, g: Table) -> bool {
        let begun = self.begun(0, g);
        ||| wants_xlsx(self.options) && !zip::packable(
            export::xlsx_parts(self.options),
            export::level_of(self.options),
        )
        ||| export::stuck(begun, begun.calls)
    }
}

/// How beginning an export ends: with the heading written; or because of the format, of a row
/// that was to be looked at, or of the deflater.
pub open spec fn begin_result(
    e: Export,
    chunk: int,
    g: Table,
    r: Result<ExportView, ExportError>,
) -> bool {
    let sampled = cells::readable(g, 0, e.sampled());
    match r {
        Ok(v) => wanted(e.options) && sampled && !e.begin_fails(g) && v == e.begun(chunk, g),
        Err(ExportError::Format) => !wanted(e.options),
        Err(ExportError::Row) => wanted(e.options) && !sampled,
        Err(ExportError::Deflate) => wanted(e.options) && sampled && e.begin_fails(g),
        Err(ExportError::Handle) => false,
    }
}

/// How an export ends that runs at once: with the result; or because of the format, of a row,
/// or of the deflater.
pub open spec fn sync_result(
    e: Export,
    g: Table,
    d: Dating,
    r: Result<Seq<u8>, ExportError>,
) -> bool {
    let begun = e.begun(e.total_rows as int, g);
    if !wanted(e.options) {
        r == Err::<Seq<u8>, ExportError>(ExportError::Format)
    } else if !cells::readable(g, 0, e.sampled()) {
        r == Err::<Seq<u8>, ExportError>(ExportError::Row)
    } else if e.begin_fails(g) {
        r == Err::<Seq<u8>, ExportError>(ExportError::Deflate)
    } else {
        end_result(begun, g, d, r)
    }
}

/// How ending an export ends: with the result, the rows that were left written first; or
/// because of a row, or of the deflater, on the rows that were left or at the end.
pub open spec fn end_result(
    v: ExportView,
    g: Table,
    d: Dating,
    r: Result<Seq<u8>, ExportError>,
) -> bool {
    let left = v.total_rows - v.rows_done;
    let readable = cells::readable(g, v.rows_done, export::chunk_end(v, left));
    let fails = export::chunk_fails(v, g, d, left);
    let done = export::continued(v, g, d, left);
    match r {
        Ok(out) => !fails && readable && !export::end_fails(done) && export::finished(done, out),
        Err(ExportError::Row) => !fails && !readable,
        Err(ExportError::Deflate) => fails || readable && export::end_fails(done),
        Err(_) => false,
    }
}

/// A result by its bytes.
pub open spec fn bytes_of(r: Result<Vec<u8>, ExportError>) -> Result<Seq<u8>, ExportError> {
    match r {
        Ok(v) => Ok(v@),
        Err(e) => Err(e),
    }
}

/// Begins an export in the format that is asked for.
fn begin_state<F: Fn(usize) -> Option<Row>>(e: Export, chunk: usize, row_at: &F) -> (r: Result<
    ExportState,
    ExportError,
>)
    requires
        e.fits(),
        forall|i: usize| i < e.total_rows ==> call_requires(*row_at, (i,)),
    ensures
        r matches Ok(s) ==> s.wf() && s@.selectors == e.columns() && s@.total_rows == e.total_rows
            && s@.rows_done == 0 && s@.chunk_size == chunk,
        forall|g: Table| #[trigger]
            cells::reads(*row_at, e.columns(), g) ==> begin_result(
                e,
                chunk as int,
                g,
                match r {
                    Ok(s) => Ok(s@),
                    Err(x) => Err(x),
                },
            ),
{
    let format = match &e.options.format {
        Some(f) => read_format(Some(f.as_str())),
        None => read_format(None),
    };
    match format {
        Some(ExportFormat::Xlsx) => begin_xlsx_state(
            &e.options,
            &e.tree,
            &e.labels,
            e.selectors,
            e.total_rows,
            chunk,
            row_at,
        ),
        Some(ExportFormat::Csv) => begin_csv_state(
            &e.options,
            &e.labels,
            e.selectors,
            e.total_rows,
            chunk,
        ),
        None => Err(ExportError::Format),
    }
}

/// Exports at once. `row_at` reads a row, and `serial` writes dates.
pub fn sync_export<F: Fn(usize) -> Option<Row>, D: Fn(i64, i64) -> String>(
    e: Export,
    row_at: &F,
    serial: &D,
) -> (r: Result<Vec<u8>, ExportError>)
    requires
        e.fits(),
        forall|i: usize| i < e.total_rows ==> call_requires(*row_at, (i,)),
        forall|day: i64, second: i64| call_requires(*serial, (day, second)),
    ensures
        forall|g: Table, d: Dating|
            #![trigger cells::reads(*row_at, e.columns(), g), sheet::dates(*serial, d)]
            cells::reads(*row_at, e.columns(), g) && sheet::dates(*serial, d) ==> sync_result(
                e,
                g,
                d,
                bytes_of(r),
            ),
{
    let total: usize = e.total_rows;
    let mut state = match begin_state(e, total, row_at) {
        Ok(state) => state,
        Err(x) => {
            return Err(x);
        },
    };
    let ghost begun = state@;
    match continue_export(&mut state, row_at, serial, total) {
        Ok(_) => {},
        Err(x) => {
            return Err(x);
        },
    }
    end_export(state)
}

/// How many rows a chunk has: a hundredth of all, but not fewer than are asked for, and a
/// hundred where nothing is.
pub open spec fn chunk_rows(total: int, least: Option<i32>) -> int {
    let part = if total <= 100 {
        1
    } else {
        (total + 99) / 100
    };
    let least = match least {
        Some(n) => if n > 1 {
            n as int
        } else {
            1
        },
        None => 100,
    };
    if part > least {
        part
    } else {
        least
    }
}

fn chunk_rows_of(total: usize, least: Option<i32>) -> (r: usize)
    ensures
        r == chunk_rows(total as int, least),
{
    let whole: usize = total / 100;
    let part: usize = if total <= 100 {
        1
    } else if total % 100 == 0 {
        whole
    } else {
        whole + 1
    };
    let least: usize = match least {
        Some(n) => if n > 1 {
            n as usize
        } else {
            1
        },
        None => 100,
    };
    if part > least {
        part
    } else {
        least
    }
}

/// The exports that are under way, by number.
pub struct ExportTable {
    states: HashMap<u32, ExportState>,
    next_id: u32,
}

/// An [`ExportTable`] by its exports and the next number.
#[verifier::ext_equal]
pub struct TableView {
    pub states: Map<u32, ExportView>,
    pub next_id: u32,
}

impl View for ExportTable {
    type V = TableView;

    closed spec fn view(&self) -> TableView {
        TableView {
            states: self.states@.map_values(|s: ExportState| s@),
            next_id: self.next_id,
        }
    }
}

/// The number behind `id`; zero is none.
pub open spec fn next_number(id: u32) -> u32 {
    if id == u32::MAX {
        1
    } else {
        (id + 1) as u32
    }
}

impl ExportTable {
    /// All exports under way are in order.
    pub closed spec fn wf(self) -> bool {
        &&& self.next_id >= 1
        &&& forall|id: u32| #[trigger]
            self.states@.contains_key(id) ==> self.states@[id].wf()
    }

    /// No exports.
    pub fn new() -> (r: Self)
        ensures
            r.wf(),
            r@.states == Map::<u32, ExportView>::empty(),
            r@.next_id == 1,
    {
        broadcast use group_hash_axioms;

        let r = ExportTable { states: HashMap::new(), next_id: 1 };
        assert(r@.states =~= Map::<u32, ExportView>::empty());
        r
    }

    /// Takes the next number.
    fn alloc_export_id(&mut self) -> (id: u32)
        requires
            old(self).wf(),
        ensures
            final(self).wf(),
            id == old(self)@.next_id,
            id >= 1,
            final(self)@ == (TableView { next_id: next_number(id), ..old(self)@ }),
    {
        let id: u32 = self.next_id;
        self.next_id = if id == u32::MAX {
            1
        } else {
            id + 1
        };
        id
    }

    /// Puts an export in.
    fn put(&mut self, id: u32, state: ExportState)
        requires
            old(self).wf(),
            state.wf(),
        ensures
            final(self).wf(),
            final(self)@ == (TableView {
                states: old(self)@.states.insert(id, state@),
                ..old(self)@
            }),
    {
        broadcast use group_hash_axioms;

        let ghost before = self.states@;
        let ghost v = state@;
        self.states.insert(id, state);
        assert(self@.states =~= old(self)@.states.insert(id, v));
    }

    /// Takes an export out, if it is there.
    fn take(&mut self, id: u32) -> (r: Option<ExportState>)
        requires
            old(self).wf(),
        ensures
            final(self).wf(),
            final(self)@ == (TableView { states: old(self)@.states.remove(id), ..old(self)@ }),
            match r {
                Some(s) => s.wf() && old(self)@.states.contains_key(id) && s@
                    == old(self)@.states[id],
                None => !old(self)@.states.contains_key(id),
            },
    {
        broadcast use group_hash_axioms;

        let r = self.states.remove(&id);
        assert(self@.states =~= old(self)@.states.remove(id));
        r
    }
}

/// Begins an export that the caller drives, and gives its number.
pub fn async_export_begin<F: Fn(usize) -> Option<Row>>(
    table: &mut ExportTable,
    e: Export,
    row_at: &F,
) -> (r: Result<u32, ExportError>)
    requires
        old(table).wf(),
        e.fits(),
        forall|i: usize| i < e.total_rows ==> call_requires(*row_at, (i,)),
    ensures
        final(table).wf(),
        r is Err ==> final(table)@ == old(table)@,
        r matches Ok(id) ==> id == old(table)@.next_id && id >= 1 && final(table)@ == (TableView {
            states: old(table)@.states.insert(id, final(table)@.states[id]),
            next_id: next_number(id),
        }),
        forall|g: Table| #[trigger]
            cells::reads(*row_at, e.columns(), g) ==> begin_result(
                e,
                chunk_rows(e.total_rows as int, e.options.min_chunk),
                g,
                match r {
                    Ok(id) => Ok(final(table)@.states[id]),
                    Err(x) => Err(x),
                },
            ),
{
    let chunk: usize = chunk_rows_of(e.total_rows, e.options.min_chunk);
    match begin_state(e, chunk, row_at) {
        Ok(state) => {
            let id: u32 = table.alloc_export_id();
            table.put(id, state);
            Ok(id)
        },
        Err(x) => Err(x),
    }
}

/// Writes the next chunk of an export, and gives how many rows are done. The export stays
/// under way whatever comes of it.
pub fn async_export_continue<F: Fn(usize) -> Option<Row>, D: Fn(i64, i64) -> String>(
    table: &mut ExportTable,
    id: u32,
    row_at: &F,
    serial: &D,
) -> (r: Result<usize, ExportError>)
    requires
        old(table).wf(),
        forall|i: usize|
            old(table)@.states.contains_key(id) && i < old(table)@.states[id].total_rows
                ==> call_requires(*row_at, (i,)),
        forall|day: i64, second: i64| call_requires(*serial, (day, second)),
    ensures
        final(table).wf(),
        !old(table)@.states.contains_key(id) ==> r == Err::<usize, ExportError>(ExportError::Handle)
            && final(table)@ == old(table)@,
        old(table)@.states.contains_key(id) ==> final(table)@ == (TableView {
            states: old(table)@.states.insert(id, final(table)@.states[id]),
            ..old(table)@
        }),
        old(table)@.states.contains_key(id) ==> (r matches Ok(n) ==> n
            == final(table)@.states[id].rows_done),
        forall|g: Table, d: Dating|
            #![trigger cells::reads(*row_at, old(table)@.states[id].selectors, g), sheet::dates(*serial, d)]
            old(table)@.states.contains_key(id) && cells::reads(
                *row_at,
                old(table)@.states[id].selectors,
                g,
            ) && sheet::dates(*serial, d) ==> export::chunk_result(
                old(table)@.states[id],
                g,
                d,
                old(table)@.states[id].chunk_size,
                final(table)@.states[id],
                match r {
                    Ok(_) => Ok(()),
                    Err(x) => Err(x),
                },
            ),
{
    match table.take(id) {
        None => {
            assert(table@.states =~= old(table)@.states);
            Err(ExportError::Handle)
        },
        Some(state) => {
            let mut state = state;
            proof {
                state.lemma_wf();
            }
            let chunk: usize = state.chunk_size();
            let result = continue_export(&mut state, row_at, serial, chunk);
            let done: usize = state.rows_done();
            let ghost after = state@;
            table.put(id, state);
            assert(table@.states =~= old(table)@.states.insert(id, after));
            match result {
                Ok(_) => Ok(done),
                Err(x) => Err(x),
            }
        },
    }
}

/// Writes the rows that are left, finishes an export, and gives the result. The export is no
/// longer under way.
pub fn async_export_end<F: Fn(usize) -> Option<Row>, D: Fn(i64, i64) -> String>(
    table: &mut ExportTable,
    id: u32,
    row_at: &F,
    serial: &D,
) -> (r: Result<Vec<u8>, ExportError>)
    requires
        old(table).wf(),
        forall|i: usize|
            old(table)@.states.contains_key(id) && i < old(table)@.states[id].total_rows
                ==> call_requires(*row_at, (i,)),
        forall|day: i64, second: i64| call_requires(*serial, (day, second)),
    ensures
        final(table).wf(),
        final(table)@ == (TableView { states: old(table)@.states.remove(id), ..old(table)@ }),
        !old(table)@.states.contains_key(id) ==> r == Err::<Vec<u8>, ExportError>(
            ExportError::Handle,
        ),
        forall|g: Table, d: Dating|
            #![trigger cells::reads(*row_at, old(table)@.states[id].selectors, g), sheet::dates(*serial, d)]
            old(table)@.states.contains_key(id) && cells::reads(
                *row_at,
                old(table)@.states[id].selectors,
                g,
            ) && sheet::dates(*serial, d) ==> end_result(
                old(table)@.states[id],
                g,
                d,
                bytes_of(r),
            ),
{
    let mut state = match table.take(id) {
        None => {
            return Err(ExportError::Handle);
        },
        Some(state) => state,
    };
    let ghost v = state@;
    proof {
        state.lemma_wf();
    }
    let left: usize = state.total_rows() - state.rows_done();
    match continue_export(&mut state, row_at, serial, left) {
        Ok(_) => {},
        Err(x) => {
            return Err(x);
        },
    }
    end_export(state)
}

/// Gives an export up.
pub fn async_export_cancel(table: &mut ExportTable, id: u32)
    requires
        old(table).wf(),
    ensures
        final(table).wf(),
        final(table)@ == (TableView { states: old(table)@.states.remove(id), ..old(table)@ }),
{
    let _ = table.take(id);
}

/// An export that is driven in chunks gives what one that runs at once gives, byte for byte:
/// after any number of rows that were written, ending it gives the same result, or fails the
/// same way, as writing all rows in one go.
pub proof fn lemma_async_as_sync(e: Export, g: Table, d: Dating, chunk: int, rows: int)
    requires
        wanted(e.options),
        cells::readable(g, 0, e.sampled()),
        !e.begin_fails(g),
        0 <= rows,
        cells::readable(g, 0, export::chunk_end(e.begun(chunk, g), rows)),
        !export::chunk_fails(e.begun(chunk, g), g, d, rows),
    ensures
        forall|r: Result<Seq<u8>, ExportError>| #[trigger]
            end_result(export::continued(e.begun(chunk, g), g, d, rows), g, d, r) == sync_result(
                e,
                g,
                d,
                r,
            ),
{
    let v = e.begun(chunk, g);
    let total = e.total_rows as int;
    let whole = e.begun(total, g);
    let once = export::continued(whole, g, d, total);
    let part = export::continued(v, g, d, rows);
    let left = part.total_rows - part.rows_done;
    export::lemma_chunks_alike(v, g, d, rows, left);
    let rest = export::continued(part, g, d, left);
    let end = export::chunk_end(v, rows + left);
    assert(end == export::chunk_end(v, total));
    assert(end == export::chunk_end(whole, total));
    export::lemma_calls_of(v, whole, g, d, 0, end);
    export::lemma_calls_of(v, whole, g, d, 0, export::unreadable(g, 0, end));
    assert(rest =~= ExportView { chunk_size: chunk, ..once });
    assert(export::full_content(rest) == export::full_content(once));
    assert(export::full_calls(rest) == export::full_calls(once));
    assert(cells::readable(g, 0, end) == cells::readable(g, part.rows_done, end));
}

} // verus!
