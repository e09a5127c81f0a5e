//! The aggregator: interns the frames and stacks of captured samples in
//! the order in which they are first seen, and counts each distinct stack.

use crate::frame::{
    frame_blocked, kept_frames, lemma_kept_frames_pass, module_blocked,
    samples_view, FrameFilter, FrameModel, RawSample, StackFrame,
};
use crate::report::{
    deduplicated, empty_report, entries_view, index_view, indices_view, locations_view,
    stack_in_range, symbol_in_range, symbols_view, total_count, well_formed, Location,
    LocationModel, Report, ReportModel, SampleEntry, SampleModel, SymbolEntry, SymbolModel,
};
use crate::table::{first_match, lemma_first_match};
use vstd::prelude::*;

verus! {

/// Locations with the given address.
pub open spec fn address_is(address: u64) -> spec_fn(LocationModel) -> bool {
    |location: LocationModel| location.address == address
}

/// Symbol rows equal to the given one.
pub open spec fn symbol_is(symbol: SymbolModel) -> spec_fn(SymbolModel) -> bool {
    |row: SymbolModel| row == symbol
}

/// Sample rows of the given stack.
pub open spec fn stack_is(stack: Seq<int>) -> spec_fn(SampleModel) -> bool {
    |row: SampleModel| row.locations == stack
}

/// The symbol table row that a frame asks for: none where its symbol name
/// is unresolved, and an empty module name where its module is.
pub open spec fn symbol_of(frame: FrameModel) -> Option<SymbolModel> {
    match frame.symbol_name {
        Some(name) => Some(
            SymbolModel {
                name,
                module: match frame.module_name {
                    Some(module) => module,
                    None => Seq::empty(),
                },
            },
        ),
        None => None,
    }
}

/// The report with `symbol` in its symbol table, and the row that holds it.
/// A symbol that the table already holds keeps its row.
pub open spec fn intern_symbol(report: ReportModel, symbol: SymbolModel) -> (ReportModel, int) {
    match first_match(report.symbols, symbol_is(symbol), 0) {
        Some(row) => (report, row),
        None => (
            ReportModel { symbols: report.symbols.push(symbol), ..report },
            report.symbols.len() as int,
        ),
    }
}

/// The report with the identity of `frame` in its location table, and the
/// row that holds it. An address that the table already holds keeps its
/// row and the symbol it was first seen with.
pub open spec fn intern_frame(report: ReportModel, frame: FrameModel) -> (ReportModel, int) {
    match first_match(report.locations, address_is(frame.address), 0) {
        Some(row) => (report, row),
        None => {
            let (named, symbol) = match symbol_of(frame) {
                Some(symbol) => {
                    let (with_symbol, row) = intern_symbol(report, symbol);
                    (with_symbol, Some(row))
                },
                None => (report, None),
            };
            (
                ReportModel {
                    locations: named.locations.push(
                        LocationModel { address: frame.address, symbol },
                    ),
                    ..named
                },
                named.locations.len() as int,
            )
        },
    }
}

/// The report with every frame of a stack interned, leaf first, and the
/// rows of the frames in the stack's order.
pub open spec fn intern_stack(report: ReportModel, frames: Seq<FrameModel>) -> (
    ReportModel,
    Seq<int>,
)
    decreases frames.len(),
{
    if frames.len() == 0 {
        (report, Seq::empty())
    } else {
        let (before, rows) = intern_stack(report, frames.drop_last());
        let (after, row) = intern_frame(before, frames.last());
        (after, rows.push(row))
    }
}

/// The report with one more tick counted for `stack`.
pub open spec fn count_stack(report: ReportModel, stack: Seq<int>) -> ReportModel {
    match first_match(report.samples, stack_is(stack), 0) {
        Some(row) => ReportModel {
            samples: report.samples.update(
                row,
                SampleModel { locations: stack, count: report.samples[row].count + 1 },
            ),
            ..report
        },
        None => ReportModel {
            samples: report.samples.push(SampleModel { locations: stack, count: 1 }),
            ..report
        },
    }
}

/// The report after one more tick: the tick's stack is filtered, and if a
/// frame is left, interned and counted.
pub open spec fn record(
    report: ReportModel,
    patterns: Seq<Seq<char>>,
    frames: Seq<FrameModel>,
) -> ReportModel {
    let kept = kept_frames(patterns, frames);
    if kept.len() == 0 {
        report
    } else {
        let (interned, stack) = intern_stack(report, kept);
        count_stack(interned, stack)
    }
}

/// The report after a run of ticks, recorded in their order.
pub open spec fn record_all(
    report: ReportModel,
    patterns: Seq<Seq<char>>,
    samples: Seq<Seq<FrameModel>>,
) -> ReportModel
    decreases samples.len(),
{
    if samples.len() == 0 {
        report
    } else {
        record(record_all(report, patterns, samples.drop_last()), patterns, samples.last())
    }
}

/// The report of a run of ticks.
pub open spec fn aggregate_spec(
    patterns: Seq<Seq<char>>,
    samples: Seq<Seq<FrameModel>>,
) -> ReportModel {
    record_all(empty_report(), patterns, samples)
}

/// The number of ticks whose stack holds a frame after filtering.
pub open spec fn nonempty_ticks(patterns: Seq<Seq<char>>, samples: Seq<Seq<FrameModel>>) -> nat
    decreases samples.len(),
{
    if samples.len() == 0 {
        0
    } else {
        let before = nonempty_ticks(patterns, samples.drop_last());
        if kept_frames(patterns, samples.last()).len() == 0 {
            before
        } else {
            before + 1
        }
    }
}

/// Whether no symbol of the report lies in a module that the blocklist
/// names. A symbol with an empty module name lies in no module: its module
/// was not resolved, or has no name.
pub open spec fn symbols_clean(patterns: Seq<Seq<char>>, report: ReportModel) -> bool {
    forall|row: int|
        0 <= row < report.symbols.len() && (#[trigger] report.symbols[row]).module.len() > 0
            ==> !module_blocked(patterns, report.symbols[row].module)
}

/// Whether `after` holds all of `before` in the same rows, and the same
/// samples.
pub open spec fn extends(before: ReportModel, after: ReportModel) -> bool {
    &&& after.label == before.label
    &&& after.unit == before.unit
    &&& after.samples == before.samples
    &&& before.symbols.len() <= after.symbols.len()
    &&& forall|i: int| 0 <= i < before.symbols.len() ==> after.symbols[i] == before.symbols[i]
    &&& before.locations.len() <= after.locations.len()
    &&& forall|i: int|
        0 <= i < before.locations.len() ==> after.locations[i] == before.locations[i]
}

/// Interning a symbol keeps every row, the tables' soundness, and yields a
/// row that holds the symbol.
proof fn lemma_intern_symbol(report: ReportModel, symbol: SymbolModel)
    ensures
        extends(report, intern_symbol(report, symbol).0),
        intern_symbol(report, symbol).0.locations == report.locations,
        0 <= intern_symbol(report, symbol).1 < intern_symbol(report, symbol).0.symbols.len(),
        intern_symbol(report, symbol).0.symbols[intern_symbol(report, symbol).1] == symbol,
        intern_symbol(report, symbol).0.symbols.len() <= report.symbols.len() + 1,
        forall|i: int|
            report.symbols.len() <= i < intern_symbol(report, symbol).0.symbols.len()
                ==> intern_symbol(report, symbol).0.symbols[i] == symbol && forall|j: int|
                0 <= j < report.symbols.len() ==> report.symbols[j] != symbol,
{
    lemma_first_match(report.symbols, symbol_is(symbol), 0);
}

/// Whether the location and symbol tables of a report are sound: symbol
/// references exist, and no address and no symbol occurs twice.
pub open spec fn tables_sound(report: ReportModel) -> bool {
    &&& forall|i: int|
        0 <= i < report.locations.len() ==> symbol_in_range(
            #[trigger] report.locations[i],
            report.symbols.len() as int,
        )
    &&& forall|i: int, j: int|
        0 <= i < j < report.locations.len() ==> (#[trigger] report.locations[i]).address != (
        #[trigger] report.locations[j]).address
    &&& forall|i: int, j: int|
        0 <= i < j < report.symbols.len() ==> #[trigger] report.symbols[i]
            != #[trigger] report.symbols[j]
}

/// Interning a frame keeps every row and the tables' soundness, and yields
/// a row with the frame's address. If the frame passes the filter, no
/// blocked module enters the symbol table.
proof fn lemma_intern_frame(report: ReportModel, patterns: Seq<Seq<char>>, frame: FrameModel)
    ensures
        extends(report, intern_frame(report, frame).0),
        0 <= intern_frame(report, frame).1 < intern_frame(report, frame).0.locations.len(),
        intern_frame(report, frame).0.locations[intern_frame(report, frame).1].address
            == frame.address,
        tables_sound(report) ==> tables_sound(intern_frame(report, frame).0),
        symbols_clean(patterns, report) && !frame_blocked(patterns, frame) ==> symbols_clean(
            patterns,
            intern_frame(report, frame).0,
        ),
{
    lemma_first_match(report.locations, address_is(frame.address), 0);
    match first_match(report.locations, address_is(frame.address), 0) {
        Some(row) => {},
        None => {
            match symbol_of(frame) {
                Some(symbol) => {
                    lemma_intern_symbol(report, symbol);
                    let named = intern_symbol(report, symbol).0;
                    let after = intern_frame(report, frame).0;
                    assert(after.symbols == named.symbols);
                    if tables_sound(report) {
                        assert forall|i: int, j: int|
                            0 <= i < j < after.symbols.len() implies #[trigger] after.symbols[i]
                            != #[trigger] after.symbols[j] by {
                            if j >= report.symbols.len() {
                                assert(after.symbols[i] == report.symbols[i]);
                            }
                        }
                        assert forall|i: int, j: int|
                            0 <= i < j < after.locations.len() implies (
                        #[trigger] after.locations[i]).address != (
                        #[trigger] after.locations[j]).address by {
                            if j >= report.locations.len() {
                                assert(!address_is(frame.address)(report.locations[i]));
                            }
                        }
                    }
                    if symbols_clean(patterns, report) && !frame_blocked(patterns, frame) {
                        assert forall|row: int|
                            0 <= row < after.symbols.len() && (
                            #[trigger] after.symbols[row]).module.len() > 0 implies !module_blocked(
                            patterns,
                            after.symbols[row].module,
                        ) by {
                            if row < report.symbols.len() {
                                assert(after.symbols[row] == report.symbols[row]);
                            }
                        }
                    }
                },
                None => {
                    let after = intern_frame(report, frame).0;
                    if tables_sound(report) {
                        assert forall|i: int, j: int|
                            0 <= i < j < after.locations.len() implies (
                        #[trigger] after.locations[i]).address != (
                        #[trigger] after.locations[j]).address by {
                            if j >= report.locations.len() {
                                assert(!address_is(frame.address)(report.locations[i]));
                            }
                        }
                    }
                },
            }
        },
    }
}

/// Interning a stack keeps every row and the tables' soundness, and yields
/// one existing row for each frame of the stack.
proof fn lemma_intern_stack(
    report: ReportModel,
    patterns: Seq<Seq<char>>,
    frames: Seq<FrameModel>,
)
    ensures
        extends(report, intern_stack(report, frames).0),
        intern_stack(report, frames).1.len() == frames.len(),
        stack_in_range(
            intern_stack(report, frames).1,
            intern_stack(report, frames).0.locations.len() as int,
        ),
        tables_sound(report) ==> tables_sound(intern_stack(report, frames).0),
        symbols_clean(patterns, report) && (forall|k: int|
            0 <= k < frames.len() ==> !frame_blocked(patterns, #[trigger] frames[k]))
            ==> symbols_clean(patterns, intern_stack(report, frames).0),
    decreases frames.len(),
{
    if frames.len() > 0 {
        lemma_intern_stack(report, patterns, frames.drop_last());
        let before = intern_stack(report, frames.drop_last()).0;
        lemma_intern_frame(before, patterns, frames.last());
        if symbols_clean(patterns, report) && (forall|k: int|
            0 <= k < frames.len() ==> !frame_blocked(patterns, #[trigger] frames[k])) {
            assert forall|k: int| 0 <= k < frames.drop_last().len() implies !frame_blocked(
                patterns,
                #[trigger] frames.drop_last()[k],
            ) by {
                assert(frames.drop_last()[k] == frames[k]);
            }
            assert(!frame_blocked(patterns, frames.last()));
        }
    }
}

/// Replacing one row changes the sum of the counts by the difference of
/// the row's counts.
proof fn lemma_total_count_update(samples: Seq<SampleModel>, row: int, entry: SampleModel)
    requires
        0 <= row < samples.len(),
    ensures
        total_count(samples.update(row, entry)) + samples[row].count == total_count(samples)
            + entry.count,
    decreases samples.len(),
{
    if row == samples.len() - 1 {
        assert(samples.update(row, entry).drop_last() =~= samples.drop_last());
    } else {
        assert(samples.update(row, entry).drop_last() =~= samples.drop_last().update(row, entry));
        lemma_total_count_update(samples.drop_last(), row, entry);
    }
}

/// Counting a stack adds one to the sum of the counts.
proof fn lemma_count_stack_total(report: ReportModel, stack: Seq<int>)
    ensures
        total_count(count_stack(report, stack).samples) == total_count(report.samples) + 1,
{
    lemma_first_match(report.samples, stack_is(stack), 0);
    match first_match(report.samples, stack_is(stack), 0) {
        Some(row) => {
            lemma_total_count_update(
                report.samples,
                row,
                SampleModel { locations: stack, count: report.samples[row].count + 1 },
            );
        },
        None => {
            assert(report.samples.push(SampleModel { locations: stack, count: 1 }).drop_last()
                =~= report.samples);
        },
    }
}

/// Recording a tick adds one to the sum of the counts if the filtered stack
/// holds a frame, and nothing otherwise.
pub proof fn lemma_record_total(
    report: ReportModel,
    patterns: Seq<Seq<char>>,
    frames: Seq<FrameModel>,
)
    ensures
        total_count(record(report, patterns, frames).samples) == total_count(report.samples) + (
        if kept_frames(patterns, frames).len() == 0 {
            0nat
        } else {
            1nat
        }),
{
    let kept = kept_frames(patterns, frames);
    if kept.len() > 0 {
        lemma_intern_stack(report, patterns, kept);
        lemma_count_stack_total(intern_stack(report, kept).0, intern_stack(report, kept).1);
    }
}

/// Recording a tick keeps the report well formed and free of duplicates,
/// and lets no blocked module into the symbol table.
pub proof fn lemma_record_sound(
    report: ReportModel,
    patterns: Seq<Seq<char>>,
    frames: Seq<FrameModel>,
)
    requires
        well_formed(report),
        deduplicated(report),
        symbols_clean(patterns, report),
    ensures
        well_formed(record(report, patterns, frames)),
        deduplicated(record(report, patterns, frames)),
        symbols_clean(patterns, record(report, patterns, frames)),
        record(report, patterns, frames).label == report.label,
        record(report, patterns, frames).unit == report.unit,
{
    let kept = kept_frames(patterns, frames);
    if kept.len() > 0 {
        lemma_kept_frames_pass(patterns, frames);
        lemma_intern_stack(report, patterns, kept);
        let (interned, stack) = intern_stack(report, kept);
        let after = count_stack(interned, stack);
        lemma_first_match(interned.samples, stack_is(stack), 0);
        assert(tables_sound(report));
        assert(tables_sound(interned));
        assert(after.locations == interned.locations);
        assert(after.symbols == interned.symbols);
        assert forall|i: int| 0 <= i < after.samples.len() implies stack_in_range(
            (#[trigger] after.samples[i]).locations,
            after.locations.len() as int,
        ) && after.samples[i].count > 0 && after.samples[i].locations.len() > 0 by {
            if i < report.samples.len() && after.samples[i] == report.samples[i] {
                assert(stack_in_range(report.samples[i].locations, report.locations.len() as int));
            }
        }
        assert forall|i: int, j: int| 0 <= i < j < after.samples.len() implies (
        #[trigger] after.samples[i]).locations != (#[trigger] after.samples[j]).locations by {
            match first_match(interned.samples, stack_is(stack), 0) {
                Some(row) => {
                    assert(after.samples[i].locations == interned.samples[i].locations);
                    assert(after.samples[j].locations == interned.samples[j].locations);
                },
                None => {
                    if j == interned.samples.len() {
                        assert(!stack_is(stack)(interned.samples[i]));
                    } else {
                        assert(after.samples[i] == interned.samples[i]);
                        assert(after.samples[j] == interned.samples[j]);
                    }
                },
            }
        }
    }
}

/// The report of a run of ticks is well formed, holds no row twice, counts
/// exactly the ticks whose filtered stack is not empty, and names no
/// module of the blocklist in its symbol table.
pub proof fn lemma_aggregate_sound(patterns: Seq<Seq<char>>, samples: Seq<Seq<FrameModel>>)
    ensures
        well_formed(aggregate_spec(patterns, samples)),
        deduplicated(aggregate_spec(patterns, samples)),
        symbols_clean(patterns, aggregate_spec(patterns, samples)),
        total_count(aggregate_spec(patterns, samples).samples) == nonempty_ticks(
            patterns,
            samples,
        ),
        nonempty_ticks(patterns, samples) <= samples.len(),
        aggregate_spec(patterns, samples).label == empty_report().label,
        aggregate_spec(patterns, samples).unit == empty_report().unit,
    decreases samples.len(),
{
    if samples.len() > 0 {
        lemma_aggregate_sound(patterns, samples.drop_last());
        let before = aggregate_spec(patterns, samples.drop_last());
        lemma_record_sound(before, patterns, samples.last());
        lemma_record_total(before, patterns, samples.last());
    }
}


/// Whether row `row` of the location table shows `frame`: the row holds
/// the frame's address, and the frame's symbol where the frame has one.
pub open spec fn shows(report: ReportModel, row: int, frame: FrameModel) -> bool {
    &&& 0 <= row < report.locations.len()
    &&& report.locations[row].address == frame.address
    &&& match symbol_of(frame) {
        Some(symbol) => report.locations[row].symbol matches Some(named) && 0 <= named
            < report.symbols.len() && report.symbols[named] == symbol,
        None => report.locations[row].symbol is None,
    }
}

/// A row keeps showing a frame when the tables grow.
proof fn lemma_shows_extends(before: ReportModel, after: ReportModel, row: int, frame: FrameModel)
    requires
        extends(before, after),
        shows(before, row, frame),
    ensures
        shows(after, row, frame),
{
    assert(after.locations[row] == before.locations[row]);
}

/// A row that interning a stack adds shows a frame of that stack.
proof fn lemma_new_row_shows(report: ReportModel, frames: Seq<FrameModel>, row: int) -> (k: int)
    requires
        report.locations.len() <= row < intern_stack(report, frames).0.locations.len(),
    ensures
        0 <= k < frames.len(),
        shows(intern_stack(report, frames).0, row, frames[k]),
    decreases frames.len(),
{
    let patterns = Seq::<Seq<char>>::empty();
    let (before, rows) = intern_stack(report, frames.drop_last());
    let (after, index) = intern_frame(before, frames.last());
    lemma_intern_stack(report, patterns, frames.drop_last());
    lemma_intern_frame(before, patterns, frames.last());
    if row < before.locations.len() {
        let k = lemma_new_row_shows(report, frames.drop_last(), row);
        lemma_shows_extends(before, after, row, frames.drop_last()[k]);
        k
    } else {
        lemma_first_match(before.locations, address_is(frames.last().address), 0);
        match symbol_of(frames.last()) {
            Some(symbol) => {
                lemma_intern_symbol(before, symbol);
            },
            None => {},
        }
        frames.len() - 1
    }
}

/// Every row of the location table shows a frame that passed the filter
/// in some tick: the lemma returns the tick and the place of such a frame
/// in the tick's filtered stack. So a frame that the blocklist drops is
/// shown by no row.
pub proof fn lemma_locations_pass_filter(
    patterns: Seq<Seq<char>>,
    samples: Seq<Seq<FrameModel>>,
    row: int,
) -> (origin: (int, int))
    requires
        0 <= row < aggregate_spec(patterns, samples).locations.len(),
    ensures
        0 <= origin.0 < samples.len(),
        0 <= origin.1 < kept_frames(patterns, samples[origin.0]).len(),
        shows(
            aggregate_spec(patterns, samples),
            row,
            kept_frames(patterns, samples[origin.0])[origin.1],
        ),
        !frame_blocked(patterns, kept_frames(patterns, samples[origin.0])[origin.1]),
    decreases samples.len(),
{
    let before = aggregate_spec(patterns, samples.drop_last());
    let after = aggregate_spec(patterns, samples);
    let kept = kept_frames(patterns, samples.last());
    lemma_kept_frames_pass(patterns, samples.last());
    if kept.len() > 0 {
        lemma_intern_stack(before, patterns, kept);
    }
    assert(extends(before, ReportModel { samples: before.samples, ..after }));
    if row < before.locations.len() {
        let origin = lemma_locations_pass_filter(patterns, samples.drop_last(), row);
        assert(samples.drop_last()[origin.0] == samples[origin.0]);
        lemma_shows_extends(
            before,
            ReportModel { samples: before.samples, ..after },
            row,
            kept_frames(patterns, samples[origin.0])[origin.1],
        );
        lemma_kept_frames_pass(patterns, samples[origin.0]);
        origin
    } else {
        let k = lemma_new_row_shows(before, kept, row);
        (samples.len() - 1, k)
    }
}

/// Whether the rows of `stack` hold the addresses of `frames`, one row for
/// each frame in the same order.
pub open spec fn spells(report: ReportModel, stack: Seq<int>, frames: Seq<FrameModel>) -> bool {
    &&& stack.len() == frames.len()
    &&& forall|k: int|
        0 <= k < stack.len() ==> 0 <= #[trigger] stack[k] < report.locations.len()
            && report.locations[stack[k]].address == frames[k].address
}

/// The rows that interning a stack yields spell the stack.
proof fn lemma_interned_rows_spell(report: ReportModel, frames: Seq<FrameModel>)
    ensures
        spells(intern_stack(report, frames).0, intern_stack(report, frames).1, frames),
    decreases frames.len(),
{
    if frames.len() > 0 {
        let patterns = Seq::<Seq<char>>::empty();
        let (before, rows) = intern_stack(report, frames.drop_last());
        let (after, row) = intern_frame(before, frames.last());
        lemma_interned_rows_spell(report, frames.drop_last());
        lemma_intern_frame(before, patterns, frames.last());
        let stack = intern_stack(report, frames).1;
        assert(stack == rows.push(row));
        assert forall|k: int| 0 <= k < stack.len() implies 0 <= #[trigger] stack[k]
            < after.locations.len() && after.locations[stack[k]].address
            == frames[k].address by {
            if k < rows.len() {
                assert(stack[k] == rows[k]);
                assert(frames.drop_last()[k] == frames[k]);
                assert(after.locations[rows[k]] == before.locations[rows[k]]);
            }
        }
    }
}

/// Every tick whose filtered stack holds a frame has its row in the
/// sample table: the lemma returns a row whose locations spell the tick's
/// filtered stack.
pub proof fn lemma_ticks_have_rows(
    patterns: Seq<Seq<char>>,
    samples: Seq<Seq<FrameModel>>,
    tick: int,
) -> (row: int)
    requires
        0 <= tick < samples.len(),
        kept_frames(patterns, samples[tick]).len() > 0,
    ensures
        0 <= row < aggregate_spec(patterns, samples).samples.len(),
        aggregate_spec(patterns, samples).samples[row].count > 0,
        spells(
            aggregate_spec(patterns, samples),
            aggregate_spec(patterns, samples).samples[row].locations,
            kept_frames(patterns, samples[tick]),
        ),
    decreases samples.len(),
{
    let before = aggregate_spec(patterns, samples.drop_last());
    let after = aggregate_spec(patterns, samples);
    let kept = kept_frames(patterns, samples.last());
    if kept.len() > 0 {
        lemma_intern_stack(before, patterns, kept);
        lemma_interned_rows_spell(before, kept);
        let (interned, stack) = intern_stack(before, kept);
        lemma_first_match(interned.samples, stack_is(stack), 0);
    }
    if tick == samples.len() - 1 {
        let (interned, stack) = intern_stack(before, kept);
        match first_match(interned.samples, stack_is(stack), 0) {
            Some(found) => found,
            None => interned.samples.len() as int,
        }
    } else {
        assert(samples.drop_last()[tick] == samples[tick]);
        let row = lemma_ticks_have_rows(patterns, samples.drop_last(), tick);
        let frames = kept_frames(patterns, samples[tick]);
        assert(after.samples[row].locations == before.samples[row].locations);
        assert forall|k: int| 0 <= k < frames.len() implies 0 <= (
        #[trigger] after.samples[row].locations[k]) < after.locations.len()
            && after.locations[after.samples[row].locations[k]].address
            == frames[k].address by {
            let at = before.samples[row].locations[k];
            assert(0 <= at < before.locations.len());
            assert(after.locations[at] == before.locations[at]);
        }
        row
    }
}

/// Whether `after` holds every row of `before` in its place, each sample
/// row with a count that is no lower.
pub open spec fn grows_from(before: ReportModel, after: ReportModel) -> bool {
    &&& after.label == before.label
    &&& after.unit == before.unit
    &&& before.symbols.len() <= after.symbols.len()
    &&& forall|i: int| 0 <= i < before.symbols.len() ==> after.symbols[i] == before.symbols[i]
    &&& before.locations.len() <= after.locations.len()
    &&& forall|i: int|
        0 <= i < before.locations.len() ==> after.locations[i] == before.locations[i]
    &&& before.samples.len() <= after.samples.len()
    &&& forall|i: int|
        0 <= i < before.samples.len() ==> after.samples[i].locations
            == before.samples[i].locations && after.samples[i].count >= before.samples[i].count
}

/// Recording a tick moves no row: rows are only added at the end, and
/// counts only go up.
pub proof fn lemma_record_grows(
    report: ReportModel,
    patterns: Seq<Seq<char>>,
    frames: Seq<FrameModel>,
)
    ensures
        grows_from(report, record(report, patterns, frames)),
{
    let kept = kept_frames(patterns, frames);
    if kept.len() > 0 {
        lemma_intern_stack(report, patterns, kept);
        let (interned, stack) = intern_stack(report, kept);
        lemma_first_match(interned.samples, stack_is(stack), 0);
    }
}

/// The rows of a report stand in the order in which the ticks first
/// brought them: the report of the first `n` ticks holds its rows in the
/// same places as the report of all ticks, and what follows them was first
/// seen later.
pub proof fn lemma_rows_keep_their_place(
    patterns: Seq<Seq<char>>,
    samples: Seq<Seq<FrameModel>>,
    n: int,
)
    requires
        0 <= n <= samples.len(),
    ensures
        grows_from(aggregate_spec(patterns, samples.take(n)), aggregate_spec(patterns, samples)),
    decreases samples.len(),
{
    if n == samples.len() {
        assert(samples.take(n) =~= samples);
    } else {
        assert(samples.drop_last().take(n) =~= samples.take(n));
        lemma_rows_keep_their_place(patterns, samples.drop_last(), n);
        lemma_record_grows(
            aggregate_spec(patterns, samples.drop_last()),
            patterns,
            samples.last(),
        );
    }
}

/// Whether the tables of `after` hold the rows of the tables of `before`
/// in the same places.
pub open spec fn tables_extend(before: ReportModel, after: ReportModel) -> bool {
    &&& before.symbols.len() <= after.symbols.len()
    &&& forall|i: int| 0 <= i < before.symbols.len() ==> after.symbols[i] == before.symbols[i]
    &&& before.locations.len() <= after.locations.len()
    &&& forall|i: int|
        0 <= i < before.locations.len() ==> after.locations[i] == before.locations[i]
}

/// In sound tables an address is found in the one row that holds it.
proof fn lemma_address_has_one_row(report: ReportModel, address: u64, row: int)
    requires
        tables_sound(report),
        0 <= row < report.locations.len(),
        report.locations[row].address == address,
    ensures
        first_match(report.locations, address_is(address), 0) == Some(row),
{
    lemma_first_match(report.locations, address_is(address), 0);
    assert(address_is(address)(report.locations[row]));
}

/// Interning a stack once more, into tables that hold what the first
/// interning left, changes nothing and yields the same rows.
proof fn lemma_intern_again(report: ReportModel, frames: Seq<FrameModel>, later: ReportModel)
    requires
        tables_sound(later),
        tables_extend(intern_stack(report, frames).0, later),
    ensures
        intern_stack(later, frames) == (later, intern_stack(report, frames).1),
    decreases frames.len(),
{
    if frames.len() > 0 {
        let (before, rows) = intern_stack(report, frames.drop_last());
        let (after, row) = intern_frame(before, frames.last());
        lemma_intern_frame(before, Seq::empty(), frames.last());
        assert(tables_extend(before, later)) by {
            assert forall|i: int| 0 <= i < before.symbols.len() implies later.symbols[i]
                == before.symbols[i] by {
                assert(after.symbols[i] == before.symbols[i]);
            }
            assert forall|i: int| 0 <= i < before.locations.len() implies later.locations[i]
                == before.locations[i] by {
                assert(after.locations[i] == before.locations[i]);
            }
        }
        lemma_intern_again(report, frames.drop_last(), later);
        assert(later.locations[row] == after.locations[row]);
        lemma_address_has_one_row(later, frames.last().address, row);
    }
}

/// The same stack, captured by each of `ticks` ticks.
pub open spec fn same_stack(frames: Seq<FrameModel>, ticks: nat) -> Seq<Seq<FrameModel>> {
    Seq::new(ticks, |i: int| frames)
}

/// Ticks that all captured the same stack give one sample row, which
/// counts them all: its locations are the rows that interning the filtered
/// stack yields, and the tables hold what that interning put there.
pub proof fn lemma_one_stack_one_sample(
    patterns: Seq<Seq<char>>,
    frames: Seq<FrameModel>,
    ticks: nat,
)
    requires
        ticks > 0,
        kept_frames(patterns, frames).len() > 0,
    ensures
        aggregate_spec(patterns, same_stack(frames, ticks)).samples == seq![
            SampleModel {
                locations: intern_stack(empty_report(), kept_frames(patterns, frames)).1,
                count: ticks,
            },
        ],
        aggregate_spec(patterns, same_stack(frames, ticks)).locations == intern_stack(
            empty_report(),
            kept_frames(patterns, frames),
        ).0.locations,
        aggregate_spec(patterns, same_stack(frames, ticks)).symbols == intern_stack(
            empty_report(),
            kept_frames(patterns, frames),
        ).0.symbols,
    decreases ticks,
{
    let kept = kept_frames(patterns, frames);
    let (first, stack) = intern_stack(empty_report(), kept);
    let all = same_stack(frames, ticks);
    let before = aggregate_spec(patterns, all.drop_last());
    let after = aggregate_spec(patterns, all);
    assert(all.last() == frames);
    lemma_intern_stack(empty_report(), patterns, kept);
    if ticks == 1 {
        assert(before == empty_report());
        assert(first.samples.len() == 0);
        assert(after.samples =~= seq![SampleModel { locations: stack, count: ticks }]);
    } else {
        assert(all.drop_last() =~= same_stack(frames, (ticks - 1) as nat));
        lemma_one_stack_one_sample(patterns, frames, (ticks - 1) as nat);
        assert(tables_sound(before));
        lemma_intern_again(empty_report(), kept, before);
        assert(intern_stack(before, kept) == (before, stack));
        assert(stack_is(stack)(before.samples[0]));
        assert(first_match(before.samples, stack_is(stack), 0) == Some(0int));
        assert(after.samples =~= seq![SampleModel { locations: stack, count: ticks }]);
    }
}

/// A row shows no frame that the blocklist drops, as far as the frame has
/// a resolved symbol and a module name that is not empty: of other frames
/// a row holds no more than the address.
pub proof fn lemma_shown_symbols_pass_filter(
    patterns: Seq<Seq<char>>,
    samples: Seq<Seq<FrameModel>>,
    row: int,
    frame: FrameModel,
)
    requires
        shows(aggregate_spec(patterns, samples), row, frame),
        frame.symbol_name is Some,
        frame.module_name matches Some(module) ==> module.len() > 0,
    ensures
        !frame_blocked(patterns, frame),
{
    lemma_aggregate_sound(patterns, samples);
}

fn find_location(locations: &Vec<Location>, address: u64) -> (found: Option<usize>)
    ensures
        index_view(found) == first_match(locations_view(locations@), address_is(address), 0),
        found matches Some(row) ==> row < locations.len(),
{
    let ghost rows = locations_view(locations@);
    let mut i: usize = 0;
    while i < locations.len()
        invariant
            i <= locations.len(),
            rows == locations_view(locations@),
            first_match(rows, address_is(address), 0) == first_match(
                rows,
                address_is(address),
                i as int,
            ),
        decreases locations.len() - i,
    {
        if locations[i].address == address {
            return Some(i);
        }
        i += 1;
    }
    None
}

fn find_symbol(symbols: &Vec<SymbolEntry>, name: &String, module: &String) -> (found: Option<
    usize,
>)
    ensures
        index_view(found) == first_match(
            symbols_view(symbols@),
            symbol_is(SymbolModel { name: name@, module: module@ }),
            0,
        ),
        found matches Some(row) ==> row < symbols.len(),
{
    let ghost rows = symbols_view(symbols@);
    let ghost wanted = symbol_is(SymbolModel { name: name@, module: module@ });
    let mut i: usize = 0;
    while i < symbols.len()
        invariant
            i <= symbols.len(),
            rows == symbols_view(symbols@),
            wanted == symbol_is(SymbolModel { name: name@, module: module@ }),
            first_match(rows, wanted, 0) == first_match(rows, wanted, i as int),
        decreases symbols.len() - i,
    {
        if symbols[i].name.eq(name) && symbols[i].module.eq(module) {
            return Some(i);
        }
        i += 1;
    }
    None
}

fn same_rows(left: &Vec<usize>, right: &Vec<usize>) -> (same: bool)
    ensures
        same == (indices_view(left@) == indices_view(right@)),
{
    if left.len() != right.len() {
        return false;
    }
    let mut i: usize = 0;
    while i < left.len()
        invariant
            i <= left.len(),
            left.len() == right.len(),
            forall|k: int| 0 <= k < i ==> left@[k] == right@[k],
        decreases left.len() - i,
    {
        if left[i] != right[i] {
            proof {
                assert(indices_view(left@)[i as int] != indices_view(right@)[i as int]);
            }
            return false;
        }
        i += 1;
    }
    proof {
        assert(indices_view(left@) =~= indices_view(right@));
    }
    true
}

fn find_sample(samples: &Vec<SampleEntry>, stack: &Vec<usize>) -> (found: Option<usize>)
    ensures
        index_view(found) == first_match(
            entries_view(samples@),
            stack_is(indices_view(stack@)),
            0,
        ),
        found matches Some(row) ==> row < samples.len(),
{
    let ghost rows = entries_view(samples@);
    let ghost wanted = stack_is(indices_view(stack@));
    let mut i: usize = 0;
    while i < samples.len()
        invariant
            i <= samples.len(),
            rows == entries_view(samples@),
            wanted == stack_is(indices_view(stack@)),
            first_match(rows, wanted, 0) == first_match(rows, wanted, i as int),
        decreases samples.len() - i,
    {
        if same_rows(&samples[i].locations, stack) {
            return Some(i);
        }
        i += 1;
    }
    None
}

/// No single row counts more than all rows together.
proof fn lemma_count_within_total(samples: Seq<SampleModel>, row: int)
    requires
        0 <= row < samples.len(),
    ensures
        samples[row].count <= total_count(samples),
    decreases samples.len(),
{
    if row < samples.len() - 1 {
        lemma_count_within_total(samples.drop_last(), row);
    }
}

impl Report {
    fn intern_symbol(&mut self, name: String, module: String) -> (row: usize)
        ensures
            (final(self)@, row as int) == intern_symbol(
                old(self)@,
                SymbolModel { name: name@, module: module@ },
            ),
    {
        match find_symbol(&self.symbol_table, &name, &module) {
            Some(row) => row,
            None => {
                let row = self.symbol_table.len();
                self.symbol_table.push(SymbolEntry { name, module });
                proof {
                    assert(self@.symbols =~= old(self)@.symbols.push(
                        SymbolModel { name: name@, module: module@ },
                    ));
                }
                row
            },
        }
    }

    fn intern_frame(&mut self, frame: &StackFrame) -> (row: usize)
        ensures
            (final(self)@, row as int) == intern_frame(old(self)@, frame@),
    {
        match find_location(&self.locations, frame.address) {
            Some(row) => row,
            None => {
                let symbol = match &frame.symbol_name {
                    Some(name) => {
                        let module = match &frame.module_name {
                            Some(module) => module.clone(),
                            None => String::new(),
                        };
                        Some(self.intern_symbol(name.clone(), module))
                    },
                    None => None,
                };
                let ghost named = self@;
                let row = self.locations.len();
                self.locations.push(Location { address: frame.address, symbol });
                proof {
                    assert(self@.locations =~= named.locations.push(
                        LocationModel { address: frame.address, symbol: index_view(symbol) },
                    ));
                }
                row
            },
        }
    }

    fn record(&mut self, filter: &FrameFilter, sample: &RawSample)
        requires
            total_count(old(self)@.samples) < u64::MAX,
        ensures
            final(self)@ == record(old(self)@, filter@, sample@),
    {
        let kept = filter.filter_sample(sample);
        if kept.frames.len() == 0 {
            return ;
        }
        let mut stack: Vec<usize> = Vec::new();
        let mut i: usize = 0;
        while i < kept.frames.len()
            invariant
                i <= kept.frames.len(),
                (self@, indices_view(stack@)) == intern_stack(old(self)@, kept@.take(i as int)),
            decreases kept.frames.len() - i,
        {
            proof {
                assert(kept@.take(i + 1).drop_last() =~= kept@.take(i as int));
                assert(kept@.take(i + 1).last() == kept.frames@[i as int]@);
            }
            let ghost rows = indices_view(stack@);
            let row = self.intern_frame(&kept.frames[i]);
            stack.push(row);
            proof {
                assert(indices_view(stack@) =~= rows.push(row as int));
            }
            i += 1;
        }
        proof {
            assert(kept@.take(i as int) =~= kept@);
            lemma_intern_stack(old(self)@, filter@, kept@);
        }
        let ghost interned = self@;
        match find_sample(&self.samples, &stack) {
            Some(row) => {
                proof {
                    lemma_count_within_total(interned.samples, row as int);
                }
                let count = self.samples[row].count + 1;
                let ghost rows = indices_view(stack@);
                self.samples.set(row, SampleEntry { locations: stack, count });
                proof {
                    assert(self@.samples =~= interned.samples.update(
                        row as int,
                        SampleModel { locations: rows, count: interned.samples[row as int].count + 1 },
                    ));
                }
            },
            None => {
                let ghost rows = indices_view(stack@);
                self.samples.push(SampleEntry { locations: stack, count: 1 });
                proof {
                    assert(self@.samples =~= interned.samples.push(
                        SampleModel { locations: rows, count: 1 },
                    ));
                }
            },
        }
    }
}

/// Builds the report of a run of ticks.
///
/// Each stack is filtered first. A stack that is left without frames counts
/// for nothing. The frames and stacks that remain are interned in the order
/// in which they are first seen, so equal runs give equal reports.
pub fn aggregate(samples: &Vec<RawSample>, filter: &FrameFilter) -> (report: Report)
    ensures
        report@ == aggregate_spec(filter@, samples_view(samples@)),
        well_formed(report@),
        deduplicated(report@),
        symbols_clean(filter@, report@),
        total_count(report@.samples) == nonempty_ticks(filter@, samples_view(samples@)),
        total_count(report@.samples) <= samples.len(),
{
    let ghost ticks = samples_view(samples@);
    let mut report = Report::new();
    let mut i: usize = 0;
    while i < samples.len()
        invariant
            i <= samples.len(),
            ticks == samples_view(samples@),
            report@ == aggregate_spec(filter@, ticks.take(i as int)),
        decreases samples.len() - i,
    {
        proof {
            assert(ticks.take(i + 1).drop_last() =~= ticks.take(i as int));
            assert(ticks.take(i + 1).last() == samples@[i as int]@);
            lemma_aggregate_sound(filter@, ticks.take(i as int));
        }
        report.record(filter, &samples[i]);
        i += 1;
    }
    proof {
        assert(ticks.take(i as int) =~= ticks);
        lemma_aggregate_sound(filter@, ticks);
    }
    report
}

} // verus!
