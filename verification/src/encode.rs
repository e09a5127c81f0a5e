//! The serializer: a report as bytes in the profile wire format.
//!
//! The bytes hold four tables. The string table holds each name once; the
//! function table names a function and its module by rows of the string
//! table; the location table gives each frame identity its address and its
//! function; the sample table lists each stack as rows of the location
//! table, with its count. Rows are written one-based, so that zero can
//! stand for "none".

use crate::decode::{decode_spec, lemma_decode_inverts_encode, within_limits};
use crate::error::ProfileError;
use crate::frame::text_bytes;
use crate::report::{
    stack_in_range, symbol_in_range,
    well_formed, Location, LocationModel, Report, ReportModel, SampleEntry,
    SampleModel, SymbolModel,
};
use crate::table::{intern, intern_text, texts_view};
use crate::wire::{
    blocks, field_block, field_number, put_block, put_number, put_varint, varint,
};
use vstd::prelude::*;

verus! {

/// Tag of the value type block of a profile.
pub const TAG_VALUE_TYPE: u8 = 0x0a;

/// Tag of a sample block of a profile.
pub const TAG_SAMPLE: u8 = 0x12;

/// Tag of a location block of a profile.
pub const TAG_LOCATION: u8 = 0x22;

/// Tag of a function block of a profile.
pub const TAG_FUNCTION: u8 = 0x2a;

/// Tag of a string table entry of a profile.
pub const TAG_STRING: u8 = 0x32;

/// Tag of the first number of a block: a row, or the label of a value type.
pub const TAG_FIRST: u8 = 0x08;

/// Tag of the second number of a block: a name, or the unit of a value type.
pub const TAG_SECOND: u8 = 0x10;

/// Tag of the address of a location.
pub const TAG_ADDRESS: u8 = 0x18;

/// Tag of the module of a function.
pub const TAG_MODULE: u8 = 0x20;

/// Tag of the line block of a location, which holds its function.
pub const TAG_LINE: u8 = 0x22;

/// Tag of the packed rows of a sample.
pub const TAG_STACK: u8 = 0x0a;

/// Tag of the packed values of a sample.
pub const TAG_VALUES: u8 = 0x12;

/// The largest count that the wire format carries: it stores counts as
/// signed 64-bit numbers.
pub const MAX_COUNT: u64 = 0x7fff_ffff_ffff_ffff;

/// The rows of the string table that name one function: its name and its
/// module.
pub struct NameRows {
    pub name: int,
    pub module: int,
}

/// The string table of a report and the rows that the other tables use.
pub struct StringPlan {
    pub strings: Seq<Seq<char>>,
    pub label: int,
    pub unit: int,
    pub names: Seq<NameRows>,
}

/// The string table after the names of `symbols` were interned in their
/// order, and the rows of each symbol's name and module.
pub open spec fn name_rows(table: Seq<Seq<char>>, symbols: Seq<SymbolModel>) -> (
    Seq<Seq<char>>,
    Seq<NameRows>,
)
    decreases symbols.len(),
{
    if symbols.len() == 0 {
        (table, Seq::empty())
    } else {
        let (before, rows) = name_rows(table, symbols.drop_last());
        let (named, name) = intern_text(before, symbols.last().name);
        let (after, module) = intern_text(named, symbols.last().module);
        (after, rows.push(NameRows { name, module }))
    }
}

/// The string table of a report: the empty string in row zero, then each
/// text once, in the order label, unit, and name and module of each symbol.
pub open spec fn string_plan(report: ReportModel) -> StringPlan {
    let start = seq![Seq::<char>::empty()];
    let (labelled, label) = intern_text(start, report.label);
    let (united, unit) = intern_text(labelled, report.unit);
    let (strings, names) = name_rows(united, report.symbols);
    StringPlan { strings, label, unit, names }
}

/// The body of the value type block.
pub open spec fn value_type_bytes(label: int, unit: int) -> Seq<u8> {
    field_number(TAG_FIRST, label as nat) + field_number(TAG_SECOND, unit as nat)
}

/// The rows of a stack, one-based, each in base 128.
pub open spec fn packed_rows(stack: Seq<int>) -> Seq<u8>
    decreases stack.len(),
{
    if stack.len() == 0 {
        Seq::empty()
    } else {
        packed_rows(stack.drop_last()) + varint((stack.last() + 1) as nat)
    }
}

/// The body of a sample block: the stack, then the count.
pub open spec fn sample_bytes(sample: SampleModel) -> Seq<u8> {
    field_block(TAG_STACK, packed_rows(sample.locations)) + field_block(
        TAG_VALUES,
        varint(sample.count),
    )
}

/// The body of the location block of row `row`: the row, the address, and
/// where the symbol is known, a line block that holds the function's row.
pub open spec fn location_bytes(row: int, location: LocationModel) -> Seq<u8> {
    field_number(TAG_FIRST, (row + 1) as nat) + field_number(TAG_ADDRESS, location.address as nat)
        + match location.symbol {
        Some(symbol) => field_block(TAG_LINE, field_number(TAG_FIRST, (symbol + 1) as nat)),
        None => Seq::empty(),
    }
}

/// The body of the function block of row `row`: the row, the name and the
/// module.
pub open spec fn function_bytes(row: int, names: NameRows) -> Seq<u8> {
    field_number(TAG_FIRST, (row + 1) as nat) + field_number(TAG_SECOND, names.name as nat)
        + field_number(TAG_MODULE, names.module as nat)
}

/// The bodies of the sample blocks of a sample table.
pub open spec fn sample_bodies(samples: Seq<SampleModel>) -> Seq<Seq<u8>> {
    Seq::new(samples.len(), |i: int| sample_bytes(samples[i]))
}

/// The bodies of the location blocks of a location table.
pub open spec fn location_bodies(locations: Seq<LocationModel>) -> Seq<Seq<u8>> {
    Seq::new(locations.len(), |i: int| location_bytes(i, locations[i]))
}

/// The bodies of the function blocks of a function table.
pub open spec fn function_bodies(names: Seq<NameRows>) -> Seq<Seq<u8>> {
    Seq::new(names.len(), |i: int| function_bytes(i, names[i]))
}

/// The bodies of the entries of a string table.
pub open spec fn string_bodies(strings: Seq<Seq<char>>) -> Seq<Seq<u8>> {
    Seq::new(strings.len(), |i: int| text_bytes(strings[i]))
}

/// The bytes of a report: the value type, then the sample, location,
/// function and string tables.
pub open spec fn profile_bytes(report: ReportModel) -> Seq<u8> {
    let plan = string_plan(report);
    field_block(TAG_VALUE_TYPE, value_type_bytes(plan.label, plan.unit)) + blocks(
        TAG_SAMPLE,
        sample_bodies(report.samples),
    ) + blocks(TAG_LOCATION, location_bodies(report.locations)) + blocks(
        TAG_FUNCTION,
        function_bodies(plan.names),
    ) + blocks(TAG_STRING, string_bodies(plan.strings))
}

/// Whether every count of the report fits the wire format.
pub open spec fn counts_fit(report: ReportModel) -> bool {
    forall|i: int|
        0 <= i < report.samples.len() ==> (#[trigger] report.samples[i]).count <= MAX_COUNT
}

/// What encoding a report yields: its bytes, or the reason why it has none.
pub open spec fn encode_spec(report: ReportModel) -> Result<Seq<u8>, ProfileError> {
    if !well_formed(report) {
        Err(ProfileError::MalformedReport)
    } else if !counts_fit(report) {
        Err(ProfileError::Encoding)
    } else {
        Ok(profile_bytes(report))
    }
}

impl Report {
    fn counts_fit(&self) -> (ok: bool)
        ensures
            ok == counts_fit(self@),
    {
        let mut i: usize = 0;
        while i < self.samples.len()
            invariant
                i <= self.samples.len(),
                forall|j: int| 0 <= j < i ==> (#[trigger] self@.samples[j]).count <= MAX_COUNT,
            decreases self.samples.len() - i,
        {
            if self.samples[i].count > MAX_COUNT {
                proof {
                    assert(!(self@.samples[i as int].count <= MAX_COUNT));
                }
                return false;
            }
            i += 1;
        }
        true
    }
}

/// The rows of the string table that one function uses, as stored.
struct StoredNames {
    name: usize,
    module: usize,
}

spec fn rows_view(rows: StoredNames) -> NameRows {
    NameRows { name: rows.name as int, module: rows.module as int }
}

spec fn names_view(names: Seq<StoredNames>) -> Seq<NameRows> {
    names.map_values(|rows: StoredNames| rows_view(rows))
}

fn write_sample(sample: &SampleEntry, rows: usize) -> (body: Vec<u8>)
    requires
        stack_in_range(sample@.locations, rows as int),
    ensures
        body@ == sample_bytes(sample@),
{
    let mut packed: Vec<u8> = Vec::new();
    let mut k: usize = 0;
    while k < sample.locations.len()
        invariant
            k <= sample.locations.len(),
            stack_in_range(sample@.locations, rows as int),
            packed@ == packed_rows(sample@.locations.take(k as int)),
        decreases sample.locations.len() - k,
    {
        proof {
            assert(sample@.locations.take(k + 1).drop_last() =~= sample@.locations.take(k as int));
            assert(sample@.locations[k as int] == sample.locations@[k as int]);
        }
        put_varint(&mut packed, sample.locations[k] as u64 + 1);
        k += 1;
    }
    proof {
        assert(sample@.locations.take(k as int) =~= sample@.locations);
    }
    let mut count: Vec<u8> = Vec::new();
    put_varint(&mut count, sample.count);
    let mut body: Vec<u8> = Vec::new();
    put_block(&mut body, TAG_STACK, packed.as_slice());
    put_block(&mut body, TAG_VALUES, count.as_slice());
    proof {
        assert(count@ =~= varint(sample@.count));
        assert(body@ =~= sample_bytes(sample@));
    }
    body
}

fn write_location(row: usize, location: &Location, symbols: usize) -> (body: Vec<u8>)
    requires
        row < usize::MAX,
        symbol_in_range(location@, symbols as int),
    ensures
        body@ == location_bytes(row as int, location@),
{
    let mut body: Vec<u8> = Vec::new();
    put_number(&mut body, TAG_FIRST, row as u64 + 1);
    put_number(&mut body, TAG_ADDRESS, location.address);
    match location.symbol {
        Some(symbol) => {
            let mut line: Vec<u8> = Vec::new();
            put_number(&mut line, TAG_FIRST, symbol as u64 + 1);
            put_block(&mut body, TAG_LINE, line.as_slice());
            proof {
                assert(line@ =~= field_number(TAG_FIRST, (symbol + 1) as nat));
            }
        },
        None => {},
    }
    proof {
        assert(body@ =~= location_bytes(row as int, location@));
    }
    body
}

fn write_function(row: usize, names: &StoredNames) -> (body: Vec<u8>)
    requires
        row < usize::MAX,
    ensures
        body@ == function_bytes(row as int, rows_view(*names)),
{
    let mut body: Vec<u8> = Vec::new();
    put_number(&mut body, TAG_FIRST, row as u64 + 1);
    put_number(&mut body, TAG_SECOND, names.name as u64);
    put_number(&mut body, TAG_MODULE, names.module as u64);
    proof {
        assert(body@ =~= function_bytes(row as int, rows_view(*names)));
    }
    body
}

/// Encodes a report.
///
/// The bytes depend on nothing but what the report holds: two reports with
/// equal contents give equal bytes, and the bytes hold the report and no
/// other. A report that refers to a missing row is refused as malformed,
/// and one with a count above [`MAX_COUNT`] as not encodable.
pub fn encode(report: &Report) -> (result: Result<Vec<u8>, ProfileError>)
    ensures
        match result {
            Ok(bytes) => encode_spec(report@) == Ok::<Seq<u8>, ProfileError>(bytes@),
            Err(error) => encode_spec(report@) == Err::<Seq<u8>, ProfileError>(error),
        },
        result matches Ok(bytes) ==> decode_spec(bytes@) == Some(report@),
{
    if !report.is_well_formed() {
        return Err(ProfileError::MalformedReport);
    }
    if !report.counts_fit() {
        return Err(ProfileError::Encoding);
    }
    let ghost model = report@;
    let ghost plan = string_plan(model);

    let mut strings: Vec<String> = Vec::new();
    strings.push(String::new());
    proof {
        assert(texts_view(strings@) =~= seq![Seq::<char>::empty()]);
    }
    let label = intern(&mut strings, &report.value_type.label);
    let unit = intern(&mut strings, &report.value_type.unit);
    let ghost united = texts_view(strings@);
    let mut names: Vec<StoredNames> = Vec::new();
    let mut i: usize = 0;
    while i < report.symbol_table.len()
        invariant
            i <= report.symbol_table.len(),
            model == report@,
            (texts_view(strings@), names_view(names@)) == name_rows(
                united,
                model.symbols.take(i as int),
            ),
        decreases report.symbol_table.len() - i,
    {
        proof {
            assert(model.symbols.take(i + 1).drop_last() =~= model.symbols.take(i as int));
            assert(model.symbols.take(i + 1).last() == report.symbol_table@[i as int]@);
        }
        let ghost rows = names_view(names@);
        let name = intern(&mut strings, &report.symbol_table[i].name);
        let module = intern(&mut strings, &report.symbol_table[i].module);
        names.push(StoredNames { name, module });
        proof {
            assert(names_view(names@) =~= rows.push(
                NameRows { name: name as int, module: module as int },
            ));
        }
        i += 1;
    }
    proof {
        assert(model.symbols.take(i as int) =~= model.symbols);
        assert(texts_view(strings@) == plan.strings);
        assert(names_view(names@) == plan.names);
    }

    let mut out: Vec<u8> = Vec::new();
    let mut header: Vec<u8> = Vec::new();
    put_number(&mut header, TAG_FIRST, label as u64);
    put_number(&mut header, TAG_SECOND, unit as u64);
    put_block(&mut out, TAG_VALUE_TYPE, header.as_slice());
    proof {
        assert(header@ =~= value_type_bytes(plan.label, plan.unit));
        assert(out@ =~= field_block(TAG_VALUE_TYPE, value_type_bytes(plan.label, plan.unit)));
    }
    let ghost head = out@;

    let mut i: usize = 0;
    while i < report.samples.len()
        invariant
            i <= report.samples.len(),
            model == report@,
            well_formed(model),
            out@ == head + blocks(TAG_SAMPLE, sample_bodies(model.samples).take(i as int)),
            forall|j: int|
                0 <= j < i ==> sample_bytes(#[trigger] model.samples[j]).len() <= usize::MAX,
        decreases report.samples.len() - i,
    {
        proof {
            assert(sample_bodies(model.samples).take(i + 1).drop_last() =~= sample_bodies(
                model.samples,
            ).take(i as int));
            assert(model.samples[i as int] == report.samples@[i as int]@);
            assert(stack_in_range(model.samples[i as int].locations, model.locations.len() as int));
            assert(model.locations.len() == report.locations@.len());
        }
        let body = write_sample(&report.samples[i], report.locations.len());
        put_block(&mut out, TAG_SAMPLE, body.as_slice());
        proof {
            assert(body@.len() == body.len());
            assert(out@ =~= head + blocks(TAG_SAMPLE, sample_bodies(model.samples).take(i + 1)));
        }
        i += 1;
    }
    proof {
        assert(sample_bodies(model.samples).take(i as int) =~= sample_bodies(model.samples));
    }
    let ghost head = out@;

    let mut i: usize = 0;
    while i < report.locations.len()
        invariant
            i <= report.locations.len(),
            model == report@,
            well_formed(model),
            out@ == head + blocks(TAG_LOCATION, location_bodies(model.locations).take(i as int)),
        decreases report.locations.len() - i,
    {
        proof {
            assert(location_bodies(model.locations).take(i + 1).drop_last() =~= location_bodies(
                model.locations,
            ).take(i as int));
            assert(model.locations[i as int] == report.locations@[i as int]@);
            assert(symbol_in_range(model.locations[i as int], model.symbols.len() as int));
            assert(model.symbols.len() == report.symbol_table@.len());
        }
        let body = write_location(i, &report.locations[i], report.symbol_table.len());
        put_block(&mut out, TAG_LOCATION, body.as_slice());
        proof {
            assert(out@ =~= head + blocks(
                TAG_LOCATION,
                location_bodies(model.locations).take(i + 1),
            ));
        }
        i += 1;
    }
    proof {
        assert(location_bodies(model.locations).take(i as int) =~= location_bodies(
            model.locations,
        ));
    }
    let ghost head = out@;

    let mut i: usize = 0;
    while i < names.len()
        invariant
            i <= names.len(),
            out@ == head + blocks(
                TAG_FUNCTION,
                function_bodies(names_view(names@)).take(i as int),
            ),
        decreases names.len() - i,
    {
        proof {
            assert(function_bodies(names_view(names@)).take(i + 1).drop_last()
                =~= function_bodies(names_view(names@)).take(i as int));
            assert(names_view(names@)[i as int] == rows_view(names@[i as int]));
        }
        let body = write_function(i, &names[i]);
        put_block(&mut out, TAG_FUNCTION, body.as_slice());
        proof {
            assert(out@ =~= head + blocks(
                TAG_FUNCTION,
                function_bodies(names_view(names@)).take(i + 1),
            ));
        }
        i += 1;
    }
    proof {
        assert(function_bodies(names_view(names@)).take(i as int) =~= function_bodies(
            names_view(names@),
        ));
    }
    let ghost head = out@;

    let mut i: usize = 0;
    while i < strings.len()
        invariant
            i <= strings.len(),
            out@ == head + blocks(TAG_STRING, string_bodies(texts_view(strings@)).take(i as int)),
            forall|j: int|
                0 <= j < i ==> text_bytes(#[trigger] texts_view(strings@)[j]).len() <= usize::MAX,
        decreases strings.len() - i,
    {
        proof {
            assert(string_bodies(texts_view(strings@)).take(i + 1).drop_last() =~= string_bodies(
                texts_view(strings@),
            ).take(i as int));
            assert(texts_view(strings@)[i as int] == strings@[i as int]@);
        }
        let text = strings[i].as_str().as_bytes();
        put_block(&mut out, TAG_STRING, text);
        proof {
            assert(text@.len() == text.len());
            assert(out@ =~= head + blocks(
                TAG_STRING,
                string_bodies(texts_view(strings@)).take(i + 1),
            ));
        }
        i += 1;
    }
    proof {
        assert(string_bodies(texts_view(strings@)).take(i as int) =~= string_bodies(
            texts_view(strings@),
        ));
        assert(out@ =~= profile_bytes(model));
        assert(model.locations.len() == report.locations.len());
        assert(model.symbols.len() == report.symbol_table.len());
        assert(plan.strings.len() == strings.len());
        assert(within_limits(model));
        lemma_decode_inverts_encode(model);
    }
    Ok(out)
}

/// Equal reports encode alike: the bytes are a function of what the report
/// holds, not of the object that holds it.
pub proof fn lemma_encode_deterministic(first: Report, second: Report)
    requires
        first@ == second@,
    ensures
        encode_spec(first@) == encode_spec(second@),
{
}

} // verus!
