//! The serializer's inverse: the report that the bytes of a profile hold.
//!
//! The decoder reads the layout that the encoder writes and nothing else:
//! the value type, then the sample, location, function and string tables,
//! each row under its one-based number.

use crate::encode::{
    counts_fit, encode_spec, function_bodies, function_bytes, location_bodies, location_bytes,
    name_rows, packed_rows, profile_bytes, sample_bodies, sample_bytes, string_bodies,
    string_plan, value_type_bytes, NameRows, MAX_COUNT, TAG_ADDRESS, TAG_FIRST,
    TAG_FUNCTION, TAG_LINE, TAG_LOCATION, TAG_MODULE, TAG_SAMPLE, TAG_SECOND, TAG_STACK,
    TAG_STRING, TAG_VALUES, TAG_VALUE_TYPE,
};
use crate::frame::text_bytes;
use crate::report::{
    entries_view, indices_view, locations_view, stack_in_range, symbol_in_range, symbols_view,
    well_formed, Location, LocationModel, Report, ReportModel, SampleEntry, SampleModel,
    SymbolEntry, SymbolModel, ValueType,
};
use crate::table::{intern_text, lemma_intern_text, texts_view};
use crate::wire::{
    blocks, bodies_view, field_block, field_number, lemma_parse_block, lemma_parse_blocks,
    lemma_parse_number, lemma_parse_u64, lemma_varint_len, lemma_varint_u64, parse_block,
    parse_blocks, parse_number, parse_u64, read_block, read_blocks, read_number, read_u64,
    varint,
};
use vstd::prelude::*;
use vstd::slice::slice_subrange;
use vstd::utf8::{decode_utf8, encode_utf8_decode_utf8, encode_utf8_valid_utf8, valid_utf8};

verus! {

/// The numbers that fill `bytes` from end to end, each in base 128.
pub open spec fn parse_packed(bytes: Seq<u8>) -> Option<Seq<u64>>
    decreases bytes.len(),
{
    if bytes.len() == 0 {
        Some(Seq::empty())
    } else {
        match parse_u64(bytes) {
            Some((value, used)) => if 0 < used <= bytes.len() {
                match parse_packed(bytes.skip(used)) {
                    Some(more) => Some(seq![value] + more),
                    None => None,
                }
            } else {
                None
            },
            None => None,
        }
    }
}

/// Whether every number is a one-based row.
pub open spec fn all_rows(numbers: Seq<u64>) -> bool {
    forall|k: int| 0 <= k < numbers.len() ==> #[trigger] numbers[k] >= 1
}

/// One-based rows as table positions.
pub open spec fn rows_of(numbers: Seq<u64>) -> Seq<int> {
    Seq::new(numbers.len(), |k: int| numbers[k] - 1)
}

/// The label and the unit that the body of a value type block holds.
pub open spec fn parse_value_type(body: Seq<u8>) -> Option<(u64, u64)> {
    match parse_number(body, TAG_FIRST) {
        Some((label, used)) => match parse_number(body.skip(used), TAG_SECOND) {
            Some((unit, further)) => if used + further == body.len() {
                Some((label, unit))
            } else {
                None
            },
            None => None,
        },
        None => None,
    }
}

/// The sample that the body of a sample block holds.
pub open spec fn parse_sample(body: Seq<u8>) -> Option<SampleModel> {
    match parse_block(body, TAG_STACK) {
        Some((packed, used)) => match parse_block(body.skip(used), TAG_VALUES) {
            Some((value, further)) => match (parse_packed(packed), parse_u64(value)) {
                (Some(numbers), Some((count, taken))) => if used + further == body.len() && taken
                    == value.len() && count <= MAX_COUNT && all_rows(numbers) {
                    Some(SampleModel { locations: rows_of(numbers), count: count as nat })
                } else {
                    None
                },
                _ => None,
            },
            None => None,
        },
        None => None,
    }
}

/// The function row that the line block of a location holds.
pub open spec fn parse_line(line: Seq<u8>) -> Option<int> {
    match parse_number(line, TAG_FIRST) {
        Some((function, used)) => if used == line.len() && function >= 1 {
            Some(function - 1)
        } else {
            None
        },
        None => None,
    }
}

/// The location that the body of the location block of row `row` holds.
pub open spec fn parse_location(row: int, body: Seq<u8>) -> Option<LocationModel> {
    match parse_number(body, TAG_FIRST) {
        Some((number, used)) => match parse_number(body.skip(used), TAG_ADDRESS) {
            Some((address, further)) => if number != row + 1 {
                None
            } else if used + further == body.len() {
                Some(LocationModel { address, symbol: None })
            } else {
                match parse_block(body.skip(used + further), TAG_LINE) {
                    Some((line, taken)) => match parse_line(line) {
                        Some(symbol) => if used + further + taken == body.len() {
                            Some(LocationModel { address, symbol: Some(symbol) })
                        } else {
                            None
                        },
                        None => None,
                    },
                    None => None,
                }
            },
            None => None,
        },
        None => None,
    }
}

/// The rows of the string table that the body of the function block of
/// row `row` holds.
pub open spec fn parse_function(row: int, body: Seq<u8>) -> Option<NameRows> {
    match parse_number(body, TAG_FIRST) {
        Some((number, used)) => match parse_number(body.skip(used), TAG_SECOND) {
            Some((name, further)) => match parse_number(body.skip(used + further), TAG_MODULE) {
                Some((module, taken)) => if number == row + 1 && used + further + taken
                    == body.len() {
                    Some(NameRows { name: name as int, module: module as int })
                } else {
                    None
                },
                None => None,
            },
            None => None,
        },
        None => None,
    }
}

/// The text that an entry of the string table holds.
pub open spec fn parse_text(body: Seq<u8>) -> Option<Seq<char>> {
    if valid_utf8(body) {
        Some(decode_utf8(body))
    } else {
        None
    }
}

/// The samples of the bodies of a sample table.
pub open spec fn parse_samples(bodies: Seq<Seq<u8>>) -> Option<Seq<SampleModel>> {
    if forall|i: int| 0 <= i < bodies.len() ==> parse_sample(#[trigger] bodies[i]) is Some {
        Some(Seq::new(bodies.len(), |i: int| parse_sample(bodies[i]).unwrap()))
    } else {
        None
    }
}

/// The locations of the bodies of a location table.
pub open spec fn parse_locations(bodies: Seq<Seq<u8>>) -> Option<Seq<LocationModel>> {
    if forall|i: int| 0 <= i < bodies.len() ==> (#[trigger] parse_location(i, bodies[i])) is Some {
        Some(Seq::new(bodies.len(), |i: int| parse_location(i, bodies[i]).unwrap()))
    } else {
        None
    }
}

/// The name rows of the bodies of a function table.
pub open spec fn parse_functions(bodies: Seq<Seq<u8>>) -> Option<Seq<NameRows>> {
    if forall|i: int| 0 <= i < bodies.len() ==> (#[trigger] parse_function(i, bodies[i])) is Some {
        Some(Seq::new(bodies.len(), |i: int| parse_function(i, bodies[i]).unwrap()))
    } else {
        None
    }
}

/// The texts of the entries of a string table.
pub open spec fn parse_texts(bodies: Seq<Seq<u8>>) -> Option<Seq<Seq<char>>> {
    if forall|i: int| 0 <= i < bodies.len() ==> parse_text(#[trigger] bodies[i]) is Some {
        Some(Seq::new(bodies.len(), |i: int| parse_text(bodies[i]).unwrap()))
    } else {
        None
    }
}

/// The bodies of the blocks of a profile, table by table.
pub struct Sections {
    pub value_type: Seq<u8>,
    pub samples: Seq<Seq<u8>>,
    pub locations: Seq<Seq<u8>>,
    pub functions: Seq<Seq<u8>>,
    pub strings: Seq<Seq<u8>>,
}

/// The sections that fill `bytes` from end to end.
pub open spec fn parse_sections(bytes: Seq<u8>) -> Option<Sections> {
    match parse_block(bytes, TAG_VALUE_TYPE) {
        Some((value_type, n0)) => match parse_blocks(bytes.skip(n0), TAG_SAMPLE) {
            Some((samples, n1)) => match parse_blocks(bytes.skip(n0 + n1), TAG_LOCATION) {
                Some((locations, n2)) => match parse_blocks(
                    bytes.skip(n0 + n1 + n2),
                    TAG_FUNCTION,
                ) {
                    Some((functions, n3)) => match parse_blocks(
                        bytes.skip(n0 + n1 + n2 + n3),
                        TAG_STRING,
                    ) {
                        Some((strings, n4)) => if n0 + n1 + n2 + n3 + n4 == bytes.len() {
                            Some(Sections { value_type, samples, locations, functions, strings })
                        } else {
                            None
                        },
                        None => None,
                    },
                    None => None,
                },
                None => None,
            },
            None => None,
        },
        None => None,
    }
}

/// Whether a function's name rows are rows of a string table of `rows` rows.
pub open spec fn names_in_range(names: NameRows, rows: int) -> bool {
    0 <= names.name < rows && 0 <= names.module < rows
}

/// The symbol table that name rows and a string table spell out.
pub open spec fn symbols_of(names: Seq<NameRows>, strings: Seq<Seq<char>>) -> Seq<SymbolModel> {
    Seq::new(
        names.len(),
        |i: int| SymbolModel { name: strings[names[i].name], module: strings[names[i].module] },
    )
}

/// The report that the parsed tables make, where every row that a table
/// refers to exists.
pub open spec fn assemble(
    value_type: (u64, u64),
    samples: Seq<SampleModel>,
    locations: Seq<LocationModel>,
    names: Seq<NameRows>,
    strings: Seq<Seq<char>>,
) -> Option<ReportModel> {
    let report = ReportModel {
        label: strings[value_type.0 as int],
        unit: strings[value_type.1 as int],
        symbols: symbols_of(names, strings),
        locations,
        samples,
    };
    if value_type.0 < strings.len() && value_type.1 < strings.len() && (forall|i: int|
        0 <= i < names.len() ==> names_in_range(#[trigger] names[i], strings.len() as int))
        && well_formed(report) {
        Some(report)
    } else {
        None
    }
}

/// The report that `bytes` hold, or `None` where they are not the bytes of
/// a report.
pub open spec fn decode_spec(bytes: Seq<u8>) -> Option<ReportModel> {
    match parse_sections(bytes) {
        Some(sections) => match (
            parse_value_type(sections.value_type),
            parse_samples(sections.samples),
            parse_locations(sections.locations),
            parse_functions(sections.functions),
            parse_texts(sections.strings),
        ) {
            (Some(value_type), Some(samples), Some(locations), Some(names), Some(strings)) => {
                assemble(value_type, samples, locations, names, strings)
            },
            _ => None,
        },
        None => None,
    }
}

/// Whether the sizes of a report fit the 64-bit numbers of the wire format:
/// the row numbers of its tables, and the lengths of its stacks and texts.
/// A report that a machine holds is within these limits.
pub open spec fn within_limits(report: ReportModel) -> bool {
    &&& report.locations.len() <= u64::MAX
    &&& report.symbols.len() <= u64::MAX
    &&& string_plan(report).strings.len() <= u64::MAX
    &&& forall|i: int|
        0 <= i < report.samples.len() ==> sample_bytes(#[trigger] report.samples[i]).len()
            <= u64::MAX
    &&& forall|i: int|
        0 <= i < string_plan(report).strings.len() ==> text_bytes(
            #[trigger] string_plan(report).strings[i],
        ).len() <= u64::MAX
}

/// The packed rows of a stack start with its first row.
proof fn lemma_packed_front(first: int, more: Seq<int>)
    ensures
        packed_rows(seq![first] + more) == varint((first + 1) as nat) + packed_rows(more),
    decreases more.len(),
{
    let all = seq![first] + more;
    if more.len() == 0 {
        assert(all.drop_last() =~= Seq::<int>::empty());
        assert(packed_rows(all.drop_last()) =~= Seq::<u8>::empty());
        assert(packed_rows(all) =~= varint((first + 1) as nat) + packed_rows(more));
    } else {
        assert(all.drop_last() =~= seq![first] + more.drop_last());
        lemma_packed_front(first, more.drop_last());
        assert(packed_rows(all) =~= varint((first + 1) as nat) + packed_rows(more));
    }
}

/// The packed rows of a stack are read back as its rows, one-based.
proof fn lemma_parse_packed(stack: Seq<int>)
    requires
        forall|k: int| 0 <= k < stack.len() ==> 0 <= #[trigger] stack[k] < u64::MAX,
    ensures
        parse_packed(packed_rows(stack)) matches Some(numbers) && numbers.len() == stack.len()
            && forall|k: int| 0 <= k < stack.len() ==> #[trigger] numbers[k] == stack[k] + 1,
    decreases stack.len(),
{
    if stack.len() > 0 {
        let first = stack[0];
        let more = stack.drop_first();
        assert(stack =~= seq![first] + more);
        lemma_packed_front(first, more);
        let bytes = packed_rows(stack);
        lemma_parse_u64((first + 1) as u64, packed_rows(more));
        lemma_varint_len((first + 1) as nat);
        let used = varint((first + 1) as nat).len() as int;
        assert(bytes.skip(used) =~= packed_rows(more));
        assert forall|k: int| 0 <= k < more.len() implies 0 <= #[trigger] more[k] < u64::MAX by {
            assert(more[k] == stack[k + 1]);
        }
        lemma_parse_packed(more);
        let rest = parse_packed(packed_rows(more)).unwrap();
        let numbers = seq![(first + 1) as u64] + rest;
        assert(parse_packed(bytes) == Some(numbers));
        assert forall|k: int| 0 <= k < stack.len() implies #[trigger] numbers[k] == stack[k]
            + 1 by {
            if k > 0 {
                assert(numbers[k] == rest[k - 1]);
                assert(more[k - 1] == stack[k]);
            }
        }
    }
}

/// The body of a value type block is read back.
proof fn lemma_parse_value_type(label: u64, unit: u64)
    ensures
        parse_value_type(value_type_bytes(label as int, unit as int)) == Some((label, unit)),
{
    let second = field_number(TAG_SECOND, unit as nat);
    let body = value_type_bytes(label as int, unit as int);
    lemma_parse_number(TAG_FIRST, label, second);
    let used = field_number(TAG_FIRST, label as nat).len() as int;
    assert(body.skip(used) =~= second + Seq::<u8>::empty());
    lemma_parse_number(TAG_SECOND, unit, Seq::empty());
}

/// The body of a sample block is read back.
proof fn lemma_parse_sample(sample: SampleModel)
    requires
        forall|k: int|
            0 <= k < sample.locations.len() ==> 0 <= #[trigger] sample.locations[k] < u64::MAX,
        sample.count <= MAX_COUNT,
        sample_bytes(sample).len() <= u64::MAX,
    ensures
        parse_sample(sample_bytes(sample)) == Some(sample),
{
    let packed = packed_rows(sample.locations);
    let value = varint(sample.count);
    let second = field_block(TAG_VALUES, value);
    let body = sample_bytes(sample);
    lemma_parse_block(TAG_STACK, packed, second);
    let used = field_block(TAG_STACK, packed).len() as int;
    assert(body.skip(used) =~= second + Seq::<u8>::empty());
    lemma_parse_block(TAG_VALUES, value, Seq::empty());
    lemma_parse_packed(sample.locations);
    assert(value + Seq::<u8>::empty() =~= value);
    lemma_parse_u64(sample.count as u64, Seq::empty());
    let numbers = parse_packed(packed).unwrap();
    assert(rows_of(numbers) =~= sample.locations);
}

/// The body of a location block is read back.
proof fn lemma_parse_location(row: int, location: LocationModel)
    requires
        0 <= row < u64::MAX,
        location.symbol matches Some(symbol) ==> 0 <= symbol < u64::MAX,
    ensures
        parse_location(row, location_bytes(row, location)) == Some(location),
{
    let body = location_bytes(row, location);
    let first = field_number(TAG_FIRST, (row + 1) as nat);
    let second = field_number(TAG_ADDRESS, location.address as nat);
    match location.symbol {
        Some(symbol) => {
            let line = field_number(TAG_FIRST, (symbol + 1) as nat);
            let third = field_block(TAG_LINE, line);
            assert(body =~= first + (second + third));
            lemma_parse_number(TAG_FIRST, (row + 1) as u64, second + third);
            assert(body.skip(first.len() as int) =~= second + third);
            lemma_parse_number(TAG_ADDRESS, location.address, third);
            assert(body.skip((first.len() + second.len()) as int) =~= third + Seq::<u8>::empty());
            lemma_varint_len((symbol + 1) as nat);
            lemma_varint_u64((symbol + 1) as u64);
            lemma_parse_block(TAG_LINE, line, Seq::empty());
            assert(line + Seq::<u8>::empty() =~= line);
            lemma_parse_number(TAG_FIRST, (symbol + 1) as u64, Seq::empty());
            assert(third.len() > 0);
        },
        None => {
            assert(body =~= first + (second + Seq::<u8>::empty()));
            lemma_parse_number(TAG_FIRST, (row + 1) as u64, second + Seq::<u8>::empty());
            assert(body.skip(first.len() as int) =~= second + Seq::<u8>::empty());
            lemma_parse_number(TAG_ADDRESS, location.address, Seq::empty());
        },
    }
}

/// The body of a function block is read back.
proof fn lemma_parse_function(row: int, names: NameRows)
    requires
        0 <= row < u64::MAX,
        0 <= names.name <= u64::MAX,
        0 <= names.module <= u64::MAX,
    ensures
        parse_function(row, function_bytes(row, names)) == Some(names),
{
    let body = function_bytes(row, names);
    let first = field_number(TAG_FIRST, (row + 1) as nat);
    let second = field_number(TAG_SECOND, names.name as nat);
    let third = field_number(TAG_MODULE, names.module as nat);
    assert(body =~= first + (second + third));
    lemma_parse_number(TAG_FIRST, (row + 1) as u64, second + third);
    assert(body.skip(first.len() as int) =~= second + third);
    lemma_parse_number(TAG_SECOND, names.name as u64, third);
    assert(body.skip((first.len() + second.len()) as int) =~= third + Seq::<u8>::empty());
    lemma_parse_number(TAG_MODULE, names.module as u64, Seq::empty());
}

/// An entry of the string table is read back.
proof fn lemma_parse_text(text: Seq<char>)
    ensures
        parse_text(text_bytes(text)) == Some(text),
{
    encode_utf8_valid_utf8(text);
    encode_utf8_decode_utf8(text);
}

/// The rows that a string plan gives out hold the texts they were given
/// out for.
proof fn lemma_name_rows(table: Seq<Seq<char>>, symbols: Seq<SymbolModel>)
    ensures
        table.len() <= name_rows(table, symbols).0.len(),
        forall|i: int| 0 <= i < table.len() ==> name_rows(table, symbols).0[i] == table[i],
        name_rows(table, symbols).1.len() == symbols.len(),
        forall|i: int|
            0 <= i < symbols.len() ==> names_in_range(
                #[trigger] name_rows(table, symbols).1[i],
                name_rows(table, symbols).0.len() as int,
            ) && name_rows(table, symbols).0[name_rows(table, symbols).1[i].name]
                == symbols[i].name && name_rows(table, symbols).0[name_rows(
                table,
                symbols,
            ).1[i].module] == symbols[i].module,
    decreases symbols.len(),
{
    if symbols.len() > 0 {
        lemma_name_rows(table, symbols.drop_last());
        let (before, rows) = name_rows(table, symbols.drop_last());
        lemma_intern_text(before, symbols.last().name);
        let (named, name) = intern_text(before, symbols.last().name);
        lemma_intern_text(named, symbols.last().module);
        let (after, module) = intern_text(named, symbols.last().module);
        let result = name_rows(table, symbols);
        assert(result.0 == after);
        assert(result.1 == rows.push(NameRows { name, module }));
        assert forall|i: int| 0 <= i < symbols.len() implies names_in_range(
            #[trigger] result.1[i],
            result.0.len() as int,
        ) && result.0[result.1[i].name] == symbols[i].name && result.0[result.1[i].module]
            == symbols[i].module by {
            if i < symbols.len() - 1 {
                assert(result.1[i] == rows[i]);
                assert(symbols.drop_last()[i] == symbols[i]);
                assert(names_in_range(rows[i], before.len() as int));
                assert(named[rows[i].name] == before[rows[i].name]);
                assert(after[rows[i].name] == named[rows[i].name]);
                assert(named[rows[i].module] == before[rows[i].module]);
                assert(after[rows[i].module] == named[rows[i].module]);
            } else {
                assert(after[name] == named[name]);
            }
        }
    }
}

/// The string plan of a report spells the report's texts.
proof fn lemma_string_plan(report: ReportModel)
    ensures
        0 <= string_plan(report).label < string_plan(report).strings.len(),
        0 <= string_plan(report).unit < string_plan(report).strings.len(),
        string_plan(report).strings[string_plan(report).label] == report.label,
        string_plan(report).strings[string_plan(report).unit] == report.unit,
        string_plan(report).names.len() == report.symbols.len(),
        forall|i: int|
            0 <= i < report.symbols.len() ==> names_in_range(
                #[trigger] string_plan(report).names[i],
                string_plan(report).strings.len() as int,
            ),
        symbols_of(string_plan(report).names, string_plan(report).strings) == report.symbols,
{
    let start = seq![Seq::<char>::empty()];
    lemma_intern_text(start, report.label);
    let (labelled, label) = intern_text(start, report.label);
    lemma_intern_text(labelled, report.unit);
    let (united, unit) = intern_text(labelled, report.unit);
    lemma_name_rows(united, report.symbols);
    let plan = string_plan(report);
    assert(united[label] == labelled[label]);
    assert(plan.strings[label] == united[label]);
    assert(plan.strings[unit] == united[unit]);
    assert(symbols_of(plan.names, plan.strings) =~= report.symbols);
}

/// The blocks of a table are empty or start with the table's tag.
proof fn lemma_blocks_start(tag: u8, bodies: Seq<Seq<u8>>)
    ensures
        blocks(tag, bodies).len() == 0 || blocks(tag, bodies)[0] == tag,
    decreases bodies.len(),
{
    if bodies.len() > 0 {
        lemma_blocks_start(tag, bodies.drop_last());
    }
}

/// A table that follows `before` is read back from where `before` ends.
proof fn lemma_table_after(before: Seq<u8>, tag: u8, bodies: Seq<Seq<u8>>, rest: Seq<u8>)
    requires
        forall|i: int| 0 <= i < bodies.len() ==> (#[trigger] bodies[i]).len() <= u64::MAX,
        rest.len() == 0 || rest[0] != tag,
    ensures
        parse_blocks((before + blocks(tag, bodies) + rest).skip(before.len() as int), tag) == Some(
            (bodies, blocks(tag, bodies).len() as int),
        ),
{
    assert((before + blocks(tag, bodies) + rest).skip(before.len() as int) =~= blocks(tag, bodies)
        + rest);
    lemma_parse_blocks(tag, bodies, rest);
}

/// Five sections in a row are read back as they are.
#[verifier::rlimit(60)]
proof fn lemma_five_sections(
    head: Seq<u8>,
    samples: Seq<Seq<u8>>,
    locations: Seq<Seq<u8>>,
    functions: Seq<Seq<u8>>,
    strings: Seq<Seq<u8>>,
)
    requires
        head.len() <= u64::MAX,
        forall|i: int| 0 <= i < samples.len() ==> (#[trigger] samples[i]).len() <= u64::MAX,
        forall|i: int| 0 <= i < locations.len() ==> (#[trigger] locations[i]).len() <= u64::MAX,
        forall|i: int| 0 <= i < functions.len() ==> (#[trigger] functions[i]).len() <= u64::MAX,
        forall|i: int| 0 <= i < strings.len() ==> (#[trigger] strings[i]).len() <= u64::MAX,
    ensures
        parse_sections(
            field_block(TAG_VALUE_TYPE, head) + blocks(TAG_SAMPLE, samples) + blocks(
                TAG_LOCATION,
                locations,
            ) + blocks(TAG_FUNCTION, functions) + blocks(TAG_STRING, strings),
        ) == Some(Sections { value_type: head, samples, locations, functions, strings }),
{
    let b0 = field_block(TAG_VALUE_TYPE, head);
    let s1 = blocks(TAG_SAMPLE, samples);
    let s2 = blocks(TAG_LOCATION, locations);
    let s3 = blocks(TAG_FUNCTION, functions);
    let s4 = blocks(TAG_STRING, strings);
    let bytes = b0 + s1 + s2 + s3 + s4;
    let n0 = b0.len() as int;
    let n1 = s1.len() as int;
    let n2 = s2.len() as int;
    let n3 = s3.len() as int;
    let n4 = s4.len() as int;
    lemma_blocks_start(TAG_LOCATION, locations);
    lemma_blocks_start(TAG_FUNCTION, functions);
    lemma_blocks_start(TAG_STRING, strings);
    assert(parse_block(bytes, TAG_VALUE_TYPE) == Some((head, n0))) by {
        assert(bytes =~= b0 + (s1 + s2 + s3 + s4));
        lemma_parse_block(TAG_VALUE_TYPE, head, s1 + s2 + s3 + s4);
    }
    assert(parse_blocks(bytes.skip(n0), TAG_SAMPLE) == Some((samples, n1))) by {
        assert(bytes =~= b0 + s1 + (s2 + s3 + s4));
        lemma_table_after(b0, TAG_SAMPLE, samples, s2 + s3 + s4);
    }
    assert(parse_blocks(bytes.skip(n0 + n1), TAG_LOCATION) == Some((locations, n2))) by {
        assert(bytes =~= (b0 + s1) + s2 + (s3 + s4));
        lemma_table_after(b0 + s1, TAG_LOCATION, locations, s3 + s4);
    }
    assert(parse_blocks(bytes.skip(n0 + n1 + n2), TAG_FUNCTION) == Some((functions, n3))) by {
        assert(bytes =~= (b0 + s1 + s2) + s3 + s4);
        lemma_table_after(b0 + s1 + s2, TAG_FUNCTION, functions, s4);
    }
    assert(parse_blocks(bytes.skip(n0 + n1 + n2 + n3), TAG_STRING) == Some((strings, n4))) by {
        assert(bytes =~= (b0 + s1 + s2 + s3) + s4 + Seq::<u8>::empty());
        lemma_table_after(b0 + s1 + s2 + s3, TAG_STRING, strings, Seq::empty());
    }
    assert(n0 + n1 + n2 + n3 + n4 == bytes.len());
}

/// The bytes of a report split back into the bodies they were made of.
proof fn lemma_parse_sections(report: ReportModel)
    requires
        well_formed(report),
        within_limits(report),
    ensures
        parse_sections(profile_bytes(report)) == Some(
            Sections {
                value_type: value_type_bytes(
                    string_plan(report).label,
                    string_plan(report).unit,
                ),
                samples: sample_bodies(report.samples),
                locations: location_bodies(report.locations),
                functions: function_bodies(string_plan(report).names),
                strings: string_bodies(string_plan(report).strings),
            },
        ),
{
    let plan = string_plan(report);
    lemma_string_plan(report);
    let locations = location_bodies(report.locations);
    let functions = function_bodies(plan.names);
    lemma_varint_u64(plan.label as u64);
    lemma_varint_u64(plan.unit as u64);
    assert forall|i: int| 0 <= i < locations.len() implies (#[trigger] locations[i]).len()
        <= u64::MAX by {
        lemma_location_is_short(i, report.locations[i]);
    }
    assert forall|i: int| 0 <= i < functions.len() implies (#[trigger] functions[i]).len()
        <= u64::MAX by {
        lemma_function_is_short(i, plan.names[i]);
    }
    lemma_five_sections(
        value_type_bytes(plan.label, plan.unit),
        sample_bodies(report.samples),
        locations,
        functions,
        string_bodies(plan.strings),
    );
}

/// The body of a location block of a report within limits is short.
proof fn lemma_location_is_short(row: int, location: LocationModel)
    requires
        0 <= row < u64::MAX,
        symbol_in_range(location, u64::MAX as int),
    ensures
        location_bytes(row, location).len() <= 64,
{
    lemma_varint_u64((row + 1) as u64);
    lemma_varint_u64(location.address);
    match location.symbol {
        Some(symbol) => {
            lemma_varint_u64((symbol + 1) as u64);
            lemma_varint_u64(field_number(TAG_FIRST, (symbol + 1) as nat).len() as u64);
        },
        None => {},
    }
}

/// The body of a function block of a report within limits is short.
proof fn lemma_function_is_short(row: int, names: NameRows)
    requires
        0 <= row < u64::MAX,
        names_in_range(names, u64::MAX as int + 1),
    ensures
        function_bytes(row, names).len() <= 64,
{
    lemma_varint_u64((row + 1) as u64);
    lemma_varint_u64(names.name as u64);
    lemma_varint_u64(names.module as u64);
}

/// Decoding inverts encoding: the bytes of a report hold that report and
/// no other.
pub proof fn lemma_decode_inverts_encode(report: ReportModel)
    requires
        well_formed(report),
        counts_fit(report),
        within_limits(report),
    ensures
        decode_spec(profile_bytes(report)) == Some(report),
{
    let plan = string_plan(report);
    lemma_string_plan(report);
    lemma_parse_sections(report);
    let sections = parse_sections(profile_bytes(report)).unwrap();
    lemma_parse_value_type(plan.label as u64, plan.unit as u64);
    assert forall|i: int| 0 <= i < sections.samples.len() implies parse_sample(
        #[trigger] sections.samples[i],
    ) == Some(report.samples[i]) by {
        assert(stack_in_range(report.samples[i].locations, report.locations.len() as int));
        lemma_parse_sample(report.samples[i]);
    }
    assert(parse_samples(sections.samples).unwrap() =~= report.samples);
    assert forall|i: int| 0 <= i < sections.locations.len() implies (#[trigger] parse_location(
        i,
        sections.locations[i],
    )) == Some(report.locations[i]) by {
        assert(symbol_in_range(report.locations[i], report.symbols.len() as int));
        lemma_parse_location(i, report.locations[i]);
    }
    assert(parse_locations(sections.locations).unwrap() =~= report.locations);
    assert forall|i: int| 0 <= i < sections.functions.len() implies (#[trigger] parse_function(
        i,
        sections.functions[i],
    )) == Some(plan.names[i]) by {
        assert(names_in_range(plan.names[i], plan.strings.len() as int));
        lemma_parse_function(i, plan.names[i]);
    }
    assert(parse_functions(sections.functions).unwrap() =~= plan.names);
    assert forall|i: int| 0 <= i < sections.strings.len() implies parse_text(
        #[trigger] sections.strings[i],
    ) == Some(plan.strings[i]) by {
        lemma_parse_text(plan.strings[i]);
    }
    assert(parse_texts(sections.strings).unwrap() =~= plan.strings);
}

/// What encoding yields, decoding turns back: a report that encodes is
/// the one and only report that its bytes hold.
pub proof fn lemma_round_trip(report: ReportModel)
    requires
        within_limits(report),
        encode_spec(report) is Ok,
    ensures
        decode_spec(encode_spec(report).unwrap()) == Some(report),
{
    lemma_decode_inverts_encode(report);
}

/// Calls `std::str::from_utf8` and copies the text it returns.
///
/// Trusted: as the documentation of the standard library says, the call
/// succeeds on the bytes of valid UTF-8 and on no others, and the text is
/// the one that the bytes encode.
#[verifier::external_body]
fn read_text(body: &[u8]) -> (found: Option<String>)
    ensures
        match found {
            Some(text) => parse_text(body@) == Some(text@),
            None => parse_text(body@) is None,
        },
{
    match std::str::from_utf8(body) {
        Ok(text) => Some(text.to_owned()),
        Err(_) => None,
    }
}

fn read_packed(bytes: &[u8]) -> (found: Option<Vec<u64>>)
    ensures
        match found {
            Some(numbers) => parse_packed(bytes@) == Some(numbers@),
            None => parse_packed(bytes@) is None,
        },
{
    let mut numbers: Vec<u64> = Vec::new();
    let mut at: usize = 0;
    proof {
        assert(bytes@.skip(0) =~= bytes@);
    }
    loop
        invariant
            at <= bytes.len(),
            match parse_packed(bytes@.skip(at as int)) {
                Some(more) => parse_packed(bytes@) == Some(numbers@ + more),
                None => parse_packed(bytes@) is None,
            },
        decreases bytes.len() - at,
    {
        let rest = slice_subrange(bytes, at, bytes.len());
        proof {
            assert(rest@ =~= bytes@.skip(at as int));
        }
        if rest.len() == 0 {
            proof {
                assert(numbers@ + Seq::<u64>::empty() =~= numbers@);
            }
            return Some(numbers);
        }
        match read_u64(rest) {
            Some((value, used)) => {
                let ghost before = numbers@;
                numbers.push(value);
                proof {
                    assert(rest@.skip(used as int) =~= bytes@.skip(at + used));
                    match parse_packed(bytes@.skip(at + used)) {
                        Some(more) => {
                            assert(before + (seq![value] + more) =~= numbers@ + more);
                        },
                        None => {},
                    }
                }
                at = at + used;
            },
            None => {
                return None;
            },
        }
    }
}

fn all_positive(numbers: &Vec<u64>) -> (yes: bool)
    ensures
        yes == all_rows(numbers@),
{
    let mut k: usize = 0;
    while k < numbers.len()
        invariant
            k <= numbers.len(),
            forall|j: int| 0 <= j < k ==> #[trigger] numbers@[j] >= 1,
        decreases numbers.len() - k,
    {
        if numbers[k] == 0 {
            return false;
        }
        k += 1;
    }
    true
}

fn read_value_type(body: &[u8]) -> (found: Option<(u64, u64)>)
    ensures
        found == parse_value_type(body@),
{
    match read_number(body, TAG_FIRST) {
        Some((label, used)) => {
            let rest = slice_subrange(body, used, body.len());
            proof {
                assert(rest@ =~= body@.skip(used as int));
            }
            match read_number(rest, TAG_SECOND) {
                Some((unit, further)) => {
                    if used + further == body.len() {
                        Some((label, unit))
                    } else {
                        None
                    }
                },
                None => None,
            }
        },
        None => None,
    }
}

/// A sample as read: the rows of its stack, one-based, and its count.
struct ReadSample {
    numbers: Vec<u64>,
    count: u64,
}

/// A location as read: its address and its function, one-based, or zero.
struct ReadLocation {
    address: u64,
    function: u64,
}

/// A function as read: the rows of its name and its module.
struct ReadNames {
    name: u64,
    module: u64,
}

spec fn sample_of(row: ReadSample) -> SampleModel {
    SampleModel { locations: rows_of(row.numbers@), count: row.count as nat }
}

spec fn samples_of(rows: Seq<ReadSample>) -> Seq<SampleModel> {
    rows.map_values(|row: ReadSample| sample_of(row))
}

spec fn location_of(row: ReadLocation) -> LocationModel {
    LocationModel {
        address: row.address,
        symbol: if row.function == 0 {
            None
        } else {
            Some(row.function - 1)
        },
    }
}

spec fn locations_of(rows: Seq<ReadLocation>) -> Seq<LocationModel> {
    rows.map_values(|row: ReadLocation| location_of(row))
}

spec fn names_of(row: ReadNames) -> NameRows {
    NameRows { name: row.name as int, module: row.module as int }
}

spec fn all_names_of(rows: Seq<ReadNames>) -> Seq<NameRows> {
    rows.map_values(|row: ReadNames| names_of(row))
}

fn read_sample(body: &[u8]) -> (found: Option<ReadSample>)
    ensures
        match found {
            Some(row) => parse_sample(body@) == Some(sample_of(row)) && all_rows(row.numbers@),
            None => parse_sample(body@) is None,
        },
{
    match read_block(body, TAG_STACK) {
        Some((packed, used)) => {
            let rest = slice_subrange(body, used, body.len());
            proof {
                assert(rest@ =~= body@.skip(used as int));
            }
            match read_block(rest, TAG_VALUES) {
                Some((value, further)) => {
                    match read_packed(packed) {
                        Some(numbers) => {
                            match read_u64(value) {
                                Some((count, taken)) => {
                                    if used + further == body.len() && taken == value.len()
                                        && count <= MAX_COUNT && all_positive(&numbers) {
                                        Some(ReadSample { numbers, count })
                                    } else {
                                        None
                                    }
                                },
                                None => None,
                            }
                        },
                        None => None,
                    }
                },
                None => None,
            }
        },
        None => None,
    }
}

fn read_line(line: &[u8]) -> (found: Option<u64>)
    ensures
        match found {
            Some(function) => function >= 1 && parse_line(line@) == Some(function - 1),
            None => parse_line(line@) is None,
        },
{
    match read_number(line, TAG_FIRST) {
        Some((function, used)) => {
            if used == line.len() && function >= 1 {
                Some(function)
            } else {
                None
            }
        },
        None => None,
    }
}

fn read_location(row: usize, body: &[u8]) -> (found: Option<ReadLocation>)
    requires
        row < usize::MAX,
    ensures
        match found {
            Some(location) => parse_location(row as int, body@) == Some(location_of(location)),
            None => parse_location(row as int, body@) is None,
        },
{
    match read_number(body, TAG_FIRST) {
        Some((number, used)) => {
            let rest = slice_subrange(body, used, body.len());
            proof {
                assert(rest@ =~= body@.skip(used as int));
            }
            match read_number(rest, TAG_ADDRESS) {
                Some((address, further)) => {
                    if number != row as u64 + 1 {
                        return None;
                    }
                    if used + further == body.len() {
                        return Some(ReadLocation { address, function: 0 });
                    }
                    let tail = slice_subrange(body, used + further, body.len());
                    proof {
                        assert(tail@ =~= body@.skip(used + further));
                    }
                    match read_block(tail, TAG_LINE) {
                        Some((line, taken)) => {
                            match read_line(line) {
                                Some(function) => {
                                    if used + further + taken == body.len() {
                                        Some(ReadLocation { address, function })
                                    } else {
                                        None
                                    }
                                },
                                None => None,
                            }
                        },
                        None => None,
                    }
                },
                None => None,
            }
        },
        None => None,
    }
}

fn read_function(row: usize, body: &[u8]) -> (found: Option<ReadNames>)
    requires
        row < usize::MAX,
    ensures
        match found {
            Some(names) => parse_function(row as int, body@) == Some(names_of(names)),
            None => parse_function(row as int, body@) is None,
        },
{
    match read_number(body, TAG_FIRST) {
        Some((number, used)) => {
            let rest = slice_subrange(body, used, body.len());
            proof {
                assert(rest@ =~= body@.skip(used as int));
            }
            match read_number(rest, TAG_SECOND) {
                Some((name, further)) => {
                    let tail = slice_subrange(body, used + further, body.len());
                    proof {
                        assert(tail@ =~= body@.skip(used + further));
                    }
                    match read_number(tail, TAG_MODULE) {
                        Some((module, taken)) => {
                            if number == row as u64 + 1 && used + further + taken == body.len() {
                                Some(ReadNames { name, module })
                            } else {
                                None
                            }
                        },
                        None => None,
                    }
                },
                None => None,
            }
        },
        None => None,
    }
}

fn read_samples(bodies: &Vec<&[u8]>) -> (found: Option<Vec<ReadSample>>)
    ensures
        match found {
            Some(rows) => parse_samples(bodies_view(bodies@)) == Some(samples_of(rows@))
                && forall|i: int| 0 <= i < rows.len() ==> all_rows((#[trigger] rows@[i]).numbers@),
            None => parse_samples(bodies_view(bodies@)) is None,
        },
{
    let ghost all = bodies_view(bodies@);
    let mut rows: Vec<ReadSample> = Vec::new();
    let mut i: usize = 0;
    while i < bodies.len()
        invariant
            i <= bodies.len(),
            all == bodies_view(bodies@),
            rows.len() == i,
            forall|j: int| 0 <= j < i ==> parse_sample(#[trigger] all[j]) == Some(sample_of(rows@[j])),
            forall|j: int| 0 <= j < i ==> all_rows((#[trigger] rows@[j]).numbers@),
        decreases bodies.len() - i,
    {
        match read_sample(bodies[i]) {
            Some(row) => rows.push(row),
            None => {
                proof {
                    assert(parse_sample(all[i as int]) is None);
                }
                return None;
            },
        }
        i += 1;
    }
    proof {
        assert(parse_samples(all).unwrap() =~= samples_of(rows@));
    }
    Some(rows)
}

fn read_locations(bodies: &Vec<&[u8]>) -> (found: Option<Vec<ReadLocation>>)
    ensures
        match found {
            Some(rows) => parse_locations(bodies_view(bodies@)) == Some(locations_of(rows@)),
            None => parse_locations(bodies_view(bodies@)) is None,
        },
{
    let ghost all = bodies_view(bodies@);
    let mut rows: Vec<ReadLocation> = Vec::new();
    let mut i: usize = 0;
    while i < bodies.len()
        invariant
            i <= bodies.len(),
            all == bodies_view(bodies@),
            rows.len() == i,
            forall|j: int|
                0 <= j < i ==> (#[trigger] parse_location(j, all[j])) == Some(
                    location_of(rows@[j]),
                ),
        decreases bodies.len() - i,
    {
        match read_location(i, bodies[i]) {
            Some(row) => rows.push(row),
            None => {
                proof {
                    assert(parse_location(i as int, all[i as int]) is None);
                }
                return None;
            },
        }
        i += 1;
    }
    proof {
        assert(parse_locations(all).unwrap() =~= locations_of(rows@));
    }
    Some(rows)
}

fn read_functions(bodies: &Vec<&[u8]>) -> (found: Option<Vec<ReadNames>>)
    ensures
        match found {
            Some(rows) => parse_functions(bodies_view(bodies@)) == Some(all_names_of(rows@)),
            None => parse_functions(bodies_view(bodies@)) is None,
        },
{
    let ghost all = bodies_view(bodies@);
    let mut rows: Vec<ReadNames> = Vec::new();
    let mut i: usize = 0;
    while i < bodies.len()
        invariant
            i <= bodies.len(),
            all == bodies_view(bodies@),
            rows.len() == i,
            forall|j: int|
                0 <= j < i ==> (#[trigger] parse_function(j, all[j])) == Some(names_of(rows@[j])),
        decreases bodies.len() - i,
    {
        match read_function(i, bodies[i]) {
            Some(row) => rows.push(row),
            None => {
                proof {
                    assert(parse_function(i as int, all[i as int]) is None);
                }
                return None;
            },
        }
        i += 1;
    }
    proof {
        assert(parse_functions(all).unwrap() =~= all_names_of(rows@));
    }
    Some(rows)
}

fn read_texts(bodies: &Vec<&[u8]>) -> (found: Option<Vec<String>>)
    ensures
        match found {
            Some(texts) => parse_texts(bodies_view(bodies@)) == Some(texts_view(texts@)),
            None => parse_texts(bodies_view(bodies@)) is None,
        },
{
    let ghost all = bodies_view(bodies@);
    let mut texts: Vec<String> = Vec::new();
    let mut i: usize = 0;
    while i < bodies.len()
        invariant
            i <= bodies.len(),
            all == bodies_view(bodies@),
            texts.len() == i,
            forall|j: int| 0 <= j < i ==> parse_text(#[trigger] all[j]) == Some(texts@[j]@),
        decreases bodies.len() - i,
    {
        match read_text(bodies[i]) {
            Some(text) => texts.push(text),
            None => {
                proof {
                    assert(parse_text(all[i as int]) is None);
                }
                return None;
            },
        }
        i += 1;
    }
    proof {
        assert(parse_texts(all).unwrap() =~= texts_view(texts@));
    }
    Some(texts)
}

/// The bodies of the blocks of a profile as read, table by table.
struct ReadSections<'a> {
    value_type: &'a [u8],
    samples: Vec<&'a [u8]>,
    locations: Vec<&'a [u8]>,
    functions: Vec<&'a [u8]>,
    strings: Vec<&'a [u8]>,
}

spec fn sections_of(read: ReadSections) -> Sections {
    Sections {
        value_type: read.value_type@,
        samples: bodies_view(read.samples@),
        locations: bodies_view(read.locations@),
        functions: bodies_view(read.functions@),
        strings: bodies_view(read.strings@),
    }
}

fn read_sections<'a>(bytes: &'a [u8]) -> (found: Option<ReadSections<'a>>)
    ensures
        match found {
            Some(read) => parse_sections(bytes@) == Some(sections_of(read)),
            None => parse_sections(bytes@) is None,
        },
{
    let (value_type, n0) = match read_block(bytes, TAG_VALUE_TYPE) {
        Some(found) => found,
        None => {
            return None;
        },
    };
    let rest = slice_subrange(bytes, n0, bytes.len());
    proof {
        assert(rest@ =~= bytes@.skip(n0 as int));
    }
    let (samples, n1) = match read_blocks(rest, TAG_SAMPLE) {
        Some(found) => found,
        None => {
            return None;
        },
    };
    let rest = slice_subrange(bytes, n0 + n1, bytes.len());
    proof {
        assert(rest@ =~= bytes@.skip(n0 + n1));
    }
    let (locations, n2) = match read_blocks(rest, TAG_LOCATION) {
        Some(found) => found,
        None => {
            return None;
        },
    };
    let rest = slice_subrange(bytes, n0 + n1 + n2, bytes.len());
    proof {
        assert(rest@ =~= bytes@.skip(n0 + n1 + n2));
    }
    let (functions, n3) = match read_blocks(rest, TAG_FUNCTION) {
        Some(found) => found,
        None => {
            return None;
        },
    };
    let rest = slice_subrange(bytes, n0 + n1 + n2 + n3, bytes.len());
    proof {
        assert(rest@ =~= bytes@.skip(n0 + n1 + n2 + n3));
    }
    let (strings, n4) = match read_blocks(rest, TAG_STRING) {
        Some(found) => found,
        None => {
            return None;
        },
    };
    if n0 + n1 + n2 + n3 + n4 != bytes.len() {
        return None;
    }
    Some(ReadSections { value_type, samples, locations, functions, strings })
}

fn build_symbols(names: &Vec<ReadNames>, strings: &Vec<String>) -> (found: Option<
    Vec<SymbolEntry>,
>)
    ensures
        match found {
            Some(symbols) => symbols_view(symbols@) == symbols_of(
                all_names_of(names@),
                texts_view(strings@),
            ) && forall|i: int|
                0 <= i < names.len() ==> names_in_range(
                    #[trigger] all_names_of(names@)[i],
                    strings.len() as int,
                ),
            None => exists|i: int|
                0 <= i < names.len() && !names_in_range(
                    #[trigger] all_names_of(names@)[i],
                    strings.len() as int,
                ),
        },
{
    let ghost rows = all_names_of(names@);
    let ghost texts = texts_view(strings@);
    let mut symbols: Vec<SymbolEntry> = Vec::new();
    let mut i: usize = 0;
    while i < names.len()
        invariant
            i <= names.len(),
            rows == all_names_of(names@),
            texts == texts_view(strings@),
            symbols.len() == i,
            forall|j: int| 0 <= j < i ==> names_in_range(#[trigger] rows[j], strings.len() as int),
            forall|j: int|
                0 <= j < i ==> (#[trigger] symbols@[j])@ == (SymbolModel {
                    name: texts[rows[j].name],
                    module: texts[rows[j].module],
                }),
        decreases names.len() - i,
    {
        let name = names[i].name;
        let module = names[i].module;
        if name >= strings.len() as u64 || module >= strings.len() as u64 {
            proof {
                assert(!names_in_range(rows[i as int], strings.len() as int));
            }
            return None;
        }
        symbols.push(
            SymbolEntry {
                name: strings[name as usize].clone(),
                module: strings[module as usize].clone(),
            },
        );
        i += 1;
    }
    proof {
        assert(symbols_view(symbols@) =~= symbols_of(rows, texts));
    }
    Some(symbols)
}

fn build_locations(rows: &Vec<ReadLocation>, symbols: usize) -> (found: Option<Vec<Location>>)
    ensures
        match found {
            Some(locations) => locations_view(locations@) == locations_of(rows@) && forall|i: int|
                0 <= i < rows.len() ==> symbol_in_range(
                    #[trigger] locations_of(rows@)[i],
                    symbols as int,
                ),
            None => exists|i: int|
                0 <= i < rows.len() && !symbol_in_range(
                    #[trigger] locations_of(rows@)[i],
                    symbols as int,
                ),
        },
{
    let ghost all = locations_of(rows@);
    let mut locations: Vec<Location> = Vec::new();
    let mut i: usize = 0;
    while i < rows.len()
        invariant
            i <= rows.len(),
            all == locations_of(rows@),
            locations.len() == i,
            forall|j: int| 0 <= j < i ==> symbol_in_range(#[trigger] all[j], symbols as int),
            forall|j: int| 0 <= j < i ==> (#[trigger] locations@[j])@ == all[j],
        decreases rows.len() - i,
    {
        let function = rows[i].function;
        let symbol = if function == 0 {
            None
        } else {
            if function - 1 >= symbols as u64 {
                proof {
                    assert(!symbol_in_range(all[i as int], symbols as int));
                }
                return None;
            }
            Some((function - 1) as usize)
        };
        locations.push(Location { address: rows[i].address, symbol });
        i += 1;
    }
    proof {
        assert(locations_view(locations@) =~= all);
    }
    Some(locations)
}

fn build_stack(numbers: &Vec<u64>, locations: usize) -> (found: Option<Vec<usize>>)
    requires
        all_rows(numbers@),
    ensures
        match found {
            Some(stack) => indices_view(stack@) == rows_of(numbers@) && stack_in_range(
                rows_of(numbers@),
                locations as int,
            ),
            None => !stack_in_range(rows_of(numbers@), locations as int),
        },
{
    let mut stack: Vec<usize> = Vec::new();
    let mut k: usize = 0;
    while k < numbers.len()
        invariant
            k <= numbers.len(),
            all_rows(numbers@),
            stack.len() == k,
            forall|j: int| 0 <= j < k ==> 0 <= #[trigger] rows_of(numbers@)[j] < locations,
            forall|j: int| 0 <= j < k ==> #[trigger] stack@[j] == numbers@[j] - 1,
        decreases numbers.len() - k,
    {
        let number = numbers[k];
        if number - 1 >= locations as u64 {
            proof {
                assert(!(rows_of(numbers@)[k as int] < locations));
            }
            return None;
        }
        stack.push((number - 1) as usize);
        k += 1;
    }
    proof {
        assert(indices_view(stack@) =~= rows_of(numbers@));
    }
    Some(stack)
}

fn build_samples(rows: &Vec<ReadSample>, locations: usize) -> (found: Option<Vec<SampleEntry>>)
    requires
        forall|i: int| 0 <= i < rows.len() ==> all_rows((#[trigger] rows@[i]).numbers@),
    ensures
        match found {
            Some(samples) => entries_view(samples@) == samples_of(rows@) && forall|i: int|
                0 <= i < rows.len() ==> stack_in_range(
                    (#[trigger] samples_of(rows@)[i]).locations,
                    locations as int,
                ),
            None => exists|i: int|
                0 <= i < rows.len() && !stack_in_range(
                    (#[trigger] samples_of(rows@)[i]).locations,
                    locations as int,
                ),
        },
{
    let ghost all = samples_of(rows@);
    let mut samples: Vec<SampleEntry> = Vec::new();
    let mut i: usize = 0;
    while i < rows.len()
        invariant
            i <= rows.len(),
            all == samples_of(rows@),
            samples.len() == i,
            forall|j: int| 0 <= j < rows.len() ==> all_rows((#[trigger] rows@[j]).numbers@),
            forall|j: int|
                0 <= j < i ==> stack_in_range((#[trigger] all[j]).locations, locations as int),
            forall|j: int| 0 <= j < i ==> (#[trigger] samples@[j])@ == all[j],
        decreases rows.len() - i,
    {
        match build_stack(&rows[i].numbers, locations) {
            Some(stack) => {
                samples.push(SampleEntry { locations: stack, count: rows[i].count });
            },
            None => {
                proof {
                    assert(!stack_in_range(all[i as int].locations, locations as int));
                }
                return None;
            },
        }
        i += 1;
    }
    proof {
        assert(entries_view(samples@) =~= all);
    }
    Some(samples)
}

/// Decodes the bytes of a report.
///
/// This is the inverse of [`crate::encode::encode`]: the bytes that
/// encoding gives decode to the report they were made of. Returns `None`
/// for bytes that are not the bytes of a well-formed report.
pub fn decode(bytes: &Vec<u8>) -> (result: Option<Report>)
    ensures
        match result {
            Some(report) => decode_spec(bytes@) == Some(report@) && well_formed(report@),
            None => decode_spec(bytes@) is None,
        },
{
    let sections = match read_sections(bytes.as_slice()) {
        Some(sections) => sections,
        None => {
            return None;
        },
    };
    let value_type = match read_value_type(sections.value_type) {
        Some(value_type) => value_type,
        None => {
            return None;
        },
    };
    let sample_rows = match read_samples(&sections.samples) {
        Some(rows) => rows,
        None => {
            return None;
        },
    };
    let location_rows = match read_locations(&sections.locations) {
        Some(rows) => rows,
        None => {
            return None;
        },
    };
    let name_rows = match read_functions(&sections.functions) {
        Some(rows) => rows,
        None => {
            return None;
        },
    };
    let strings = match read_texts(&sections.strings) {
        Some(texts) => texts,
        None => {
            return None;
        },
    };
    let ghost texts = texts_view(strings@);
    let ghost model = ReportModel {
        label: texts[value_type.0 as int],
        unit: texts[value_type.1 as int],
        symbols: symbols_of(all_names_of(name_rows@), texts),
        locations: locations_of(location_rows@),
        samples: samples_of(sample_rows@),
    };
    proof {
        assert(decode_spec(bytes@) == assemble(
            value_type,
            samples_of(sample_rows@),
            locations_of(location_rows@),
            all_names_of(name_rows@),
            texts,
        ));
    }
    if value_type.0 >= strings.len() as u64 || value_type.1 >= strings.len() as u64 {
        return None;
    }
    let symbol_table = match build_symbols(&name_rows, &strings) {
        Some(symbols) => symbols,
        None => {
            return None;
        },
    };
    let locations = match build_locations(&location_rows, symbol_table.len()) {
        Some(locations) => locations,
        None => {
            proof {
                assert(model.symbols.len() == symbol_table.len());
                let i = choose|i: int|
                    0 <= i < location_rows.len() && !symbol_in_range(
                        #[trigger] locations_of(location_rows@)[i],
                        symbol_table.len() as int,
                    );
                assert(!symbol_in_range(model.locations[i], model.symbols.len() as int));
                assert(!well_formed(model));
            }
            return None;
        },
    };
    let samples = match build_samples(&sample_rows, locations.len()) {
        Some(samples) => samples,
        None => {
            proof {
                assert(model.locations.len() == locations.len());
                let i = choose|i: int|
                    0 <= i < sample_rows.len() && !stack_in_range(
                        (#[trigger] samples_of(sample_rows@)[i]).locations,
                        locations.len() as int,
                    );
                assert(!stack_in_range(model.samples[i].locations, model.locations.len() as int));
                assert(!well_formed(model));
            }
            return None;
        },
    };
    let report = Report {
        value_type: ValueType {
            label: strings[value_type.0 as usize].clone(),
            unit: strings[value_type.1 as usize].clone(),
        },
        symbol_table,
        locations,
        samples,
    };
    proof {
        assert(report@ == model);
        assert(model.symbols.len() == report.symbol_table.len());
        assert(model.locations.len() == report.locations.len());
        assert(well_formed(model));
    }
    Some(report)
}

} // verus!
