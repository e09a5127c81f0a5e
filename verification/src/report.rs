//! The aggregated report: a symbol table, a table of unique locations and
//! the distinct stacks with their sample counts.

use vstd::prelude::*;

verus! {

/// What the sample counts of a report measure.
#[derive(Debug, PartialEq, Eq)]
pub struct ValueType {
    pub label: String,
    pub unit: String,
}

/// One row of the symbol table: a function and the module that holds it.
/// An empty module name stands for a module that was not resolved.
#[derive(Debug, PartialEq, Eq)]
pub struct SymbolEntry {
    pub name: String,
    pub module: String,
}

/// One row of the location table: a frame identity and the row of the
/// symbol table that names it, or `None` where the symbol is unknown.
#[derive(Debug, PartialEq, Eq, Clone, Copy)]
pub struct Location {
    pub address: u64,
    pub symbol: Option<usize>,
}

/// One distinct stack, as rows of the location table from leaf to root,
/// and the number of ticks that captured it.
#[derive(Debug, PartialEq, Eq)]
pub struct SampleEntry {
    pub locations: Vec<usize>,
    pub count: u64,
}

/// The aggregated outcome of one profiling session.
#[derive(Debug, PartialEq, Eq)]
pub struct Report {
    pub value_type: ValueType,
    pub symbol_table: Vec<SymbolEntry>,
    pub locations: Vec<Location>,
    pub samples: Vec<SampleEntry>,
}

/// A symbol table row as mathematical values.
pub struct SymbolModel {
    pub name: Seq<char>,
    pub module: Seq<char>,
}

/// A location table row as mathematical values.
pub struct LocationModel {
    pub address: u64,
    pub symbol: Option<int>,
}

/// A sample row as mathematical values.
pub struct SampleModel {
    pub locations: Seq<int>,
    pub count: nat,
}

/// A report as mathematical values.
pub struct ReportModel {
    pub label: Seq<char>,
    pub unit: Seq<char>,
    pub symbols: Seq<SymbolModel>,
    pub locations: Seq<LocationModel>,
    pub samples: Seq<SampleModel>,
}

impl View for SymbolEntry {
    type V = SymbolModel;

    open spec fn view(&self) -> SymbolModel {
        SymbolModel { name: self.name@, module: self.module@ }
    }
}

/// A table position as a mathematical integer.
pub open spec fn index_view(index: Option<usize>) -> Option<int> {
    match index {
        Some(i) => Some(i as int),
        None => None,
    }
}

impl View for Location {
    type V = LocationModel;

    open spec fn view(&self) -> LocationModel {
        LocationModel { address: self.address, symbol: index_view(self.symbol) }
    }
}

/// Table positions as mathematical integers.
pub open spec fn indices_view(indices: Seq<usize>) -> Seq<int> {
    indices.map_values(|i: usize| i as int)
}

impl View for SampleEntry {
    type V = SampleModel;

    open spec fn view(&self) -> SampleModel {
        SampleModel { locations: indices_view(self.locations@), count: self.count as nat }
    }
}

/// A symbol table as mathematical values.
pub open spec fn symbols_view(symbols: Seq<SymbolEntry>) -> Seq<SymbolModel> {
    symbols.map_values(|symbol: SymbolEntry| symbol@)
}

/// A location table as mathematical values.
pub open spec fn locations_view(locations: Seq<Location>) -> Seq<LocationModel> {
    locations.map_values(|location: Location| location@)
}

/// A sample table as mathematical values.
pub open spec fn entries_view(samples: Seq<SampleEntry>) -> Seq<SampleModel> {
    samples.map_values(|sample: SampleEntry| sample@)
}

impl View for Report {
    type V = ReportModel;

    open spec fn view(&self) -> ReportModel {
        ReportModel {
            label: self.value_type.label@,
            unit: self.value_type.unit@,
            symbols: symbols_view(self.symbol_table@),
            locations: locations_view(self.locations@),
            samples: entries_view(self.samples@),
        }
    }
}

/// The report of a session that captured nothing: sample counts, no rows.
pub open spec fn empty_report() -> ReportModel {
    ReportModel {
        label: "samples"@,
        unit: "count"@,
        symbols: Seq::empty(),
        locations: Seq::empty(),
        samples: Seq::empty(),
    }
}

/// Whether every row of `stack` is a row of a table of `rows` rows.
pub open spec fn stack_in_range(stack: Seq<int>, rows: int) -> bool {
    forall|k: int| 0 <= k < stack.len() ==> 0 <= #[trigger] stack[k] < rows
}

/// Whether a location's symbol reference is unknown or a row of a table of
/// `rows` rows.
pub open spec fn symbol_in_range(location: LocationModel, rows: int) -> bool {
    match location.symbol {
        Some(row) => 0 <= row < rows,
        None => true,
    }
}

/// The invariant of a report: every location row that a sample refers to
/// exists, and every symbol row that a location refers to exists.
pub open spec fn well_formed(report: ReportModel) -> bool {
    &&& forall|i: int|
        0 <= i < report.locations.len() ==> symbol_in_range(
            #[trigger] report.locations[i],
            report.symbols.len() as int,
        )
    &&& forall|i: int|
        0 <= i < report.samples.len() ==> stack_in_range(
            (#[trigger] report.samples[i]).locations,
            report.locations.len() as int,
        )
}

/// The sum of the counts of a sample table.
pub open spec fn total_count(samples: Seq<SampleModel>) -> nat
    decreases samples.len(),
{
    if samples.len() == 0 {
        0
    } else {
        total_count(samples.drop_last()) + samples.last().count
    }
}

/// Whether no two rows of the report say the same thing: addresses, symbols
/// and stacks each occur once, and every stack was seen at least once and
/// holds at least one frame.
pub open spec fn deduplicated(report: ReportModel) -> bool {
    &&& forall|i: int, j: int|
        0 <= i < j < report.locations.len() ==> (#[trigger] report.locations[i]).address != (
        #[trigger] report.locations[j]).address
    &&& forall|i: int, j: int|
        0 <= i < j < report.symbols.len() ==> #[trigger] report.symbols[i]
            != #[trigger] report.symbols[j]
    &&& forall|i: int, j: int|
        0 <= i < j < report.samples.len() ==> (#[trigger] report.samples[i]).locations != (
        #[trigger] report.samples[j]).locations
    &&& forall|i: int|
        0 <= i < report.samples.len() ==> (#[trigger] report.samples[i]).count > 0
            && report.samples[i].locations.len() > 0
}

fn stack_exists(stack: &Vec<usize>, rows: usize) -> (ok: bool)
    ensures
        ok == stack_in_range(indices_view(stack@), rows as int),
{
    let mut k: usize = 0;
    while k < stack.len()
        invariant
            k <= stack.len(),
            forall|j: int| 0 <= j < k ==> 0 <= #[trigger] indices_view(stack@)[j] < rows,
        decreases stack.len() - k,
    {
        if stack[k] >= rows {
            proof {
                assert(!(indices_view(stack@)[k as int] < rows));
            }
            return false;
        }
        k += 1;
    }
    true
}

impl Report {
    /// A report with no rows, whose counts are numbers of samples.
    pub fn new() -> (report: Report)
        ensures
            report@ == empty_report(),
            well_formed(report@),
            deduplicated(report@),
    {
        let report = Report {
            value_type: ValueType { label: "samples".to_owned(), unit: "count".to_owned() },
            symbol_table: Vec::new(),
            locations: Vec::new(),
            samples: Vec::new(),
        };
        proof {
            assert(report@.symbols =~= Seq::empty());
            assert(report@.locations =~= Seq::empty());
            assert(report@.samples =~= Seq::empty());
        }
        report
    }

    /// Whether every row that the report refers to exists.
    pub fn is_well_formed(&self) -> (ok: bool)
        ensures
            ok == well_formed(self@),
    {
        let mut i: usize = 0;
        while i < self.locations.len()
            invariant
                i <= self.locations.len(),
                forall|j: int|
                    0 <= j < i ==> symbol_in_range(
                        #[trigger] self@.locations[j],
                        self@.symbols.len() as int,
                    ),
            decreases self.locations.len() - i,
        {
            match self.locations[i].symbol {
                Some(row) => {
                    if row >= self.symbol_table.len() {
                        proof {
                            assert(!symbol_in_range(
                                self@.locations[i as int],
                                self@.symbols.len() as int,
                            ));
                        }
                        return false;
                    }
                },
                None => {},
            }
            i += 1;
        }
        let mut i: usize = 0;
        while i < self.samples.len()
            invariant
                i <= self.samples.len(),
                forall|j: int|
                    0 <= j < self@.locations.len() ==> symbol_in_range(
                        #[trigger] self@.locations[j],
                        self@.symbols.len() as int,
                    ),
                forall|j: int|
                    0 <= j < i ==> stack_in_range(
                        (#[trigger] self@.samples[j]).locations,
                        self@.locations.len() as int,
                    ),
            decreases self.samples.len() - i,
        {
            if !stack_exists(&self.samples[i].locations, self.locations.len()) {
                proof {
                    assert(!stack_in_range(
                        self@.samples[i as int].locations,
                        self@.locations.len() as int,
                    ));
                }
                return false;
            }
            i += 1;
        }
        true
    }

    /// The number of ticks that the report accounts for. The sum of the
    /// counts saturates at the largest 64-bit number.
    pub fn total_samples(&self) -> (total: u64)
        ensures
            total == if total_count(self@.samples) <= u64::MAX {
                total_count(self@.samples)
            } else {
                u64::MAX as nat
            },
    {
        let mut total: u64 = 0;
        let mut i: usize = 0;
        while i < self.samples.len()
            invariant
                i <= self.samples.len(),
                total == if total_count(self@.samples.take(i as int)) <= u64::MAX {
                    total_count(self@.samples.take(i as int))
                } else {
                    u64::MAX as nat
                },
            decreases self.samples.len() - i,
        {
            proof {
                assert(self@.samples.take(i + 1).drop_last() =~= self@.samples.take(i as int));
            }
            total = total.saturating_add(self.samples[i].count);
            i += 1;
        }
        proof {
            assert(self@.samples.take(i as int) =~= self@.samples);
        }
        total
    }
}

} // verus!
