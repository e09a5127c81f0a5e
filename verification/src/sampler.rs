//! The sampler: starts the process-wide stack sampler, and on stop turns
//! what it captured into filtered stacks, one for each tick.

use crate::error::ProfileError;
use crate::frame::{
    frames_view, kept_frames, lemma_filter_idempotent, name_view, samples_view, text_bytes,
    FrameFilter, FrameModel, RawSample, StackFrame,
};
use crate::table::{first_match, lemma_first_match};
use vstd::prelude::*;

verus! {

/// The handle of `pprof`'s running profiler. Dropping it stops the profiler.
#[verifier::external_type_specification]
#[verifier::external_body]
pub struct ExProfilerGuard<'a>(pprof::ProfilerGuard<'a>);

/// One captured backtrace of `pprof`.
#[verifier::external_type_specification]
#[verifier::external_body]
pub struct ExFrames(pprof::Frames);

/// `pprof`'s error.
#[verifier::external_type_specification]
#[verifier::external_body]
pub struct ExProfilerError(pprof::Error);

/// The variants of `pprof`'s error.
#[derive(Debug, Clone, Copy, PartialEq, Eq, Structural)]
pub enum ProfilerFault {
    /// The operating system refused a signal call.
    Signal,
    /// Reading or writing the sample store failed.
    Store,
    /// The profiler could not be created.
    Creating,
    /// A profiler is running already.
    Running,
    /// No profiler is running.
    NotRunning,
}

/// Calls `pprof::ProfilerGuardBuilder`: `default`, `frequency`, `blocklist`,
/// then `build`, which starts the process-wide profiler.
///
/// Trusted: nothing is claimed about the outcome, which depends on the
/// process. A frequency of zero is left out because the profiler's timer
/// divides by it; the library asks for a positive one.
#[verifier::external_body]
fn start_profiler(frequency: i32, blocklist: &Vec<String>) -> (outcome: Result<
    pprof::ProfilerGuard<'static>,
    pprof::Error,
>)
    requires
        frequency > 0,
{
    pprof::ProfilerGuardBuilder::default().frequency(frequency).blocklist(
        blocklist.as_slice(),
    ).build()
}

/// Calls `pprof::ProfilerGuard::report` and `pprof::ReportBuilder::build`,
/// which resolve and collect what the profiler has captured so far, and
/// hands out the field `data` of what they return: each backtrace with the
/// number of ticks that captured it, in no particular order.
///
/// Trusted: nothing is claimed about the outcome.
#[verifier::external_body]
fn collect_entries(guard: &pprof::ProfilerGuard<'static>) -> (outcome: Result<
    Vec<(pprof::Frames, isize)>,
    pprof::Error,
>) {
    Ok(guard.report().build()?.data.into_iter().collect())
}

/// Tells the variants of `pprof::Error` apart.
///
/// Trusted: nothing is claimed about the outcome.
#[verifier::external_body]
fn profiler_fault(error: &pprof::Error) -> (fault: ProfilerFault) {
    match error {
        pprof::Error::NixError(_) => ProfilerFault::Signal,
        pprof::Error::IoError(_) => ProfilerFault::Store,
        pprof::Error::CreatingError => ProfilerFault::Creating,
        pprof::Error::Running => ProfilerFault::Running,
        pprof::Error::NotRunning => ProfilerFault::NotRunning,
    }
}

/// What the capture resolved of one symbol, as plain values: the address
/// of the code, the name of the function and the file that holds it, each
/// as far as it was resolved.
#[derive(Debug, PartialEq, Eq)]
pub struct ResolvedSymbol {
    pub address: Option<u64>,
    pub name: Option<String>,
    pub module: Option<String>,
}

/// A resolved symbol as mathematical values.
pub struct ResolvedModel {
    pub address: Option<u64>,
    pub name: Option<Seq<char>>,
    pub module: Option<Seq<char>>,
}

impl View for ResolvedSymbol {
    type V = ResolvedModel;

    open spec fn view(&self) -> ResolvedModel {
        ResolvedModel {
            address: self.address,
            name: name_view(self.name),
            module: name_view(self.module),
        }
    }
}

/// The symbols of one frame as mathematical values.
pub open spec fn resolved_view(symbols: Seq<ResolvedSymbol>) -> Seq<ResolvedModel> {
    symbols.map_values(|symbol: ResolvedSymbol| symbol@)
}

/// The symbols of the frames of a backtrace as mathematical values.
pub open spec fn backtrace_view(frames: Seq<Vec<ResolvedSymbol>>) -> Seq<Seq<ResolvedModel>> {
    frames.map_values(|symbols: Vec<ResolvedSymbol>| resolved_view(symbols@))
}

/// What a `pprof::Frames` holds: its frames from leaf to root, and for each
/// frame the symbols that it resolved to, the innermost inlined call
/// first. A symbol stands here with the field `addr` as a number, with the
/// demangled name that `pprof::Symbol::name` gives where the field `name`
/// is set, and with the field `filename` as text.
pub uninterp spec fn frames_held(frames: pprof::Frames) -> Seq<Seq<ResolvedModel>>;

/// Hands out the field `frames` of a `pprof::Frames`, each `pprof::Symbol`
/// in it as plain values: the field `addr`, what `pprof::Symbol::name`
/// returns where the field `name` is set, and the field `filename` as
/// text.
///
/// Trusted: what comes back is what the backtrace holds, frame by frame
/// and symbol by symbol, which the name [`frames_held`] stands for.
#[verifier::external_body]
fn frames_symbols(frames: &pprof::Frames) -> (symbols: Vec<Vec<ResolvedSymbol>>)
    ensures
        backtrace_view(symbols@) == frames_held(*frames),
{
    frames.frames.iter().map(|symbols| symbols.iter().map(|symbol| ResolvedSymbol {
        address: symbol.addr.map(|address| address as usize as u64),
        name: symbol.name.as_ref().map(|_| symbol.name()),
        module: symbol.filename.as_ref().map(|path| path.to_string_lossy().into_owned()),
    }).collect()).collect()
}

/// A stack as the capture handed it out, with the number of ticks that
/// captured it.
#[derive(Debug, PartialEq, Eq)]
pub struct CapturedStack {
    pub sample: RawSample,
    pub ticks: isize,
}

/// A captured stack as mathematical values.
pub struct CapturedModel {
    pub frames: Seq<FrameModel>,
    pub ticks: int,
}

impl View for CapturedStack {
    type V = CapturedModel;

    open spec fn view(&self) -> CapturedModel {
        CapturedModel { frames: self.sample@, ticks: self.ticks as int }
    }
}

/// Captured stacks as mathematical values.
pub open spec fn captured_view(stacks: Seq<CapturedStack>) -> Seq<CapturedModel> {
    stacks.map_values(|stack: CapturedStack| stack@)
}

/// The same stack, once for each of `ticks` ticks.
pub open spec fn repeated(frames: Seq<FrameModel>, ticks: int) -> Seq<Seq<FrameModel>> {
    Seq::new(
        if ticks > 0 {
            ticks as nat
        } else {
            0
        },
        |i: int| frames,
    )
}

/// The ticks that one captured stack stands for: its filtered stack once
/// for each tick, or nothing where the filter leaves no frame.
pub open spec fn ticks_of(patterns: Seq<Seq<char>>, stack: CapturedModel) -> Seq<Seq<FrameModel>> {
    let kept = kept_frames(patterns, stack.frames);
    if kept.len() == 0 {
        Seq::empty()
    } else {
        repeated(kept, stack.ticks)
    }
}

/// The ticks that a run of captured stacks stands for, in their order.
pub open spec fn captured_ticks(patterns: Seq<Seq<char>>, stacks: Seq<CapturedModel>) -> Seq<
    Seq<FrameModel>,
>
    decreases stacks.len(),
{
    if stacks.len() == 0 {
        Seq::empty()
    } else {
        captured_ticks(patterns, stacks.drop_last()) + ticks_of(patterns, stacks.last())
    }
}

/// Whether every stack holds a frame and no frame that the filter drops.
pub open spec fn all_filtered(patterns: Seq<Seq<char>>, samples: Seq<Seq<FrameModel>>) -> bool {
    forall|i: int|
        0 <= i < samples.len() ==> (#[trigger] samples[i]).len() > 0 && kept_frames(
            patterns,
            samples[i],
        ) == samples[i]
}

/// The ticks of captured stacks are filtered stacks that hold a frame.
pub proof fn lemma_captured_ticks_filtered(patterns: Seq<Seq<char>>, stacks: Seq<CapturedModel>)
    ensures
        all_filtered(patterns, captured_ticks(patterns, stacks)),
    decreases stacks.len(),
{
    if stacks.len() > 0 {
        lemma_captured_ticks_filtered(patterns, stacks.drop_last());
        lemma_filter_idempotent(patterns, stacks.last().frames);
    }
}

/// The addresses of the frames of a stack, leaf first.
pub open spec fn addresses(frames: Seq<FrameModel>) -> Seq<u64> {
    frames.map_values(|frame: FrameModel| frame.address)
}

/// Whether `left` comes before `right` in the order of stacks: at the
/// first place where the two differ, `left` holds the lower address or has
/// ended.
pub open spec fn comes_before(left: Seq<u64>, right: Seq<u64>) -> bool
    decreases left.len(),
{
    if right.len() == 0 {
        false
    } else if left.len() == 0 {
        true
    } else if left[0] != right[0] {
        left[0] < right[0]
    } else {
        comes_before(left.skip(1), right.skip(1))
    }
}

/// Captured stacks that `stack` comes before.
pub open spec fn stands_after(stack: CapturedModel) -> spec_fn(CapturedModel) -> bool {
    |other: CapturedModel| comes_before(addresses(stack.frames), addresses(other.frames))
}

/// Where `stack` goes into stacks that are in order: before the first one
/// that it comes before, and so behind those with the same addresses.
pub open spec fn place_of(sorted: Seq<CapturedModel>, stack: CapturedModel) -> int {
    match first_match(sorted, stands_after(stack), 0) {
        Some(place) => place,
        None => sorted.len() as int,
    }
}

/// Captured stacks in order of their addresses. Stacks with the same
/// addresses keep the order in which they were handed out.
pub open spec fn ordered(stacks: Seq<CapturedModel>) -> Seq<CapturedModel>
    decreases stacks.len(),
{
    if stacks.len() == 0 {
        Seq::empty()
    } else {
        let before = ordered(stacks.drop_last());
        before.insert(place_of(before, stacks.last()), stacks.last())
    }
}

/// Whether no stack comes before the one in front of it.
pub open spec fn in_order(stacks: Seq<CapturedModel>) -> bool {
    forall|i: int, j: int|
        0 <= i && j == i + 1 && j < stacks.len() ==> !comes_before(
            addresses((#[trigger] stacks[j]).frames),
            addresses((#[trigger] stacks[i]).frames),
        )
}

/// Of two stacks at most one comes before the other.
pub proof fn lemma_comes_before_one_way(left: Seq<u64>, right: Seq<u64>)
    requires
        comes_before(left, right),
    ensures
        !comes_before(right, left),
    decreases left.len(),
{
    if left.len() > 0 && right.len() > 0 && left[0] == right[0] {
        lemma_comes_before_one_way(left.skip(1), right.skip(1));
    }
}

/// Ordering keeps every captured stack, each as often as it was handed
/// out, and puts them in order of their addresses.
pub proof fn lemma_ordered(stacks: Seq<CapturedModel>)
    ensures
        ordered(stacks).len() == stacks.len(),
        ordered(stacks).to_multiset() == stacks.to_multiset(),
        in_order(ordered(stacks)),
    decreases stacks.len(),
{
    broadcast use vstd::seq_lib::group_to_multiset_ensures;

    if stacks.len() == 0 {
        assert(ordered(stacks).to_multiset() =~= stacks.to_multiset());
    } else {
        let before = ordered(stacks.drop_last());
        let last = stacks.last();
        let place = place_of(before, last);
        let after = ordered(stacks);
        lemma_ordered(stacks.drop_last());
        lemma_first_match(before, stands_after(last), 0);
        assert(after.remove(place) =~= before);
        assert(after[place] == last);
        assert(after.to_multiset().remove(last) =~= before.to_multiset());
        assert(after.to_multiset().count(last) > 0) by {
            assert(after.contains(last));
        }
        assert(stacks.drop_last().push(last) =~= stacks);
        assert(after.to_multiset() =~= stacks.to_multiset());
        assert forall|i: int, j: int| 0 <= i && j == i + 1 && j < after.len() implies !comes_before(
            addresses((#[trigger] after[j]).frames),
            addresses((#[trigger] after[i]).frames),
        ) by {
            if j < place {
                assert(after[i] == before[i]);
                assert(after[j] == before[j]);
            } else if j == place {
                assert(after[i] == before[i]);
                assert(!stands_after(last)(before[i]));
            } else if i == place {
                assert(after[j] == before[place]);
                assert(stands_after(last)(before[place]));
                lemma_comes_before_one_way(
                    addresses(last.frames),
                    addresses(before[place].frames),
                );
            } else {
                assert(after[i] == before[i - 1]);
                assert(after[j] == before[j - 1]);
            }
        }
    }
}

/// Of three stacks of which none comes before the one in front of it, the
/// last does not come before the first.
proof fn lemma_not_before_chain(first: Seq<u64>, middle: Seq<u64>, last: Seq<u64>)
    requires
        !comes_before(middle, first),
        !comes_before(last, middle),
    ensures
        !comes_before(last, first),
    decreases first.len(),
{
    if first.len() > 0 && middle.len() > 0 && last.len() > 0 && first[0] == middle[0] && middle[0]
        == last[0] {
        lemma_not_before_chain(first.skip(1), middle.skip(1), last.skip(1));
    }
}

/// Two stacks of which neither comes before the other hold the same
/// addresses.
proof fn lemma_neither_before_is_same(left: Seq<u64>, right: Seq<u64>)
    requires
        !comes_before(left, right),
        !comes_before(right, left),
    ensures
        left == right,
    decreases left.len(),
{
    if left.len() > 0 && right.len() > 0 {
        lemma_neither_before_is_same(left.skip(1), right.skip(1));
        assert(left =~= seq![left[0]] + left.skip(1));
        assert(right =~= seq![right[0]] + right.skip(1));
    } else {
        assert(left =~= right);
    }
}

/// In stacks that are in order, none comes before the first.
proof fn lemma_first_is_least(stacks: Seq<CapturedModel>, k: int)
    requires
        in_order(stacks),
        0 <= k < stacks.len(),
    ensures
        !comes_before(addresses(stacks[k].frames), addresses(stacks[0].frames)),
    decreases k,
{
    if k == 0 {
        if comes_before(addresses(stacks[0].frames), addresses(stacks[0].frames)) {
            lemma_comes_before_one_way(
                addresses(stacks[0].frames),
                addresses(stacks[0].frames),
            );
        }
    } else {
        lemma_first_is_least(stacks, k - 1);
        assert(!comes_before(addresses(stacks[k].frames), addresses(stacks[k - 1].frames)));
        lemma_not_before_chain(
            addresses(stacks[0].frames),
            addresses(stacks[k - 1].frames),
            addresses(stacks[k].frames),
        );
    }
}

/// Whether stacks with the same addresses are the same stack with the same
/// ticks.
pub open spec fn told_apart_by_addresses(stacks: Seq<CapturedModel>) -> bool {
    forall|i: int, j: int|
        0 <= i < stacks.len() && 0 <= j < stacks.len() && addresses(
            (#[trigger] stacks[i]).frames,
        ) == addresses((#[trigger] stacks[j]).frames) ==> stacks[i] == stacks[j]
}

/// Stacks in order are in the only order there is: two runs that are in
/// order and hold the same stacks equally often are the same run.
proof fn lemma_in_order_is_one_order(one: Seq<CapturedModel>, other: Seq<CapturedModel>)
    requires
        in_order(one),
        in_order(other),
        one.to_multiset() == other.to_multiset(),
        told_apart_by_addresses(one),
    ensures
        one == other,
    decreases one.len(),
{
    broadcast use vstd::seq_lib::group_to_multiset_ensures;

    one.to_multiset_ensures();
    other.to_multiset_ensures();
    assert(one.len() == one.to_multiset().len());
    assert(other.len() == other.to_multiset().len());
    if one.len() == 0 {
        assert(one =~= other);
    } else {
        let x = one[0];
        let y = other[0];
        assert(other.contains(y));
        assert(one.to_multiset().count(y) > 0);
        assert(one.contains(y));
        let k = choose|k: int| 0 <= k < one.len() && one[k] == y;
        lemma_first_is_least(one, k);
        assert(one.contains(x));
        assert(other.to_multiset().count(x) > 0);
        assert(other.contains(x));
        let m = choose|m: int| 0 <= m < other.len() && other[m] == x;
        lemma_first_is_least(other, m);
        lemma_neither_before_is_same(addresses(x.frames), addresses(y.frames));
        assert(one[0] == one[k]);
        assert(x == y);
        let rest = one.drop_first();
        let others = other.drop_first();
        assert(rest =~= one.remove(0));
        assert(others =~= other.remove(0));
        assert(rest.to_multiset() =~= others.to_multiset());
        assert forall|i: int, j: int| 0 <= i && j == i + 1 && j < rest.len() implies !comes_before(
            addresses((#[trigger] rest[j]).frames),
            addresses((#[trigger] rest[i]).frames),
        ) by {
            assert(rest[i] == one[i + 1]);
            assert(rest[j] == one[j + 1]);
        }
        assert forall|i: int, j: int|
            0 <= i && j == i + 1 && j < others.len() implies !comes_before(
            addresses((#[trigger] others[j]).frames),
            addresses((#[trigger] others[i]).frames),
        ) by {
            assert(others[i] == other[i + 1]);
            assert(others[j] == other[j + 1]);
        }
        assert forall|i: int, j: int|
            0 <= i < rest.len() && 0 <= j < rest.len() && addresses((#[trigger] rest[i]).frames)
                == addresses((#[trigger] rest[j]).frames) implies rest[i] == rest[j] by {
            assert(rest[i] == one[i + 1]);
            assert(rest[j] == one[j + 1]);
        }
        lemma_in_order_is_one_order(rest, others);
        assert(one =~= seq![x] + rest);
        assert(other =~= seq![y] + others);
    }
}

/// The order of captured stacks does not depend on the order in which the
/// capture handed them out, as long as their addresses tell them apart:
/// two runs that hold the same stacks equally often are put in the same
/// order.
pub proof fn lemma_order_is_canonical(one: Seq<CapturedModel>, other: Seq<CapturedModel>)
    requires
        one.to_multiset() == other.to_multiset(),
        told_apart_by_addresses(one),
    ensures
        ordered(one) == ordered(other),
{
    broadcast use vstd::seq_lib::group_to_multiset_ensures;

    lemma_ordered(one);
    lemma_ordered(other);
    let sorted = ordered(one);
    assert forall|i: int, j: int|
        0 <= i < sorted.len() && 0 <= j < sorted.len() && addresses((#[trigger] sorted[i]).frames)
            == addresses((#[trigger] sorted[j]).frames) implies sorted[i] == sorted[j] by {
        assert(sorted.contains(sorted[i]));
        assert(sorted.contains(sorted[j]));
        assert(one.to_multiset().count(sorted[i]) > 0);
        assert(one.to_multiset().count(sorted[j]) > 0);
        assert(one.contains(sorted[i]));
        assert(one.contains(sorted[j]));
        let a = choose|a: int| 0 <= a < one.len() && one[a] == sorted[i];
        let b = choose|b: int| 0 <= b < one.len() && one[b] == sorted[j];
        assert(one[a] == one[b]);
    }
    lemma_in_order_is_one_order(sorted, ordered(other));
}

fn stack_comes_before(left: &RawSample, right: &RawSample) -> (yes: bool)
    ensures
        yes == comes_before(addresses(left@), addresses(right@)),
{
    let ghost a = addresses(left@);
    let ghost b = addresses(right@);
    let mut i: usize = 0;
    proof {
        assert(a.skip(0) =~= a);
        assert(b.skip(0) =~= b);
    }
    loop
        invariant
            i <= left.frames.len(),
            i <= right.frames.len(),
            a == addresses(left@),
            b == addresses(right@),
            comes_before(a, b) == comes_before(a.skip(i as int), b.skip(i as int)),
        decreases left.frames.len() - i,
    {
        if i >= right.frames.len() {
            return false;
        }
        if i >= left.frames.len() {
            return true;
        }
        proof {
            assert(a.skip(i as int)[0] == left.frames@[i as int].address);
            assert(b.skip(i as int)[0] == right.frames@[i as int].address);
            assert(a.skip(i as int).skip(1) =~= a.skip(i + 1));
            assert(b.skip(i as int).skip(1) =~= b.skip(i + 1));
        }
        if left.frames[i].address != right.frames[i].address {
            return left.frames[i].address < right.frames[i].address;
        }
        i += 1;
    }
}

/// The stacks that `order` picks out of `stacks`, one after the other.
pub open spec fn picked(stacks: Seq<CapturedModel>, order: Seq<usize>) -> Seq<CapturedModel> {
    Seq::new(order.len(), |k: int| stacks[order[k] as int])
}

fn capture_order(stacks: &Vec<CapturedStack>) -> (order: Vec<usize>)
    ensures
        order.len() == stacks.len(),
        forall|k: int| 0 <= k < order.len() ==> #[trigger] order@[k] < stacks.len(),
        picked(captured_view(stacks@), order@) == ordered(captured_view(stacks@)),
{
    let ghost captured = captured_view(stacks@);
    let mut order: Vec<usize> = Vec::new();
    let mut i: usize = 0;
    proof {
        assert(picked(captured, order@) =~= ordered(captured.take(0)));
    }
    while i < stacks.len()
        invariant
            i <= stacks.len(),
            captured == captured_view(stacks@),
            order.len() == i,
            forall|k: int| 0 <= k < order.len() ==> #[trigger] order@[k] < stacks.len(),
            picked(captured, order@) == ordered(captured.take(i as int)),
        decreases stacks.len() - i,
    {
        let ghost sorted = picked(captured, order@);
        let ghost wanted = stands_after(captured[i as int]);
        proof {
            assert(captured.take(i + 1).drop_last() =~= captured.take(i as int));
            assert(captured.take(i + 1).last() == captured[i as int]);
        }
        let mut place: usize = 0;
        while place < order.len() && !stack_comes_before(
            &stacks[i].sample,
            &stacks[order[place]].sample,
        )
            invariant
                place <= order.len(),
                i < stacks.len(),
                captured == captured_view(stacks@),
                sorted == picked(captured, order@),
                wanted == stands_after(captured[i as int]),
                forall|k: int| 0 <= k < order.len() ==> #[trigger] order@[k] < stacks.len(),
                first_match(sorted, wanted, 0) == first_match(sorted, wanted, place as int),
            decreases order.len() - place,
        {
            proof {
                assert(sorted[place as int] == stacks@[order@[place as int] as int]@);
                assert(!wanted(sorted[place as int]));
            }
            place += 1;
        }
        proof {
            if place < order.len() {
                assert(sorted[place as int] == stacks@[order@[place as int] as int]@);
                assert(wanted(sorted[place as int]));
            }
            assert(place_of(sorted, captured[i as int]) == place);
        }
        order.insert(place, i);
        proof {
            assert(picked(captured, order@) =~= sorted.insert(place as int, captured[i as int]));
        }
        i += 1;
    }
    proof {
        assert(captured.take(i as int) =~= captured);
    }
    order
}

/// Turns captured stacks into the ticks they stand for. The stacks are
/// taken in order of their addresses, whatever the order in which they
/// were handed out; each is filtered, and one that still holds a frame is
/// handed out once for each of its ticks.
pub fn collect_samples(stacks: &Vec<CapturedStack>, filter: &FrameFilter) -> (samples: Vec<
    RawSample,
>)
    ensures
        samples_view(samples@) == captured_ticks(filter@, ordered(captured_view(stacks@))),
        all_filtered(filter@, samples_view(samples@)),
{
    let ghost captured = ordered(captured_view(stacks@));
    let order = capture_order(stacks);
    let mut samples: Vec<RawSample> = Vec::new();
    let mut i: usize = 0;
    while i < order.len()
        invariant
            i <= order.len(),
            order.len() == stacks.len(),
            forall|k: int| 0 <= k < order.len() ==> #[trigger] order@[k] < stacks.len(),
            captured == picked(captured_view(stacks@), order@),
            samples_view(samples@) == captured_ticks(filter@, captured.take(i as int)),
        decreases order.len() - i,
    {
        let stack = &stacks[order[i]];
        proof {
            assert(captured.take(i + 1).drop_last() =~= captured.take(i as int));
            assert(captured.take(i + 1).last() == stack@);
        }
        let ghost before = samples_view(samples@);
        let kept = filter.filter_sample(&stack.sample);
        if kept.frames.len() > 0 {
            let ticks = stack.ticks;
            let mut n: isize = 0;
            while n < ticks
                invariant
                    0 <= n,
                    ticks > 0 ==> n <= ticks,
                    ticks <= 0 ==> n == 0,
                    samples_view(samples@) == before + repeated(kept@, n as int),
                decreases ticks - n,
            {
                let ghost so_far = samples_view(samples@);
                samples.push(kept.clone());
                proof {
                    assert(samples_view(samples@) =~= so_far.push(kept@));
                    assert(so_far.push(kept@) =~= before + repeated(kept@, n + 1));
                }
                n += 1;
            }
            proof {
                assert(repeated(kept@, n as int) =~= repeated(kept@, ticks as int));
            }
        } else {
            proof {
                assert(before + Seq::<Seq<FrameModel>>::empty() =~= before);
            }
        }
        i += 1;
    }
    proof {
        assert(captured.take(i as int) =~= captured);
        lemma_captured_ticks_filtered(filter@, captured);
    }
    samples
}

/// The start value of the name hash.
pub const HASH_START: u64 = 0xcbf2_9ce4_8422_2325;

/// The factor of the name hash.
pub const HASH_FACTOR: u64 = 0x0000_0100_0000_01b3;

/// The bit that marks an identity as made from a name. It lies above the
/// addresses of code.
pub const NAMED: u64 = 0x8000_0000_0000_0000;

/// The hash of a name: each byte in turn is mixed in with exclusive or,
/// and the result multiplied by the factor, modulo two to the 64.
pub open spec fn name_hash(bytes: Seq<u8>) -> u64
    decreases bytes.len(),
{
    if bytes.len() == 0 {
        HASH_START
    } else {
        (name_hash(bytes.drop_last()) ^ (bytes.last() as u64)).wrapping_mul(HASH_FACTOR)
    }
}

/// The identity of a frame that has a name and no address: the hash of
/// the name, marked as made from a name.
pub open spec fn name_identity(name: Seq<char>) -> u64 {
    name_hash(text_bytes(name)) | NAMED
}

/// The frame that the parts of a symbol make. A symbol without an address
/// is identified by its name. A symbol with neither makes no frame, since
/// nothing identifies it.
pub open spec fn frame_model_of(
    address: Option<u64>,
    symbol_name: Option<Seq<char>>,
    module_name: Option<Seq<char>>,
) -> Option<FrameModel> {
    match (address, symbol_name) {
        (Some(address), _) => Some(FrameModel { address, symbol_name, module_name }),
        (None, Some(name)) => Some(
            FrameModel { address: name_identity(name), symbol_name, module_name },
        ),
        (None, None) => None,
    }
}

/// Computes the identity of a frame that has a name and no address.
pub fn identity_of_name(name: &String) -> (identity: u64)
    ensures
        identity == name_identity(name@),
{
    let bytes = name.as_str().as_bytes();
    let mut hash: u64 = HASH_START;
    let mut i: usize = 0;
    while i < bytes.len()
        invariant
            i <= bytes.len(),
            bytes@ == text_bytes(name@),
            hash == name_hash(bytes@.take(i as int)),
        decreases bytes.len() - i,
    {
        proof {
            assert(bytes@.take(i + 1).drop_last() =~= bytes@.take(i as int));
        }
        hash = (hash ^ (bytes[i] as u64)).wrapping_mul(HASH_FACTOR);
        i += 1;
    }
    proof {
        assert(bytes@.take(i as int) =~= bytes@);
    }
    hash | NAMED
}

/// Makes the frame of the parts of a symbol.
pub fn frame_of(address: Option<u64>, symbol_name: Option<String>, module_name: Option<String>) -> (
    frame: Option<StackFrame>
)
    ensures
        match frame {
            Some(frame) => frame_model_of(address, name_view(symbol_name), name_view(module_name))
                == Some(frame@),
            None => frame_model_of(address, name_view(symbol_name), name_view(module_name))
                is None,
        },
{
    match address {
        Some(address) => Some(StackFrame { address, symbol_name, module_name }),
        None => match symbol_name {
            Some(name) => {
                let address = identity_of_name(&name);
                Some(StackFrame { address, symbol_name: Some(name), module_name })
            },
            None => None,
        },
    }
}

/// The frame that the symbols of one frame make: the frame of the first
/// symbol, which is the innermost call and so names the code that the
/// frame was running; none where nothing was resolved.
pub open spec fn frame_of_symbols(symbols: Seq<ResolvedModel>) -> Option<FrameModel> {
    if symbols.len() == 0 {
        None
    } else {
        frame_model_of(symbols[0].address, symbols[0].name, symbols[0].module)
    }
}

/// The stack that the resolved frames of a backtrace make: the frame of
/// each in their order, without those that make none.
pub open spec fn stack_model(resolved: Seq<Seq<ResolvedModel>>) -> Seq<FrameModel>
    decreases resolved.len(),
{
    if resolved.len() == 0 {
        Seq::empty()
    } else {
        let before = stack_model(resolved.drop_last());
        match frame_of_symbols(resolved.last()) {
            Some(frame) => before.push(frame),
            None => before,
        }
    }
}

/// The captured stack that one entry of the profiler's report makes.
pub open spec fn captured_of(entry: (pprof::Frames, isize)) -> CapturedModel {
    CapturedModel { frames: stack_model(frames_held(entry.0)), ticks: entry.1 as int }
}

fn clone_name(name: &Option<String>) -> (copy: Option<String>)
    ensures
        copy == *name,
{
    match name {
        Some(text) => Some(text.clone()),
        None => None,
    }
}

/// Makes the stack of the resolved frames of a backtrace: one frame for
/// each resolved frame, made of its innermost symbol.
pub fn stack_of(resolved: &Vec<Vec<ResolvedSymbol>>) -> (sample: RawSample)
    ensures
        sample@ == stack_model(backtrace_view(resolved@)),
{
    let ghost all = backtrace_view(resolved@);
    let mut frames: Vec<StackFrame> = Vec::new();
    let mut i: usize = 0;
    while i < resolved.len()
        invariant
            i <= resolved.len(),
            all == backtrace_view(resolved@),
            frames_view(frames@) == stack_model(all.take(i as int)),
        decreases resolved.len() - i,
    {
        proof {
            assert(all.take(i + 1).drop_last() =~= all.take(i as int));
            assert(all.take(i + 1).last() == resolved_view(resolved@[i as int]@));
        }
        if resolved[i].len() > 0 {
            let symbol = &resolved[i][0];
            let ghost before = frames_view(frames@);
            match frame_of(symbol.address, clone_name(&symbol.name), clone_name(&symbol.module)) {
                Some(frame) => {
                    frames.push(frame);
                    proof {
                        assert(frames_view(frames@) =~= before.push(frame@));
                    }
                },
                None => {},
            }
        }
        i += 1;
    }
    proof {
        assert(all.take(i as int) =~= all);
    }
    RawSample { frames }
}

/// Makes the captured stacks of the entries of the profiler's report: for
/// each backtrace the stack of what it holds, with the entry's ticks.
pub fn captured_stacks(entries: &Vec<(pprof::Frames, isize)>) -> (stacks: Vec<CapturedStack>)
    ensures
        captured_view(stacks@) == entries@.map_values(
            |entry: (pprof::Frames, isize)| captured_of(entry),
        ),
{
    let ghost all = entries@.map_values(|entry: (pprof::Frames, isize)| captured_of(entry));
    let mut stacks: Vec<CapturedStack> = Vec::new();
    let mut i: usize = 0;
    while i < entries.len()
        invariant
            i <= entries.len(),
            all == entries@.map_values(|entry: (pprof::Frames, isize)| captured_of(entry)),
            captured_view(stacks@) == all.take(i as int),
        decreases entries.len() - i,
    {
        let symbols = frames_symbols(&entries[i].0);
        let ghost before = captured_view(stacks@);
        stacks.push(CapturedStack { sample: stack_of(&symbols), ticks: entries[i].1 });
        proof {
            assert(captured_view(stacks@) =~= before.push(captured_of(entries@[i as int])));
            assert(all.take(i + 1) =~= all.take(i as int).push(captured_of(entries@[i as int])));
        }
        i += 1;
    }
    proof {
        assert(all.take(i as int) =~= all);
    }
    stacks
}

/// The failure that a failed start stands for: busy where a profiler is
/// running already, a capture failure otherwise.
pub open spec fn start_failure(fault: ProfilerFault) -> ProfileError {
    if fault == ProfilerFault::Running {
        ProfileError::AlreadyRunning
    } else {
        ProfileError::Capture
    }
}

/// Maps a fault of the profiler at start to the session's failure.
pub fn start_error(fault: ProfilerFault) -> (error: ProfileError)
    ensures
        error == start_failure(fault),
{
    match fault {
        ProfilerFault::Running => ProfileError::AlreadyRunning,
        _ => ProfileError::Capture,
    }
}

/// The process-wide sampler of one session.
///
/// While it runs it holds the only profiler of the process. Collecting
/// freezes what was captured; stopping also releases the profiler.
pub struct Sampler {
    guard: Option<pprof::ProfilerGuard<'static>>,
    filter: FrameFilter,
    frozen: bool,
    collected: Vec<RawSample>,
    failure: Option<ProfileError>,
}

impl Sampler {
    #[verifier::type_invariant]
    spec fn sound(self) -> bool {
        &&& all_filtered(self.filter@, samples_view(self.collected@))
        &&& self.failure is Some ==> self.collected@.len() == 0
        &&& self.failure is Some ==> self.failure == Some(ProfileError::Capture)
        &&& !self.frozen ==> self.failure is None && self.collected@.len() == 0
        &&& self.guard is None ==> self.frozen
    }

    /// Whether the sampler holds the profiler of the process.
    pub closed spec fn is_running(self) -> bool {
        self.guard is Some
    }

    /// Whether the captured stacks were collected. From then on they do not
    /// change.
    pub closed spec fn is_collected(self) -> bool {
        self.frozen
    }

    /// The patterns of the sampler's filter.
    pub closed spec fn patterns(self) -> Seq<Seq<char>> {
        self.filter@
    }

    /// The stacks that the sampler has collected, one for each tick.
    pub closed spec fn samples(self) -> Seq<Seq<FrameModel>> {
        samples_view(self.collected@)
    }

    /// The failure that collecting ran into, if it did.
    pub closed spec fn failure(self) -> Option<ProfileError> {
        self.failure
    }

    /// Starts sampling at `frequency_hz` ticks a second.
    ///
    /// A frequency of zero or less is refused before anything starts. The
    /// process has one profiler: while another sampler runs, starting fails
    /// as busy.
    pub fn start(frequency_hz: i32, filter: FrameFilter) -> (result: Result<Sampler, ProfileError>)
        ensures
            frequency_hz <= 0 <==> result matches Err(ProfileError::InvalidFrequency),
            result matches Err(error) ==> error == ProfileError::InvalidFrequency || error
                == ProfileError::AlreadyRunning || error == ProfileError::Capture,
            result matches Ok(sampler) ==> sampler.is_running() && !sampler.is_collected()
                && sampler.patterns() == filter@ && sampler.samples().len() == 0
                && sampler.failure() is None,
    {
        if frequency_hz <= 0 {
            return Err(ProfileError::InvalidFrequency);
        }
        match start_profiler(frequency_hz, &filter.patterns) {
            Ok(guard) => {
                let collected: Vec<RawSample> = Vec::new();
                proof {
                    assert(samples_view(collected@) =~= Seq::empty());
                }
                Ok(Sampler { guard: Some(guard), filter, frozen: false, collected, failure: None })
            },
            Err(error) => Err(start_error(profiler_fault(&error))),
        }
    }

    /// Collects the filtered stacks captured so far, one for each tick
    /// whose stack still holds a frame, and keeps the profiler. The stacks
    /// come in order of their addresses, since the profiler hands them out
    /// in an order that differs from run to run.
    ///
    /// The first call decides: later calls, and `stop`, return the same.
    pub fn collect(&mut self) -> (result: Result<Vec<RawSample>, ProfileError>)
        ensures
            final(self).is_collected(),
            final(self).is_running() == old(self).is_running(),
            final(self).patterns() == old(self).patterns(),
            old(self).is_collected() ==> final(self).samples() == old(self).samples() && final(
                self).failure() == old(self).failure(),
            match result {
                Ok(samples) => final(self).failure() is None && samples_view(samples@) == final(
                    self).samples(),
                Err(error) => final(self).failure() == Some(error) && error
                    == ProfileError::Capture && final(self).samples().len() == 0,
            },
            all_filtered(final(self).patterns(), final(self).samples()),
    {
        proof {
            use_type_invariant(&*self);
        }
        if !self.frozen {
            let outcome = match &self.guard {
                Some(guard) => Some(collect_entries(guard)),
                None => None,
            };
            match outcome {
                Some(Ok(entries)) => {
                    let stacks = captured_stacks(&entries);
                    let samples = collect_samples(&stacks, &self.filter);
                    self.frozen = true;
                    self.collected = samples;
                },
                Some(Err(_)) => {
                    self.frozen = true;
                    self.failure = Some(ProfileError::Capture);
                },
                None => {},
            }
        }
        match self.failure {
            Some(error) => Err(error),
            None => Ok(clone_samples(&self.collected)),
        }
    }

    /// The filter that the sampler applies to what it captured.
    pub fn filter(&self) -> (filter: &FrameFilter)
        ensures
            filter@ == self.patterns(),
    {
        &self.filter
    }

    /// Ends the sampler and releases the profiler, whether or not the
    /// captured stacks were collected.
    pub fn release(self) {
    }

    /// Stops sampling, releases the profiler and returns the filtered
    /// stacks, one for each tick whose stack still holds a frame.
    ///
    /// Stopping twice is harmless: a stopped sampler returns what the
    /// first stop returned.
    pub fn stop(&mut self) -> (result: Result<Vec<RawSample>, ProfileError>)
        ensures
            !final(self).is_running(),
            final(self).is_collected(),
            final(self).patterns() == old(self).patterns(),
            old(self).is_collected() ==> final(self).samples() == old(self).samples() && final(
                self).failure() == old(self).failure(),
            match result {
                Ok(samples) => final(self).failure() is None && samples_view(samples@) == final(
                    self).samples(),
                Err(error) => final(self).failure() == Some(error) && error
                    == ProfileError::Capture && final(self).samples().len() == 0,
            },
            all_filtered(final(self).patterns(), final(self).samples()),
    {
        let result = self.collect();
        proof {
            use_type_invariant(&*self);
        }
        self.guard = None;
        result
    }
}

/// A copy of a run of stacks.
pub fn clone_samples(samples: &Vec<RawSample>) -> (copy: Vec<RawSample>)
    ensures
        samples_view(copy@) == samples_view(samples@),
{
    let mut copy: Vec<RawSample> = Vec::new();
    let mut i: usize = 0;
    while i < samples.len()
        invariant
            i <= samples.len(),
            samples_view(copy@) == samples_view(samples@).take(i as int),
        decreases samples.len() - i,
    {
        let ghost before = samples_view(copy@);
        copy.push(samples[i].clone());
        proof {
            assert(samples_view(copy@) =~= before.push(samples@[i as int]@));
            assert(samples_view(samples@).take(i + 1) =~= samples_view(samples@).take(
                i as int,
            ).push(samples@[i as int]@));
        }
        i += 1;
    }
    proof {
        assert(samples_view(samples@).take(i as int) =~= samples_view(samples@));
    }
    copy
}

} // verus!
