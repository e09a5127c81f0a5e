//! Captured call stacks and the frame filter that removes runtime noise
//! from them before aggregation.

use vstd::prelude::*;
use vstd::utf8::encode_utf8;

verus! {

/// One call-site entry of a captured stack.
///
/// A frame is identified by its address. The symbol and module names are
/// annotations that the capture resolved on a best-effort basis.
#[derive(Debug, PartialEq, Eq)]
pub struct StackFrame {
    pub address: u64,
    pub symbol_name: Option<String>,
    pub module_name: Option<String>,
}

/// What a [`StackFrame`] holds, as mathematical values.
pub struct FrameModel {
    pub address: u64,
    pub symbol_name: Option<Seq<char>>,
    pub module_name: Option<Seq<char>>,
}

/// The characters of an optional name.
pub open spec fn name_view(name: Option<String>) -> Option<Seq<char>> {
    match name {
        Some(text) => Some(text@),
        None => None,
    }
}

impl View for StackFrame {
    type V = FrameModel;

    open spec fn view(&self) -> FrameModel {
        FrameModel {
            address: self.address,
            symbol_name: name_view(self.symbol_name),
            module_name: name_view(self.module_name),
        }
    }
}

impl Clone for StackFrame {
    fn clone(&self) -> (copy: Self)
        ensures
            copy == *self,
    {
        let symbol_name = match &self.symbol_name {
            Some(text) => Some(text.clone()),
            None => None,
        };
        let module_name = match &self.module_name {
            Some(text) => Some(text.clone()),
            None => None,
        };
        StackFrame { address: self.address, symbol_name, module_name }
    }
}

/// The frames of one sampling tick, leaf first and root last.
#[derive(Debug, PartialEq, Eq)]
pub struct RawSample {
    pub frames: Vec<StackFrame>,
}

/// A stack of frames as mathematical values.
pub open spec fn frames_view(frames: Seq<StackFrame>) -> Seq<FrameModel> {
    frames.map_values(|frame: StackFrame| frame@)
}

impl View for RawSample {
    type V = Seq<FrameModel>;

    open spec fn view(&self) -> Seq<FrameModel> {
        frames_view(self.frames@)
    }
}

impl Clone for RawSample {
    fn clone(&self) -> (copy: Self)
        ensures
            copy@ == self@,
    {
        let mut frames: Vec<StackFrame> = Vec::new();
        let mut i: usize = 0;
        while i < self.frames.len()
            invariant
                i <= self.frames.len(),
                frames@ == self.frames@.take(i as int),
            decreases self.frames.len() - i,
        {
            frames.push(self.frames[i].clone());
            proof {
                assert(self.frames@.take(i + 1) =~= self.frames@.take(i as int).push(
                    self.frames@[i as int],
                ));
            }
            i += 1;
        }
        proof {
            assert(self.frames@.take(i as int) =~= self.frames@);
        }
        RawSample { frames }
    }
}

/// The stacks of a run of ticks as mathematical values.
pub open spec fn samples_view(samples: Seq<RawSample>) -> Seq<Seq<FrameModel>> {
    samples.map_values(|sample: RawSample| sample@)
}

/// The bytes a name is compared and stored by: its UTF-8 encoding.
pub open spec fn text_bytes(text: Seq<char>) -> Seq<u8> {
    encode_utf8(text)
}

/// Whether `pattern` names `module`: the module name equals the pattern or
/// starts with it, byte for byte. The empty pattern names every module.
pub open spec fn pattern_covers(pattern: Seq<char>, module: Seq<char>) -> bool {
    text_bytes(pattern).is_prefix_of(text_bytes(module))
}

/// Whether some pattern of the blocklist names `module`.
pub open spec fn module_blocked(patterns: Seq<Seq<char>>, module: Seq<char>) -> bool {
    exists|i: int| 0 <= i < patterns.len() && pattern_covers(#[trigger] patterns[i], module)
}

/// Whether the blocklist drops `frame`. A frame whose module is unresolved
/// is never dropped.
pub open spec fn frame_blocked(patterns: Seq<Seq<char>>, frame: FrameModel) -> bool {
    match frame.module_name {
        Some(module) => module_blocked(patterns, module),
        None => false,
    }
}

/// The frames of a stack that the blocklist keeps, in their order.
pub open spec fn kept_frames(patterns: Seq<Seq<char>>, frames: Seq<FrameModel>) -> Seq<FrameModel>
    decreases frames.len(),
{
    if frames.len() == 0 {
        Seq::empty()
    } else {
        let before = kept_frames(patterns, frames.drop_last());
        if frame_blocked(patterns, frames.last()) {
            before
        } else {
            before.push(frames.last())
        }
    }
}

/// A predicate over module names that marks frames of the runtime, the
/// threading library and the loader as noise.
#[derive(Debug, PartialEq, Eq)]
pub struct FrameFilter {
    pub patterns: Vec<String>,
}

impl View for FrameFilter {
    type V = Seq<Seq<char>>;

    open spec fn view(&self) -> Seq<Seq<char>> {
        self.patterns@.map_values(|pattern: String| pattern@)
    }
}

/// The patterns of the default blocklist.
pub open spec fn default_patterns() -> Seq<Seq<char>> {
    seq!["libc"@, "libgcc"@, "pthread"@, "vdso"@]
}

fn has_prefix(text: &[u8], prefix: &[u8]) -> (yes: bool)
    ensures
        yes == prefix@.is_prefix_of(text@),
{
    if prefix.len() > text.len() {
        return false;
    }
    let mut i: usize = 0;
    while i < prefix.len()
        invariant
            i <= prefix.len() <= text.len(),
            forall|j: int| 0 <= j < i ==> prefix@[j] == text@[j],
        decreases prefix.len() - i,
    {
        if prefix[i] != text[i] {
            proof {
                assert(text@.subrange(0, prefix@.len() as int)[i as int] == text@[i as int]);
            }
            return false;
        }
        i += 1;
    }
    proof {
        assert(prefix@ =~= text@.subrange(0, prefix@.len() as int));
    }
    true
}

impl FrameFilter {
    /// A filter with the given patterns.
    pub fn new(patterns: Vec<String>) -> (filter: Self)
        ensures
            filter.patterns == patterns,
    {
        FrameFilter { patterns }
    }

    /// The default filter: the C runtime, the compiler runtime, the threading
    /// library and the kernel's loader page.
    pub fn default_blocklist() -> (filter: Self)
        ensures
            filter@ == default_patterns(),
    {
        let mut patterns: Vec<String> = Vec::new();
        patterns.push("libc".to_owned());
        patterns.push("libgcc".to_owned());
        patterns.push("pthread".to_owned());
        patterns.push("vdso".to_owned());
        let filter = FrameFilter { patterns };
        proof {
            assert(filter@ =~= default_patterns());
        }
        filter
    }

    /// Whether some pattern names `module`.
    pub fn blocks_module(&self, module: &String) -> (blocked: bool)
        ensures
            blocked == module_blocked(self@, module@),
    {
        let text = module.as_str().as_bytes();
        let mut i: usize = 0;
        while i < self.patterns.len()
            invariant
                i <= self.patterns.len(),
                text@ == text_bytes(module@),
                forall|j: int| 0 <= j < i ==> !pattern_covers(#[trigger] self@[j], module@),
            decreases self.patterns.len() - i,
        {
            let pattern = self.patterns[i].as_str().as_bytes();
            if has_prefix(text, pattern) {
                proof {
                    assert(pattern_covers(self@[i as int], module@));
                }
                return true;
            }
            i += 1;
        }
        false
    }

    /// Whether `frame` must be dropped.
    pub fn matches(&self, frame: &StackFrame) -> (dropped: bool)
        ensures
            dropped == frame_blocked(self@, frame@),
            frame.module_name is None ==> !dropped,
    {
        match &frame.module_name {
            Some(module) => self.blocks_module(module),
            None => false,
        }
    }

    /// The stack without the frames that must be dropped.
    pub fn filter_sample(&self, sample: &RawSample) -> (kept: RawSample)
        ensures
            kept@ == kept_frames(self@, sample@),
    {
        let mut frames: Vec<StackFrame> = Vec::new();
        let mut i: usize = 0;
        while i < sample.frames.len()
            invariant
                i <= sample.frames.len(),
                frames_view(frames@) == kept_frames(self@, sample@.take(i as int)),
            decreases sample.frames.len() - i,
        {
            proof {
                assert(sample@.take(i + 1).drop_last() =~= sample@.take(i as int));
                assert(sample@.take(i + 1).last() == sample.frames@[i as int]@);
            }
            let ghost before = frames@;
            if !self.matches(&sample.frames[i]) {
                frames.push(sample.frames[i].clone());
                proof {
                    assert(frames_view(frames@) =~= frames_view(before).push(
                        sample.frames@[i as int]@,
                    ));
                }
            }
            i += 1;
        }
        proof {
            assert(sample@.take(i as int) =~= sample@);
        }
        RawSample { frames }
    }
}

/// Every frame that the filter keeps is one it does not drop.
pub proof fn lemma_kept_frames_pass(patterns: Seq<Seq<char>>, frames: Seq<FrameModel>)
    ensures
        forall|k: int|
            0 <= k < kept_frames(patterns, frames).len() ==> !frame_blocked(
                patterns,
                #[trigger] kept_frames(patterns, frames)[k],
            ),
        kept_frames(patterns, frames).len() <= frames.len(),
    decreases frames.len(),
{
    if frames.len() > 0 {
        lemma_kept_frames_pass(patterns, frames.drop_last());
    }
}

/// A stack that holds no dropped frame passes the filter unchanged.
pub proof fn lemma_kept_frames_of_clean(patterns: Seq<Seq<char>>, frames: Seq<FrameModel>)
    requires
        forall|k: int| 0 <= k < frames.len() ==> !frame_blocked(patterns, #[trigger] frames[k]),
    ensures
        kept_frames(patterns, frames) == frames,
    decreases frames.len(),
{
    if frames.len() > 0 {
        lemma_kept_frames_of_clean(patterns, frames.drop_last());
        assert(frames.drop_last().push(frames.last()) =~= frames);
    }
}

/// Filtering is idempotent: a second pass over a filtered stack drops
/// nothing more.
pub proof fn lemma_filter_idempotent(patterns: Seq<Seq<char>>, frames: Seq<FrameModel>)
    ensures
        kept_frames(patterns, kept_frames(patterns, frames)) == kept_frames(patterns, frames),
{
    lemma_kept_frames_pass(patterns, frames);
    lemma_kept_frames_of_clean(patterns, kept_frames(patterns, frames));
}

} // verus!
