//! Data model: channels, stream variants, quality selectors, stream keys,
//! and the classified index-lookup error.

use vstd::prelude::*;

verus! {

/// One streamable option of a channel: a display name, a bandwidth
/// (bits per second or an equivalent ordinal), and the opaque locator
/// used to open its media stream. Immutable once produced.
pub struct VariantInfo {
    pub name: String,
    pub bandwidth: u64,
    pub locator: String,
}

/// Mathematical model of a `VariantInfo`.
pub ghost struct VariantInfoView {
    pub name: Seq<char>,
    pub bandwidth: u64,
    pub locator: Seq<char>,
}

impl View for VariantInfo {
    type V = VariantInfoView;

    open spec fn view(&self) -> VariantInfoView {
        VariantInfoView { name: self.name@, bandwidth: self.bandwidth, locator: self.locator@ }
    }
}

impl Clone for VariantInfo {
    fn clone(&self) -> (r: Self)
        ensures
            r@ == self@,
    {
        VariantInfo {
            name: self.name.clone(),
            bandwidth: self.bandwidth,
            locator: self.locator.clone(),
        }
    }
}

/// The ordered collection of variants that one upstream lookup returned
/// for a channel. Treated as a value: quality resolution never mutates it.
pub struct StreamIndex {
    pub variants: Vec<VariantInfo>,
}

impl View for StreamIndex {
    type V = Seq<VariantInfoView>;

    open spec fn view(&self) -> Seq<VariantInfoView> {
        self.variants@.map_values(|v: VariantInfo| v@)
    }
}

impl Clone for StreamIndex {
    fn clone(&self) -> (r: Self)
        ensures
            r@ == self@,
    {
        let mut vs: Vec<VariantInfo> = Vec::new();
        let mut i: usize = 0;
        while i < self.variants.len()
            invariant
                i <= self.variants.len(),
                vs@.len() == i as int,
                forall|j: int| 0 <= j < i ==> vs@[j]@ == self.variants@[j]@,
            decreases self.variants.len() - i,
        {
            vs.push(self.variants[i].clone());
            i = i + 1;
        }
        let r = StreamIndex { variants: vs };
        proof {
            assert(r@ =~= self@);
        }
        r
    }
}

/// Extreme-bandwidth selection: the highest or the lowest variant.
#[derive(Clone, Copy, PartialEq, Eq, Structural)]
pub enum ApproxQuality {
    Best,
    Worst,
}

/// A variant selector: a case-insensitive literal name, or selection
/// by extreme bandwidth. The default, when a request names none, is
/// `Approx(Best)`.
pub enum Quality {
    Exact(String),
    Approx(ApproxQuality),
}

/// Mathematical model of a `Quality`.
pub ghost enum QualityView {
    Exact(Seq<char>),
    Approx(ApproxQuality),
}

impl View for Quality {
    type V = QualityView;

    open spec fn view(&self) -> QualityView {
        match self {
            Quality::Exact(s) => QualityView::Exact(s@),
            Quality::Approx(a) => QualityView::Approx(*a),
        }
    }
}

impl Clone for Quality {
    fn clone(&self) -> (r: Self)
        ensures
            r@ == self@,
    {
        match self {
            Quality::Exact(s) => Quality::Exact(s.clone()),
            Quality::Approx(a) => Quality::Approx(*a),
        }
    }
}

impl PartialEq for Quality {
    fn eq(&self, other: &Quality) -> (r: bool) {
        match (self, other) {
            (Quality::Exact(a), Quality::Exact(b)) => *a == *b,
            (Quality::Approx(a), Quality::Approx(b)) => *a == *b,
            _ => false,
        }
    }
}

impl vstd::std_specs::cmp::PartialEqSpecImpl for Quality {
    open spec fn obeys_eq_spec() -> bool {
        true
    }

    open spec fn eq_spec(&self, other: &Quality) -> bool {
        self@ == other@
    }
}

/// Identifies one multiplexed playback session: a channel together with
/// the quality selector the clients asked for. Two requests with the same
/// channel but different selectors are different keys even when both
/// selectors would resolve to the same variant.
pub struct StreamKey {
    pub channel: String,
    pub quality: Quality,
}

/// Mathematical model of a `StreamKey`.
pub ghost struct StreamKeyView {
    pub channel: Seq<char>,
    pub quality: QualityView,
}

impl View for StreamKey {
    type V = StreamKeyView;

    open spec fn view(&self) -> StreamKeyView {
        StreamKeyView { channel: self.channel@, quality: self.quality@ }
    }
}

impl Clone for StreamKey {
    fn clone(&self) -> (r: Self)
        ensures
            r@ == self@,
    {
        StreamKey { channel: self.channel.clone(), quality: self.quality.clone() }
    }
}

impl PartialEq for StreamKey {
    fn eq(&self, other: &StreamKey) -> (r: bool) {
        self.channel == other.channel && self.quality == other.quality
    }
}

impl vstd::std_specs::cmp::PartialEqSpecImpl for StreamKey {
    open spec fn obeys_eq_spec() -> bool {
        true
    }

    open spec fn eq_spec(&self, other: &StreamKey) -> bool {
        self@ == other@
    }
}

/// Why an index lookup yielded no `StreamIndex`: the upstream explicitly
/// reported the channel has no current index (`NotFound`), or anything
/// else went wrong (`Unexpected`, with a human-readable message). Only
/// the classification is load-bearing for callers.
pub enum IndexError {
    NotFound,
    Unexpected(String),
}

/// Mathematical model of an `IndexError`.
pub ghost enum IndexErrorView {
    NotFound,
    Unexpected(Seq<char>),
}

impl View for IndexError {
    type V = IndexErrorView;

    open spec fn view(&self) -> IndexErrorView {
        match self {
            IndexError::NotFound => IndexErrorView::NotFound,
            IndexError::Unexpected(m) => IndexErrorView::Unexpected(m@),
        }
    }
}

impl Clone for IndexError {
    fn clone(&self) -> (r: Self)
        ensures
            r@ == self@,
    {
        match self {
            IndexError::NotFound => IndexError::NotFound,
            IndexError::Unexpected(m) => IndexError::Unexpected(m.clone()),
        }
    }
}

} // verus!
