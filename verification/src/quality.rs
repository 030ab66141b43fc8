//! Quality resolution: matching a requested quality selector against the
//! variants an index lookup returned. Pure; no state.
//!
//! `Exact(name)` picks the first variant whose lower-cased name equals the
//! lower-cased request. `Approx(Best)` picks the variant of maximal
//! bandwidth and `Approx(Worst)` the minimal one; ties go to the pick a
//! stable ascending sort by bandwidth would put last (`Best`) or first
//! (`Worst`), that is, the last maximal or the first minimal variant.

use vstd::prelude::*;
use crate::types::{ApproxQuality, Quality, QualityView, StreamIndex, VariantInfo, VariantInfoView};

verus! {

/// The lower-cased form of a character sequence, as `str::to_lowercase`
/// computes it. The result depends on the characters alone.
pub uninterp spec fn lower_of(s: Seq<char>) -> Seq<char>;

/// Relies on `str::to_lowercase`: returns the lower-cased form of `s`,
/// a function of the characters of `s` alone.
#[verifier::external_body]
fn lowercase(s: &str) -> (r: String)
    ensures
        r@ == lower_of(s@),
{
    s.to_lowercase()
}

/// A variant answers to a requested name when the two agree once both
/// are lower-cased.
pub open spec fn name_matches(v: VariantInfoView, q: Seq<char>) -> bool {
    lower_of(v.name) == lower_of(q)
}

/// Position `i` holds the first variant whose name matches `q`.
pub open spec fn exact_pick(vs: Seq<VariantInfoView>, q: Seq<char>, i: int) -> bool {
    &&& 0 <= i < vs.len()
    &&& name_matches(vs[i], q)
    &&& forall|j: int| 0 <= j < i ==> !name_matches(vs[j], q)
}

/// Position `i` holds the last variant of maximal bandwidth.
pub open spec fn best_pick(vs: Seq<VariantInfoView>, i: int) -> bool {
    &&& 0 <= i < vs.len()
    &&& forall|j: int| 0 <= j < vs.len() ==> vs[j].bandwidth <= vs[i].bandwidth
    &&& forall|j: int| i < j < vs.len() ==> vs[j].bandwidth < vs[i].bandwidth
}

/// Position `i` holds the first variant of minimal bandwidth.
pub open spec fn worst_pick(vs: Seq<VariantInfoView>, i: int) -> bool {
    &&& 0 <= i < vs.len()
    &&& forall|j: int| 0 <= j < vs.len() ==> vs[i].bandwidth <= vs[j].bandwidth
    &&& forall|j: int| 0 <= j < i ==> vs[i].bandwidth < vs[j].bandwidth
}

/// What quality resolution returns: for `Exact`, the first variant with a
/// matching name, or nothing when none matches; for `Approx`, the extreme-
/// bandwidth variant under the tie policy above, or nothing only when no
/// variant exists at all.
pub open spec fn resolves_to(
    vs: Seq<VariantInfoView>,
    q: QualityView,
    r: Option<VariantInfoView>,
) -> bool {
    match r {
        Some(v) => match q {
            QualityView::Exact(name) => exists|i: int| exact_pick(vs, name, i) && v == vs[i],
            QualityView::Approx(ApproxQuality::Best) => exists|i: int| best_pick(vs, i) && v == vs[i],
            QualityView::Approx(ApproxQuality::Worst) => exists|i: int| worst_pick(vs, i) && v == vs[i],
        },
        None => match q {
            QualityView::Exact(name) => forall|i: int|
                0 <= i < vs.len() ==> !name_matches(vs[i], name),
            QualityView::Approx(_) => vs.len() == 0,
        },
    }
}

/// The model of an optional variant.
pub open spec fn opt_view(r: Option<VariantInfo>) -> Option<VariantInfoView> {
    match r {
        Some(v) => Some(v@),
        None => None,
    }
}

/// Returns the first variant whose lower-cased name equals the lower-cased
/// request, or `None` when no variant's name matches.
pub fn find_playlist_exact(index: StreamIndex, quality: &str) -> (r: Option<VariantInfo>)
    ensures
        resolves_to(index@, QualityView::Exact(quality@), opt_view(r)),
{
    let target = lowercase(quality);
    let mut i: usize = 0;
    while i < index.variants.len()
        invariant
            i <= index.variants.len(),
            target@ == lower_of(quality@),
            forall|j: int| 0 <= j < i ==> !name_matches(index@[j], quality@),
        decreases index.variants.len() - i,
    {
        let lname = lowercase(index.variants[i].name.as_str());
        if lname == target {
            let v = index.variants[i].clone();
            proof {
                assert(index@[i as int] == index.variants@[i as int]@);
                assert(exact_pick(index@, quality@, i as int));
            }
            return Some(v);
        }
        proof {
            assert(index@[i as int] == index.variants@[i as int]@);
        }
        i = i + 1;
    }
    None
}

/// Returns the variant of maximal (`Best`) or minimal (`Worst`) bandwidth
/// under the tie policy above; `None` only when `index` holds no variant.
pub fn find_playlist_approx(index: StreamIndex, quality: &ApproxQuality) -> (r: Option<
    VariantInfo,
>)
    ensures
        resolves_to(index@, QualityView::Approx(*quality), opt_view(r)),
{
    if index.variants.len() == 0 {
        return None;
    }
    let mut best: usize = 0;
    let mut i: usize = 1;
    match quality {
        ApproxQuality::Best => {
            while i < index.variants.len()
                invariant
                    1 <= i <= index.variants.len(),
                    best < i,
                    forall|j: int| 0 <= j < i ==> index@[j].bandwidth <= index@[best as int].bandwidth,
                    forall|j: int| best < j < i ==> index@[j].bandwidth < index@[best as int].bandwidth,
                decreases index.variants.len() - i,
            {
                if index.variants[i].bandwidth >= index.variants[best].bandwidth {
                    best = i;
                }
                i = i + 1;
            }
            let v = index.variants[best].clone();
            proof {
                assert(best_pick(index@, best as int));
            }
            Some(v)
        },
        ApproxQuality::Worst => {
            while i < index.variants.len()
                invariant
                    1 <= i <= index.variants.len(),
                    best < i,
                    forall|j: int| 0 <= j < i ==> index@[best as int].bandwidth <= index@[j].bandwidth,
                    forall|j: int| 0 <= j < best ==> index@[best as int].bandwidth < index@[j].bandwidth,
                decreases index.variants.len() - i,
            {
                if index.variants[i].bandwidth < index.variants[best].bandwidth {
                    best = i;
                }
                i = i + 1;
            }
            let v = index.variants[best].clone();
            proof {
                assert(worst_pick(index@, best as int));
            }
            Some(v)
        },
    }
}

/// Resolves a requested quality against the variants of one index lookup:
/// dispatches to the exact or the approximate rule.
pub fn find_playlist(index: StreamIndex, quality: &Quality) -> (r: Option<VariantInfo>)
    ensures
        resolves_to(index@, quality@, opt_view(r)),
{
    match quality {
        Quality::Exact(name) => find_playlist_exact(index, name.as_str()),
        Quality::Approx(approx) => find_playlist_approx(index, approx),
    }
}

impl Quality {
    /// Classifies a raw quality request: `best` and `worst` (in any case)
    /// select by extreme bandwidth; anything else asks for that literal
    /// name, kept in lower case.
    pub fn from_string(value: &str) -> (q: Quality)
        ensures
            lower_of(value@) == "best"@ ==> q@ == QualityView::Approx(ApproxQuality::Best),
            lower_of(value@) == "worst"@ ==> q@ == QualityView::Approx(ApproxQuality::Worst),
            lower_of(value@) != "best"@ && lower_of(value@) != "worst"@ ==> q@
                == QualityView::Exact(lower_of(value@)),
    {
        proof {
            reveal_strlit("best");
            reveal_strlit("worst");
        }
        let lowered = lowercase(value);
        if lowered == "best".to_owned() {
            assert(!("best"@ =~= "worst"@));
            Quality::Approx(ApproxQuality::Best)
        } else if lowered == "worst".to_owned() {
            Quality::Approx(ApproxQuality::Worst)
        } else {
            Quality::Exact(lowered)
        }
    }
}

impl Default for Quality {
    /// A request that names no quality asks for the best variant.
    fn default() -> (q: Self)
        ensures
            q@ == QualityView::Approx(ApproxQuality::Best),
    {
        Quality::Approx(ApproxQuality::Best)
    }
}

} // verus!
