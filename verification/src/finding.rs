//! Findings emitted by each defense layer.

use vstd::prelude::*;

verus! {

/// One anomaly reported by a defense layer.
#[derive(Debug, Clone, PartialEq, Eq)]
pub struct Finding {
    pub kind: FindingKind,
    pub severity: Severity,
    /// Byte range in the text the reporting layer was given, before that
    /// layer changed anything (for the fence layer, the pipeline's
    /// normalized user input). `None` when the finding spans the whole
    /// input or has no meaningful span.
    pub span: Option<std::ops::Range<usize>>,
    /// `true` if the layer mutated the text in response to this finding.
    pub sanitized: bool,
    /// Human-readable detail (which pattern matched, which fence marker, ...).
    pub detail: String,
}

#[derive(Debug, Clone, PartialEq, Eq)]
pub enum FindingKind {
    UnicodeAnomaly { kind: UnicodeAnomaly },
    FenceMarker { marker: &'static str },
    DangerousPattern { matched: String, distance: u8 },
    EncodedPayload { encoding: Encoding, decoded_hit: Option<String> },
}

#[derive(Debug, Clone, Copy, PartialEq, Eq, Structural)]
pub enum UnicodeAnomaly {
    ZeroWidth,
    BiDi,
    Homoglyph,
    NonNfkc,
}

#[derive(Debug, Clone, Copy, PartialEq, Eq, Structural)]
pub enum Encoding {
    Base64,
    Hex,
}

#[derive(Debug, Clone, Copy, PartialEq, Eq, PartialOrd, Ord, Structural)]
pub enum Severity {
    Low,
    Medium,
    High,
    Critical,
}

/// Mathematical model of a [`FindingKind`].
pub enum KindView {
    UnicodeAnomaly(UnicodeAnomaly),
    FenceMarker(Seq<char>),
    DangerousPattern(Seq<char>, u8),
    EncodedPayload(Encoding, Option<Seq<char>>),
}

/// Mathematical model of a [`Finding`].
pub struct FindingView {
    pub kind: KindView,
    pub severity: Severity,
    pub span: Option<(int, int)>,
    pub sanitized: bool,
    pub detail: Seq<char>,
}

impl View for FindingKind {
    type V = KindView;

    open spec fn view(&self) -> KindView {
        match self {
            FindingKind::UnicodeAnomaly { kind } => KindView::UnicodeAnomaly(*kind),
            FindingKind::FenceMarker { marker } => KindView::FenceMarker(marker@),
            FindingKind::DangerousPattern { matched, distance } => KindView::DangerousPattern(
                matched@,
                *distance,
            ),
            FindingKind::EncodedPayload { encoding, decoded_hit } => KindView::EncodedPayload(
                *encoding,
                match decoded_hit {
                    Some(h) => Some(h@),
                    None => None,
                },
            ),
        }
    }
}

impl View for Finding {
    type V = FindingView;

    open spec fn view(&self) -> FindingView {
        FindingView {
            kind: self.kind@,
            severity: self.severity,
            span: match self.span {
                Some(r) => Some((r.start as int, r.end as int)),
                None => None,
            },
            sanitized: self.sanitized,
            detail: self.detail@,
        }
    }
}

/// The models of a list of findings.
pub open spec fn finding_views(fs: Seq<Finding>) -> Seq<FindingView> {
    fs.map_values(|f: Finding| f@)
}

impl FindingKind {
    /// A copy of this kind with the same model.
    pub fn duplicate(&self) -> (r: FindingKind)
        ensures
            r@ == self@,
    {
        match self {
            FindingKind::UnicodeAnomaly { kind } => FindingKind::UnicodeAnomaly { kind: *kind },
            FindingKind::FenceMarker { marker } => FindingKind::FenceMarker { marker: *marker },
            FindingKind::DangerousPattern { matched, distance } => FindingKind::DangerousPattern {
                matched: matched.clone(),
                distance: *distance,
            },
            FindingKind::EncodedPayload { encoding, decoded_hit } => FindingKind::EncodedPayload {
                encoding: *encoding,
                decoded_hit: match decoded_hit {
                    Some(h) => Some(h.clone()),
                    None => None,
                },
            },
        }
    }
}

impl Finding {
    /// A copy of this finding with the same model.
    pub fn duplicate(&self) -> (r: Finding)
        ensures
            r@ == self@,
    {
        Finding {
            kind: self.kind.duplicate(),
            severity: self.severity,
            span: match &self.span {
                Some(r) => Some(r.start..r.end),
                None => None,
            },
            sanitized: self.sanitized,
            detail: self.detail.clone(),
        }
    }
}

/// Copies a list of findings, keeping their models.
pub fn copy_findings(fs: &[Finding]) -> (r: Vec<Finding>)
    ensures
        finding_views(r@) == finding_views(fs@),
{
    let mut out: Vec<Finding> = Vec::new();
    let mut i: usize = 0;
    while i < fs.len()
        invariant
            i <= fs@.len(),
            out@.len() == i,
            forall|j: int| 0 <= j < i ==> (#[trigger] out@[j])@ == fs@[j]@,
        decreases fs@.len() - i,
    {
        let f = fs[i].duplicate();
        out.push(f);
        i += 1;
    }
    proof {
        assert(finding_views(out@) =~= finding_views(fs@));
    }
    out
}

/// Appends `more` to `fs`.
pub fn append_findings(fs: &mut Vec<Finding>, more: Vec<Finding>)
    ensures
        finding_views(final(fs)@) == finding_views(old(fs)@) + finding_views(more@),
{
    let mut more = more;
    let ghost added = more@;
    fs.append(&mut more);
    proof {
        assert(finding_views(fs@) =~= finding_views(old(fs)@) + finding_views(added));
    }
}

} // verus!
