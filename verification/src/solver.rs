//! The solver's output, as consumed here.
//!
//! A finished solver hands over a selection — one resolved version per
//! package variant — and its recorded incompatibilities, an append-only log
//! of justification records. Both are read-only inputs; only justifications
//! of the dependency shape contribute dependency edges.

use vstd::prelude::*;
use crate::lex::bytes_eq;
use crate::version::{IntervalView, Version, VersionRange};

verus! {

/// A solver-internal package identity: a real package name optionally
/// wrapped with an extra or a URL, or a bookkeeping identity of the solver
/// itself, which never materializes.
#[derive(Debug)]
pub enum PackageVariant {
    Bookkeeping,
    Package { name: Vec<u8>, extra: Option<Vec<u8>>, url: Option<Vec<u8>> },
}

/// The mathematical content of a `PackageVariant`.
#[verifier::ext_equal]
pub ghost enum VariantView {
    Bookkeeping,
    Package { name: Seq<u8>, extra: Option<Seq<u8>>, url: Option<Seq<u8>> },
}

impl View for PackageVariant {
    type V = VariantView;

    open spec fn view(&self) -> VariantView {
        match self {
            PackageVariant::Bookkeeping => VariantView::Bookkeeping,
            PackageVariant::Package { name, extra, url } => VariantView::Package {
                name: name@,
                extra: match extra {
                    Some(x) => Some(x@),
                    None => None,
                },
                url: match url {
                    Some(u) => Some(u@),
                    None => None,
                },
            },
        }
    }
}

impl PackageVariant {
    /// Decide equality of two variant identities.
    pub fn eq_to(&self, other: &PackageVariant) -> (r: bool)
        ensures
            r == (self@ == other@),
    {
        match (self, other) {
            (PackageVariant::Bookkeeping, PackageVariant::Bookkeeping) => true,
            (
                PackageVariant::Package { name: an, extra: ax, url: au },
                PackageVariant::Package { name: bn, extra: bx, url: bu },
            ) => {
                let extras_eq = match (ax, bx) {
                    (None, None) => true,
                    (Some(a), Some(b)) => bytes_eq(a, b),
                    _ => false,
                };
                let urls_eq = match (au, bu) {
                    (None, None) => true,
                    (Some(a), Some(b)) => bytes_eq(a, b),
                    _ => false,
                };
                bytes_eq(an, bn) && extras_eq && urls_eq
            },
            _ => false,
        }
    }
}

/// One line of the selection: a variant and its resolved version.
#[derive(Debug)]
pub struct SelectionEntry {
    pub package: PackageVariant,
    pub version: Version,
}

/// The mathematical content of a `SelectionEntry`.
#[verifier::ext_equal]
pub ghost struct SelectionEntryView {
    pub package: VariantView,
    pub version: Seq<u64>,
}

impl View for SelectionEntry {
    type V = SelectionEntryView;

    open spec fn view(&self) -> SelectionEntryView {
        SelectionEntryView { package: self.package@, version: self.version@ }
    }
}

/// The views of a selection.
pub open spec fn selection_view(s: Seq<SelectionEntry>) -> Seq<SelectionEntryView> {
    s.map_values(|e: SelectionEntry| e@)
}

/// A solver-recorded justification.
#[derive(Debug)]
pub enum Justification {
    /// Selecting `source` at a version within `source_range` implies that
    /// `target` must lie within `target_range`.
    DependencyOf {
        source: PackageVariant,
        source_range: VersionRange,
        target: PackageVariant,
        target_range: VersionRange,
    },
    /// Any other incompatibility shape; it contributes no edge.
    Other,
}

/// The mathematical content of a `Justification`.
#[verifier::ext_equal]
pub ghost enum JustificationView {
    DependencyOf {
        source: VariantView,
        source_range: Seq<IntervalView>,
        target: VariantView,
        target_range: Seq<IntervalView>,
    },
    Other,
}

impl View for Justification {
    type V = JustificationView;

    open spec fn view(&self) -> JustificationView {
        match self {
            Justification::DependencyOf { source, source_range, target, target_range } => {
                JustificationView::DependencyOf {
                    source: source@,
                    source_range: source_range@,
                    target: target@,
                    target_range: target_range@,
                }
            },
            Justification::Other => JustificationView::Other,
        }
    }
}

/// One record of the incompatibility log: the variant it is recorded under,
/// and the justification itself.
#[derive(Debug)]
pub struct TraceEntry {
    pub package: PackageVariant,
    pub justification: Justification,
}

/// The mathematical content of a `TraceEntry`.
#[verifier::ext_equal]
pub ghost struct TraceEntryView {
    pub package: VariantView,
    pub justification: JustificationView,
}

impl View for TraceEntry {
    type V = TraceEntryView;

    open spec fn view(&self) -> TraceEntryView {
        TraceEntryView { package: self.package@, justification: self.justification@ }
    }
}

/// The views of an incompatibility log.
pub open spec fn trace_view(s: Seq<TraceEntry>) -> Seq<TraceEntryView> {
    s.map_values(|e: TraceEntry| e@)
}

} // verus!
