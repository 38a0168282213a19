//! Pinned distributions and diagnostics.
//!
//! A pinned distribution is the one concrete artifact chosen for a package:
//! an editable local project, a distribution addressed by URL, or a
//! registry-addressed distribution pinned to a version. Each carries the
//! verbatim source text it was requested with, for faithful re-emission.

use vstd::prelude::*;
use crate::lex::{copy_bytes, lit_bytes, push_bytes, push_lit};
use crate::version::Version;

verus! {

/// Where a pinned distribution comes from.
#[derive(Debug)]
pub enum DistSource {
    /// A local project installed in place; `verbatim` is its source text.
    Editable { verbatim: Vec<u8> },
    /// A distribution addressed by a URL.
    DirectUrl { url: Vec<u8> },
    /// A registry distribution pinned to an exact version; `verbatim` is its
    /// pinned requirement text, such as `name==1.2.3`.
    Registry { version: Version, verbatim: Vec<u8> },
}

/// The mathematical content of a `DistSource`.
#[verifier::ext_equal]
pub ghost enum DistSourceView {
    Editable { verbatim: Seq<u8> },
    DirectUrl { url: Seq<u8> },
    Registry { version: Seq<u64>, verbatim: Seq<u8> },
}

impl View for DistSource {
    type V = DistSourceView;

    open spec fn view(&self) -> DistSourceView {
        match self {
            DistSource::Editable { verbatim } => DistSourceView::Editable { verbatim: verbatim@ },
            DistSource::DirectUrl { url } => DistSourceView::DirectUrl { url: url@ },
            DistSource::Registry { version, verbatim } => DistSourceView::Registry {
                version: version@,
                verbatim: verbatim@,
            },
        }
    }
}

/// A concrete, installable artifact for one package name.
#[derive(Debug)]
pub struct PinnedDist {
    pub name: Vec<u8>,
    pub source: DistSource,
}

/// The mathematical content of a `PinnedDist`.
#[verifier::ext_equal]
pub ghost struct DistView {
    pub name: Seq<u8>,
    pub source: DistSourceView,
}

impl View for PinnedDist {
    type V = DistView;

    open spec fn view(&self) -> DistView {
        DistView { name: self.name@, source: self.source@ }
    }
}

/// The verbatim requirement text of a distribution: the editable source, the
/// `name @ url` form, or the pinned registry requirement.
pub open spec fn spec_verbatim(d: DistView) -> Seq<u8> {
    match d.source {
        DistSourceView::Editable { verbatim } => verbatim,
        DistSourceView::DirectUrl { url } => d.name + lit_bytes(" @ ") + url,
        DistSourceView::Registry { verbatim, .. } => verbatim,
    }
}

impl PinnedDist {
    /// A copy with the same content.
    pub fn duplicate(&self) -> (d: PinnedDist)
        ensures
            d@ == self@,
    {
        let source = match &self.source {
            DistSource::Editable { verbatim } => DistSource::Editable {
                verbatim: copy_bytes(verbatim),
            },
            DistSource::DirectUrl { url } => DistSource::DirectUrl { url: copy_bytes(url) },
            DistSource::Registry { version, verbatim } => DistSource::Registry {
                version: version.duplicate(),
                verbatim: copy_bytes(verbatim),
            },
        };
        PinnedDist { name: copy_bytes(&self.name), source }
    }

    /// The verbatim requirement text.
    pub fn verbatim(&self) -> (r: Vec<u8>)
        ensures
            r@ == spec_verbatim(self@),
    {
        match &self.source {
            DistSource::Editable { verbatim } => copy_bytes(verbatim),
            DistSource::DirectUrl { url } => {
                let mut r = copy_bytes(&self.name);
                push_lit(&mut r, " @ ");
                push_bytes(&mut r, url);
                r
            },
            DistSource::Registry { verbatim, .. } => copy_bytes(verbatim),
        }
    }
}

/// A non-fatal inconsistency found while building the graph.
#[derive(Debug)]
pub enum Diagnostic {
    /// The user requested `name[extra]`, but the resolved metadata for `name`
    /// does not declare that extra.
    MissingExtra { dist: PinnedDist, extra: Vec<u8> },
}

/// The mathematical content of a `Diagnostic`.
#[verifier::ext_equal]
pub ghost enum DiagView {
    MissingExtra { dist: DistView, extra: Seq<u8> },
}

impl View for Diagnostic {
    type V = DiagView;

    open spec fn view(&self) -> DiagView {
        match self {
            Diagnostic::MissingExtra { dist, extra } => DiagView::MissingExtra {
                dist: dist@,
                extra: extra@,
            },
        }
    }
}

/// The views of a sequence of pinned distributions.
pub open spec fn dists_view(s: Seq<PinnedDist>) -> Seq<DistView> {
    s.map_values(|d: PinnedDist| d@)
}

/// The views of a sequence of diagnostics.
pub open spec fn diags_view(s: Seq<Diagnostic>) -> Seq<DiagView> {
    s.map_values(|d: Diagnostic| d@)
}

/// The user-facing text of a diagnostic.
pub open spec fn spec_message(d: DiagView) -> Seq<u8> {
    match d {
        DiagView::MissingExtra { dist, extra } => lit_bytes("The package `") + spec_verbatim(dist)
            + lit_bytes("` does not have an extra named `") + extra + lit_bytes("`."),
    }
}

impl Diagnostic {
    /// A copy with the same content.
    pub fn duplicate(&self) -> (d: Diagnostic)
        ensures
            d@ == self@,
    {
        match self {
            Diagnostic::MissingExtra { dist, extra } => Diagnostic::MissingExtra {
                dist: dist.duplicate(),
                extra: copy_bytes(extra),
            },
        }
    }

    /// The diagnostic as a one-line user-facing message.
    pub fn message(&self) -> (r: Vec<u8>)
        ensures
            r@ == spec_message(self@),
    {
        match self {
            Diagnostic::MissingExtra { dist, extra } => {
                let mut r: Vec<u8> = Vec::new();
                push_lit(&mut r, "The package `");
                let v = dist.verbatim();
                push_bytes(&mut r, &v);
                push_lit(&mut r, "` does not have an extra named `");
                push_bytes(&mut r, extra);
                push_lit(&mut r, "`.");
                proof {
                    assert(Seq::<u8>::empty() + lit_bytes("The package `") =~= lit_bytes(
                        "The package `",
                    ));
                }
                r
            },
        }
    }

    /// Whether the given package name is involved in this diagnostic.
    pub fn includes(&self, name: &Vec<u8>) -> (r: bool)
        ensures
            r == match self@ {
                DiagView::MissingExtra { dist, .. } => dist.name == name@,
            },
    {
        match self {
            Diagnostic::MissingExtra { dist, .. } => crate::lex::bytes_eq(&dist.name, name),
        }
    }
}

} // verus!
