//! Read-only lookup tables consumed while building a resolution graph.
//!
//! Each table is a snapshot populated upstream and only read here, through
//! point lookups: the editable-project registry, the pin table, the
//! per-distribution metadata table, the per-package version listings, and the
//! URL redirect table. Lookups return the first matching entry.

use vstd::prelude::*;
use crate::dist::PinnedDist;
use crate::lex::{bytes_eq, bytes_view, copy_bytes_list};
use crate::version::Version;

verus! {

// ---------------------------------------------------------------------------
// Editable registry
// ---------------------------------------------------------------------------
/// An editable local project, with the extras its metadata declares.
#[derive(Debug)]
pub struct EditableEntry {
    pub name: Vec<u8>,
    pub verbatim: Vec<u8>,
    pub extras: Vec<Vec<u8>>,
}

/// The mathematical content of an `EditableEntry`.
#[verifier::ext_equal]
pub ghost struct EditableEntryView {
    pub name: Seq<u8>,
    pub verbatim: Seq<u8>,
    pub extras: Seq<Seq<u8>>,
}

impl View for EditableEntry {
    type V = EditableEntryView;

    open spec fn view(&self) -> EditableEntryView {
        EditableEntryView {
            name: self.name@,
            verbatim: self.verbatim@,
            extras: bytes_view(self.extras@),
        }
    }
}

/// The editable projects taking part in a resolution, keyed by package name.
#[derive(Debug)]
pub struct Editables {
    pub entries: Vec<EditableEntry>,
}

/// The views of a sequence of editable entries.
pub open spec fn editables_view(s: Seq<EditableEntry>) -> Seq<EditableEntryView> {
    s.map_values(|e: EditableEntry| e@)
}

impl View for Editables {
    type V = Seq<EditableEntryView>;

    open spec fn view(&self) -> Seq<EditableEntryView> {
        editables_view(self.entries@)
    }
}

/// First entry registered under `name`, if any.
pub open spec fn editables_find(s: Seq<EditableEntryView>, name: Seq<u8>) -> Option<
    EditableEntryView,
>
    decreases s.len(),
{
    if s.len() == 0 {
        None
    } else if s[0].name == name {
        Some(s[0])
    } else {
        editables_find(s.skip(1), name)
    }
}

/// With no match among the first `i` entries, the lookup is decided by the
/// rest.
proof fn lemma_editables_find_skip(s: Seq<EditableEntryView>, name: Seq<u8>, i: int)
    requires
        0 <= i <= s.len(),
        forall|j: int| 0 <= j < i ==> (#[trigger] s[j]).name != name,
    ensures
        editables_find(s, name) == editables_find(s.skip(i), name),
    decreases i,
{
    if i > 0 {
        lemma_editables_find_skip(s.skip(1), name, i - 1);
        assert(s.skip(1).skip(i - 1) =~= s.skip(i));
    } else {
        assert(s.skip(0) =~= s);
    }
}

impl Editables {
    /// Look up the editable project registered under `name`.
    pub fn get(&self, name: &Vec<u8>) -> (r: Option<&EditableEntry>)
        ensures
            match r {
                Some(e) => editables_find(self@, name@) == Some(e@),
                None => editables_find(self@, name@) is None,
            },
    {
        let mut i: usize = 0;
        while i < self.entries.len()
            invariant
                i <= self.entries.len(),
                forall|j: int| 0 <= j < i ==> (#[trigger] self@[j]).name != name@,
            decreases self.entries.len() - i,
        {
            proof {
                lemma_editables_find_skip(self@, name@, i as int);
            }
            if bytes_eq(&self.entries[i].name, name) {
                proof {
                    assert(self@.skip(i as int)[0] == self@[i as int]);
                }
                return Some(&self.entries[i]);
            }
            proof {
                assert(self@[i as int] == self.entries@[i as int]@);
            }
            i = i + 1;
        }
        proof {
            lemma_editables_find_skip(self@, name@, i as int);
            assert(self@.skip(i as int).len() == 0);
        }
        None
    }
}

// ---------------------------------------------------------------------------
// Pin table
// ---------------------------------------------------------------------------
/// One pinned registry distribution for a package name at a version.
#[derive(Debug)]
pub struct PinEntry {
    pub name: Vec<u8>,
    pub version: Version,
    pub dist: PinnedDist,
}

/// The mathematical content of a `PinEntry`.
#[verifier::ext_equal]
pub ghost struct PinEntryView {
    pub name: Seq<u8>,
    pub version: Seq<u64>,
    pub dist: crate::dist::DistView,
}

impl View for PinEntry {
    type V = PinEntryView;

    open spec fn view(&self) -> PinEntryView {
        PinEntryView { name: self.name@, version: self.version@, dist: self.dist@ }
    }
}

/// The pins chosen during fetching, keyed by package name and version.
#[derive(Debug)]
pub struct FilePins {
    pub entries: Vec<PinEntry>,
}

/// The views of a sequence of pin entries.
pub open spec fn pins_view(s: Seq<PinEntry>) -> Seq<PinEntryView> {
    s.map_values(|e: PinEntry| e@)
}

impl View for FilePins {
    type V = Seq<PinEntryView>;

    open spec fn view(&self) -> Seq<PinEntryView> {
        pins_view(self.entries@)
    }
}

/// First pin recorded for `(name, version)`, if any.
pub open spec fn pins_find(s: Seq<PinEntryView>, name: Seq<u8>, version: Seq<u64>) -> Option<
    PinEntryView,
>
    decreases s.len(),
{
    if s.len() == 0 {
        None
    } else if s[0].name == name && s[0].version == version {
        Some(s[0])
    } else {
        pins_find(s.skip(1), name, version)
    }
}

/// With no match among the first `i` entries, the lookup is decided by the
/// rest.
proof fn lemma_pins_find_skip(s: Seq<PinEntryView>, name: Seq<u8>, version: Seq<u64>, i: int)
    requires
        0 <= i <= s.len(),
        forall|j: int|
            0 <= j < i ==> !((#[trigger] s[j]).name == name && s[j].version == version),
    ensures
        pins_find(s, name, version) == pins_find(s.skip(i), name, version),
    decreases i,
{
    if i > 0 {
        lemma_pins_find_skip(s.skip(1), name, version, i - 1);
        assert(s.skip(1).skip(i - 1) =~= s.skip(i));
    } else {
        assert(s.skip(0) =~= s);
    }
}

/// A found pin was recorded under the looked-up name and version, and is an
/// entry of the table.
pub proof fn lemma_pins_find_found(s: Seq<PinEntryView>, name: Seq<u8>, version: Seq<u64>)
    ensures
        match pins_find(s, name, version) {
            Some(p) => p.name == name && p.version == version && exists|i: int|
                0 <= i < s.len() && #[trigger] s[i] == p,
            None => true,
        },
    decreases s.len(),
{
    if s.len() > 0 {
        if s[0].name == name && s[0].version == version {
            assert(s[0] == pins_find(s, name, version).unwrap());
        } else {
            lemma_pins_find_found(s.skip(1), name, version);
            match pins_find(s.skip(1), name, version) {
                Some(p) => {
                    let i = choose|i: int| 0 <= i < s.skip(1).len() && #[trigger] s.skip(1)[i] == p;
                    assert(s[i + 1] == p);
                },
                None => {},
            }
        }
    }
}

impl FilePins {
    /// Look up the pin recorded for `name` at `version`.
    pub fn get(&self, name: &Vec<u8>, version: &Version) -> (r: Option<&PinnedDist>)
        ensures
            match r {
                Some(d) => match pins_find(self@, name@, version@) {
                    Some(e) => e.dist == d@,
                    None => false,
                },
                None => pins_find(self@, name@, version@) is None,
            },
    {
        let mut i: usize = 0;
        while i < self.entries.len()
            invariant
                i <= self.entries.len(),
                forall|j: int|
                    0 <= j < i ==> !((#[trigger] self@[j]).name == name@ && self@[j].version
                        == version@),
            decreases self.entries.len() - i,
        {
            proof {
                lemma_pins_find_skip(self@, name@, version@, i as int);
            }
            let e = &self.entries[i];
            proof {
                assert(self@[i as int] == self.entries@[i as int]@);
            }
            if bytes_eq(&e.name, name) && e.version.eq_to(version) {
                proof {
                    assert(self@.skip(i as int)[0] == self@[i as int]);
                }
                return Some(&e.dist);
            }
            i = i + 1;
        }
        proof {
            lemma_pins_find_skip(self@, name@, version@, i as int);
            assert(self@.skip(i as int).len() == 0);
        }
        None
    }
}

// ---------------------------------------------------------------------------
// Metadata table
// ---------------------------------------------------------------------------
/// What a package-variant identity resolves through: an exact version for
/// registry distributions, or a URL.
#[derive(Debug)]
pub enum IdDetail {
    Version(Version),
    Url(Vec<u8>),
}

/// The mathematical content of an `IdDetail`.
#[verifier::ext_equal]
pub ghost enum IdDetailView {
    Version(Seq<u64>),
    Url(Seq<u8>),
}

impl View for IdDetail {
    type V = IdDetailView;

    open spec fn view(&self) -> IdDetailView {
        match self {
            IdDetail::Version(v) => IdDetailView::Version(v@),
            IdDetail::Url(u) => IdDetailView::Url(u@),
        }
    }
}

impl IdDetail {
    /// Decide equality of two identities' details.
    pub fn eq_to(&self, other: &IdDetail) -> (r: bool)
        ensures
            r == (self@ == other@),
    {
        match (self, other) {
            (IdDetail::Version(a), IdDetail::Version(b)) => a.eq_to(b),
            (IdDetail::Url(a), IdDetail::Url(b)) => bytes_eq(a, b),
            _ => false,
        }
    }
}

/// The extras declared by the metadata of one distribution.
#[derive(Debug)]
pub struct MetadataEntry {
    pub name: Vec<u8>,
    pub detail: IdDetail,
    pub extras: Vec<Vec<u8>>,
}

/// The mathematical content of a `MetadataEntry`.
#[verifier::ext_equal]
pub ghost struct MetadataEntryView {
    pub name: Seq<u8>,
    pub detail: IdDetailView,
    pub extras: Seq<Seq<u8>>,
}

impl View for MetadataEntry {
    type V = MetadataEntryView;

    open spec fn view(&self) -> MetadataEntryView {
        MetadataEntryView {
            name: self.name@,
            detail: self.detail@,
            extras: bytes_view(self.extras@),
        }
    }
}

/// Resolved metadata per distribution identity.
#[derive(Debug)]
pub struct MetadataTable {
    pub entries: Vec<MetadataEntry>,
}

/// The views of a sequence of metadata entries.
pub open spec fn metadata_view(s: Seq<MetadataEntry>) -> Seq<MetadataEntryView> {
    s.map_values(|e: MetadataEntry| e@)
}

impl View for MetadataTable {
    type V = Seq<MetadataEntryView>;

    open spec fn view(&self) -> Seq<MetadataEntryView> {
        metadata_view(self.entries@)
    }
}

/// First metadata entry recorded for the identity, if any.
pub open spec fn metadata_find(
    s: Seq<MetadataEntryView>,
    name: Seq<u8>,
    detail: IdDetailView,
) -> Option<MetadataEntryView>
    decreases s.len(),
{
    if s.len() == 0 {
        None
    } else if s[0].name == name && s[0].detail == detail {
        Some(s[0])
    } else {
        metadata_find(s.skip(1), name, detail)
    }
}

/// With no match among the first `i` entries, the lookup is decided by the
/// rest.
proof fn lemma_metadata_find_skip(
    s: Seq<MetadataEntryView>,
    name: Seq<u8>,
    detail: IdDetailView,
    i: int,
)
    requires
        0 <= i <= s.len(),
        forall|j: int| 0 <= j < i ==> !((#[trigger] s[j]).name == name && s[j].detail == detail),
    ensures
        metadata_find(s, name, detail) == metadata_find(s.skip(i), name, detail),
    decreases i,
{
    if i > 0 {
        lemma_metadata_find_skip(s.skip(1), name, detail, i - 1);
        assert(s.skip(1).skip(i - 1) =~= s.skip(i));
    } else {
        assert(s.skip(0) =~= s);
    }
}

impl MetadataTable {
    /// Look up the metadata recorded for the identity `(name, detail)`.
    pub fn get(&self, name: &Vec<u8>, detail: &IdDetail) -> (r: Option<&MetadataEntry>)
        ensures
            match r {
                Some(e) => metadata_find(self@, name@, detail@) == Some(e@),
                None => metadata_find(self@, name@, detail@) is None,
            },
    {
        let mut i: usize = 0;
        while i < self.entries.len()
            invariant
                i <= self.entries.len(),
                forall|j: int|
                    0 <= j < i ==> !((#[trigger] self@[j]).name == name@ && self@[j].detail
                        == detail@),
            decreases self.entries.len() - i,
        {
            proof {
                lemma_metadata_find_skip(self@, name@, detail@, i as int);
            }
            let e = &self.entries[i];
            proof {
                assert(self@[i as int] == self.entries@[i as int]@);
            }
            if bytes_eq(&e.name, name) && e.detail.eq_to(detail) {
                proof {
                    assert(self@.skip(i as int)[0] == self@[i as int]);
                }
                return Some(e);
            }
            i = i + 1;
        }
        proof {
            lemma_metadata_find_skip(self@, name@, detail@, i as int);
            assert(self@.skip(i as int).len() == 0);
        }
        None
    }
}

// ---------------------------------------------------------------------------
// Version listings
// ---------------------------------------------------------------------------
/// The content hashes of the files offered for one version of a package.
#[derive(Debug)]
pub struct VersionFiles {
    pub version: Version,
    pub hashes: Vec<Vec<u8>>,
}

/// The mathematical content of a `VersionFiles`.
#[verifier::ext_equal]
pub ghost struct VersionFilesView {
    pub version: Seq<u64>,
    pub hashes: Seq<Seq<u8>>,
}

impl View for VersionFiles {
    type V = VersionFilesView;

    open spec fn view(&self) -> VersionFilesView {
        VersionFilesView { version: self.version@, hashes: bytes_view(self.hashes@) }
    }
}

/// The views of a sequence of version-file listings.
pub open spec fn files_view(s: Seq<VersionFiles>) -> Seq<VersionFilesView> {
    s.map_values(|f: VersionFiles| f@)
}

/// The outcome of a version listing fetch for one package.
#[derive(Debug)]
pub enum VersionsResponse {
    /// The listing was found; one entry per offered version.
    Found { files: Vec<VersionFiles> },
    /// The package has no usable listing.
    NotFound,
}

/// The mathematical content of a `VersionsResponse`.
#[verifier::ext_equal]
pub ghost enum VersionsResponseView {
    Found { files: Seq<VersionFilesView> },
    NotFound,
}

impl View for VersionsResponse {
    type V = VersionsResponseView;

    open spec fn view(&self) -> VersionsResponseView {
        match self {
            VersionsResponse::Found { files } => VersionsResponseView::Found {
                files: files_view(files@),
            },
            VersionsResponse::NotFound => VersionsResponseView::NotFound,
        }
    }
}

/// A version listing snapshot for one package.
#[derive(Debug)]
pub struct VersionsEntry {
    pub name: Vec<u8>,
    pub response: VersionsResponse,
}

/// The mathematical content of a `VersionsEntry`.
#[verifier::ext_equal]
pub ghost struct VersionsEntryView {
    pub name: Seq<u8>,
    pub response: VersionsResponseView,
}

impl View for VersionsEntry {
    type V = VersionsEntryView;

    open spec fn view(&self) -> VersionsEntryView {
        VersionsEntryView { name: self.name@, response: self.response@ }
    }
}

/// Version listings per package name.
#[derive(Debug)]
pub struct PackageVersions {
    pub entries: Vec<VersionsEntry>,
}

/// The views of a sequence of version-listing entries.
pub open spec fn versions_view(s: Seq<VersionsEntry>) -> Seq<VersionsEntryView> {
    s.map_values(|e: VersionsEntry| e@)
}

impl View for PackageVersions {
    type V = Seq<VersionsEntryView>;

    open spec fn view(&self) -> Seq<VersionsEntryView> {
        versions_view(self.entries@)
    }
}

/// First listing recorded for `name`, if any.
pub open spec fn versions_find(s: Seq<VersionsEntryView>, name: Seq<u8>) -> Option<
    VersionsEntryView,
>
    decreases s.len(),
{
    if s.len() == 0 {
        None
    } else if s[0].name == name {
        Some(s[0])
    } else {
        versions_find(s.skip(1), name)
    }
}

/// With no match among the first `i` entries, the lookup is decided by the
/// rest.
proof fn lemma_versions_find_skip(s: Seq<VersionsEntryView>, name: Seq<u8>, i: int)
    requires
        0 <= i <= s.len(),
        forall|j: int| 0 <= j < i ==> (#[trigger] s[j]).name != name,
    ensures
        versions_find(s, name) == versions_find(s.skip(i), name),
    decreases i,
{
    if i > 0 {
        lemma_versions_find_skip(s.skip(1), name, i - 1);
        assert(s.skip(1).skip(i - 1) =~= s.skip(i));
    } else {
        assert(s.skip(0) =~= s);
    }
}

/// The hashes listed for one exact version: those of the first matching
/// entry, or none at all.
pub open spec fn file_hashes(files: Seq<VersionFilesView>, version: Seq<u64>) -> Seq<Seq<u8>>
    decreases files.len(),
{
    if files.len() == 0 {
        Seq::empty()
    } else if files[0].version == version {
        files[0].hashes
    } else {
        file_hashes(files.skip(1), version)
    }
}

/// With no match among the first `i` listings, the hashes are decided by the
/// rest.
proof fn lemma_file_hashes_skip(files: Seq<VersionFilesView>, version: Seq<u64>, i: int)
    requires
        0 <= i <= files.len(),
        forall|j: int| 0 <= j < i ==> (#[trigger] files[j]).version != version,
    ensures
        file_hashes(files, version) == file_hashes(files.skip(i), version),
    decreases i,
{
    if i > 0 {
        lemma_file_hashes_skip(files.skip(1), version, i - 1);
        assert(files.skip(1).skip(i - 1) =~= files.skip(i));
    } else {
        assert(files.skip(0) =~= files);
    }
}

/// The unsorted hashes for `name` at `version`: present exactly when a found
/// listing is recorded for `name`.
pub open spec fn spec_hashes_of(
    s: Seq<VersionsEntryView>,
    name: Seq<u8>,
    version: Seq<u64>,
) -> Option<Seq<Seq<u8>>> {
    match versions_find(s, name) {
        Some(e) => match e.response {
            VersionsResponseView::Found { files } => Some(file_hashes(files, version)),
            VersionsResponseView::NotFound => None,
        },
        None => None,
    }
}

impl PackageVersions {
    /// The hashes listed for `name` at `version`, unsorted; `None` when no
    /// found listing exists for `name`.
    pub fn hashes_of(&self, name: &Vec<u8>, version: &Version) -> (r: Option<Vec<Vec<u8>>>)
        ensures
            match r {
                Some(h) => spec_hashes_of(self@, name@, version@) == Some(bytes_view(h@)),
                None => spec_hashes_of(self@, name@, version@) is None,
            },
    {
        let mut i: usize = 0;
        while i < self.entries.len()
            invariant
                i <= self.entries.len(),
                forall|j: int| 0 <= j < i ==> (#[trigger] self@[j]).name != name@,
            decreases self.entries.len() - i,
        {
            proof {
                lemma_versions_find_skip(self@, name@, i as int);
            }
            let e = &self.entries[i];
            proof {
                assert(self@[i as int] == self.entries@[i as int]@);
            }
            if bytes_eq(&e.name, name) {
                proof {
                    assert(self@.skip(i as int)[0] == self@[i as int]);
                }
                match &e.response {
                    VersionsResponse::NotFound => {
                        return None;
                    },
                    VersionsResponse::Found { files } => {
                        let ghost fv = files_view(files@);
                        proof {
                            assert(fv.skip(0) =~= fv);
                        }
                        let mut k: usize = 0;
                        while k < files.len()
                            invariant
                                fv == files_view(files@),
                                spec_hashes_of(self@, name@, version@) == Some(
                                    file_hashes(fv, version@),
                                ),
                                k <= files.len(),
                                forall|j: int| 0 <= j < k ==> (#[trigger] fv[j]).version != version@,
                            decreases files.len() - k,
                        {
                            proof {
                                lemma_file_hashes_skip(fv, version@, k as int);
                            }
                            let f = &files[k];
                            proof {
                                assert(fv[k as int] == files@[k as int]@);
                            }
                            if f.version.eq_to(version) {
                                proof {
                                    assert(fv.skip(k as int)[0] == fv[k as int]);
                                }
                                return Some(copy_bytes_list(&f.hashes));
                            }
                            k = k + 1;
                        }
                        proof {
                            lemma_file_hashes_skip(fv, version@, k as int);
                            assert(fv.skip(k as int).len() == 0);
                        }
                        let empty: Vec<Vec<u8>> = Vec::new();
                        proof {
                            assert(bytes_view(empty@) =~= Seq::<Seq<u8>>::empty());
                        }
                        return Some(empty);
                    },
                }
            }
            i = i + 1;
        }
        proof {
            lemma_versions_find_skip(self@, name@, i as int);
            assert(self@.skip(i as int).len() == 0);
        }
        None
    }
}

// ---------------------------------------------------------------------------
// Redirect table
// ---------------------------------------------------------------------------
/// One recorded permanent redirect.
#[derive(Debug)]
pub struct RedirectEntry {
    pub from: Vec<u8>,
    pub to: Vec<u8>,
}

/// The mathematical content of a `RedirectEntry`.
#[verifier::ext_equal]
pub ghost struct RedirectEntryView {
    pub from: Seq<u8>,
    pub to: Seq<u8>,
}

impl View for RedirectEntry {
    type V = RedirectEntryView;

    open spec fn view(&self) -> RedirectEntryView {
        RedirectEntryView { from: self.from@, to: self.to@ }
    }
}

/// URL redirects observed while fetching, keyed by the original URL.
#[derive(Debug)]
pub struct Redirects {
    pub entries: Vec<RedirectEntry>,
}

/// The views of a sequence of redirect entries.
pub open spec fn redirects_view(s: Seq<RedirectEntry>) -> Seq<RedirectEntryView> {
    s.map_values(|e: RedirectEntry| e@)
}

impl View for Redirects {
    type V = Seq<RedirectEntryView>;

    open spec fn view(&self) -> Seq<RedirectEntryView> {
        redirects_view(self.entries@)
    }
}

/// First redirect recorded for `url`, if any.
pub open spec fn redirects_find(s: Seq<RedirectEntryView>, url: Seq<u8>) -> Option<Seq<u8>>
    decreases s.len(),
{
    if s.len() == 0 {
        None
    } else if s[0].from == url {
        Some(s[0].to)
    } else {
        redirects_find(s.skip(1), url)
    }
}

/// Where `url` ends up: its recorded redirect target, or itself.
pub open spec fn spec_resolve_url(s: Seq<RedirectEntryView>, url: Seq<u8>) -> Seq<u8> {
    match redirects_find(s, url) {
        Some(t) => t,
        None => url,
    }
}

/// With no match among the first `i` entries, the lookup is decided by the
/// rest.
proof fn lemma_redirects_find_skip(s: Seq<RedirectEntryView>, url: Seq<u8>, i: int)
    requires
        0 <= i <= s.len(),
        forall|j: int| 0 <= j < i ==> (#[trigger] s[j]).from != url,
    ensures
        redirects_find(s, url) == redirects_find(s.skip(i), url),
    decreases i,
{
    if i > 0 {
        lemma_redirects_find_skip(s.skip(1), url, i - 1);
        assert(s.skip(1).skip(i - 1) =~= s.skip(i));
    } else {
        assert(s.skip(0) =~= s);
    }
}

impl Redirects {
    /// The final URL for `url`: its recorded redirect target, or a copy of
    /// `url` itself.
    pub fn resolve(&self, url: &Vec<u8>) -> (r: Vec<u8>)
        ensures
            r@ == spec_resolve_url(self@, url@),
    {
        let mut i: usize = 0;
        while i < self.entries.len()
            invariant
                i <= self.entries.len(),
                forall|j: int| 0 <= j < i ==> (#[trigger] self@[j]).from != url@,
            decreases self.entries.len() - i,
        {
            proof {
                lemma_redirects_find_skip(self@, url@, i as int);
            }
            let e = &self.entries[i];
            proof {
                assert(self@[i as int] == self.entries@[i as int]@);
            }
            if bytes_eq(&e.from, url) {
                proof {
                    assert(self@.skip(i as int)[0] == self@[i as int]);
                }
                return crate::lex::copy_bytes(&e.to);
            }
            i = i + 1;
        }
        proof {
            lemma_redirects_find_skip(self@, url@, i as int);
            assert(self@.skip(i as int).len() == 0);
        }
        crate::lex::copy_bytes(url)
    }
}

} // verus!
