//! Data model of the scan engine: directory entries, per-endpoint metadata,
//! per-endpoint outcomes, and whole-scan results, together with their
//! mathematical views.

use vstd::prelude::*;

verus! {

/// One entry of the endpoint directory: who the endpoint is and where to
/// probe it. Created when the directory is fetched and read-only afterwards.
#[derive(Clone, Debug, PartialEq, Eq)]
pub struct EndpointDescriptor {
    pub onion_name: Option<String>,
    pub title: String,
    pub landing_page_url: String,
    pub onion_address: String,
}

/// The metadata document a healthy endpoint serves: platform information and
/// the set of language codes it supports.
#[derive(Clone, Debug, PartialEq, Eq)]
pub struct MetadataRecord {
    pub sd_version: String,
    pub server_os: String,
    pub gpg_fpr: String,
    pub v2_source_url: Option<String>,
    pub v3_source_url: String,
    pub supported_languages: Vec<String>,
}

/// Why a single probe failed. Every variant is non-fatal: it is recorded in
/// the scan result and the scan goes on.
#[derive(Clone, Copy, Debug, PartialEq, Eq, Structural)]
pub enum ProbeError {
    /// The endpoint could not be reached at the transport level.
    Unreachable,
    /// The endpoint did not answer within the per-probe timeout.
    Timeout,
    /// A response arrived but did not decode to the metadata schema.
    Malformed,
    /// The endpoint answered with a non-success HTTP status.
    HttpError,
}

/// Why fetching the directory itself failed. Both variants are fatal: with
/// no directory there is nothing to scan.
#[derive(Clone, Copy, Debug, PartialEq, Eq, Structural)]
pub enum DirectoryError {
    /// The directory endpoint could not be reached.
    Unavailable,
    /// The directory response did not decode to a list of descriptors.
    Malformed,
}

/// The result unit for one descriptor: either its metadata or the error that
/// kept the probe from producing any.
#[derive(Clone, Debug, PartialEq, Eq)]
pub enum ProbeOutcome {
    Success { descriptor: EndpointDescriptor, metadata: MetadataRecord },
    Failure { descriptor: EndpointDescriptor, error: ProbeError },
}

/// All outcomes of one scan run, in input (directory) order: exactly one per
/// input descriptor, successes and failures alike.
#[derive(Clone, Debug, PartialEq, Eq)]
pub struct ScanResult {
    pub outcomes: Vec<ProbeOutcome>,
}

/// Mathematical image of a descriptor: every text field as a sequence of
/// characters.
#[verifier::ext_equal]
pub struct DescriptorView {
    pub onion_name: Option<Seq<char>>,
    pub title: Seq<char>,
    pub landing_page_url: Seq<char>,
    pub onion_address: Seq<char>,
}

/// Mathematical image of a metadata record.
#[verifier::ext_equal]
pub struct MetadataView {
    pub sd_version: Seq<char>,
    pub server_os: Seq<char>,
    pub gpg_fpr: Seq<char>,
    pub v2_source_url: Option<Seq<char>>,
    pub v3_source_url: Seq<char>,
    pub supported_languages: Seq<Seq<char>>,
}

/// Mathematical image of one outcome.
#[verifier::ext_equal]
pub enum OutcomeView {
    Success { descriptor: DescriptorView, metadata: MetadataView },
    Failure { descriptor: DescriptorView, error: ProbeError },
}

pub open spec fn opt_string_view(o: Option<String>) -> Option<Seq<char>> {
    match o {
        Option::Some(s) => Option::Some(s@),
        Option::None => Option::None,
    }
}

impl View for EndpointDescriptor {
    type V = DescriptorView;

    open spec fn view(&self) -> DescriptorView {
        DescriptorView {
            onion_name: opt_string_view(self.onion_name),
            title: self.title@,
            landing_page_url: self.landing_page_url@,
            onion_address: self.onion_address@,
        }
    }
}

impl View for MetadataRecord {
    type V = MetadataView;

    open spec fn view(&self) -> MetadataView {
        MetadataView {
            sd_version: self.sd_version@,
            server_os: self.server_os@,
            gpg_fpr: self.gpg_fpr@,
            v2_source_url: opt_string_view(self.v2_source_url),
            v3_source_url: self.v3_source_url@,
            supported_languages: Seq::new(
                self.supported_languages@.len(),
                |i: int| self.supported_languages@[i]@,
            ),
        }
    }
}

impl View for ProbeOutcome {
    type V = OutcomeView;

    open spec fn view(&self) -> OutcomeView {
        match self {
            ProbeOutcome::Success { descriptor, metadata } => OutcomeView::Success {
                descriptor: descriptor@,
                metadata: metadata@,
            },
            ProbeOutcome::Failure { descriptor, error } => OutcomeView::Failure {
                descriptor: descriptor@,
                error: *error,
            },
        }
    }
}

impl View for ScanResult {
    type V = Seq<OutcomeView>;

    open spec fn view(&self) -> Seq<OutcomeView> {
        Seq::new(self.outcomes@.len(), |i: int| self.outcomes@[i]@)
    }
}

impl OutcomeView {
    /// The descriptor an outcome speaks of, success or failure.
    pub open spec fn descriptor(self) -> DescriptorView {
        match self {
            OutcomeView::Success { descriptor, .. } => descriptor,
            OutcomeView::Failure { descriptor, .. } => descriptor,
        }
    }

    pub open spec fn is_success(self) -> bool {
        self is Success
    }
}

impl ProbeOutcome {
    /// The descriptor this outcome belongs to.
    pub fn descriptor(&self) -> (r: &EndpointDescriptor)
        ensures
            r@ == self@.descriptor(),
    {
        match self {
            ProbeOutcome::Success { descriptor, .. } => descriptor,
            ProbeOutcome::Failure { descriptor, .. } => descriptor,
        }
    }

    /// Whether the probe behind this outcome succeeded.
    pub fn is_success(&self) -> (r: bool)
        ensures
            r == self@.is_success(),
    {
        match self {
            ProbeOutcome::Success { .. } => true,
            ProbeOutcome::Failure { .. } => false,
        }
    }
}

impl ScanResult {
    /// Number of outcomes, one per scanned descriptor.
    pub fn len(&self) -> (r: usize)
        ensures
            r == self@.len(),
    {
        self.outcomes.len()
    }
}

} // verus!
