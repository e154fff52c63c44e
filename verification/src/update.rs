//! Whether a newer release is out, and what is said about it.
//!
//! A check compares the running version with the newest release. It stops at saying so: what is
//! shown links to the download, and nothing is installed.

use crate::numbers::{decimal, push_number};
use crate::text::{
    contains_part, ends_with, has_part, has_prefix, has_suffix, piece, push_text, same_text, split,
    starts_with, string_of, to_chars,
};
use vstd::prelude::*;

verus! {

/// The version of Suzuri itself, and the only place it is written down.
pub const SUZURI_VERSION: &'static str = "0.4.3";

/// The repository whose releases describe newer builds.
pub const RELEASE_REPOSITORY: &'static str = "harrywang/suzuri";

/// What the tag of a release puts before its version.
pub const RELEASE_TAG_PREFIX: &'static str = "suzuri-v";

/// How many seconds the first check waits, so that a launch never competes with it.
pub const INITIAL_POLL_DELAY: u64 = 300;

/// How many seconds lie between two checks.
pub const POLL_INTERVAL: u64 = 21600;

// ---------------------------------------------------------------------------------------------
// Versions
// ---------------------------------------------------------------------------------------------

/// A semantic version.
#[derive(Clone, Debug, PartialEq, Eq)]
pub struct Version {
    pub major: u64,
    pub minor: u64,
    pub patch: u64,
    /// The pre-release, empty for a release.
    pub pre: String,
    /// The build metadata, mostly empty.
    pub build: String,
}

/// What a [`Version`] holds.
#[verifier::ext_equal]
pub struct VersionParts {
    pub major: u64,
    pub minor: u64,
    pub patch: u64,
    pub pre: Seq<char>,
    pub build: Seq<char>,
}

impl View for Version {
    type V = VersionParts;

    open spec fn view(&self) -> VersionParts {
        VersionParts {
            major: self.major,
            minor: self.minor,
            patch: self.patch,
            pre: self.pre@,
            build: self.build@,
        }
    }
}

/// The view of an optional version.
pub open spec fn version_view(version: Option<Version>) -> Option<VersionParts> {
    match version {
        Some(version) => Some(version@),
        None => None,
    }
}

/// A release, with no pre-release and no build metadata.
pub open spec fn release(major: u64, minor: u64, patch: u64) -> VersionParts {
    VersionParts { major, minor, patch, pre: Seq::empty(), build: Seq::empty() }
}

/// The numbers of a version as text.
pub open spec fn number_text(major: u64, minor: u64, patch: u64) -> Seq<char> {
    decimal(major as nat) + "."@ + decimal(minor as nat) + "."@ + decimal(patch as nat)
}

/// A version as text.
pub open spec fn version_text(version: VersionParts) -> Seq<char> {
    let numbers = number_text(version.major, version.minor, version.patch);
    let pre = if version.pre.len() > 0 {
        "-"@ + version.pre
    } else {
        Seq::empty()
    };
    let build = if version.build.len() > 0 {
        "+"@ + version.build
    } else {
        Seq::empty()
    };
    numbers + pre + build
}

/// Whether a character may stand in an identifier of a pre-release or of build metadata.
pub open spec fn is_identifier_char(c: char) -> bool {
    '0' <= c <= '9' || 'A' <= c <= 'Z' || 'a' <= c <= 'z' || c == '-'
}

/// Whether an identifier is a number with a zero in front.
pub open spec fn has_leading_zero(identifier: Seq<char>) -> bool {
    &&& identifier.len() > 1
    &&& identifier[0] == '0'
    &&& forall|i: int| 0 <= i < identifier.len() ==> '0' <= #[trigger] identifier[i] <= '9'
}

/// Whether a text is one or more identifiers with dots between them.
pub open spec fn are_identifiers(text: Seq<char>) -> bool {
    forall|k: int|
        0 <= k < split(text, '.').len() ==> is_identifier(
            piece(text, #[trigger] split(text, '.')[k]),
        )
}

/// Whether a text is an identifier: not empty, and made of ASCII letters, digits and hyphens.
pub open spec fn is_identifier(text: Seq<char>) -> bool {
    text.len() > 0 && forall|i: int| 0 <= i < text.len() ==> is_identifier_char(#[trigger] text[i])
}

/// Whether no identifier of a text is a number with a zero in front.
pub open spec fn no_leading_zeros(text: Seq<char>) -> bool {
    forall|k: int|
        0 <= k < split(text, '.').len() ==> !has_leading_zero(
            piece(text, #[trigger] split(text, '.')[k]),
        )
}

/// Whether a version is one: its pre-release and its build metadata are each empty or identifiers
/// with dots between them, and no number of the pre-release has a zero in front.
pub open spec fn is_version(version: VersionParts) -> bool {
    &&& version.pre.len() > 0 ==> are_identifiers(version.pre) && no_leading_zeros(version.pre)
    &&& version.build.len() > 0 ==> are_identifiers(version.build)
}

/// The version that a text is, where it is one.
pub open spec fn semver_of(text: Seq<char>) -> Option<VersionParts> {
    if exists|version: VersionParts|
        is_version(version) && #[trigger] version_text(version) == text {
        Some(
            choose|version: VersionParts|
                is_version(version) && #[trigger] version_text(version) == text,
        )
    } else {
        None
    }
}

/// `semver::Version::parse` reads a version from its text: the text of every version, as that
/// version, and nothing else.
#[verifier::external_body]
fn parse_semver(text: &str) -> (result: Option<Version>)
    ensures
        result matches Some(version) ==> is_version(version@) && version_text(version@) == text@,
        forall|version: VersionParts|
            is_version(version) && text@ == #[trigger] version_text(version) ==> version_view(
                result,
            ) == Some(version),
{
    semver::Version::parse(text).ok().map(|version| Version {
        major: version.major,
        minor: version.minor,
        patch: version.patch,
        pre: version.pre.as_str().to_owned(),
        build: version.build.as_str().to_owned(),
    })
}

/// Whether two versions are the same, pre-release and build metadata included.
pub fn same_version(a: &Version, b: &Version) -> (result: bool)
    ensures
        result == (a@ == b@),
{
    let result = a.major == b.major && a.minor == b.minor && a.patch == b.patch && same_text(
        a.pre.as_str(),
        b.pre.as_str(),
    ) && same_text(a.build.as_str(), b.build.as_str());
    assert(result == (a@ =~= b@));
    result
}

impl Version {
    /// A release.
    pub fn new(major: u64, minor: u64, patch: u64) -> (result: Version)
        ensures
            result@ == release(major, minor, patch),
    {
        let result = Version { major, minor, patch, pre: String::new(), build: String::new() };
        assert(result@ =~= release(major, minor, patch));
        result
    }

    /// Reads a version from its text.
    pub fn parse(text: &str) -> (result: Option<Version>)
        ensures
            version_view(result) == semver_of(text@),
            result matches Some(version) ==> is_version(version@) && version_text(version@)
                == text@,
            forall|version: VersionParts|
                is_version(version) && text@ == #[trigger] version_text(version) ==> version_view(
                    result,
                ) == Some(version),
            forall|major: u64, minor: u64, patch: u64|
                text@ == #[trigger] number_text(major, minor, patch) ==> version_view(result)
                    == Some(release(major, minor, patch)),
    {
        assert forall|major: u64, minor: u64, patch: u64| #[trigger]
            number_text(major, minor, patch) == version_text(release(major, minor, patch)) by {
            assert(version_text(release(major, minor, patch)) =~= number_text(major, minor, patch));
        }
        parse_semver(text)
    }

    /// The same version once more.
    pub fn copy(&self) -> (result: Version)
        ensures
            result@ == self@,
    {
        Version {
            major: self.major,
            minor: self.minor,
            patch: self.patch,
            pre: self.pre.clone(),
            build: self.build.clone(),
        }
    }

    /// The version as text.
    pub fn text(&self) -> (result: String)
        ensures
            result@ == version_text(self@),
    {
        let mut result = String::new();
        push_number(&mut result, self.major);
        push_text(&mut result, ".");
        push_number(&mut result, self.minor);
        push_text(&mut result, ".");
        push_number(&mut result, self.patch);
        assert(result@ =~= number_text(self.major, self.minor, self.patch));
        if to_chars(self.pre.as_str()).len() > 0 {
            push_text(&mut result, "-");
            push_text(&mut result, self.pre.as_str());
        }
        if to_chars(self.build.as_str()).len() > 0 {
            push_text(&mut result, "+");
            push_text(&mut result, self.build.as_str());
        }
        assert(result@ =~= version_text(self@));
        result
    }
}

/// Whether the numbers of one version are greater than those of another. Pre-releases and build
/// metadata do not count: a candidate is not told that the release it is a candidate for is newer.
pub open spec fn newer(latest: VersionParts, current: VersionParts) -> bool {
    ||| latest.major > current.major
    ||| latest.major == current.major && latest.minor > current.minor
    ||| latest.major == current.major && latest.minor == current.minor && latest.patch
        > current.patch
}

/// Whether a release is newer than the running version. Pre-releases and build metadata do not
/// count: a candidate is not told that the release it is a candidate for is newer.
pub fn is_newer(latest: &Version, current: &Version) -> (result: bool)
    ensures
        result == newer(latest@, current@),
{
    if latest.major != current.major {
        latest.major > current.major
    } else if latest.minor != current.minor {
        latest.minor > current.minor
    } else {
        latest.patch > current.patch
    }
}

/// The version that a tag names, where it is the tag of a release.
pub open spec fn tag_version(tag: Seq<char>) -> Option<VersionParts> {
    if starts_with(tag, RELEASE_TAG_PREFIX@) {
        semver_of(tag.skip(RELEASE_TAG_PREFIX@.len() as int))
    } else {
        None
    }
}

/// Turns `suzuri-v1.18.0` into `1.18.0`.
pub fn parse_release_version(tag_name: &str) -> (result: Option<Version>)
    ensures
        version_view(result) == tag_version(tag_name@),
        result matches Some(version) ==> is_version(version@) && tag_name@ == RELEASE_TAG_PREFIX@
            + version_text(version@),
        forall|version: VersionParts|
            is_version(version) && tag_name@ == RELEASE_TAG_PREFIX@ + #[trigger] version_text(
                version,
            ) ==> version_view(result) == Some(version),
        forall|major: u64, minor: u64, patch: u64|
            tag_name@ == RELEASE_TAG_PREFIX@ + #[trigger] number_text(major, minor, patch)
                ==> version_view(result) == Some(release(major, minor, patch)),
{
    let tag = to_chars(tag_name);
    let prefix = to_chars(RELEASE_TAG_PREFIX);
    let length: usize = prefix.len();
    if !has_prefix(tag.as_slice(), prefix.as_slice()) {
        assert forall|major: u64, minor: u64, patch: u64|
            tag_name@ == RELEASE_TAG_PREFIX@ + #[trigger] number_text(
                major,
                minor,
                patch,
            ) implies false by {
            assert((RELEASE_TAG_PREFIX@ + number_text(major, minor, patch)).take(length as int)
                =~= RELEASE_TAG_PREFIX@);
            assert(starts_with(tag_name@, RELEASE_TAG_PREFIX@));
        }
        assert forall|version: VersionParts|
            tag_name@ == RELEASE_TAG_PREFIX@ + #[trigger] version_text(version) implies false by {
            assert((RELEASE_TAG_PREFIX@ + version_text(version)).take(length as int)
                =~= RELEASE_TAG_PREFIX@);
            assert(starts_with(tag_name@, RELEASE_TAG_PREFIX@));
        }
        return None;
    }
    let rest = string_of(&tag.as_slice()[length..tag.len()]);
    assert(rest@ =~= tag_name@.skip(length as int));
    assert forall|major: u64, minor: u64, patch: u64|
        tag_name@ == RELEASE_TAG_PREFIX@ + #[trigger] number_text(
            major,
            minor,
            patch,
        ) implies rest@ == number_text(major, minor, patch) by {
        assert(rest@ =~= number_text(major, minor, patch));
    }
    assert forall|version: VersionParts|
        tag_name@ == RELEASE_TAG_PREFIX@ + #[trigger] version_text(version) implies rest@
        == version_text(version) by {
        assert(rest@ =~= version_text(version));
    }
    let result = Version::parse(rest.as_str());
    assert(result matches Some(version) ==> tag_name@ =~= RELEASE_TAG_PREFIX@ + version_text(
        version@,
    ));
    result
}

// ---------------------------------------------------------------------------------------------
// Releases
// ---------------------------------------------------------------------------------------------

/// A file that is attached to a release.
#[derive(Debug)]
pub struct GithubReleaseAsset {
    pub name: String,
    pub browser_download_url: String,
    pub digest: Option<String>,
}

/// A release of the repository.
#[derive(Debug)]
pub struct GithubRelease {
    pub tag_name: String,
    pub pre_release: bool,
    pub assets: Vec<GithubReleaseAsset>,
    pub tarball_url: String,
    pub zipball_url: String,
}

/// The address of the page of a release.
pub open spec fn page_of(tag: Seq<char>) -> Seq<char> {
    "https://github.com/"@ + RELEASE_REPOSITORY@ + "/releases/tag/"@ + tag
}

/// The address of the page of the newest release.
pub open spec fn newest_page() -> Seq<char> {
    "https://github.com/"@ + RELEASE_REPOSITORY@ + "/releases/latest"@
}

/// Whether a file is the one to download on this system: a disk image for the processor on macOS,
/// an installer on Windows.
pub open spec fn suits(name: Seq<char>, os: Seq<char>, arch: Seq<char>) -> bool {
    if os == "macos"@ {
        ends_with(name, ".dmg"@) && has_part(name, arch)
    } else if os == "windows"@ {
        ends_with(name, ".exe"@) && has_part(name, "windows"@)
    } else {
        false
    }
}

/// The address of the first file from index `i` on that is the one to download on this system.
pub open spec fn download_from(
    assets: Seq<GithubReleaseAsset>,
    os: Seq<char>,
    arch: Seq<char>,
    i: int,
) -> Option<Seq<char>>
    decreases assets.len() - i,
{
    if i < 0 || i >= assets.len() {
        None
    } else if suits(assets[i].name@, os, arch) {
        Some(assets[i].browser_download_url@)
    } else {
        download_from(assets, os, arch, i + 1)
    }
}

/// The address of the page of a release.
pub fn release_page_url(tag_name: &str) -> (result: String)
    ensures
        result@ == page_of(tag_name@),
{
    let mut result = String::new();
    push_text(&mut result, "https://github.com/");
    push_text(&mut result, RELEASE_REPOSITORY);
    push_text(&mut result, "/releases/tag/");
    push_text(&mut result, tag_name);
    assert(result@ =~= page_of(tag_name@));
    result
}

/// The address of the page of the newest release.
pub fn latest_release_url() -> (result: String)
    ensures
        result@ == newest_page(),
{
    let mut result = String::new();
    push_text(&mut result, "https://github.com/");
    push_text(&mut result, RELEASE_REPOSITORY);
    push_text(&mut result, "/releases/latest");
    assert(result@ =~= newest_page());
    result
}

fn asset_suits(name: &str, os: &str, arch: &str) -> (result: bool)
    ensures
        result == suits(name@, os@, arch@),
{
    let chars = to_chars(name);
    if same_text(os, "macos") {
        let image = to_chars(".dmg");
        let arch = to_chars(arch);
        has_suffix(chars.as_slice(), image.as_slice()) && contains_part(
            chars.as_slice(),
            arch.as_slice(),
        )
    } else if same_text(os, "windows") {
        let installer = to_chars(".exe");
        let windows = to_chars("windows");
        has_suffix(chars.as_slice(), installer.as_slice()) && contains_part(
            chars.as_slice(),
            windows.as_slice(),
        )
    } else {
        false
    }
}

/// The address of the file to download on this system. Files are told apart by the shape of their
/// names, so that one with another name leads to the page of the release and not astray.
pub fn download_url_for_host<'a>(release: &'a GithubRelease, os: &str, arch: &str) -> (result:
    Option<&'a str>)
    ensures
        match result {
            Some(url) => download_from(release.assets@, os@, arch@, 0) == Some(url@),
            None => download_from(release.assets@, os@, arch@, 0) is None,
        },
{
    let mut i: usize = 0;
    while i < release.assets.len()
        invariant
            i <= release.assets@.len(),
            download_from(release.assets@, os@, arch@, 0) == download_from(
                release.assets@,
                os@,
                arch@,
                i as int,
            ),
        decreases release.assets@.len() - i,
    {
        if asset_suits(release.assets[i].name.as_str(), os, arch) {
            return Some(release.assets[i].browser_download_url.as_str());
        }
        i += 1;
    }
    None
}

// ---------------------------------------------------------------------------------------------
// Checks
// ---------------------------------------------------------------------------------------------

/// Who asked for a check.
#[derive(Clone, Copy, Debug, PartialEq, Eq, Structural)]
pub enum CheckKind {
    /// The user, who is told the outcome either way.
    Manual,
    /// The clock: nothing is said unless there is something to install.
    Automatic,
}

/// What a check finds.
#[derive(Debug, PartialEq, Eq)]
pub enum CheckOutcome {
    UpToDate,
    UpdateAvailable { version: Version, download_url: String, release_url: String },
}

/// What a [`CheckOutcome`] holds.
pub enum Outcome {
    UpToDate,
    UpdateAvailable { version: VersionParts, download_url: Seq<char>, release_url: Seq<char> },
}

impl View for CheckOutcome {
    type V = Outcome;

    open spec fn view(&self) -> Outcome {
        match self {
            CheckOutcome::UpToDate => Outcome::UpToDate,
            CheckOutcome::UpdateAvailable { version, download_url, release_url } =>
                Outcome::UpdateAvailable {
                version: version@,
                download_url: download_url@,
                release_url: release_url@,
            },
        }
    }
}

/// Why a check found nothing out.
#[derive(Debug)]
pub enum CheckError {
    /// GitHub could not be asked; the reason is given.
    Unreachable { reason: String },
    /// The newest release has a tag that names no version of Suzuri.
    ForeignTag { tag_name: String },
}

/// What a [`CheckError`] holds.
pub enum Failure {
    Unreachable { reason: Seq<char> },
    ForeignTag { tag_name: Seq<char> },
}

impl View for CheckError {
    type V = Failure;

    open spec fn view(&self) -> Failure {
        match self {
            CheckError::Unreachable { reason } => Failure::Unreachable { reason: reason@ },
            CheckError::ForeignTag { tag_name } => Failure::ForeignTag { tag_name: tag_name@ },
        }
    }
}

/// What a check finds where the tag of the newest release names `latest`.
pub open spec fn outcome_of(
    release: GithubRelease,
    latest: VersionParts,
    current: VersionParts,
    os: Seq<char>,
    arch: Seq<char>,
) -> Outcome {
    if newer(latest, current) {
        let release_url = page_of(release.tag_name@);
        Outcome::UpdateAvailable {
            version: latest,
            download_url: match download_from(release.assets@, os, arch, 0) {
                Some(url) => url,
                None => release_url,
            },
            release_url,
        }
    } else {
        Outcome::UpToDate
    }
}

/// What a check finds, given the version that the newest release's tag names. A release for which
/// there is no file for this system is offered through its page.
pub fn decide_outcome(
    release: &GithubRelease,
    latest: Version,
    current: &Version,
    os: &str,
    arch: &str,
) -> (result: CheckOutcome)
    ensures
        result@ == outcome_of(*release, latest@, current@, os@, arch@),
{
    if !is_newer(&latest, current) {
        return CheckOutcome::UpToDate;
    }
    let release_url = release_page_url(release.tag_name.as_str());
    let download_url = match download_url_for_host(release, os, arch) {
        Some(url) => url.to_owned(),
        None => release_url.clone(),
    };
    CheckOutcome::UpdateAvailable { version: latest, download_url, release_url }
}

/// What a check finds, given the newest release or why it could not be fetched.
pub fn fetch_outcome(
    fetched: Result<GithubRelease, String>,
    current: &Version,
    os: &str,
    arch: &str,
) -> (result: Result<CheckOutcome, CheckError>)
    ensures
        match fetched {
            Ok(release) => match tag_version(release.tag_name@) {
                Some(latest) => result is Ok && (result->Ok_0)@ == outcome_of(
                    release,
                    latest,
                    current@,
                    os@,
                    arch@,
                ),
                None => result is Err && (result->Err_0)@ == (Failure::ForeignTag {
                    tag_name: release.tag_name@,
                }),
            },
            Err(reason) => result is Err && (result->Err_0)@ == (Failure::Unreachable {
                reason: reason@,
            }),
        },
{
    match fetched {
        Ok(release) => match parse_release_version(release.tag_name.as_str()) {
            Some(latest) => Ok(decide_outcome(&release, latest, current, os, arch)),
            None => Err(CheckError::ForeignTag { tag_name: release.tag_name }),
        },
        Err(reason) => Err(CheckError::Unreachable { reason }),
    }
}

// ---------------------------------------------------------------------------------------------
// Words
// ---------------------------------------------------------------------------------------------

/// What `{:?}` writes for a text: the text in double quotes, with escapes.
pub uninterp spec fn quoted_text(text: Seq<char>) -> Seq<char>;

/// Whether a character is written as it is within double quotes.
pub open spec fn is_plain(c: char) -> bool {
    ' ' <= c <= '~' && c != '"' && c != '\\'
}

/// Formatting a text with `{:?}` puts it in double quotes and escapes what cannot stand there, by
/// the text alone. Printable ASCII other than the quote and the backslash stays as it is.
#[verifier::external_body]
fn quoted(text: &str) -> (result: String)
    ensures
        result@ == quoted_text(text@),
        is_plain_text(text@) ==> result@ == "\""@ + text@ + "\""@,
{
    format!("{:?}", text)
}

/// Whether every character of a text is written as it is within double quotes.
pub open spec fn is_plain_text(text: Seq<char>) -> bool {
    forall|i: int| 0 <= i < text.len() ==> is_plain(#[trigger] text[i])
}

/// What is said of a release whose tag is written as `quoted_tag`.
pub open spec fn foreign_tag_text(quoted_tag: Seq<char>) -> Seq<char> {
    "the newest release of "@ + RELEASE_REPOSITORY@ + " is tagged "@ + quoted_tag
        + ", which is not a "@ + RELEASE_TAG_PREFIX@ + "<version> tag"@
}

/// What is said of a failed check: what went wrong, without the reason behind it.
pub open spec fn failure_text(failure: Failure) -> Seq<char> {
    match failure {
        Failure::Unreachable { reason } =>
            "could not reach GitHub to look for a newer Suzuri release"@,
        Failure::ForeignTag { tag_name } => foreign_tag_text(quoted_text(tag_name)),
    }
}

/// What is logged of a failed check: what went wrong, with the reason behind it.
pub open spec fn full_failure_text(failure: Failure) -> Seq<char> {
    match failure {
        Failure::Unreachable { reason } => failure_text(failure) + ": "@ + reason,
        Failure::ForeignTag { tag_name } => failure_text(failure),
    }
}

impl CheckError {
    /// What went wrong, without the reason behind it.
    pub fn message(&self) -> (result: String)
        ensures
            result@ == failure_text(self@),
            self@ matches Failure::ForeignTag { tag_name } ==> (is_plain_text(tag_name) ==> result@
                == foreign_tag_text("\""@ + tag_name + "\""@)),
    {
        match self {
            CheckError::Unreachable { reason } =>
                "could not reach GitHub to look for a newer Suzuri release".to_owned(),
            CheckError::ForeignTag { tag_name } => {
                let mut result = String::new();
                push_text(&mut result, "the newest release of ");
                push_text(&mut result, RELEASE_REPOSITORY);
                push_text(&mut result, " is tagged ");
                push_text(&mut result, quoted(tag_name.as_str()).as_str());
                push_text(&mut result, ", which is not a ");
                push_text(&mut result, RELEASE_TAG_PREFIX);
                push_text(&mut result, "<version> tag");
                assert(result@ =~= failure_text(self@));
                result
            },
        }
    }

    /// What went wrong, with the reason behind it.
    pub fn full_message(&self) -> (result: String)
        ensures
            result@ == full_failure_text(self@),
            self@ matches Failure::ForeignTag { tag_name } ==> (is_plain_text(tag_name) ==> result@
                == foreign_tag_text("\""@ + tag_name + "\""@)),
    {
        let mut result = self.message();
        if let CheckError::Unreachable { reason } = self {
            push_text(&mut result, ": ");
            push_text(&mut result, reason.as_str());
        }
        assert(result@ =~= full_failure_text(self@));
        result
    }
}

/// What is said where a newer release is out.
pub fn update_available_message(version: &Version) -> (result: String)
    ensures
        result@ == "Suzuri "@ + version_text(version@) + " is available"@,
{
    let mut result = String::new();
    push_text(&mut result, "Suzuri ");
    push_text(&mut result, version.text().as_str());
    push_text(&mut result, " is available");
    assert(result@ =~= "Suzuri "@ + version_text(version@) + " is available"@);
    result
}

/// What is said where no newer release is out.
pub fn up_to_date_message(current: &Version) -> (result: String)
    ensures
        result@ == "Suzuri "@ + version_text(current@) + " is up to date"@,
{
    let mut result = String::new();
    push_text(&mut result, "Suzuri ");
    push_text(&mut result, current.text().as_str());
    push_text(&mut result, " is up to date");
    assert(result@ =~= "Suzuri "@ + version_text(current@) + " is up to date"@);
    result
}

/// What is said where a check failed.
pub fn check_failed_message(error: &CheckError) -> (result: String)
    ensures
        result@ == "Couldn't check for Suzuri updates: "@ + failure_text(error@),
        error@ matches Failure::ForeignTag { tag_name } ==> (is_plain_text(tag_name) ==> result@
            == "Couldn't check for Suzuri updates: "@ + foreign_tag_text(
            "\""@ + tag_name + "\""@,
        )),
{
    let mut result = String::new();
    push_text(&mut result, "Couldn't check for Suzuri updates: ");
    push_text(&mut result, error.message().as_str());
    assert(result@ =~= "Couldn't check for Suzuri updates: "@ + failure_text(error@));
    result
}

// ---------------------------------------------------------------------------------------------
// The checker
// ---------------------------------------------------------------------------------------------

/// Whether updates are checked for at all.
#[derive(Clone, Copy, Debug)]
pub struct UpdateCheckSetting(pub bool);

impl UpdateCheckSetting {
    /// Takes the setting over, which always has a value.
    pub fn from_settings(auto_update: Option<bool>) -> (result: Self)
        requires
            auto_update is Some,
        ensures
            auto_update == Some(result.0),
    {
        match auto_update {
            Some(enabled) => UpdateCheckSetting(enabled),
            None => UpdateCheckSetting(false),
        }
    }
}

/// What to do about the task that checks from time to time.
#[derive(Clone, Copy, Debug, PartialEq, Eq, Structural)]
pub enum PollChange {
    Start,
    Stop,
    Keep,
}

/// What a check shows.
#[derive(Debug)]
pub enum Notice {
    Nothing,
    /// A message with nothing to press.
    Message { message: String },
    /// A message with a button that opens an address, and for a new release one that opens its
    /// page.
    Links { message: String, primary: Link, secondary: Option<Link> },
}

/// A button that opens an address.
#[derive(Debug)]
pub struct Link {
    pub label: String,
    pub url: String,
}

/// What a [`Notice`] holds, each link as its label and its address.
pub enum Shown {
    Nothing,
    Message { message: Seq<char> },
    Links {
        message: Seq<char>,
        primary: (Seq<char>, Seq<char>),
        secondary: Option<(Seq<char>, Seq<char>)>,
    },
}

impl View for Link {
    type V = (Seq<char>, Seq<char>);

    open spec fn view(&self) -> (Seq<char>, Seq<char>) {
        (self.label@, self.url@)
    }
}

impl View for Notice {
    type V = Shown;

    open spec fn view(&self) -> Shown {
        match self {
            Notice::Nothing => Shown::Nothing,
            Notice::Message { message } => Shown::Message { message: message@ },
            Notice::Links { message, primary, secondary } => Shown::Links {
                message: message@,
                primary: primary@,
                secondary: match secondary {
                    Some(link) => Some(link@),
                    None => None,
                },
            },
        }
    }
}

/// What the checker knows: the running version, the version that was last announced, and whether
/// it checks from time to time.
#[verifier::ext_equal]
pub struct CheckerState {
    pub current: VersionParts,
    pub notified: Option<VersionParts>,
    pub polling: bool,
}

/// What a check's outcome shows, and the version that is then the last to have been announced. A
/// check by the clock does not announce the same release twice in a row.
pub open spec fn shown_for(state: CheckerState, kind: CheckKind, outcome: Outcome) -> (
    Shown,
    Option<VersionParts>,
) {
    match outcome {
        Outcome::UpToDate => (
            if kind == CheckKind::Manual {
                Shown::Message {
                    message: "Suzuri "@ + version_text(state.current) + " is up to date"@,
                }
            } else {
                Shown::Nothing
            },
            state.notified,
        ),
        Outcome::UpdateAvailable { version, download_url, release_url } => if kind
            == CheckKind::Automatic && state.notified == Some(version) {
            (Shown::Nothing, state.notified)
        } else {
            (
                Shown::Links {
                    message: "Suzuri "@ + version_text(version) + " is available"@,
                    primary: ("Download"@, download_url),
                    secondary: Some(("Release Notes"@, release_url)),
                },
                Some(version),
            )
        },
    }
}

/// What a failed check shows: nothing, unless the user asked for it.
pub open spec fn shown_for_failure(kind: CheckKind, failure: Failure) -> Shown {
    if kind == CheckKind::Manual {
        Shown::Links {
            message: "Couldn't check for Suzuri updates: "@ + failure_text(failure),
            primary: ("View Releases"@, newest_page()),
            secondary: None,
        }
    } else {
        Shown::Nothing
    }
}

/// Decides when to check for updates and what to say about them.
pub struct UpdateChecker {
    current_version: Version,
    last_notified_version: Option<Version>,
    polling: bool,
}

impl View for UpdateChecker {
    type V = CheckerState;

    closed spec fn view(&self) -> CheckerState {
        CheckerState {
            current: self.current_version@,
            notified: version_view(self.last_notified_version),
            polling: self.polling,
        }
    }
}

impl UpdateChecker {
    /// A checker for this running version, which has announced nothing and does not check yet.
    pub fn new(current_version: Version) -> (result: UpdateChecker)
        ensures
            result@ == (CheckerState {
                current: current_version@,
                notified: None,
                polling: false,
            }),
    {
        UpdateChecker { current_version, last_notified_version: None, polling: false }
    }

    /// The running version.
    pub fn current_version(&self) -> (result: &Version)
        ensures
            result@ == self@.current,
    {
        &self.current_version
    }

    /// Starts or stops the task that checks from time to time: it runs where the setting is on and
    /// checks are not disabled by the environment.
    pub fn sync_polling(&mut self, disabled: bool, setting: UpdateCheckSetting) -> (result:
        PollChange)
        ensures
            final(self)@ == (CheckerState { polling: !disabled && setting.0, ..old(self)@ }),
            result == if disabled || !setting.0 {
                PollChange::Stop
            } else if old(self)@.polling {
                PollChange::Keep
            } else {
                PollChange::Start
            },
    {
        if disabled || !setting.0 {
            self.polling = false;
            return PollChange::Stop;
        }
        if self.polling {
            return PollChange::Keep;
        }
        self.polling = true;
        PollChange::Start
    }

    /// Takes note of a check's outcome. Returns what to show: the user is always answered, and a
    /// check by the clock announces a release once.
    pub fn perform_check(&mut self, kind: CheckKind, outcome: CheckOutcome) -> (result: Notice)
        ensures
            (result@, final(self)@.notified) == shown_for(old(self)@, kind, outcome@),
            final(self)@.current == old(self)@.current,
            final(self)@.polling == old(self)@.polling,
    {
        match outcome {
            CheckOutcome::UpToDate => if kind == CheckKind::Manual {
                Notice::Message { message: up_to_date_message(&self.current_version) }
            } else {
                Notice::Nothing
            },
            CheckOutcome::UpdateAvailable { version, download_url, release_url } => {
                let announced = match &self.last_notified_version {
                    Some(last) => same_version(last, &version),
                    None => false,
                };
                if kind == CheckKind::Automatic && announced {
                    return Notice::Nothing;
                }
                let message = update_available_message(&version);
                self.last_notified_version = Some(version);
                Notice::Links {
                    message,
                    primary: Link { label: "Download".to_owned(), url: download_url },
                    secondary: Some(Link { label: "Release Notes".to_owned(), url: release_url }),
                }
            },
        }
    }

    /// Runs a check to its end, given what was fetched.
    pub fn check(
        &mut self,
        kind: CheckKind,
        fetched: Result<GithubRelease, String>,
        os: &str,
        arch: &str,
    ) -> (result: Notice)
        ensures
            final(self)@.current == old(self)@.current,
            final(self)@.polling == old(self)@.polling,
            match fetched {
                Ok(release) => match tag_version(release.tag_name@) {
                    Some(latest) => (result@, final(self)@.notified) == shown_for(
                        old(self)@,
                        kind,
                        outcome_of(release, latest, old(self)@.current, os@, arch@),
                    ),
                    None => final(self)@.notified == old(self)@.notified && result@
                        == shown_for_failure(
                        kind,
                        Failure::ForeignTag { tag_name: release.tag_name@ },
                    ),
                },
                Err(reason) => final(self)@.notified == old(self)@.notified && result@
                    == shown_for_failure(kind, Failure::Unreachable { reason: reason@ }),
            },
    {
        match fetch_outcome(fetched, &self.current_version, os, arch) {
            Ok(outcome) => self.perform_check(kind, outcome),
            Err(error) => failure_notice(kind, &error),
        }
    }
}

/// What a failed check shows: nothing, unless the user asked for it.
pub fn failure_notice(kind: CheckKind, error: &CheckError) -> (result: Notice)
    ensures
        result@ == shown_for_failure(kind, error@),
{
    if kind == CheckKind::Manual {
        Notice::Links {
            message: check_failed_message(error),
            primary: Link { label: "View Releases".to_owned(), url: latest_release_url() },
            secondary: None,
        }
    } else {
        Notice::Nothing
    }
}

/// How many seconds to wait before the next check, given how many have been made.
pub fn poll_delay(checks: u64) -> (result: u64)
    ensures
        result == if checks == 0 {
            INITIAL_POLL_DELAY
        } else {
            POLL_INTERVAL
        },
{
    if checks == 0 {
        INITIAL_POLL_DELAY
    } else {
        POLL_INTERVAL
    }
}

/// The checker for the running build.
pub fn init() -> (result: Option<UpdateChecker>)
    ensures
        result is Some,
        (result->0)@ == (CheckerState {
            current: release(0, 4, 3),
            notified: None,
            polling: false,
        }),
{
    proof {
        reveal_strlit("0.4.3");
        reveal_strlit(".");
        assert(SUZURI_VERSION@ =~= number_text(0, 4, 3)) by {
            assert(decimal(0) == seq!['0']);
            assert(decimal(4) == seq!['4']);
            assert(decimal(3) == seq!['3']);
        }
    }
    match Version::parse(SUZURI_VERSION) {
        Some(version) => Some(UpdateChecker::new(version)),
        None => None,
    }
}

// ---------------------------------------------------------------------------------------------
// Laws
// ---------------------------------------------------------------------------------------------

/// Being newer is a strict order on the numbers of versions: no version is newer than itself, of
/// two with different numbers exactly one is newer, and what is newer than a newer one is newer.
pub proof fn law_newer_is_a_strict_order(a: VersionParts, b: VersionParts, c: VersionParts)
    ensures
        !newer(a, a),
        newer(a, b) ==> !newer(b, a),
        !newer(a, b) && !newer(b, a) ==> a.major == b.major && a.minor == b.minor && a.patch
            == b.patch,
        newer(a, b) && newer(b, c) ==> newer(a, c),
{
}

/// Pre-releases and build metadata never decide whether a version is newer: a candidate is not told
/// that the release it is a candidate for is an update.
pub proof fn law_only_the_numbers_decide(latest: VersionParts, current: VersionParts)
    ensures
        newer(latest, current) == newer(
            release(latest.major, latest.minor, latest.patch),
            release(current.major, current.minor, current.patch),
        ),
        !newer(release(current.major, current.minor, current.patch), current),
{
}

/// A release is announced only where it is newer than the running version.
pub proof fn law_only_a_newer_release_is_announced(
    state: CheckerState,
    kind: CheckKind,
    release: GithubRelease,
    latest: VersionParts,
    os: Seq<char>,
    arch: Seq<char>,
)
    ensures
        shown_for(state, kind, outcome_of(release, latest, state.current, os, arch)).0 is Links
            ==> newer(latest, state.current),
{
}

/// Once a release has been announced, a check by the clock that finds it again says nothing.
pub proof fn law_a_release_is_announced_once(
    state: CheckerState,
    kind: CheckKind,
    outcome: Outcome,
)
    requires
        outcome is UpdateAvailable,
    ensures
        ({
            let (_, notified) = shown_for(state, kind, outcome);
            let later = CheckerState { notified, ..state };
            shown_for(later, CheckKind::Automatic, outcome) == (Shown::Nothing, notified)
        }),
{
}

/// A check that the user asked for is answered, whatever it finds and also where it fails.
pub proof fn law_a_manual_check_is_answered(
    state: CheckerState,
    outcome: Outcome,
    failure: Failure,
)
    ensures
        shown_for(state, CheckKind::Manual, outcome).0 !is Nothing,
        shown_for_failure(CheckKind::Manual, failure) !is Nothing,
        shown_for_failure(CheckKind::Automatic, failure) is Nothing,
{
}

} // verus!
