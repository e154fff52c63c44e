//! Which release is announced, what is said of it, and which of its files is offered.

use crate::update::{
    download_from, failure_text, full_failure_text, newer, newest_page, outcome_of, page_of,
    shown_for, shown_for_failure, suits, tag_version, version_text, CheckKind, CheckerState,
    Failure, GithubRelease, GithubReleaseAsset, Shown, VersionParts,
};
use crate::text::has_part;
use vstd::prelude::*;

verus! {

/// The greater number is the newer version: the major number first, then the minor one, then the
/// patch.
pub proof fn law_the_greater_number_is_newer(a: VersionParts, b: VersionParts)
    ensures
        a.major > b.major ==> newer(a, b) && !newer(b, a),
        a.major == b.major && a.minor > b.minor ==> newer(a, b) && !newer(b, a),
        a.major == b.major && a.minor == b.minor && a.patch > b.patch ==> newer(a, b) && !newer(b, a),
        a.major == b.major && a.minor == b.minor && a.patch == b.patch ==> !newer(a, b),
{
}

/// The tag of a release is `suzuri-v` and its version, and no other tag names one.
pub proof fn law_a_tag_has_its_prefix(tag: Seq<char>)
    requires
        tag_version(tag) is Some,
    ensures
        tag == seq!['s', 'u', 'z', 'u', 'r', 'i', '-', 'v'] + version_text(tag_version(tag)->0),
{
    reveal_strlit("suzuri-v");
    let prefix = seq!['s', 'u', 'z', 'u', 'r', 'i', '-', 'v'];
    assert("suzuri-v"@ =~= prefix);
    assert(tag =~= tag.take(8) + tag.skip(8));
}

/// A file is offered on macOS where it is a disk image whose name has the processor in it.
pub proof fn law_a_disk_image_is_for_its_processor(
    before: Seq<char>,
    arch: Seq<char>,
    after: Seq<char>,
    name: Seq<char>,
)
    ensures
        suits(before + arch + after + seq!['.', 'd', 'm', 'g'], "macos"@, arch),
        suits(name, "macos"@, arch) ==> has_part(name, arch) && name.len() >= 4 && name.skip(
            name.len() - 4,
        ) == seq!['.', 'd', 'm', 'g'],
{
    reveal_strlit(".dmg");
    assert(".dmg"@ =~= seq!['.', 'd', 'm', 'g']);
    let full = before + arch + after + seq!['.', 'd', 'm', 'g'];
    assert(full.skip(full.len() - 4) =~= ".dmg"@);
    let i = before.len() as int;
    assert(full.subrange(i, i + arch.len()) =~= arch);
}

/// A file is offered on Windows where it is a program whose name says so.
pub proof fn law_an_installer_is_for_windows(
    before: Seq<char>,
    after: Seq<char>,
    name: Seq<char>,
    arch: Seq<char>,
)
    ensures
        suits(before + "windows"@ + after + seq!['.', 'e', 'x', 'e'], "windows"@, arch),
        suits(name, "windows"@, arch) ==> has_part(name, "windows"@) && name.len() >= 4
            && name.skip(name.len() - 4) == seq!['.', 'e', 'x', 'e'],
{
    reveal_strlit(".exe");
    reveal_strlit("windows");
    reveal_strlit("macos");
    assert("windows"@.len() != "macos"@.len());
    assert(".exe"@ =~= seq!['.', 'e', 'x', 'e']);
    let full = before + "windows"@ + after + seq!['.', 'e', 'x', 'e'];
    assert(full.skip(full.len() - 4) =~= ".exe"@);
    let i = before.len() as int;
    assert(full.subrange(i, i + "windows"@.len()) =~= "windows"@);
}

/// No file is offered on any other system.
pub proof fn law_other_systems_are_offered_no_file(name: Seq<char>, os: Seq<char>, arch: Seq<char>)
    requires
        os != "macos"@,
        os != "windows"@,
    ensures
        !suits(name, os, arch),
{
}

/// The first file that suits a system is offered there.
pub proof fn law_the_first_file_that_suits_is_offered(
    assets: Seq<GithubReleaseAsset>,
    os: Seq<char>,
    arch: Seq<char>,
    from: int,
)
    requires
        0 <= from,
    ensures
        forall|k: int|
            from <= k < assets.len() && suits((#[trigger] assets[k]).name@, os, arch) && (forall|
                m: int,
            |
                from <= m < k ==> !suits((#[trigger] assets[m]).name@, os, arch)) ==> download_from(
                assets,
                os,
                arch,
                from,
            ) == Some(assets[k].browser_download_url@),
        (forall|m: int|
            from <= m < assets.len() ==> !suits((#[trigger] assets[m]).name@, os, arch))
            ==> download_from(assets, os, arch, from) is None,
    decreases assets.len() - from,
{
    if from < assets.len() && !suits(assets[from].name@, os, arch) {
        law_the_first_file_that_suits_is_offered(assets, os, arch, from + 1);
    }
}

/// A newer release that was not announced yet is announced, with its file for this system, or with
/// its page where it has none, and is then the last that was announced.
pub proof fn law_a_newer_release_is_announced(
    state: CheckerState,
    kind: CheckKind,
    release: GithubRelease,
    latest: VersionParts,
    os: Seq<char>,
    arch: Seq<char>,
)
    requires
        newer(latest, state.current),
        kind == CheckKind::Manual || state.notified != Some(latest),
    ensures
        ({
            let (shown, notified) = shown_for(
                state,
                kind,
                outcome_of(release, latest, state.current, os, arch),
            );
            let file = download_from(release.assets@, os, arch, 0);
            let page = page_of(release.tag_name@);
            &&& notified == Some(latest)
            &&& shown == (Shown::Links {
                message: "Suzuri "@ + version_text(latest) + " is available"@,
                primary: (
                    "Download"@,
                    if file is Some {
                        file->0
                    } else {
                        page
                    },
                ),
                secondary: Some(("Release Notes"@, page)),
            })
        }),
{
}

/// Where no newer release is found, the user is told which version is up to date, and a check by the
/// clock says nothing. What was announced last stays.
pub proof fn law_an_up_to_date_version_is_named(
    state: CheckerState,
    release: GithubRelease,
    latest: VersionParts,
    os: Seq<char>,
    arch: Seq<char>,
)
    requires
        !newer(latest, state.current),
    ensures
        ({
            let outcome = outcome_of(release, latest, state.current, os, arch);
            &&& shown_for(state, CheckKind::Manual, outcome) == (
                Shown::Message {
                    message: "Suzuri "@ + version_text(state.current) + " is up to date"@,
                },
                state.notified,
            )
            &&& shown_for(state, CheckKind::Automatic, outcome) == (Shown::Nothing, state.notified)
        }),
{
}

/// The page of a release is that of its tag in the project's repository.
pub proof fn law_a_release_has_its_page(tag: Seq<char>)
    ensures
        page_of(tag) == "https://github.com/harrywang/suzuri/releases/tag/"@ + tag,
        newest_page() == "https://github.com/harrywang/suzuri/releases/latest"@,
{
    reveal_strlit("https://github.com/");
    reveal_strlit("harrywang/suzuri");
    reveal_strlit("/releases/tag/");
    reveal_strlit("/releases/latest");
    reveal_strlit("https://github.com/harrywang/suzuri/releases/tag/");
    reveal_strlit("https://github.com/harrywang/suzuri/releases/latest");
    assert(page_of(tag) =~= "https://github.com/harrywang/suzuri/releases/tag/"@ + tag);
    assert(newest_page() =~= "https://github.com/harrywang/suzuri/releases/latest"@);
}

/// A failed check that the user asked for says why it failed and leads to the newest release; the
/// reason behind it is only logged.
pub proof fn law_a_failure_says_why(reason: Seq<char>, other: Seq<char>, failure: Failure)
    ensures
        failure_text(Failure::Unreachable { reason }) == failure_text(
            Failure::Unreachable { reason: other },
        ),
        full_failure_text(Failure::Unreachable { reason }) == failure_text(
            Failure::Unreachable { reason },
        ) + ": "@ + reason,
        failure is ForeignTag ==> full_failure_text(failure) == failure_text(failure),
        shown_for_failure(CheckKind::Manual, failure) == (Shown::Links {
            message: "Couldn't check for Suzuri updates: "@ + failure_text(failure),
            primary: ("View Releases"@, newest_page()),
            secondary: None,
        }),
{
}

} // verus!
