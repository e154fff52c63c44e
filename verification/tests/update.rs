use suzuri::update::{
    download_url_for_host, fetch_outcome, init, is_newer, latest_release_url,
    parse_release_version, poll_delay, release_page_url, CheckError, CheckKind, CheckOutcome,
    GithubRelease, GithubReleaseAsset, Notice, PollChange, UpdateCheckSetting, UpdateChecker,
    Version, INITIAL_POLL_DELAY, POLL_INTERVAL, SUZURI_VERSION,
};

fn version(text: &str) -> Version {
    Version::parse(text).expect("test version should be valid semver")
}

fn asset(name: &str) -> GithubReleaseAsset {
    GithubReleaseAsset {
        name: name.to_string(),
        browser_download_url: format!("https://example.test/{name}"),
        digest: None,
    }
}

fn release(tag_name: &str, asset_names: &[&str]) -> GithubRelease {
    GithubRelease {
        tag_name: tag_name.to_string(),
        pre_release: false,
        assets: asset_names.iter().copied().map(asset).collect(),
        tarball_url: String::new(),
        zipball_url: String::new(),
    }
}

fn listed(name: &str, url: &str, digest: Option<&str>) -> GithubReleaseAsset {
    GithubReleaseAsset {
        name: name.to_string(),
        browser_download_url: url.to_string(),
        digest: digest.map(str::to_string),
    }
}

/// The newest release of a listing as GitHub gives it.
fn suzuri_release() -> GithubRelease {
    GithubRelease {
        tag_name: "suzuri-v0.3.0".to_string(),
        pre_release: false,
        assets: vec![
            listed(
                "suzuri-aarch64.dmg",
                "https://github.test/suzuri-aarch64.dmg",
                Some("sha256:0123456789abcdef"),
            ),
            listed("suzuri-x86_64.dmg", "https://github.test/suzuri-x86_64.dmg", None),
            listed(
                "suzuri-windows-x86_64.exe",
                "https://github.test/suzuri-windows-x86_64.exe",
                None,
            ),
        ],
        tarball_url: "https://api.github.test/repos/harrywang/suzuri/tarball/suzuri-v0.3.0"
            .to_string(),
        zipball_url: "https://api.github.test/repos/harrywang/suzuri/zipball/suzuri-v0.3.0"
            .to_string(),
    }
}

#[test]
fn test_parse_release_version() {
    assert_eq!(
        parse_release_version("suzuri-v1.18.0"),
        Some(Version::new(1, 18, 0))
    );
    // Zed's own tags share this repository's history but not its releases;
    // reading one as a Suzuri version would advertise the wrong download.
    assert_eq!(parse_release_version("v0.180.0"), None);
    assert_eq!(parse_release_version("suzuri-v"), None);
    assert_eq!(parse_release_version("suzuri-vnightly"), None);
}

#[test]
fn test_suzuri_version_is_valid_semver() {
    // `init` gives up on an unparseable version, which would silently leave
    // every user of that build with no update checks at all.
    assert!(Version::parse(SUZURI_VERSION).is_some());
}

#[test]
fn test_is_newer_ignores_pre_release_and_build_metadata() {
    let current: Version = version("0.2.0-rc1+abc123");

    assert!(is_newer(&Version::new(0, 3, 0), &current));
    assert!(is_newer(&Version::new(1, 0, 0), &current));
    // The release this build is a candidate for is not an update to it,
    // though plain semver ordering would say otherwise.
    assert!(!is_newer(&Version::new(0, 2, 0), &current));
    assert!(!is_newer(&Version::new(0, 1, 9), &current));
}

#[test]
fn test_download_url_matches_host_asset() {
    let release = release(
        "suzuri-v1.18.0",
        &[
            "suzuri-aarch64.dmg",
            "suzuri-x86_64.dmg",
            "suzuri-windows-x86_64.exe",
        ],
    );

    assert_eq!(
        download_url_for_host(&release, "macos", "aarch64"),
        Some("https://example.test/suzuri-aarch64.dmg")
    );
    assert_eq!(
        download_url_for_host(&release, "macos", "x86_64"),
        Some("https://example.test/suzuri-x86_64.dmg")
    );
    assert_eq!(
        download_url_for_host(&release, "windows", "x86_64"),
        Some("https://example.test/suzuri-windows-x86_64.exe")
    );
    // Linux has no artifact in the release workflow; callers fall back to
    // the release page rather than offering a macOS disk image.
    assert_eq!(download_url_for_host(&release, "linux", "x86_64"), None);
}

#[test]
fn test_download_url_is_absent_when_assets_do_not_match() {
    let release = release("suzuri-v1.18.0", &["suzuri-x86_64.dmg"]);

    assert_eq!(download_url_for_host(&release, "macos", "aarch64"), None);
}

#[test]
fn test_release_page_url() {
    assert_eq!(
        release_page_url("suzuri-v1.18.0"),
        "https://github.com/harrywang/suzuri/releases/tag/suzuri-v1.18.0"
    );
}

#[test]
fn test_fetch_outcome_offers_the_host_download_for_a_newer_release() {
    let outcome = fetch_outcome(Ok(suzuri_release()), &version("0.2.0"), "macos", "aarch64")
        .expect("a well-formed release listing should be understood");

    assert_eq!(
        outcome,
        CheckOutcome::UpdateAvailable {
            version: version("0.3.0"),
            download_url: "https://github.test/suzuri-aarch64.dmg".to_string(),
            release_url: "https://github.com/harrywang/suzuri/releases/tag/suzuri-v0.3.0"
                .to_string(),
        }
    );
}

#[test]
fn test_fetch_outcome_is_up_to_date_on_the_newest_release() {
    for current in ["0.3.0", "0.4.0"] {
        let outcome = fetch_outcome(Ok(suzuri_release()), &version(current), "macos", "aarch64")
            .expect("a well-formed release listing should be understood");

        assert_eq!(outcome, CheckOutcome::UpToDate, "running {current}");
    }
}

#[test]
fn test_fetch_outcome_falls_back_to_the_release_page_without_a_host_asset() {
    let outcome = fetch_outcome(Ok(suzuri_release()), &version("0.2.0"), "linux", "x86_64")
        .expect("a well-formed release listing should be understood");

    // Sending a Linux user to the release page beats sending them a .dmg.
    assert_eq!(
        outcome,
        CheckOutcome::UpdateAvailable {
            version: version("0.3.0"),
            download_url: "https://github.com/harrywang/suzuri/releases/tag/suzuri-v0.3.0"
                .to_string(),
            release_url: "https://github.com/harrywang/suzuri/releases/tag/suzuri-v0.3.0"
                .to_string(),
        }
    );
}

#[test]
fn test_fetch_outcome_rejects_a_release_that_is_not_suzuris() {
    let zed_release = GithubRelease {
        tag_name: "v0.180.0".to_string(),
        pre_release: false,
        assets: vec![listed("Zed.dmg", "https://github.test/Zed.dmg", None)],
        tarball_url: "https://api.github.test/tarball/v0.180.0".to_string(),
        zipball_url: "https://api.github.test/zipball/v0.180.0".to_string(),
    };

    let error = fetch_outcome(Ok(zed_release), &version("0.2.0"), "macos", "aarch64")
        .expect_err("a tag that is not a Suzuri release must not become an update");

    assert!(
        error.full_message().contains("v0.180.0"),
        "the error should name the tag it could not read: {}",
        error.full_message()
    );
    assert_eq!(
        error.message(),
        "the newest release of harrywang/suzuri is tagged \"v0.180.0\", \
         which is not a suzuri-v<version> tag"
    );
}

#[test]
fn test_fetch_outcome_surfaces_an_unreachable_github() {
    let unreachable = Err("status error 404".to_string());

    let error = fetch_outcome(unreachable, &version("0.2.0"), "macos", "aarch64")
        .expect_err("a failed request must not be reported as being up to date");

    assert!(
        error.full_message().contains("GitHub"),
        "the error should say what could not be reached: {}",
        error.full_message()
    );
    assert_eq!(
        error.full_message(),
        "could not reach GitHub to look for a newer Suzuri release: status error 404"
    );
}

#[test]
fn a_version_has_one_text() {
    for text in ["0.0.0", "1.18.0", "18446744073709551615.0.1", "0.2.0-rc1+abc123", "1.0.0+b"] {
        assert_eq!(version(text).text(), text);
    }
    for text in ["", "1", "1.2", "01.2.3", "1.2.3-", "1.2.3 ", "v1.2.3", "18446744073709551616.0.0"]
    {
        assert_eq!(Version::parse(text), None);
    }
    let parsed = version("0.2.0-rc1+abc123");
    assert_eq!((parsed.major, parsed.minor, parsed.patch), (0, 2, 0));
    assert_eq!((parsed.pre.as_str(), parsed.build.as_str()), ("rc1", "abc123"));
}

#[test]
fn an_odd_tag_is_quoted_with_escapes() {
    let error = CheckError::ForeignTag { tag_name: "a\"\n\u{7}b".to_string() };
    assert!(error.message().contains("\"a\\\"\\n\\u{7}b\""));
}

#[test]
fn the_running_build_has_a_checker() {
    let checker = init().expect("the version is one");
    assert_eq!(checker.current_version().text(), SUZURI_VERSION);
}

#[test]
fn polling_follows_the_setting_and_the_environment() {
    let mut checker = UpdateChecker::new(Version::new(0, 2, 0));
    let on = UpdateCheckSetting::from_settings(Some(true));
    let off = UpdateCheckSetting::from_settings(Some(false));
    assert_eq!(checker.sync_polling(false, on), PollChange::Start);
    assert_eq!(checker.sync_polling(false, on), PollChange::Keep);
    assert_eq!(checker.sync_polling(true, on), PollChange::Stop);
    assert_eq!(checker.sync_polling(false, on), PollChange::Start);
    assert_eq!(checker.sync_polling(false, off), PollChange::Stop);
    assert_eq!(poll_delay(0), INITIAL_POLL_DELAY);
    assert_eq!(poll_delay(1), POLL_INTERVAL);
    assert_eq!((INITIAL_POLL_DELAY, POLL_INTERVAL), (5 * 60, 6 * 60 * 60));
}

#[test]
fn a_release_is_announced_once_by_the_clock() {
    let mut checker = UpdateChecker::new(Version::new(0, 2, 0));
    let notice = checker.check(CheckKind::Automatic, Ok(suzuri_release()), "linux", "x86_64");
    match notice {
        Notice::Links { message, primary, secondary } => {
            assert_eq!(message, "Suzuri 0.3.0 is available");
            assert_eq!(primary.label, "Download");
            let notes = secondary.expect("the release has a page");
            assert_eq!(notes.label, "Release Notes");
            assert_eq!(notes.url, primary.url);
        }
        _ => panic!("a newer release is announced"),
    }
    let again = checker.check(CheckKind::Automatic, Ok(suzuri_release()), "linux", "x86_64");
    assert!(matches!(again, Notice::Nothing));
    let asked = checker.check(CheckKind::Manual, Ok(suzuri_release()), "linux", "x86_64");
    assert!(matches!(asked, Notice::Links { .. }));
    let newer = release("suzuri-v0.4.0", &[]);
    let next = checker.check(CheckKind::Automatic, Ok(newer), "linux", "x86_64");
    assert!(matches!(next, Notice::Links { .. }));
}

#[test]
fn the_user_is_always_answered() {
    let mut checker = UpdateChecker::new(Version::new(0, 3, 0));
    let silent = checker.check(CheckKind::Automatic, Ok(suzuri_release()), "macos", "aarch64");
    assert!(matches!(silent, Notice::Nothing));
    match checker.check(CheckKind::Manual, Ok(suzuri_release()), "macos", "aarch64") {
        Notice::Message { message } => assert_eq!(message, "Suzuri 0.3.0 is up to date"),
        _ => panic!("the user is told"),
    }
    let failed = checker.check(CheckKind::Automatic, Err("down".to_string()), "macos", "aarch64");
    assert!(matches!(failed, Notice::Nothing));
    match checker.check(CheckKind::Manual, Err("down".to_string()), "macos", "aarch64") {
        Notice::Links { message, primary, secondary } => {
            assert_eq!(
                message,
                "Couldn't check for Suzuri updates: \
                 could not reach GitHub to look for a newer Suzuri release"
            );
            assert_eq!(primary.label, "View Releases");
            assert_eq!(primary.url, latest_release_url());
            assert_eq!(primary.url, "https://github.com/harrywang/suzuri/releases/latest");
            assert!(secondary.is_none());
        }
        _ => panic!("the user is told"),
    }
}

#[test]
fn every_version_is_read_from_its_tag() {
    for text in ["1.2.3-rc.1+build.007", "0.0.0-0", "1.0.0-a-b.c", "1.2.3+00.x-y", "1.0.0--"] {
        let read = parse_release_version(&format!("suzuri-v{text}")).expect("a version");
        assert_eq!(read.text(), text);
    }
    let read = parse_release_version("suzuri-v1.2.3-rc.1+build.007").expect("a version");
    assert_eq!((read.major, read.minor, read.patch), (1, 2, 3));
    assert_eq!((read.pre.as_str(), read.build.as_str()), ("rc.1", "build.007"));
    for text in ["1.2", "1.2.3-", "1.2.3-01", "1.2.3-a..b", "1.2.3+", "01.2.3", "1.2.3-\u{e9}"] {
        assert!(parse_release_version(&format!("suzuri-v{text}")).is_none(), "{text:?}");
    }
}

#[test]
fn a_plain_tag_is_quoted_as_it_is() {
    let error = CheckError::ForeignTag { tag_name: "v1.0 ~x".to_string() };
    let message = "the newest release of harrywang/suzuri is tagged \"v1.0 ~x\", which is not a \
                   suzuri-v<version> tag";
    assert_eq!(error.message(), message);
    assert_eq!(error.full_message(), message);
}
