//! Nexus Mods: links, answers, downloads.
use linkmm::download::{after_piece, download_file, DownloadStep, DOWNLOAD_CANCELLED_ERROR};
use linkmm::download_state::{
    clear_active, current, set_active, update_progress, DownloadState,
};
use linkmm::nexus::{
    download_link_url, mod_files_url, nxm_query, status_error, transport_error, validate_url,
    Answer, NexusClient, NexusDownloadLink, NexusModFileResponse, NexusUserResponse,
    RequestError, RetryStep,
};
use linkmm::nxm::NxmUrl;

#[test]
fn parse_full_nxm_url() {
    let url = "nxm://skyrimspecialedition/mods/266/files/725705?key=8WNi8WcqllkfAxbdkL3L0w&expires=1773066593&user_id=8510191";
    let nxm = NxmUrl::parse(url).unwrap();
    assert_eq!(nxm.game_domain, "skyrimspecialedition");
    assert_eq!(nxm.mod_id, 266);
    assert_eq!(nxm.file_id, 725705);
    assert_eq!(nxm.key.as_deref(), Some("8WNi8WcqllkfAxbdkL3L0w"));
    assert_eq!(nxm.expires.as_deref(), Some("1773066593"));
}

#[test]
fn parse_nxm_url_without_query() {
    let url = "nxm://fallout4/mods/100/files/200";
    let nxm = NxmUrl::parse(url).unwrap();
    assert_eq!(nxm.game_domain, "fallout4");
    assert_eq!(nxm.mod_id, 100);
    assert_eq!(nxm.file_id, 200);
    assert!(nxm.key.is_none());
    assert!(nxm.expires.is_none());
}

#[test]
fn malformed_links_are_refused() {
    let error = |url: &str| NxmUrl::parse(url).unwrap_err();
    assert_eq!(error("http://x"), "Not an NXM URL: http://x");
    assert_eq!(error("nxm://g/mods/1?a=b"), "Invalid NXM URL path: g/mods/1");
    assert_eq!(error("nxm://g/mod/1/files/2"), "Expected 'mods' in NXM URL, got 'mod'");
    assert_eq!(error("nxm://g/mods/x/files/2"), "Invalid mod ID: x");
    assert_eq!(error("nxm://g/mods/1/file/2"), "Expected 'files' in NXM URL, got 'file'");
    assert_eq!(
        error("nxm://g/mods/1/files/18446744073709551616"),
        "Invalid file ID: 18446744073709551616"
    );
}

#[test]
fn the_last_of_equal_parameters_counts() {
    let nxm = NxmUrl::parse("nxm://g/mods/+1/files/2/x?key=a&key=b=c&expires&key").unwrap();
    assert_eq!(nxm.mod_id, 1);
    assert_eq!(nxm.key.as_deref(), Some("b=c"));
    assert_eq!(nxm.expires, None);
    let copy = nxm.clone();
    assert_eq!(copy.key, nxm.key);
}

#[test]
fn tracks_multiple_active_downloads_without_clobbering() {
    let mut state = DownloadState::new();
    let first_id = set_active(&mut state, "first.zip".to_string());
    let second_id = set_active(&mut state, "second.zip".to_string());

    update_progress(&mut state, first_id, 10, 100);
    update_progress(&mut state, second_id, 40, 80);

    let latest = current(&state).expect("expected an active download");
    assert_eq!(latest.file_name, "second.zip");
    assert_eq!(latest.downloaded, 40);
    assert_eq!(latest.total, 80);

    clear_active(&mut state, second_id);
    let remaining = current(&state).expect("expected first download to remain active");
    assert_eq!(remaining.file_name, "first.zip");
    assert_eq!(remaining.downloaded, 10);
    assert_eq!(remaining.total, 100);

    clear_active(&mut state, first_id);
    assert!(current(&state).is_none());
}

#[test]
fn unknown_downloads_change_nothing() {
    let mut state = DownloadState::new();
    update_progress(&mut state, 5, 1, 2);
    clear_active(&mut state, 5);
    assert!(current(&state).is_none());
    assert_eq!(set_active(&mut state, "a".to_string()), 1);
    assert_eq!(set_active(&mut state, "b".to_string()), 2);
    clear_active(&mut state, 1);
    assert_eq!(set_active(&mut state, "c".to_string()), 3);
    assert_eq!(current(&state).unwrap().file_name, "c");
}

#[test]
fn downloads_go_by_way_of_a_partial_file() {
    let plan = download_file("/d/mod.zip", Some("1234"));
    assert_eq!(plan.part_path, "/d/mod.zip.part");
    assert_eq!(plan.total, 1234);
    assert_eq!(plan.directory.as_deref(), Some("/d"));
    assert_eq!(download_file("/d/mod", None).part_path, "/d/mod.bin.part");
    assert_eq!(download_file("/d/mod", Some("many")).total, 0);
    assert!(matches!(after_piece(10, 0, true), DownloadStep::Complete));
    assert!(matches!(after_piece(10, 5, true), DownloadStep::Continue(15)));
    match after_piece(10, 5, false) {
        DownloadStep::Cancelled(e) => assert_eq!(e, DOWNLOAD_CANCELLED_ERROR),
        other => panic!("{other:?}"),
    }
}

#[test]
fn addresses_name_what_is_asked_for() {
    assert_eq!(validate_url(), "https://api.nexusmods.com/v1/users/validate.json");
    assert_eq!(
        mod_files_url("fallout4", 100),
        "https://api.nexusmods.com/v1/games/fallout4/mods/100/files.json"
    );
    assert_eq!(
        download_link_url("fallout4", 100, 200),
        "https://api.nexusmods.com/v1/games/fallout4/mods/100/files/200/download_link.json"
    );
    assert_eq!(
        nxm_query("k", "9"),
        vec![
            ("key".to_string(), "k".to_string()),
            ("expires".to_string(), "9".to_string())
        ]
    );
}

#[test]
fn failures_that_may_pass_are_transient() {
    for code in [408u16, 429, 500, 503, 599] {
        assert!(status_error(code, "").transient);
    }
    for code in [400u16, 401, 404, 499, 600] {
        assert!(!status_error(code, "").transient);
    }
    assert_eq!(status_error(404, "gone").message, "Request failed with status 404: gone");
    for text in ["Timed Out", "TIMEOUT", "temporary", "Connection Reset", "connection refused", "DNS failed"] {
        assert!(transport_error(text).transient);
    }
    let other = transport_error("Bad certificate");
    assert!(!other.transient);
    assert_eq!(other.message, "Request failed: Bad certificate");
}

#[test]
fn attempts_back_off_and_end() {
    let client = NexusClient::new("SECRET-REDACTED");
    let fail = |transient: bool| {
        Err(RequestError { message: "m".to_string(), transient })
    };
    assert!(matches!(client.get_body_with_retry(0, fail(true)), RetryStep::Wait(250)));
    assert!(matches!(client.get_body_with_retry(1, fail(true)), RetryStep::Wait(500)));
    assert!(matches!(client.get_body_with_retry(2, fail(true)), RetryStep::GiveUp(m) if m == "m"));
    assert!(matches!(client.get_body_with_retry(0, fail(false)), RetryStep::GiveUp(_)));
    let done = client.get_body_with_retry(1, Ok("body".to_string()));
    assert!(matches!(done, RetryStep::Done(b) if b == "body"));
}

#[test]
fn answers_are_kept_for_a_minute() {
    let mut client = NexusClient::new("k");
    assert_eq!(client.api_key, "k");
    assert_eq!(client.cached("u", 0), None);
    client.keep("u", "body", 1_000);
    assert_eq!(client.cached("u", 60_999), Some("body".to_string()));
    assert_eq!(client.cached("u", 61_000), None);
    assert_eq!(client.cached("v", 1_000), None);
    assert_eq!(client.cache_hits, 1);
}

#[test]
fn answers_become_the_library_s_data() {
    let client = NexusClient::new("k");
    let user = client
        .validate(Answer::Data(NexusUserResponse {
            user_id: 7,
            name: "n".to_string(),
            email: "e".to_string(),
            is_premium: true,
            is_supporter: false,
        }))
        .unwrap();
    assert_eq!((user.user_id, user.username.as_str(), user.email.as_str()), (7, "n", "e"));
    assert!(user.is_premium && !user.is_supporter);
    assert_eq!(
        client.validate(Answer::Malformed("eof".to_string())).unwrap_err(),
        "Failed to parse response: eof"
    );
    let files = client
        .get_mod_files(Answer::Data(vec![NexusModFileResponse {
            file_id: 3,
            name: "f".to_string(),
            version: Some("1.0".to_string()),
            category_name: None,
            is_primary: true,
            size_kb: 9,
            file_name: "f.zip".to_string(),
        }]))
        .unwrap();
    assert_eq!(files[0].category_name, "Unknown");
    assert_eq!(files[0].file_name, "f.zip");
    assert_eq!(client.get_mod_files(Answer::Failed("x".to_string())).unwrap_err(), "x");
    let link = || {
        Answer::Data(vec![NexusDownloadLink {
            uri: "http://cdn".to_string(),
            short_name: "CDN".to_string(),
        }])
    };
    let pairs = vec![("CDN".to_string(), "http://cdn".to_string())];
    assert_eq!(client.get_download_links(link()).unwrap(), pairs);
    assert_eq!(client.get_download_links_nxm(link()).unwrap(), pairs);
}

#[test]
fn download_numbers_count_up() {
    let mut state = DownloadState::new();
    assert_eq!(state.next_download_id(), 1);
    assert_eq!(set_active(&mut state, "a.zip".to_string()), 1);
    assert_eq!(state.next_download_id(), 2);
}
