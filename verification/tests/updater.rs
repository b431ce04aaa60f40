use logd::updater::{
    check_download, choose_release, download_total, has_github_token, latest_release_url,
    offer_release, platform_asset_name, received, replacement_refusal, should_auto_update,
    staged_update_name, update_view, GithubAsset, GithubRelease, ManualRelease, ManualUpdateEvent,
    ProgressWords, UpdateDialog, UpdateLabels, UpdateStatus,
};

fn release(tag: &str, assets: &[&str]) -> GithubRelease {
    GithubRelease {
        tag_name: tag.to_owned(),
        assets: assets
            .iter()
            .map(|name| GithubAsset {
                name: name.to_string(),
                browser_download_url: format!("https://example.com/{name}"),
                size: 10,
            })
            .collect(),
    }
}

#[test]
fn a_newer_release_is_offered() {
    let offered = choose_release(&release("v1.10.0", &["logd"]), "1.9.0", "logd")
        .unwrap()
        .unwrap();
    assert_eq!(offered.version, "v1.10.0");
    assert_eq!(offered.download_url, "https://gh-proxy.com/https://example.com/logd");
    assert_eq!(offered.size, 10);
    assert!(choose_release(&release("v1.9.0", &["logd"]), "1.9.0", "logd").unwrap().is_none());
    assert!(choose_release(&release("1.2.3-rc.1", &["logd"]), "1.2.3", "logd").unwrap().is_none());
}

#[test]
fn releases_that_cannot_be_used_are_errors() {
    assert!(choose_release(&release("latest", &["logd"]), "1.0.0", "logd").is_err());
    assert!(choose_release(&release("v2.0.0", &["logd"]), "dev", "logd").is_err());
    let missing = choose_release(&release("v2.0.0", &["other"]), "1.0.0", "logd").unwrap_err();
    assert!(missing.contains("v2.0.0") && missing.contains("logd"));
    assert!(offer_release(&release("v2", &[]), false, "logd").unwrap().is_none());
    assert!(offer_release(&release("v2", &[]), true, "logd").is_err());
}

#[test]
fn names_and_addresses_are_fixed() {
    assert_eq!(
        latest_release_url(),
        "https://api.github.com/repos/965962591/logd/releases/latest"
    );
    assert_eq!(platform_asset_name(true), "logd.exe");
    assert_eq!(platform_asset_name(false), "logd");
    assert_eq!(staged_update_name(42, Some("exe")), ".logd-update-42.exe");
    assert_eq!(staged_update_name(42, None), ".logd-update-42");
    assert!(replacement_refusal(true).is_some());
    assert!(replacement_refusal(false).is_none());
}

#[test]
fn downloads_are_counted_and_checked() {
    assert_eq!(download_total(10, Some("20")), 20);
    assert_eq!(download_total(10, Some("many")), 10);
    assert_eq!(download_total(10, None), 10);
    let (sum, event) = received(5, 7, 20);
    assert_eq!(sum, 12);
    assert!(matches!(event, ManualUpdateEvent::Progress { downloaded: 12, total: 20 }));
    assert!(check_download(0, 7).is_ok());
    assert!(check_download(7, 7).is_ok());
    assert!(check_download(8, 7).unwrap_err().contains('8'));
}

#[test]
fn an_update_at_the_start_needs_all_conditions() {
    assert!(should_auto_update(false, false, false, true, true, false));
    assert!(!should_auto_update(true, false, false, false, true, false));
    assert!(!should_auto_update(false, true, false, true, true, false));
    assert!(should_auto_update(false, true, true, true, true, false));
    assert!(!should_auto_update(false, false, true, true, false, false));
    assert!(!should_auto_update(false, false, true, true, true, true));
    assert!(has_github_token(&vec![None, Some(" x ".to_owned())]));
    assert!(!has_github_token(&vec![None, Some("  ".to_owned())]));
}

fn labels() -> UpdateLabels {
    UpdateLabels {
        idle: "idle".to_owned(),
        checking: "checking".to_owned(),
        available: "new".to_owned(),
        downloading: "loading".to_owned(),
        up_to_date: "current".to_owned(),
        failed: "failed".to_owned(),
        restarting: "restarting".to_owned(),
    }
}

fn words() -> ProgressWords {
    ProgressWords {
        percent: "50".to_owned(),
        downloaded: "1.0 MB".to_owned(),
        total: "2.0 MB".to_owned(),
    }
}

#[test]
fn the_dialog_goes_through_its_steps() {
    let mut dialog = UpdateDialog::new();
    assert_eq!(update_view(&dialog, &labels(), &words()).line, "idle");
    assert!(dialog.check());
    assert!(!dialog.check());
    assert!(dialog.download().is_none());
    let found = ManualRelease {
        version: "v2".to_owned(),
        download_url: "u".to_owned(),
        size: 9,
    };
    assert!(!dialog.poll(vec![ManualUpdateEvent::Available(found)]));
    let view = update_view(&dialog, &labels(), &words());
    assert_eq!(view.line, "new: v2");
    assert!(view.can_download && view.can_check && !view.progress);
    assert_eq!(dialog.download().unwrap().size, 9);
    assert!(!dialog.handle(ManualUpdateEvent::Progress { downloaded: 1, total: 2 }));
    let view = update_view(&dialog, &labels(), &words());
    assert_eq!(view.line, "loading v2 (50%, 1.0 MB / 2.0 MB)");
    assert!(view.progress && !view.can_check);
    assert!(dialog.poll(vec![
        ManualUpdateEvent::Restarting,
        ManualUpdateEvent::Error("late".to_owned())
    ]));
    assert_eq!(update_view(&dialog, &labels(), &words()).line, "failed: late");
    dialog.handle(ManualUpdateEvent::UpToDate);
    assert!(matches!(dialog.status, UpdateStatus::UpToDate));
}
