use logd::live_log::{
    adb_candidates, adb_path, advance_capture, begin_clear, cache_dir_error, capture_targets,
    clear_entry, create_error, device_file_name, is_history_log, library_path, list_devices,
    parse_devices, safe_file_name, write_error, AdbBase, AdbChoice, CaptureInput, CaptureState,
    ClearedEntry, DeviceListing, ExitOutcome, HistoryListing, LogBuffers,
};

#[test]
fn parses_only_authorized_devices() {
    assert_eq!(
        parse_devices("List of devices attached\nemulator-5554\tdevice\nABC\toffline\nXYZ\tunauthorized\n"),
        vec!["emulator-5554"]
    );
}

#[test]
fn makes_device_serials_safe_file_names() {
    assert_eq!(safe_file_name("usb:1/2"), "usb_1_2");
}

#[test]
fn safe_names_stay_as_they_are() {
    assert_eq!(safe_file_name("emulator-5554"), "emulator-5554");
    assert_eq!(safe_file_name(&safe_file_name("a b\u{e9}")), "a_b_");
    assert_eq!(device_file_name("10.0.0.1:5555"), "10.0.0.1_5555.log");
}

fn ran(success: bool, stdout: &str, stderr: &str) -> DeviceListing {
    DeviceListing::Ran {
        success,
        stdout: stdout.to_owned(),
        stderr: stderr.to_owned(),
    }
}

#[test]
fn listing_devices_can_fail() {
    assert_eq!(
        list_devices(&ran(true, "A\tdevice\nB\tdevice\n", "")).unwrap(),
        vec!["A", "B"]
    );
    assert_eq!(
        list_devices(&ran(false, "", " no server \n")).unwrap_err(),
        "adb devices failed: no server"
    );
    assert!(capture_targets(&ran(true, "List\n", "")).is_err());
    assert_eq!(capture_targets(&ran(true, "A device\n", "")).unwrap(), vec!["A"]);
}

#[test]
fn a_capture_reads_sends_and_ends() {
    let step = advance_capture("S", CaptureState::Starting, &CaptureInput::Started);
    assert_eq!(step.state, CaptureState::Reading);
    let step = advance_capture("S", step.state, &CaptureInput::Line("hello".to_owned()));
    assert_eq!(step.state, CaptureState::Sending);
    assert_eq!(step.send.as_deref(), Some("hello\n"));
    let step = advance_capture("S", step.state, &CaptureInput::Sent);
    assert_eq!(step.state, CaptureState::Reading);
    let step = advance_capture("S", step.state, &CaptureInput::End);
    assert_eq!(step.state, CaptureState::Waiting { stop_requested: false });
    let exit = CaptureInput::Exited {
        outcome: ExitOutcome::Failure("exit status: 1".to_owned()),
        stderr: String::new(),
    };
    let step = advance_capture("S", step.state, &exit);
    assert_eq!(step.state, CaptureState::Done);
    assert!(step.stopped);
    assert_eq!(
        step.error.as_deref(),
        Some("adb logcat failed for S: exit status exit status: 1")
    );
    let step = advance_capture("S", step.state, &CaptureInput::End);
    assert_eq!(step.state, CaptureState::Done);
    assert!(!step.stopped);
}

#[test]
fn a_stop_on_request_is_no_error() {
    let stop = CaptureInput::StopChanged {
        sender_gone: false,
        stop: true,
    };
    let step = advance_capture("S", CaptureState::Reading, &stop);
    assert!(step.kill);
    assert_eq!(step.state, CaptureState::Waiting { stop_requested: true });
    let exit = CaptureInput::Exited {
        outcome: ExitOutcome::Failure("signal: 9".to_owned()),
        stderr: "killed".to_owned(),
    };
    let step = advance_capture("S", step.state, &exit);
    assert_eq!(step.error, None);
    assert!(step.stopped);
}

#[test]
fn a_capture_that_cannot_start_says_so() {
    let failed = CaptureInput::SpawnFailed("not found".to_owned());
    let step = advance_capture("S", CaptureState::Starting, &failed);
    assert_eq!(step.error.as_deref(), Some("Cannot start adb logcat for S: not found"));
    assert_eq!(step.state, CaptureState::Done);
    let step = advance_capture("S", CaptureState::Starting, &CaptureInput::NoOutput);
    assert_eq!(step.error.as_deref(), Some("adb logcat has no stdout for S"));
    let broken = CaptureInput::ReadFailed("pipe".to_owned());
    let step = advance_capture("S", CaptureState::Reading, &broken);
    assert!(step.kill);
    assert_eq!(step.error.as_deref(), Some("adb logcat read failed for S: pipe"));
    let unknown = CaptureInput::Exited {
        outcome: ExitOutcome::Unknown("gone".to_owned()),
        stderr: String::new(),
    };
    let waiting = CaptureState::Waiting { stop_requested: false };
    let step = advance_capture("S", waiting, &unknown);
    assert_eq!(step.error.as_deref(), Some("adb logcat process failed for S: gone"));
}

#[test]
fn lines_wait_until_they_are_written() {
    let mut buffers = LogBuffers::new();
    buffers.push_line(1, "a\n");
    buffers.push_line(2, "x\n");
    buffers.push_line(1, "b\n");
    let mut pending = buffers.pending();
    pending.sort();
    assert_eq!(pending, vec![(1, "a\nb\n".to_owned()), (2, "x\n".to_owned())]);
    buffers.flushed(1, true);
    buffers.flushed(2, false);
    assert_eq!(buffers.pending(), vec![(2, "x\n".to_owned())]);
    buffers.push_line(2, "y\n");
    assert_eq!(buffers.pending(), vec![(2, "x\ny\n".to_owned())]);
}

#[test]
fn clearing_counts_files_and_stops_at_errors() {
    assert_eq!(begin_clear(&HistoryListing::Listed, "/logs"), Ok(true));
    assert_eq!(begin_clear(&HistoryListing::NotFound, "/logs"), Ok(false));
    assert_eq!(
        begin_clear(&HistoryListing::Failed("denied".to_owned()), "/logs"),
        Err("Cannot read /logs: denied".to_owned())
    );
    assert_eq!(clear_entry(3, &ClearedEntry::Deleted, "/logs"), Ok(4));
    assert_eq!(clear_entry(3, &ClearedEntry::NotAFile, "/logs"), Ok(3));
    let unreadable = ClearedEntry::Unreadable("io".to_owned());
    assert_eq!(
        clear_entry(3, &unreadable, "/logs"),
        Err("Cannot read an entry in /logs: io".to_owned())
    );
    let uninspected = ClearedEntry::Uninspected {
        path: "/logs/a".to_owned(),
        error: "io".to_owned(),
    };
    assert!(clear_entry(3, &uninspected, "/logs").is_err());
    let undeleted = ClearedEntry::Undeleted {
        path: "/logs/a".to_owned(),
        error: "busy".to_owned(),
    };
    assert!(clear_entry(3, &undeleted, "/logs").is_err());
}

#[test]
fn a_history_log_stands_in_the_history() {
    assert!(is_history_log(Some(&7u64), Some(&7u64)));
    assert!(!is_history_log(Some(&7u64), Some(&8u64)));
    assert!(!is_history_log(None, Some(&8u64)));
    assert!(!is_history_log::<u64>(None, None));
}

#[test]
fn adb_is_looked_for_in_order() {
    let windows = adb_candidates(true, true, true);
    assert_eq!(windows.len(), 3);
    assert_eq!(windows[0].base, AdbBase::Source);
    assert_eq!(windows[0].parts, ["../../resources", "win", "adb.exe"]);
    assert_eq!(windows[2].parts, ["Resources", "resources", "win", "adb.exe"]);
    let mac = adb_candidates(false, true, false);
    assert_eq!(mac.len(), 2);
    assert_eq!(mac[1].parts, ["resources", "mac", "adb"]);
    assert_eq!(adb_candidates(false, false, true).len(), 1);
}

#[test]
fn a_named_adb_alone_counts() {
    assert_eq!(adb_path(Some(("/x".to_owned(), true)), &vec![true]), Ok(AdbChoice::Named));
    assert_eq!(
        adb_path(Some(("/x".to_owned(), false)), &vec![true]),
        Err("LOGD_ADB_PATH does not exist: /x".to_owned())
    );
    assert_eq!(adb_path(None, &vec![false, true, true]), Ok(AdbChoice::Candidate(1)));
    assert_eq!(
        adb_path(None, &vec![false]),
        Err("Bundled adb was not found in resources".to_owned())
    );
}

#[test]
fn messages_name_what_failed() {
    assert_eq!(write_error("/a", "full"), "Cannot write /a: full");
    assert_eq!(create_error("S", "full"), "Cannot create log file for S: full");
    assert_eq!(
        cache_dir_error("none"),
        "Cannot determine the application cache directory: none"
    );
    assert_eq!(library_path("/adb", None), "/adb");
    assert_eq!(library_path("/adb", Some("/lib".to_owned())), "/adb:/lib");
}
