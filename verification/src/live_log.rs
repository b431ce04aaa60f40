//! Capture of device logs through `adb logcat`: what the output of `adb` means, how
//! one device's capture proceeds, and what waits to be written.
//!
//! Each connected device has one child process. Its lines go to a single writer,
//! which keeps them in memory and appends them to files at short intervals. The
//! files open as ordinary logs.

use crate::text;
use std::collections::HashMap;
use vstd::prelude::*;
use vstd::std_specs::cmp::PartialEqSpec;

verus! {

/// Something that the capture reports.
#[derive(Clone, Debug)]
pub enum LiveLogEvent<P> {
    DeviceReady { serial: String, path: P },
    DeviceStopped,
    CaptureFinished,
    Error(String),
}

/// The serial number of a device that a line of `adb devices` lists as ready.
pub open spec fn ready_device(line: Seq<char>) -> Option<Seq<char>> {
    let fields = text::words(line);
    if fields.len() >= 2 && fields[1] == "device"@ {
        Some(fields[0])
    } else {
        None
    }
}

/// The serial numbers of the devices that some lines list as ready.
pub open spec fn ready_devices(lines: Seq<Seq<char>>) -> Seq<Seq<char>>
    decreases lines.len(),
{
    if lines.len() == 0 {
        Seq::empty()
    } else {
        match ready_device(lines.last()) {
            Some(serial) => ready_devices(lines.drop_last()).push(serial),
            None => ready_devices(lines.drop_last()),
        }
    }
}

/// The serial numbers of the devices that `adb devices` lists as ready.
pub fn parse_devices(output: &str) -> (r: Vec<String>)
    ensures
        text::texts(r@) == ready_devices(text::lines(output@)),
{
    let lines = text::lines_of(&text::chars_of(output));
    let ghost all = text::pieces(lines@);
    let wanted = text::chars_of("device");
    let mut out: Vec<String> = Vec::new();
    let mut i: usize = 0;
    assert(text::texts(out@) =~= ready_devices(all.take(0)));
    while i < lines.len()
        invariant
            i <= lines@.len(),
            all == text::pieces(lines@),
            wanted@ == "device"@,
            text::texts(out@) == ready_devices(all.take(i as int)),
        decreases lines@.len() - i,
    {
        assert(all.take(i + 1).drop_last() =~= all.take(i as int));
        assert(all.take(i + 1).last() == lines@[i as int]@);
        let fields = text::words_of(&lines[i]);
        assert(text::pieces(fields@).len() == fields@.len());
        if fields.len() >= 2 {
            assert(text::pieces(fields@)[1] == fields@[1]@);
            if text::same_chars(&fields[1], &wanted) {
                let serial = text::text_of(&fields[0]);
                let ghost before = out@;
                out.push(serial);
                assert(text::texts(out@) =~= text::texts(before).push(serial@));
                assert(serial@ == text::pieces(fields@)[0]);
            }
        }
        i += 1;
    }
    assert(all.take(i as int) =~= all);
    out
}

/// A character that may stand in any file name.
pub open spec fn is_safe(c: char) -> bool {
    ('0' <= c <= '9') || ('a' <= c <= 'z') || ('A' <= c <= 'Z') || c == '-' || c == '_' || c == '.'
}

/// A text in which an underscore stands for every character that may not stand in a file name.
pub open spec fn safe_name(serial: Seq<char>) -> Seq<char> {
    serial.map_values(
        |c: char|
            if is_safe(c) {
                c
            } else {
                '_'
            },
    )
}

/// The serial number of a device as a file name.
pub fn safe_file_name(serial: &str) -> (r: String)
    ensures
        r@ == safe_name(serial@),
{
    let chars = text::chars_of(serial);
    let mut out = String::new();
    let mut i: usize = 0;
    while i < chars.len()
        invariant
            i <= chars@.len(),
            out@.len() == i,
            forall|k: int| 0 <= k < i ==> #[trigger] out@[k] == safe_name(chars@)[k],
        decreases chars@.len() - i,
    {
        let c = chars[i];
        if ('0' <= c && c <= '9') || ('a' <= c && c <= 'z') || ('A' <= c && c <= 'Z') || c == '-'
            || c == '_' || c == '.' {
            out.push(c);
        } else {
            out.push('_');
        }
        i += 1;
    }
    assert(out@ =~= safe_name(chars@));
    out
}

/// A file name made of a serial number is as long as that and holds safe characters only; a
/// name that is safe already stays as it is.
pub proof fn safe_names_are_safe(serial: Seq<char>)
    ensures
        safe_name(serial).len() == serial.len(),
        forall|i: int| 0 <= i < serial.len() ==> is_safe(#[trigger] safe_name(serial)[i]),
        safe_name(safe_name(serial)) == safe_name(serial),
{
    assert(safe_name(safe_name(serial)) =~= safe_name(serial));
}

/// The file that the log of a device goes to.
pub fn device_file_name(serial: &str) -> (r: String)
    ensures
        r@ == safe_name(serial@) + ".log"@,
{
    let mut out = text::chars_of(&safe_file_name(serial));
    text::append_text(&mut out, ".log");
    text::text_of(&out)
}

/// What became of running `adb devices`.
pub enum DeviceListing {
    /// It could not be run.
    NotRun(String),
    /// It ran, and ended with or without success.
    Ran { success: bool, stdout: String, stderr: String },
}

/// The devices to capture from, or why there are none to be had.
pub fn list_devices(listing: &DeviceListing) -> (r: Result<Vec<String>, String>)
    ensures
        match *listing {
            DeviceListing::NotRun(error) => r matches Err(message) && message@
                == "Cannot run adb devices: "@ + error@,
            DeviceListing::Ran { success, stdout, stderr } => if success {
                r matches Ok(devices) && text::texts(devices@) == ready_devices(
                    text::lines(stdout@),
                )
            } else {
                r matches Err(message) && message@ == "adb devices failed: "@ + text::trim(stderr@)
            },
        },
{
    match listing {
        DeviceListing::NotRun(error) => {
            let mut out = text::chars_of("Cannot run adb devices: ");
            text::append_text(&mut out, error);
            Err(text::text_of(&out))
        },
        DeviceListing::Ran { success, stdout, stderr } => if *success {
            Ok(parse_devices(stdout))
        } else {
            let mut out = text::chars_of("adb devices failed: ");
            text::append_chars(&mut out, &text::trimmed(&text::chars_of(stderr)));
            Err(text::text_of(&out))
        },
    }
}

/// The devices that a capture starts with. Without any, the error is what it reports before it
/// has finished.
pub fn capture_targets(listing: &DeviceListing) -> (r: Result<Vec<String>, String>)
    ensures
        match *listing {
            DeviceListing::NotRun(error) => r matches Err(message) && message@
                == "Cannot run adb devices: "@ + error@,
            DeviceListing::Ran { success, stdout, stderr } => if !success {
                r matches Err(message) && message@ == "adb devices failed: "@ + text::trim(stderr@)
            } else if ready_devices(text::lines(stdout@)).len() == 0 {
                r matches Err(message) && message@ == "No authorized ADB devices found"@
            } else {
                r matches Ok(devices) && text::texts(devices@) == ready_devices(
                    text::lines(stdout@),
                )
            },
        },
{
    match list_devices(listing) {
        Ok(devices) => {
            assert(text::texts(devices@).len() == devices@.len());
            if devices.len() == 0 {
                Err("No authorized ADB devices found".to_owned())
            } else {
                Ok(devices)
            }
        },
        Err(message) => Err(message),
    }
}

/// How the capture from one device proceeds.
#[derive(Clone, Copy, Debug, PartialEq, Eq, Structural)]
pub enum CaptureState {
    /// The child process is about to start.
    Starting,
    /// The next line is awaited.
    Reading,
    /// A line is on its way to the writer.
    Sending,
    /// The end of the child process is awaited.
    Waiting { stop_requested: bool },
    /// The capture is over.
    Done,
}

/// How the child process ended.
pub enum ExitOutcome {
    Success,
    /// It failed, with a status in words.
    Failure(String),
    /// Its end could not be learned.
    Unknown(String),
}

/// What happens during the capture from one device.
pub enum CaptureInput {
    Started,
    SpawnFailed(String),
    NoOutput,
    StopChanged { sender_gone: bool, stop: bool },
    Line(String),
    End,
    ReadFailed(String),
    Sent,
    Refused,
    Exited { outcome: ExitOutcome, stderr: String },
}

/// What the capture does next: where it goes on, a text for the writer, whether the child
/// process is killed, an error to report, and whether to report that the device stopped.
pub struct CaptureStep {
    pub state: CaptureState,
    pub send: Option<String>,
    pub kill: bool,
    pub error: Option<String>,
    pub stopped: bool,
}

/// A step by its texts.
#[verifier::ext_equal]
pub struct StepView {
    pub state: CaptureState,
    pub send: Option<Seq<char>>,
    pub kill: bool,
    pub error: Option<Seq<char>>,
    pub stopped: bool,
}

impl View for CaptureStep {
    type V = StepView;

    open spec fn view(&self) -> StepView {
        StepView {
            state: self.state,
            send: match self.send {
                Some(line) => Some(line@),
                None => None,
            },
            kill: self.kill,
            error: match self.error {
                Some(message) => Some(message@),
                None => None,
            },
            stopped: self.stopped,
        }
    }
}

/// The step that only goes on in a state.
pub open spec fn plain_step(state: CaptureState) -> StepView {
    StepView { state, send: None, kill: false, error: None, stopped: false }
}

/// The step after the signal to stop has changed: a capture that is to stop kills its process;
/// any other goes on reading, without the line that was on its way.
pub open spec fn after_signal(sender_gone: bool, stop: bool) -> StepView {
    if sender_gone || stop {
        StepView { kill: true, ..plain_step(CaptureState::Waiting { stop_requested: true }) }
    } else {
        plain_step(CaptureState::Reading)
    }
}

/// What a failed process has to say: what it wrote to its error output, or else its status.
pub open spec fn exit_detail(status: Seq<char>, stderr: Seq<char>) -> Seq<char> {
    if stderr.len() == 0 {
        "exit status "@ + status
    } else {
        stderr
    }
}

/// The error to report at the end of a process that was not asked to stop.
pub open spec fn exit_error(
    serial: Seq<char>,
    outcome: ExitOutcome,
    stderr: Seq<char>,
) -> Option<Seq<char>> {
    match outcome {
        ExitOutcome::Success => None,
        ExitOutcome::Failure(status) => Some(
            "adb logcat failed for "@ + serial + ": "@ + exit_detail(status@, stderr),
        ),
        ExitOutcome::Unknown(error) => Some(
            "adb logcat process failed for "@ + serial + ": "@ + error@,
        ),
    }
}

/// The next step of the capture from a device. What does not fit a state leaves it as it is.
pub open spec fn capture_step(
    serial: Seq<char>,
    state: CaptureState,
    input: CaptureInput,
) -> StepView {
    match (state, input) {
        (CaptureState::Starting, CaptureInput::Started) => plain_step(CaptureState::Reading),
        (CaptureState::Starting, CaptureInput::SpawnFailed(error)) => StepView {
            error: Some("Cannot start adb logcat for "@ + serial + ": "@ + error@),
            ..plain_step(CaptureState::Done)
        },
        (CaptureState::Starting, CaptureInput::NoOutput) => StepView {
            error: Some("adb logcat has no stdout for "@ + serial),
            ..plain_step(CaptureState::Done)
        },
        (CaptureState::Reading, CaptureInput::StopChanged { sender_gone, stop }) => after_signal(
            sender_gone,
            stop,
        ),
        (CaptureState::Sending, CaptureInput::StopChanged { sender_gone, stop }) => after_signal(
            sender_gone,
            stop,
        ),
        (CaptureState::Reading, CaptureInput::Line(line)) => StepView {
            send: Some(line@.push('\n')),
            ..plain_step(CaptureState::Sending)
        },
        (CaptureState::Reading, CaptureInput::End) => plain_step(
            CaptureState::Waiting { stop_requested: false },
        ),
        (CaptureState::Reading, CaptureInput::ReadFailed(error)) => StepView {
            kill: true,
            error: Some("adb logcat read failed for "@ + serial + ": "@ + error@),
            ..plain_step(CaptureState::Waiting { stop_requested: false })
        },
        (CaptureState::Sending, CaptureInput::Sent) => plain_step(CaptureState::Reading),
        (CaptureState::Sending, CaptureInput::Refused) => plain_step(
            CaptureState::Waiting { stop_requested: false },
        ),
        (CaptureState::Waiting { stop_requested }, CaptureInput::Exited { outcome, stderr }) =>
            StepView {
            error: if stop_requested {
                None
            } else {
                exit_error(serial, outcome, stderr@)
            },
            stopped: true,
            ..plain_step(CaptureState::Done)
        },
        _ => plain_step(state),
    }
}

/// The step that only goes on in a state.
fn go_on(state: CaptureState) -> (r: CaptureStep)
    ensures
        r@ == plain_step(state),
{
    CaptureStep { state, send: None, kill: false, error: None, stopped: false }
}

/// The step after the signal to stop has changed.
fn on_signal(sender_gone: bool, stop: bool) -> (r: CaptureStep)
    ensures
        r@ == after_signal(sender_gone, stop),
{
    if sender_gone || stop {
        CaptureStep {
            state: CaptureState::Waiting { stop_requested: true },
            send: None,
            kill: true,
            error: None,
            stopped: false,
        }
    } else {
        go_on(CaptureState::Reading)
    }
}

/// The error to report at the end of a process that was not asked to stop.
fn error_at_exit(serial: &str, outcome: &ExitOutcome, stderr: &str) -> (r: Option<String>)
    ensures
        match r {
            Some(message) => exit_error(serial@, *outcome, stderr@) == Some(message@),
            None => exit_error(serial@, *outcome, stderr@) is None,
        },
{
    match outcome {
        ExitOutcome::Success => None,
        ExitOutcome::Failure(status) => {
            let detail = if stderr.is_empty() {
                text::concat2("exit status ", status)
            } else {
                stderr.to_owned()
            };
            Some(text::concat4("adb logcat failed for ", serial, ": ", &detail))
        },
        ExitOutcome::Unknown(error) => Some(
            text::concat4("adb logcat process failed for ", serial, ": ", error),
        ),
    }
}

/// Takes the next step of the capture from a device.
pub fn advance_capture(serial: &str, state: CaptureState, input: &CaptureInput) -> (r: CaptureStep)
    ensures
        r@ == capture_step(serial@, state, *input),
{
    match (state, input) {
        (CaptureState::Starting, CaptureInput::Started) => go_on(CaptureState::Reading),
        (CaptureState::Starting, CaptureInput::SpawnFailed(error)) => CaptureStep {
            state: CaptureState::Done,
            send: None,
            kill: false,
            error: Some(text::concat4("Cannot start adb logcat for ", serial, ": ", error)),
            stopped: false,
        },
        (CaptureState::Starting, CaptureInput::NoOutput) => CaptureStep {
            state: CaptureState::Done,
            send: None,
            kill: false,
            error: Some(text::concat2("adb logcat has no stdout for ", serial)),
            stopped: false,
        },
        (CaptureState::Reading, CaptureInput::StopChanged { sender_gone, stop }) => on_signal(
            *sender_gone,
            *stop,
        ),
        (CaptureState::Sending, CaptureInput::StopChanged { sender_gone, stop }) => on_signal(
            *sender_gone,
            *stop,
        ),
        (CaptureState::Reading, CaptureInput::Line(line)) => {
            let mut whole = line.clone();
            whole.push('\n');
            CaptureStep {
                state: CaptureState::Sending,
                send: Some(whole),
                kill: false,
                error: None,
                stopped: false,
            }
        },
        (CaptureState::Reading, CaptureInput::End) => go_on(
            CaptureState::Waiting { stop_requested: false },
        ),
        (CaptureState::Reading, CaptureInput::ReadFailed(error)) => CaptureStep {
            state: CaptureState::Waiting { stop_requested: false },
            send: None,
            kill: true,
            error: Some(text::concat4("adb logcat read failed for ", serial, ": ", error)),
            stopped: false,
        },
        (CaptureState::Sending, CaptureInput::Sent) => go_on(CaptureState::Reading),
        (CaptureState::Sending, CaptureInput::Refused) => go_on(
            CaptureState::Waiting { stop_requested: false },
        ),
        (CaptureState::Waiting { stop_requested }, CaptureInput::Exited { outcome, stderr }) => {
            let error = if stop_requested {
                None
            } else {
                error_at_exit(serial, outcome, stderr)
            };
            CaptureStep {
                state: CaptureState::Done,
                send: None,
                kill: false,
                error,
                stopped: true,
            }
        },
        _ => go_on(state),
    }
}

/// The state after a number of inputs.
pub open spec fn state_after(
    serial: Seq<char>,
    state: CaptureState,
    inputs: Seq<CaptureInput>,
) -> CaptureState
    decreases inputs.len(),
{
    if inputs.len() == 0 {
        state
    } else {
        capture_step(serial, state_after(serial, state, inputs.drop_last()), inputs.last()).state
    }
}

/// How often it was reported, over a number of inputs, that the device stopped.
pub open spec fn stops_reported(
    serial: Seq<char>,
    state: CaptureState,
    inputs: Seq<CaptureInput>,
) -> nat
    decreases inputs.len(),
{
    if inputs.len() == 0 {
        0
    } else {
        let before = state_after(serial, state, inputs.drop_last());
        stops_reported(serial, state, inputs.drop_last()) + if capture_step(
            serial,
            before,
            inputs.last(),
        ).stopped {
            1nat
        } else {
            0
        }
    }
}

/// A capture that was started reports that its device stopped exactly once, when it is over.
pub proof fn capture_reports_one_stop(serial: Seq<char>, inputs: Seq<CaptureInput>)
    ensures
        stops_reported(serial, CaptureState::Reading, inputs) == if state_after(
            serial,
            CaptureState::Reading,
            inputs,
        ) == CaptureState::Done {
            1nat
        } else {
            0
        },
        state_after(serial, CaptureState::Reading, inputs) != CaptureState::Starting,
    decreases inputs.len(),
{
    if inputs.len() > 0 {
        capture_reports_one_stop(serial, inputs.drop_last());
    }
}

/// Once a capture was asked to stop, it does nothing more but wait for its process, and it
/// reports no error of that.
pub proof fn requested_stop_is_silent(serial: Seq<char>, input: CaptureInput)
    ensures
        ({
            let step = capture_step(
                serial,
                CaptureState::Waiting { stop_requested: true },
                input,
            );
            &&& step.error is None
            &&& step.send is None
            &&& step.state == CaptureState::Done || step.state == CaptureState::Waiting {
                stop_requested: true,
            }
        }),
{
}

/// A finished capture does nothing more.
pub proof fn finished_capture_stays_finished(serial: Seq<char>, input: CaptureInput)
    ensures
        capture_step(serial, CaptureState::Done, input) == plain_step(CaptureState::Done),
{
}

/// What waits for a file after a line came in.
pub open spec fn after_line(waiting: Seq<char>, line: Seq<char>) -> Seq<char> {
    waiting + line
}

/// What waits for a file after an attempt to write it.
pub open spec fn after_flush(waiting: Seq<char>, written: bool) -> Seq<char> {
    if written {
        Seq::empty()
    } else {
        waiting
    }
}

/// What waits to be written, by file.
pub struct LogBuffers {
    buffers: HashMap<u64, String>,
}

/// Each file has one entry.
pub open spec fn one_entry_each(entries: Seq<(u64, String)>) -> bool {
    forall|i: int, j: int|
        0 <= i < j < entries.len() ==> (#[trigger] entries[i]).0 != (#[trigger] entries[j]).0
}

impl LogBuffers {
    /// What waits to be written to a file.
    pub closed spec fn waiting(&self, file: u64) -> Seq<char> {
        if self.buffers@.contains_key(file) {
            self.buffers@[file]@
        } else {
            Seq::empty()
        }
    }

    /// Nothing waits yet.
    pub fn new() -> (r: LogBuffers)
        ensures
            forall|file: u64| #[trigger] r.waiting(file) == Seq::<char>::empty(),
    {
        LogBuffers { buffers: HashMap::new() }
    }

    /// Puts a line behind what waits for a file.
    pub fn push_line(&mut self, file: u64, line: &str)
        ensures
            forall|other: u64| #[trigger]
                final(self).waiting(other) == if other == file {
                    after_line(old(self).waiting(file), line@)
                } else {
                    old(self).waiting(other)
                },
    {
        let whole = match self.buffers.get(&file) {
            Some(waiting) => text::concat2(waiting, line),
            None => line.to_owned(),
        };
        assert(whole@ =~= after_line(self.waiting(file), line@));
        self.buffers.insert(file, whole);
    }

    /// What there is to write: each file for which something waits, with that.
    pub fn pending(&self) -> (r: Vec<(u64, String)>)
        ensures
            forall|i: int|
                0 <= i < r@.len() ==> (#[trigger] r@[i]).1@ == self.waiting(r@[i].0) && r@[i].1@.len()
                    > 0,
            one_entry_each(r@),
            forall|file: u64| #[trigger]
                self.waiting(file).len() > 0 ==> exists|i: int|
                    0 <= i < r@.len() && (#[trigger] r@[i]).0 == file,
    {
        let mut out: Vec<(u64, String)> = Vec::new();
        let ghost all = vstd::std_specs::iter::IteratorSpec::remaining(&self.buffers.iter());
        let ghost mut places: Seq<int> = Seq::empty();
        for pair in it: self.buffers.iter()
            invariant
                it.seq() == all,
                all.no_duplicates(),
                places.len() == out@.len(),
                forall|k: int|
                    0 <= k < places.len() ==> 0 <= #[trigger] places[k] < it.index() && out@[k].0
                        == *all[places[k]].0 && out@[k].1@ == all[places[k]].1@ && out@[k].1@.len()
                        > 0,
                forall|a: int, b: int|
                    0 <= a < b < places.len() ==> #[trigger] places[a] < #[trigger] places[b],
                forall|k: int|
                    0 <= k < it.index() && (#[trigger] all[k]).1@.len() > 0 ==> exists|m: int|
                        0 <= m < out@.len() && (#[trigger] out@[m]).0 == *all[k].0,
        {
            let ghost at = it.index();
            if !pair.1.as_str().is_empty() {
                let ghost before = out@;
                out.push((*pair.0, pair.1.clone()));
                proof {
                    places = places.push(at);
                    assert forall|k: int|
                        0 <= k < at + 1 && (#[trigger] all[k]).1@.len() > 0 implies exists|m: int|
                        0 <= m < out@.len() && (#[trigger] out@[m]).0 == *all[k].0 by {
                        if k < at {
                            let m = choose|m: int|
                                0 <= m < before.len() && (#[trigger] before[m]).0 == *all[k].0;
                            assert(out@[m].0 == *all[k].0);
                        } else {
                            assert(out@[out@.len() - 1].0 == *all[k].0);
                        }
                    }
                }
            }
        }
        proof {
            assert forall|k: int| 0 <= k < out@.len() implies (#[trigger] out@[k]).1@
                == self.waiting(out@[k].0) && out@[k].1@.len() > 0 by {
                assert(self.buffers@.contains_key(*all[places[k]].0));
            }
            assert forall|a: int, b: int| 0 <= a < b < out@.len() implies (#[trigger] out@[a]).0 != (
            #[trigger] out@[b]).0 by {
                assert(places[a] < places[b]);
                assert(self.buffers@[*all[places[a]].0] == *all[places[a]].1);
                assert(self.buffers@[*all[places[b]].0] == *all[places[b]].1);
                assert(all[places[a]] != all[places[b]]);
            }
            assert forall|file: u64| #[trigger] self.waiting(file).len() > 0 implies exists|i: int|
                0 <= i < out@.len() && (#[trigger] out@[i]).0 == file by {
                assert(self.buffers@.contains_key(file));
                assert(all.contains((&file, &self.buffers@[file])));
                let k = choose|k: int|
                    0 <= k < all.len() && all[k] == (&file, &self.buffers@[file]);
                assert(all[k].1@.len() > 0);
            }
        }
        out
    }

    /// Takes note of an attempt to write what waited for a file. Only what was written no
    /// longer waits.
    pub fn flushed(&mut self, file: u64, written: bool)
        ensures
            forall|other: u64| #[trigger]
                final(self).waiting(other) == if other == file {
                    after_flush(old(self).waiting(file), written)
                } else {
                    old(self).waiting(other)
                },
    {
        if written && self.buffers.contains_key(&file) {
            let none = String::new();
            assert(none@ =~= Seq::<char>::empty());
            self.buffers.insert(file, none);
        }
    }
}

/// Something that happens to the buffer of one file: a line comes in, or an attempt is made
/// to write what waits.
pub enum BufferInput {
    Line(Seq<char>),
    Flush { written: bool },
}

/// What waits for a file, and what was written to it, after a number of inputs.
pub open spec fn buffer_after(inputs: Seq<BufferInput>) -> (Seq<char>, Seq<char>)
    decreases inputs.len(),
{
    if inputs.len() == 0 {
        (Seq::empty(), Seq::empty())
    } else {
        let (waiting, done) = buffer_after(inputs.drop_last());
        match inputs.last() {
            BufferInput::Line(line) => (after_line(waiting, line), done),
            BufferInput::Flush { written } => (
                after_flush(waiting, written),
                if written {
                    done + waiting
                } else {
                    done
                },
            ),
        }
    }
}

/// All lines that came in, one after another.
pub open spec fn lines_received(inputs: Seq<BufferInput>) -> Seq<char>
    decreases inputs.len(),
{
    if inputs.len() == 0 {
        Seq::empty()
    } else {
        match inputs.last() {
            BufferInput::Line(line) => lines_received(inputs.drop_last()) + line,
            _ => lines_received(inputs.drop_last()),
        }
    }
}

/// No line is lost, written twice or written out of order, whatever attempts to write fail:
/// what was written and what waits are, together, all that came in.
pub proof fn no_line_is_lost(inputs: Seq<BufferInput>)
    ensures
        buffer_after(inputs).1 + buffer_after(inputs).0 == lines_received(inputs),
    decreases inputs.len(),
{
    if inputs.len() > 0 {
        no_line_is_lost(inputs.drop_last());
        let (waiting, done) = buffer_after(inputs.drop_last());
        match inputs.last() {
            BufferInput::Line(line) => {
                assert(done + (waiting + line) =~= done + waiting + line);
            },
            BufferInput::Flush { written } => {
                if written {
                    assert((done + waiting) + Seq::<char>::empty() =~= done + waiting);
                }
            },
        }
    } else {
        assert(Seq::<char>::empty() + Seq::<char>::empty() =~= Seq::<char>::empty());
    }
}

/// What the report of a failed attempt to write says.
pub fn write_error(path: &str, error: &str) -> (r: String)
    ensures
        r@ == "Cannot write "@ + path@ + ": "@ + error@,
{
    text::concat4("Cannot write ", path, ": ", error)
}

/// What the report of a log file that could not be made says.
pub fn create_error(serial: &str, error: &str) -> (r: String)
    ensures
        r@ == "Cannot create log file for "@ + serial@ + ": "@ + error@,
{
    text::concat4("Cannot create log file for ", serial, ": ", error)
}

/// What is said where there is no directory to keep logs in.
pub fn cache_dir_error(error: &str) -> (r: String)
    ensures
        r@ == "Cannot determine the application cache directory: "@ + error@,
{
    text::concat2("Cannot determine the application cache directory: ", error)
}

/// How listing the kept logs went.
pub enum HistoryListing {
    Listed,
    /// There is no such directory.
    NotFound,
    Failed(String),
}

/// Whether to go through the kept logs; where there is no directory, none have to be removed.
pub fn begin_clear(listing: &HistoryListing, directory: &str) -> (r: Result<bool, String>)
    ensures
        match *listing {
            HistoryListing::Listed => r == Ok::<bool, String>(true),
            HistoryListing::NotFound => r == Ok::<bool, String>(false),
            HistoryListing::Failed(error) => r matches Err(message) && message@ == "Cannot read "@
                + directory@ + ": "@ + error@,
        },
{
    match listing {
        HistoryListing::Listed => Ok(true),
        HistoryListing::NotFound => Ok(false),
        HistoryListing::Failed(error) => Err(
            text::concat4("Cannot read ", directory, ": ", error),
        ),
    }
}

/// What became of one entry of the directory of kept logs.
pub enum ClearedEntry {
    /// Its name could not be read.
    Unreadable(String),
    /// What it is could not be learned.
    Uninspected { path: String, error: String },
    /// It is no file, and stays.
    NotAFile,
    /// It could not be deleted.
    Undeleted { path: String, error: String },
    Deleted,
}

/// The number of files removed after one more entry, or why clearing ends there.
pub fn clear_entry(removed: usize, entry: &ClearedEntry, directory: &str) -> (r: Result<
    usize,
    String,
>)
    requires
        removed < usize::MAX,
    ensures
        match *entry {
            ClearedEntry::Unreadable(error) => r matches Err(message) && message@
                == "Cannot read an entry in "@ + directory@ + ": "@ + error@,
            ClearedEntry::Uninspected { path, error } => r matches Err(message) && message@
                == "Cannot inspect "@ + path@ + ": "@ + error@,
            ClearedEntry::NotAFile => r == Ok::<usize, String>(removed),
            ClearedEntry::Undeleted { path, error } => r matches Err(message) && message@
                == "Cannot delete "@ + path@ + ": "@ + error@,
            ClearedEntry::Deleted => r == Ok::<usize, String>((removed + 1) as usize),
        },
{
    match entry {
        ClearedEntry::Unreadable(error) => Err(
            text::concat4("Cannot read an entry in ", directory, ": ", error),
        ),
        ClearedEntry::Uninspected { path, error } => Err(
            text::concat4("Cannot inspect ", path, ": ", error),
        ),
        ClearedEntry::NotAFile => Ok(removed),
        ClearedEntry::Undeleted { path, error } => Err(
            text::concat4("Cannot delete ", path, ": ", error),
        ),
        ClearedEntry::Deleted => Ok(removed + 1),
    }
}

/// Whether a log whose directory is `parent` is a kept log: whether that is the directory of
/// kept logs, as far as there is one.
pub fn is_history_log<P: PartialEq>(parent: Option<&P>, directory: Option<&P>) -> (r: bool)
    requires
        P::obeys_eq_spec(),
    ensures
        r == match (parent, directory) {
            (Some(parent), Some(directory)) => parent.eq_spec(directory),
            _ => false,
        },
{
    match (parent, directory) {
        (Some(parent), Some(directory)) => *parent == *directory,
        _ => false,
    }
}

/// Where an `adb` may stand.
#[derive(Clone, Copy, Debug, PartialEq, Eq, Structural)]
pub enum AdbBase {
    /// In the source tree.
    Source,
    /// Beside the program.
    Program,
    /// In the bundle around the program.
    Bundle,
}

/// A place where `adb` may stand: a directory, and the way from there.
pub struct AdbCandidate {
    pub base: AdbBase,
    pub parts: Vec<String>,
}

/// The names of the directory and the program for a platform.
pub open spec fn adb_names(windows: bool) -> (Seq<char>, Seq<char>) {
    if windows {
        ("win"@, "adb.exe"@)
    } else {
        ("mac"@, "adb"@)
    }
}

/// The way to `adb` from a base.
pub open spec fn adb_way(base: AdbBase, windows: bool) -> Seq<Seq<char>> {
    let (platform, executable) = adb_names(windows);
    match base {
        AdbBase::Source => seq!["../../resources"@, platform, executable],
        AdbBase::Program => seq!["resources"@, platform, executable],
        AdbBase::Bundle => seq!["Resources"@, "resources"@, platform, executable],
    }
}

fn adb_candidate(base: AdbBase, windows: bool) -> (r: AdbCandidate)
    ensures
        r.base == base,
        text::texts(r.parts@) == adb_way(base, windows),
{
    let mut parts: Vec<String> = Vec::new();
    match base {
        AdbBase::Source => {
            parts.push("../../resources".to_owned());
        },
        AdbBase::Program => {
            parts.push("resources".to_owned());
        },
        AdbBase::Bundle => {
            parts.push("Resources".to_owned());
            parts.push("resources".to_owned());
        },
    }
    if windows {
        parts.push("win".to_owned());
        parts.push("adb.exe".to_owned());
    } else {
        parts.push("mac".to_owned());
        parts.push("adb".to_owned());
    }
    assert(text::texts(parts@) =~= adb_way(base, windows));
    AdbCandidate { base, parts }
}

/// The bases that are known, in the order in which `adb` is looked for.
pub open spec fn adb_bases(program_known: bool, bundle_known: bool) -> Seq<AdbBase> {
    if program_known && bundle_known {
        seq![AdbBase::Source, AdbBase::Program, AdbBase::Bundle]
    } else if program_known {
        seq![AdbBase::Source, AdbBase::Program]
    } else {
        seq![AdbBase::Source]
    }
}

/// Where to look for a bundled `adb`.
pub fn adb_candidates(windows: bool, program_known: bool, bundle_known: bool) -> (r: Vec<
    AdbCandidate,
>)
    ensures
        r@.len() == adb_bases(program_known, bundle_known).len(),
        forall|i: int|
            0 <= i < r@.len() ==> (#[trigger] r@[i]).base == adb_bases(
                program_known,
                bundle_known,
            )[i] && text::texts(r@[i].parts@) == adb_way(r@[i].base, windows),
{
    let mut out: Vec<AdbCandidate> = Vec::new();
    out.push(adb_candidate(AdbBase::Source, windows));
    if program_known {
        out.push(adb_candidate(AdbBase::Program, windows));
        if bundle_known {
            out.push(adb_candidate(AdbBase::Bundle, windows));
        }
    }
    out
}

/// The `adb` to use.
#[derive(Clone, Copy, Debug, PartialEq, Eq, Structural)]
pub enum AdbChoice {
    /// The one that the environment names.
    Named,
    /// One of those that were looked for.
    Candidate(usize),
}

/// Chooses an `adb`. `named` is the one that the environment names, with whether there is such
/// a file; it alone counts where there is one. `present` says of each candidate whether there
/// is such a file.
pub fn adb_path(named: Option<(String, bool)>, present: &Vec<bool>) -> (r: Result<
    AdbChoice,
    String,
>)
    ensures
        match named {
            Some((path, exists_there)) => if exists_there {
                r == Ok::<AdbChoice, String>(AdbChoice::Named)
            } else {
                r matches Err(message) && message@ == "LOGD_ADB_PATH does not exist: "@ + path@
            },
            None => match r {
                Ok(AdbChoice::Named) => false,
                Ok(AdbChoice::Candidate(i)) => i < present@.len() && present@[i as int] && forall|
                    k: int,
                |
                    0 <= k < i ==> !present@[k],
                Err(message) => message@ == "Bundled adb was not found in resources"@
                    && !present@.contains(true),
            },
        },
{
    if let Some((path, exists_there)) = named {
        return if exists_there {
            Ok(AdbChoice::Named)
        } else {
            Err(text::concat2("LOGD_ADB_PATH does not exist: ", &path))
        };
    }
    let mut i: usize = 0;
    while i < present.len()
        invariant
            i <= present@.len(),
            named is None,
            forall|k: int| 0 <= k < i ==> !present@[k],
        decreases present@.len() - i,
    {
        if present[i] {
            return Ok(AdbChoice::Candidate(i));
        }
        i += 1;
    }
    Err("Bundled adb was not found in resources".to_owned())
}

/// The search path for libraries with that of `adb` put before it.
pub fn library_path(own: &str, existing: Option<String>) -> (r: String)
    ensures
        r@ == match existing {
            Some(existing) => own@ + ":"@ + existing@,
            None => own@,
        },
{
    match existing {
        Some(existing) => text::concat3(own, ":", &existing),
        None => own.to_owned(),
    }
}

/// The devices are the first words of those lines whose second word is `device`, in their order;
/// devices in any other state are passed over.
pub proof fn devices_are_those_that_are_ready(lines: Seq<Seq<char>>)
    ensures
        ready_devices(lines) == lines.filter_map(
            |line: Seq<char>|
                if text::words(line).len() >= 2 && text::words(line)[1] == "device"@ {
                    Some(text::words(line)[0])
                } else {
                    None
                },
        ),
    decreases lines.len(),
{
    if lines.len() > 0 {
        devices_are_those_that_are_ready(lines.drop_last());
    }
    assert(ready_devices(lines) =~= lines.filter_map(
        |line: Seq<char>|
            if text::words(line).len() >= 2 && text::words(line)[1] == "device"@ {
                Some(text::words(line)[0])
            } else {
                None
            },
    ));
}

/// Only letters and digits of ASCII, the hyphen, the underscore and the dot stay in a file name;
/// an underscore takes the place of any other character.
pub proof fn other_characters_become_underscores(serial: Seq<char>, i: int)
    requires
        0 <= i < serial.len(),
    ensures
        ({
            let c = serial[i];
            safe_name(serial)[i] == if ('0' <= c <= '9') || ('a' <= c <= 'z') || ('A' <= c <= 'Z')
                || c == '-' || c == '_' || c == '.' {
                c
            } else {
                '_'
            }
        }),
{
}

/// While a capture runs, each line goes to the writer with its line ending, and then the next one
/// is awaited. Nothing else is ever sent.
pub proof fn lines_go_to_the_writer(serial: Seq<char>, state: CaptureState, input: CaptureInput)
    ensures
        capture_step(serial, state, input).send == match input {
            CaptureInput::Line(line) => if state == CaptureState::Reading {
                Some(line@ + seq!['\n'])
            } else {
                None
            },
            _ => None,
        },
        state == CaptureState::Reading && input is Line ==> capture_step(
            serial,
            state,
            input,
        ).state == CaptureState::Sending,
        state == CaptureState::Sending && input is Sent ==> capture_step(
            serial,
            state,
            input,
        ).state == CaptureState::Reading,
        state == CaptureState::Starting && input is Started ==> capture_step(
            serial,
            state,
            input,
        ).state == CaptureState::Reading,
{
    if let CaptureInput::Line(line) = input {
        assert(line@.push('\n') =~= line@ + seq!['\n']);
    }
}

/// A running capture kills its process exactly when it is asked to stop, when nobody is left to
/// ask it, or when its output cannot be read; then it waits for the end of the process. It
/// waits for that too when the output ends or the writer is gone.
pub proof fn a_capture_ends_with_its_process(
    serial: Seq<char>,
    state: CaptureState,
    input: CaptureInput,
)
    ensures
        ({
            let step = capture_step(serial, state, input);
            let running = state == CaptureState::Reading || state == CaptureState::Sending;
            &&& step.kill <==> (running && match input {
                CaptureInput::StopChanged { sender_gone, stop } => sender_gone || stop,
                CaptureInput::ReadFailed(_) => state == CaptureState::Reading,
                _ => false,
            })
            &&& step.kill ==> step.state == (CaptureState::Waiting {
                stop_requested: input is StopChanged,
            })
            &&& state == CaptureState::Reading && input is End ==> step.state == (
            CaptureState::Waiting { stop_requested: false })
            &&& state == CaptureState::Sending && input is Refused ==> step.state == (
            CaptureState::Waiting { stop_requested: false })
            &&& step.stopped <==> (state is Waiting && input is Exited)
            &&& step.stopped ==> step.state == CaptureState::Done
        }),
{
}

/// A process that ended without being asked to is an error unless it ended with success; its
/// error output says why, or its status where there is none.
pub proof fn failed_processes_are_reported(serial: Seq<char>, outcome: ExitOutcome, stderr: String)
    ensures
        capture_step(
            serial,
            CaptureState::Waiting { stop_requested: false },
            CaptureInput::Exited { outcome, stderr },
        ).error == match outcome {
            ExitOutcome::Success => None,
            ExitOutcome::Failure(status) => Some(
                "adb logcat failed for "@ + serial + ": "@ + if stderr@.len() == 0 {
                    "exit status "@ + status@
                } else {
                    stderr@
                },
            ),
            ExitOutcome::Unknown(error) => Some(
                "adb logcat process failed for "@ + serial + ": "@ + error@,
            ),
        },
{
}

/// The tool is looked for beside the sources first, then beside the program where its place is
/// known, and in the bundle last, where that is known as well. On each way it stands under the
/// directory of its platform, and its own name ends the way.
pub proof fn the_tool_has_the_name_of_its_platform(
    base: AdbBase,
    windows: bool,
    program_known: bool,
    bundle_known: bool,
)
    ensures
        ({
            let way = adb_way(base, windows);
            let bases = adb_bases(program_known, bundle_known);
            &&& way.len() == if base is Bundle {
                4nat
            } else {
                3
            }
            &&& windows ==> way.last() == "adb.exe"@ && way[way.len() - 2] == "win"@
            &&& !windows ==> way.last() == "adb"@ && way[way.len() - 2] == "mac"@
            &&& bases[0] == AdbBase::Source
            &&& bases.contains(AdbBase::Program) <==> program_known
            &&& bases.contains(AdbBase::Bundle) <==> program_known && bundle_known
            &&& bases.no_duplicates()
        }),
{
    let bases = adb_bases(program_known, bundle_known);
    if program_known {
        assert(bases[1] == AdbBase::Program);
    }
    if program_known && bundle_known {
        assert(bases[2] == AdbBase::Bundle);
    }
}

} // verus!
