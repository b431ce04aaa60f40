//! Updates: which release is offered, what is to be downloaded, and what the update
//! dialog shows.

use crate::text;
use vstd::prelude::*;

verus! {

/// What `semver::Version::parse` reports of a text that is no version.
pub uninterp spec fn version_fault(version: Seq<char>) -> Option<Seq<char>>;

/// How `semver::Version` orders two versions: the first is at most the second.
pub uninterp spec fn version_at_most(a: Seq<char>, b: Seq<char>) -> bool;

/// Calls `semver::Version::parse`. Whether a text is a version, and in which words it is
/// refused, follows from the text alone.
#[verifier::external_body]
fn check_version(version: &str) -> (r: Option<String>)
    ensures
        match r {
            Some(message) => version_fault(version@) == Some(message@),
            None => version_fault(version@) is None,
        },
{
    semver::Version::parse(version).err().map(|error| error.to_string())
}

/// Calls `<=` of `semver::Version`. The answer follows from the two texts alone, and a version
/// is at most itself.
#[verifier::external_body]
fn is_at_most(a: &str, b: &str) -> (r: bool)
    requires
        version_fault(a@) is None,
        version_fault(b@) is None,
    ensures
        r == version_at_most(a@, b@),
        a@ == b@ ==> r,
{
    match (semver::Version::parse(a), semver::Version::parse(b)) {
        (Ok(a), Ok(b)) => a <= b,
        _ => false,
    }
}

/// A release that can be installed.
#[derive(Debug)]
pub struct ManualRelease {
    pub version: String,
    pub download_url: String,
    pub size: u64,
}

impl Clone for ManualRelease {
    fn clone(&self) -> (r: ManualRelease)
        ensures
            r == *self,
    {
        ManualRelease {
            version: self.version.clone(),
            download_url: self.download_url.clone(),
            size: self.size,
        }
    }
}

/// What an update reports.
#[derive(Debug)]
pub enum ManualUpdateEvent {
    Available(ManualRelease),
    UpToDate,
    Progress { downloaded: u64, total: u64 },
    Restarting,
    Error(String),
}

/// A file of a published release.
pub struct GithubAsset {
    pub name: String,
    pub browser_download_url: String,
    pub size: u64,
}

/// A published release.
pub struct GithubRelease {
    pub tag_name: String,
    pub assets: Vec<GithubAsset>,
}

/// Where the latest release is described.
pub fn latest_release_url() -> (r: String)
    ensures
        r@ == "https://api.github.com/repos/"@ + "965962591"@ + "/"@ + "logd"@
            + "/releases/latest"@,
{
    let owner = text::concat4("https://api.github.com/repos/", "965962591", "/", "logd");
    text::concat2(&owner, "/releases/latest")
}

/// A tag without the letters `v` at its front.
pub open spec fn tag_version(tag: Seq<char>) -> Seq<char>
    decreases tag.len(),
{
    if tag.len() > 0 && (tag[0] == 'v' || tag[0] == 'V') {
        tag_version(tag.skip(1))
    } else {
        tag
    }
}

/// The first asset with a name.
pub open spec fn asset_named(assets: Seq<GithubAsset>, name: Seq<char>) -> Option<GithubAsset>
    decreases assets.len(),
{
    if assets.len() == 0 {
        None
    } else if assets[0].name@ == name {
        Some(assets[0])
    } else {
        asset_named(assets.skip(1), name)
    }
}

/// What is made of a release that is newer than the running version.
pub open spec fn offer(release: GithubRelease, asset_name: Seq<char>) -> Result<
    (Seq<char>, Seq<char>, u64),
    Seq<char>,
> {
    match asset_named(release.assets@, asset_name) {
        Some(asset) => Ok(
            (
                release.tag_name@,
                "https://gh-proxy.com/"@ + asset.browser_download_url@,
                asset.size,
            ),
        ),
        None => Err("release "@ + release.tag_name@ + " 缺少当前平台资源 "@ + asset_name),
    }
}

/// A file is offered only if it has exactly the name asked for; of several with that name it is
/// the first. The download is that file's address behind the proxy, with that file's size. A
/// release without such a file is an error.
pub proof fn the_offered_file_has_the_name_asked_for(release: GithubRelease, name: Seq<char>)
    ensures
        forall|i: int|
            0 <= i < release.assets@.len() && (#[trigger] release.assets@[i]).name@ == name && (
            forall|k: int| 0 <= k < i ==> (#[trigger] release.assets@[k]).name@ != name) ==> offer(
                release,
                name,
            ) == Ok::<(Seq<char>, Seq<char>, u64), Seq<char>>(
                (
                    release.tag_name@,
                    "https://gh-proxy.com/"@ + release.assets@[i].browser_download_url@,
                    release.assets@[i].size,
                ),
            ),
        offer(release, name) is Ok ==> exists|i: int|
            0 <= i < release.assets@.len() && (#[trigger] release.assets@[i]).name@ == name && (
            forall|k: int| 0 <= k < i ==> (#[trigger] release.assets@[k]).name@ != name),
        (forall|i: int|
            0 <= i < release.assets@.len() ==> (#[trigger] release.assets@[i]).name@ != name)
            ==> offer(release, name) == Err::<(Seq<char>, Seq<char>, u64), Seq<char>>(
            "release "@ + release.tag_name@ + " 缺少当前平台资源 "@ + name,
        ),
{
    let assets = release.assets@;
    let found = lemma_asset_named(assets, name);
    assert forall|i: int|
        0 <= i < assets.len() && (#[trigger] assets[i]).name@ == name && (forall|k: int|
            0 <= k < i ==> (#[trigger] assets[k]).name@ != name) implies i == found by {
        if i < found {
            assert(assets[i].name@ != name);
        } else if found < i {
            assert(assets[found].name@ != name);
        }
    }
}

proof fn lemma_asset_named(assets: Seq<GithubAsset>, name: Seq<char>) -> (i: int)
    ensures
        0 <= i <= assets.len(),
        forall|k: int| 0 <= k < i ==> (#[trigger] assets[k]).name@ != name,
        i < assets.len() ==> assets[i].name@ == name && asset_named(assets, name) == Some(assets[i]),
        i == assets.len() ==> asset_named(assets, name) is None,
    decreases assets.len(),
{
    if assets.len() == 0 || assets[0].name@ == name {
        0
    } else {
        let rest = assets.skip(1);
        let i = lemma_asset_named(rest, name);
        assert forall|k: int| 0 <= k < i + 1 implies (#[trigger] assets[k]).name@ != name by {
            if k > 0 {
                assert(rest[k - 1].name@ != name);
            }
        }
        i + 1
    }
}

/// The version of a tag is what is left when all letters `v`, small or capital, at its front are
/// gone, and nothing else.
pub proof fn tags_lose_the_letters_at_their_front(tag: Seq<char>)
    ensures
        exists|n: int|
            0 <= n <= tag.len() && tag_version(tag) == #[trigger] tag.skip(n) && forall|k: int|
                0 <= k < n ==> #[trigger] tag[k] == 'v' || tag[k] == 'V',
        tag_version(tag).len() > 0 ==> tag_version(tag)[0] != 'v' && tag_version(tag)[0] != 'V',
    decreases tag.len(),
{
    if tag.len() > 0 && (tag[0] == 'v' || tag[0] == 'V') {
        let rest = tag.skip(1);
        tags_lose_the_letters_at_their_front(rest);
        let n = choose|n: int|
            0 <= n <= rest.len() && tag_version(rest) == #[trigger] rest.skip(n) && forall|k: int|
                0 <= k < n ==> #[trigger] rest[k] == 'v' || rest[k] == 'V';
        assert(rest.skip(n) =~= tag.skip(n + 1));
        assert forall|k: int| 0 <= k < n + 1 implies #[trigger] tag[k] == 'v' || tag[k]
            == 'V' by {
            if k > 0 {
                assert(rest[k - 1] == 'v' || rest[k - 1] == 'V');
            }
        }
    } else {
        assert(tag.skip(0) =~= tag);
    }
}

/// A release by its texts.
pub open spec fn release_view(release: ManualRelease) -> (Seq<char>, Seq<char>, u64) {
    (release.version@, release.download_url@, release.size)
}

/// A tag without the letters `v` at its front.
fn strip_tag(tag: &str) -> (r: String)
    ensures
        r@ == tag_version(tag@),
{
    let chars = text::chars_of(tag);
    let mut from: usize = 0;
    assert(chars@.skip(0) =~= chars@);
    while from < chars.len() && (chars[from] == 'v' || chars[from] == 'V')
        invariant
            from <= chars@.len(),
            tag_version(chars@.skip(from as int)) == tag_version(chars@),
        decreases chars@.len() - from,
    {
        assert(chars@.skip(from as int).skip(1) =~= chars@.skip(from + 1));
        from += 1;
    }
    let rest = text::part_of(&chars, from, chars.len());
    assert(rest@ =~= chars@.skip(from as int));
    text::text_of(&rest)
}

/// What is made of a release once it is known whether it is newer than the running version.
pub fn offer_release(release: &GithubRelease, newer: bool, asset_name: &str) -> (r: Result<
    Option<ManualRelease>,
    String,
>)
    ensures
        match r {
            Ok(None) => !newer,
            Ok(Some(offered)) => newer && offer(*release, asset_name@) == Ok::<
                (Seq<char>, Seq<char>, u64),
                Seq<char>,
            >(release_view(offered)),
            Err(message) => newer && offer(*release, asset_name@) == Err::<
                (Seq<char>, Seq<char>, u64),
                Seq<char>,
            >(message@),
        },
        r matches Ok(Some(offered)) ==> exists|i: int|
            0 <= i < release.assets@.len() && (#[trigger] release.assets@[i]).name@ == asset_name@
                && offered.version@ == release.tag_name@ && offered.download_url@
                == "https://gh-proxy.com/"@ + release.assets@[i].browser_download_url@
                && offered.size == release.assets@[i].size && (forall|k: int|
                0 <= k < i ==> (#[trigger] release.assets@[k]).name@ != asset_name@),
{
    if !newer {
        return Ok(None);
    }
    let mut i: usize = 0;
    assert(release.assets@.skip(0) =~= release.assets@);
    while i < release.assets.len()
        invariant
            i <= release.assets@.len(),
            newer,
            forall|k: int| 0 <= k < i ==> (#[trigger] release.assets@[k]).name@ != asset_name@,
            asset_named(release.assets@.skip(i as int), asset_name@) == asset_named(
                release.assets@,
                asset_name@,
            ),
        decreases release.assets@.len() - i,
    {
        let asset = &release.assets[i];
        assert(release.assets@.skip(i as int)[0] == *asset);
        assert(release.assets@.skip(i as int).skip(1) =~= release.assets@.skip(i + 1));
        if text::same_text(&asset.name, asset_name) {
            assert(release.assets@[i as int].name@ == asset_name@);
            return Ok(
                Some(
                    ManualRelease {
                        version: release.tag_name.clone(),
                        download_url: text::concat2(
                            "https://gh-proxy.com/",
                            &asset.browser_download_url,
                        ),
                        size: asset.size,
                    },
                ),
            );
        }
        i += 1;
    }
    Err(text::concat4("release ", &release.tag_name, " 缺少当前平台资源 ", asset_name))
}

/// The release to offer to a running version, if it is newer than that. Versions that cannot
/// be read, and a release without a file for this platform, are errors.
pub fn choose_release(release: &GithubRelease, current: &str, asset_name: &str) -> (r: Result<
    Option<ManualRelease>,
    String,
>)
    ensures
        match version_fault(current@) {
            Some(message) => r matches Err(said) && said@ == message,
            None => match version_fault(tag_version(release.tag_name@)) {
                Some(message) => r matches Err(said) && said@ == message,
                None => if version_at_most(tag_version(release.tag_name@), current@) {
                    r matches Ok(offered) && offered is None
                } else {
                    match r {
                        Ok(Some(offered)) => offer(*release, asset_name@) == Ok::<
                            (Seq<char>, Seq<char>, u64),
                            Seq<char>,
                        >(release_view(offered)),
                        Ok(None) => false,
                        Err(message) => offer(*release, asset_name@) == Err::<
                            (Seq<char>, Seq<char>, u64),
                            Seq<char>,
                        >(message@),
                    }
                },
            },
        },
        version_fault(current@) is None && tag_version(release.tag_name@) == current@ ==> (
        r matches Ok(offered) && offered is None),
        r matches Ok(Some(offered)) ==> exists|i: int|
            0 <= i < release.assets@.len() && (#[trigger] release.assets@[i]).name@ == asset_name@
                && offered.version@ == release.tag_name@ && offered.download_url@
                == "https://gh-proxy.com/"@ + release.assets@[i].browser_download_url@
                && offered.size == release.assets@[i].size && (forall|k: int|
                0 <= k < i ==> (#[trigger] release.assets@[k]).name@ != asset_name@),
{
    if let Some(message) = check_version(current) {
        return Err(message);
    }
    let latest = strip_tag(&release.tag_name);
    if let Some(message) = check_version(&latest) {
        return Err(message);
    }
    let newer = !is_at_most(&latest, current);
    offer_release(release, newer, asset_name)
}

/// The name of the file that a release holds for this platform.
pub fn platform_asset_name(windows: bool) -> (r: &'static str)
    ensures
        r@ == if windows {
            "logd.exe"@
        } else {
            "logd"@
        },
{
    if windows {
        "logd.exe"
    } else {
        "logd"
    }
}

/// The name of the file beside the program to which an update is downloaded.
pub fn staged_update_name(process: u32, extension: Option<&str>) -> (r: String)
    ensures
        r@ == match extension {
            Some(extension) => ".logd-update-"@ + text::decimal(process as nat) + "."@ + extension@,
            None => ".logd-update-"@ + text::decimal(process as nat),
        },
{
    let number = text::decimal_text(process as u64);
    match extension {
        Some(extension) => text::concat4(".logd-update-", &number, ".", extension),
        None => text::concat2(".logd-update-", &number),
    }
}

/// Why a program may not replace itself, if it may not.
pub fn replacement_refusal(dev_build: bool) -> (r: Option<String>)
    ensures
        match r {
            Some(message) => dev_build && message@
                == "开发版本不能覆盖自身，请使用发布版测试更新"@,
            None => !dev_build,
        },
{
    if dev_build {
        Some("开发版本不能覆盖自身，请使用发布版测试更新".to_owned())
    } else {
        None
    }
}

/// The number of bytes that a download is expected to have, by the release and by what the
/// server announces.
pub fn download_total(size: u64, announced: Option<&str>) -> (r: u64)
    ensures
        r == ({
            let header = match announced {
                Some(value) => match text::number(value@) {
                    Some(n) => n,
                    None => 0,
                },
                None => 0,
            };
            if size >= header {
                size as nat
            } else {
                header
            }
        }),
{
    let header: u64 = match announced {
        Some(value) => match text::parse_number(&text::chars_of(value)) {
            Some(n) => n,
            None => 0,
        },
        None => 0,
    };
    if size >= header {
        size
    } else {
        header
    }
}

/// Takes note of bytes that came in.
pub fn received(downloaded: u64, count: u64, total: u64) -> (r: (u64, ManualUpdateEvent))
    requires
        downloaded + count <= u64::MAX,
    ensures
        r.0 == downloaded + count,
        r.1 == (ManualUpdateEvent::Progress { downloaded: r.0, total }),
{
    let downloaded: u64 = downloaded + count;
    (downloaded, ManualUpdateEvent::Progress { downloaded, total })
}

/// Checks that a finished download has the size of the release, where that is known.
pub fn check_download(size: u64, downloaded: u64) -> (r: Result<(), String>)
    ensures
        match r {
            Ok(()) => size == 0 || downloaded == size,
            Err(message) => size > 0 && downloaded != size && message@
                == "下载大小不匹配：预期 "@ + text::decimal(size as nat)
                + " 字节，实际 "@ + text::decimal(downloaded as nat) + " 字节"@,
        },
{
    if size > 0 && downloaded != size {
        let start = text::concat4(
            "下载大小不匹配：预期 ",
            &text::decimal_text(size),
            " 字节，实际 ",
            &text::decimal_text(downloaded),
        );
        Err(text::concat2(&start, " 字节"))
    } else {
        Ok(())
    }
}

/// Whether one of some variables holds a token.
pub fn has_github_token(values: &Vec<Option<String>>) -> (r: bool)
    ensures
        r == exists|i: int|
            0 <= i < values@.len() && (#[trigger] values@[i] matches Some(value) && text::trim(
                value@,
            ).len() > 0),
{
    let mut i: usize = 0;
    while i < values.len()
        invariant
            i <= values@.len(),
            forall|k: int|
                0 <= k < i ==> !(#[trigger] values@[k] matches Some(value) && text::trim(
                    value@,
                ).len() > 0),
        decreases values@.len() - i,
    {
        if let Some(value) = &values[i] {
            if text::trimmed(&text::chars_of(value)).len() > 0 {
                assert(values@[i as int] matches Some(value) && text::trim(value@).len() > 0);
                return true;
            }
        }
        i += 1;
    }
    false
}

/// Whether to look for an update at the start. Not where that is switched off, where it would
/// open a console window (on Windows, to ask the command line tool for a token), where the
/// program does not know its own place, and not in a development build.
pub fn should_auto_update(
    switched_off: bool,
    windows: bool,
    has_token: bool,
    tool_available: bool,
    place_known: bool,
    dev_build: bool,
) -> (r: bool)
    ensures
        r == (!switched_off && !(windows && !has_token && tool_available) && place_known
            && !dev_build),
{
    if switched_off {
        return false;
    }
    if windows && !has_token && tool_available {
        return false;
    }
    place_known && !dev_build
}

/// What the update dialog is busy with.
#[derive(Debug)]
pub enum UpdateStatus {
    Idle,
    Checking,
    Available(ManualRelease),
    Downloading { version: String, downloaded: u64, total: u64 },
    UpToDate,
    Error(String),
    Restarting,
}

/// Nothing new can be started: something is under way.
pub open spec fn is_busy(status: UpdateStatus) -> bool {
    status is Checking || status is Downloading || status is Restarting
}

/// The update dialog.
pub struct UpdateDialog {
    pub status: UpdateStatus,
}

/// The version that is being downloaded.
pub open spec fn downloading_version(status: UpdateStatus) -> Seq<char> {
    match status {
        UpdateStatus::Downloading { version, downloaded, total } => version@,
        _ => Seq::empty(),
    }
}

impl UpdateDialog {
    /// A dialog in which nothing has happened yet.
    pub fn new() -> (r: UpdateDialog)
        ensures
            r.status is Idle,
    {
        UpdateDialog { status: UpdateStatus::Idle }
    }

    /// Whether something is under way.
    fn busy(&self) -> (r: bool)
        ensures
            r == is_busy(self.status),
    {
        match &self.status {
            UpdateStatus::Checking => true,
            UpdateStatus::Downloading { .. } => true,
            UpdateStatus::Restarting => true,
            _ => false,
        }
    }

    /// Starts to look for an update, unless something is under way. Says whether to look.
    pub fn check(&mut self) -> (r: bool)
        ensures
            r == !is_busy(old(self).status),
            r ==> final(self).status is Checking,
            !r ==> *final(self) == *old(self),
    {
        if self.busy() {
            return false;
        }
        self.status = UpdateStatus::Checking;
        true
    }

    /// Starts to download the release that is available. Says which, if there is one.
    pub fn download(&mut self) -> (r: Option<ManualRelease>)
        ensures
            match old(self).status {
                UpdateStatus::Available(release) => r == Some(release) && final(self).status == (
                UpdateStatus::Downloading {
                    version: release.version,
                    downloaded: 0,
                    total: release.size,
                }),
                _ => r is None && *final(self) == *old(self),
            },
    {
        let release = match &self.status {
            UpdateStatus::Available(release) => release.clone(),
            _ => {
                return None;
            },
        };
        self.status = UpdateStatus::Downloading {
            version: release.version.clone(),
            downloaded: 0,
            total: release.size,
        };
        Some(release)
    }

    /// Takes note of what an update reports. Says whether the program is to restart.
    pub fn handle(&mut self, event: ManualUpdateEvent) -> (restarting: bool)
        ensures
            restarting == (event is Restarting),
            match event {
                ManualUpdateEvent::Available(release) => final(self).status
                    == UpdateStatus::Available(release),
                ManualUpdateEvent::UpToDate => final(self).status is UpToDate,
                ManualUpdateEvent::Progress { downloaded, total } => {
                    match final(self).status {
                        UpdateStatus::Downloading { version, downloaded: now, total: all } =>
                            version@ == downloading_version(old(self).status) && now == downloaded
                            && all == total,
                        _ => false,
                    }
                },
                ManualUpdateEvent::Restarting => final(self).status is Restarting,
                ManualUpdateEvent::Error(message) => final(self).status == UpdateStatus::Error(
                    message,
                ),
            },
    {
        match event {
            ManualUpdateEvent::Available(release) => {
                self.status = UpdateStatus::Available(release);
                false
            },
            ManualUpdateEvent::UpToDate => {
                self.status = UpdateStatus::UpToDate;
                false
            },
            ManualUpdateEvent::Progress { downloaded, total } => {
                let version = match &self.status {
                    UpdateStatus::Downloading { version, .. } => version.clone(),
                    _ => {
                        let none = String::new();
                        assert(none@ =~= Seq::empty());
                        none
                    },
                };
                self.status = UpdateStatus::Downloading { version, downloaded, total };
                false
            },
            ManualUpdateEvent::Restarting => {
                self.status = UpdateStatus::Restarting;
                true
            },
            ManualUpdateEvent::Error(message) => {
                self.status = UpdateStatus::Error(message);
                false
            },
        }
    }

    /// Takes note of all that was reported since the last time. Says whether the program is
    /// to restart.
    pub fn poll(&mut self, events: Vec<ManualUpdateEvent>) -> (restarting: bool)
        ensures
            restarting == exists|i: int|
                0 <= i < events@.len() && #[trigger] events@[i] is Restarting,
            events@.len() == 0 ==> *final(self) == *old(self),
            events@.len() > 0 ==> match events@.last() {
                ManualUpdateEvent::Available(release) => final(self).status
                    == UpdateStatus::Available(release),
                ManualUpdateEvent::UpToDate => final(self).status is UpToDate,
                ManualUpdateEvent::Progress { downloaded, total } => {
                    &&& final(self).status matches UpdateStatus::Downloading {
                        version,
                        downloaded: now,
                        total: all,
                    }
                    &&& now == downloaded
                    &&& all == total
                    &&& version@ == version_through(old(self).status, events@.drop_last())
                },
                ManualUpdateEvent::Restarting => final(self).status is Restarting,
                ManualUpdateEvent::Error(message) => final(self).status == UpdateStatus::Error(
                    message,
                ),
            },
    {
        let ghost all = events@;
        let ghost start = self.status;
        let mut restarting = false;
        assert(all.take(0) =~= Seq::empty());
        for event in it: events
            invariant
                it.seq() == all,
                start == old(self).status,
                restarting == exists|i: int| 0 <= i < it.index() && #[trigger] all[i] is Restarting,
                it.index() == 0 ==> *self == *old(self),
                downloading_version(self.status) == version_through(
                    start,
                    all.take(it.index() as int),
                ),
                it.index() > 0 ==> match all[it.index() - 1] {
                    ManualUpdateEvent::Available(release) => self.status == UpdateStatus::Available(
                        release,
                    ),
                    ManualUpdateEvent::UpToDate => self.status is UpToDate,
                    ManualUpdateEvent::Progress { downloaded, total } => self.status matches
                        UpdateStatus::Downloading { version, downloaded: now, total: whole } && now
                        == downloaded && whole == total && version@ == version_through(
                        start,
                        all.take(it.index() - 1),
                    ),
                    ManualUpdateEvent::Restarting => self.status is Restarting,
                    ManualUpdateEvent::Error(message) => self.status == UpdateStatus::Error(
                        message,
                    ),
                },
        {
            let ghost n = it.index() as int;
            assert(all.take(n + 1).drop_last() =~= all.take(n));
            assert(event == all[n]);
            if self.handle(event) {
                restarting = true;
            }
        }
        assert(all.len() > 0 ==> all.take(all.len() - 1) =~= all.drop_last());
        restarting
    }
}

/// The version that is being downloaded after a number of reports: progress keeps it, and any
/// other report ends the download.
pub open spec fn version_through(
    status: UpdateStatus,
    events: Seq<ManualUpdateEvent>,
) -> Seq<char>
    decreases events.len(),
{
    if events.len() == 0 {
        downloading_version(status)
    } else if events.last() is Progress {
        version_through(status, events.drop_last())
    } else {
        Seq::empty()
    }
}

/// The words of the dialog in the user's language.
pub struct UpdateLabels {
    pub idle: String,
    pub checking: String,
    pub available: String,
    pub downloading: String,
    pub up_to_date: String,
    pub failed: String,
    pub restarting: String,
}

/// The numbers of a download, in words.
pub struct ProgressWords {
    pub percent: String,
    pub downloaded: String,
    pub total: String,
}

/// What the dialog shows: a line of text, whether there is a progress bar, and which of its
/// buttons can be used.
pub struct UpdateView {
    pub line: String,
    pub progress: bool,
    pub can_check: bool,
    pub can_download: bool,
}

/// The line of text in the dialog.
pub open spec fn status_line(
    status: UpdateStatus,
    labels: UpdateLabels,
    words: ProgressWords,
) -> Seq<char> {
    match status {
        UpdateStatus::Idle => labels.idle@,
        UpdateStatus::Checking => labels.checking@,
        UpdateStatus::Available(release) => labels.available@ + ": "@ + release.version@,
        UpdateStatus::Downloading { version, downloaded, total } => labels.downloading@ + " "@
            + version@ + " ("@ + words.percent@ + "%, "@ + words.downloaded@ + " / "@ + words.total@
            + ")"@,
        UpdateStatus::UpToDate => labels.up_to_date@,
        UpdateStatus::Error(message) => labels.failed@ + ": "@ + message@,
        UpdateStatus::Restarting => labels.restarting@,
    }
}

/// What the dialog shows.
pub fn update_view(dialog: &UpdateDialog, labels: &UpdateLabels, words: &ProgressWords) -> (r:
    UpdateView)
    ensures
        r.line@ == status_line(dialog.status, *labels, *words),
        r.progress == (dialog.status is Downloading),
        r.can_check == !is_busy(dialog.status),
        r.can_download == (dialog.status is Available),
{
    let can_check = !dialog.busy();
    let mut progress = false;
    let mut can_download = false;
    let line = match &dialog.status {
        UpdateStatus::Idle => labels.idle.clone(),
        UpdateStatus::Checking => labels.checking.clone(),
        UpdateStatus::Available(release) => {
            can_download = true;
            text::concat3(&labels.available, ": ", &release.version)
        },
        UpdateStatus::Downloading { version, downloaded: _, total: _ } => {
            progress = true;
            let mut out = text::chars_of(&labels.downloading);
            text::append_text(&mut out, " ");
            text::append_text(&mut out, version);
            text::append_text(&mut out, " (");
            text::append_text(&mut out, &words.percent);
            text::append_text(&mut out, "%, ");
            text::append_text(&mut out, &words.downloaded);
            text::append_text(&mut out, " / ");
            text::append_text(&mut out, &words.total);
            text::append_text(&mut out, ")");
            text::text_of(&out)
        },
        UpdateStatus::UpToDate => labels.up_to_date.clone(),
        UpdateStatus::Error(message) => text::concat3(&labels.failed, ": ", message),
        UpdateStatus::Restarting => labels.restarting.clone(),
    };
    UpdateView { line, progress, can_check, can_download }
}

/// A download keeps its version through reports of progress, and any other report ends it.
pub proof fn progress_keeps_the_version(
    status: UpdateStatus,
    events: Seq<ManualUpdateEvent>,
    event: ManualUpdateEvent,
)
    ensures
        version_through(status, Seq::<ManualUpdateEvent>::empty()) == match status {
            UpdateStatus::Downloading { version, downloaded, total } => version@,
            _ => Seq::empty(),
        },
        version_through(status, events.push(event)) == if event is Progress {
            version_through(status, events)
        } else {
            Seq::empty()
        },
{
    assert(events.push(event).drop_last() =~= events);
}

/// An update can be looked for whenever nothing is under way: not while one is looked for or
/// downloaded, and not once the program is to restart.
pub proof fn nothing_new_starts_while_something_is_under_way(status: UpdateStatus)
    ensures
        is_busy(status) <==> match status {
            UpdateStatus::Idle => false,
            UpdateStatus::Checking => true,
            UpdateStatus::Available(_) => false,
            UpdateStatus::Downloading { .. } => true,
            UpdateStatus::UpToDate => false,
            UpdateStatus::Error(_) => false,
            UpdateStatus::Restarting => true,
        },
{
}

/// Whatever comes of looking for a release: one that is at most the running version is never
/// offered, one that is newer is offered or an error, and a release with the running version
/// itself is up to date.
pub proof fn only_newer_releases_are_offered(
    release: &GithubRelease,
    current: &str,
    asset_name: &str,
    r: Result<Option<ManualRelease>, String>,
)
    requires
        call_ensures(choose_release, (release, current, asset_name), r),
    ensures
        r matches Ok(Some(_)) ==> version_fault(current@) is None && version_fault(
            tag_version(release.tag_name@),
        ) is None && !version_at_most(tag_version(release.tag_name@), current@),
        r matches Ok(None) ==> version_at_most(tag_version(release.tag_name@), current@),
        version_fault(current@) is Some ==> r is Err,
        version_fault(tag_version(release.tag_name@)) is Some ==> r is Err,
{
}

/// A download of a known size is taken only if it has exactly that size.
pub proof fn downloads_must_have_their_size(size: u64, downloaded: u64, r: Result<(), String>)
    requires
        call_ensures(check_download, (size, downloaded), r),
    ensures
        r is Ok <==> size == 0 || downloaded == size,
{
}

} // verus!
