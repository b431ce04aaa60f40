//! Localisation of the desktop shell.
//!
//! The translations stand in code, so that the program needs no lookup of
//! resources when it runs.

use crate::text;
use vstd::prelude::*;

verus! {

/// A language of the user interface.
#[derive(Clone, Copy, Debug, PartialEq, Eq, Structural)]
pub enum Language {
    ZhCn,
    EnUs,
}

/// The language that a locale name such as `en_US.UTF-8` asks for.
pub open spec fn language_of(locale: Seq<char>) -> Language {
    if text::starts_with(text::lower(locale), "en"@) {
        Language::EnUs
    } else {
        Language::ZhCn
    }
}

/// The other language.
pub open spec fn toggled(language: Language) -> Language {
    match language {
        Language::ZhCn => Language::EnUs,
        Language::EnUs => Language::ZhCn,
    }
}

impl Language {
    /// The language that the environment asks for, by the variable of the program itself or
    /// else by the general one.
    pub fn from_env(logd_lang: Option<String>, lang: Option<String>) -> (r: Language)
        ensures
            r == language_of(
                match logd_lang {
                    Some(locale) => locale@,
                    None => match lang {
                        Some(locale) => locale@,
                        None => Seq::empty(),
                    },
                },
            ),
    {
        let locale = match logd_lang {
            Some(locale) => text::chars_of(&locale),
            None => match lang {
                Some(locale) => text::chars_of(&locale),
                None => Vec::new(),
            },
        };
        let lower = text::to_lower(&locale);
        if text::begins_with(&lower, "en") {
            Language::EnUs
        } else {
            Language::ZhCn
        }
    }

    /// The other language.
    pub fn toggle(self) -> (r: Language)
        ensures
            r == toggled(self),
    {
        match self {
            Language::ZhCn => Language::EnUs,
            Language::EnUs => Language::ZhCn,
        }
    }
}

/// Changing the language twice leads back to it, and once to another one.
pub proof fn toggling_twice_changes_nothing(language: Language)
    ensures
        toggled(toggled(language)) == language,
        toggled(language) != language,
{
}

/// A text of the user interface.
#[derive(Clone, Copy, Debug, PartialEq, Eq, Structural)]
pub enum Key {
    File,
    Open,
    Refresh,
    RecentFiles,
    View,
    ShowAll,
    ShowOnlyFiltered,
    ShowFilters,
    Filters,
    AddFilter,
    EditFilter,
    DeleteFilter,
    SaveFilter,
    SaveEditedCopy,
    SearchPlaceholder,
    FilterTextPlaceholder,
    FilterDescriptionPlaceholder,
    ForegroundColor,
    BackgroundColor,
    FilterScope,
    FilterCurrentFile,
    FilterAllFiles,
    FilterPanel,
    NoFilters,
    Ready,
    Language,
    Chinese,
    English,
    Encoding,
    Close,
    Minimize,
    Maximize,
    Restore,
    Copy,
    Cancel,
    NoRecentFiles,
    DockLeft,
    DockRight,
    DockBottom,
    Lines,
    Line,
    Matches,
    Indexing,
    Filtering,
    Cache,
    CloseTab,
    CloseTabsBefore,
    CloseTabsAfter,
    CloseCleanTabs,
}

/// The text of a key in a language.
pub open spec fn translation(key: Key, lang: Language) -> &'static str {
    match key {
        Key::File => match lang {
            Language::ZhCn => "文件",
            Language::EnUs => "File",
        },
        Key::Open => match lang {
            Language::ZhCn => "打开",
            Language::EnUs => "Open",
        },
        Key::Refresh => match lang {
            Language::ZhCn => "刷新",
            Language::EnUs => "Refresh",
        },
        Key::RecentFiles => match lang {
            Language::ZhCn => "最近文件",
            Language::EnUs => "Recent Files",
        },
        Key::View => match lang {
            Language::ZhCn => "视图",
            Language::EnUs => "View",
        },
        Key::ShowAll => match lang {
            Language::ZhCn => "显示全部",
            Language::EnUs => "Show All",
        },
        Key::ShowOnlyFiltered => match lang {
            Language::ZhCn => "仅显示过滤",
            Language::EnUs => "Show Only Filtered",
        },
        Key::ShowFilters => match lang {
            Language::ZhCn => "显示过滤器",
            Language::EnUs => "Show Filters",
        },
        Key::Filters => match lang {
            Language::ZhCn => "过滤器",
            Language::EnUs => "Filters",
        },
        Key::AddFilter => match lang {
            Language::ZhCn => "新增过滤器",
            Language::EnUs => "Add Filter",
        },
        Key::EditFilter => match lang {
            Language::ZhCn => "编辑",
            Language::EnUs => "Edit",
        },
        Key::DeleteFilter => match lang {
            Language::ZhCn => "删除",
            Language::EnUs => "Delete",
        },
        Key::SaveFilter => match lang {
            Language::ZhCn => "保存过滤器",
            Language::EnUs => "Save Filters",
        },
        Key::SaveEditedCopy => match lang {
            Language::ZhCn => "保存编辑副本",
            Language::EnUs => "Save Edited Copy",
        },
        Key::SearchPlaceholder => match lang {
            Language::ZhCn => "搜索所有已导入文件（关键字用 | 分隔），回车搜索",
            Language::EnUs => "Search all imported files (use | between keywords), press Enter",
        },
        Key::FilterTextPlaceholder => match lang {
            Language::ZhCn => "过滤关键字（必填）",
            Language::EnUs => "Filter keyword (required)",
        },
        Key::FilterDescriptionPlaceholder => match lang {
            Language::ZhCn => "描述（可选）",
            Language::EnUs => "Description (optional)",
        },
        Key::ForegroundColor => match lang {
            Language::ZhCn => "字体颜色",
            Language::EnUs => "Text color",
        },
        Key::BackgroundColor => match lang {
            Language::ZhCn => "背景颜色",
            Language::EnUs => "Background color",
        },
        Key::FilterScope => match lang {
            Language::ZhCn => "搜索范围",
            Language::EnUs => "Search scope",
        },
        Key::FilterCurrentFile => match lang {
            Language::ZhCn => "当前文件",
            Language::EnUs => "Current file",
        },
        Key::FilterAllFiles => match lang {
            Language::ZhCn => "所有文件",
            Language::EnUs => "All files",
        },
        Key::FilterPanel => match lang {
            Language::ZhCn => "过滤器面板",
            Language::EnUs => "Filter Panel",
        },
        Key::NoFilters => match lang {
            Language::ZhCn => "还没有过滤器。标题栏搜索可临时搜索所有已导入文件。",
            Language::EnUs => "No filters. The title-bar search temporarily searches all files.",
        },
        Key::Ready => match lang {
            Language::ZhCn => "就绪",
            Language::EnUs => "Ready",
        },
        Key::Language => match lang {
            Language::ZhCn => "语言",
            Language::EnUs => "Language",
        },
        Key::Chinese => match lang {
            Language::ZhCn => "简体中文",
            Language::EnUs => "Chinese",
        },
        Key::English => match lang {
            Language::ZhCn => "英文",
            Language::EnUs => "English",
        },
        Key::Encoding => match lang {
            Language::ZhCn => "编码",
            Language::EnUs => "Encoding",
        },
        Key::Close => match lang {
            Language::ZhCn => "关闭",
            Language::EnUs => "Close",
        },
        Key::Minimize => match lang {
            Language::ZhCn => "最小化",
            Language::EnUs => "Minimize",
        },
        Key::Maximize => match lang {
            Language::ZhCn => "最大化",
            Language::EnUs => "Maximize",
        },
        Key::Restore => match lang {
            Language::ZhCn => "还原",
            Language::EnUs => "Restore",
        },
        Key::Copy => match lang {
            Language::ZhCn => "复制",
            Language::EnUs => "Copy",
        },
        Key::Cancel => match lang {
            Language::ZhCn => "取消",
            Language::EnUs => "Cancel",
        },
        Key::NoRecentFiles => match lang {
            Language::ZhCn => "没有最近文件",
            Language::EnUs => "No recent files",
        },
        Key::DockLeft => match lang {
            Language::ZhCn => "停靠左侧",
            Language::EnUs => "Dock Left",
        },
        Key::DockRight => match lang {
            Language::ZhCn => "停靠右侧",
            Language::EnUs => "Dock Right",
        },
        Key::DockBottom => match lang {
            Language::ZhCn => "停靠底部",
            Language::EnUs => "Dock Bottom",
        },
        Key::Lines => match lang {
            Language::ZhCn => "行",
            Language::EnUs => "lines",
        },
        Key::Line => match lang {
            Language::ZhCn => "第",
            Language::EnUs => "Ln",
        },
        Key::Matches => match lang {
            Language::ZhCn => "命中",
            Language::EnUs => "matches",
        },
        Key::Indexing => match lang {
            Language::ZhCn => "建索引",
            Language::EnUs => "Index",
        },
        Key::Filtering => match lang {
            Language::ZhCn => "筛选",
            Language::EnUs => "Filter",
        },
        Key::Cache => match lang {
            Language::ZhCn => "索引缓存",
            Language::EnUs => "cache",
        },
        Key::CloseTab => match lang {
            Language::ZhCn => "关闭当前标签页",
            Language::EnUs => "Close Current Tab",
        },
        Key::CloseTabsBefore => match lang {
            Language::ZhCn => "关闭前面的标签页",
            Language::EnUs => "Close Tabs to the Left",
        },
        Key::CloseTabsAfter => match lang {
            Language::ZhCn => "关闭后面的标签页",
            Language::EnUs => "Close Tabs to the Right",
        },
        Key::CloseCleanTabs => match lang {
            Language::ZhCn => "关闭未修改或已保存的标签页",
            Language::EnUs => "Close Unmodified or Saved Tabs",
        },
    }
}

/// The characters up to a place, each counted as often as the number of its place.
spec fn weight(s: Seq<char>, count: nat) -> int
    decreases count,
{
    if count == 0 {
        0
    } else {
        weight(s, (count - 1) as nat) + count * (s[count - 1] as int)
    }
}

/// The characters up to a place are ASCII.
spec fn ascii_up_to(s: Seq<char>, count: nat) -> bool
    decreases count,
{
    count == 0 || ((s[count - 1] as int) < 128 && ascii_up_to(s, (count - 1) as nat))
}

proof fn lemma_ascii_up_to(s: Seq<char>, count: nat)
    requires
        ascii_up_to(s, count),
    ensures
        forall|i: int| 0 <= i < count ==> (#[trigger] s[i] as int) < 128,
    decreases count,
{
    if count > 0 {
        lemma_ascii_up_to(s, (count - 1) as nat);
    }
}

/// The weight of each text.
spec fn known_weight(key: Key, lang: Language) -> int {
    match key {
        Key::File => match lang {
            Language::ZhCn => 66419,
            Language::EnUs => 1008,
        },
        Key::Open => match lang {
            Language::ZhCn => 73811,
            Language::EnUs => 1046,
        },
        Key::Refresh => match lang {
            Language::ZhCn => 73111,
            Language::EnUs => 2969,
        },
        Key::RecentFiles => match lang {
            Language::ZhCn => 258831,
            Language::EnUs => 7531,
        },
        Key::View => match lang {
            Language::ZhCn => 79810,
            Language::EnUs => 1075,
        },
        Key::ShowAll => match lang {
            Language::ZhCn => 299146,
            Language::EnUs => 3270,
        },
        Key::ShowOnlyFiltered => match lang {
            Language::ZhCn => 454783,
            Language::EnUs => 16691,
        },
        Key::ShowFilters => match lang {
            Language::ZhCn => 422815,
            Language::EnUs => 7967,
        },
        Key::Filters => match lang {
            Language::ZhCn => 159943,
            Language::EnUs => 3062,
        },
        Key::AddFilter => match lang {
            Language::ZhCn => 405977,
            Language::EnUs => 5406,
        },
        Key::EditFilter => match lang {
            Language::ZhCn => 106040,
            Language::EnUs => 1048,
        },
        Key::DeleteFilter => match lang {
            Language::ZhCn => 98024,
            Language::EnUs => 2184,
        },
        Key::SaveFilter => match lang {
            Language::ZhCn => 401786,
            Language::EnUs => 7902,
        },
        Key::SaveEditedCopy => match lang {
            Language::ZhCn => 575814,
            Language::EnUs => 12728,
        },
        Key::SearchPlaceholder => match lang {
            Language::ZhCn => 9672083,
            Language::EnUs => 188420,
        },
        Key::FilterTextPlaceholder => match lang {
            Language::ZhCn => 1757839,
            Language::EnUs => 30803,
        },
        Key::FilterDescriptionPlaceholder => match lang {
            Language::ZhCn => 957158,
            Language::EnUs => 24165,
        },
        Key::ForegroundColor => match lang {
            Language::ZhCn => 314777,
            Language::EnUs => 5644,
        },
        Key::BackgroundColor => match lang {
            Language::ZhCn => 336198,
            Language::EnUs => 13871,
        },
        Key::FilterScope => match lang {
            Language::ZhCn => 279353,
            Language::EnUs => 7740,
        },
        Key::FilterCurrentFile => match lang {
            Language::ZhCn => 225370,
            Language::EnUs => 7700,
        },
        Key::FilterAllFiles => match lang {
            Language::ZhCn => 236735,
            Language::EnUs => 4472,
        },
        Key::FilterPanel => match lang {
            Language::ZhCn => 447434,
            Language::EnUs => 7501,
        },
        Key::NoFilters => match lang {
            Language::ZhCn => 7860588,
            Language::EnUs => 197401,
        },
        Key::Ready => match lang {
            Language::ZhCn => 88581,
            Language::EnUs => 1580,
        },
        Key::Language => match lang {
            Language::ZhCn => 106477,
            Language::EnUs => 3708,
        },
        Key::Chinese => match lang {
            Language::ZhCn => 236233,
            Language::EnUs => 2932,
        },
        Key::English => match lang {
            Language::ZhCn => 85503,
            Language::EnUs => 2973,
        },
        Key::Encoding => match lang {
            Language::ZhCn => 93976,
            Language::EnUs => 3754,
        },
        Key::Close => match lang {
            Language::ZhCn => 97613,
            Language::EnUs => 1581,
        },
        Key::Minimize => match lang {
            Language::ZhCn => 137312,
            Language::EnUs => 3874,
        },
        Key::Maximize => match lang {
            Language::ZhCn => 135824,
            Language::EnUs => 3888,
        },
        Key::Restore => match lang {
            Language::ZhCn => 79638,
            Language::EnUs => 3039,
        },
        Key::Copy => match lang {
            Language::ZhCn => 64889,
            Language::EnUs => 1109,
        },
        Key::Cancel => match lang {
            Language::ZhCn => 77542,
            Language::EnUs => 2140,
        },
        Key::NoRecentFiles => match lang {
            Language::ZhCn => 558174,
            Language::EnUs => 11827,
        },
        Key::DockLeft => match lang {
            Language::ZhCn => 251754,
            Language::EnUs => 4198,
        },
        Key::DockRight => match lang {
            Language::ZhCn => 244113,
            Language::EnUs => 5322,
        },
        Key::DockBottom => match lang {
            Language::ZhCn => 319099,
            Language::EnUs => 6629,
        },
        Key::Lines => match lang {
            Language::ZhCn => 34892,
            Language::EnUs => 1627,
        },
        Key::Line => match lang {
            Language::ZhCn => 31532,
            Language::EnUs => 296,
        },
        Key::Matches => match lang {
            Language::ZhCn => 61655,
            Language::EnUs => 2978,
        },
        Key::Indexing => match lang {
            Language::ZhCn => 161405,
            Language::EnUs => 1597,
        },
        Key::Filtering => match lang {
            Language::ZhCn => 105325,
            Language::EnUs => 2257,
        },
        Key::Cache => match lang {
            Language::ZhCn => 271845,
            Language::EnUs => 1511,
        },
        Key::CloseTab => match lang {
            Language::ZhCn => 851140,
            Language::EnUs => 14209,
        },
        Key::CloseTabsBefore => match lang {
            Language::ZhCn => 1160852,
            Language::EnUs => 22659,
        },
        Key::CloseTabsAfter => match lang {
            Language::ZhCn => 1162199,
            Language::EnUs => 25278,
        },
        Key::CloseCleanTabs => match lang {
            Language::ZhCn => 2564368,
            Language::EnUs => 42581,
        },
    }
}

proof fn lemma_chinese(key: Key)
    ensures
        translation(key, Language::ZhCn)@.len() > 0,
        weight(translation(key, Language::ZhCn)@, translation(key, Language::ZhCn)@.len())
            == known_weight(key, Language::ZhCn),
        translation(key, Language::ZhCn)@[0] as int >= 128,
{
    match key {
        Key::File => {
            let shown = "文件"@;
            reveal_strlit("文件");
            assert(weight(shown, 2) == 66419) by {
                reveal_with_fuel(weight, 3);
            }
        },
        Key::Open => {
            let shown = "打开"@;
            reveal_strlit("打开");
            assert(weight(shown, 2) == 73811) by {
                reveal_with_fuel(weight, 3);
            }
        },
        Key::Refresh => {
            let shown = "刷新"@;
            reveal_strlit("刷新");
            assert(weight(shown, 2) == 73111) by {
                reveal_with_fuel(weight, 3);
            }
        },
        Key::RecentFiles => {
            let shown = "最近文件"@;
            reveal_strlit("最近文件");
            assert(weight(shown, 4) == 258831) by {
                reveal_with_fuel(weight, 5);
            }
        },
        Key::View => {
            let shown = "视图"@;
            reveal_strlit("视图");
            assert(weight(shown, 2) == 79810) by {
                reveal_with_fuel(weight, 3);
            }
        },
        Key::ShowAll => {
            let shown = "显示全部"@;
            reveal_strlit("显示全部");
            assert(weight(shown, 4) == 299146) by {
                reveal_with_fuel(weight, 5);
            }
        },
        Key::ShowOnlyFiltered => {
            let shown = "仅显示过滤"@;
            reveal_strlit("仅显示过滤");
            assert(weight(shown, 5) == 454783) by {
                reveal_with_fuel(weight, 6);
            }
        },
        Key::ShowFilters => {
            let shown = "显示过滤器"@;
            reveal_strlit("显示过滤器");
            assert(weight(shown, 5) == 422815) by {
                reveal_with_fuel(weight, 6);
            }
        },
        Key::Filters => {
            let shown = "过滤器"@;
            reveal_strlit("过滤器");
            assert(weight(shown, 3) == 159943) by {
                reveal_with_fuel(weight, 4);
            }
        },
        Key::AddFilter => {
            let shown = "新增过滤器"@;
            reveal_strlit("新增过滤器");
            assert(weight(shown, 5) == 405977) by {
                reveal_with_fuel(weight, 6);
            }
        },
        Key::EditFilter => {
            let shown = "编辑"@;
            reveal_strlit("编辑");
            assert(weight(shown, 2) == 106040) by {
                reveal_with_fuel(weight, 3);
            }
        },
        Key::DeleteFilter => {
            let shown = "删除"@;
            reveal_strlit("删除");
            assert(weight(shown, 2) == 98024) by {
                reveal_with_fuel(weight, 3);
            }
        },
        Key::SaveFilter => {
            let shown = "保存过滤器"@;
            reveal_strlit("保存过滤器");
            assert(weight(shown, 5) == 401786) by {
                reveal_with_fuel(weight, 6);
            }
        },
        Key::SaveEditedCopy => {
            let shown = "保存编辑副本"@;
            reveal_strlit("保存编辑副本");
            assert(weight(shown, 6) == 575814) by {
                reveal_with_fuel(weight, 7);
            }
        },
        Key::SearchPlaceholder => {
            let shown = "搜索所有已导入文件（关键字用 | 分隔），回车搜索"@;
            reveal_strlit("搜索所有已导入文件（关键字用 | 分隔），回车搜索");
            assert(weight(shown, 25) == 9672083) by {
                reveal_with_fuel(weight, 26);
            }
        },
        Key::FilterTextPlaceholder => {
            let shown = "过滤关键字（必填）"@;
            reveal_strlit("过滤关键字（必填）");
            assert(weight(shown, 9) == 1757839) by {
                reveal_with_fuel(weight, 10);
            }
        },
        Key::FilterDescriptionPlaceholder => {
            let shown = "描述（可选）"@;
            reveal_strlit("描述（可选）");
            assert(weight(shown, 6) == 957158) by {
                reveal_with_fuel(weight, 7);
            }
        },
        Key::ForegroundColor => {
            let shown = "字体颜色"@;
            reveal_strlit("字体颜色");
            assert(weight(shown, 4) == 314777) by {
                reveal_with_fuel(weight, 5);
            }
        },
        Key::BackgroundColor => {
            let shown = "背景颜色"@;
            reveal_strlit("背景颜色");
            assert(weight(shown, 4) == 336198) by {
                reveal_with_fuel(weight, 5);
            }
        },
        Key::FilterScope => {
            let shown = "搜索范围"@;
            reveal_strlit("搜索范围");
            assert(weight(shown, 4) == 279353) by {
                reveal_with_fuel(weight, 5);
            }
        },
        Key::FilterCurrentFile => {
            let shown = "当前文件"@;
            reveal_strlit("当前文件");
            assert(weight(shown, 4) == 225370) by {
                reveal_with_fuel(weight, 5);
            }
        },
        Key::FilterAllFiles => {
            let shown = "所有文件"@;
            reveal_strlit("所有文件");
            assert(weight(shown, 4) == 236735) by {
                reveal_with_fuel(weight, 5);
            }
        },
        Key::FilterPanel => {
            let shown = "过滤器面板"@;
            reveal_strlit("过滤器面板");
            assert(weight(shown, 5) == 447434) by {
                reveal_with_fuel(weight, 6);
            }
        },
        Key::NoFilters => {
            let shown = "还没有过滤器。标题栏搜索可临时搜索所有已导入文件。"@;
            reveal_strlit("还没有过滤器。标题栏搜索可临时搜索所有已导入文件。");
            assert(weight(shown, 25) == 7860588) by {
                reveal_with_fuel(weight, 26);
            }
        },
        Key::Ready => {
            let shown = "就绪"@;
            reveal_strlit("就绪");
            assert(weight(shown, 2) == 88581) by {
                reveal_with_fuel(weight, 3);
            }
        },
        Key::Language => {
            let shown = "语言"@;
            reveal_strlit("语言");
            assert(weight(shown, 2) == 106477) by {
                reveal_with_fuel(weight, 3);
            }
        },
        Key::Chinese => {
            let shown = "简体中文"@;
            reveal_strlit("简体中文");
            assert(weight(shown, 4) == 236233) by {
                reveal_with_fuel(weight, 5);
            }
        },
        Key::English => {
            let shown = "英文"@;
            reveal_strlit("英文");
            assert(weight(shown, 2) == 85503) by {
                reveal_with_fuel(weight, 3);
            }
        },
        Key::Encoding => {
            let shown = "编码"@;
            reveal_strlit("编码");
            assert(weight(shown, 2) == 93976) by {
                reveal_with_fuel(weight, 3);
            }
        },
        Key::Close => {
            let shown = "关闭"@;
            reveal_strlit("关闭");
            assert(weight(shown, 2) == 97613) by {
                reveal_with_fuel(weight, 3);
            }
        },
        Key::Minimize => {
            let shown = "最小化"@;
            reveal_strlit("最小化");
            assert(weight(shown, 3) == 137312) by {
                reveal_with_fuel(weight, 4);
            }
        },
        Key::Maximize => {
            let shown = "最大化"@;
            reveal_strlit("最大化");
            assert(weight(shown, 3) == 135824) by {
                reveal_with_fuel(weight, 4);
            }
        },
        Key::Restore => {
            let shown = "还原"@;
            reveal_strlit("还原");
            assert(weight(shown, 2) == 79638) by {
                reveal_with_fuel(weight, 3);
            }
        },
        Key::Copy => {
            let shown = "复制"@;
            reveal_strlit("复制");
            assert(weight(shown, 2) == 64889) by {
                reveal_with_fuel(weight, 3);
            }
        },
        Key::Cancel => {
            let shown = "取消"@;
            reveal_strlit("取消");
            assert(weight(shown, 2) == 77542) by {
                reveal_with_fuel(weight, 3);
            }
        },
        Key::NoRecentFiles => {
            let shown = "没有最近文件"@;
            reveal_strlit("没有最近文件");
            assert(weight(shown, 6) == 558174) by {
                reveal_with_fuel(weight, 7);
            }
        },
        Key::DockLeft => {
            let shown = "停靠左侧"@;
            reveal_strlit("停靠左侧");
            assert(weight(shown, 4) == 251754) by {
                reveal_with_fuel(weight, 5);
            }
        },
        Key::DockRight => {
            let shown = "停靠右侧"@;
            reveal_strlit("停靠右侧");
            assert(weight(shown, 4) == 244113) by {
                reveal_with_fuel(weight, 5);
            }
        },
        Key::DockBottom => {
            let shown = "停靠底部"@;
            reveal_strlit("停靠底部");
            assert(weight(shown, 4) == 319099) by {
                reveal_with_fuel(weight, 5);
            }
        },
        Key::Lines => {
            let shown = "行"@;
            reveal_strlit("行");
            assert(weight(shown, 1) == 34892) by {
                reveal_with_fuel(weight, 2);
            }
        },
        Key::Line => {
            let shown = "第"@;
            reveal_strlit("第");
            assert(weight(shown, 1) == 31532) by {
                reveal_with_fuel(weight, 2);
            }
        },
        Key::Matches => {
            let shown = "命中"@;
            reveal_strlit("命中");
            assert(weight(shown, 2) == 61655) by {
                reveal_with_fuel(weight, 3);
            }
        },
        Key::Indexing => {
            let shown = "建索引"@;
            reveal_strlit("建索引");
            assert(weight(shown, 3) == 161405) by {
                reveal_with_fuel(weight, 4);
            }
        },
        Key::Filtering => {
            let shown = "筛选"@;
            reveal_strlit("筛选");
            assert(weight(shown, 2) == 105325) by {
                reveal_with_fuel(weight, 3);
            }
        },
        Key::Cache => {
            let shown = "索引缓存"@;
            reveal_strlit("索引缓存");
            assert(weight(shown, 4) == 271845) by {
                reveal_with_fuel(weight, 5);
            }
        },
        Key::CloseTab => {
            let shown = "关闭当前标签页"@;
            reveal_strlit("关闭当前标签页");
            assert(weight(shown, 7) == 851140) by {
                reveal_with_fuel(weight, 8);
            }
        },
        Key::CloseTabsBefore => {
            let shown = "关闭前面的标签页"@;
            reveal_strlit("关闭前面的标签页");
            assert(weight(shown, 8) == 1160852) by {
                reveal_with_fuel(weight, 9);
            }
        },
        Key::CloseTabsAfter => {
            let shown = "关闭后面的标签页"@;
            reveal_strlit("关闭后面的标签页");
            assert(weight(shown, 8) == 1162199) by {
                reveal_with_fuel(weight, 9);
            }
        },
        Key::CloseCleanTabs => {
            let shown = "关闭未修改或已保存的标签页"@;
            reveal_strlit("关闭未修改或已保存的标签页");
            assert(weight(shown, 13) == 2564368) by {
                reveal_with_fuel(weight, 14);
            }
        },
    }
}

proof fn lemma_english(key: Key)
    ensures
        translation(key, Language::EnUs)@.len() > 0,
        weight(translation(key, Language::EnUs)@, translation(key, Language::EnUs)@.len())
            == known_weight(key, Language::EnUs),
        ascii_up_to(
            translation(key, Language::EnUs)@,
            translation(key, Language::EnUs)@.len(),
        ),
{
    match key {
        Key::File => {
            let shown = "File"@;
            reveal_strlit("File");
            assert(weight(shown, 4) == 1008) by {
                reveal_with_fuel(weight, 5);
            }
            assert(ascii_up_to(shown, 4)) by {
                reveal_with_fuel(ascii_up_to, 5);
            }
        },
        Key::Open => {
            let shown = "Open"@;
            reveal_strlit("Open");
            assert(weight(shown, 4) == 1046) by {
                reveal_with_fuel(weight, 5);
            }
            assert(ascii_up_to(shown, 4)) by {
                reveal_with_fuel(ascii_up_to, 5);
            }
        },
        Key::Refresh => {
            let shown = "Refresh"@;
            reveal_strlit("Refresh");
            assert(weight(shown, 7) == 2969) by {
                reveal_with_fuel(weight, 8);
            }
            assert(ascii_up_to(shown, 7)) by {
                reveal_with_fuel(ascii_up_to, 8);
            }
        },
        Key::RecentFiles => {
            let shown = "Recent Files"@;
            reveal_strlit("Recent Files");
            assert(weight(shown, 12) == 7531) by {
                reveal_with_fuel(weight, 13);
            }
            assert(ascii_up_to(shown, 12)) by {
                reveal_with_fuel(ascii_up_to, 13);
            }
        },
        Key::View => {
            let shown = "View"@;
            reveal_strlit("View");
            assert(weight(shown, 4) == 1075) by {
                reveal_with_fuel(weight, 5);
            }
            assert(ascii_up_to(shown, 4)) by {
                reveal_with_fuel(ascii_up_to, 5);
            }
        },
        Key::ShowAll => {
            let shown = "Show All"@;
            reveal_strlit("Show All");
            assert(weight(shown, 8) == 3270) by {
                reveal_with_fuel(weight, 9);
            }
            assert(ascii_up_to(shown, 8)) by {
                reveal_with_fuel(ascii_up_to, 9);
            }
        },
        Key::ShowOnlyFiltered => {
            let shown = "Show Only Filtered"@;
            reveal_strlit("Show Only Filtered");
            assert(weight(shown, 18) == 16691) by {
                reveal_with_fuel(weight, 19);
            }
            assert(ascii_up_to(shown, 18)) by {
                reveal_with_fuel(ascii_up_to, 19);
            }
        },
        Key::ShowFilters => {
            let shown = "Show Filters"@;
            reveal_strlit("Show Filters");
            assert(weight(shown, 12) == 7967) by {
                reveal_with_fuel(weight, 13);
            }
            assert(ascii_up_to(shown, 12)) by {
                reveal_with_fuel(ascii_up_to, 13);
            }
        },
        Key::Filters => {
            let shown = "Filters"@;
            reveal_strlit("Filters");
            assert(weight(shown, 7) == 3062) by {
                reveal_with_fuel(weight, 8);
            }
            assert(ascii_up_to(shown, 7)) by {
                reveal_with_fuel(ascii_up_to, 8);
            }
        },
        Key::AddFilter => {
            let shown = "Add Filter"@;
            reveal_strlit("Add Filter");
            assert(weight(shown, 10) == 5406) by {
                reveal_with_fuel(weight, 11);
            }
            assert(ascii_up_to(shown, 10)) by {
                reveal_with_fuel(ascii_up_to, 11);
            }
        },
        Key::EditFilter => {
            let shown = "Edit"@;
            reveal_strlit("Edit");
            assert(weight(shown, 4) == 1048) by {
                reveal_with_fuel(weight, 5);
            }
            assert(ascii_up_to(shown, 4)) by {
                reveal_with_fuel(ascii_up_to, 5);
            }
        },
        Key::DeleteFilter => {
            let shown = "Delete"@;
            reveal_strlit("Delete");
            assert(weight(shown, 6) == 2184) by {
                reveal_with_fuel(weight, 7);
            }
            assert(ascii_up_to(shown, 6)) by {
                reveal_with_fuel(ascii_up_to, 7);
            }
        },
        Key::SaveFilter => {
            let shown = "Save Filters"@;
            reveal_strlit("Save Filters");
            assert(weight(shown, 12) == 7902) by {
                reveal_with_fuel(weight, 13);
            }
            assert(ascii_up_to(shown, 12)) by {
                reveal_with_fuel(ascii_up_to, 13);
            }
        },
        Key::SaveEditedCopy => {
            let shown = "Save Edited Copy"@;
            reveal_strlit("Save Edited Copy");
            assert(weight(shown, 16) == 12728) by {
                reveal_with_fuel(weight, 17);
            }
            assert(ascii_up_to(shown, 16)) by {
                reveal_with_fuel(ascii_up_to, 17);
            }
        },
        Key::SearchPlaceholder => {
            let shown = "Search all imported files (use | between keywords), press Enter"@;
            reveal_strlit("Search all imported files (use | between keywords), press Enter");
            assert(weight(shown, 63) == 188420) by {
                reveal_with_fuel(weight, 64);
            }
            assert(ascii_up_to(shown, 63)) by {
                reveal_with_fuel(ascii_up_to, 64);
            }
        },
        Key::FilterTextPlaceholder => {
            let shown = "Filter keyword (required)"@;
            reveal_strlit("Filter keyword (required)");
            assert(weight(shown, 25) == 30803) by {
                reveal_with_fuel(weight, 26);
            }
            assert(ascii_up_to(shown, 25)) by {
                reveal_with_fuel(ascii_up_to, 26);
            }
        },
        Key::FilterDescriptionPlaceholder => {
            let shown = "Description (optional)"@;
            reveal_strlit("Description (optional)");
            assert(weight(shown, 22) == 24165) by {
                reveal_with_fuel(weight, 23);
            }
            assert(ascii_up_to(shown, 22)) by {
                reveal_with_fuel(ascii_up_to, 23);
            }
        },
        Key::ForegroundColor => {
            let shown = "Text color"@;
            reveal_strlit("Text color");
            assert(weight(shown, 10) == 5644) by {
                reveal_with_fuel(weight, 11);
            }
            assert(ascii_up_to(shown, 10)) by {
                reveal_with_fuel(ascii_up_to, 11);
            }
        },
        Key::BackgroundColor => {
            let shown = "Background color"@;
            reveal_strlit("Background color");
            assert(weight(shown, 16) == 13871) by {
                reveal_with_fuel(weight, 17);
            }
            assert(ascii_up_to(shown, 16)) by {
                reveal_with_fuel(ascii_up_to, 17);
            }
        },
        Key::FilterScope => {
            let shown = "Search scope"@;
            reveal_strlit("Search scope");
            assert(weight(shown, 12) == 7740) by {
                reveal_with_fuel(weight, 13);
            }
            assert(ascii_up_to(shown, 12)) by {
                reveal_with_fuel(ascii_up_to, 13);
            }
        },
        Key::FilterCurrentFile => {
            let shown = "Current file"@;
            reveal_strlit("Current file");
            assert(weight(shown, 12) == 7700) by {
                reveal_with_fuel(weight, 13);
            }
            assert(ascii_up_to(shown, 12)) by {
                reveal_with_fuel(ascii_up_to, 13);
            }
        },
        Key::FilterAllFiles => {
            let shown = "All files"@;
            reveal_strlit("All files");
            assert(weight(shown, 9) == 4472) by {
                reveal_with_fuel(weight, 10);
            }
            assert(ascii_up_to(shown, 9)) by {
                reveal_with_fuel(ascii_up_to, 10);
            }
        },
        Key::FilterPanel => {
            let shown = "Filter Panel"@;
            reveal_strlit("Filter Panel");
            assert(weight(shown, 12) == 7501) by {
                reveal_with_fuel(weight, 13);
            }
            assert(ascii_up_to(shown, 12)) by {
                reveal_with_fuel(ascii_up_to, 13);
            }
        },
        Key::NoFilters => {
            let shown = "No filters. The title-bar search temporarily searches all files."@;
            reveal_strlit("No filters. The title-bar search temporarily searches all files.");
            assert(weight(shown, 64) == 197401) by {
                reveal_with_fuel(weight, 65);
            }
            assert(ascii_up_to(shown, 64)) by {
                reveal_with_fuel(ascii_up_to, 65);
            }
        },
        Key::Ready => {
            let shown = "Ready"@;
            reveal_strlit("Ready");
            assert(weight(shown, 5) == 1580) by {
                reveal_with_fuel(weight, 6);
            }
            assert(ascii_up_to(shown, 5)) by {
                reveal_with_fuel(ascii_up_to, 6);
            }
        },
        Key::Language => {
            let shown = "Language"@;
            reveal_strlit("Language");
            assert(weight(shown, 8) == 3708) by {
                reveal_with_fuel(weight, 9);
            }
            assert(ascii_up_to(shown, 8)) by {
                reveal_with_fuel(ascii_up_to, 9);
            }
        },
        Key::Chinese => {
            let shown = "Chinese"@;
            reveal_strlit("Chinese");
            assert(weight(shown, 7) == 2932) by {
                reveal_with_fuel(weight, 8);
            }
            assert(ascii_up_to(shown, 7)) by {
                reveal_with_fuel(ascii_up_to, 8);
            }
        },
        Key::English => {
            let shown = "English"@;
            reveal_strlit("English");
            assert(weight(shown, 7) == 2973) by {
                reveal_with_fuel(weight, 8);
            }
            assert(ascii_up_to(shown, 7)) by {
                reveal_with_fuel(ascii_up_to, 8);
            }
        },
        Key::Encoding => {
            let shown = "Encoding"@;
            reveal_strlit("Encoding");
            assert(weight(shown, 8) == 3754) by {
                reveal_with_fuel(weight, 9);
            }
            assert(ascii_up_to(shown, 8)) by {
                reveal_with_fuel(ascii_up_to, 9);
            }
        },
        Key::Close => {
            let shown = "Close"@;
            reveal_strlit("Close");
            assert(weight(shown, 5) == 1581) by {
                reveal_with_fuel(weight, 6);
            }
            assert(ascii_up_to(shown, 5)) by {
                reveal_with_fuel(ascii_up_to, 6);
            }
        },
        Key::Minimize => {
            let shown = "Minimize"@;
            reveal_strlit("Minimize");
            assert(weight(shown, 8) == 3874) by {
                reveal_with_fuel(weight, 9);
            }
            assert(ascii_up_to(shown, 8)) by {
                reveal_with_fuel(ascii_up_to, 9);
            }
        },
        Key::Maximize => {
            let shown = "Maximize"@;
            reveal_strlit("Maximize");
            assert(weight(shown, 8) == 3888) by {
                reveal_with_fuel(weight, 9);
            }
            assert(ascii_up_to(shown, 8)) by {
                reveal_with_fuel(ascii_up_to, 9);
            }
        },
        Key::Restore => {
            let shown = "Restore"@;
            reveal_strlit("Restore");
            assert(weight(shown, 7) == 3039) by {
                reveal_with_fuel(weight, 8);
            }
            assert(ascii_up_to(shown, 7)) by {
                reveal_with_fuel(ascii_up_to, 8);
            }
        },
        Key::Copy => {
            let shown = "Copy"@;
            reveal_strlit("Copy");
            assert(weight(shown, 4) == 1109) by {
                reveal_with_fuel(weight, 5);
            }
            assert(ascii_up_to(shown, 4)) by {
                reveal_with_fuel(ascii_up_to, 5);
            }
        },
        Key::Cancel => {
            let shown = "Cancel"@;
            reveal_strlit("Cancel");
            assert(weight(shown, 6) == 2140) by {
                reveal_with_fuel(weight, 7);
            }
            assert(ascii_up_to(shown, 6)) by {
                reveal_with_fuel(ascii_up_to, 7);
            }
        },
        Key::NoRecentFiles => {
            let shown = "No recent files"@;
            reveal_strlit("No recent files");
            assert(weight(shown, 15) == 11827) by {
                reveal_with_fuel(weight, 16);
            }
            assert(ascii_up_to(shown, 15)) by {
                reveal_with_fuel(ascii_up_to, 16);
            }
        },
        Key::DockLeft => {
            let shown = "Dock Left"@;
            reveal_strlit("Dock Left");
            assert(weight(shown, 9) == 4198) by {
                reveal_with_fuel(weight, 10);
            }
            assert(ascii_up_to(shown, 9)) by {
                reveal_with_fuel(ascii_up_to, 10);
            }
        },
        Key::DockRight => {
            let shown = "Dock Right"@;
            reveal_strlit("Dock Right");
            assert(weight(shown, 10) == 5322) by {
                reveal_with_fuel(weight, 11);
            }
            assert(ascii_up_to(shown, 10)) by {
                reveal_with_fuel(ascii_up_to, 11);
            }
        },
        Key::DockBottom => {
            let shown = "Dock Bottom"@;
            reveal_strlit("Dock Bottom");
            assert(weight(shown, 11) == 6629) by {
                reveal_with_fuel(weight, 12);
            }
            assert(ascii_up_to(shown, 11)) by {
                reveal_with_fuel(ascii_up_to, 12);
            }
        },
        Key::Lines => {
            let shown = "lines"@;
            reveal_strlit("lines");
            assert(weight(shown, 5) == 1627) by {
                reveal_with_fuel(weight, 6);
            }
            assert(ascii_up_to(shown, 5)) by {
                reveal_with_fuel(ascii_up_to, 6);
            }
        },
        Key::Line => {
            let shown = "Ln"@;
            reveal_strlit("Ln");
            assert(weight(shown, 2) == 296) by {
                reveal_with_fuel(weight, 3);
            }
            assert(ascii_up_to(shown, 2)) by {
                reveal_with_fuel(ascii_up_to, 3);
            }
        },
        Key::Matches => {
            let shown = "matches"@;
            reveal_strlit("matches");
            assert(weight(shown, 7) == 2978) by {
                reveal_with_fuel(weight, 8);
            }
            assert(ascii_up_to(shown, 7)) by {
                reveal_with_fuel(ascii_up_to, 8);
            }
        },
        Key::Indexing => {
            let shown = "Index"@;
            reveal_strlit("Index");
            assert(weight(shown, 5) == 1597) by {
                reveal_with_fuel(weight, 6);
            }
            assert(ascii_up_to(shown, 5)) by {
                reveal_with_fuel(ascii_up_to, 6);
            }
        },
        Key::Filtering => {
            let shown = "Filter"@;
            reveal_strlit("Filter");
            assert(weight(shown, 6) == 2257) by {
                reveal_with_fuel(weight, 7);
            }
            assert(ascii_up_to(shown, 6)) by {
                reveal_with_fuel(ascii_up_to, 7);
            }
        },
        Key::Cache => {
            let shown = "cache"@;
            reveal_strlit("cache");
            assert(weight(shown, 5) == 1511) by {
                reveal_with_fuel(weight, 6);
            }
            assert(ascii_up_to(shown, 5)) by {
                reveal_with_fuel(ascii_up_to, 6);
            }
        },
        Key::CloseTab => {
            let shown = "Close Current Tab"@;
            reveal_strlit("Close Current Tab");
            assert(weight(shown, 17) == 14209) by {
                reveal_with_fuel(weight, 18);
            }
            assert(ascii_up_to(shown, 17)) by {
                reveal_with_fuel(ascii_up_to, 18);
            }
        },
        Key::CloseTabsBefore => {
            let shown = "Close Tabs to the Left"@;
            reveal_strlit("Close Tabs to the Left");
            assert(weight(shown, 22) == 22659) by {
                reveal_with_fuel(weight, 23);
            }
            assert(ascii_up_to(shown, 22)) by {
                reveal_with_fuel(ascii_up_to, 23);
            }
        },
        Key::CloseTabsAfter => {
            let shown = "Close Tabs to the Right"@;
            reveal_strlit("Close Tabs to the Right");
            assert(weight(shown, 23) == 25278) by {
                reveal_with_fuel(weight, 24);
            }
            assert(ascii_up_to(shown, 23)) by {
                reveal_with_fuel(ascii_up_to, 24);
            }
        },
        Key::CloseCleanTabs => {
            let shown = "Close Unmodified or Saved Tabs"@;
            reveal_strlit("Close Unmodified or Saved Tabs");
            assert(weight(shown, 30) == 42581) by {
                reveal_with_fuel(weight, 31);
            }
            assert(ascii_up_to(shown, 30)) by {
                reveal_with_fuel(ascii_up_to, 31);
            }
        },
    }
}

proof fn lemma_weights_differ(a: Key, x: Language, b: Key, y: Language)
    requires
        known_weight(a, x) == known_weight(b, y),
    ensures
        a == b,
        x == y,
{
}

/// No two texts are the same: a text belongs to one key and one language.
pub proof fn texts_differ(a: Key, x: Language, b: Key, y: Language)
    requires
        translation(a, x)@ == translation(b, y)@,
    ensures
        a == b,
        x == y,
{
    lemma_chinese(a);
    lemma_english(a);
    lemma_chinese(b);
    lemma_english(b);
    lemma_weights_differ(a, x, b, y);
}

/// No text is empty. English texts are plain ASCII; a Chinese text has at least one character
/// that is not.
pub proof fn texts_are_in_their_language(key: Key)
    ensures
        translation(key, Language::EnUs)@.len() > 0,
        forall|i: int|
            0 <= i < translation(key, Language::EnUs)@.len() ==> (
            #[trigger] translation(key, Language::EnUs)@[i] as int) < 128,
        translation(key, Language::ZhCn)@.len() > 0,
        exists|i: int|
            0 <= i < translation(key, Language::ZhCn)@.len() && (
            #[trigger] translation(key, Language::ZhCn)@[i] as int) >= 128,
{
    lemma_chinese(key);
    lemma_english(key);
    lemma_ascii_up_to(
        translation(key, Language::EnUs)@,
        translation(key, Language::EnUs)@.len(),
    );
    assert(translation(key, Language::ZhCn)@[0] as int >= 128);
}

/// The text of a key in a language.
pub fn text(key: Key, lang: Language) -> (r: &'static str)
    ensures
        r@ == translation(key, lang)@,
{
    match key {
        Key::File => match lang {
            Language::ZhCn => "文件",
            Language::EnUs => "File",
        },
        Key::Open => match lang {
            Language::ZhCn => "打开",
            Language::EnUs => "Open",
        },
        Key::Refresh => match lang {
            Language::ZhCn => "刷新",
            Language::EnUs => "Refresh",
        },
        Key::RecentFiles => match lang {
            Language::ZhCn => "最近文件",
            Language::EnUs => "Recent Files",
        },
        Key::View => match lang {
            Language::ZhCn => "视图",
            Language::EnUs => "View",
        },
        Key::ShowAll => match lang {
            Language::ZhCn => "显示全部",
            Language::EnUs => "Show All",
        },
        Key::ShowOnlyFiltered => match lang {
            Language::ZhCn => "仅显示过滤",
            Language::EnUs => "Show Only Filtered",
        },
        Key::ShowFilters => match lang {
            Language::ZhCn => "显示过滤器",
            Language::EnUs => "Show Filters",
        },
        Key::Filters => match lang {
            Language::ZhCn => "过滤器",
            Language::EnUs => "Filters",
        },
        Key::AddFilter => match lang {
            Language::ZhCn => "新增过滤器",
            Language::EnUs => "Add Filter",
        },
        Key::EditFilter => match lang {
            Language::ZhCn => "编辑",
            Language::EnUs => "Edit",
        },
        Key::DeleteFilter => match lang {
            Language::ZhCn => "删除",
            Language::EnUs => "Delete",
        },
        Key::SaveFilter => match lang {
            Language::ZhCn => "保存过滤器",
            Language::EnUs => "Save Filters",
        },
        Key::SaveEditedCopy => match lang {
            Language::ZhCn => "保存编辑副本",
            Language::EnUs => "Save Edited Copy",
        },
        Key::SearchPlaceholder => match lang {
            Language::ZhCn => "搜索所有已导入文件（关键字用 | 分隔），回车搜索",
            Language::EnUs => "Search all imported files (use | between keywords), press Enter",
        },
        Key::FilterTextPlaceholder => match lang {
            Language::ZhCn => "过滤关键字（必填）",
            Language::EnUs => "Filter keyword (required)",
        },
        Key::FilterDescriptionPlaceholder => match lang {
            Language::ZhCn => "描述（可选）",
            Language::EnUs => "Description (optional)",
        },
        Key::ForegroundColor => match lang {
            Language::ZhCn => "字体颜色",
            Language::EnUs => "Text color",
        },
        Key::BackgroundColor => match lang {
            Language::ZhCn => "背景颜色",
            Language::EnUs => "Background color",
        },
        Key::FilterScope => match lang {
            Language::ZhCn => "搜索范围",
            Language::EnUs => "Search scope",
        },
        Key::FilterCurrentFile => match lang {
            Language::ZhCn => "当前文件",
            Language::EnUs => "Current file",
        },
        Key::FilterAllFiles => match lang {
            Language::ZhCn => "所有文件",
            Language::EnUs => "All files",
        },
        Key::FilterPanel => match lang {
            Language::ZhCn => "过滤器面板",
            Language::EnUs => "Filter Panel",
        },
        Key::NoFilters => match lang {
            Language::ZhCn => "还没有过滤器。标题栏搜索可临时搜索所有已导入文件。",
            Language::EnUs => "No filters. The title-bar search temporarily searches all files.",
        },
        Key::Ready => match lang {
            Language::ZhCn => "就绪",
            Language::EnUs => "Ready",
        },
        Key::Language => match lang {
            Language::ZhCn => "语言",
            Language::EnUs => "Language",
        },
        Key::Chinese => match lang {
            Language::ZhCn => "简体中文",
            Language::EnUs => "Chinese",
        },
        Key::English => match lang {
            Language::ZhCn => "英文",
            Language::EnUs => "English",
        },
        Key::Encoding => match lang {
            Language::ZhCn => "编码",
            Language::EnUs => "Encoding",
        },
        Key::Close => match lang {
            Language::ZhCn => "关闭",
            Language::EnUs => "Close",
        },
        Key::Minimize => match lang {
            Language::ZhCn => "最小化",
            Language::EnUs => "Minimize",
        },
        Key::Maximize => match lang {
            Language::ZhCn => "最大化",
            Language::EnUs => "Maximize",
        },
        Key::Restore => match lang {
            Language::ZhCn => "还原",
            Language::EnUs => "Restore",
        },
        Key::Copy => match lang {
            Language::ZhCn => "复制",
            Language::EnUs => "Copy",
        },
        Key::Cancel => match lang {
            Language::ZhCn => "取消",
            Language::EnUs => "Cancel",
        },
        Key::NoRecentFiles => match lang {
            Language::ZhCn => "没有最近文件",
            Language::EnUs => "No recent files",
        },
        Key::DockLeft => match lang {
            Language::ZhCn => "停靠左侧",
            Language::EnUs => "Dock Left",
        },
        Key::DockRight => match lang {
            Language::ZhCn => "停靠右侧",
            Language::EnUs => "Dock Right",
        },
        Key::DockBottom => match lang {
            Language::ZhCn => "停靠底部",
            Language::EnUs => "Dock Bottom",
        },
        Key::Lines => match lang {
            Language::ZhCn => "行",
            Language::EnUs => "lines",
        },
        Key::Line => match lang {
            Language::ZhCn => "第",
            Language::EnUs => "Ln",
        },
        Key::Matches => match lang {
            Language::ZhCn => "命中",
            Language::EnUs => "matches",
        },
        Key::Indexing => match lang {
            Language::ZhCn => "建索引",
            Language::EnUs => "Index",
        },
        Key::Filtering => match lang {
            Language::ZhCn => "筛选",
            Language::EnUs => "Filter",
        },
        Key::Cache => match lang {
            Language::ZhCn => "索引缓存",
            Language::EnUs => "cache",
        },
        Key::CloseTab => match lang {
            Language::ZhCn => "关闭当前标签页",
            Language::EnUs => "Close Current Tab",
        },
        Key::CloseTabsBefore => match lang {
            Language::ZhCn => "关闭前面的标签页",
            Language::EnUs => "Close Tabs to the Left",
        },
        Key::CloseTabsAfter => match lang {
            Language::ZhCn => "关闭后面的标签页",
            Language::EnUs => "Close Tabs to the Right",
        },
        Key::CloseCleanTabs => match lang {
            Language::ZhCn => "关闭未修改或已保存的标签页",
            Language::EnUs => "Close Unmodified or Saved Tabs",
        },
    }
}

/// Where the name of a locale begins with the two letters of English, in capitals or not, the
/// language is English, and Chinese anywhere else.
pub proof fn english_locales_are_told_by_two_letters(locale: Seq<char>)
    ensures
        language_of(locale) == Language::EnUs <==> locale.len() >= 2 && (locale[0] == 'e'
            || locale[0] == 'E') && (locale[1] == 'n' || locale[1] == 'N'),
{
    reveal_strlit("en");
    let lower = text::lower(locale);
    assert(lower.len() == locale.len());
    if locale.len() >= 2 {
        assert("en"@ =~= seq!['e', 'n']);
        assert(lower.take(2) =~= seq![lower[0], lower[1]]);
        assert(lower.take(2)[0] == lower[0] && lower.take(2)[1] == lower[1]);
    }
}

} // verus!
