//! Colors of the window, chosen from those of the active theme.

use crate::text;
use vstd::prelude::*;

verus! {

/// The surface of the default dark theme, as red, green and blue.
pub const DARK_SURFACE_RGB: u32 = 0x171717;

/// The name of the default light theme.
pub const DEFAULT_LIGHT_THEME: &'static str = "Default Light";

/// The name of the default dark theme.
pub const DEFAULT_DARK_THEME: &'static str = "Default Dark";

/// The colors of the active theme that the window uses.
pub struct ActiveTheme<C> {
    pub name: String,
    pub dark: bool,
    pub background: C,
    pub sidebar: C,
    pub foreground: C,
    pub title_bar: C,
    pub title_bar_border: C,
    pub list_hover: C,
    pub danger: C,
    pub danger_foreground: C,
    pub caret: C,
    pub selection: C,
    pub muted_foreground: C,
    pub border: C,
    pub status_bar: C,
    pub scrollbar: C,
    pub scrollbar_thumb: C,
    pub scrollbar_thumb_hover: C,
    pub tab_bar: C,
    pub tab: C,
    pub tab_active: C,
    pub tab_foreground: C,
    pub tab_active_foreground: C,
    pub primary: C,
    pub yellow: C,
    pub tiles: C,
    pub token_background: C,
    pub token_tab_bar: C,
    pub token_tiles: C,
}

/// The colors of the window.
#[derive(Clone, Copy)]
pub struct Palette<C> {
    pub background: C,
    pub input_background: C,
    pub foreground: C,
    pub title_bar: C,
    pub title_bar_border: C,
    pub control_hover: C,
    pub danger: C,
    pub danger_foreground: C,
    pub caret: C,
    pub selection: C,
    pub muted: C,
    pub gutter: C,
    pub border: C,
    pub status: C,
    pub scroll_track: C,
    pub scroll_thumb: C,
    pub scroll_thumb_hover: C,
    pub tab_bar: C,
    pub tab: C,
    pub tab_active: C,
    pub tab_foreground: C,
    pub tab_active_foreground: C,
    pub tab_active_indicator: C,
    pub search_foreground: C,
}

/// What the log stands on: the dark surface under the default dark theme, else the theme's
/// background.
pub open spec fn surface<C>(active: ActiveTheme<C>, dark_surface: C) -> C {
    if active.name@ == DEFAULT_DARK_THEME@ {
        dark_surface
    } else {
        active.background
    }
}

/// What inputs and line numbers stand on.
pub open spec fn inset<C>(active: ActiveTheme<C>, dark_surface: C) -> C {
    if active.dark {
        surface(active, dark_surface)
    } else {
        active.sidebar
    }
}

/// The colors of the window under a theme.
pub fn palette<C: Copy>(active: &ActiveTheme<C>, dark_surface: C) -> (r: Palette<C>)
    ensures
        r == (Palette {
            background: surface(*active, dark_surface),
            input_background: inset(*active, dark_surface),
            foreground: active.foreground,
            title_bar: active.title_bar,
            title_bar_border: active.title_bar_border,
            control_hover: active.list_hover,
            danger: active.danger,
            danger_foreground: active.danger_foreground,
            caret: active.caret,
            selection: active.selection,
            muted: active.muted_foreground,
            gutter: inset(*active, dark_surface),
            border: active.border,
            status: active.status_bar,
            scroll_track: active.scrollbar,
            scroll_thumb: active.scrollbar_thumb,
            scroll_thumb_hover: active.scrollbar_thumb_hover,
            tab_bar: active.tab_bar,
            tab: active.tab,
            tab_active: active.tab_active,
            tab_foreground: active.tab_foreground,
            tab_active_foreground: active.tab_active_foreground,
            tab_active_indicator: active.primary,
            search_foreground: active.yellow,
        }),
{
    let below = if text::same_text(&active.name, DEFAULT_DARK_THEME) {
        dark_surface
    } else {
        active.background
    };
    let inner = if active.dark {
        below
    } else {
        active.sidebar
    };
    Palette {
        background: below,
        input_background: inner,
        foreground: active.foreground,
        title_bar: active.title_bar,
        title_bar_border: active.title_bar_border,
        control_hover: active.list_hover,
        danger: active.danger,
        danger_foreground: active.danger_foreground,
        caret: active.caret,
        selection: active.selection,
        muted: active.muted_foreground,
        gutter: inner,
        border: active.border,
        status: active.status_bar,
        scroll_track: active.scrollbar,
        scroll_thumb: active.scrollbar_thumb,
        scroll_thumb_hover: active.scrollbar_thumb_hover,
        tab_bar: active.tab_bar,
        tab: active.tab,
        tab_active: active.tab_active,
        tab_foreground: active.tab_foreground,
        tab_active_foreground: active.tab_active_foreground,
        tab_active_indicator: active.primary,
        search_foreground: active.yellow,
    }
}

/// A theme whose docks stand on a surface: the colors that their frames have, and the tokens
/// that stand for these colors, are that surface.
pub open spec fn on_surface<C>(active: ActiveTheme<C>, dark_surface: C) -> ActiveTheme<C> {
    ActiveTheme {
        background: dark_surface,
        sidebar: dark_surface,
        tab_bar: dark_surface,
        tiles: dark_surface,
        token_background: dark_surface,
        token_tab_bar: dark_surface,
        token_tiles: dark_surface,
        ..active
    }
}

/// Puts the frames of the docks on the surface of the log, under the default dark theme. They
/// read these colors of the theme directly. Says whether the theme was changed.
pub fn apply_dark_surface<C: Copy>(active: &mut ActiveTheme<C>, dark_surface: C) -> (r: bool)
    ensures
        r == (old(active).name@ == DEFAULT_DARK_THEME@),
        !r ==> *final(active) == *old(active),
        r ==> *final(active) == on_surface(*old(active), dark_surface),
{
    if !text::same_text(&active.name, DEFAULT_DARK_THEME) {
        return false;
    }
    active.background = dark_surface;
    active.sidebar = dark_surface;
    active.tab_bar = dark_surface;
    active.tiles = dark_surface;
    active.token_background = dark_surface;
    active.token_tab_bar = dark_surface;
    active.token_tiles = dark_surface;
    true
}

/// Once the docks stand on the surface of the log, the window shows the same colors as before
/// for the log itself.
pub proof fn dark_surface_agrees_with_the_palette<C>(active: ActiveTheme<C>, dark_surface: C)
    requires
        active.name@ == DEFAULT_DARK_THEME@,
    ensures
        surface(on_surface(active, dark_surface), dark_surface) == surface(active, dark_surface),
{
}

/// The place of a theme among those that are known.
pub fn find_theme(names: &Vec<String>, name: &str) -> (r: Option<usize>)
    ensures
        match r {
            Some(index) => index < names@.len() && names@[index as int]@ == name@ && forall|k: int|
                0 <= k < index ==> (#[trigger] names@[k])@ != name@,
            None => forall|k: int| 0 <= k < names@.len() ==> (#[trigger] names@[k])@ != name@,
        },
{
    let mut i: usize = 0;
    while i < names.len()
        invariant
            i <= names@.len(),
            forall|k: int| 0 <= k < i ==> (#[trigger] names@[k])@ != name@,
        decreases names@.len() - i,
    {
        if text::same_text(&names[i], name) {
            return Some(i);
        }
        i += 1;
    }
    None
}

/// The theme that the window starts with: the selected one if it is known, else the default
/// dark one if that is known.
pub fn starting_theme(names: &Vec<String>, selected: &str) -> (r: Option<usize>)
    ensures
        match r {
            Some(index) => {
                &&& index < names@.len()
                &&& forall|k: int| 0 <= k < index ==> (#[trigger] names@[k])@ != names@[index as int]@
                &&& names@[index as int]@ == selected@ || (names@[index as int]@
                    == DEFAULT_DARK_THEME@ && forall|k: int|
                    0 <= k < names@.len() ==> (#[trigger] names@[k])@ != selected@)
            },
            None => forall|k: int|
                0 <= k < names@.len() ==> (#[trigger] names@[k])@ != selected@ && names@[k]@
                    != DEFAULT_DARK_THEME@,
        },
{
    match find_theme(names, selected) {
        Some(index) => Some(index),
        None => find_theme(names, DEFAULT_DARK_THEME),
    }
}

/// Red, green and blue of a color that also has an opacity in its last eight bits.
pub fn search_foreground_rgb(rgba: u32) -> (r: u32)
    ensures
        r == rgba / 256,
{
    assert(rgba >> 8 == rgba / 256) by (bit_vector);
    rgba >> 8
}

/// Only the dark theme that comes with the application has a surface of its own, and a light
/// theme sets its panels off by the colour of its side bar.
pub proof fn other_themes_keep_their_colours<C>(active: ActiveTheme<C>, dark_surface: C)
    ensures
        active.name@ == DEFAULT_DARK_THEME@ ==> surface(active, dark_surface) == dark_surface,
        active.name@ != DEFAULT_DARK_THEME@ ==> surface(active, dark_surface) == active.background,
        active.dark ==> inset(active, dark_surface) == surface(active, dark_surface),
        !active.dark ==> inset(active, dark_surface) == active.sidebar,
        on_surface(active, dark_surface).name == active.name,
        on_surface(active, dark_surface).dark == active.dark,
        on_surface(active, dark_surface).background == dark_surface,
{
}

} // verus!
