//! Names the workbench shows: the inspector's tabs, the chevron a panel
//! folds with, and the pages of the preferences sheet.

use vstd::prelude::*;
use crate::text::same;

verus! {

/// The inspector's tabs.
#[derive(Debug, Clone, Copy, PartialEq, Eq, Structural)]
pub enum Inspector {
    /// Component props.
    Attributes,
    /// Layout, size, spacing, position.
    Size,
    /// Fill, border, radius, shadow, text.
    Style,
    /// The entrance this node plays, and how a container staggers its
    /// children into view.
    Motion,
    /// Events to actions, props to state variables.
    Connections,
    /// Name, kind, and what it generates as.
    Identity,
}

pub open spec fn inspector_label(tab: Inspector) -> Seq<char> {
    match tab {
        Inspector::Attributes => "Attributes"@,
        Inspector::Size => "Size"@,
        Inspector::Style => "Style"@,
        Inspector::Motion => "Motion"@,
        Inspector::Connections => "Connections"@,
        Inspector::Identity => "Identity"@,
    }
}

pub open spec fn inspector_icon(tab: Inspector) -> Seq<char> {
    match tab {
        Inspector::Attributes => "sliders-horizontal"@,
        Inspector::Size => "ruler"@,
        Inspector::Style => "paintbrush"@,
        Inspector::Motion => "play"@,
        Inspector::Connections => "cable"@,
        Inspector::Identity => "tag"@,
    }
}

impl Inspector {
    pub fn label(self) -> (r: &'static str)
        ensures
            r@ == inspector_label(self),
    {
        match self {
            Inspector::Attributes => "Attributes",
            Inspector::Size => "Size",
            Inspector::Style => "Style",
            Inspector::Motion => "Motion",
            Inspector::Connections => "Connections",
            Inspector::Identity => "Identity",
        }
    }

    pub fn icon(self) -> (r: &'static str)
        ensures
            r@ == inspector_icon(self),
    {
        match self {
            Inspector::Attributes => "sliders-horizontal",
            Inspector::Size => "ruler",
            Inspector::Style => "paintbrush",
            Inspector::Motion => "play",
            Inspector::Connections => "cable",
            Inspector::Identity => "tag",
        }
    }
}

/// The workbench's folding panels.
#[derive(Debug, Clone, Copy, PartialEq, Eq, Structural)]
pub enum Panel {
    Palette,
    Outline,
    Inspector,
    Code,
    Problems,
}

pub open spec fn fold_icon_of(panel: Panel) -> Seq<char> {
    match panel {
        Panel::Palette | Panel::Outline => "chevrons-left"@,
        Panel::Inspector | Panel::Code => "chevrons-right"@,
        Panel::Problems => "chevrons-down"@,
    }
}

/// The chevron that points the way the panel will fold.
pub fn fold_icon(panel: Panel) -> (r: &'static str)
    ensures
        r@ == fold_icon_of(panel),
{
    match panel {
        Panel::Palette | Panel::Outline => "chevrons-left",
        Panel::Inspector | Panel::Code => "chevrons-right",
        Panel::Problems => "chevrons-down",
    }
}

/// The preferences pages, in the order the sidebar lists them.
pub const GENERAL: &'static str = "general";
pub const CANVAS: &'static str = "canvas";
pub const PANELS: &'static str = "panels";
pub const ABOUT: &'static str = "about";

/// A page's title; any page not named otherwise is General.
pub open spec fn title_for(page: Seq<char>) -> Seq<char> {
    if page == "canvas"@ {
        "Canvas"@
    } else if page == "panels"@ {
        "Panels"@
    } else if page == "about"@ {
        "About"@
    } else {
        "General"@
    }
}

/// The sentence under a page's title.
pub open spec fn blurb_for(page: Seq<char>) -> Seq<char> {
    if page == "canvas"@ {
        "How the artboard behaves while you are laying something out."@
    } else if page == "panels"@ {
        "The shape of the window. Panels also resize by dragging their dividers."@
    } else if page == "about"@ {
        ""@
    } else {
        "How Tailor behaves, and what a new project starts as."@
    }
}

pub fn title_of(page: &str) -> (r: &'static str)
    ensures
        r@ == title_for(page@),
{
    if same(page, CANVAS) {
        "Canvas"
    } else if same(page, PANELS) {
        "Panels"
    } else if same(page, ABOUT) {
        "About"
    } else {
        "General"
    }
}

pub fn blurb_of(page: &str) -> (r: &'static str)
    ensures
        r@ == blurb_for(page@),
{
    if same(page, CANVAS) {
        "How the artboard behaves while you are laying something out."
    } else if same(page, PANELS) {
        "The shape of the window. Panels also resize by dragging their dividers."
    } else if same(page, ABOUT) {
        ""
    } else {
        "How Tailor behaves, and what a new project starts as."
    }
}

} // verus!
