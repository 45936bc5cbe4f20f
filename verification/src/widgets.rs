//! The decision core of the interface widgets: what a button does in
//! response to pointer interaction. Drawing and event plumbing live
//! with the renderer; the library fixes the visual state and whether
//! the button's action fires.

use vstd::prelude::*;

verus! {

/// Marker for the interface's custom buttons.
#[derive(Debug, Clone, Copy, PartialEq, Eq, Structural)]
pub struct CusButton;

/// Raised towards a button's observers when it is pressed.
#[derive(Debug, Clone, Copy, PartialEq, Eq, Structural)]
pub struct Activate;

/// The pointer's interaction with a button.
#[derive(Debug, Clone, Copy, PartialEq, Eq, Structural)]
pub enum Interaction {
    Pressed,
    Hovered,
    Idle,
}

/// A widget colour role.
#[derive(Debug, Clone, Copy, PartialEq, Eq, Structural)]
pub enum WidgetColor {
    On,
    Off,
    Gold,
    Black,
}

/// What a button looks like and does after an interaction.
#[derive(Debug, Clone, Copy, PartialEq, Eq, Structural)]
pub struct ButtonVisual {
    pub background: WidgetColor,
    pub border: WidgetColor,
    pub activate: bool,
}

/// A pressed button lights up and fires its action; a hovered one gets
/// a gold border; an idle one rests dark.
pub fn button_system(interaction: Interaction) -> (r: ButtonVisual)
    ensures
        r.activate <==> interaction == Interaction::Pressed,
        interaction == Interaction::Pressed ==> r.background == WidgetColor::On && r.border
            == WidgetColor::Black,
        interaction == Interaction::Hovered ==> r.background == WidgetColor::Off && r.border
            == WidgetColor::Gold,
        interaction == Interaction::Idle ==> r.background == WidgetColor::Off && r.border
            == WidgetColor::Black,
{
    match interaction {
        Interaction::Pressed => ButtonVisual {
            background: WidgetColor::On,
            border: WidgetColor::Black,
            activate: true,
        },
        Interaction::Hovered => ButtonVisual {
            background: WidgetColor::Off,
            border: WidgetColor::Gold,
            activate: false,
        },
        Interaction::Idle => ButtonVisual {
            background: WidgetColor::Off,
            border: WidgetColor::Black,
            activate: false,
        },
    }
}

} // verus!
