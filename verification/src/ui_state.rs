//! Small state types the editor shell keeps between frames: which tab is
//! open and which popup, if any, is being shown.

use vstd::prelude::*;

verus! {

/// The tab the editor currently shows.
#[derive(Debug, Clone, Copy, PartialEq, Eq, Structural)]
pub enum TabState {
    /// The item editor.
    Editor,
    /// The settings page.
    Settings,
    /// The help page.
    Help,
    /// No tab selected yet.
    NoTab,
}

/// What kind of popup is being shown.
#[derive(Debug, Clone, Copy)]
pub enum PopupType {
    /// An error while saving a file.
    ErrorSave,
    /// An error while loading a file.
    ErrorLoad,
    /// Confirmation before overwriting the current records with defaults.
    ConfirmMetaDefault,
    /// Confirmation before overwriting the current records with a new file.
    ConfirmMetaFile,
}

/// A popup message for the shell to display.
pub struct Popup {
    popup_type: PopupType,
    message: String,
}

impl Popup {
    /// Make a popup of the given kind carrying `message`.
    pub fn new(popup_type: PopupType, message: String) -> (r: Popup)
        ensures
            r.get_type_spec() == popup_type,
            r.get_message_spec() == message@,
    {
        Popup { popup_type, message }
    }

    pub closed spec fn get_type_spec(&self) -> PopupType {
        self.popup_type
    }

    /// The popup's kind.
    pub fn get_type(&self) -> (r: PopupType)
        ensures
            r == self.get_type_spec(),
    {
        self.popup_type.clone()
    }

    pub closed spec fn get_message_spec(&self) -> Seq<char> {
        self.message@
    }

    /// The popup's message text.
    pub fn get_message(&self) -> (r: String)
        ensures
            r@ == self.get_message_spec(),
    {
        self.message.clone()
    }
}

} // verus!
