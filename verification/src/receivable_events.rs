//! This is a module that contains the `ReceivableEvents` struct, useful for specifying all the
//! events that should be received by a window.
//!
//! The struct is used like a builder:
//! `ReceivableEvents::all().focus(false).drag_and_drop(false)` receives every event but the
//! focus and the drag and drop events.
use vstd::prelude::*;

verus! {

/// The kinds of window events whose reception can be switched on or off.
#[derive(Debug, PartialEq, Eq, Clone, Copy)]
pub enum ReceivableEvent {
    Pos,
    Size,
    Close,
    Refresh,
    Focus,
    Iconify,
    FramebufferSize,
    Key,
    Char,
    CharModifiers,
    MouseButton,
    CursorPos,
    CursorEnter,
    Scroll,
    FileDrop,
    Maximize,
    ContentScale,
}

/// For each kind of window event, whether it is received.
pub ghost struct EventSelection {
    pub pos: bool,
    pub size: bool,
    pub close: bool,
    pub refresh: bool,
    pub focus: bool,
    pub iconify: bool,
    pub framebuffer_size: bool,
    pub key: bool,
    pub char: bool,
    pub char_mods: bool,
    pub mouse_button: bool,
    pub cursor_pos: bool,
    pub cursor_enter: bool,
    pub scroll: bool,
    pub drag_and_drop: bool,
    pub maximize: bool,
    pub content_scale: bool,
}

impl EventSelection {
    /// Whether `event` is received.
    pub open spec fn receives(self, event: ReceivableEvent) -> bool {
        match event {
            ReceivableEvent::Pos => self.pos,
            ReceivableEvent::Size => self.size,
            ReceivableEvent::Close => self.close,
            ReceivableEvent::Refresh => self.refresh,
            ReceivableEvent::Focus => self.focus,
            ReceivableEvent::Iconify => self.iconify,
            ReceivableEvent::FramebufferSize => self.framebuffer_size,
            ReceivableEvent::Key => self.key,
            ReceivableEvent::Char => self.char,
            ReceivableEvent::CharModifiers => self.char_mods,
            ReceivableEvent::MouseButton => self.mouse_button,
            ReceivableEvent::CursorPos => self.cursor_pos,
            ReceivableEvent::CursorEnter => self.cursor_enter,
            ReceivableEvent::Scroll => self.scroll,
            ReceivableEvent::FileDrop => self.drag_and_drop,
            ReceivableEvent::Maximize => self.maximize,
            ReceivableEvent::ContentScale => self.content_scale,
        }
    }

    /// Every event is received, or none is.
    pub open spec fn uniform(value: bool) -> Self {
        EventSelection {
            pos: value,
            size: value,
            close: value,
            refresh: value,
            focus: value,
            iconify: value,
            framebuffer_size: value,
            key: value,
            char: value,
            char_mods: value,
            mouse_button: value,
            cursor_pos: value,
            cursor_enter: value,
            scroll: value,
            drag_and_drop: value,
            maximize: value,
            content_scale: value,
        }
    }
}

/// This structure stores booleans that specify whether or not an event should be received by the
/// window system.
pub struct ReceivableEvents {
    pos: bool,
    size: bool,
    close: bool,
    refresh: bool,
    focus: bool,
    iconify: bool,
    framebuffer_size: bool,
    key: bool,
    char: bool,
    char_mods: bool,
    mouse_button: bool,
    cursor_pos: bool,
    cursor_enter: bool,
    scroll: bool,
    drag_and_drop: bool,
    maximize: bool,
    content_scale: bool,
}

impl View for ReceivableEvents {
    type V = EventSelection;

    closed spec fn view(&self) -> EventSelection {
        EventSelection {
            pos: self.pos,
            size: self.size,
            close: self.close,
            refresh: self.refresh,
            focus: self.focus,
            iconify: self.iconify,
            framebuffer_size: self.framebuffer_size,
            key: self.key,
            char: self.char,
            char_mods: self.char_mods,
            mouse_button: self.mouse_button,
            cursor_pos: self.cursor_pos,
            cursor_enter: self.cursor_enter,
            scroll: self.scroll,
            drag_and_drop: self.drag_and_drop,
            maximize: self.maximize,
            content_scale: self.content_scale,
        }
    }
}

impl ReceivableEvents {
    /// Initialize the `ReceivableEvents` struct with all events to be received by the window.
    ///
    /// Generally, this is the easiest solution.
    pub fn all() -> (r: Self)
        ensures
            r@ == EventSelection::uniform(true),
    {
        Self {
            pos: true,
            size: true,
            close: true,
            refresh: true,
            focus: true,
            iconify: true,
            framebuffer_size: true,
            key: true,
            char: true,
            char_mods: true,
            mouse_button: true,
            cursor_pos: true,
            cursor_enter: true,
            scroll: true,
            drag_and_drop: true,
            maximize: true,
            content_scale: true,
        }
    }

    /// Returns whether `event` is to be received.
    pub fn receives_event(&self, event: ReceivableEvent) -> (b: bool)
        ensures
            b == self@.receives(event),
    {
        match event {
            ReceivableEvent::Pos => self.pos,
            ReceivableEvent::Size => self.size,
            ReceivableEvent::Close => self.close,
            ReceivableEvent::Refresh => self.refresh,
            ReceivableEvent::Focus => self.focus,
            ReceivableEvent::Iconify => self.iconify,
            ReceivableEvent::FramebufferSize => self.framebuffer_size,
            ReceivableEvent::Key => self.key,
            ReceivableEvent::Char => self.char,
            ReceivableEvent::CharModifiers => self.char_mods,
            ReceivableEvent::MouseButton => self.mouse_button,
            ReceivableEvent::CursorPos => self.cursor_pos,
            ReceivableEvent::CursorEnter => self.cursor_enter,
            ReceivableEvent::Scroll => self.scroll,
            ReceivableEvent::FileDrop => self.drag_and_drop,
            ReceivableEvent::Maximize => self.maximize,
            ReceivableEvent::ContentScale => self.content_scale,
        }
    }

    /// Sets whether the Pos window event is received.
    pub fn pos(self, pos: bool) -> (r: Self)
        ensures
            r@ == (EventSelection { pos, ..self@ }),
    {
        let mut events = self;
        events.pos = pos;
        events
    }

    /// Sets whether the Size window event is received.
    pub fn size(self, size: bool) -> (r: Self)
        ensures
            r@ == (EventSelection { size, ..self@ }),
    {
        let mut events = self;
        events.size = size;
        events
    }

    /// Sets whether the Close window event is received.
    pub fn close(self, close: bool) -> (r: Self)
        ensures
            r@ == (EventSelection { close, ..self@ }),
    {
        let mut events = self;
        events.close = close;
        events
    }

    /// Sets whether the Refresh window event is received.
    pub fn refresh(self, refresh: bool) -> (r: Self)
        ensures
            r@ == (EventSelection { refresh, ..self@ }),
    {
        let mut events = self;
        events.refresh = refresh;
        events
    }

    /// Sets whether the Focus window event is received.
    pub fn focus(self, focus: bool) -> (r: Self)
        ensures
            r@ == (EventSelection { focus, ..self@ }),
    {
        let mut events = self;
        events.focus = focus;
        events
    }

    /// Sets whether the Iconify window event is received.
    pub fn iconify(self, iconify: bool) -> (r: Self)
        ensures
            r@ == (EventSelection { iconify, ..self@ }),
    {
        let mut events = self;
        events.iconify = iconify;
        events
    }

    /// Sets whether the FramebufferSize window event is received.
    pub fn framebuffer_size(self, framebuffer_size: bool) -> (r: Self)
        ensures
            r@ == (EventSelection { framebuffer_size, ..self@ }),
    {
        let mut events = self;
        events.framebuffer_size = framebuffer_size;
        events
    }

    /// Sets whether the Key window event is received.
    pub fn key(self, key: bool) -> (r: Self)
        ensures
            r@ == (EventSelection { key, ..self@ }),
    {
        let mut events = self;
        events.key = key;
        events
    }

    /// Sets whether the Char window event is received.
    pub fn char(self, char: bool) -> (r: Self)
        ensures
            r@ == (EventSelection { char, ..self@ }),
    {
        let mut events = self;
        events.char = char;
        events
    }

    /// Sets whether the CharModifiers window event is received.
    pub fn char_mods(self, char_mods: bool) -> (r: Self)
        ensures
            r@ == (EventSelection { char_mods, ..self@ }),
    {
        let mut events = self;
        events.char_mods = char_mods;
        events
    }

    /// Sets whether the MouseButton window event is received.
    pub fn mouse_button(self, mouse_button: bool) -> (r: Self)
        ensures
            r@ == (EventSelection { mouse_button, ..self@ }),
    {
        let mut events = self;
        events.mouse_button = mouse_button;
        events
    }

    /// Sets whether the CursorPos window event is received.
    pub fn cursor_pos(self, cursor_pos: bool) -> (r: Self)
        ensures
            r@ == (EventSelection { cursor_pos, ..self@ }),
    {
        let mut events = self;
        events.cursor_pos = cursor_pos;
        events
    }

    /// Sets whether the CursorEnter window event is received.
    pub fn cursor_enter(self, cursor_enter: bool) -> (r: Self)
        ensures
            r@ == (EventSelection { cursor_enter, ..self@ }),
    {
        let mut events = self;
        events.cursor_enter = cursor_enter;
        events
    }

    /// Sets whether the Scroll window event is received.
    pub fn scroll(self, scroll: bool) -> (r: Self)
        ensures
            r@ == (EventSelection { scroll, ..self@ }),
    {
        let mut events = self;
        events.scroll = scroll;
        events
    }

    /// Sets whether the FileDrop window event is received.
    pub fn drag_and_drop(self, drag_and_drop: bool) -> (r: Self)
        ensures
            r@ == (EventSelection { drag_and_drop, ..self@ }),
    {
        let mut events = self;
        events.drag_and_drop = drag_and_drop;
        events
    }

    /// Sets whether the Maximize window event is received.
    pub fn maximize(self, maximize: bool) -> (r: Self)
        ensures
            r@ == (EventSelection { maximize, ..self@ }),
    {
        let mut events = self;
        events.maximize = maximize;
        events
    }

    /// Sets whether the ContentScale window event is received.
    pub fn content_scale(self, content_scale: bool) -> (r: Self)
        ensures
            r@ == (EventSelection { content_scale, ..self@ }),
    {
        let mut events = self;
        events.content_scale = content_scale;
        events
    }
}

impl Default for ReceivableEvents {
    /// No event is received.
    fn default() -> (r: Self)
        ensures
            r@ == EventSelection::uniform(false),
    {
        Self {
            pos: false,
            size: false,
            close: false,
            refresh: false,
            focus: false,
            iconify: false,
            framebuffer_size: false,
            key: false,
            char: false,
            char_mods: false,
            mouse_button: false,
            cursor_pos: false,
            cursor_enter: false,
            scroll: false,
            drag_and_drop: false,
            maximize: false,
            content_scale: false,
        }
    }
}

} // verus!
