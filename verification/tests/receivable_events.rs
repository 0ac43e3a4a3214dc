use voxelar::receivable_events::{ReceivableEvent, ReceivableEvents};

const ALL_EVENTS: [ReceivableEvent; 17] = [
    ReceivableEvent::Pos,
    ReceivableEvent::Size,
    ReceivableEvent::Close,
    ReceivableEvent::Refresh,
    ReceivableEvent::Focus,
    ReceivableEvent::Iconify,
    ReceivableEvent::FramebufferSize,
    ReceivableEvent::Key,
    ReceivableEvent::Char,
    ReceivableEvent::CharModifiers,
    ReceivableEvent::MouseButton,
    ReceivableEvent::CursorPos,
    ReceivableEvent::CursorEnter,
    ReceivableEvent::Scroll,
    ReceivableEvent::FileDrop,
    ReceivableEvent::Maximize,
    ReceivableEvent::ContentScale,
];

#[test]
fn all_receives_every_event() {
    let events = ReceivableEvents::all();
    for event in ALL_EVENTS {
        assert!(events.receives_event(event));
    }
}

#[test]
fn default_receives_no_event() {
    let events = ReceivableEvents::default();
    for event in ALL_EVENTS {
        assert!(!events.receives_event(event));
    }
}

#[test]
fn switching_off_focus_and_drag_and_drop_keeps_the_others() {
    let events = ReceivableEvents::all().focus(false).drag_and_drop(false);
    for event in ALL_EVENTS {
        let expected = event != ReceivableEvent::Focus && event != ReceivableEvent::FileDrop;
        assert_eq!(expected, events.receives_event(event));
    }
}

#[test]
fn every_setter_switches_exactly_its_event() {
    type Setter = fn(ReceivableEvents, bool) -> ReceivableEvents;
    let setters: [(ReceivableEvent, Setter); 17] = [
        (ReceivableEvent::Pos, ReceivableEvents::pos),
        (ReceivableEvent::Size, ReceivableEvents::size),
        (ReceivableEvent::Close, ReceivableEvents::close),
        (ReceivableEvent::Refresh, ReceivableEvents::refresh),
        (ReceivableEvent::Focus, ReceivableEvents::focus),
        (ReceivableEvent::Iconify, ReceivableEvents::iconify),
        (ReceivableEvent::FramebufferSize, ReceivableEvents::framebuffer_size),
        (ReceivableEvent::Key, ReceivableEvents::key),
        (ReceivableEvent::Char, ReceivableEvents::char),
        (ReceivableEvent::CharModifiers, ReceivableEvents::char_mods),
        (ReceivableEvent::MouseButton, ReceivableEvents::mouse_button),
        (ReceivableEvent::CursorPos, ReceivableEvents::cursor_pos),
        (ReceivableEvent::CursorEnter, ReceivableEvents::cursor_enter),
        (ReceivableEvent::Scroll, ReceivableEvents::scroll),
        (ReceivableEvent::FileDrop, ReceivableEvents::drag_and_drop),
        (ReceivableEvent::Maximize, ReceivableEvents::maximize),
        (ReceivableEvent::ContentScale, ReceivableEvents::content_scale),
    ];
    for (event, setter) in setters {
        let on = setter(ReceivableEvents::default(), true);
        let off = setter(ReceivableEvents::all(), false);
        for other in ALL_EVENTS {
            assert_eq!(other == event, on.receives_event(other));
            assert_eq!(other != event, off.receives_event(other));
        }
    }
}
