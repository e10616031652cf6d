use emakiwm::events::WmEvent;
use emakiwm::tray::{
    is_tray_message, menu_event, tray_reaction, TrayReaction, MENU_QUIT, MENU_RELOAD, WM_TRAY,
};

#[test]
fn messages_of_the_area_are_recognised() {
    assert!(is_tray_message(WM_TRAY, None));
    assert!(is_tray_message(0xC123, Some(0xC123)));
    assert!(!is_tray_message(0xC123, None));
    assert!(!is_tray_message(0xC123, Some(0xC124)));
}

#[test]
fn right_button_shows_the_menu() {
    assert_eq!(tray_reaction(WM_TRAY, 0x0001_0205), TrayReaction::Menu);
    assert_eq!(tray_reaction(WM_TRAY, 0x0202), TrayReaction::Nothing);
    assert_eq!(tray_reaction(0xC123, 0x0205), TrayReaction::Register);
}

#[test]
fn menu_entries_are_events() {
    assert!(matches!(menu_event(MENU_RELOAD), Some(WmEvent::Reload)));
    assert!(matches!(menu_event(MENU_QUIT), Some(WmEvent::Shutdown)));
    assert!(menu_event(0).is_none());
}
