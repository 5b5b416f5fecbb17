use codex_process_guardian::dialog::IDYES;
use codex_process_guardian::sample::{ERROR_NO_MORE_FILES, STATUS_INFO_LENGTH_MISMATCH};
use codex_process_guardian::watch::{WAIT_FAILED, WAIT_OBJECT_0};
use codex_process_guardian::window::{
    EN_CHANGE, LVN_ITEMCHANGED, NM_CLICK, STATE_IMAGE_CHECKED, STATE_IMAGE_UNCHECKED,
};
use windows_sys::Win32::Foundation;
use windows_sys::Win32::UI::{Controls, WindowsAndMessaging};

#[test]
fn constants_are_those_of_the_system() {
    assert_eq!(ERROR_NO_MORE_FILES, Foundation::ERROR_NO_MORE_FILES);
    assert_eq!(STATUS_INFO_LENGTH_MISMATCH, Foundation::STATUS_INFO_LENGTH_MISMATCH);
    assert_eq!(WAIT_FAILED, Foundation::WAIT_FAILED);
    assert_eq!(WAIT_OBJECT_0, Foundation::WAIT_OBJECT_0);
    assert_eq!(EN_CHANGE, WindowsAndMessaging::EN_CHANGE);
    assert_eq!(LVN_ITEMCHANGED, Controls::LVN_ITEMCHANGED);
    assert_eq!(IDYES, WindowsAndMessaging::IDYES);
    assert_eq!(NM_CLICK, Controls::NM_CLICK);
    assert_eq!(Controls::LVIS_STATEIMAGEMASK, 0xf000);
    assert_eq!(STATE_IMAGE_UNCHECKED, 1 << 12);
    assert_eq!(STATE_IMAGE_CHECKED, 2 << 12);
}
