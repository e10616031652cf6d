use emakiwm::setup::{
    argument_behind, files_to_delete, find_flag, has_flag, installed_kilobytes, main_menu_choice,
    plan_install, setup_mode, uninstall_choice, uninstall_command, MainMenuResult, SetupMode,
    UninstallOptions, Wizard, WizardEvent, WizardStep, BTN_CHANGE_DIR, BTN_INSTALL, BTN_LAUNCH,
    BTN_NO_LAUNCH, BTN_UNINSTALL, IDOK,
};

fn args(v: &[&str]) -> Vec<String> {
    v.iter().map(|s| s.to_string()).collect()
}

#[test]
fn flags_are_found() {
    let a = args(&["--dir", "x", "--dir"]);
    assert_eq!(find_flag(&a, "--dir"), 0);
    assert_eq!(find_flag(&a, "x"), 1);
    assert_eq!(find_flag(&a, "--none"), 3);
    assert!(has_flag(&a, "x"));
    assert!(!has_flag(&a, "--none"));
    assert_eq!(argument_behind(&a, "--dir", 1), Some("x".to_string()));
    assert_eq!(argument_behind(&a, "--dir", 3), None);
    assert_eq!(argument_behind(&a, "--none", 0), None);
}

#[test]
fn arguments_choose_the_mode() {
    assert!(matches!(setup_mode(&args(&[])), SetupMode::Wizard));
    assert!(matches!(setup_mode(&args(&["--dir", "x"])), SetupMode::Wizard));
    match setup_mode(&args(&["--install"])) {
        SetupMode::Install { dir, autostart, launch_now } => {
            assert_eq!((dir, autostart, launch_now), (None, true, true));
        }
        other => panic!("unexpected: {other:?}"),
    }
    match setup_mode(&args(&[
        "--uninstall",
        "--install",
        "--dir",
        "C:\\e",
        "--no-autostart",
        "--no-launch",
    ])) {
        SetupMode::Install { dir, autostart, launch_now } => {
            assert_eq!(
                (dir, autostart, launch_now),
                (Some("C:\\e".to_string()), false, false)
            );
        }
        other => panic!("unexpected: {other:?}"),
    }
    match setup_mode(&args(&["--install", "--dir"])) {
        SetupMode::Install { dir, .. } => assert_eq!(dir, None),
        other => panic!("unexpected: {other:?}"),
    }
    match setup_mode(&args(&["--uninstall"])) {
        SetupMode::Uninstall { delete_config, quiet } => {
            assert_eq!((delete_config, quiet), (true, false));
        }
        other => panic!("unexpected: {other:?}"),
    }
    match setup_mode(&args(&["--uninstall", "--keep-config", "--quiet"])) {
        SetupMode::Uninstall { delete_config, quiet } => {
            assert_eq!((delete_config, quiet), (false, true));
        }
        other => panic!("unexpected: {other:?}"),
    }
}

#[test]
fn menu_buttons_choose() {
    assert_eq!(main_menu_choice(BTN_INSTALL), MainMenuResult::Install);
    assert_eq!(main_menu_choice(BTN_UNINSTALL), MainMenuResult::Uninstall);
    assert_eq!(main_menu_choice(2), MainMenuResult::Cancel);
    assert_eq!(
        uninstall_choice(IDOK, true),
        Some(UninstallOptions { delete_config: true })
    );
    assert_eq!(uninstall_choice(2, true), None);
}

#[test]
fn wizard_lets_the_directory_be_changed() {
    let mut w = Wizard::new("C:\\a".to_string());
    assert!(matches!(w.next(WizardEvent::Confirmed(BTN_CHANGE_DIR)), WizardStep::Pick));
    assert!(matches!(w.next(WizardEvent::Picked(None)), WizardStep::Confirm));
    assert_eq!(w.dir, "C:\\a");
    assert!(matches!(
        w.next(WizardEvent::Picked(Some("C:\\b".to_string()))),
        WizardStep::Confirm
    ));
    assert!(matches!(w.next(WizardEvent::Confirmed(IDOK)), WizardStep::Options));
    match w.next(WizardEvent::Chosen(BTN_LAUNCH, false)) {
        WizardStep::Install(o) => {
            assert_eq!(o.install_dir, "C:\\b");
            assert!(!o.autostart);
            assert!(o.launch_now);
        }
        other => panic!("unexpected: {other:?}"),
    }
}

#[test]
fn wizard_can_be_cancelled() {
    let mut w = Wizard::new("C:\\a".to_string());
    assert!(matches!(w.next(WizardEvent::Confirmed(2)), WizardStep::Cancel));
    assert!(matches!(w.next(WizardEvent::Chosen(2, true)), WizardStep::Cancel));
    match w.next(WizardEvent::Chosen(BTN_NO_LAUNCH, true)) {
        WizardStep::Install(o) => assert!(o.autostart && !o.launch_now),
        other => panic!("unexpected: {other:?}"),
    }
}

#[test]
fn missing_files_stop_the_installation() {
    assert_eq!(plan_install(false, true, true), Err("emakiwm.exe"));
    assert_eq!(plan_install(false, false, true), Err("emakiwm.exe"));
    assert_eq!(plan_install(true, false, true), Err("emakiwm-setup.exe"));
    assert_eq!(
        plan_install(true, true, false),
        Ok(vec!["emakiwm.exe", "emakiwm-setup.exe"])
    );
    assert_eq!(
        plan_install(true, true, true),
        Ok(vec!["emakiwm.exe", "emakiwm-setup.exe", "emakiwmc.exe"])
    );
    assert_eq!(files_to_delete(), vec!["emakiwm.exe", "emakiwmc.exe"]);
}

#[test]
fn removal_commands_are_spelled_out() {
    assert_eq!(
        uninstall_command("C:\\e\\s.exe", false),
        "\"C:\\e\\s.exe\" --uninstall"
    );
    assert_eq!(
        uninstall_command("C:\\e\\s.exe", true),
        "\"C:\\e\\s.exe\" --uninstall --quiet"
    );
}

#[test]
fn sizes_add_up_in_kilobytes() {
    assert_eq!(installed_kilobytes(&vec![]), Some(0));
    assert_eq!(installed_kilobytes(&vec![1023, 1024, 5000]), Some(5));
    assert_eq!(installed_kilobytes(&vec![1024 * 0x1_0000_0000]), Some(0));
    assert_eq!(
        installed_kilobytes(&vec![1024 * 0xFFFF_FFFF, 1024]),
        None
    );
}
