//! Installing, removing and starting the program.

use clipboard_history::bin_management::{
    autostart_enabled, autostart_entry, control_message, control_socket_path, copy_show_command,
    desktop_entry, install, instance_lock_path, is_installed_instance, is_show_message,
    parse_command, service_unit, set_autostart, show_command, systemctl_failure, uninstall,
    AutostartError, Command, Paths, PathsError, Step,
};
use clipboard_history::copying::WriteCounter;

fn home() -> Option<Vec<u8>> {
    Some(b"/home/user".to_vec())
}

fn data() -> Option<Vec<u8>> {
    Some(b"/home/user/.local/share".to_vec())
}

fn text(bytes: &[u8]) -> String {
    String::from_utf8_lossy(bytes).into_owned()
}

fn describe(step: &Step) -> String {
    match step {
        Step::CreateDirectory(path) => format!("mkdir {}", text(path)),
        Step::InstallBinary {
            staged,
            destination,
        } => format!("stage {} then {}", text(staged), text(destination)),
        Step::WriteFile { path, contents } => {
            format!("write {} ({})", text(path), contents.len())
        }
        Step::RemoveFile(path) => format!("remove {}", text(path)),
        Step::Systemctl(arguments) => format!("systemctl {}", arguments.join(" ")),
        Step::Print(message) => format!("print {message}"),
    }
}

#[test]
fn installation_goes_step_by_step() {
    let plan = install(home(), data(), &b"<svg/>".to_vec()).expect("a plan");
    let binary = "/home/user/.local/bin/clipboard-for-cosmic".as_bytes().to_vec();
    let expected = [
        "mkdir /home/user/.local/bin".to_string(),
        "mkdir /home/user/.local/share/applications".to_string(),
        "mkdir /home/user/.local/share/icons/hicolor/scalable/apps".to_string(),
        "mkdir /home/user/.config/systemd/user".to_string(),
        "mkdir /home/user/.config/autostart".to_string(),
        "stage /home/user/.local/bin/clipboard-for-cosmic.new then /home/user/.local/bin/clipboard-for-cosmic".to_string(),
        "write /home/user/.local/share/icons/hicolor/scalable/apps/com.github.jax.ClipboardHistory-symbolic.svg (6)".to_string(),
        "remove /home/user/.local/share/icons/hicolor/scalable/apps/com.github.jax.ClipboardHistory-flash.svg".to_string(),
        "remove /home/user/.local/share/icons/hicolor/scalable/apps/com.github.jax.ClipboardHistory-flash-symbolic.svg".to_string(),
        format!("write /home/user/.local/share/applications/com.github.jax.ClipboardHistory.desktop ({})", desktop_entry(&binary).len()),
        format!("write /home/user/.config/systemd/user/clipboard-for-cosmic.service ({})", service_unit(&binary).len()),
        format!("write /home/user/.config/autostart/com.github.jax.ClipboardHistory.desktop ({})", autostart_entry().len()),
        "remove /home/user/.config/environment.d/clipboard-for-cosmic.conf".to_string(),
        "systemctl daemon-reload".to_string(),
        "systemctl disable clipboard-for-cosmic.service".to_string(),
        "systemctl restart clipboard-for-cosmic.service".to_string(),
        "print Clipboard History installed and started.".to_string(),
    ];
    assert_eq!(plan.iter().map(describe).collect::<Vec<_>>(), expected);
}

#[test]
fn removal_takes_every_installed_file() {
    let plan = uninstall(home(), data()).expect("a plan");
    let expected = [
        "systemctl disable --now clipboard-for-cosmic.service",
        "remove /home/user/.local/share/applications/com.github.jax.ClipboardHistory.desktop",
        "remove /home/user/.config/autostart/com.github.jax.ClipboardHistory.desktop",
        "remove /home/user/.config/systemd/user/clipboard-for-cosmic.service",
        "remove /home/user/.local/share/icons/hicolor/scalable/apps/com.github.jax.ClipboardHistory-symbolic.svg",
        "remove /home/user/.local/share/icons/hicolor/scalable/apps/com.github.jax.ClipboardHistory-flash.svg",
        "remove /home/user/.local/share/icons/hicolor/scalable/apps/com.github.jax.ClipboardHistory-flash-symbolic.svg",
        "remove /home/user/.local/bin/clipboard-for-cosmic",
        "remove /home/user/.config/environment.d/clipboard-for-cosmic.conf",
        "systemctl daemon-reload",
        "print Clipboard History stopped and removed from the user-local installation.",
    ];
    let described: Vec<String> = plan.iter().map(describe).collect();
    assert_eq!(described, expected);
    for step in install(home(), data(), &Vec::new()).expect("a plan") {
        let written = match step {
            Step::WriteFile { path, .. } => path,
            Step::InstallBinary { destination, .. } => destination,
            _ => continue,
        };
        assert!(described.contains(&format!("remove {}", text(&written))));
    }
}

#[test]
fn files_need_a_place() {
    assert_eq!(Paths::new(None, data()).err(), Some(PathsError::NoHome));
    assert_eq!(Paths::new(None, None).err(), Some(PathsError::NoHome));
    assert_eq!(
        Paths::new(home(), None).err(),
        Some(PathsError::NoDataDirectory)
    );
    assert_eq!(
        install(None, data(), &Vec::new()).err(),
        Some(PathsError::NoHome)
    );
    assert_eq!(
        uninstall(home(), None).err(),
        Some(PathsError::NoDataDirectory)
    );
    assert_eq!(show_command(None, None).err(), Some(PathsError::NoHome));
    assert_eq!(
        PathsError::NoHome.message(),
        "could not determine the home directory"
    );
    assert_eq!(
        PathsError::NoDataDirectory.message(),
        "could not determine the user data directory"
    );
    // Separators are not doubled.
    let paths = Paths::new(Some(b"/".to_vec()), Some(Vec::new())).expect("paths");
    assert_eq!(text(&paths.binary), "/.local/bin/clipboard-for-cosmic");
    assert_eq!(
        text(&paths.desktop),
        "applications/com.github.jax.ClipboardHistory.desktop"
    );
}

#[test]
fn entries_name_the_program() {
    let binary = b"/opt/x y\xff".to_vec();
    assert_eq!(
        desktop_entry(&binary),
        "[Desktop Entry]\nType=Application\nName=Clipboard History\nComment=Clipboard history for COSMIC\nExec=/opt/x y\u{fffd}\nIcon=com.github.jax.ClipboardHistory-symbolic\nNoDisplay=true\nTerminal=false\nCategories=Utility;\nActions=Show;\n\n[Desktop Action Show]\nName=Show ClipboardForCosmic\nExec=/opt/x y\u{fffd} show\n"
    );
    assert_eq!(
        service_unit(&binary),
        "[Unit]\nDescription=Clipboard History\nPartOf=graphical-session.target\nAfter=graphical-session.target\n\n[Service]\nType=simple\nExecStart=/opt/x y\u{fffd}\nRestart=on-failure\n\n[Install]\nWantedBy=graphical-session.target\n"
    );
    assert_eq!(
        autostart_entry(),
        "[Desktop Entry]\nType=Application\nName=Clipboard History\nComment=Start ClipboardForCosmic in the background\nExec=systemctl --user start clipboard-for-cosmic.service\nIcon=com.github.jax.ClipboardHistory-symbolic\nTerminal=false\nX-GNOME-Autostart-enabled=true\n"
    );
}

#[test]
fn autostart_is_in_force_unless_it_is_hidden() {
    assert!(!autostart_enabled(None));
    assert!(autostart_enabled(Some("")));
    assert!(autostart_enabled(Some(&autostart_entry())));
    assert!(!autostart_enabled(Some("[Desktop Entry]\r\n  Hidden=true \r\n")));
    assert!(autostart_enabled(Some("Hidden=false\nHidden=True\nX-Hidden=true\n")));
    let hidden = format!("{}Hidden=true", autostart_entry());
    assert!(!autostart_enabled(Some(&hidden)));
}

#[test]
fn only_the_installed_program_changes_autostart() {
    let described = |enabled: bool, installed: bool| {
        set_autostart(enabled, installed, home(), data())
            .map(|plan| plan.iter().map(describe).collect::<Vec<_>>())
    };
    assert_eq!(described(true, false), Err(AutostartError::NotInstalled));
    assert_eq!(described(false, false), Err(AutostartError::NotInstalled));
    assert_eq!(
        described(true, true),
        Ok(vec![
            "mkdir /home/user/.config/autostart".to_string(),
            format!(
                "write /home/user/.config/autostart/com.github.jax.ClipboardHistory.desktop ({})",
                autostart_entry().len()
            ),
        ])
    );
    assert_eq!(
        described(false, true),
        Ok(vec![
            "remove /home/user/.config/autostart/com.github.jax.ClipboardHistory.desktop"
                .to_string()
        ])
    );
    assert_eq!(
        set_autostart(true, true, None, data()).err(),
        Some(AutostartError::NoPlace(PathsError::NoHome))
    );
    assert_eq!(
        AutostartError::NotInstalled.message(),
        "autostart can only be changed by the installed application"
    );
    assert_eq!(
        AutostartError::NoPlace(PathsError::NoHome).message(),
        "could not determine the home directory"
    );
}

#[test]
fn the_running_program_is_told_from_the_installed_one() {
    let a = Some(b"/a".to_vec());
    let b = Some(b"/b".to_vec());
    assert!(is_installed_instance(&a, &a));
    assert!(!is_installed_instance(&a, &b));
    assert!(!is_installed_instance(&a, &None));
    assert!(!is_installed_instance(&None, &a));
    assert!(!is_installed_instance(&None, &None));
}

#[test]
fn the_shortcut_command_goes_on_the_clipboard() {
    let command = "/home/user/.local/bin/clipboard-for-cosmic show";
    assert_eq!(show_command(home(), data()), Ok(command.to_string()));
    let mut writes = WriteCounter::new();
    let request = copy_show_command(&mut writes, home(), data()).expect("a request");
    assert_eq!(request.text.as_deref(), Some(command));
    assert!(writes.is_current(request.generation));
    assert_eq!(
        copy_show_command(&mut writes, None, None).err(),
        Some(PathsError::NoHome)
    );
    assert!(writes.is_current(1));
}

#[test]
fn failures_of_the_service_manager_are_reported() {
    let arguments = vec!["disable".to_string(), "--now".to_string()];
    assert_eq!(
        systemctl_failure(&arguments, &b" no \xff such unit\n".to_vec()),
        "systemctl --user disable --now failed: no \u{fffd} such unit"
    );
}

#[test]
fn the_running_program_listens_in_the_runtime_directory() {
    assert_eq!(
        control_socket_path(Some(b"/run/user/1000".to_vec())),
        Ok(b"/run/user/1000/jax-clipboard-history.sock".to_vec())
    );
    assert_eq!(
        control_socket_path(None),
        Err("could not determine the runtime directory")
    );
    assert_eq!(
        instance_lock_path(&b"/tmp/".to_vec()),
        b"/tmp/jax-clipboard-history.lock"
    );
    assert_eq!(control_message(), b"show");
    assert!(is_show_message(b"show"));
    assert!(!is_show_message(b"shown"));
    assert!(!is_show_message(b"sho"));
    assert!(!is_show_message(b""));
}

#[test]
fn the_first_argument_is_the_command() {
    assert_eq!(parse_command(None), Command::Launch);
    assert_eq!(parse_command(Some("install")), Command::Install);
    assert_eq!(parse_command(Some("uninstall")), Command::Uninstall);
    assert_eq!(parse_command(Some("show")), Command::Show);
    for help in ["help", "--help", "-h"] {
        assert_eq!(parse_command(Some(help)), Command::Help);
    }
    for unknown in ["", "Install", "hel", "--show"] {
        assert_eq!(parse_command(Some(unknown)), Command::Unknown);
    }
}
