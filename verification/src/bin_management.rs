//! Installing the program for one user: the files it consists of, and the steps that
//! bring them there and take them away.

use vstd::prelude::*;
use vstd::string::*;
use vstd::utf8::{encode_utf8, is_ascii_chars, is_ascii_chars_encode_utf8};
use crate::copying::{copy_text, next_generation, text_request, CopyRequest, WriteCounter};
use crate::files::{bytes_view, is_plain_line, lemma_plain_lines, terminated};
use crate::history::same_bytes;
use crate::text::{
    join, joined, lemma_position, lemma_trimmed, lines, lines_of, lossy_text, position, same_text,
    stands_at, text_from_utf8_lossy, trim, trimmed, views, without_carriage_return,
};

verus! {

broadcast use vstd::string::group_string_axioms;

/// The name of the program on the desktop.
pub const APP_ID: &'static str = "com.github.jax.ClipboardHistory";

/// The name of the program for the user.
pub const APP_NAME: &'static str = "Clipboard History";

/// The name of the installed program.
pub const BINARY_NAME: &'static str = "clipboard-for-cosmic";

/// The name of the service.
pub const SERVICE_NAME: &'static str = "clipboard-for-cosmic.service";

/// Where icons stand in the directory for data.
pub const ICONS_DIRECTORY: &'static str = "icons/hicolor/scalable/apps";

// ---------------------------------------------------------------------------
// Paths
// ---------------------------------------------------------------------------

/// A relative path, seen from a directory.
pub open spec fn joined_path(directory: Seq<u8>, relative: Seq<char>) -> Seq<u8> {
    if directory.len() == 0 || directory.last() == 0x2f {
        directory + encode_utf8(relative)
    } else {
        directory.push(0x2f) + encode_utf8(relative)
    }
}

/// The name under which the icon is found in a theme.
pub open spec fn symbolic_icon_name() -> Seq<char> {
    APP_ID@ + "-symbolic"@
}

/// The name of the file that holds the icon.
pub open spec fn symbolic_icon_file() -> Seq<char> {
    APP_ID@ + "-symbolic.svg"@
}

/// A relative path, seen from a directory.
pub(crate) fn join_path(directory: &Vec<u8>, relative: &str) -> (r: Vec<u8>)
    ensures
        r@ == joined_path(directory@, relative@),
{
    let mut path = directory.clone();
    if path.len() > 0 && path[path.len() - 1] != 0x2f {
        path.push(0x2f);
    }
    let mut tail = relative.as_bytes_vec();
    path.append(&mut tail);
    assert(path@ =~= joined_path(directory@, relative@));
    path
}

pub(crate) fn icon_theme_name() -> (r: String)
    ensures
        r@ == symbolic_icon_name(),
{
    let mut name = APP_ID.to_owned();
    name.append("-symbolic");
    name
}

pub(crate) fn icon_file_name() -> (r: String)
    ensures
        r@ == symbolic_icon_file(),
{
    let mut name = APP_ID.to_owned();
    name.append("-symbolic.svg");
    name
}

/// Why the files of an installation have no place.
#[derive(Clone, Copy, Debug, PartialEq, Eq, Structural)]
pub enum PathsError {
    NoHome,
    NoDataDirectory,
}

impl PathsError {
    pub open spec fn text(self) -> Seq<char> {
        match self {
            PathsError::NoHome => "could not determine the home directory"@,
            PathsError::NoDataDirectory => "could not determine the user data directory"@,
        }
    }

    /// The message for the user.
    pub fn message(&self) -> (r: &'static str)
        ensures
            r@ == self.text(),
    {
        match self {
            PathsError::NoHome => "could not determine the home directory",
            PathsError::NoDataDirectory => "could not determine the user data directory",
        }
    }
}

/// The files and directories of an installation, as the bytes of their paths.
pub struct Paths {
    pub bin_dir: Vec<u8>,
    pub applications_dir: Vec<u8>,
    pub icons_dir: Vec<u8>,
    pub systemd_user_dir: Vec<u8>,
    pub autostart_dir: Vec<u8>,
    pub binary: Vec<u8>,
    pub desktop: Vec<u8>,
    pub autostart: Vec<u8>,
    pub service: Vec<u8>,
    pub icon: Vec<u8>,
    pub legacy_flash_icon: Vec<u8>,
    pub legacy_symbolic_flash_icon: Vec<u8>,
    pub legacy_data_control_environment: Vec<u8>,
}

/// The model of `Paths`.
pub ghost struct PathsModel {
    pub bin_dir: Seq<u8>,
    pub applications_dir: Seq<u8>,
    pub icons_dir: Seq<u8>,
    pub systemd_user_dir: Seq<u8>,
    pub autostart_dir: Seq<u8>,
    pub binary: Seq<u8>,
    pub desktop: Seq<u8>,
    pub autostart: Seq<u8>,
    pub service: Seq<u8>,
    pub icon: Seq<u8>,
    pub legacy_flash_icon: Seq<u8>,
    pub legacy_symbolic_flash_icon: Seq<u8>,
    pub legacy_data_control_environment: Seq<u8>,
}

impl View for Paths {
    type V = PathsModel;

    open spec fn view(&self) -> PathsModel {
        PathsModel {
            bin_dir: self.bin_dir@,
            applications_dir: self.applications_dir@,
            icons_dir: self.icons_dir@,
            systemd_user_dir: self.systemd_user_dir@,
            autostart_dir: self.autostart_dir@,
            binary: self.binary@,
            desktop: self.desktop@,
            autostart: self.autostart@,
            service: self.service@,
            icon: self.icon@,
            legacy_flash_icon: self.legacy_flash_icon@,
            legacy_symbolic_flash_icon: self.legacy_symbolic_flash_icon@,
            legacy_data_control_environment: self.legacy_data_control_environment@,
        }
    }
}

/// The paths for a home directory and a directory for data.
pub open spec fn paths_in(home: Seq<u8>, data_dir: Seq<u8>) -> PathsModel {
    let bin_dir = joined_path(home, ".local/bin"@);
    let applications_dir = joined_path(data_dir, "applications"@);
    let icons_dir = joined_path(data_dir, ICONS_DIRECTORY@);
    let systemd_user_dir = joined_path(home, ".config/systemd/user"@);
    let autostart_dir = joined_path(home, ".config/autostart"@);
    PathsModel {
        bin_dir,
        applications_dir,
        icons_dir,
        systemd_user_dir,
        autostart_dir,
        binary: joined_path(bin_dir, BINARY_NAME@),
        desktop: joined_path(applications_dir, APP_ID@ + ".desktop"@),
        autostart: joined_path(autostart_dir, APP_ID@ + ".desktop"@),
        service: joined_path(systemd_user_dir, SERVICE_NAME@),
        icon: joined_path(icons_dir, symbolic_icon_file()),
        legacy_flash_icon: joined_path(icons_dir, APP_ID@ + "-flash.svg"@),
        legacy_symbolic_flash_icon: joined_path(icons_dir, APP_ID@ + "-flash-symbolic.svg"@),
        legacy_data_control_environment: joined_path(
            home,
            ".config/environment.d/clipboard-for-cosmic.conf"@,
        ),
    }
}

/// The paths, if both directories are known.
pub open spec fn paths_for(home: Option<Seq<u8>>, data_dir: Option<Seq<u8>>) -> Result<
    PathsModel,
    PathsError,
> {
    match (home, data_dir) {
        (None, _) => Err(PathsError::NoHome),
        (Some(_), None) => Err(PathsError::NoDataDirectory),
        (Some(h), Some(d)) => Ok(paths_in(h, d)),
    }
}

fn app_file(suffix: &str) -> (r: String)
    ensures
        r@ == APP_ID@ + suffix@,
{
    let mut name = APP_ID.to_owned();
    name.append(suffix);
    name
}

impl Paths {
    /// The paths for a home directory and a directory for data, if both are known.
    pub fn new(home: Option<Vec<u8>>, data_dir: Option<Vec<u8>>) -> (r: Result<Paths, PathsError>)
        ensures
            (match r {
                Ok(paths) => Ok(paths@),
                Err(error) => Err(error),
            }) == paths_for(bytes_view(home), bytes_view(data_dir)),
    {
        let home = match home {
            Some(home) => home,
            None => {
                return Err(PathsError::NoHome);
            },
        };
        let data_dir = match data_dir {
            Some(data_dir) => data_dir,
            None => {
                return Err(PathsError::NoDataDirectory);
            },
        };
        let bin_dir = join_path(&home, ".local/bin");
        let applications_dir = join_path(&data_dir, "applications");
        let icons_dir = join_path(&data_dir, ICONS_DIRECTORY);
        let systemd_user_dir = join_path(&home, ".config/systemd/user");
        let autostart_dir = join_path(&home, ".config/autostart");
        let desktop_file = app_file(".desktop");
        let icon_file = icon_file_name();
        let flash_file = app_file("-flash.svg");
        let symbolic_flash_file = app_file("-flash-symbolic.svg");
        Ok(
            Paths {
                binary: join_path(&bin_dir, BINARY_NAME),
                desktop: join_path(&applications_dir, desktop_file.as_str()),
                autostart: join_path(&autostart_dir, desktop_file.as_str()),
                service: join_path(&systemd_user_dir, SERVICE_NAME),
                icon: join_path(&icons_dir, icon_file.as_str()),
                legacy_flash_icon: join_path(&icons_dir, flash_file.as_str()),
                legacy_symbolic_flash_icon: join_path(&icons_dir, symbolic_flash_file.as_str()),
                legacy_data_control_environment: join_path(
                    &home,
                    ".config/environment.d/clipboard-for-cosmic.conf",
                ),
                bin_dir,
                applications_dir,
                icons_dir,
                systemd_user_dir,
                autostart_dir,
            },
        )
    }
}

// ---------------------------------------------------------------------------
// Files
// ---------------------------------------------------------------------------

/// The entry for the desktop's menu.
pub open spec fn desktop_text(binary: Seq<char>) -> Seq<char> {
    "[Desktop Entry]\nType=Application\nName="@ + APP_NAME@
        + "\nComment=Clipboard history for COSMIC\nExec="@ + binary + "\nIcon="@ + APP_ID@
        + "-symbolic\nNoDisplay=true\nTerminal=false\nCategories=Utility;\nActions=Show;\n\n[Desktop Action Show]\nName=Show ClipboardForCosmic\nExec="@
        + binary + " show\n"@
}

/// The entry that starts the service at login.
pub open spec fn autostart_text() -> Seq<char> {
    "[Desktop Entry]\nType=Application\nName="@ + APP_NAME@
        + "\nComment=Start ClipboardForCosmic in the background\nExec=systemctl --user start "@
        + SERVICE_NAME@ + "\nIcon="@ + APP_ID@
        + "-symbolic\nTerminal=false\nX-GNOME-Autostart-enabled=true\n"@
}

/// The service.
pub open spec fn service_text(binary: Seq<char>) -> Seq<char> {
    "[Unit]\nDescription="@ + APP_NAME@
        + "\nPartOf=graphical-session.target\nAfter=graphical-session.target\n\n[Service]\nType=simple\nExecStart="@
        + binary
        + "\nRestart=on-failure\n\n[Install]\nWantedBy=graphical-session.target\n"@
}

/// The entry for the desktop's menu.
pub fn desktop_entry(binary: &Vec<u8>) -> (r: String)
    ensures
        r@ == desktop_text(lossy_text(binary@)),
{
    let program = text_from_utf8_lossy(binary.as_slice());
    let mut entry = "[Desktop Entry]\nType=Application\nName=".to_owned();
    entry.append(APP_NAME);
    entry.append("\nComment=Clipboard history for COSMIC\nExec=");
    entry.append(program.as_str());
    entry.append("\nIcon=");
    entry.append(APP_ID);
    entry.append(
        "-symbolic\nNoDisplay=true\nTerminal=false\nCategories=Utility;\nActions=Show;\n\n[Desktop Action Show]\nName=Show ClipboardForCosmic\nExec=",
    );
    entry.append(program.as_str());
    entry.append(" show\n");
    assert(entry@ =~= desktop_text(lossy_text(binary@)));
    entry
}

/// The entry that starts the service at login.
pub fn autostart_entry() -> (r: String)
    ensures
        r@ == autostart_text(),
{
    let mut entry = "[Desktop Entry]\nType=Application\nName=".to_owned();
    entry.append(APP_NAME);
    entry.append(
        "\nComment=Start ClipboardForCosmic in the background\nExec=systemctl --user start ",
    );
    entry.append(SERVICE_NAME);
    entry.append("\nIcon=");
    entry.append(APP_ID);
    entry.append("-symbolic\nTerminal=false\nX-GNOME-Autostart-enabled=true\n");
    assert(entry@ =~= autostart_text());
    entry
}

/// The service.
pub fn service_unit(binary: &Vec<u8>) -> (r: String)
    ensures
        r@ == service_text(lossy_text(binary@)),
{
    let program = text_from_utf8_lossy(binary.as_slice());
    let mut unit = "[Unit]\nDescription=".to_owned();
    unit.append(APP_NAME);
    unit.append(
        "\nPartOf=graphical-session.target\nAfter=graphical-session.target\n\n[Service]\nType=simple\nExecStart=",
    );
    unit.append(program.as_str());
    unit.append("\nRestart=on-failure\n\n[Install]\nWantedBy=graphical-session.target\n");
    assert(unit@ =~= service_text(lossy_text(binary@)));
    unit
}

// ---------------------------------------------------------------------------
// Steps
// ---------------------------------------------------------------------------

/// A step of an installation. The first step that fails ends it.
pub enum Step {
    /// Create a directory and those above it.
    CreateDirectory(Vec<u8>),
    /// Copy the running program to `staged` and rename that to `destination`.
    InstallBinary { staged: Vec<u8>, destination: Vec<u8> },
    WriteFile { path: Vec<u8>, contents: Vec<u8> },
    /// Remove a file, if it is there.
    RemoveFile(Vec<u8>),
    /// Run `systemctl --user` with these arguments.
    Systemctl(Vec<String>),
    Print(String),
}

/// The model of a `Step`.
pub ghost enum StepModel {
    CreateDirectory(Seq<u8>),
    InstallBinary { staged: Seq<u8>, destination: Seq<u8> },
    WriteFile { path: Seq<u8>, contents: Seq<u8> },
    RemoveFile(Seq<u8>),
    Systemctl(Seq<Seq<char>>),
    Print(Seq<char>),
}

impl View for Step {
    type V = StepModel;

    open spec fn view(&self) -> StepModel {
        match *self {
            Step::CreateDirectory(path) => StepModel::CreateDirectory(path@),
            Step::InstallBinary { staged, destination } => StepModel::InstallBinary {
                staged: staged@,
                destination: destination@,
            },
            Step::WriteFile { path, contents } => StepModel::WriteFile {
                path: path@,
                contents: contents@,
            },
            Step::RemoveFile(path) => StepModel::RemoveFile(path@),
            Step::Systemctl(arguments) => StepModel::Systemctl(views(arguments@)),
            Step::Print(text) => StepModel::Print(text@),
        }
    }
}

pub open spec fn steps(plan: Seq<Step>) -> Seq<StepModel> {
    plan.map_values(|step: Step| step@)
}

/// The file that a program is copied to before it takes the place of another.
pub open spec fn staged_path(binary: Seq<u8>) -> Seq<u8> {
    binary + encode_utf8(".new"@)
}

/// The steps that install the program. The service is started by the entry for login, so
/// it is not enabled itself.
pub open spec fn install_steps(paths: PathsModel, icon: Seq<u8>) -> Seq<StepModel> {
    seq![
        StepModel::CreateDirectory(paths.bin_dir),
        StepModel::CreateDirectory(paths.applications_dir),
        StepModel::CreateDirectory(paths.icons_dir),
        StepModel::CreateDirectory(paths.systemd_user_dir),
        StepModel::CreateDirectory(paths.autostart_dir),
        StepModel::InstallBinary {
            staged: staged_path(paths.binary),
            destination: paths.binary,
        },
        StepModel::WriteFile { path: paths.icon, contents: icon },
        StepModel::RemoveFile(paths.legacy_flash_icon),
        StepModel::RemoveFile(paths.legacy_symbolic_flash_icon),
        StepModel::WriteFile {
            path: paths.desktop,
            contents: encode_utf8(desktop_text(lossy_text(paths.binary))),
        },
        StepModel::WriteFile {
            path: paths.service,
            contents: encode_utf8(service_text(lossy_text(paths.binary))),
        },
        StepModel::WriteFile {
            path: paths.autostart,
            contents: encode_utf8(autostart_text()),
        },
        StepModel::RemoveFile(paths.legacy_data_control_environment),
        StepModel::Systemctl(seq!["daemon-reload"@]),
        StepModel::Systemctl(seq!["disable"@, SERVICE_NAME@]),
        StepModel::Systemctl(seq!["restart"@, SERVICE_NAME@]),
        StepModel::Print(APP_NAME@ + " installed and started."@),
    ]
}

/// The steps that remove the program. The service stops before its program goes.
pub open spec fn uninstall_steps(paths: PathsModel) -> Seq<StepModel> {
    seq![
        StepModel::Systemctl(seq!["disable"@, "--now"@, SERVICE_NAME@]),
        StepModel::RemoveFile(paths.desktop),
        StepModel::RemoveFile(paths.autostart),
        StepModel::RemoveFile(paths.service),
        StepModel::RemoveFile(paths.icon),
        StepModel::RemoveFile(paths.legacy_flash_icon),
        StepModel::RemoveFile(paths.legacy_symbolic_flash_icon),
        StepModel::RemoveFile(paths.binary),
        StepModel::RemoveFile(paths.legacy_data_control_environment),
        StepModel::Systemctl(seq!["daemon-reload"@]),
        StepModel::Print(
            APP_NAME@ + " stopped and removed from the user-local installation."@,
        ),
    ]
}

/// The steps that switch autostart on or off.
pub open spec fn autostart_steps(paths: PathsModel, enabled: bool) -> Seq<StepModel> {
    if enabled {
        seq![
            StepModel::CreateDirectory(paths.autostart_dir),
            StepModel::WriteFile {
                path: paths.autostart,
                contents: encode_utf8(autostart_text()),
            },
        ]
    } else {
        seq![StepModel::RemoveFile(paths.autostart)]
    }
}

fn systemctl_step(first: &str, second: Option<&str>, third: Option<&str>) -> (r: Step)
    ensures
        r@ == StepModel::Systemctl(
            match (second, third) {
                (None, _) => seq![first@],
                (Some(s), None) => seq![first@, s@],
                (Some(s), Some(t)) => seq![first@, s@, t@],
            },
        ),
{
    let mut arguments: Vec<String> = Vec::new();
    arguments.push(first.to_owned());
    if let Some(s) = second {
        arguments.push(s.to_owned());
        if let Some(t) = third {
            arguments.push(t.to_owned());
        }
    }
    assert(views(arguments@) =~= (match (second, third) {
        (None, _) => seq![first@],
        (Some(s), None) => seq![first@, s@],
        (Some(s), Some(t)) => seq![first@, s@, t@],
    }));
    Step::Systemctl(arguments)
}

fn print_step(suffix: &str) -> (r: Step)
    ensures
        r@ == StepModel::Print(APP_NAME@ + suffix@),
{
    let mut text = APP_NAME.to_owned();
    text.append(suffix);
    Step::Print(text)
}

fn write_step(path: &Vec<u8>, text: String) -> (r: Step)
    ensures
        r@ == (StepModel::WriteFile { path: path@, contents: encode_utf8(text@) }),
{
    Step::WriteFile { path: path.clone(), contents: text.as_str().as_bytes_vec() }
}

/// The steps that install the program with the given icon, if its files have a place.
pub fn install(home: Option<Vec<u8>>, data_dir: Option<Vec<u8>>, icon: &Vec<u8>) -> (r: Result<
    Vec<Step>,
    PathsError,
>)
    ensures
        (match r {
            Ok(plan) => Ok(steps(plan@)),
            Err(error) => Err(error),
        }) == (match paths_for(bytes_view(home), bytes_view(data_dir)) {
            Ok(paths) => Ok(install_steps(paths, icon@)),
            Err(error) => Err(error),
        }),
{
    let paths = match Paths::new(home, data_dir) {
        Ok(paths) => paths,
        Err(error) => {
            return Err(error);
        },
    };
    let mut staged = paths.binary.clone();
    let mut suffix = ".new".as_bytes_vec();
    staged.append(&mut suffix);
    let mut plan: Vec<Step> = Vec::new();
    plan.push(Step::CreateDirectory(paths.bin_dir.clone()));
    plan.push(Step::CreateDirectory(paths.applications_dir.clone()));
    plan.push(Step::CreateDirectory(paths.icons_dir.clone()));
    plan.push(Step::CreateDirectory(paths.systemd_user_dir.clone()));
    plan.push(Step::CreateDirectory(paths.autostart_dir.clone()));
    plan.push(Step::InstallBinary { staged, destination: paths.binary.clone() });
    plan.push(Step::WriteFile { path: paths.icon.clone(), contents: icon.clone() });
    plan.push(Step::RemoveFile(paths.legacy_flash_icon.clone()));
    plan.push(Step::RemoveFile(paths.legacy_symbolic_flash_icon.clone()));
    plan.push(write_step(&paths.desktop, desktop_entry(&paths.binary)));
    plan.push(write_step(&paths.service, service_unit(&paths.binary)));
    plan.push(write_step(&paths.autostart, autostart_entry()));
    plan.push(Step::RemoveFile(paths.legacy_data_control_environment.clone()));
    plan.push(systemctl_step("daemon-reload", None, None));
    plan.push(systemctl_step("disable", Some(SERVICE_NAME), None));
    plan.push(systemctl_step("restart", Some(SERVICE_NAME), None));
    plan.push(print_step(" installed and started."));
    assert(steps(plan@) =~= install_steps(paths@, icon@));
    Ok(plan)
}

/// The steps that remove the program, if its files have a place.
pub fn uninstall(home: Option<Vec<u8>>, data_dir: Option<Vec<u8>>) -> (r: Result<
    Vec<Step>,
    PathsError,
>)
    ensures
        (match r {
            Ok(plan) => Ok(steps(plan@)),
            Err(error) => Err(error),
        }) == (match paths_for(bytes_view(home), bytes_view(data_dir)) {
            Ok(paths) => Ok(uninstall_steps(paths)),
            Err(error) => Err(error),
        }),
{
    let paths = match Paths::new(home, data_dir) {
        Ok(paths) => paths,
        Err(error) => {
            return Err(error);
        },
    };
    let mut plan: Vec<Step> = Vec::new();
    plan.push(systemctl_step("disable", Some("--now"), Some(SERVICE_NAME)));
    plan.push(Step::RemoveFile(paths.desktop.clone()));
    plan.push(Step::RemoveFile(paths.autostart.clone()));
    plan.push(Step::RemoveFile(paths.service.clone()));
    plan.push(Step::RemoveFile(paths.icon.clone()));
    plan.push(Step::RemoveFile(paths.legacy_flash_icon.clone()));
    plan.push(Step::RemoveFile(paths.legacy_symbolic_flash_icon.clone()));
    plan.push(Step::RemoveFile(paths.binary.clone()));
    plan.push(Step::RemoveFile(paths.legacy_data_control_environment.clone()));
    plan.push(systemctl_step("daemon-reload", None, None));
    plan.push(print_step(" stopped and removed from the user-local installation."));
    assert(steps(plan@) =~= uninstall_steps(paths@));
    Ok(plan)
}

// ---------------------------------------------------------------------------
// Autostart
// ---------------------------------------------------------------------------

/// Why autostart cannot be changed.
#[derive(Clone, Copy, Debug, PartialEq, Eq, Structural)]
pub enum AutostartError {
    NotInstalled,
    NoPlace(PathsError),
}

impl AutostartError {
    pub open spec fn text(self) -> Seq<char> {
        match self {
            AutostartError::NotInstalled =>
            "autostart can only be changed by the installed application"@,
            AutostartError::NoPlace(error) => error.text(),
        }
    }

    /// The message for the user.
    pub fn message(&self) -> (r: &'static str)
        ensures
            r@ == self.text(),
    {
        match self {
            AutostartError::NotInstalled =>
            "autostart can only be changed by the installed application",
            AutostartError::NoPlace(error) => error.message(),
        }
    }
}

/// Whether the running program is the installed one. Both are given by their canonical
/// paths, as far as they are there.
pub fn is_installed_instance(current: &Option<Vec<u8>>, installed: &Option<Vec<u8>>) -> (r: bool)
    ensures
        r == (current is Some && bytes_view(*current) == bytes_view(*installed)),
{
    match (current, installed) {
        (Some(a), Some(b)) => same_bytes(a, b),
        _ => false,
    }
}

/// Whether an entry for login is in force: whether no line hides it.
pub open spec fn is_in_force(entry: Seq<char>) -> bool {
    forall|i: int|
        0 <= i < lines_of(entry).len() ==> trimmed(#[trigger] lines_of(entry)[i])
            != "Hidden=true"@
}

/// Whether the program starts at login, going by the text of its entry, if there is one.
pub fn autostart_enabled(entry: Option<&str>) -> (r: bool)
    ensures
        r == (match entry {
            Some(text) => is_in_force(text@),
            None => false,
        }),
{
    match entry {
        Some(text) => {
            let all = lines(text);
            let mut i: usize = 0;
            while i < all.len()
                invariant
                    i <= all.len(),
                    entry == Some(text),
                    views(all@) == lines_of(text@),
                    forall|k: int|
                        0 <= k < i ==> trimmed(#[trigger] views(all@)[k]) != "Hidden=true"@,
                decreases all.len() - i,
            {
                if same_text(trim(all[i].as_str()), "Hidden=true") {
                    assert(trimmed(lines_of(text@)[i as int]) == "Hidden=true"@);
                    return false;
                }
                i = i + 1;
            }
            true
        },
        None => false,
    }
}

/// The steps that switch autostart on or off, which only the installed program may do.
pub fn set_autostart(
    enabled: bool,
    installed: bool,
    home: Option<Vec<u8>>,
    data_dir: Option<Vec<u8>>,
) -> (r: Result<Vec<Step>, AutostartError>)
    ensures
        (match r {
            Ok(plan) => Ok(steps(plan@)),
            Err(error) => Err(error),
        }) == (if !installed {
            Err(AutostartError::NotInstalled)
        } else {
            match paths_for(bytes_view(home), bytes_view(data_dir)) {
                Ok(paths) => Ok(autostart_steps(paths, enabled)),
                Err(error) => Err(AutostartError::NoPlace(error)),
            }
        }),
{
    if !installed {
        return Err(AutostartError::NotInstalled);
    }
    let paths = match Paths::new(home, data_dir) {
        Ok(paths) => paths,
        Err(error) => {
            return Err(AutostartError::NoPlace(error));
        },
    };
    let mut plan: Vec<Step> = Vec::new();
    if enabled {
        plan.push(Step::CreateDirectory(paths.autostart_dir.clone()));
        plan.push(write_step(&paths.autostart, autostart_entry()));
    } else {
        plan.push(Step::RemoveFile(paths.autostart.clone()));
    }
    assert(steps(plan@) =~= autostart_steps(paths@, enabled));
    Ok(plan)
}

// ---------------------------------------------------------------------------
// Commands
// ---------------------------------------------------------------------------

/// The command that shows the history of the running program.
pub open spec fn show_command_text(binary: Seq<u8>) -> Seq<char> {
    lossy_text(binary) + " show"@
}

/// The command that shows the history of the running program.
pub fn show_command(home: Option<Vec<u8>>, data_dir: Option<Vec<u8>>) -> (r: Result<
    String,
    PathsError,
>)
    ensures
        (match r {
            Ok(command) => Ok(command@),
            Err(error) => Err(error),
        }) == (match paths_for(bytes_view(home), bytes_view(data_dir)) {
            Ok(paths) => Ok(show_command_text(paths.binary)),
            Err(error) => Err(error),
        }),
{
    match Paths::new(home, data_dir) {
        Ok(paths) => {
            let mut command = text_from_utf8_lossy(paths.binary.as_slice());
            command.append(" show");
            Ok(command)
        },
        Err(error) => Err(error),
    }
}

/// Requests that the clipboard hold the command for a shortcut, if the program has a
/// place.
pub fn copy_show_command(
    writes: &mut WriteCounter,
    home: Option<Vec<u8>>,
    data_dir: Option<Vec<u8>>,
) -> (r: Result<CopyRequest, PathsError>)
    ensures
        match (r, paths_for(bytes_view(home), bytes_view(data_dir))) {
            (Ok(request), Ok(paths)) => {
                &&& final(writes)@ == next_generation(old(writes)@)
                &&& request@ == text_request(
                    show_command_text(paths.binary),
                    None,
                    final(writes)@,
                )
            },
            (Err(error), Err(expected)) => error == expected && final(writes)@ == old(writes)@,
            _ => false,
        },
{
    match show_command(home, data_dir) {
        Ok(command) => Ok(copy_text(writes, command)),
        Err(error) => Err(error),
    }
}

/// What is said when `systemctl` fails.
pub fn systemctl_failure(arguments: &Vec<String>, stderr: &Vec<u8>) -> (r: String)
    ensures
        r@ == "systemctl --user "@ + joined(views(arguments@), " "@) + " failed: "@ + trimmed(
            lossy_text(stderr@),
        ),
{
    let mut text = "systemctl --user ".to_owned();
    let list = join(arguments, " ");
    text.append(list.as_str());
    text.append(" failed: ");
    let detail = text_from_utf8_lossy(stderr.as_slice());
    text.append(trim(detail.as_str()));
    text
}

/// Where the running program listens, if the runtime directory is known.
pub fn control_socket_path(runtime_dir: Option<Vec<u8>>) -> (r: Result<Vec<u8>, &'static str>)
    ensures
        match (r, runtime_dir) {
            (Ok(path), Some(directory)) => path@ == joined_path(
                directory@,
                "jax-clipboard-history.sock"@,
            ),
            (Err(error), None) => error@ == "could not determine the runtime directory"@,
            _ => false,
        },
{
    match runtime_dir {
        Some(directory) => Ok(join_path(&directory, "jax-clipboard-history.sock")),
        None => Err("could not determine the runtime directory"),
    }
}

/// The file whose lock the running program holds.
pub fn instance_lock_path(directory: &Vec<u8>) -> (r: Vec<u8>)
    ensures
        r@ == joined_path(directory@, "jax-clipboard-history.lock"@),
{
    join_path(directory, "jax-clipboard-history.lock")
}

/// The message that asks the running program to show the history.
pub open spec fn show_message() -> Seq<u8> {
    seq![0x73u8, 0x68, 0x6f, 0x77]
}

/// The message that asks the running program to show the history.
pub fn control_message() -> (r: Vec<u8>)
    ensures
        r@ == show_message(),
{
    vec![0x73, 0x68, 0x6f, 0x77]
}

/// Whether a message asks the running program to show the history.
pub fn is_show_message(message: &[u8]) -> (r: bool)
    ensures
        r == (message@ == show_message()),
{
    let r = message.len() == 4 && message[0] == 0x73 && message[1] == 0x68 && message[2] == 0x6f
        && message[3] == 0x77;
    assert(r ==> message@ =~= show_message());
    r
}

/// What the program is asked to do when it is started.
#[derive(Clone, Copy, Debug, PartialEq, Eq, Structural)]
pub enum Command {
    Launch,
    Install,
    Uninstall,
    Show,
    Help,
    Unknown,
}

pub open spec fn command_of(argument: Option<Seq<char>>) -> Command {
    match argument {
        None => Command::Launch,
        Some(name) => if name == "install"@ {
            Command::Install
        } else if name == "uninstall"@ {
            Command::Uninstall
        } else if name == "show"@ {
            Command::Show
        } else if name == "help"@ || name == "--help"@ || name == "-h"@ {
            Command::Help
        } else {
            Command::Unknown
        },
    }
}

/// What the first argument of the program asks for.
pub fn parse_command(argument: Option<&str>) -> (r: Command)
    ensures
        r == command_of(
            match argument {
                Some(name) => Some(name@),
                None => None,
            },
        ),
{
    match argument {
        None => Command::Launch,
        Some(name) => if same_text(name, "install") {
            Command::Install
        } else if same_text(name, "uninstall") {
            Command::Uninstall
        } else if same_text(name, "show") {
            Command::Show
        } else if same_text(name, "help") || same_text(name, "--help") || same_text(name, "-h") {
            Command::Help
        } else {
            Command::Unknown
        },
    }
}

// ---------------------------------------------------------------------------
// Laws
// ---------------------------------------------------------------------------

/// The file that a step leaves behind.
pub open spec fn written_file(step: StepModel) -> Option<Seq<u8>> {
    match step {
        StepModel::InstallBinary { staged, destination } => Some(destination),
        StepModel::WriteFile { path, contents } => Some(path),
        _ => None,
    }
}

/// Every file that an installation leaves behind goes when the program is removed.
pub proof fn uninstall_removes_what_install_wrote(paths: PathsModel, icon: Seq<u8>, i: int)
    requires
        0 <= i < install_steps(paths, icon).len(),
    ensures
        written_file(install_steps(paths, icon)[i]) matches Some(path)
            ==> uninstall_steps(paths).contains(StepModel::RemoveFile(path)),
{
    let plan = uninstall_steps(paths);
    assert(plan[1] == StepModel::RemoveFile(paths.desktop));
    assert(plan[2] == StepModel::RemoveFile(paths.autostart));
    assert(plan[3] == StepModel::RemoveFile(paths.service));
    assert(plan[4] == StepModel::RemoveFile(paths.icon));
    assert(plan[7] == StepModel::RemoveFile(paths.binary));
}

/// The service stops before its program goes.
pub proof fn service_stops_before_its_program_goes(paths: PathsModel, i: int)
    requires
        0 <= i < uninstall_steps(paths).len(),
    ensures
        uninstall_steps(paths)[0] == StepModel::Systemctl(
            seq!["disable"@, "--now"@, SERVICE_NAME@],
        ),
        uninstall_steps(paths)[i] == StepModel::RemoveFile(paths.binary) ==> i > 0,
{
}

/// A program is staged beside the one that it replaces, never over it.
pub proof fn staging_spares_the_running_program(binary: Seq<u8>)
    ensures
        staged_path(binary) != binary,
{
    reveal_strlit(".new");
    vstd::utf8::encode_utf8_decode_utf8(".new"@);
    if staged_path(binary) == binary {
        assert(encode_utf8(".new"@).len() == 0);
        assert(encode_utf8(".new"@) =~= encode_utf8(seq![]));
        vstd::utf8::encode_utf8_decode_utf8(seq![]);
    }
}

/// Whether a text holds no two `d` in a row.
spec fn has_single_d(text: Seq<char>) -> bool {
    forall|k: int| 0 <= k < text.len() - 1 && #[trigger] text[k] == 'd' ==> text[k + 1] != 'd'
}

proof fn lemma_single_d_append(a: Seq<char>, b: Seq<char>)
    requires
        has_single_d(a),
        has_single_d(b),
        a.len() > 0 && b.len() > 0 ==> a.last() != 'd' || b[0] != 'd',
    ensures
        has_single_d(a + b),
{
    let s = a + b;
    assert forall|k: int| 0 <= k < s.len() - 1 && #[trigger] s[k] == 'd' implies s[k + 1] != 'd' by {
        if k < a.len() {
            assert(s[k] == a[k]);
            if k + 1 < a.len() {
                assert(s[k + 1] == a[k + 1]);
            }
        } else {
            assert(s[k] == b[k - a.len()]);
            assert(s[k + 1] == b[k + 1 - a.len()]);
        }
    }
}

proof fn lemma_single_d_part(text: Seq<char>, from: int, to: int)
    requires
        has_single_d(text),
        0 <= from <= to <= text.len(),
    ensures
        has_single_d(text.subrange(from, to)),
{
    let part = text.subrange(from, to);
    assert forall|k: int| 0 <= k < part.len() - 1 && #[trigger] part[k] == 'd' implies part[k + 1]
        != 'd' by {
        assert(part[k] == text[from + k]);
    }
}

proof fn lemma_single_d_lines(text: Seq<char>)
    requires
        has_single_d(text),
    ensures
        forall|i: int| 0 <= i < lines_of(text).len() ==> has_single_d(#[trigger] lines_of(text)[i]),
    decreases text.len(),
{
    let i = position(text, '\n');
    lemma_position(text, '\n');
    if 0 < text.len() && i < text.len() {
        let n = text.len() as int;
        let line = without_carriage_return(text.take(i));
        let rest = lines_of(text.skip(i + 1));
        lemma_single_d_part(text, 0, line.len() as int);
        lemma_single_d_part(text, i + 1, n);
        assert(line =~= text.subrange(0, line.len() as int));
        assert(text.skip(i + 1) =~= text.subrange(i + 1, n));
        lemma_single_d_lines(text.skip(i + 1));
        assert forall|k: int| 0 <= k < lines_of(text).len() implies has_single_d(
            #[trigger] lines_of(text)[k],
        ) by {
            if k > 0 {
                assert(lines_of(text)[k] == rest[k - 1]);
            }
        }
    }
}

proof fn lemma_autostart_single_d()
    ensures
        has_single_d(autostart_text()),
{
    let a = "[Desktop Entry]\nType=Application\nName="@;
    let b = "\nComment=Start ClipboardForCosmic in the background\nExec=systemctl --user start "@;
    let c = "\nIcon="@;
    let d = "-symbolic\nTerminal=false\nX-GNOME-Autostart-enabled=true\n"@;
    assert(has_single_d(a) && a.len() > 0 && a.last() == '=') by {
        reveal_strlit("[Desktop Entry]\nType=Application\nName=");
    }
    assert(has_single_d(APP_NAME@) && APP_NAME@.len() > 0 && APP_NAME@.last() == 'y') by {
        reveal_strlit("Clipboard History");
    }
    assert(has_single_d(b) && b.len() > 0 && b.last() == ' ') by {
        reveal_strlit(
            "\nComment=Start ClipboardForCosmic in the background\nExec=systemctl --user start ",
        );
    }
    assert(has_single_d(SERVICE_NAME@) && SERVICE_NAME@.len() > 0 && SERVICE_NAME@.last() == 'e')
        by {
        reveal_strlit("clipboard-for-cosmic.service");
    }
    assert(has_single_d(c) && c.len() > 0 && c.last() == '=') by {
        reveal_strlit("\nIcon=");
    }
    assert(has_single_d(APP_ID@) && APP_ID@.len() > 0 && APP_ID@.last() == 'y') by {
        reveal_strlit("com.github.jax.ClipboardHistory");
    }
    assert(has_single_d(d)) by {
        reveal_strlit("-symbolic\nTerminal=false\nX-GNOME-Autostart-enabled=true\n");
    }
    lemma_single_d_append(a, APP_NAME@);
    lemma_single_d_append(a + APP_NAME@, b);
    lemma_single_d_append(a + APP_NAME@ + b, SERVICE_NAME@);
    lemma_single_d_append(a + APP_NAME@ + b + SERVICE_NAME@, c);
    lemma_single_d_append(a + APP_NAME@ + b + SERVICE_NAME@ + c, APP_ID@);
    lemma_single_d_append(a + APP_NAME@ + b + SERVICE_NAME@ + c + APP_ID@, d);
}

/// The entry that switches autostart on is in force.
pub proof fn autostart_entry_is_in_force()
    ensures
        is_in_force(autostart_text()),
{
    let text = autostart_text();
    lemma_autostart_single_d();
    lemma_single_d_lines(text);
    assert forall|i: int| 0 <= i < lines_of(text).len() implies trimmed(
        #[trigger] lines_of(text)[i],
    ) != "Hidden=true"@ by {
        let line = lines_of(text)[i];
        let (from, to) = lemma_trimmed(line);
        lemma_single_d_part(line, from, to);
        reveal_strlit("Hidden=true");
        if trimmed(line) == "Hidden=true"@ {
            assert("Hidden=true"@[2] == 'd' && "Hidden=true"@[3] == 'd');
        }
    }
}

/// A path in a directory begins with the directory and ends with its own name. It does not
/// matter whether the directory is written with a slash at its end, and there is just one
/// slash between the two.
pub proof fn paths_are_joined_by_one_slash(directory: Seq<u8>, name: Seq<char>)
    requires
        directory.len() > 0,
        directory.last() != 0x2f,
    ensures
        joined_path(directory, name) == joined_path(directory.push(0x2f), name),
        joined_path(directory, name).take(directory.len() as int) == directory,
        joined_path(directory, name)[directory.len() as int] == 0x2f,
        joined_path(directory, name).skip(directory.len() as int + 1) == encode_utf8(name),
{
    let path = joined_path(directory, name);
    assert(path =~= joined_path(directory.push(0x2f), name));
    assert(path.take(directory.len() as int) =~= directory);
    assert(path.skip(directory.len() as int + 1) =~= encode_utf8(name));
}

/// Whether a step creates `directory`, and `path` is that of a file in it.
pub open spec fn makes_room(step: StepModel, path: Seq<u8>) -> bool {
    exists|directory: Seq<u8>, name: Seq<char>|
        step == StepModel::CreateDirectory(directory) && path == #[trigger] joined_path(
            directory,
            name,
        )
}

/// A directory is created before a file is written to it, whether the program is installed
/// or autostart is switched on.
pub proof fn directories_come_before_their_files(
    home: Seq<u8>,
    data_dir: Seq<u8>,
    icon: Seq<u8>,
    i: int,
    path: Seq<u8>,
)
    ensures
        ({
            let paths = paths_in(home, data_dir);
            let plan = install_steps(paths, icon);
            let switch = autostart_steps(paths, true);
            &&& 0 <= i < plan.len() && written_file(plan[i]) == Some(path) ==> exists|j: int|
                0 <= j < i && #[trigger] makes_room(plan[j], path)
            &&& 0 <= i < switch.len() && written_file(switch[i]) == Some(path) ==> exists|j: int|
                0 <= j < i && #[trigger] makes_room(switch[j], path)
        }),
{
    let paths = paths_in(home, data_dir);
    let plan = install_steps(paths, icon);
    let switch = autostart_steps(paths, true);
    assert(makes_room(plan[0], joined_path(paths.bin_dir, BINARY_NAME@)));
    assert(makes_room(plan[1], joined_path(paths.applications_dir, APP_ID@ + ".desktop"@)));
    assert(makes_room(plan[2], joined_path(paths.icons_dir, symbolic_icon_file())));
    assert(makes_room(plan[3], joined_path(paths.systemd_user_dir, SERVICE_NAME@)));
    assert(makes_room(plan[4], joined_path(paths.autostart_dir, APP_ID@ + ".desktop"@)));
    assert(makes_room(switch[0], joined_path(paths.autostart_dir, APP_ID@ + ".desktop"@)));
}

/// Where the files go, seen from the home directory and the one for data.
pub proof fn files_have_their_places(home: Seq<u8>, data_dir: Seq<u8>)
    requires
        home.len() > 0,
        home.last() != 0x2f,
        data_dir.len() > 0,
        data_dir.last() != 0x2f,
    ensures
        ({
            let paths = paths_in(home, data_dir);
            let slash = seq![0x2fu8];
            &&& paths.binary == home + slash + encode_utf8(".local/bin"@) + slash + encode_utf8(
                "clipboard-for-cosmic"@,
            )
            &&& paths.service == home + slash + encode_utf8(".config/systemd/user"@) + slash
                + encode_utf8("clipboard-for-cosmic.service"@)
            &&& paths.autostart == home + slash + encode_utf8(".config/autostart"@) + slash
                + encode_utf8("com.github.jax.ClipboardHistory"@ + ".desktop"@)
            &&& paths.desktop == data_dir + slash + encode_utf8("applications"@) + slash
                + encode_utf8("com.github.jax.ClipboardHistory"@ + ".desktop"@)
            &&& paths.icon == data_dir + slash + encode_utf8("icons/hicolor/scalable/apps"@)
                + slash + encode_utf8(
                "com.github.jax.ClipboardHistory"@ + "-symbolic.svg"@,
            )
        }),
{
    let paths = paths_in(home, data_dir);
    lemma_path_of_two(home, ".local/bin"@, BINARY_NAME@);
    lemma_path_of_two(home, ".config/systemd/user"@, SERVICE_NAME@);
    lemma_path_of_two(home, ".config/autostart"@, APP_ID@ + ".desktop"@);
    lemma_path_of_two(data_dir, "applications"@, APP_ID@ + ".desktop"@);
    lemma_path_of_two(data_dir, ICONS_DIRECTORY@, symbolic_icon_file());
}

proof fn lemma_path_of_two(directory: Seq<u8>, middle: Seq<char>, name: Seq<char>)
    requires
        directory.len() > 0,
        directory.last() != 0x2f,
        middle == ".local/bin"@ || middle == ".config/systemd/user"@ || middle
            == ".config/autostart"@ || middle == "applications"@ || middle
            == "icons/hicolor/scalable/apps"@,
    ensures
        joined_path(joined_path(directory, middle), name) == directory + seq![0x2fu8]
            + encode_utf8(middle) + seq![0x2fu8] + encode_utf8(name),
{
    reveal_strlit(".local/bin");
    reveal_strlit(".config/systemd/user");
    reveal_strlit(".config/autostart");
    reveal_strlit("applications");
    reveal_strlit("icons/hicolor/scalable/apps");
    assert(is_ascii_chars(middle)) by {
        assert forall|i: int| 0 <= i < middle.len() implies '\0' <= #[trigger] middle[i]
            <= '\u{7f}' by {}
    }
    is_ascii_chars_encode_utf8(middle);
    let last = middle.len() - 1;
    assert(encode_utf8(middle)[last] == middle[last] as u8);
    assert(middle[last] != '/');
    let path = joined_path(directory, middle);
    assert(path.last() == encode_utf8(middle)[last]);
    assert(path =~= directory + seq![0x2fu8] + encode_utf8(middle));
    assert(joined_path(path, name) =~= path + seq![0x2fu8] + encode_utf8(name));
}

/// The service is told of its files once they all lie there, and starts last. It is told
/// again when they are gone.
pub proof fn services_are_reloaded_after_their_files(paths: PathsModel, icon: Seq<u8>, i: int)
    ensures
        ({
            let plan = install_steps(paths, icon);
            let reload = StepModel::Systemctl(seq!["daemon-reload"@]);
            let restart = StepModel::Systemctl(seq!["restart"@, SERVICE_NAME@]);
            let n = plan.len() as int;
            &&& n >= 4
            &&& plan[n - 1] == StepModel::Print(
                "Clipboard History"@ + " installed and started."@,
            )
            &&& plan[n - 3] == StepModel::Systemctl(seq!["disable"@, SERVICE_NAME@])
            &&& plan[n - 2] == restart
            &&& exists|j: int| 0 <= j < n - 2 && #[trigger] plan[j] == reload && (0 <= i < n && (
            plan[i] is WriteFile || plan[i] is InstallBinary || plan[i] is RemoveFile) ==> i < j)
        }),
        ({
            let plan = uninstall_steps(paths);
            let reload = StepModel::Systemctl(seq!["daemon-reload"@]);
            let n = plan.len() as int;
            &&& n >= 2
            &&& plan[n - 1] == StepModel::Print(
                "Clipboard History"@ + " stopped and removed from the user-local installation."@,
            )
            &&& plan[n - 2] == reload
            &&& 0 <= i < n && plan[i] is RemoveFile ==> i < n - 2
        }),
{
    let plan = install_steps(paths, icon);
    assert(plan.len() == 17);
    assert(plan[13] == StepModel::Systemctl(seq!["daemon-reload"@]));
    assert(plan[15] == StepModel::Systemctl(seq!["restart"@, SERVICE_NAME@]));
    assert(uninstall_steps(paths).len() == 11);
}

/// Each file is written with what belongs in it, and what older versions left goes.
pub proof fn files_have_their_contents(paths: PathsModel, icon: Seq<u8>)
    ensures
        ({
            let plan = install_steps(paths, icon);
            let text = lossy_text(paths.binary);
            &&& plan.contains(StepModel::WriteFile { path: paths.icon, contents: icon })
            &&& plan.contains(
                StepModel::WriteFile {
                    path: paths.desktop,
                    contents: encode_utf8(desktop_text(text)),
                },
            )
            &&& plan.contains(
                StepModel::WriteFile {
                    path: paths.service,
                    contents: encode_utf8(service_text(text)),
                },
            )
            &&& exists|staged: Seq<u8>| #[trigger]
                plan.contains(
                    StepModel::InstallBinary { staged, destination: paths.binary },
                ) && staged != paths.binary
            &&& plan.contains(StepModel::RemoveFile(paths.legacy_flash_icon))
            &&& plan.contains(StepModel::RemoveFile(paths.legacy_symbolic_flash_icon))
            &&& plan.contains(StepModel::RemoveFile(paths.legacy_data_control_environment))
            &&& uninstall_steps(paths).contains(StepModel::RemoveFile(paths.legacy_flash_icon))
            &&& uninstall_steps(paths).contains(
                StepModel::RemoveFile(paths.legacy_symbolic_flash_icon),
            )
            &&& uninstall_steps(paths).contains(
                StepModel::RemoveFile(paths.legacy_data_control_environment),
            )
        }),
{
    let plan = install_steps(paths, icon);
    let gone = uninstall_steps(paths);
    staging_spares_the_running_program(paths.binary);
    assert(plan[5] == (StepModel::InstallBinary {
        staged: staged_path(paths.binary),
        destination: paths.binary,
    }));
    assert(plan.contains(plan[5]));
    assert(plan.contains(plan[6]));
    assert(plan.contains(plan[7]));
    assert(plan.contains(plan[8]));
    assert(plan.contains(plan[9]));
    assert(plan.contains(plan[10]));
    assert(plan.contains(plan[12]));
    assert(gone.contains(gone[5]));
    assert(gone.contains(gone[6]));
    assert(gone.contains(gone[8]));
}

/// Switching autostart off removes the file that switching it on writes, which is one that
/// the installation writes too, letter for letter.
pub proof fn autostart_is_one_file(paths: PathsModel, icon: Seq<u8>)
    ensures
        ({
            let on = autostart_steps(paths, true);
            let off = autostart_steps(paths, false);
            &&& on.len() > 0 && off.len() == 1
            &&& install_steps(paths, icon).contains(on.last())
            &&& written_file(on.last()) matches Some(path) && off[0] == StepModel::RemoveFile(path)
        }),
{
    let plan = install_steps(paths, icon);
    assert(plan[11] == autostart_steps(paths, true).last());
}

/// The entries and the service start the program that was installed, and the action of the
/// menu entry is the command for a shortcut.
pub proof fn files_start_the_program(binary: Seq<u8>)
    ensures
        ({
            let name = lossy_text(binary);
            &&& exists|i: int| #[trigger]
                stands_at(desktop_text(name), "\nExec="@ + name + "\nIcon="@, i)
            &&& exists|i: int| #[trigger]
                stands_at(
                    desktop_text(name),
                    "\nExec="@ + show_command_text(binary) + "\n"@,
                    i,
                )
            &&& exists|i: int| #[trigger]
                stands_at(service_text(name), "\nExecStart="@ + name + "\n"@, i)
            &&& exists|i: int| #[trigger]
                stands_at(
                    autostart_text(),
                    "\nExec=systemctl --user start "@ + SERVICE_NAME@ + "\n"@,
                    i,
                )
        }),
{
    let name = lossy_text(binary);
    reveal_strlit("\nExec=");
    reveal_strlit("\nExecStart=");
    reveal_strlit("\n");
    reveal_strlit("\nIcon=");
    reveal_strlit(" show\n");
    reveal_strlit(" show");
    reveal_strlit("\nExec=systemctl --user start ");
    reveal_strlit("[Desktop Entry]\nType=Application\nName=");
    reveal_strlit("\nComment=Clipboard history for COSMIC\nExec=");
    reveal_strlit(
        "-symbolic\nNoDisplay=true\nTerminal=false\nCategories=Utility;\nActions=Show;\n\n[Desktop Action Show]\nName=Show ClipboardForCosmic\nExec=",
    );
    reveal_strlit("\nComment=Start ClipboardForCosmic in the background\nExec=systemctl --user start ");
    reveal_strlit("[Unit]\nDescription=");
    reveal_strlit(
        "\nPartOf=graphical-session.target\nAfter=graphical-session.target\n\n[Service]\nType=simple\nExecStart=",
    );
    reveal_strlit("\nRestart=on-failure\n\n[Install]\nWantedBy=graphical-session.target\n");
    let first = "[Desktop Entry]\nType=Application\nName="@ + APP_NAME@
        + "\nComment=Clipboard history for COSMIC\nExec="@;
    let whole = desktop_text(name);
    let a = first.len() - 6;
    let wanted = "\nExec="@ + name + "\nIcon="@;
    assert(whole.subrange(a, a + wanted.len()) =~= wanted);
    assert(stands_at(whole, wanted, a));
    let shown = "\nExec="@ + show_command_text(binary) + "\n"@;
    let b = whole.len() - shown.len();
    assert(whole.subrange(b, b + shown.len()) =~= shown);
    assert(stands_at(whole, shown, b));
    let unit = "[Unit]\nDescription="@ + APP_NAME@
        + "\nPartOf=graphical-session.target\nAfter=graphical-session.target\n\n[Service]\nType=simple\nExecStart="@;
    let started = "\nExecStart="@ + name + "\n"@;
    let c = unit.len() - 11;
    assert(service_text(name).subrange(c, c + started.len()) =~= started);
    assert(stands_at(service_text(name), started, c));
    let entry = "[Desktop Entry]\nType=Application\nName="@ + APP_NAME@
        + "\nComment=Start ClipboardForCosmic in the background\nExec=systemctl --user start "@;
    let service = "\nExec=systemctl --user start "@ + SERVICE_NAME@ + "\n"@;
    let d = entry.len() - 29;
    assert(autostart_text().subrange(d, d + service.len()) =~= service);
    assert(stands_at(autostart_text(), service, d));
}

/// An entry for login is in force unless a line of it says that it is hidden; whitespace
/// around that line does not matter.
pub proof fn a_hidden_entry_is_not_in_force(parts: Seq<Seq<char>>, end: Seq<char>)
    requires
        forall|i: int| 0 <= i < parts.len() ==> is_plain_line(#[trigger] parts[i]),
        end == seq!['\n'] || end == seq!['\r', '\n'],
    ensures
        is_in_force(terminated(parts, end)) <==> !(exists|i: int|
            0 <= i < parts.len() && trimmed(#[trigger] parts[i]) == seq![
                'H', 'i', 'd', 'd', 'e', 'n', '=', 't', 'r', 'u', 'e',
            ]),
{
    reveal_strlit("Hidden=true");
    assert("Hidden=true"@ =~= seq!['H', 'i', 'd', 'd', 'e', 'n', '=', 't', 'r', 'u', 'e']);
    lemma_plain_lines(parts, end);
}

/// Each command has its name and no other: one name each for installing, removing and
/// showing, three for help. Only without an argument does the program start.
pub proof fn commands_have_their_names(name: Seq<char>)
    ensures
        command_of(None) == Command::Launch,
        command_of(Some(name)) == Command::Install <==> name == "install"@,
        command_of(Some(name)) == Command::Uninstall <==> name == "uninstall"@,
        command_of(Some(name)) == Command::Show <==> name == "show"@,
        command_of(Some(name)) == Command::Help <==> name == "help"@ || name == "--help"@ || name
            == "-h"@,
        command_of(Some(name)) != Command::Launch,
{
    reveal_strlit("install");
    reveal_strlit("uninstall");
    reveal_strlit("show");
    reveal_strlit("help");
    reveal_strlit("--help");
    reveal_strlit("-h");
    assert("show"@[0] == 's');
    assert("help"@[0] == 'h');
    assert("install"@.len() == 7);
    assert("uninstall"@.len() == 9);
    assert("show"@.len() == 4);
    assert("help"@.len() == 4);
    assert("--help"@.len() == 6);
    assert("-h"@.len() == 2);
}

/// The message that asks for the history is the name of the command that sends it.
pub proof fn the_message_is_the_command()
    ensures
        show_message() == encode_utf8("show"@),
        command_of(Some("show"@)) == Command::Show,
{
    reveal_strlit("show");
    commands_have_their_names("show"@);
    assert(is_ascii_chars("show"@)) by {
        assert forall|i: int| 0 <= i < "show"@.len() implies '\0' <= #[trigger] "show"@[i]
            <= '\u{7f}' by {}
    }
    is_ascii_chars_encode_utf8("show"@);
    let text = encode_utf8("show"@);
    assert(text[0] == "show"@[0] as u8);
    assert(text[1] == "show"@[1] as u8);
    assert(text[2] == "show"@[2] as u8);
    assert(text[3] == "show"@[3] as u8);
    assert(text =~= show_message());
}

/// Without a home directory, and without a directory for data, there is no place for the
/// files; the home directory is asked for first.
pub proof fn both_directories_are_needed(home: Option<Seq<u8>>, data_dir: Option<Seq<u8>>)
    ensures
        paths_for(home, data_dir) is Ok <==> home is Some && data_dir is Some,
        home is None ==> paths_for(home, data_dir) == Err::<PathsModel, PathsError>(
            PathsError::NoHome,
        ),
        home is Some && data_dir is None ==> paths_for(home, data_dir) == Err::<
            PathsModel,
            PathsError,
        >(PathsError::NoDataDirectory),
{
}

} // verus!
