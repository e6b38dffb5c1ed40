//! The texts of the per-user auto-start service: the systemd user unit, the
//! macOS LaunchAgent property list and the Windows Startup script, and what
//! happens on a platform with none of these. Writing the files and running
//! `systemctl` / `launchctl` is done outside the library.

use vstd::prelude::*;

verus! {

pub open spec fn service_name_text() -> Seq<char> {
    "aw-kimai-bridge"@
}

pub fn service_name() -> (r: &'static str)
    ensures
        r@ == service_name_text(),
{
    "aw-kimai-bridge"
}

/// The systemd user unit: run the daemon with the config, restart it on
/// failure, start it with the user session.
pub open spec fn unit_file_text(exe: Seq<char>, config: Seq<char>) -> Seq<char> {
    "[Unit]\nDescription=ActivityWatch \u{2192} Kimai sync bridge\nAfter=network-online.target\n\n[Service]\nType=simple\nExecStart="@
        + exe + " run "@ + config
        + "\nRestart=on-failure\nRestartSec=10\nEnvironment=RUST_LOG=info\n\n[Install]\nWantedBy=default.target\n"@
}

pub fn unit_file(exe: &str, config: &str) -> (r: String)
    ensures
        r@ == unit_file_text(exe@, config@),
{
    let mut s = String::from_str(
        "[Unit]\nDescription=ActivityWatch \u{2192} Kimai sync bridge\nAfter=network-online.target\n\n[Service]\nType=simple\nExecStart=",
    );
    s.append(exe);
    s.append(" run ");
    s.append(config);
    s.append(
        "\nRestart=on-failure\nRestartSec=10\nEnvironment=RUST_LOG=info\n\n[Install]\nWantedBy=default.target\n",
    );
    s
}

/// The unit is laid out as systemd reads it: a `[Unit]` section, then a
/// `[Service]` section that runs the daemon on the config with `run` and
/// restarts it on failure, then an `[Install]` section that makes
/// `systemctl --user enable` start it with the user's default target.
pub proof fn law_unit_sections(exe: Seq<char>, config: Seq<char>)
    ensures
        exists|a: Seq<char>, b: Seq<char>, c: Seq<char>, d: Seq<char>, e: Seq<char>|
            unit_file_text(exe, config) == "[Unit]\n"@ + a + "\n\n[Service]\n"@ + b + "\nExecStart="@ + exe
                + " run "@ + config + "\nRestart=on-failure\n"@ + c + "\n\n[Install]\n"@ + d
                + "WantedBy=default.target\n"@ + e
                && !a.contains('[') && !b.contains('[') && !c.contains('[') && !d.contains('['),
{
    reveal_strlit("[Unit]\nDescription=ActivityWatch \u{2192} Kimai sync bridge\nAfter=network-online.target\n\n[Service]\nType=simple\nExecStart=");
    reveal_strlit("\nRestart=on-failure\nRestartSec=10\nEnvironment=RUST_LOG=info\n\n[Install]\nWantedBy=default.target\n");
    reveal_strlit(" run ");
    reveal_strlit("[Unit]\n");
    reveal_strlit("\n\n[Service]\n");
    reveal_strlit("\nExecStart=");
    reveal_strlit("\nRestart=on-failure\n");
    reveal_strlit("\n\n[Install]\n");
    reveal_strlit("WantedBy=default.target\n");
    reveal_strlit("Description=ActivityWatch \u{2192} Kimai sync bridge\nAfter=network-online.target");
    reveal_strlit("Type=simple");
    reveal_strlit("RestartSec=10\nEnvironment=RUST_LOG=info");
    let a = "Description=ActivityWatch \u{2192} Kimai sync bridge\nAfter=network-online.target"@;
    let b = "Type=simple"@;
    let c = "RestartSec=10\nEnvironment=RUST_LOG=info"@;
    let d = Seq::<char>::empty();
    let e = Seq::<char>::empty();
    assert(unit_file_text(exe, config) =~= "[Unit]\n"@ + a + "\n\n[Service]\n"@ + b + "\nExecStart="@ + exe
        + " run "@ + config + "\nRestart=on-failure\n"@ + c + "\n\n[Install]\n"@ + d
        + "WantedBy=default.target\n"@ + e);
    assert(!a.contains('['));
    assert(!b.contains('['));
    assert(!c.contains('['));
    assert(!d.contains('['));
}

/// The LaunchAgent label of a user: `com.aw-kimai-bridge.{user}`.
pub fn launch_agent_label(user: &str) -> (r: String)
    ensures
        r@ == "com.aw-kimai-bridge."@ + user@,
{
    let mut s = String::from_str("com.aw-kimai-bridge.");
    s.append(user);
    s
}

/// The LaunchAgent property list: run the daemon with the config at load,
/// keep it alive, log to `{log_dir}/aw-kimai-bridge.log`.
pub open spec fn plist_text(label: Seq<char>, exe: Seq<char>, config: Seq<char>, log_dir: Seq<char>) -> Seq<char> {
    "<?xml version=\"1.0\" encoding=\"UTF-8\"?>\n<!DOCTYPE plist PUBLIC \"-//Apple//DTD PLIST 1.0//EN\" \"http://www.apple.com/DTDs/PropertyList-1.0.dtd\">\n<plist version=\"1.0\">\n<dict>\n    <key>Label</key>\n    <string>"@
        + label
        + "</string>\n    <key>ProgramArguments</key>\n    <array>\n        <string>"@ + exe
        + "</string>\n        <string>run</string>\n        <string>"@ + config
        + "</string>\n    </array>\n    <key>RunAtLoad</key>\n    <true/>\n    <key>KeepAlive</key>\n    <true/>\n    <key>StandardOutPath</key>\n    <string>"@
        + log_dir + "/aw-kimai-bridge.log</string>\n    <key>StandardErrorPath</key>\n    <string>"@
        + log_dir
        + "/aw-kimai-bridge.log</string>\n    <key>EnvironmentVariables</key>\n    <dict>\n        <key>RUST_LOG</key>\n        <string>info</string>\n    </dict>\n</dict>\n</plist>\n"@
}

pub fn plist_xml(label: &str, exe: &str, config: &str, log_dir: &str) -> (r: String)
    ensures
        r@ == plist_text(label@, exe@, config@, log_dir@),
{
    let mut s = String::from_str(
        "<?xml version=\"1.0\" encoding=\"UTF-8\"?>\n<!DOCTYPE plist PUBLIC \"-//Apple//DTD PLIST 1.0//EN\" \"http://www.apple.com/DTDs/PropertyList-1.0.dtd\">\n<plist version=\"1.0\">\n<dict>\n    <key>Label</key>\n    <string>",
    );
    s.append(label);
    s.append("</string>\n    <key>ProgramArguments</key>\n    <array>\n        <string>");
    s.append(exe);
    s.append("</string>\n        <string>run</string>\n        <string>");
    s.append(config);
    s.append(
        "</string>\n    </array>\n    <key>RunAtLoad</key>\n    <true/>\n    <key>KeepAlive</key>\n    <true/>\n    <key>StandardOutPath</key>\n    <string>",
    );
    s.append(log_dir);
    s.append("/aw-kimai-bridge.log</string>\n    <key>StandardErrorPath</key>\n    <string>");
    s.append(log_dir);
    s.append(
        "/aw-kimai-bridge.log</string>\n    <key>EnvironmentVariables</key>\n    <dict>\n        <key>RUST_LOG</key>\n        <string>info</string>\n    </dict>\n</dict>\n</plist>\n",
    );
    s
}

/// The Windows Startup-folder script: start the daemon in the background.
pub open spec fn startup_script_text(exe: Seq<char>, config: Seq<char>) -> Seq<char> {
    "@echo off\r\nset RUST_LOG=info\r\nstart \"\" /B \""@ + exe + "\" run \""@ + config + "\"\r\n"@
}

pub fn startup_script(exe: &str, config: &str) -> (r: String)
    ensures
        r@ == startup_script_text(exe@, config@),
{
    let mut s = String::from_str("@echo off\r\nset RUST_LOG=info\r\nstart \"\" /B \"");
    s.append(exe);
    s.append("\" run \"");
    s.append(config);
    s.append("\"\r\n");
    s
}

/// Why a service cannot be installed or removed on this platform.
pub enum ServiceError {
    /// Automatic service install is not supported on this OS. Run the daemon
    /// manually or add it to your init system.
    Unsupported,
    /// Nothing to uninstall on this OS.
    NothingToUninstall,
}

/// On a platform without a supported service manager there is no service
/// file.
pub fn installed_path() -> (r: Option<String>)
    ensures
        r is None,
{
    None
}

/// On a platform without a supported service manager nothing is installed.
pub fn install(exe: &str, config: &str) -> (r: Result<String, ServiceError>)
    ensures
        r matches Err(ServiceError::Unsupported),
{
    Err(ServiceError::Unsupported)
}

/// On a platform without a supported service manager there is nothing to
/// remove.
pub fn uninstall() -> (r: Result<String, ServiceError>)
    ensures
        r matches Err(ServiceError::NothingToUninstall),
{
    Err(ServiceError::NothingToUninstall)
}

} // verus!
