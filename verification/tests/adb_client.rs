use android_terminal::adb::{
    command_line, get_device_model, map_io_error, run_adb, Adb, CommandOutput, IoFailure,
};
use android_terminal::app_storage::{
    build_batch_script, fetch_package_storage_batch, fill_missing_packages, package_batches, parse_batch_output,
    parse_package_list, parse_storage_stats_total, shell_quote, sort_names,
};
use android_terminal::device::{
    devices_from_output, needs_model_lookup, parse_device_line, with_model, DeviceState,
};
use android_terminal::error::{classify_adb_stderr, AdbError};
use android_terminal::logcat::{
    line_from_bytes, logcat_args, parse_logcat_entries, parse_logcat_line, spawn_failure_entry,
    stderr_entry, LogEntry,
};
use android_terminal::network::{
    counts_toward_device_total, format_transport, infer_transport, is_virtual_interface,
    needs_transport_refresh, parse_netstats_transports, parse_proc_net_dev, refresh_transports,
    transport_for,
};
use android_terminal::poll::{backoff_interval, Interval};
use android_terminal::protocols::{parse_package_uids, parse_protocol_bytes, parse_tag, should_count};
use android_terminal::stats::{next_backoff_interval as stats_backoff, parse_meminfo, MemoryStats};
use android_terminal::storage_breakdown::{
    aggregate_categories, category_sums_fit, folder_path, parse_du_bytes, parse_user_storage_df,
};
use android_terminal::textmap::TextMap;

fn ok_output(stdout: &[u8]) -> CommandOutput {
    CommandOutput { success: true, stdout: stdout.to_vec(), stderr: Vec::new() }
}

// ---------------------------------------------------------------------------
// app storage
// ---------------------------------------------------------------------------

#[test]
fn parse_storage_stats_total_sums_bytes() {
    let sample = r#"code: 125628416 bytes (119.81 Mb)
data: 9515008 bytes (9.07 Mb)
cache: 184320 bytes (180.00 Kb)
apk: 70806309 bytes (67.53 Mb)
dexopt artifacts: 54725272 bytes (52.19 Mb)
"#;
    assert_eq!(
        parse_storage_stats_total(sample),
        125_628_416 + 9_515_008 + 184_320 + 70_806_309 + 54_725_272
    );
}

#[test]
fn app_storage_parse_package_list() {
    let sample = "package:com.android.chrome\npackage:com.google.android.gms\n";
    let list = parse_package_list(sample);
    assert_eq!(list.len(), 2);
    assert_eq!(list[0], "com.android.chrome");
}

#[test]
fn parse_batch_output_splits_packages() {
    let sample = r#"@PKG@com.android.chrome
code: 1000 bytes
data: 2000 bytes
@PKG@com.android.settings
code: 500 bytes
"#;

    let expected = vec![
        "com.android.chrome".to_string(),
        "com.android.settings".to_string(),
    ];
    let parsed = parse_batch_output(sample, &expected);
    assert_eq!(parsed.len(), 2);
    assert_eq!(parsed[0].0, "com.android.chrome");
    assert_eq!(parsed[0].1, 3000);
    assert_eq!(parsed[1].0, "com.android.settings");
    assert_eq!(parsed[1].1, 500);
}

#[test]
fn shell_quote_escapes_single_quotes() {
    assert_eq!(shell_quote("com.example.app"), "'com.example.app'");
    assert_eq!(shell_quote("a'b"), "'a'\\''b'");
}

#[test]
fn batch_script_uses_device_side_pkg_variable() {
    let script = build_batch_script(&["com.android.chrome".to_string()]);
    assert!(script.contains("pkg='com.android.chrome'"));
    assert!(script.contains("printf '@PKG@%s\\n' \"$pkg\""));
}

#[test]
fn batch_script_joins_packages_with_semicolons() {
    let script = build_batch_script(&["a".to_string(), "b".to_string()]);
    assert_eq!(
        script,
        "pkg='a'; printf '@PKG@%s\\n' \"$pkg\"; cmd package get-package-storage-stats \"$pkg\" 2>/dev/null || true; \
         pkg='b'; printf '@PKG@%s\\n' \"$pkg\"; cmd package get-package-storage-stats \"$pkg\" 2>/dev/null || true"
    );
    assert_eq!(build_batch_script(&[]), "");
}

#[test]
fn fill_missing_packages_adds_zero_and_orders_by_expected() {
    let expected = vec!["b".to_string(), "a".to_string(), "c".to_string()];
    let results = vec![("c".to_string(), 7), ("x".to_string(), 9), ("a".to_string(), 3)];
    let filled = fill_missing_packages(&expected, results);
    assert_eq!(
        filled,
        vec![
            ("b".to_string(), 0),
            ("a".to_string(), 3),
            ("c".to_string(), 7),
            ("x".to_string(), 9),
        ]
    );
}

#[test]
fn storage_stats_ignore_lines_without_bytes() {
    assert_eq!(parse_storage_stats_total("total: 12 kB\nfoo: 3 bytes\n: 4 bytes\n"), 3);
    assert_eq!(parse_storage_stats_total(""), 0);
}

#[test]
fn sort_names_orders_lexicographically() {
    let sorted = sort_names(vec![
        "com.b".to_string(),
        "com.a".to_string(),
        "com".to_string(),
        "com.b".to_string(),
    ]);
    assert_eq!(sorted, vec!["com", "com.a", "com.b", "com.b"]);
}

#[test]
fn package_batches_split_by_twenty() {
    let packages: Vec<String> = (0..45).map(|i| format!("p{i}")).collect();
    let batches = package_batches(&packages);
    assert_eq!(batches.len(), 3);
    assert_eq!(batches[0].len(), 20);
    assert_eq!(batches[1].len(), 20);
    assert_eq!(batches[2].len(), 5);
    assert_eq!(batches[2][0], "p40");
    assert!(package_batches(&Vec::new()).is_empty());
}

// ---------------------------------------------------------------------------
// devices
// ---------------------------------------------------------------------------

#[test]
fn parse_device_line_with_model() {
    let device = parse_device_line(
        "emulator-5554 device product:sdk_gphone64_arm64 model:sdk_gphone64_arm64 device:emu64a transport_id:1",
    )
    .unwrap();

    assert_eq!(device.serial, "emulator-5554");
    assert_eq!(device.state, DeviceState::Device);
    assert_eq!(device.model, "sdk_gphone64_arm64");
}

#[test]
fn parse_device_line_without_model() {
    let device = parse_device_line("ABCD1234 device").unwrap();

    assert_eq!(device.serial, "ABCD1234");
    assert_eq!(device.state, DeviceState::Device);
    assert_eq!(device.model, "");
}

#[test]
fn parse_unauthorized_device() {
    let device = parse_device_line("R58M123ABC unauthorized").unwrap();

    assert_eq!(device.serial, "R58M123ABC");
    assert_eq!(device.state, DeviceState::Unauthorized);
    assert_eq!(device.model, "");
}

#[test]
fn parse_offline_device() {
    let device = parse_device_line("emulator-5556 offline").unwrap();

    assert_eq!(device.serial, "emulator-5556");
    assert_eq!(device.state, DeviceState::Offline);
}

#[test]
fn devices_from_sample_output() {
    let output = ok_output(
        b"List of devices attached\nemulator-5554 device product:sdk model:sdk_gphone64_arm64 device:emu64a transport_id:1\n",
    );

    let devices = devices_from_output(&output).unwrap();
    assert_eq!(devices.len(), 1);
    assert_eq!(devices[0].serial, "emulator-5554");
    assert_eq!(devices[0].model, "sdk_gphone64_arm64");
}

#[test]
fn devices_without_model_use_serial_unless_ready() {
    let output = ok_output(b"List of devices attached\n\nR58 unauthorized\nE55 device\nX1 weird\n");
    let devices = devices_from_output(&output).unwrap();
    assert_eq!(devices.len(), 3);
    assert_eq!(devices[0].model, "R58");
    assert_eq!(devices[1].model, "");
    assert!(needs_model_lookup(&devices[1]));
    assert_eq!(devices[2].state, DeviceState::Other("weird".to_string()));
    let filled = with_model(devices[1].clone(), None);
    assert_eq!(filled.model, "E55");
    let named = with_model(devices[1].clone(), Some("Pixel 8".to_string()));
    assert_eq!(named.model, "Pixel 8");
}

#[test]
fn devices_output_with_unparsable_line_fails() {
    let output = ok_output(b"List of devices attached\nlonely\n");
    assert_eq!(
        devices_from_output(&output),
        Err(AdbError::ParseFailed("failed to parse adb devices line: lonely".to_string()))
    );
}

#[test]
fn list_devices_reports_run_failures() {
    let missing = IoFailure { not_found: true, message: "not found".to_string() };
    assert_eq!(Adb::list_devices(Err(missing)), Err(AdbError::NotFound));
    let failed = CommandOutput { success: false, stdout: Vec::new(), stderr: b"boom\n".to_vec() };
    assert_eq!(
        Adb::list_devices(Ok(failed)),
        Err(AdbError::CommandFailed {
            command: "adb devices -l".to_string(),
            stderr: "boom\n".to_string()
        })
    );
    assert!(Adb::check_available(Ok(ok_output(b"Android Debug Bridge"))).is_ok());
}

#[test]
fn run_adb_names_the_command_line() {
    assert_eq!(command_line(&["-s", "X", "shell"]), "adb -s X shell");
    assert_eq!(command_line(&[]), "adb ");
    let io = IoFailure { not_found: false, message: "denied".to_string() };
    assert_eq!(map_io_error(io.clone()), AdbError::Io("denied".to_string()));
    assert_eq!(run_adb(&["version"], Err(io)).err(), Some(AdbError::Io("denied".to_string())));
}

#[test]
fn getprop_model_is_trimmed_or_absent() {
    assert_eq!(get_device_model("X", Ok(ok_output(b"  Pixel 8 \n"))), Ok(Some("Pixel 8".to_string())));
    assert_eq!(get_device_model("X", Ok(ok_output(b" \n"))), Ok(None));
}

// ---------------------------------------------------------------------------
// errors
// ---------------------------------------------------------------------------

#[test]
fn classify_offline_device() {
    assert_eq!(classify_adb_stderr("error: device offline"), "Device offline");
}

#[test]
fn classify_unauthorized_device() {
    assert_eq!(
        classify_adb_stderr("device unauthorized.\nThis adb server's ..."),
        "Device unauthorized — accept the USB debugging prompt on the device"
    );
}

#[test]
fn classify_permission_denied() {
    assert_eq!(classify_adb_stderr("logcat: Permission denied"), "Permission denied");
}

#[test]
fn classify_falls_back_to_trimmed_stderr() {
    assert_eq!(classify_adb_stderr("  something else \n"), "something else");
    assert_eq!(classify_adb_stderr("   "), "adb command failed");
    assert_eq!(classify_adb_stderr("error: device not found"), "Device not found");
}

#[test]
fn error_descriptions() {
    assert_eq!(
        AdbError::ParseFailed("bad".to_string()).user_message(),
        "Failed to parse device output: bad"
    );
    assert_eq!(
        AdbError::CommandFailed { command: "adb x".to_string(), stderr: "e".to_string() }.describe(),
        "adb command failed (adb x): e"
    );
    assert_eq!(
        AdbError::NotFound.user_message(),
        "adb not found on PATH. Install Android SDK platform-tools."
    );
}

// ---------------------------------------------------------------------------
// logcat
// ---------------------------------------------------------------------------

#[test]
fn adb_diagnostic_is_error_level() {
    let entry = LogEntry::adb_diagnostic("device offline");
    assert!(entry.is_error_level());
    assert_eq!(entry.tag, "adb");
}

#[test]
fn parse_standard_logcat_line() {
    let entry = parse_logcat_line("03-15 10:23:45.123  1234  5678 I MyTag: Hello world").unwrap();

    assert_eq!(entry.timestamp, "03-15 10:23:45.123");
    assert_eq!(entry.pid, 1234);
    assert_eq!(entry.tid, 5678);
    assert_eq!(entry.level, 'I');
    assert_eq!(entry.tag, "MyTag");
    assert_eq!(entry.message, "Hello world");
}

#[test]
fn parse_error_logcat_line() {
    let entry =
        parse_logcat_line("09-01 17:00:01.456  9999  9999 E AndroidRuntime: FATAL EXCEPTION").unwrap();

    assert_eq!(entry.level, 'E');
    assert_eq!(entry.tag, "AndroidRuntime");
    assert_eq!(entry.message, "FATAL EXCEPTION");
}

#[test]
fn parse_line_without_message() {
    let entry = parse_logcat_line("09-01 17:00:01.456  100  100 W Tag:").unwrap();

    assert_eq!(entry.level, 'W');
    assert_eq!(entry.tag, "Tag");
    assert_eq!(entry.message, "");
}

#[test]
fn compact_line_omits_timestamp_pid_and_tid() {
    let info = parse_logcat_line(
        "09-02 11:05:45.782  1959  1959 I artd    : GetBestInfo checking vdex next to the dex file (/data/user_de/0/com.google.android.gms/app_chimera/m/000000b4/oat/arm64/dl-Appsearch.optional_261631100400.vdex)",
    )
    .unwrap();
    assert_eq!(
        info.format_line_with_timestamp(false),
        "I artd    : GetBestInfo checking vdex next to the dex file (/data/user_de/0/com.google.android.gms/app_chimera/m/000000b4/oat/arm64/dl-Appsearch.optional_261631100400.vdex)",
    );

    let error = parse_logcat_line(
        "09-02 11:05:45.782  5353 25353 E AndroidRuntime: \tat kotlinx.coroutines.DispatchedTask.run(DispatchedTask.kt:100)",
    )
    .unwrap();
    assert_eq!(
        error.format_line_with_timestamp(false),
        "E AndroidRuntime: \tat kotlinx.coroutines.DispatchedTask.run(DispatchedTask.kt:100)",
    );
}

#[test]
fn skip_unrecognized_line() {
    assert!(parse_logcat_line("--------- beginning of main").is_none());
}

#[test]
fn error_level_filter() {
    let error = parse_logcat_line("09-01 17:00:01.456  1  1 E Tag: boom").unwrap();
    let fatal = parse_logcat_line("09-01 17:00:01.456  1  1 F Tag: boom").unwrap();
    let warning = parse_logcat_line("09-01 17:00:01.456  1  1 W Tag: boom").unwrap();

    assert!(error.is_error_level());
    assert!(fatal.is_error_level());
    assert!(!warning.is_error_level());
}

#[test]
fn read_line_lossy_replaces_invalid_utf8() {
    let line = line_from_bytes(b"hello \xFF world\n").unwrap();
    assert!(line.contains("hello"));
    assert!(line.contains("world"));
    assert!(line.contains('\u{FFFD}'));
    assert!(line_from_bytes(b"").is_none());
}

#[test]
fn full_line_pads_pid_and_tid() {
    let entry = parse_logcat_line("03-15 10:23:45.123  1234  5678 I MyTag: Hello world").unwrap();
    assert_eq!(entry.format_line(), "03-15 10:23:45.123  1234  5678 I MyTag: Hello world");
    let diag = LogEntry::adb_diagnostic("boom");
    assert_eq!(diag.format_line(), "    0     0 E adb: boom");
}

#[test]
fn stream_entries_collapse_whitespace_and_split_long_messages() {
    let entries = parse_logcat_entries("03-15 10:23:45.123  1 2 I T: a \t  b");
    assert_eq!(entries.len(), 1);
    assert_eq!(entries[0].message, "a b");

    let long = "x".repeat(250);
    let line = format!("03-15 10:23:45.123  1 2 I T: {long}");
    let pieces = parse_logcat_entries(&line);
    assert_eq!(pieces.len(), 3);
    assert_eq!(pieces[0].message.len(), 120);
    assert_eq!(pieces[0].tag, "T");
    assert_eq!(pieces[1].tag, "");
    assert_eq!(pieces[1].timestamp, "");
    assert_eq!(pieces[2].message.len(), 10);
    assert!(parse_logcat_entries("nonsense").is_empty());
}

#[test]
fn stderr_lines_become_diagnostics_unless_blank() {
    assert!(stderr_entry("   ").is_none());
    let e = stderr_entry("error: closed").unwrap();
    assert_eq!(e.message, "error: closed");
    assert_eq!(e.level, 'E');
    let args = logcat_args("X", &vec!["*:E".to_string()]);
    assert_eq!(args, vec!["-s", "X", "logcat", "-v", "threadtime", "*:E"]);
}

// ---------------------------------------------------------------------------
// network
// ---------------------------------------------------------------------------

const PROC_NET_DEV_SAMPLE: &str = r#"Inter-|   Receive                                                |  Transmit
 face |bytes    packets errs drop fifo frame compressed multicast|bytes    packets errs drop fifo colls carrier compressed
    lo: 1234567    1000    0    0    0     0          0         0  1234567    1000    0    0    0     0       0          0
  wlan0: 10485760   5000    0    0    0     0          0         0  5242880   2500    0    0    0     0       0          0
 rmnet0: 2097152   1000    0    0    0     0          0         0  1048576    500    0    0    0     0       0          0
"#;

const NETSTATS_SAMPLE: &str = r#"
Active interfaces:
  iface=wlan0 ident=[{type=WIFI, subType=COMBINED, networkId="..."}]
  iface=rmnet0 ident=[{type=MOBILE, subType=COMBINED, networkId="..."}]
"#;

#[test]
fn parse_proc_net_dev_sample() {
    let interfaces = parse_proc_net_dev(PROC_NET_DEV_SAMPLE);
    assert_eq!(interfaces.len(), 3);
    assert_eq!(interfaces[1], ("wlan0".to_string(), 10_485_760, 5_242_880));
    assert_eq!(interfaces[2], ("rmnet0".to_string(), 2_097_152, 1_048_576));
}

#[test]
fn parse_netstats_transports_sample() {
    let transports = parse_netstats_transports(NETSTATS_SAMPLE);
    assert_eq!(transports.get("wlan0"), Some(&"WiFi".to_string()));
    assert_eq!(transports.get("rmnet0"), Some(&"Mobile".to_string()));
}

#[test]
fn infer_transport_from_iface_name() {
    assert_eq!(infer_transport("wlan0"), "WiFi");
    assert_eq!(infer_transport("rmnet_data0"), "Mobile");
    assert_eq!(infer_transport("eth0"), "Ethernet");
    assert_eq!(infer_transport("dummy0"), "Other");
}

#[test]
fn virtual_interface_denylist() {
    assert!(is_virtual_interface("dummy0"));
    assert!(is_virtual_interface("ifb0"));
    assert!(is_virtual_interface("tunl0"));
    assert!(is_virtual_interface("sit0"));
    assert!(is_virtual_interface("ip6tnl0"));
    assert!(!is_virtual_interface("wlan0"));
    assert!(!is_virtual_interface("eth0"));
    assert!(!is_virtual_interface("rmnet_data0"));
}

#[test]
fn network_backoff_caps_at_five_seconds() {
    assert_eq!(
        android_terminal::network::next_backoff_interval(Interval::from_secs(4)),
        Interval::from_secs(5)
    );
}

#[test]
fn format_transport_capitalizes_unknown_types() {
    assert_eq!(format_transport("WIFI"), "WiFi");
    assert_eq!(format_transport("BLUETOOTH"), "Bluetooth");
    assert_eq!(format_transport("vpn"), "Vpn");
}

#[test]
fn real_transports_count_unless_virtual() {
    assert!(counts_toward_device_total("wlan0", "WiFi"));
    assert!(!counts_toward_device_total("dummy0", "Ethernet"));
    assert!(!counts_toward_device_total("usb0", "Other"));
}

#[test]
fn transport_cache_refresh() {
    let interfaces = vec![("lo".to_string(), 0, 0), ("wlan0".to_string(), 1, 2), ("eth9".to_string(), 3, 4)];
    let mut known: TextMap<String> = TextMap::new();
    assert!(needs_transport_refresh(&interfaces, &known, false));
    let mut read = TextMap::new();
    read.insert("wlan0".to_string(), "WiFi".to_string());
    refresh_transports(&mut known, Some(read), &interfaces);
    assert_eq!(known.get("wlan0"), Some(&"WiFi".to_string()));
    assert_eq!(known.get("eth9"), Some(&"Ethernet".to_string()));
    assert!(known.get("lo").is_none());
    assert!(!needs_transport_refresh(&interfaces, &known, false));
    assert!(needs_transport_refresh(&interfaces, &known, true));
    assert_eq!(transport_for(&known, "rmnet1"), "Mobile");
}

// ---------------------------------------------------------------------------
// protocols
// ---------------------------------------------------------------------------

const PACKAGES_SAMPLE: &str = r#"package:com.google.android.youtube uid:10166
package:com.android.simappdialog.auto_generated_rro_product__ uid:10060
package:com.android.externalstorage uid:10098
package:com.android.server.telecom uid:1000
package:android uid:1000
"#;

const SYS_DUMP_SAMPLE: &str = r#"Xt stats:
  Pending bytes: 0
  History since boot:
  ident=[{type=0, ratType=3, subscriberId=310260..., metered=true, defaultNetwork=false, oemManaged=OEM_NONE, subId=1}] uid=-1 set=ALL tag=0x0
    NetworkStatsHistory: bucketDuration=3600
      st=1787544000 rb=24028 rp=75 tb=25282 tp=86 op=0
      st=1787547600 rb=847 rp=9 tb=0 tp=0 op=0
UID stats:
  ident=[{type=1, ratType=COMBINED, wifiNetworkKey="AndroidWifi"open, metered=false, defaultNetwork=true, oemManaged=OEM_NONE, subId=-1}] uid=10144 set=FOREGROUND tag=0x0
    NetworkStatsHistory: bucketDuration=3600
      st=1787544000 rb=63623203 rp=51606 tb=1594753 tp=9557 op=0
  ident=[{type=1, ratType=COMBINED, wifiNetworkKey="AndroidWifi"open, metered=false, defaultNetwork=true, oemManaged=OEM_NONE, subId=-1}] uid=10144 set=FOREGROUND tag=0xfffffff2
    NetworkStatsHistory: bucketDuration=3600
      st=1787544000 rb=24028 rp=75 tb=25282 tp=86 op=0
      st=1787547600 rb=100 rp=1 tb=50 tp=1 op=0
  ident=[{type=1, ratType=COMBINED, wifiNetworkKey="AndroidWifi"open, metered=false, defaultNetwork=true, oemManaged=OEM_NONE, subId=-1}] uid=10166 set=DEFAULT tag=0xfffffff1
    NetworkStatsHistory: bucketDuration=3600
      st=1787544000 rb=500 rp=5 tb=200 tp=2 op=0
  ident=[{type=0, ratType=3, subscriberId=310260..., metered=true, defaultNetwork=true, oemManaged=OEM_NONE, subId=1}] uid=10166 set=DEFAULT tag=0xfffffff1
    NetworkStatsHistory: bucketDuration=3600
      st=1787544000 rb=80 rp=2 tb=20 tp=1 op=0
"#;

#[test]
fn protocols_parse_package_list() {
    let packages = parse_package_uids(PACKAGES_SAMPLE);
    assert_eq!(packages.get(&10166), Some(&vec!["com.google.android.youtube".to_string()]));
    assert_eq!(packages.get(&1000).map(|names| names.len()), Some(2));
    assert!(packages.get(&1000).unwrap().contains(&"com.android.server.telecom".to_string()));
}

#[test]
fn parse_tcp_udp_tags_from_sysdump() {
    let (tcp, udp) = parse_protocol_bytes(SYS_DUMP_SAMPLE);
    assert_eq!(tcp, 24_028 + 25_282 + 100 + 50);
    assert_eq!(udp, 500 + 200 + 80 + 20);
}

#[test]
fn ignore_combined_tag_zero() {
    let dump = r#"
  ident=[{type=1}] uid=10144 set=FOREGROUND tag=0x0
    NetworkStatsHistory: bucketDuration=3600
      st=1 rb=999999 rp=1 tb=999999 tp=1 op=0
"#;
    let (tcp, udp) = parse_protocol_bytes(dump);
    assert_eq!(tcp, 0);
    assert_eq!(udp, 0);
}

#[test]
fn skip_set_all_for_app_uids() {
    let dump = r#"
  ident=[{type=1}] uid=10144 set=ALL tag=0xfffffff2
    NetworkStatsHistory: bucketDuration=3600
      st=1 rb=1000 rp=1 tb=1000 tp=1 op=0
  ident=[{type=1}] uid=10144 set=FOREGROUND tag=0xfffffff2
    NetworkStatsHistory: bucketDuration=3600
      st=1 rb=40 rp=1 tb=10 tp=1 op=0
"#;
    let (tcp, udp) = parse_protocol_bytes(dump);
    assert_eq!(tcp, 50);
    assert_eq!(udp, 0);
}

#[test]
fn tags_and_counting_rules() {
    assert_eq!(parse_tag("0xfffffff2"), Some(0xffff_fff2));
    assert_eq!(parse_tag("0X1f"), Some(31));
    assert_eq!(parse_tag("12"), None);
    assert_eq!(parse_tag("0x1_0000_0000"), None);
    assert!(should_count(-1, "all", Some(0xffff_fff1)));
    assert!(!should_count(5, "All", Some(0xffff_fff1)));
    assert!(should_count(5, "DEFAULT", Some(0xffff_fff2)));
    assert!(!should_count(5, "DEFAULT", Some(0)));
    assert!(!should_count(5, "DEFAULT", None));
}

#[test]
fn device_wide_all_set_counts() {
    let dump = "ident=[{}] uid=-1 set=ALL tag=0xfffffff1\n rb=7 x tb=3\n";
    assert_eq!(parse_protocol_bytes(dump), (0, 10));
}

// ---------------------------------------------------------------------------
// stats
// ---------------------------------------------------------------------------

#[test]
fn stats_backoff_caps_at_five_seconds() {
    assert_eq!(stats_backoff(Interval::from_secs(2)), Interval::from_secs(3));
    assert_eq!(stats_backoff(Interval::from_secs(4)), Interval::from_secs(5));
    assert_eq!(stats_backoff(Interval::from_secs(5)), Interval::from_secs(5));
}

#[test]
fn parse_meminfo_sample() {
    let sample = r#"MemTotal:        8025332 kB
MemFree:          123456 kB
MemAvailable:    3456789 kB
Buffers:          111111 kB
Cached:           222222 kB
"#;

    let memory = parse_meminfo(sample).unwrap();
    assert_eq!(memory.total_kb, 8_025_332);
    assert_eq!(memory.free_kb, 123_456);
    assert_eq!(memory.available_kb, 3_456_789);
    assert_eq!(memory.buffers_kb, 111_111);
    assert_eq!(memory.cached_kb, 222_222);
    assert_eq!(memory.used_kb(), 8_025_332 - 3_456_789);
}

#[test]
fn meminfo_errors() {
    assert_eq!(
        parse_meminfo("MemFree: 1 kB\n"),
        Err(AdbError::ParseFailed("missing MemTotal".to_string()))
    );
    assert_eq!(
        parse_meminfo("MemTotal: abc kB\n"),
        Err(AdbError::ParseFailed("invalid meminfo kB value:  abc kB".to_string()))
    );
    assert_eq!(
        parse_meminfo("MemTotal:   \n"),
        Err(AdbError::ParseFailed("invalid meminfo value:    ".to_string()))
    );
    let m = MemoryStats { total_kb: 1, free_kb: 0, available_kb: 5, buffers_kb: 0, cached_kb: 0 };
    assert_eq!(m.used_kb(), 0);
}

// ---------------------------------------------------------------------------
// storage breakdown
// ---------------------------------------------------------------------------

#[test]
fn parse_user_storage_df_sample() {
    let sample = r#"Filesystem     1K-blocks    Used Available Use% Mounted on
/dev/fuse        6082144 5324108    615824  90% /storage/emulated
"#;

    let overview = parse_user_storage_df(sample).unwrap();
    assert_eq!(overview.total_bytes, 6_082_144 * 1024);
    assert_eq!(overview.used_bytes, 5_324_108 * 1024);
    assert_eq!(overview.available_bytes, 615_824 * 1024);
    assert_eq!(overview.use_percent, 90);
}

#[test]
fn df_errors_and_missing_line() {
    assert_eq!(
        parse_user_storage_df("header\n"),
        Err(AdbError::ParseFailed("missing user storage df line".to_string()))
    );
    assert_eq!(
        parse_user_storage_df("h\n/dev x 1 2 3% /s\n"),
        Err(AdbError::ParseFailed("invalid df size: x".to_string()))
    );
    let o = parse_user_storage_df("h\n/dev 1 2 3 n/a /s\n").unwrap();
    assert_eq!(o.use_percent, 0);
}

#[test]
fn parse_du_bytes_sample() {
    let sample = r#"7222	/storage/emulated/0/Download
83987	/storage/emulated/0/Pictures
"#;

    let sizes = parse_du_bytes(sample);
    assert_eq!(sizes.get("/storage/emulated/0/Download"), Some(&7222));
    assert_eq!(sizes.get("/storage/emulated/0/Pictures"), Some(&83987));
}

#[test]
fn aggregate_categories_groups_folders() {
    let mut sizes = TextMap::new();
    sizes.insert(folder_path("DCIM"), 1000);
    sizes.insert(folder_path("Pictures"), 2000);
    sizes.insert(folder_path("Movies"), 500);
    sizes.insert(folder_path("Documents"), 800);
    sizes.insert(folder_path("Download"), 400);
    sizes.insert(folder_path("Music"), 300);
    sizes.insert(folder_path("Android"), 600);

    assert!(category_sums_fit(&sizes));
    let categories = aggregate_categories(&sizes);
    assert_eq!(categories.len(), 5);
    assert_eq!(categories[0].name, "Photos & videos");
    assert_eq!(categories[0].bytes, 3500);
    assert_eq!(categories[1].name, "Documents");
    assert_eq!(categories[1].bytes, 800);
    assert_eq!(categories[2].name, "Downloads");
    assert_eq!(categories[2].bytes, 400);
    assert_eq!(categories[3].name, "Audio");
    assert_eq!(categories[3].bytes, 300);
    assert_eq!(categories[4].name, "Other");
    assert_eq!(categories[4].bytes, 600);
}

#[test]
fn category_sums_overflow_is_detected() {
    let mut sizes = TextMap::new();
    sizes.insert(folder_path("DCIM"), u64::MAX);
    sizes.insert(folder_path("Movies"), 1);
    assert!(!category_sums_fit(&sizes));
}

#[test]
fn long_message_pieces_rejoin_without_splitting_characters() {
    let long = "é".repeat(100);
    let line = format!("03-15 10:23:45.123  1 2 W T: {long}");
    let pieces = parse_logcat_entries(&line);
    assert_eq!(pieces.len(), 2);
    assert_eq!(pieces[0].message.len(), 120);
    assert_eq!(pieces[1].message.len(), 80);
    let joined: String = pieces.iter().map(|p| p.message.as_str()).collect();
    assert_eq!(joined, long);
}

#[test]
fn parsed_canonical_line_formats_back() {
    let line = "03-15 10:23:45.123  1234  5678 I MyTag: Hello world";
    let entry = parse_logcat_line(line).unwrap();
    assert_eq!(entry.format_line(), line);
    let wide = "03-15 10:23:45.123 123456     7 E : trailing:colon ok";
    assert_eq!(parse_logcat_line(wide).unwrap().format_line(), wide);
}

#[test]
fn spawn_failure_entry_is_an_adb_diagnostic() {
    let entry = spawn_failure_entry(&AdbError::NotFound);
    assert_eq!(entry.pid, 0);
    assert_eq!(entry.tid, 0);
    assert_eq!(entry.level, 'E');
    assert_eq!(entry.tag, "adb");
    assert_eq!(entry.timestamp, "");
    assert!(entry.message.starts_with("logcat error: "));
}

#[test]
fn empty_package_batch_runs_nothing() {
    let failed = Err(IoFailure { not_found: true, message: "not found".to_string() });
    let result = fetch_package_storage_batch("serial-1", &[], failed);
    assert!(matches!(result, Some(Ok(ref v)) if v.is_empty()));
    let ran = Ok(ok_output(b"@PKG@a\n"));
    let result = fetch_package_storage_batch("serial-1", &[], ran);
    assert!(matches!(result, Some(Ok(ref v)) if v.is_empty()));
}

#[test]
fn backoff_caps_near_the_top_of_the_range() {
    let step = Interval { millis: 1_000 };
    let max = Interval { millis: 5_000 };
    assert_eq!(backoff_interval(Interval { millis: u64::MAX - 1 }, step, max), max);
    assert_eq!(backoff_interval(Interval { millis: 3_000 }, step, max), Interval { millis: 4_000 });
    assert_eq!(
        android_terminal::network::next_backoff_interval(Interval { millis: u64::MAX }),
        Interval::from_secs(5)
    );
}
