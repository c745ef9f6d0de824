use cmdline::flags::MountFlags;
use cmdline::nfsroot::{find_boot_server, parse_nfsroot, wants_nfs_root, wants_record};
use cmdline::options::{c_string, ensure_value, parse_option, CmdlineError, CmdlineOptions};
use cmdline::parser::{apply_options, parse_cmdline};
use cmdline::tokenizer::{tokenize, OptionPair};
use cmdline::text::{chars_of, find_char, push_chars, string_of};
use nix::mount::MsFlags;

fn no_record() -> Result<String, String> {
    Ok(String::new())
}

fn sbin_init() -> Vec<u8> {
    b"/sbin/init\0".to_vec()
}

fn pair(key: &str, value: Option<&str>) -> OptionPair {
    OptionPair { key: key.to_string(), value: value.map(|v| v.to_string()) }
}

#[test]
fn test_regular() {
    let cmdline = String::from("root=/dev/mmcblk0p1 rw\n");
    let mut options = CmdlineOptions { ..Default::default() };

    parse_cmdline(cmdline, &mut options, no_record()).expect("failed");
    assert_eq!(options.root.as_deref(), Some("/dev/mmcblk0p1"));
    assert!(options.rootfstype.is_none());
    assert!(options.rootflags.is_none());
    assert_eq!(options.rootfsflags.bits, MsFlags::empty().bits());
    assert!(options.nfsroot.is_none());
    assert_eq!(options.init, sbin_init());
}

#[test]
fn test_nfs() {
    let cmdline = String::from("root=/dev/nfs nfsroot=192.168.42.23:/path/to/nfsroot,v3,tcp ip=dhcp console=ttymxc1,115200n8 rootwait ro\n");
    let mut options = CmdlineOptions { ..Default::default() };

    parse_cmdline(cmdline, &mut options, no_record()).expect("failed");
    assert_eq!(options.root.as_deref(), Some("192.168.42.23:/path/to/nfsroot"));
    assert_eq!(options.rootfstype.as_deref(), Some("nfs"));
    assert_eq!(options.rootflags.as_deref(), Some("nolock,v3,tcp,addr=192.168.42.23"));
    assert_eq!(options.rootfsflags.bits, MsFlags::MS_RDONLY.bits());
    assert_eq!(options.nfsroot.as_deref(), Some("192.168.42.23:/path/to/nfsroot,v3,tcp"));
    assert_eq!(options.init, sbin_init());
}

#[test]
fn test_9p_qemu() {
    let cmdline = String::from(
        "root=/dev/root rootfstype=9p rootflags=trans=virtio console=ttyAMA0,115200\n",
    );
    let mut options = CmdlineOptions { ..Default::default() };

    parse_cmdline(cmdline, &mut options, no_record()).expect("failed");
    assert_eq!(options.root.as_deref(), Some("/dev/root"));
    assert_eq!(options.rootfstype.as_deref(), Some("9p"));
    assert_eq!(options.rootflags.as_deref(), Some("trans=virtio"));
    assert_eq!(options.rootfsflags.bits, MsFlags::MS_RDONLY.bits());
    assert!(options.nfsroot.is_none());
    assert_eq!(options.init, sbin_init());
}

#[test]
fn test_9p_usbg() {
    let cmdline = String::from("root=rootdev rootfstype=9p rootflags=trans=usbg,cache=loose,uname=root,dfltuid=0,dfltgid=0,aname=/path/to/9pfsroot rw\n");
    let mut options = CmdlineOptions { ..Default::default() };

    parse_cmdline(cmdline, &mut options, no_record()).expect("failed");
    assert_eq!(options.root.as_deref(), Some("rootdev"));
    assert_eq!(options.rootfstype.as_deref(), Some("9p"));
    assert_eq!(
        options.rootflags.as_deref(),
        Some("trans=usbg,cache=loose,uname=root,dfltuid=0,dfltgid=0,aname=/path/to/9pfsroot")
    );
    assert_eq!(options.rootfsflags.bits, MsFlags::empty().bits());
    assert!(options.nfsroot.is_none());
    assert_eq!(options.init, sbin_init());
}

#[test]
fn test_init() {
    let cmdline = String::from("root=/dev/mmcblk0p1 init=/bin/sh\n");
    let mut options = CmdlineOptions { ..Default::default() };

    parse_cmdline(cmdline, &mut options, no_record()).expect("failed");
    assert_eq!(options.root.as_deref(), Some("/dev/mmcblk0p1"));
    assert!(options.rootfstype.is_none());
    assert!(options.rootflags.is_none());
    assert_eq!(options.rootfsflags.bits, MsFlags::MS_RDONLY.bits());
    assert!(options.nfsroot.is_none());
    assert_eq!(options.init, b"/bin/sh\0".to_vec());
}

#[test]
fn default_options_are_read_only_with_sbin_init() {
    let options = CmdlineOptions::default();
    assert_eq!(options.root, None);
    assert_eq!(options.rootfstype, None);
    assert_eq!(options.rootflags, None);
    assert_eq!(options.nfsroot, None);
    assert_eq!(options.rootfsflags, MountFlags { bits: MsFlags::MS_RDONLY.bits() });
    assert_eq!(options.init, sbin_init());
}

#[test]
fn mount_flags_follow_nix() {
    assert_eq!(MountFlags::rdonly().bits, MsFlags::MS_RDONLY.bits());
    assert_eq!(MountFlags::rdonly().bits, 1);
    let mut flags = MountFlags { bits: 0 };
    flags.insert(MountFlags::rdonly());
    assert_eq!(flags.bits, 1);
    let mut flags = MountFlags { bits: 0b1010 };
    flags.insert(MountFlags { bits: 0b0110 });
    assert_eq!(flags.bits, 0b1110);
    flags.remove(MountFlags { bits: 0b0100 });
    assert_eq!(flags.bits, 0b1010);
    let mut flags = MountFlags { bits: 1 };
    flags.remove(MountFlags::rdonly());
    assert_eq!(flags.bits, 0);
}

#[test]
fn ensure_value_keeps_a_value_and_names_the_key() {
    assert_eq!(
        ensure_value("root".to_string(), Some("/dev/sda".to_string())),
        Ok(Some("/dev/sda".to_string()))
    );
    assert_eq!(
        ensure_value("root".to_string(), Some(String::new())),
        Ok(Some(String::new()))
    );
    assert_eq!(
        ensure_value("root".to_string(), None),
        Err(CmdlineError::MissingArgument("root".to_string()))
    );
}

#[test]
fn c_string_appends_one_nul() {
    assert_eq!(c_string("/bin/sh"), Some(b"/bin/sh\0".to_vec()));
    assert_eq!(c_string(""), Some(vec![0u8]));
    assert_eq!(c_string("\u{e9}"), Some(vec![0xc3, 0xa9, 0]));
    assert_eq!(c_string("a\0b"), None);
}

#[test]
fn tokenize_plain_options() {
    assert_eq!(
        tokenize("root=/dev/sda quiet rw\n"),
        vec![pair("root", Some("/dev/sda")), pair("quiet", None), pair("rw", None)]
    );
}

#[test]
fn tokenize_flushes_the_last_option_at_the_end() {
    assert_eq!(tokenize("ro"), vec![pair("ro", None)]);
    assert_eq!(tokenize("a=1 b=2"), vec![pair("a", Some("1")), pair("b", Some("2"))]);
}

#[test]
fn tokenize_empty_value_and_empty_key() {
    assert_eq!(tokenize("root= x"), vec![pair("root", Some("")), pair("x", None)]);
    assert_eq!(tokenize("=orphan x"), vec![pair("x", None)]);
    assert_eq!(tokenize(""), Vec::<OptionPair>::new());
    assert_eq!(tokenize("  \n \n"), Vec::<OptionPair>::new());
}

#[test]
fn tokenize_only_the_first_equals_separates() {
    assert_eq!(
        tokenize("rootflags=trans=virtio,a=b\n"),
        vec![pair("rootflags", Some("trans=virtio,a=b"))]
    );
}

#[test]
fn tokenize_quoted_value_with_space_is_one_option() {
    assert_eq!(
        tokenize("rootflags=\"trans=usbg, opt=1\" rw\n"),
        vec![pair("rootflags", Some("trans=usbg, opt=1")), pair("rw", None)]
    );
    assert_eq!(tokenize("a=\"x\ny\"\n"), vec![pair("a", Some("x\ny"))]);
    assert_eq!(tokenize("\"my key\"=v"), vec![pair("my key", Some("v"))]);
}

#[test]
fn tokenize_drops_quotes_wherever_they_stand() {
    assert_eq!(tokenize("ro\"ot\"=a\"b\"c"), vec![pair("root", Some("abc"))]);
    assert_eq!(tokenize("\"a=b\""), vec![pair("a", Some("b"))]);
}

#[test]
fn tokenize_unterminated_quote_runs_to_the_end() {
    assert_eq!(tokenize("a=\"b c\nd"), vec![pair("a", Some("b c\nd"))]);
}

#[test]
fn tokenize_other_whitespace_is_no_separator() {
    assert_eq!(tokenize("a\tb=c\rd"), vec![pair("a\tb", Some("c\rd"))]);
}

#[test]
fn parse_option_sets_each_field() {
    let mut options = CmdlineOptions::default();
    assert_eq!(parse_option("root".into(), Some("/dev/sda1".into()), &mut options), Ok(()));
    assert_eq!(parse_option("rootfstype".into(), Some("ext4".into()), &mut options), Ok(()));
    assert_eq!(parse_option("rootflags".into(), Some("noatime".into()), &mut options), Ok(()));
    assert_eq!(parse_option("nfsroot".into(), Some("h:/p,v3".into()), &mut options), Ok(()));
    assert_eq!(parse_option("init".into(), Some("/bin/bash".into()), &mut options), Ok(()));
    assert_eq!(parse_option("rw".into(), None, &mut options), Ok(()));
    assert_eq!(
        options,
        CmdlineOptions {
            root: Some("/dev/sda1".into()),
            rootfstype: Some("ext4".into()),
            rootflags: Some("noatime".into()),
            rootfsflags: MountFlags { bits: 0 },
            nfsroot: Some("h:/p,v3".into()),
            init: b"/bin/bash\0".to_vec(),
        }
    );
}

#[test]
fn parse_option_ignores_unknown_keys() {
    let mut options = CmdlineOptions::default();
    assert_eq!(parse_option("console".into(), Some("ttyS0".into()), &mut options), Ok(()));
    assert_eq!(parse_option("quiet".into(), None, &mut options), Ok(()));
    assert_eq!(parse_option("roo".into(), Some("x".into()), &mut options), Ok(()));
    assert_eq!(parse_option("rootfs".into(), Some("x".into()), &mut options), Ok(()));
    assert_eq!(options, CmdlineOptions::default());
}

#[test]
fn parse_option_flag_keys_ignore_a_value() {
    let mut options = CmdlineOptions::default();
    assert_eq!(parse_option("rw".into(), Some("1".into()), &mut options), Ok(()));
    assert_eq!(options.rootfsflags.bits, 0);
    assert_eq!(parse_option("ro".into(), Some("".into()), &mut options), Ok(()));
    assert_eq!(options.rootfsflags.bits, 1);
}

#[test]
fn missing_argument_for_each_key_that_needs_one() {
    for key in ["root", "rootfstype", "rootflags", "nfsroot", "init"] {
        let mut options = CmdlineOptions::default();
        assert_eq!(
            parse_option(key.to_string(), None, &mut options),
            Err(CmdlineError::MissingArgument(key.to_string()))
        );
        assert_eq!(options, CmdlineOptions::default());
    }
}

#[test]
fn init_with_nul_is_invalid() {
    let mut options = CmdlineOptions::default();
    let r = parse_cmdline("root=/dev/sda init=/bin\0/sh\n".into(), &mut options, no_record());
    assert_eq!(
        r,
        Err(CmdlineError::InvalidValue("init".into(), "value contains a NUL byte".into()))
    );
    assert_eq!(options.root.as_deref(), Some("/dev/sda"));
    assert_eq!(options.init, sbin_init());
}

#[test]
fn empty_init_value_is_an_empty_path() {
    let mut options = CmdlineOptions::default();
    parse_cmdline("init=\n".into(), &mut options, no_record()).expect("failed");
    assert_eq!(options.init, vec![0u8]);
}

#[test]
fn ro_then_rw_clears_and_rw_then_ro_sets() {
    let mut options = CmdlineOptions::default();
    parse_cmdline("ro rw\n".into(), &mut options, no_record()).expect("failed");
    assert_eq!(options.rootfsflags.bits & MsFlags::MS_RDONLY.bits(), 0);
    let mut options = CmdlineOptions::default();
    parse_cmdline("rw ro\n".into(), &mut options, no_record()).expect("failed");
    assert_eq!(options.rootfsflags.bits & MsFlags::MS_RDONLY.bits(), MsFlags::MS_RDONLY.bits());
    let mut options = CmdlineOptions::default();
    parse_cmdline("rw ro quiet rw".into(), &mut options, no_record()).expect("failed");
    assert_eq!(options.rootfsflags.bits, 0);
}

#[test]
fn ro_and_rw_leave_other_bits() {
    let mut options = CmdlineOptions::default();
    options.rootfsflags = MountFlags { bits: 0b1000 };
    parse_cmdline("ro\n".into(), &mut options, no_record()).expect("failed");
    assert_eq!(options.rootfsflags.bits, 0b1001);
    parse_cmdline("rw\n".into(), &mut options, no_record()).expect("failed");
    assert_eq!(options.rootfsflags.bits, 0b1000);
}

#[test]
fn last_occurrence_of_a_key_wins() {
    let mut options = CmdlineOptions::default();
    parse_cmdline(
        "root=/dev/a init=/a rootfstype=x root=/dev/b init=/b\n".into(),
        &mut options,
        no_record(),
    )
    .expect("failed");
    assert_eq!(options.root.as_deref(), Some("/dev/b"));
    assert_eq!(options.rootfstype.as_deref(), Some("x"));
    assert_eq!(options.init, b"/b\0".to_vec());
}

#[test]
fn order_of_different_keys_does_not_matter() {
    let mut first = CmdlineOptions::default();
    parse_cmdline("root=/dev/a rootfstype=ext4 rw\n".into(), &mut first, no_record())
        .expect("failed");
    let mut second = CmdlineOptions::default();
    parse_cmdline("rw rootfstype=ext4 root=/dev/a\n".into(), &mut second, no_record())
        .expect("failed");
    assert_eq!(first, second);
}

#[test]
fn an_error_keeps_what_was_applied_before_it() {
    let mut options = CmdlineOptions::default();
    let r = parse_cmdline("rw root=/dev/a rootfstype root=/dev/b\n".into(), &mut options, no_record());
    assert_eq!(r, Err(CmdlineError::MissingArgument("rootfstype".into())));
    assert_eq!(options.root.as_deref(), Some("/dev/a"));
    assert_eq!(options.rootfsflags.bits, 0);
    assert_eq!(options.rootfstype, None);
}

#[test]
fn apply_options_in_order() {
    let mut options = CmdlineOptions::default();
    let pairs = vec![pair("root", Some("a")), pair("x", None), pair("root", Some("b"))];
    assert_eq!(apply_options(pairs, &mut options), Ok(()));
    assert_eq!(options.root.as_deref(), Some("b"));
    let pairs = vec![pair("root", Some("c")), pair("nfsroot", None), pair("root", Some("d"))];
    assert_eq!(
        apply_options(pairs, &mut options),
        Err(CmdlineError::MissingArgument("nfsroot".into()))
    );
    assert_eq!(options.root.as_deref(), Some("c"));
}

#[test]
fn quoted_rootflags_reach_the_options() {
    let mut options = CmdlineOptions::default();
    parse_cmdline(
        "rootflags=\"trans=usbg, opt=1\" root=rootdev\n".into(),
        &mut options,
        no_record(),
    )
    .expect("failed");
    assert_eq!(options.rootflags.as_deref(), Some("trans=usbg, opt=1"));
    assert_eq!(options.root.as_deref(), Some("rootdev"));
}

#[test]
fn embedded_equals_in_rootflags() {
    let mut options = CmdlineOptions::default();
    parse_cmdline(
        "root=rootdev rootfstype=9p rootflags=trans=virtio\n".into(),
        &mut options,
        no_record(),
    )
    .expect("failed");
    assert_eq!(options.rootflags.as_deref(), Some("trans=virtio"));
}

#[test]
fn nfs_by_rootfstype() {
    let mut options = CmdlineOptions::default();
    parse_cmdline(
        "rootfstype=nfs nfsroot=10.0.0.1:/srv/root\n".into(),
        &mut options,
        Err("not read".into()),
    )
    .expect("failed");
    assert_eq!(options.root.as_deref(), Some("10.0.0.1:/srv/root"));
    assert_eq!(options.rootflags.as_deref(), Some("nolock,addr=10.0.0.1"));
    assert_eq!(options.rootfstype.as_deref(), Some("nfs"));
    assert_eq!(options.nfsroot.as_deref(), Some("10.0.0.1:/srv/root"));
}

#[test]
fn nfs_host_from_the_record() {
    let mut options = CmdlineOptions::default();
    let record = "#PROTO: DHCP\nnameserver0 10.0.0.2\nbootserver 10.0.0.9\nbootserver 10.0.0.10\n";
    parse_cmdline(
        "root=/dev/nfs nfsroot=/srv/root,v3 rw\n".into(),
        &mut options,
        Ok(record.into()),
    )
    .expect("failed");
    assert_eq!(options.root.as_deref(), Some("10.0.0.9:/srv/root"));
    assert_eq!(options.rootflags.as_deref(), Some("nolock,v3,addr=10.0.0.9"));
    assert_eq!(options.rootfstype.as_deref(), Some("nfs"));
    assert_eq!(options.rootfsflags.bits, 0);
}

#[test]
fn nfs_without_host_and_without_bootserver_line() {
    let mut options = CmdlineOptions::default();
    parse_cmdline(
        "root=/dev/nfs nfsroot=/srv/root,tcp\n".into(),
        &mut options,
        Ok("nameserver0 10.0.0.2\nbootserverx 1.2.3.4\nbootserver\n".into()),
    )
    .expect("failed");
    assert_eq!(options.root.as_deref(), Some("/srv/root"));
    assert_eq!(options.rootflags.as_deref(), Some("nolock,tcp,addr="));
    assert_eq!(options.rootfstype.as_deref(), Some("nfs"));
    let mut options = CmdlineOptions::default();
    parse_cmdline("root=/dev/nfs nfsroot=/srv/root\n".into(), &mut options, no_record())
        .expect("failed");
    assert_eq!(options.rootflags.as_deref(), Some("nolock,addr="));
    assert_eq!(options.rootfsflags.bits, 1);
}

#[test]
fn nfs_colon_after_the_comma_names_no_host() {
    let mut options = CmdlineOptions::default();
    options.nfsroot = Some("/srv/root,addr=1:2".into());
    assert!(wants_record(&options));
    assert_eq!(parse_nfsroot(&mut options, Ok("bootserver h\n".into())), Ok(()));
    assert_eq!(options.root.as_deref(), Some("h:/srv/root"));
    assert_eq!(options.rootflags.as_deref(), Some("nolock,addr=1:2,addr=h"));
}

#[test]
fn nfs_missing_nfsroot() {
    let mut options = CmdlineOptions::default();
    let r = parse_cmdline("root=/dev/nfs rw\n".into(), &mut options, no_record());
    assert_eq!(r, Err(CmdlineError::MissingNfsRoot));
    assert_eq!(options.root.as_deref(), Some("/dev/nfs"));
    assert_eq!(options.rootfstype, None);
    assert_eq!(options.rootflags, None);
}

#[test]
fn nfs_record_unavailable() {
    let mut options = CmdlineOptions::default();
    let r = parse_cmdline(
        "root=/dev/nfs nfsroot=/srv/root\n".into(),
        &mut options,
        Err("No such file or directory".into()),
    );
    assert_eq!(
        r,
        Err(CmdlineError::ResourceUnavailable(
            "/proc/net/pnp".into(),
            "No such file or directory".into()
        ))
    );
    assert_eq!(options.root.as_deref(), Some("/dev/nfs"));
    assert_eq!(options.rootflags, None);
}

#[test]
fn wants_nfs_root_by_root_or_type() {
    let mut options = CmdlineOptions::default();
    assert!(!wants_nfs_root(&options));
    options.root = Some("/dev/nfs".into());
    assert!(wants_nfs_root(&options));
    options.root = Some("/dev/nfs0".into());
    assert!(!wants_nfs_root(&options));
    options.rootfstype = Some("nfs".into());
    assert!(wants_nfs_root(&options));
    options.rootfstype = Some("nfs4".into());
    assert!(!wants_nfs_root(&options));
}

#[test]
fn wants_record_only_without_a_host() {
    let mut options = CmdlineOptions::default();
    assert!(!wants_record(&options));
    options.nfsroot = Some("/srv/root,v3".into());
    assert!(wants_record(&options));
    options.nfsroot = Some("host:/srv/root,v3".into());
    assert!(!wants_record(&options));
    options.nfsroot = Some(":/srv/root".into());
    assert!(!wants_record(&options));
}

#[test]
fn nfs_empty_host_before_the_colon() {
    let mut options = CmdlineOptions::default();
    options.nfsroot = Some(":/srv/root".into());
    assert_eq!(parse_nfsroot(&mut options, Err("unused".into())), Ok(()));
    assert_eq!(options.root.as_deref(), Some(":/srv/root"));
    assert_eq!(options.rootflags.as_deref(), Some("nolock,addr="));
}

#[test]
fn boot_server_is_the_first_matching_line() {
    assert_eq!(find_boot_server(""), None);
    assert_eq!(find_boot_server("bootserver 1.2.3.4"), Some("1.2.3.4".to_string()));
    assert_eq!(find_boot_server("bootserver 1.2.3.4\n"), Some("1.2.3.4".to_string()));
    assert_eq!(find_boot_server("a b\n\nbootserver x y\nbootserver z\n"), Some("x y".to_string()));
    assert_eq!(find_boot_server("bootserver\nbootserver \n"), Some(String::new()));
    assert_eq!(find_boot_server("bootserver\n bootserver 1\nBootserver 2\n"), None);
}

#[test]
fn boot_server_line_may_end_in_carriage_return_and_line_feed() {
    assert_eq!(find_boot_server("a b\r\nbootserver 1.2.3.4\r\n"), Some("1.2.3.4".to_string()));
    assert_eq!(find_boot_server("bootserver 1.2.3.4\r"), Some("1.2.3.4\r".to_string()));
}

#[test]
fn error_messages_name_the_key_or_the_resource() {
    assert_eq!(
        CmdlineError::MissingArgument("root".into()).message(),
        "Cmdline option 'root' must have an argument!"
    );
    assert_eq!(
        CmdlineError::InvalidValue("init".into(), "value contains a NUL byte".into()).message(),
        "Cmdline option 'init' is invalid: value contains a NUL byte"
    );
    assert_eq!(CmdlineError::MissingNfsRoot.message(), "Missing nfsroot command-line option!");
    assert_eq!(
        CmdlineError::ResourceUnavailable("/proc/net/pnp".into(), "denied".into()).message(),
        "Failed to read /proc/net/pnp: denied"
    );
}

#[test]
fn a_separator_outside_quotes_splits_the_line() {
    let a = "root=/dev/a x=\"1 2\"";
    let b = "rw init=/bin/sh";
    for sep in [" ", "\n"] {
        let mut both = tokenize(a);
        both.extend(tokenize(b));
        assert_eq!(tokenize(&format!("{a}{sep}{b}")), both);
    }
    assert_eq!(tokenize("a=\"1 b=2"), vec![pair("a", Some("1 b=2"))]);
}

#[test]
fn swapping_neighbours_with_different_keys() {
    let mut first = CmdlineOptions::default();
    parse_cmdline("quiet init=/a root=/dev/b rw\n".into(), &mut first, no_record())
        .expect("failed");
    let mut second = CmdlineOptions::default();
    parse_cmdline("quiet root=/dev/b init=/a rw\n".into(), &mut second, no_record())
        .expect("failed");
    assert_eq!(first, second);
    assert_eq!(first.init, b"/a\0".to_vec());
}

#[test]
fn text_helpers() {
    let v = chars_of("a,b:c");
    assert_eq!(v, vec!['a', ',', 'b', ':', 'c']);
    assert_eq!(find_char(&v, 0, 5, ','), 1);
    assert_eq!(find_char(&v, 2, 5, ','), 5);
    assert_eq!(find_char(&v, 0, 3, ':'), 3);
    assert_eq!(find_char(&v, 2, 2, 'b'), 2);
    assert_eq!(string_of(&v, 2, 5), "b:c");
    assert_eq!(string_of(&v, 3, 3), "");
    let mut s = String::from("x");
    push_chars(&mut s, &v, 0, 2);
    assert_eq!(s, "xa,");
    assert_eq!(chars_of("\u{e9}\u{1F600}").len(), 2);
}
