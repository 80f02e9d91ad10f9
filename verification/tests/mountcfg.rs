use rind::config::InitConfig;
use rind::mount::{
    parse_flags, Mount, FLAG_BIND, FLAG_NODEV, FLAG_NOEXEC, FLAG_NOSUID, FLAG_RDONLY, FLAG_RELATIME,
};

fn toks(list: &[&str]) -> Vec<String> {
    list.iter().map(|s| s.to_string()).collect()
}

#[test]
fn known_flag_tokens_resolve_to_os_bits() {
    assert_eq!(parse_flags(&toks(&[])), Ok(0));
    assert_eq!(parse_flags(&toks(&["MS_RDONLY"])), Ok(FLAG_RDONLY));
    assert_eq!(
        parse_flags(&toks(&["MS_NOSUID", "MS_NODEV", "MS_NOEXEC"])),
        Ok(FLAG_NOSUID | FLAG_NODEV | FLAG_NOEXEC)
    );
    assert_eq!(parse_flags(&toks(&["MS_RDONLY", "MS_RDONLY"])), Ok(FLAG_RDONLY));
    // The resolved bits are the Linux MS_* values.
    assert_eq!(parse_flags(&toks(&["MS_RDONLY"])), Ok(0x1));
    assert_eq!(parse_flags(&toks(&["MS_BIND", "MS_REC"])), Ok(0x1000 | 0x4000));
    assert_eq!(parse_flags(&toks(&["MS_RELATIME"])), Ok(0x200000));
    assert_eq!(parse_flags(&toks(&["MS_STRICTATIME", "MS_LAZYTIME"])), Ok(0x1000000 | 0x2000000));
    assert_eq!(
        parse_flags(&toks(&["MS_PRIVATE", "MS_SHARED", "MS_SLAVE"])),
        Ok(0x40000 | 0x100000 | 0x80000)
    );
}

#[test]
fn unknown_flag_token_fails_parsing() {
    let r = parse_flags(&toks(&["MS_RDONLY", "MS_BOGUS", "MS_NODEV"]));
    assert_eq!(r, Err("unknown mount flag: MS_BOGUS".to_string()));
    // Matching is exact: case and spelling count.
    assert!(parse_flags(&toks(&["ms_rdonly"])).is_err());
    assert!(parse_flags(&toks(&["MS_RDONLY "])).is_err());
}

#[test]
fn bad_descriptor_never_becomes_a_mount() {
    let r = Mount::from_descriptor(
        None,
        "/proc".to_string(),
        Some("proc".to_string()),
        &toks(&["MS_NOT_A_FLAG"]),
        None,
        None,
    );
    assert!(r.is_err());
}

#[test]
fn good_descriptor_keeps_fields_and_resolved_flags() {
    let m = Mount::from_descriptor(
        Some("tmpfs".to_string()),
        "/tmp".to_string(),
        Some("tmpfs".to_string()),
        &toks(&["MS_NOSUID", "MS_NODEV", "MS_RELATIME"]),
        Some("size=64m".to_string()),
        Some(true),
    )
    .expect("descriptor parses");
    assert_eq!(m.source, Some("tmpfs".to_string()));
    assert_eq!(m.target, "/tmp");
    assert_eq!(m.fstype, Some("tmpfs".to_string()));
    assert_eq!(m.flags, FLAG_NOSUID | FLAG_NODEV | FLAG_RELATIME);
    assert_eq!(m.data, Some("size=64m".to_string()));
    assert_eq!(m.create, Some(true));
}

#[test]
fn default_config_points_at_the_builtin_paths() {
    let c = InitConfig::default();
    assert_eq!(c.services.path, "/etc/services");
    assert_eq!(c.shell.executable, "/bin/sh");
    assert_eq!(c.shell.tty, "tty1");
}
