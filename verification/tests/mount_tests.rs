use quark::defs::Error;
use quark::fs::FsImageMounter;
use quark::mounts::{
    parse_mount, str_eq, Linux, Mount, MountFrom, MountOption, Root, Spec, ValidDestination,
    MS_BIND, MS_DIRSYNC, MS_MANDLOCK, MS_NOATIME, MS_NODEV, MS_NODIRATIME, MS_NOEXEC, MS_NOSUID,
    MS_PRIVATE, MS_RDONLY, MS_REC, MS_RELATIME, MS_REMOUNT, MS_SHARED, MS_SLAVE, MS_STRICTATIME,
    MS_SYNCHRONOUS, MS_UNBINDABLE,
};
use nix::mount::MsFlags;

fn mount(dest: &str, typ: &str, source: &str, options: &[&str]) -> Mount {
    Mount {
        destination: dest.to_string(),
        typ: typ.to_string(),
        source: source.to_string(),
        options: options.iter().map(|s| s.to_string()).collect(),
    }
}

#[test]
fn mount_flag_values_match_the_system() {
    assert_eq!(MS_RDONLY, MsFlags::MS_RDONLY.bits() as u64);
    assert_eq!(MS_NOSUID, MsFlags::MS_NOSUID.bits() as u64);
    assert_eq!(MS_NODEV, MsFlags::MS_NODEV.bits() as u64);
    assert_eq!(MS_NOEXEC, MsFlags::MS_NOEXEC.bits() as u64);
    assert_eq!(MS_SYNCHRONOUS, MsFlags::MS_SYNCHRONOUS.bits() as u64);
    assert_eq!(MS_REMOUNT, MsFlags::MS_REMOUNT.bits() as u64);
    assert_eq!(MS_MANDLOCK, MsFlags::MS_MANDLOCK.bits() as u64);
    assert_eq!(MS_DIRSYNC, MsFlags::MS_DIRSYNC.bits() as u64);
    assert_eq!(MS_NOATIME, MsFlags::MS_NOATIME.bits() as u64);
    assert_eq!(MS_NODIRATIME, MsFlags::MS_NODIRATIME.bits() as u64);
    assert_eq!(MS_BIND, MsFlags::MS_BIND.bits() as u64);
    assert_eq!(MS_REC, MsFlags::MS_REC.bits() as u64);
    assert_eq!(MS_UNBINDABLE, MsFlags::MS_UNBINDABLE.bits() as u64);
    assert_eq!(MS_PRIVATE, MsFlags::MS_PRIVATE.bits() as u64);
    assert_eq!(MS_SLAVE, MsFlags::MS_SLAVE.bits() as u64);
    assert_eq!(MS_SHARED, MsFlags::MS_SHARED.bits() as u64);
    assert_eq!(MS_RELATIME, MsFlags::MS_RELATIME.bits() as u64);
    assert_eq!(MS_STRICTATIME, MsFlags::MS_STRICTATIME.bits() as u64);
    assert_eq!(MS_REC | MS_BIND, (libc::MS_REC | libc::MS_BIND) as u64);
}

#[test]
fn mount_options_set_and_clear_flags() {
    assert_eq!(MountOption("defaults"), Some((false, 0)));
    assert_eq!(MountOption("ro"), Some((false, MS_RDONLY)));
    assert_eq!(MountOption("rw"), Some((true, MS_RDONLY)));
    assert_eq!(MountOption("rbind"), Some((false, MS_BIND | MS_REC)));
    assert_eq!(MountOption("rslave"), Some((false, MS_SLAVE | MS_REC)));
    assert_eq!(MountOption("nostrictatime"), Some((true, MS_STRICTATIME)));
    assert_eq!(MountOption("mode=755"), None);
    assert_eq!(MountOption("RO"), None);
}

#[test]
fn parse_mount_splits_flags_and_data() {
    let m = mount("/dev", "tmpfs", "tmpfs", &["nosuid", "strictatime", "mode=755", "size=65536k"]);
    let (flags, data) = parse_mount(&m);
    assert_eq!(flags, MS_NOSUID | MS_STRICTATIME);
    assert_eq!(data, "mode=755,size=65536k");

    let m = mount("/a", "bind", "/b", &["ro", "rw", "nodev"]);
    assert_eq!(parse_mount(&m), (MS_NODEV, String::new()));

    let m = mount("/a", "tmpfs", "x", &[]);
    assert_eq!(parse_mount(&m), (0, String::new()));
}

#[test]
fn destinations_must_be_absolute_without_dotdot() {
    assert!(ValidDestination("/proc"));
    assert!(ValidDestination("/"));
    assert!(!ValidDestination("proc"));
    assert!(!ValidDestination(""));
    assert!(!ValidDestination("/a/../b"));
    assert!(!ValidDestination("/a..b"));
    assert!(ValidDestination("/a.b/c"));
}

#[test]
fn str_eq_compares_characters() {
    assert!(str_eq("abc", "abc"));
    assert!(!str_eq("abc", "abd"));
    assert!(!str_eq("abc", "ab"));
    assert!(str_eq("", ""));
}

#[test]
fn mount_from_labels_data_and_places_target() {
    let m = mount("/tmp", "tmpfs", "tmpfs", &[]);
    let op = MountFrom(&m, "/root", MS_NOSUID, "mode=755", "system_u");
    assert_eq!(op.source, "tmpfs");
    assert_eq!(op.target, "/root/tmp");
    assert_eq!(op.typ, "tmpfs");
    assert_eq!(op.flags, MS_NOSUID);
    assert_eq!(op.data, "mode=755,context=\"system_u\"");
    assert!(!op.bind);
    assert_eq!(op.remount, None);

    let op = MountFrom(&m, "/root", 0, "", "lbl");
    assert_eq!(op.data, "context=\"lbl\"");

    let p = mount("/proc", "proc", "proc", &[]);
    let op = MountFrom(&p, "/root", 0, "x=1", "lbl");
    assert_eq!(op.data, "x=1");

    let op = MountFrom(&m, "/root", 0, "x=1", "");
    assert_eq!(op.data, "x=1");
}

#[test]
fn bind_mount_with_flags_needs_remount() {
    let b = mount("/data", "bind", "/host/data", &[]);
    let op = MountFrom(&b, "/r", MS_BIND | MS_RDONLY, "", "");
    assert!(op.bind);
    assert_eq!(op.remount, Some(MS_BIND | MS_RDONLY | MS_REMOUNT));
    let op = MountFrom(&b, "/r", MS_BIND | MS_REC | MS_PRIVATE, "", "");
    assert_eq!(op.remount, None);
    let op = MountFrom(&b, "/r", MS_RDONLY, "", "");
    assert_eq!(op.remount, None);
}

fn spec(root: &str, mounts: Vec<Mount>, label: &str) -> Spec {
    Spec {
        root: Root { path: root.to_string(), readonly: false },
        mounts,
        linux: Some(Linux { mount_label: label.to_string() }),
    }
}

#[test]
fn container_fs_mounts_in_order() {
    let mounter = FsImageMounter::New("sb1");
    let s = spec(
        "rootfs",
        vec![
            mount("/proc", "proc", "proc", &["nosuid"]),
            mount("/sys/fs/cgroup", "cgroup", "cgroup", &["ro"]),
            mount("/dev", "tmpfs", "tmpfs", &["ro", "mode=755"]),
            mount("/data", "bind", "/host/data", &["rbind", "ro"]),
        ],
        "",
    );
    let plan = mounter.MountContainerFs("/bundle", &s, "c1");
    assert_eq!(plan.rootSource, "/bundle/rootfs");
    assert_eq!(plan.rootTarget, "/var/lib/quark/sb1/c1");
    assert_eq!(plan.rootFlags, MS_REC | MS_BIND);
    assert_eq!(plan.error, None);
    assert_eq!(plan.mounts.len(), 3);
    assert_eq!(plan.mounts[0].target, "/var/lib/quark/sb1/proc");
    assert_eq!(plan.mounts[0].flags, MS_NOSUID);
    assert_eq!(plan.mounts[1].target, "/var/lib/quark/sb1/dev");
    assert_eq!(plan.mounts[1].flags, 0);
    assert_eq!(plan.mounts[1].data, "mode=755");
    assert_eq!(plan.mounts[2].flags, MS_BIND | MS_REC | MS_RDONLY);
    assert!(plan.mounts[2].bind);
    assert_eq!(plan.mounts[2].remount, Some(MS_BIND | MS_REC | MS_RDONLY | MS_REMOUNT));
}

#[test]
fn container_fs_absolute_root_and_refused_destination() {
    let mounter = FsImageMounter::NewWithRootPath("sb", "/run/q");
    let s = spec(
        "/images/c/rootfs",
        vec![
            mount("/proc", "proc", "proc", &[]),
            mount("tmp", "tmpfs", "tmpfs", &[]),
            mount("/later", "tmpfs", "tmpfs", &[]),
        ],
        "lbl",
    );
    let plan = mounter.MountContainerFs("/bundle", &s, "c2");
    assert_eq!(plan.rootSource, "/images/c/rootfs");
    assert_eq!(plan.rootTarget, "/run/q/sb/c2");
    assert_eq!(plan.mounts.len(), 1);
    assert_eq!(plan.mounts[0].data, "");
    assert_eq!(plan.error, Some(Error::Common("invalid mount destination: tmp".to_string())));

    let s = spec("r", vec![mount("/a/../etc", "bind", "/x", &[])], "");
    let plan = mounter.MountContainerFs("/b", &s, "c");
    assert_eq!(plan.mounts.len(), 0);
    assert_eq!(plan.error, Some(Error::Common("invalid mount destination: /a/../etc".to_string())));
}

#[test]
fn container_fs_without_linux_section_stops_after_root() {
    let mounter = FsImageMounter::New("sb1");
    let mut s = spec("rootfs", vec![mount("/proc", "proc", "proc", &[])], "");
    s.linux = None;
    let plan = mounter.MountContainerFs("/bundle", &s, "c1");
    assert!(plan.noLinux);
    assert_eq!(plan.rootSource, "/bundle/rootfs");
    assert_eq!(plan.rootTarget, "/var/lib/quark/sb1/c1");
    assert!(plan.mounts.is_empty());
    assert!(plan.error.is_none());
}
