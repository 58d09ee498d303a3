//! The mount table: parsing, translation between mounts, conflicts.
use rip::mounts::{
    inside, mount_conflict, num, parse_line, route_candidates, through, unescape, Mount, Mounts,
};

/// A made-up mount table, such as a machine has whose root is put back at every
/// boot: a home on a btrfs subvolume, most of it bound in from another, the btrfs
/// top level, one other filesystem, and what the system mounts for itself.
const TABLE: &[u8] = b"\
    30 1 0:25 /rootfs / rw,relatime shared:1 - btrfs /dev/dm-0 rw,ssd,space_cache=v2,subvol=/rootfs\n\
    31 30 0:25 /persist /persist rw,relatime shared:2 - btrfs /dev/dm-0 rw,ssd,space_cache=v2,subvol=/persist\n\
    32 30 0:25 / /mnt/root rw,relatime shared:3 - btrfs /dev/dm-0 rw,ssd,space_cache=v2,subvol=/\n\
    33 30 0:25 /nix /nix rw,noatime shared:4 - btrfs /dev/dm-0 rw,ssd,space_cache=v2,subvol=/nix\n\
    34 33 0:25 /nix/store /nix/store ro,nosuid,nodev,noatime shared:5 - btrfs /dev/dm-0 rw,ssd,space_cache=v2,subvol=/nix\n\
    35 30 0:6 / /dev rw,nosuid shared:6 - devtmpfs devtmpfs rw,size=1630220k,mode=755\n\
    36 35 0:24 / /dev/pts rw,nosuid,noexec,relatime shared:7 - devpts devpts rw,gid=3,mode=620,ptmxmode=666\n\
    37 35 0:23 / /dev/shm rw,nosuid,nodev shared:8 - tmpfs tmpfs rw,size=16302192k\n\
    38 30 0:21 / /proc rw,nosuid,nodev,noexec,relatime shared:11 - proc proc rw\n\
    39 38 0:38 / /proc/sys/fs/binfmt_misc rw,relatime shared:12 - autofs systemd-1 rw,fd=37,pgrp=1,timeout=0,direct\n\
    40 30 0:22 / /sys rw,nosuid,nodev,noexec,relatime shared:13 - sysfs sysfs rw\n\
    41 40 0:29 / /sys/fs/cgroup rw,nosuid,nodev,noexec,relatime shared:12 - cgroup2 cgroup2 rw\n\
    42 40 0:31 / /sys/firmware/efi/efivars rw,nosuid,nodev,noexec,relatime shared:13 - efivarfs efivarfs rw\n\
    43 40 0:8 / /sys/kernel/debug rw,nosuid,nodev,noexec,relatime shared:14 - debugfs debugfs rw\n\
    44 30 0:26 / /run rw,nosuid,nodev shared:23 - tmpfs tmpfs rw,size=8151096k,mode=755\n\
    45 44 0:41 / /run/credentials/getty@tty1.service ro,nosuid,nodev,noexec,relatime,nosymfollow - tmpfs none rw,size=1024k,mode=700,noswap\n\
    46 44 0:60 / /run/user/1000 rw,nosuid,nodev,relatime shared:26 - tmpfs tmpfs rw,size=3260436k,mode=700,uid=1000,gid=100\n\
    47 46 0:61 / /run/user/1000/gvfs rw,nosuid,nodev,relatime shared:27 - fuse.gvfsd-fuse gvfsd-fuse rw,user_id=1000,group_id=100\n\
    48 30 259:1 / /boot rw,relatime shared:29 - vfat /dev/nvme0n1p1 rw,fmask=0077,dmask=0077\n\
    49 30 8:17 / /mnt/Mumei rw,nosuid,nodev,relatime shared:30 - fuseblk /dev/sdb1 rw,user_id=0,group_id=0,allow_other,blksize=4096\n\
    50 30 0:50 / /tmp rw,nosuid,nodev shared:31 - tmpfs tmpfs rw,size=16302192k\n\
    51 30 0:25 /persist/system/var/log /var/log rw,relatime shared:2 - btrfs /dev/dm-0 rw,ssd,space_cache=v2,subvol=/persist\n\
    52 30 0:25 /persist/system/var/lib/nixos /var/lib/nixos rw,relatime shared:2 - btrfs /dev/dm-0 rw,ssd,space_cache=v2,subvol=/persist\n\
    53 30 0:25 /persist/system/etc/nixos /etc/nixos rw,relatime shared:2 - btrfs /dev/dm-0 rw,ssd,space_cache=v2,subvol=/persist\n\
    54 30 0:25 /persist/system/root/.ssh /root/.ssh rw,relatime shared:2 - btrfs /dev/dm-0 rw,ssd,space_cache=v2,subvol=/persist\n\
    55 30 0:25 /persist/system/etc/machine-id /etc/machine-id rw,relatime shared:2 - btrfs /dev/dm-0 rw,ssd,space_cache=v2,subvol=/persist\n\
    56 30 0:25 /persist/system/etc/ssh/ssh_host_ed25519_key /etc/ssh/ssh_host_ed25519_key rw,relatime shared:2 - btrfs /dev/dm-0 rw,ssd,space_cache=v2,subvol=/persist\n\
    57 30 0:25 /persist/data/home/user/Downloads /home/user/Downloads rw,relatime shared:2 - btrfs /dev/dm-0 rw,ssd,space_cache=v2,subvol=/persist\n\
    58 30 0:25 /persist/data/home/user/.local/share/Trash /home/user/.local/share/Trash rw,relatime shared:2 - btrfs /dev/dm-0 rw,ssd,space_cache=v2,subvol=/persist\n\
    59 30 0:25 /persist/data/home/user/Documents /home/user/Documents rw,relatime shared:2 - btrfs /dev/dm-0 rw,ssd,space_cache=v2,subvol=/persist\n\
    60 30 0:25 /persist/data/home/user/Games /home/user/Games rw,relatime shared:33 master:2 - btrfs /dev/dm-0 rw,ssd,space_cache=v2,subvol=/persist\n\
    61 30 0:25 /persist/data/home/user/VirtualBox\\040VMs /home/user/VirtualBox\\040VMs rw,relatime shared:2 - btrfs /dev/dm-0 rw,ssd,space_cache=v2,subvol=/persist\n\
    62 30 0:25 /persist/data/home/user/.ssh /home/user/.ssh rw,relatime shared:2 - btrfs /dev/dm-0 rw,ssd,space_cache=v2,subvol=/persist\n\
    63 30 0:25 /persist/data/home/user/.config/fish /home/user/.config/fish rw,relatime shared:2 - btrfs /dev/dm-0 rw,ssd,space_cache=v2,subvol=/persist\n\
    64 30 0:25 /persist/data/home/user/.local/state/home-manager /home/user/.local/state/home-manager rw,relatime shared:2 - btrfs /dev/dm-0 rw,ssd,space_cache=v2,subvol=/persist\n";

fn fixture() -> Mounts {
    Mounts::parse(TABLE)
}

fn find<'a>(ms: &'a Mounts, point: &str) -> &'a Mount {
    ms.0.iter()
        .find(|m| m.point == point.as_bytes())
        .unwrap_or_else(|| panic!("no mount at {point} in the fixture"))
}

// ---- unescape ----

#[test]
fn unescape_octal_escapes() {
    assert_eq!(unescape(b"a\\040b"), b"a b");
    assert_eq!(unescape(b"a\\011b"), b"a\tb");
    assert_eq!(unescape(b"a\\012b"), b"a\nb");
    assert_eq!(unescape(b"a\\134b"), b"a\\b");
    assert_eq!(unescape(b"\\040\\011\\012\\134"), b" \t\n\\");
}

#[test]
fn what_the_kernel_escapes_comes_back() {
    let name = b"a \t\n\\040\\ \xff~";
    let mut written = Vec::new();
    for &b in name {
        if b" \t\n\\".contains(&b) {
            written.extend(format!("\\{b:03o}").into_bytes());
        } else {
            written.push(b);
        }
    }
    assert_ne!(written, name);
    assert_eq!(unescape(&written), name);
}

#[test]
fn unescape_passthrough_and_incomplete_escape() {
    assert_eq!(unescape(b"plain"), b"plain");
    // Not three octal digits: the backslash stays literal.
    assert_eq!(unescape(b"a\\bc"), b"a\\bc");
    // A backslash with fewer than three bytes left in the input.
    assert_eq!(unescape(b"trailing\\"), b"trailing\\");
    assert_eq!(unescape(b"trailing\\04"), b"trailing\\04");
}

// ---- parse_line: optional fields and malformed lines ----

#[test]
fn parse_line_accepts_zero_one_and_two_optional_fields() {
    let zero = parse_line(b"20 1 0:1 / /mnt rw - ext4 /dev/sda1 rw").unwrap();
    assert_eq!(zero.id, 20);
    assert_eq!(zero.fstype, b"ext4");

    let one = parse_line(b"20 1 0:1 / /mnt rw shared:1 - ext4 /dev/sda1 rw").unwrap();
    assert_eq!(one.fstype, b"ext4");

    let two = parse_line(b"20 1 0:1 / /mnt rw shared:1 master:2 - ext4 /dev/sda1 rw").unwrap();
    assert_eq!(two.fstype, b"ext4");
}

#[test]
fn parse_line_captures_the_ro_option() {
    let rw = parse_line(b"20 1 0:1 / /mnt rw,nosuid - ext4 /dev/sda1 rw").unwrap();
    assert!(!rw.ro);
    let ro = parse_line(b"20 1 0:1 / /mnt ro,nosuid,nodev - ext4 /dev/sda1 rw").unwrap();
    assert!(ro.ro);
}

#[test]
fn parse_skips_malformed_lines_keeps_good_ones() {
    let text: &[u8] = b"\
        20 1 0:1 / /mnt rw - ext4 /dev/sda1 rw\n\
        not a valid line at all\n\
        21 1 0X1 / /bad rw - ext4 /dev/sda1 rw\n\
        22 1 0:2 / - ext4 /dev/sda1 rw\n\
        abc 1 0:5 / /x rw - ext4 /dev/sda1 rw\n\
        23 1 0:3 / /good2 rw shared:1 - btrfs /dev/x rw\n";
    let ms = Mounts::parse(text);
    assert_eq!(ms.0.len(), 2, "{:?}", ms.0);
    assert!(ms.by_id(20).is_some());
    assert!(ms.by_id(21).is_none(), "bad maj:min should be skipped");
    assert!(
        ms.by_id(22).is_none(),
        "too few fields before '-' should be skipped"
    );
    assert!(ms.by_id(23).is_some());
}

#[test]
fn numbers() {
    assert_eq!(num(b"0"), Some(0));
    assert_eq!(num(b"18446744073709551615"), Some(u64::MAX));
    assert_eq!(num(b"18446744073709551616"), None);
    assert_eq!(num(b""), None);
    assert_eq!(num(b"-1"), None);
    assert_eq!(num(b"1a"), None);
    assert_eq!(num(b"+5"), "+5".parse::<u64>().ok());
}

// ---- the fixture ----

#[test]
fn every_line_of_the_table_is_a_mount() {
    let ms = fixture();
    let lines = TABLE.iter().filter(|b| **b == b'\n').count();
    assert_eq!(ms.0.len(), 35);
    assert_eq!(ms.0.len(), lines);
    assert_eq!(
        find(&ms, "/home/user/VirtualBox VMs").root,
        b"/persist/data/home/user/VirtualBox VMs"
    );
    assert!(find(&ms, "/nix/store").ro);
    assert!(!find(&ms, "/nix").ro);
    // The mount is read-only, the filesystem is not.
    assert!(find(&ms, "/run/credentials/getty@tty1.service").ro);
    assert_eq!(find(&ms, "/run/user/1000/gvfs").fstype, b"fuse.gvfsd-fuse");
}

#[test]
fn fixture_includes_mnt_root_btrfs_top_level() {
    let ms = fixture();
    let mnt_root = find(&ms, "/mnt/root");
    assert_eq!(mnt_root.root, b"/");
    assert_eq!(mnt_root.fstype, b"btrfs");
}

#[test]
fn fixture_includes_home_bind_mounts() {
    let ms = fixture();
    let downloads = find(&ms, "/home/user/Downloads");
    assert_eq!(downloads.root, b"/persist/data/home/user/Downloads");
    let trash = find(&ms, "/home/user/.local/share/Trash");
    assert_eq!(
        trash.root,
        b"/persist/data/home/user/.local/share/Trash"
    );
}

#[test]
fn under_is_filled_from_the_parent_mount() {
    let ms = fixture();
    let persist = find(&ms, "/persist");
    let root = find(&ms, "/");
    let (fs, at) = persist
        .under
        .clone()
        .expect("/persist should have a parent under /");
    assert_eq!(fs, root.fs);
    assert_eq!(at, b"/rootfs/persist");
}

#[test]
fn root_mount_has_no_under() {
    // The root's parent is outside this mount namespace, so it never appears
    // as a mount to fill `under` from.
    let ms = fixture();
    let root = find(&ms, "/");
    assert!(ms.by_id(root.parent).is_none());
    assert!(root.under.is_none());
}

#[test]
fn inside_and_through_translate_downloads_to_trash_via_persist() {
    let ms = fixture();
    let downloads = find(&ms, "/home/user/Downloads");
    let trash = find(&ms, "/home/user/.local/share/Trash");
    let persist = find(&ms, "/persist");

    let src = b"/home/user/Downloads/x";
    assert_eq!(
        inside(downloads, src).unwrap(),
        b"/persist/data/home/user/Downloads/x"
    );
    assert_eq!(
        through(downloads, persist, src).unwrap(),
        b"/persist/data/home/user/Downloads/x"
    );

    let dst = b"/home/user/.local/share/Trash/files";
    assert_eq!(
        through(trash, persist, dst).unwrap(),
        b"/persist/data/home/user/.local/share/Trash/files"
    );
    // A path comes back through its own mount as it was.
    assert_eq!(through(trash, trash, dst).unwrap(), dst);
    assert_eq!(inside(downloads, b"/home/user/x"), None);
}

// ---- route_candidates ----

#[test]
fn route_candidates_persist_and_mnt_root_translate_no_rootfs_candidate() {
    let ms = fixture();
    let downloads = find(&ms, "/home/user/Downloads");
    let trash = find(&ms, "/home/user/.local/share/Trash");
    let persist = find(&ms, "/persist");
    let mnt_root = find(&ms, "/mnt/root");
    let root = find(&ms, "/");

    let a = b"/home/user/Downloads/x";
    let b = b"/home/user/.local/share/Trash/files";
    let candidates = route_candidates(&ms, downloads.id, a, trash.id, b);

    let ids: Vec<u64> = candidates.iter().map(|(id, _, _)| *id).collect();
    assert!(ids.contains(&persist.id), "{candidates:?}");
    assert!(ids.contains(&mnt_root.id), "{candidates:?}");
    assert!(
        !ids.contains(&root.id),
        "no candidate should route /rootfs -> /persist files: {candidates:?}"
    );

    let (_, pa, pb) = candidates
        .iter()
        .find(|(id, _, _)| *id == persist.id)
        .unwrap();
    assert_eq!(pa, b"/persist/data/home/user/Downloads/x");
    assert_eq!(pb, b"/persist/data/home/user/.local/share/Trash/files");
}

#[test]
fn route_candidates_empty_across_different_filesystems() {
    let ms = fixture();
    let downloads = find(&ms, "/home/user/Downloads");
    let mumei = find(&ms, "/mnt/Mumei");
    let candidates = route_candidates(
        &ms,
        downloads.id,
        b"/home/user/Downloads/x",
        mumei.id,
        b"/mnt/Mumei/x",
    );
    assert!(candidates.is_empty(), "{candidates:?}");
}

#[test]
fn route_candidates_empty_for_unknown_mount_id() {
    let ms = fixture();
    let downloads = find(&ms, "/home/user/Downloads");
    let candidates = route_candidates(
        &ms,
        downloads.id,
        b"/home/user/Downloads/x",
        999_999,
        b"/nowhere",
    );
    assert!(candidates.is_empty(), "{candidates:?}");
}

// ---- mount_conflict ----

#[test]
fn mount_conflict_downloads_is_a_mount_point() {
    let ms = fixture();
    let downloads = find(&ms, "/home/user/Downloads");
    assert_eq!(
        mount_conflict(&ms, downloads, &downloads.point, false).unwrap(),
        "is a mount point"
    );
}

#[test]
fn mount_conflict_is_mount_root_flag_forces_a_conflict() {
    let ms = fixture();
    let downloads = find(&ms, "/home/user/Downloads");
    // Even a path that is not the mount point itself is refused when the
    // caller already knows that it is a mount root.
    let msg = mount_conflict(&ms, downloads, b"/home/user/Downloads/x", true).unwrap();
    assert_eq!(msg, "is a mount point");
}

#[test]
fn mount_conflict_home_contains_mount_points() {
    let ms = fixture();
    let root = find(&ms, "/");
    let msg = mount_conflict(&ms, root, b"/home/user", false).unwrap();
    assert!(msg.starts_with("contains the mount point "), "{msg}");
}

#[test]
fn mount_conflict_persist_downloads_is_mounted_at_home_downloads() {
    let ms = fixture();
    let persist = find(&ms, "/persist");
    let msg = mount_conflict(&ms, persist, b"/persist/data/home/user/Downloads", false).unwrap();
    assert_eq!(msg, "is mounted at /home/user/Downloads");
}

#[test]
fn mount_conflict_through_mnt_root_alias_still_finds_the_conflict() {
    // Compares filesystem paths, so the same real location reached through
    // the /mnt/root alias view is still caught.
    let ms = fixture();
    let mnt_root = find(&ms, "/mnt/root");
    let msg = mount_conflict(&ms, mnt_root, b"/mnt/root/persist/data/home/user", false);
    assert!(
        msg.is_some(),
        "the /mnt/root alias view should still see the conflict"
    );
}

#[test]
fn mount_conflict_mnt_root_rootfs_is_mounted_at_root() {
    let ms = fixture();
    let mnt_root = find(&ms, "/mnt/root");
    let msg = mount_conflict(&ms, mnt_root, b"/mnt/root/rootfs", false).unwrap();
    assert_eq!(msg, "is mounted at /");
}

#[test]
fn mount_conflict_downloads_x_has_no_conflict() {
    let ms = fixture();
    let downloads = find(&ms, "/home/user/Downloads");
    let msg = mount_conflict(&ms, downloads, b"/home/user/Downloads/x", false);
    assert!(msg.is_none(), "{msg:?}");
}
