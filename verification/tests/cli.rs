//! Decisions of the programs around the library.

use fatxlib::cli::{check_image, find_local_mounts, find_partition, log_level, mount_options};
use fatxlib::device::MemoryDevice;
use fatxlib::partition::detect_xbox_partitions;
use fatxlib::types::{all_known_partitions, og_xbox_partitions};

const MB: u64 = 1024 * 1024;

#[test]
fn images_are_checked_before_they_are_made() {
    assert_eq!(check_image(8 * MB, "fatx", 32, "a.img", false), Ok(false));
    assert_eq!(check_image(8 * MB, "XBOX", 1, "a.img", false), Ok(false));
    assert_eq!(check_image(8 * MB, "Xtaf", 128, "a.img", false), Ok(true));
    assert_eq!(check_image(8 * MB, "360", 2, "a.img", false), Ok(true));
    assert_eq!(check_image(8 * MB, "xbox360", 64, "a.img", false), Ok(true));
    assert_eq!(
        check_image(MB, "fatx", 32, "a.img", false),
        Err("Image size 1.0 MB is too small (minimum 2.0 MB)".to_string())
    );
    assert_eq!(
        check_image(8 * MB, "NTFS", 32, "a.img", false),
        Err("Unknown format 'ntfs'. Use 'fatx' or 'xtaf'.".to_string())
    );
    for spc in [0, 3, 129, 256] {
        assert_eq!(
            check_image(8 * MB, "fatx", spc, "a.img", false),
            Err(format!(
                "Sectors per cluster must be a power of 2 between 1 and 128, got {}",
                spc
            ))
        );
    }
    assert_eq!(
        check_image(8 * MB, "fatx", 32, "a.img", true),
        Err("Output file 'a.img' already exists. Use --force to overwrite.".to_string())
    );
}

#[test]
fn logging_and_mount_options() {
    assert_eq!(log_level(true, false), "debug");
    assert_eq!(log_level(false, true), "info");
    assert_eq!(log_level(false, false), "warn");
    assert_eq!(
        mount_options(11111),
        "nolocks,noresvport,vers=3,tcp,rsize=131072,wsize=131072,actimeo=2,intr,soft,retrans=2,timeo=10,port=11111,mountport=11111"
    );
}

#[test]
fn partitions_are_found_by_name() {
    let all = all_known_partitions();
    assert_eq!(find_partition(&all, "360 data").expect("found").offset, 0x1_30EB_0000);
    assert_eq!(find_partition(&all, "DATA (E)").expect("found").offset, 0x0ABE_0000);
    assert!(find_partition(&all, "360").is_none());
    assert!(find_partition(&Vec::new(), "x").is_none());
}

#[test]
fn volumes_are_detected_where_they_start() {
    let og = og_xbox_partitions();
    let mut data = vec![0u8; og[1].offset as usize + 4];
    assert!(detect_xbox_partitions(&mut MemoryDevice::new(data.clone())).expect("scan").is_empty());
    let at = og[0].offset as usize;
    data[at..at + 4].copy_from_slice(b"FATX");
    let at = og[1].offset as usize;
    data[at..at + 4].copy_from_slice(b"XTAF");
    let found = detect_xbox_partitions(&mut MemoryDevice::new(data)).expect("scan");
    let names: Vec<&str> = found.iter().map(|p| p.name).collect();
    // Both kinds of drive have a partition at the first offset.
    assert_eq!(names, vec!["Config (CACHE0)", "Game Cache (CACHE1)", "360 System Cache"]);
}

#[test]
fn mounts_served_by_this_machine_are_found() {
    let table = "/dev/disk1s1 on / (apfs, local)\n\
        localhost:/ on /Volumes/Xbox Drive (nfs, nodev)\n\
        localhost:/ on /Volumes/Xbox (nfs)\r\n\
        127.0.0.1:/ on /mnt/x (old) on twice (nfs)\n\
        localhost:/ on  (nfs)\n\
        localhost:/ on /mnt/x type nfs (rw)\n\
        localhost:/ on /mnt/two words type nfs4 (rw,relatime)\n\
        localhost:/ on /mnt/type it (nfs)\n\
        localhost nothing\n\
        \n\
        localhost:/ on /last";
    assert_eq!(
        find_local_mounts(table),
        vec![
            "/Volumes/Xbox Drive",
            "/Volumes/Xbox",
            "/mnt/x (old) on twice",
            "/mnt/x",
            "/mnt/two words",
            "/mnt/type it",
            "/last"
        ]
    );
    assert!(find_local_mounts("").is_empty());
}
