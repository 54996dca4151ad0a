//! Choosing what to extract from a disc image.

use fatxlib::iso::extract::{plan_extract, XisoLayout};
use fatxlib::iso::policy::{filter_entries, is_systemupdate_path, XisoFile};

fn file(path: &str, size: u64) -> XisoFile {
    XisoFile { path: path.to_string(), size }
}

#[test]
fn dashboard_updates_are_recognised() {
    assert!(is_systemupdate_path("$SystemUpdate"));
    assert!(is_systemupdate_path("/$SystemUpdate/su20076000_00000000"));
    assert!(is_systemupdate_path("///$systemUPDATE/x"));
    assert!(!is_systemupdate_path("/Media/$SystemUpdate/x"));
    assert!(!is_systemupdate_path("/$SystemUpdate2/x"));
    assert!(!is_systemupdate_path(""));
    assert!(!is_systemupdate_path("///"));
}

#[test]
fn filtering_parts_the_files() {
    let files = vec![
        file("/default.xex", 100),
        file("/$SystemUpdate/a", 20),
        file("/Media/b", 3),
        file("/$SYSTEMUPDATE/c", 4),
    ];
    let r = filter_entries(&files, false);
    let kept: Vec<&str> = r.kept.iter().map(|f| f.path.as_str()).collect();
    let skipped: Vec<&str> = r.skipped.iter().map(|f| f.path.as_str()).collect();
    assert_eq!(kept, vec!["/default.xex", "/Media/b"]);
    assert_eq!(skipped, vec!["/$SystemUpdate/a", "/$SYSTEMUPDATE/c"]);
    assert_eq!((r.kept_files(), r.skipped_files()), (2, 2));
    assert_eq!((r.kept_bytes, r.skipped_bytes), (103, 24));

    let all = filter_entries(&files, true);
    assert_eq!((all.kept_files(), all.skipped_files()), (4, 0));
    assert_eq!((all.kept_bytes, all.skipped_bytes), (127, 0));
}

#[test]
fn plans_name_the_layout() {
    let layout = XisoLayout { name: "XGD3".to_string(), offset: 0x2080000 };
    let files = vec![file("/a", 1), file("/$SystemUpdate/b", 2)];
    let plan = plan_extract(files, Some(layout), 0x2080000, false);
    assert_eq!(plan.layout, "XGD3 (0x02080000)");
    assert_eq!(plan.entries.len(), 2);
    assert_eq!((plan.kept_files(), plan.skipped_files()), (1, 1));
    assert_eq!((plan.kept_bytes, plan.skipped_bytes), (1, 2));
    assert!(plan.is_skipped(&plan.entries[1], false));
    assert!(!plan.is_skipped(&plan.entries[1], true));
    assert!(!plan.is_skipped(&plan.entries[0], false));

    let plan = plan_extract(Vec::new(), None, 0x1_2345_6789, false);
    assert_eq!(plan.layout, "unknown @ 0x123456789");
    let plan = plan_extract(Vec::new(), None, 0xAB, false);
    assert_eq!(plan.layout, "unknown @ 0x000000AB");
}
