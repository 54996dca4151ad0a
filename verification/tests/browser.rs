//! The browser.

use fatxlib::browser::app::{refresh_entries, Action, App, Found, InputMode, Key};
use fatxlib::browser::keys::{finish_download, finish_upload, handle_input_key, handle_normal_key};
use fatxlib::browser::listing::{show_line, sort_lines, DisplayEntry};
use fatxlib::device::MemoryDevice;
use fatxlib::disk::Stamp;
use fatxlib::mkimage::format_image;
use fatxlib::volume::FatxVolume;

const NOW: Stamp = Stamp { date: 0x5A21, time: 0x6C40 };

fn volume() -> FatxVolume<MemoryDevice> {
    let size = 4 * 1024 * 1024;
    let mut dev = MemoryDevice::new(Vec::new());
    format_image(&mut dev, size as u64, false, 8).expect("format");
    let mut vol = FatxVolume::open(dev, 0, 0).expect("open");
    vol.create_file_at("/zeta.txt", b"zeta", NOW).expect("create");
    vol.create_file_at("/Alpha.txt", &vec![1u8; 2000], NOW).expect("create");
    vol.create_directory_at("/sub", NOW).expect("mkdir");
    vol.create_directory_at("/Beta", NOW).expect("mkdir");
    vol.create_file_at("/sub/inner", b"in", NOW).expect("create");
    vol
}

fn started(vol: &mut FatxVolume<MemoryDevice>) -> App {
    let mut app = App::new("Data", "disk.img", "/tmp");
    refresh_entries(&mut app, vol);
    app
}

fn names(app: &App) -> Vec<&str> {
    app.entries.iter().map(|e| e.name.as_str()).collect()
}

fn press(app: &mut App, vol: &mut FatxVolume<MemoryDevice>, keys: &[Key]) {
    for key in keys {
        handle_normal_key(app, vol, *key);
    }
}

fn type_in(app: &mut App, vol: &mut FatxVolume<MemoryDevice>, text: &str) -> Action {
    while !app.input_buffer.is_empty() {
        handle_input_key(app, vol, Key::Backspace, NOW);
    }
    for c in text.chars() {
        handle_input_key(app, vol, Key::Char(c), NOW);
    }
    handle_input_key(app, vol, Key::Enter, NOW)
}

#[test]
fn directories_come_first_and_names_are_in_order() {
    let mut vol = volume();
    let app = started(&mut vol);
    assert_eq!(names(&app), vec!["Beta", "sub", "Alpha.txt", "zeta.txt"]);
    assert_eq!(app.selected, Some(0));
    assert_eq!(
        app.status,
        "4 item(s) — ↑↓ navigate, Enter open, d download, u upload, q quit"
    );
    assert_eq!(app.header_text(), " \u{1F4E6} Data — disk.img — /");
}

#[test]
fn the_order_of_names_ignores_case() {
    let line = |name: &str, is_dir: bool| DisplayEntry {
        name: name.to_string(),
        is_dir,
        size: 0,
        modified: String::new(),
        attributes: String::new(),
        first_cluster: 1,
    };
    let sorted = sort_lines(vec![
        line("b", false),
        line("C", false),
        line("A", false),
        line("a", false),
        line("\u{c9}t\u{e9}", false),
        line("\u{e9}s", false),
        line("z", true),
    ]);
    let names: Vec<&str> = sorted.iter().map(|e| e.name.as_str()).collect();
    assert_eq!(names, vec!["z", "A", "a", "b", "C", "\u{e9}s", "\u{c9}t\u{e9}"]);
}

#[test]
fn lines_show_size_time_and_attributes() {
    let mut vol = volume();
    let app = started(&mut vol);
    assert_eq!(
        show_line(&app.entries[2]),
        format!(
            " \u{1F4C4} {:<42} {:>10}  {}  {}",
            "Alpha.txt", "2.0 KB", app.entries[2].modified, "----"
        )
    );
    assert_eq!(
        show_line(&app.entries[0]),
        format!(
            " \u{1F4C1} {:<42} {:>10}  {}  {}",
            "Beta", "<DIR>", app.entries[0].modified, "d---"
        )
    );
}

#[test]
fn keys_move_the_selection() {
    let mut vol = volume();
    let mut app = started(&mut vol);
    press(&mut app, &mut vol, &[Key::Up]);
    assert_eq!(app.selected, Some(0));
    press(&mut app, &mut vol, &[Key::Down, Key::Char('j')]);
    assert_eq!(app.selected, Some(2));
    press(&mut app, &mut vol, &[Key::Char('k')]);
    assert_eq!(app.selected, Some(1));
    press(&mut app, &mut vol, &[Key::End, Key::Down]);
    assert_eq!(app.selected, Some(3));
    press(&mut app, &mut vol, &[Key::Home]);
    assert_eq!(app.selected, Some(0));
    press(&mut app, &mut vol, &[Key::PageDown]);
    assert_eq!(app.selected, Some(3));
    press(&mut app, &mut vol, &[Key::PageUp]);
    assert_eq!(app.selected, Some(0));
}

#[test]
fn going_up_undoes_going_in() {
    let mut vol = volume();
    let mut app = started(&mut vol);
    press(&mut app, &mut vol, &[Key::Down, Key::Enter]);
    assert_eq!(app.cwd, "/sub");
    assert_eq!(names(&app), vec!["inner"]);
    press(&mut app, &mut vol, &[Key::Backspace]);
    assert_eq!(app.cwd, "/");
    press(&mut app, &mut vol, &[Key::Right]);
    assert_eq!(app.cwd, "/Beta");
    assert_eq!(app.selected, None);
    assert_eq!(
        app.status,
        "(empty directory) — Backspace to go up, u to upload, n to mkdir, q to quit"
    );
    press(&mut app, &mut vol, &[Key::Left, Key::Left]);
    assert_eq!(app.cwd, "/");
    // On a file the arrow does nothing.
    press(&mut app, &mut vol, &[Key::End]);
    let shown = app.status.clone();
    press(&mut app, &mut vol, &[Key::Right]);
    assert_eq!(app.cwd, "/");
    assert_eq!(app.status, shown);
    assert_eq!(app.selected, Some(3));
    press(&mut app, &mut vol, &[Key::Enter]);
    assert_eq!(app.status, "'zeta.txt' — 4 B — press 'd' to download");
}

#[test]
fn files_are_downloaded() {
    let mut vol = volume();
    let mut app = started(&mut vol);
    press(&mut app, &mut vol, &[Key::Char('d')]);
    assert!(app.status_is_error);
    assert_eq!(app.status, "Cannot download a directory (select a file)");
    press(&mut app, &mut vol, &[Key::End, Key::Char('d')]);
    assert_eq!(app.input_mode, InputMode::DownloadPath);
    assert_eq!(app.input_buffer, "/tmp/zeta.txt");
    assert_eq!(app.input_prompt, "Download 'zeta.txt' to:");
    let action = type_in(&mut app, &mut vol, "/home/z");
    assert!(matches!(
        action,
        Action::SaveFile { name, local_path, data }
            if name == "zeta.txt" && local_path == "/home/z" && data == b"zeta"
    ));
    finish_download(&mut app, "zeta.txt", "/home/z", "/home", 4, None);
    assert_eq!(app.status, "Downloaded 'zeta.txt' → /home/z (4 B)");
    assert_eq!(app.download_dir, "/home");
    finish_download(&mut app, "zeta.txt", "/x", "/", 4, Some("no room".to_string()));
    assert_eq!(app.status, "Write error: no room");
    assert!(app.status_is_error);
}

#[test]
fn files_are_uploaded() {
    let mut vol = volume();
    let mut app = started(&mut vol);
    press(&mut app, &mut vol, &[Key::Char('u')]);
    assert_eq!(app.input_prompt, "Upload local file to '/':");
    let action = type_in(&mut app, &mut vol, "/home/new.bin");
    assert!(matches!(action, Action::LoadFile { local_path } if local_path == "/home/new.bin"));
    let found = Found::File {
        filename: "new.bin".to_string(),
        parent: "/home".to_string(),
        data: vec![5u8; 9],
    };
    finish_upload(&mut app, &mut vol, found, NOW);
    assert_eq!(vol.read_file_by_path("/new.bin").expect("read"), vec![5u8; 9]);
    assert!(names(&app).contains(&"new.bin"));
    assert_eq!(app.download_dir, "/home");
    finish_upload(&mut app, &mut vol, Found::Missing { path: "/q".to_string() }, NOW);
    assert_eq!(app.status, "File not found: /q");
    finish_upload(&mut app, &mut vol, Found::NoName, NOW);
    assert_eq!(app.status, "Invalid filename");
    finish_upload(&mut app, &mut vol, Found::Unreadable { words: "why".to_string() }, NOW);
    assert_eq!(app.status, "Read local error: why");
}

#[test]
fn directories_are_made_renamed_and_deleted() {
    let mut vol = volume();
    let mut app = started(&mut vol);
    press(&mut app, &mut vol, &[Key::Char('m')]);
    assert_eq!(app.input_mode, InputMode::MkdirName);
    type_in(&mut app, &mut vol, "made");
    assert!(names(&app).contains(&"made"));
    press(&mut app, &mut vol, &[Key::Char('n')]);
    type_in(&mut app, &mut vol, "");
    assert_eq!(app.status, "Name cannot be empty");
    press(&mut app, &mut vol, &[Key::Home, Key::Char('r')]);
    assert_eq!(app.input_buffer, "Beta");
    type_in(&mut app, &mut vol, "Gamma");
    assert_eq!(names(&app)[0], "Gamma");
    press(&mut app, &mut vol, &[Key::Home, Key::Char('D')]);
    assert_eq!(app.input_prompt, "Delete directory 'Gamma'? (y/n)");
    type_in(&mut app, &mut vol, "n");
    assert_eq!(app.status, "Delete cancelled.");
    press(&mut app, &mut vol, &[Key::Char('D')]);
    type_in(&mut app, &mut vol, "Y");
    assert!(!names(&app).contains(&"Gamma"));
    press(&mut app, &mut vol, &[Key::Down, Key::Char('D')]);
    type_in(&mut app, &mut vol, "y");
    assert_eq!(app.status, "Delete error: Directory is not empty: /sub");
    press(&mut app, &mut vol, &[Key::Char('D')]);
    handle_input_key(&mut app, &mut vol, Key::Esc, NOW);
    assert_eq!(app.status, "Cancelled.");
    assert_eq!(app.input_mode, InputMode::Normal);
}

#[test]
fn information_and_the_end() {
    let mut vol = volume();
    let mut app = started(&mut vol);
    press(&mut app, &mut vol, &[Key::Char('i')]);
    let stats = vol.stats().expect("stats");
    assert_eq!(
        app.status,
        format!(
            "Volume: Data | Used: {} | Free: {} | Clusters: {}/{}",
            fatxlib::mkimage::format_bytes(stats.used_size),
            fatxlib::mkimage::format_bytes(stats.free_size),
            stats.used_clusters,
            stats.total_clusters
        )
    );
    assert!(!app.should_quit);
    press(&mut app, &mut vol, &[Key::Other, Key::Char('q')]);
    assert!(app.should_quit);
}
