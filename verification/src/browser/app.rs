//! The state of the browser, and what keys make of it.
//!
//! The browser's own logic works on the volume; files on the local disk are left to the
//! program around it. A key that needs one gives an [`Action`], and the program reports what
//! came of it.

use vstd::prelude::*;
use crate::browser::listing::{
    display_of, display_views, make_line, sort_lines, sorted_lines, DisplayEntry, DisplayView,
};
use crate::device::Device;
use crate::directory::entry_views;
use crate::disk::{Disk, Stamp};
use crate::error::error_text;
use crate::mkimage::bytes_text;
use crate::path::name_start;
use crate::text::{chars_of, decimal, push_decimal, same_name, same_text};
use crate::types::{DirectoryEntry, DirentView, FIRST_CLUSTER};
use crate::volume::FatxVolume;

verus! {

/// A key on the keyboard.
#[derive(Debug, Clone, Copy, PartialEq, Eq, Structural)]
pub enum Key {
    Char(char),
    Up,
    Down,
    Left,
    Right,
    Home,
    End,
    PageUp,
    PageDown,
    Enter,
    Backspace,
    Esc,
    Other,
}

/// What the text being typed is for.
#[derive(Debug, Clone, Copy, PartialEq, Eq, Structural)]
pub enum InputMode {
    Normal,
    DownloadPath,
    UploadPath,
    MkdirName,
    RenameName,
    ConfirmDelete,
}

/// The state of the browser.
pub struct App {
    /// The directory that is shown.
    pub cwd: String,
    /// Its entries.
    pub entries: Vec<DisplayEntry>,
    /// The number of the line that is selected.
    pub selected: Option<usize>,
    /// The message at the bottom.
    pub status: String,
    /// Whether the message is about a failure.
    pub status_is_error: bool,
    pub partition_name: String,
    pub device_display: String,
    pub should_quit: bool,
    pub input_mode: InputMode,
    /// The text being typed.
    pub input_buffer: String,
    /// What the text is asked for.
    pub input_prompt: String,
    /// Where downloads go by default.
    pub download_dir: String,
}

/// The state of the browser as a mathematical value.
#[verifier::ext_equal]
pub struct AppView {
    pub cwd: Seq<char>,
    pub entries: Seq<DisplayView>,
    pub selected: Option<usize>,
    pub status: Seq<char>,
    pub status_is_error: bool,
    pub partition_name: Seq<char>,
    pub device_display: Seq<char>,
    pub should_quit: bool,
    pub input_mode: InputMode,
    pub input_buffer: Seq<char>,
    pub input_prompt: Seq<char>,
    pub download_dir: Seq<char>,
}

impl View for App {
    type V = AppView;

    open spec fn view(&self) -> AppView {
        AppView {
            cwd: self.cwd@,
            entries: display_views(self.entries@),
            selected: self.selected,
            status: self.status@,
            status_is_error: self.status_is_error,
            partition_name: self.partition_name@,
            device_display: self.device_display@,
            should_quit: self.should_quit,
            input_mode: self.input_mode,
            input_buffer: self.input_buffer@,
            input_prompt: self.input_prompt@,
            download_dir: self.download_dir@,
        }
    }
}

/// Work on the local disk that the program around the browser has to do.
pub enum Action {
    /// Nothing.
    Nothing,
    /// Write a file that has been read from the volume.
    SaveFile { name: String, local_path: String, data: Vec<u8> },
    /// Read a file that is to be put on the volume.
    LoadFile { local_path: String },
}

/// Work on the local disk as a mathematical value.
#[verifier::ext_equal]
pub enum ActionView {
    Nothing,
    SaveFile { name: Seq<char>, local_path: Seq<char>, data: Seq<u8> },
    LoadFile { local_path: Seq<char> },
}

impl View for Action {
    type V = ActionView;

    open spec fn view(&self) -> ActionView {
        match self {
            Action::Nothing => ActionView::Nothing,
            Action::SaveFile { name, local_path, data } => ActionView::SaveFile {
                name: name@,
                local_path: local_path@,
                data: data@,
            },
            Action::LoadFile { local_path } => ActionView::LoadFile { local_path: local_path@ },
        }
    }
}

/// What has been found on the local disk.
pub enum Found {
    /// There is no such file.
    Missing { path: String },
    /// The path does not end in a name.
    NoName,
    /// The file could not be read.
    Unreadable { words: String },
    /// The file, its name and its directory.
    File { filename: String, parent: String, data: Vec<u8> },
}

/// What has been found on the local disk, as a mathematical value.
#[verifier::ext_equal]
pub enum FoundView {
    Missing { path: Seq<char> },
    NoName,
    Unreadable { words: Seq<char> },
    File { filename: Seq<char>, parent: Seq<char>, data: Seq<u8> },
}

impl View for Found {
    type V = FoundView;

    open spec fn view(&self) -> FoundView {
        match self {
            Found::Missing { path } => FoundView::Missing { path: path@ },
            Found::NoName => FoundView::NoName,
            Found::Unreadable { words } => FoundView::Unreadable { words: words@ },
            Found::File { filename, parent, data } => FoundView::File {
                filename: filename@,
                parent: parent@,
                data: data@,
            },
        }
    }
}

/// A path made of a directory and a name, as the local file system joins them.
pub open spec fn join_path(dir: Seq<char>, name: Seq<char>) -> Seq<char> {
    if name.len() > 0 && name[0] == '/' {
        name
    } else if dir.len() == 0 || dir.last() == '/' {
        dir + name
    } else {
        dir.push('/') + name
    }
}

/// What the status line says about a volume.
pub open spec fn stats_text(
    partition_name: Seq<char>,
    used_size: nat,
    free_size: nat,
    used: nat,
    total: nat,
) -> Seq<char> {
    "Volume: "@ + partition_name + " | Used: "@ + bytes_text(used_size) + " | Free: "@
        + bytes_text(free_size) + " | Clusters: "@ + decimal(used) + "/"@ + decimal(total)
}

/// The lines of a listing.
pub open spec fn listing_lines(entries: Seq<DirentView>) -> Seq<DisplayView> {
    sorted_lines(entries.map_values(|e: DirentView| display_of(e)))
}

impl AppView {
    pub open spec fn with_status(self, status: Seq<char>) -> AppView {
        AppView { status, status_is_error: false, ..self }
    }

    pub open spec fn with_error(self, status: Seq<char>) -> AppView {
        AppView { status, status_is_error: true, ..self }
    }

    pub open spec fn selected_entry(self) -> Option<DisplayView> {
        match self.selected {
            Some(i) => if i < self.entries.len() {
                Some(self.entries[i as int])
            } else {
                None
            },
            None => None,
        }
    }

    pub open spec fn full_path(self, name: Seq<char>) -> Seq<char> {
        if self.cwd == "/"@ {
            "/"@ + name
        } else {
            self.cwd + "/"@ + name
        }
    }

    /// The state after the directory has been listed anew.
    pub open spec fn refreshed(self, d: Disk) -> AppView {
        match d.resolve(self.cwd) {
            Err(e) => self.with_error("Error: "@ + error_text(e)),
            Ok(dir) => match d.entries(dir.first_cluster) {
                Err(e) => AppView {
                    entries: seq![],
                    ..self.with_error("Error reading directory: "@ + error_text(e))
                },
                Ok(entries) => {
                    let lines = listing_lines(entries);
                    let listed = AppView { entries: lines, ..self };
                    if lines.len() > 0 {
                        AppView {
                            selected: Some(0usize),
                            ..listed.with_status(
                                decimal(lines.len())
                                    + " item(s) — ↑↓ navigate, Enter open, d download, u upload, q quit"@,
                            )
                        }
                    } else {
                        AppView {
                            selected: None,
                            ..listed.with_status(
                                "(empty directory) — Backspace to go up, u to upload, n to mkdir, q to quit"@,
                            )
                        }
                    }
                },
            },
        }
    }

    /// The device failed for reasons of its own, and its words are shown; nothing is listed any
    /// more if the directory was being read.
    pub open spec fn gave_up(self, after: AppView) -> bool {
        ||| after == self.with_error(after.status)
        ||| after == AppView { entries: seq![], ..self.with_error(after.status) }
    }

    /// The state in which a key reads the volume while browsing, if it does.
    pub open spec fn before_read(self, key: Key) -> Option<AppView> {
        let k = name_start(self.cwd, self.cwd.len());
        match key {
            Key::Enter | Key::Right => match self.selected_entry() {
                Some(e) => if e.is_dir {
                    Some(AppView { cwd: self.full_path(e.name), ..self })
                } else {
                    None
                },
                None => None,
            },
            Key::Backspace | Key::Left => if self.cwd == "/"@ || k == 0 {
                None
            } else if k == 1 {
                Some(AppView { cwd: "/"@, ..self })
            } else {
                Some(AppView { cwd: self.cwd.take(k - 1), ..self })
            },
            Key::Char(c) => if c == 'i' {
                Some(self)
            } else {
                None
            },
            _ => None,
        }
    }

    /// The text that has been typed is for the volume.
    pub open spec fn submits(self) -> bool {
        match self.input_mode {
            InputMode::DownloadPath => self.selected_entry() is Some,
            InputMode::MkdirName => self.input_buffer.len() > 0,
            InputMode::RenameName => self.selected_entry() is Some && self.input_buffer.len() > 0,
            InputMode::ConfirmDelete => self.selected_entry() is Some && (same_name(
                self.input_buffer,
                "y"@,
            ) || same_name(self.input_buffer, "yes"@)),
            _ => false,
        }
    }

    /// Another line is selected.
    pub open spec fn select(self, i: int) -> AppView {
        AppView { selected: Some(i as usize), ..self }
    }

    /// A text is asked for.
    pub open spec fn ask(self, mode: InputMode, prompt: Seq<char>, buffer: Seq<char>) -> AppView {
        AppView { input_mode: mode, input_prompt: prompt, input_buffer: buffer, ..self }
    }

    /// The directory above.
    pub open spec fn go_up(self, d: Disk) -> AppView {
        let k = name_start(self.cwd, self.cwd.len());
        if self.cwd == "/"@ || k == 0 {
            self
        } else if k == 1 {
            AppView { cwd: "/"@, ..self }.refreshed(d)
        } else {
            AppView { cwd: self.cwd.take(k - 1), ..self }.refreshed(d)
        }
    }

    /// The directory that is selected, or a word about the file that is.
    pub open spec fn enter(self, d: Disk) -> AppView {
        match self.selected_entry() {
            None => self,
            Some(e) => if e.is_dir {
                AppView { cwd: self.full_path(e.name), ..self }.refreshed(d)
            } else {
                self.with_status(
                    "'"@ + e.name + "' — "@ + bytes_text(e.size as nat)
                        + " — press 'd' to download"@,
                )
            },
        }
    }

    /// The directory that is selected; a file stays where it is.
    pub open spec fn go_in(self, d: Disk) -> AppView {
        match self.selected_entry() {
            Some(e) => if e.is_dir {
                self.enter(d)
            } else {
                self
            },
            None => self,
        }
    }

    /// What a key does while browsing. Nothing on the volume changes.
    pub open spec fn normal_key(self, d: Disk, key: Key) -> AppView {
        let last = self.entries.len() - 1;
        match key {
            Key::Esc => AppView { should_quit: true, ..self },
            Key::Up => self.move_up(),
            Key::Down => self.move_down(),
            Key::Home => if self.entries.len() > 0 {
                self.select(0)
            } else {
                self
            },
            Key::End => if self.entries.len() > 0 {
                self.select(last)
            } else {
                self
            },
            Key::PageDown => match self.selected {
                Some(i) => self.select(
                    if i + 20 <= last {
                        i + 20
                    } else if last >= 0 {
                        last
                    } else {
                        0
                    },
                ),
                None => self,
            },
            Key::PageUp => match self.selected {
                Some(i) => self.select(
                    if i >= 20 {
                        i - 20
                    } else {
                        0
                    },
                ),
                None => self,
            },
            Key::Enter => self.enter(d),
            Key::Right => self.go_in(d),
            Key::Backspace | Key::Left => self.go_up(d),
            Key::Char(c) => self.normal_char(d, c),
            Key::Other => self,
        }
    }

    /// The line above is selected.
    pub open spec fn move_up(self) -> AppView {
        match self.selected {
            Some(i) => if i > 0 {
                self.select(i - 1)
            } else {
                self
            },
            None => self,
        }
    }

    /// The line below is selected.
    pub open spec fn move_down(self) -> AppView {
        match self.selected {
            Some(i) => if i + 1 < self.entries.len() {
                self.select(i + 1)
            } else {
                self
            },
            None => self,
        }
    }

    /// What a letter does while browsing.
    pub open spec fn normal_char(self, d: Disk, c: char) -> AppView {
        if c == 'q' {
            AppView { should_quit: true, ..self }
        } else if c == 'k' {
            self.move_up()
        } else if c == 'j' {
            self.move_down()
        } else if c == 'd' {
            match self.selected_entry() {
                None => self,
                Some(e) => if e.is_dir {
                    self.with_error("Cannot download a directory (select a file)"@)
                } else {
                    self.ask(
                        InputMode::DownloadPath,
                        "Download '"@ + e.name + "' to:"@,
                        join_path(self.download_dir, e.name),
                    )
                },
            }
        } else if c == 'u' {
            self.ask(
                InputMode::UploadPath,
                "Upload local file to '"@ + self.cwd + "':"@,
                self.download_dir,
            )
        } else if c == 'n' || c == 'm' {
            self.ask(InputMode::MkdirName, "New directory name:"@, seq![])
        } else if c == 'D' {
            match self.selected_entry() {
                None => self,
                Some(e) => self.ask(
                    InputMode::ConfirmDelete,
                    "Delete "@ + (if e.is_dir {
                        "directory"@
                    } else {
                        "file"@
                    }) + " '"@ + e.name + "'? (y/n)"@,
                    seq![],
                ),
            }
        } else if c == 'r' {
            match self.selected_entry() {
                None => self,
                Some(e) => self.ask(
                    InputMode::RenameName,
                    "Rename '"@ + e.name + "' to:"@,
                    e.name,
                ),
            }
        } else if c == 'i' {
            match d.tally_from(FIRST_CLUSTER as int) {
                Ok(t) => self.with_status(
                    stats_text(
                        self.partition_name,
                        t.used * d.geo.cluster_size(),
                        t.free * d.geo.cluster_size(),
                        t.used,
                        d.geo.total_clusters as nat,
                    ),
                ),
                Err(e) => self.with_error("Stats error: "@ + error_text(e)),
            }
        } else {
            self
        }
    }

    /// A directory is made.
    pub open spec fn made_directory(self, d: Disk, name: Seq<char>, now: Stamp) -> (AppView, Disk) {
        if name.len() == 0 {
            (self.with_error("Name cannot be empty"@), d)
        } else {
            match d.create_directory(self.full_path(name), now) {
                (d2, Ok(_)) => (
                    self.with_status("Created directory '"@ + name + "'"@).refreshed(d2),
                    d2,
                ),
                (d2, Err(e)) => (self.with_error("Mkdir error: "@ + error_text(e)), d2),
            }
        }
    }

    /// What is selected is deleted.
    pub open spec fn deleted(self, d: Disk) -> (AppView, Disk) {
        match self.selected_entry() {
            None => (self.with_error("No file selected"@), d),
            Some(e) => match d.delete(self.full_path(e.name)) {
                (d2, Ok(_)) => (self.with_status("Deleted '"@ + e.name + "'"@).refreshed(d2), d2),
                (d2, Err(x)) => (self.with_error("Delete error: "@ + error_text(x)), d2),
            },
        }
    }

    /// What is selected gets another name.
    pub open spec fn renamed(self, d: Disk, name: Seq<char>) -> (AppView, Disk) {
        match self.selected_entry() {
            None => (self.with_error("No file selected"@), d),
            Some(e) => if name.len() == 0 {
                (self.with_error("Name cannot be empty"@), d)
            } else {
                match d.rename(self.full_path(e.name), name) {
                    (d2, Ok(_)) => (
                        self.with_status("Renamed '"@ + e.name + "' → '"@ + name + "'"@).refreshed(
                            d2,
                        ),
                        d2,
                    ),
                    (d2, Err(x)) => (self.with_error("Rename error: "@ + error_text(x)), d2),
                }
            },
        }
    }

    /// The selected file is read, to be written to the local disk.
    pub open spec fn downloading(self, d: Disk, local_path: Seq<char>) -> (AppView, ActionView) {
        match self.selected_entry() {
            None => (self.with_error("No file selected"@), ActionView::Nothing),
            Some(e) => match d.read_path(self.full_path(e.name)) {
                Ok(data) => (
                    self.with_status("Downloading '"@ + e.name + "'..."@),
                    ActionView::SaveFile { name: e.name, local_path, data },
                ),
                Err(x) => (self.with_error("Read error: "@ + error_text(x)), ActionView::Nothing),
            },
        }
    }

    /// A downloaded file has been written to the local disk, or has not.
    pub open spec fn saved(
        self,
        name: Seq<char>,
        shown_path: Seq<char>,
        parent: Seq<char>,
        len: nat,
        failure: Option<Seq<char>>,
    ) -> AppView {
        match failure {
            None => AppView { download_dir: parent, ..self }.with_status(
                "Downloaded '"@ + name + "' → "@ + shown_path + " ("@ + bytes_text(len) + ")"@,
            ),
            Some(words) => self.with_error("Write error: "@ + words),
        }
    }

    /// What has been found on the local disk is put on the volume.
    pub open spec fn loaded(self, d: Disk, found: FoundView, now: Stamp) -> (AppView, Disk) {
        match found {
            FoundView::Missing { path } => (self.with_error("File not found: "@ + path), d),
            FoundView::NoName => (self.with_error("Invalid filename"@), d),
            FoundView::Unreadable { words } => (
                self.with_error("Read local error: "@ + words),
                d,
            ),
            FoundView::File { filename, parent, data } => match d.create_file(
                self.full_path(filename),
                data,
                now,
            ) {
                (d2, Ok(_)) => (AppView { download_dir: parent, ..self }.refreshed(d2), d2),
                (d2, Err(e)) => (self.with_error("Upload error: "@ + error_text(e)), d2),
            },
        }
    }

    /// The text that has been typed is used.
    pub open spec fn submitted(self, d: Disk, now: Stamp) -> (AppView, Disk, ActionView) {
        let input = self.input_buffer;
        match self.input_mode {
            InputMode::DownloadPath => {
                let (a, action) = self.downloading(d, input);
                (a, d, action)
            },
            InputMode::UploadPath => (self, d, ActionView::LoadFile { local_path: input }),
            InputMode::MkdirName => {
                let (a, d2) = self.made_directory(d, input, now);
                (a, d2, ActionView::Nothing)
            },
            InputMode::RenameName => {
                let (a, d2) = self.renamed(d, input);
                (a, d2, ActionView::Nothing)
            },
            InputMode::ConfirmDelete => if same_name(input, "y"@) || same_name(input, "yes"@) {
                let (a, d2) = self.deleted(d);
                (a, d2, ActionView::Nothing)
            } else {
                (self.with_status("Delete cancelled."@), d, ActionView::Nothing)
            },
            InputMode::Normal => (self, d, ActionView::Nothing),
        }
    }

    /// What a key does while a text is being typed.
    pub open spec fn input_key(self, d: Disk, key: Key, now: Stamp) -> (AppView, Disk, ActionView) {
        match key {
            Key::Esc => (
                AppView { input_mode: InputMode::Normal, ..self }.with_status("Cancelled."@),
                d,
                ActionView::Nothing,
            ),
            Key::Enter => {
                let (a, d2, action) = self.submitted(d, now);
                (AppView { input_mode: InputMode::Normal, ..a }, d2, action)
            },
            Key::Backspace => (
                AppView {
                    input_buffer: if self.input_buffer.len() > 0 {
                        self.input_buffer.drop_last()
                    } else {
                        self.input_buffer
                    },
                    ..self
                },
                d,
                ActionView::Nothing,
            ),
            Key::Char(c) => (
                AppView {
                    input_buffer: if self.input_mode == InputMode::ConfirmDelete {
                        seq![c]
                    } else {
                        self.input_buffer.push(c)
                    },
                    ..self
                },
                d,
                ActionView::Nothing,
            ),
            _ => (self, d, ActionView::Nothing),
        }
    }
}

// ---------------------------------------------------------------------------
// Text
// ---------------------------------------------------------------------------

pub(crate) fn text2(a: &str, b: &str) -> (s: String)
    ensures
        s@ == a@ + b@,
{
    let mut s = a.to_owned();
    vstd::string::StringExecFns::append(&mut s, b);
    s
}

pub(crate) fn text3(a: &str, b: &str, c: &str) -> (s: String)
    ensures
        s@ == a@ + b@ + c@,
{
    let mut s = text2(a, b);
    vstd::string::StringExecFns::append(&mut s, c);
    s
}

pub(crate) fn text5(a: &str, b: &str, c: &str, d: &str, e: &str) -> (s: String)
    ensures
        s@ == a@ + b@ + c@ + d@ + e@,
{
    let mut s = text3(a, b, c);
    vstd::string::StringExecFns::append(&mut s, d);
    vstd::string::StringExecFns::append(&mut s, e);
    s
}

pub(crate) fn number_text(n: u64) -> (s: String)
    ensures
        s@ == decimal(n as nat),
{
    let mut s = String::new();
    push_decimal(&mut s, n);
    assert(s@ =~= decimal(n as nat));
    s
}

/// A path made of a directory and a name.
pub(crate) fn joined(dir: &str, name: &str) -> (s: String)
    ensures
        s@ == join_path(dir@, name@),
{
    let n = chars_of(name);
    if n.len() > 0 && n[0] == '/' {
        return name.to_owned();
    }
    let d = chars_of(dir);
    if d.len() == 0 || d[d.len() - 1] == '/' {
        text2(dir, name)
    } else {
        let mut s = dir.to_owned();
        s.push('/');
        vstd::string::StringExecFns::append(&mut s, name);
        s
    }
}

// ---------------------------------------------------------------------------
// The browser
// ---------------------------------------------------------------------------

impl App {
    /// A browser at the root directory, with nothing listed yet.
    pub fn new(partition_name: &str, device_display: &str, download_dir: &str) -> (a: App)
        ensures
            a@ == (AppView {
                cwd: "/"@,
                entries: seq![],
                selected: None,
                status: "Loading..."@,
                status_is_error: false,
                partition_name: partition_name@,
                device_display: device_display@,
                should_quit: false,
                input_mode: InputMode::Normal,
                input_buffer: seq![],
                input_prompt: seq![],
                download_dir: download_dir@,
            }),
    {
        let a = App {
            cwd: "/".to_owned(),
            entries: Vec::new(),
            selected: None,
            status: "Loading...".to_owned(),
            status_is_error: false,
            partition_name: partition_name.to_owned(),
            device_display: device_display.to_owned(),
            should_quit: false,
            input_mode: InputMode::Normal,
            input_buffer: String::new(),
            input_prompt: String::new(),
            download_dir: download_dir.to_owned(),
        };
        assert(a@.entries =~= seq![]);
        assert(a@.input_buffer =~= seq![]);
        assert(a@.input_prompt =~= seq![]);
        a
    }

    /// The entry that is selected.
    pub fn selected_entry(&self) -> (r: Option<&DisplayEntry>)
        ensures
            match r {
                Some(e) => self@.selected_entry() == Some(e@),
                None => self@.selected_entry() is None,
            },
    {
        match self.selected {
            Some(i) => if i < self.entries.len() {
                assert(self@.entries[i as int] == self.entries@[i as int]@);
                Some(&self.entries[i])
            } else {
                None
            },
            None => None,
        }
    }

    /// The name of the entry that is selected.
    pub fn selected_name(&self) -> (r: Option<String>)
        ensures
            match r {
                Some(name) => self@.selected_entry() matches Some(e) && e.name == name@,
                None => self@.selected_entry() is None,
            },
    {
        match self.selected_entry() {
            Some(e) => Some(e.name.clone()),
            None => None,
        }
    }

    /// Shows a message.
    pub fn set_status(&mut self, msg: &str)
        ensures
            final(self)@ == old(self)@.with_status(msg@),
    {
        self.status = msg.to_owned();
        self.status_is_error = false;
    }

    /// Shows a message about a failure.
    pub fn set_error(&mut self, msg: &str)
        ensures
            final(self)@ == old(self)@.with_error(msg@),
    {
        self.status = msg.to_owned();
        self.status_is_error = true;
    }

    /// The path of a name in the directory that is shown.
    pub fn full_path(&self, name: &str) -> (path: String)
        ensures
            path@ == self@.full_path(name@),
    {
        if same_text(self.cwd.as_str(), "/") {
            text2("/", name)
        } else {
            text3(self.cwd.as_str(), "/", name)
        }
    }

    /// Asks for a text.
    pub(crate) fn ask(&mut self, mode: InputMode, prompt: String, buffer: String)
        ensures
            final(self)@ == old(self)@.ask(mode, prompt@, buffer@),
    {
        self.input_mode = mode;
        self.input_prompt = prompt;
        self.input_buffer = buffer;
    }

    /// The header: the partition, the device and the directory.
    pub fn header_text(&self) -> (s: String)
        ensures
            s@ == " \u{1F4E6} "@ + self@.partition_name + " — "@ + self@.device_display + " — "@
                + self@.cwd,
    {
        let mut s = text5(
            " \u{1F4E6} ",
            self.partition_name.as_str(),
            " — ",
            self.device_display.as_str(),
            " — ",
        );
        vstd::string::StringExecFns::append(&mut s, self.cwd.as_str());
        s
    }

    /// The bottom line: the text being typed, or else the message.
    pub fn bar_text(&self) -> (s: String)
        ensures
            s@ == (if self@.input_mode != InputMode::Normal {
                " "@ + self@.input_prompt + " "@ + self@.input_buffer
            } else {
                " "@ + self@.status
            }),
    {
        if self.input_mode != InputMode::Normal {
            let mut s = text3(" ", self.input_prompt.as_str(), " ");
            vstd::string::StringExecFns::append(&mut s, self.input_buffer.as_str());
            s
        } else {
            text2(" ", self.status.as_str())
        }
    }
}

fn lines_of(entries: &Vec<DirectoryEntry>) -> (lines: Vec<DisplayEntry>)
    ensures
        display_views(lines@) == listing_lines(entry_views(entries@)),
{
    let ghost want = entry_views(entries@).map_values(|e: DirentView| display_of(e));
    let mut lines: Vec<DisplayEntry> = Vec::new();
    assert(display_views(lines@) =~= want.take(0));
    let mut i: usize = 0;
    while i < entries.len()
        invariant
            i <= entries.len(),
            want == entry_views(entries@).map_values(|e: DirentView| display_of(e)),
            display_views(lines@) == want.take(i as int),
        decreases entries.len() - i,
    {
        let ghost before = lines@;
        let line = make_line(&entries[i]);
        lines.push(line);
        assert(want[i as int] == line@);
        assert(display_views(lines@) =~= display_views(before).push(line@));
        assert(display_views(lines@) =~= want.take(i + 1));
        i = i + 1;
    }
    assert(want.take(want.len() as int) =~= want);
    sort_lines(lines)
}

/// Lists the directory anew.
pub fn refresh_entries<D: Device>(app: &mut App, vol: &mut FatxVolume<D>)
    requires
        old(vol).wf(),
    ensures
        final(vol).same_as(old(vol)),
        final(app)@ == old(app)@.refreshed(old(vol)@) || !old(vol).reliable() && old(app)@.gave_up(
            final(app)@,
        ),
{
    let dir = match vol.resolve_path(app.cwd.as_str()) {
        Ok(dir) => dir,
        Err(e) => {
            app.set_error(text2("Error: ", e.message().as_str()).as_str());
            return;
        },
    };
    match vol.read_directory(dir.first_cluster) {
        Ok(entries) => {
            app.entries = lines_of(&entries);
            if app.entries.len() > 0 {
                app.selected = Some(0);
                let count = number_text(app.entries.len() as u64);
                app.set_status(
                    text2(
                        count.as_str(),
                        " item(s) — ↑↓ navigate, Enter open, d download, u upload, q quit",
                    ).as_str(),
                );
            } else {
                app.selected = None;
                app.set_status(
                    "(empty directory) — Backspace to go up, u to upload, n to mkdir, q to quit",
                );
            }
        },
        Err(e) => {
            app.set_error(text2("Error reading directory: ", e.message().as_str()).as_str());
            app.entries = Vec::new();
            assert(display_views(app.entries@) =~= seq![]);
        },
    }
}

} // verus!
