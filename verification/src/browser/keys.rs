//! What keys do.

use vstd::prelude::*;
use crate::browser::app::{
    joined, number_text, refresh_entries, stats_text, text2, text3, text5, Action, ActionView, App,
    AppView, Found, FoundView, InputMode, Key,
};
use crate::device::Device;
use crate::disk::{Disk, Stamp};
use crate::mkimage::format_bytes;
use crate::path::name_start;
use crate::text::{chars_of, same_text, string_of};
use crate::volume::FatxVolume;

verus! {

/// Shows the directory above.
fn go_up<D: Device>(app: &mut App, vol: &mut FatxVolume<D>)
    requires
        old(vol).wf(),
    ensures
        final(vol).same_as(old(vol)),
        final(app)@ == old(app)@.go_up(old(vol)@) || !old(vol).reliable() && (old(app)@.before_read(
            Key::Left,
        ) matches Some(a) && a.gave_up(final(app)@)),
{
    if same_text(app.cwd.as_str(), "/") {
        return;
    }
    let v = chars_of(app.cwd.as_str());
    let n: usize = v.len();
    let mut k: usize = n;
    while k > 0 && v[k - 1] != '/'
        invariant
            k <= n == v.len(),
            name_start(v@, k as nat) == name_start(v@, n as nat),
        decreases k,
    {
        k = k - 1;
    }
    if k == 0 {
        return;
    }
    if k == 1 {
        app.cwd = "/".to_owned();
    } else {
        let up = string_of(&v, 0, k - 1);
        assert(up@ =~= v@.take(k - 1));
        app.cwd = up;
    }
    refresh_entries(app, vol);
}

/// Opens what is selected.
fn enter<D: Device>(app: &mut App, vol: &mut FatxVolume<D>)
    requires
        old(vol).wf(),
    ensures
        final(vol).same_as(old(vol)),
        final(app)@ == old(app)@.enter(old(vol)@) || !old(vol).reliable() && (old(app)@.before_read(
            Key::Enter,
        ) matches Some(a) && a.gave_up(final(app)@)),
{
    let (is_dir, name, size) = match app.selected_entry() {
        Some(e) => (e.is_dir, e.name.clone(), e.size),
        None => return,
    };
    if is_dir {
        app.cwd = app.full_path(name.as_str());
        refresh_entries(app, vol);
    } else {
        let shown = format_bytes(size);
        app.set_status(
            text5("'", name.as_str(), "' — ", shown.as_str(), " — press 'd' to download").as_str(),
        );
    }
}

/// Opens the directory that is selected.
fn go_in<D: Device>(app: &mut App, vol: &mut FatxVolume<D>)
    requires
        old(vol).wf(),
    ensures
        final(vol).same_as(old(vol)),
        final(app)@ == old(app)@.go_in(old(vol)@) || !old(vol).reliable() && (old(app)@.before_read(
            Key::Right,
        ) matches Some(a) && a.gave_up(final(app)@)),
{
    let is_dir = match app.selected_entry() {
        Some(e) => e.is_dir,
        None => false,
    };
    if is_dir {
        enter(app, vol);
    }
}

/// Shows how much of the volume is in use.
fn show_stats<D: Device>(app: &mut App, vol: &mut FatxVolume<D>)
    requires
        old(vol).wf(),
    ensures
        final(vol).same_as(old(vol)),
        final(app)@ == old(app)@.normal_char(old(vol)@, 'i') || !old(vol).reliable() && old(
            app,
        )@.gave_up(final(app)@),
{
    match vol.stats() {
        Ok(stats) => {
            let used = format_bytes(stats.used_size);
            let free = format_bytes(stats.free_size);
            let mut s = text5(
                "Volume: ",
                app.partition_name.as_str(),
                " | Used: ",
                used.as_str(),
                " | Free: ",
            );
            let clusters = number_text(stats.used_clusters as u64);
            let total = number_text(stats.total_clusters as u64);
            let rest = text5(
                free.as_str(),
                " | Clusters: ",
                clusters.as_str(),
                "/",
                total.as_str(),
            );
            vstd::string::StringExecFns::append(&mut s, rest.as_str());
            proof {
                let d = old(vol)@;
                let size = d.geo.cluster_size();
                assert(s@ =~= stats_text(
                    app@.partition_name,
                    stats.used_size as nat,
                    stats.free_size as nat,
                    stats.used_clusters as nat,
                    stats.total_clusters as nat,
                ));
            }
            app.set_status(s.as_str());
        },
        Err(e) => app.set_error(text2("Stats error: ", e.message().as_str()).as_str()),
    }
}

/// Asks where to download what is selected to.
fn ask_download(app: &mut App, Ghost(d): Ghost<Disk>)
    ensures
        final(app)@ == old(app)@.normal_char(d, 'd'),
{
    let (is_dir, name) = match app.selected_entry() {
        Some(e) => (e.is_dir, e.name.clone()),
        None => return,
    };
    if is_dir {
        app.set_error("Cannot download a directory (select a file)");
        return;
    }
    let default = joined(app.download_dir.as_str(), name.as_str());
    let prompt = text3("Download '", name.as_str(), "' to:");
    app.ask(InputMode::DownloadPath, prompt, default);
}

/// Asks whether to delete what is selected.
fn ask_delete(app: &mut App, Ghost(d): Ghost<Disk>)
    ensures
        final(app)@ == old(app)@.normal_char(d, 'D'),
{
    let (is_dir, name) = match app.selected_entry() {
        Some(e) => (e.is_dir, e.name.clone()),
        None => return,
    };
    let kind = if is_dir { "directory" } else { "file" };
    let prompt = text5("Delete ", kind, " '", name.as_str(), "'? (y/n)");
    let nothing = String::new();
    assert(nothing@ =~= seq![]);
    app.ask(InputMode::ConfirmDelete, prompt, nothing);
}

/// Asks for a new name of what is selected.
fn ask_rename(app: &mut App, Ghost(d): Ghost<Disk>)
    ensures
        final(app)@ == old(app)@.normal_char(d, 'r'),
{
    let name = match app.selected_name() {
        Some(name) => name,
        None => return,
    };
    let prompt = text3("Rename '", name.as_str(), "' to:");
    app.ask(InputMode::RenameName, prompt, name);
}

/// Handles a letter while browsing.
fn handle_normal_char<D: Device>(app: &mut App, vol: &mut FatxVolume<D>, c: char)
    requires
        old(vol).wf(),
    ensures
        final(vol).same_contents(old(vol)),
        c == 'q' && old(vol).reliable() ==> final(vol).stored() == final(vol)@.bytes,
        final(app)@ == old(app)@.normal_char(old(vol)@, c) || !old(vol).reliable() && c == 'i'
            && old(app)@.gave_up(final(app)@),
{
    if c == 'q' {
        let _ = vol.flush();
        app.should_quit = true;
    } else if c == 'k' {
        move_up(app);
    } else if c == 'j' {
        move_down(app);
    } else if c == 'd' {
        ask_download(app, Ghost(vol@));
    } else if c == 'u' {
        let prompt = text3("Upload local file to '", app.cwd.as_str(), "':");
        let default = app.download_dir.clone();
        app.ask(InputMode::UploadPath, prompt, default);
    } else if c == 'n' || c == 'm' {
        let nothing = String::new();
        assert(nothing@ =~= seq![]);
        app.ask(InputMode::MkdirName, "New directory name:".to_owned(), nothing);
    } else if c == 'D' {
        ask_delete(app, Ghost(vol@));
    } else if c == 'r' {
        ask_rename(app, Ghost(vol@));
    } else if c == 'i' {
        show_stats(app, vol);
    }
}

fn move_up(app: &mut App)
    ensures
        final(app)@ == old(app)@.move_up(),
{
    match app.selected {
        Some(sel) => {
            if sel > 0 {
                app.selected = Some(sel - 1);
            }
        },
        None => {},
    }
}

fn move_down(app: &mut App)
    ensures
        final(app)@ == old(app)@.move_down(),
{
    match app.selected {
        Some(sel) => {
            if app.entries.len() > 0 && sel < app.entries.len() - 1 {
                app.selected = Some(sel + 1);
            }
        },
        None => {},
    }
}

/// Handles a key while browsing.
pub fn handle_normal_key<D: Device>(app: &mut App, vol: &mut FatxVolume<D>, key: Key)
    requires
        old(vol).wf(),
    ensures
        final(vol).same_contents(old(vol)),
        (key == Key::Esc || key == Key::Char('q')) && old(vol).reliable() ==> final(vol).stored() == final(vol)@.bytes,
        old(vol).reliable() || old(app)@.before_read(key) is None ==> final(app)@ == old(
            app,
        )@.normal_key(old(vol)@, key),
        final(app)@ == old(app)@.normal_key(old(vol)@, key) || (old(app)@.before_read(
            key,
        ) matches Some(a) && a.gave_up(final(app)@)),
{
    let len: usize = app.entries.len();
    match key {
        Key::Esc => {
            let _ = vol.flush();
            app.should_quit = true;
        },
        Key::Up => move_up(app),
        Key::Down => move_down(app),
        Key::Home => {
            if len > 0 {
                app.selected = Some(0);
            }
        },
        Key::End => {
            if len > 0 {
                app.selected = Some(len - 1);
            }
        },
        Key::PageDown => {
            match app.selected {
                Some(sel) => {
                    let last: usize = if len > 0 { len - 1 } else { 0 };
                    app.selected = Some(
                        if sel >= last || last - sel < 20 {
                            last
                        } else {
                            sel + 20
                        },
                    );
                },
                None => {},
            }
        },
        Key::PageUp => {
            match app.selected {
                Some(sel) => {
                    app.selected = Some(if sel >= 20 { sel - 20 } else { 0 });
                },
                None => {},
            }
        },
        Key::Enter => enter(app, vol),
        Key::Right => go_in(app, vol),
        Key::Backspace => go_up(app, vol),
        Key::Left => go_up(app, vol),
        Key::Char(c) => handle_normal_char(app, vol, c),
        Key::Other => {},
    }
}

/// Reads the selected file, to be written to the local disk.
fn do_download<D: Device>(app: &mut App, vol: &mut FatxVolume<D>, local_path: String) -> (a: Action)
    requires
        old(vol).wf(),
    ensures
        final(vol).same_as(old(vol)),
        (final(app)@, a@) == old(app)@.downloading(old(vol)@, local_path@) || !old(vol).reliable()
            && old(app)@.selected_entry() is Some && old(app)@.gave_up(final(app)@) && a@
            == ActionView::Nothing,
{
    let name = match app.selected_name() {
        Some(name) => name,
        None => {
            app.set_error("No file selected");
            return Action::Nothing;
        },
    };
    let path = app.full_path(name.as_str());
    match vol.read_file_by_path(path.as_str()) {
        Ok(data) => {
            app.set_status(text3("Downloading '", name.as_str(), "'...").as_str());
            Action::SaveFile { name, local_path, data }
        },
        Err(e) => {
            app.set_error(text2("Read error: ", e.message().as_str()).as_str());
            Action::Nothing
        },
    }
}

/// A change of the volume that went well has reached the medium, if the device is one that
/// never fails for reasons of its own.
pub open spec fn change_stored<D: Device>(
    before: FatxVolume<D>,
    app: AppView,
    after: FatxVolume<D>,
) -> bool {
    before.reliable() && after@ != before@ && !app.status_is_error ==> after.stored() == after@.bytes
}

/// Makes a directory.
fn do_mkdir<D: Device>(app: &mut App, vol: &mut FatxVolume<D>, name: &str, now: Stamp)
    requires
        old(vol).wf(),
    ensures
        final(vol).keeps(old(vol)),
        change_stored(*old(vol), final(app)@, *final(vol)),
        (final(app)@, final(vol)@) == old(app)@.made_directory(old(vol)@, name@, now) || !old(
            vol,
        ).reliable() && name@.len() > 0 && old(app)@.gave_up(final(app)@),
{
    if name.is_empty() {
        app.set_error("Name cannot be empty");
        return;
    }
    let path = app.full_path(name);
    match vol.create_directory_at(path.as_str(), now) {
        Ok(_) => {
            let _ = vol.flush();
            app.set_status(text3("Created directory '", name, "'").as_str());
            refresh_entries(app, vol);
        },
        Err(e) => app.set_error(text2("Mkdir error: ", e.message().as_str()).as_str()),
    }
}

/// Deletes what is selected.
fn do_delete<D: Device>(app: &mut App, vol: &mut FatxVolume<D>)
    requires
        old(vol).wf(),
    ensures
        final(vol).keeps(old(vol)),
        change_stored(*old(vol), final(app)@, *final(vol)),
        (final(app)@, final(vol)@) == old(app)@.deleted(old(vol)@) || !old(vol).reliable() && old(
            app,
        )@.selected_entry() is Some && old(app)@.gave_up(final(app)@),
{
    let name = match app.selected_name() {
        Some(name) => name,
        None => {
            app.set_error("No file selected");
            return;
        },
    };
    let path = app.full_path(name.as_str());
    match vol.delete(path.as_str()) {
        Ok(_) => {
            let _ = vol.flush();
            app.set_status(text3("Deleted '", name.as_str(), "'").as_str());
            refresh_entries(app, vol);
        },
        Err(e) => app.set_error(text2("Delete error: ", e.message().as_str()).as_str()),
    }
}

/// Gives what is selected another name.
fn do_rename<D: Device>(app: &mut App, vol: &mut FatxVolume<D>, new_name: &str)
    requires
        old(vol).wf(),
    ensures
        final(vol).keeps(old(vol)),
        change_stored(*old(vol), final(app)@, *final(vol)),
        (final(app)@, final(vol)@) == old(app)@.renamed(old(vol)@, new_name@) || !old(
            vol,
        ).reliable() && old(app)@.selected_entry() is Some && new_name@.len() > 0 && old(
            app,
        )@.gave_up(final(app)@),
{
    let old_name = match app.selected_name() {
        Some(name) => name,
        None => {
            app.set_error("No file selected");
            return;
        },
    };
    if new_name.is_empty() {
        app.set_error("Name cannot be empty");
        return;
    }
    let path = app.full_path(old_name.as_str());
    match vol.rename(path.as_str(), new_name) {
        Ok(_) => {
            let _ = vol.flush();
            app.set_status(text5("Renamed '", old_name.as_str(), "' → '", new_name, "'").as_str());
            refresh_entries(app, vol);
        },
        Err(e) => app.set_error(text2("Rename error: ", e.message().as_str()).as_str()),
    }
}

/// Uses the text that has been typed.
fn submit<D: Device>(app: &mut App, vol: &mut FatxVolume<D>, now: Stamp) -> (a: Action)
    requires
        old(vol).wf(),
    ensures
        final(vol).keeps(old(vol)),
        change_stored(*old(vol), final(app)@, *final(vol)),
        (final(app)@, final(vol)@, a@) == old(app)@.submitted(old(vol)@, now) || !old(
            vol,
        ).reliable() && old(app)@.submits() && old(app)@.gave_up(final(app)@) && a@
            == ActionView::Nothing,
        old(app)@.input_mode == InputMode::DownloadPath ==> final(vol)@ == old(vol)@,
{
    let input = app.input_buffer.clone();
    match app.input_mode {
        InputMode::DownloadPath => do_download(app, vol, input),
        InputMode::UploadPath => Action::LoadFile { local_path: input },
        InputMode::MkdirName => {
            do_mkdir(app, vol, input.as_str(), now);
            Action::Nothing
        },
        InputMode::RenameName => {
            do_rename(app, vol, input.as_str());
            Action::Nothing
        },
        InputMode::ConfirmDelete => {
            if input.as_str().eq_ignore_ascii_case("y") || input.as_str().eq_ignore_ascii_case(
                "yes",
            ) {
                do_delete(app, vol);
            } else {
                app.set_status("Delete cancelled.");
            }
            Action::Nothing
        },
        InputMode::Normal => Action::Nothing,
    }
}

/// Handles a key while a text is being typed.
pub fn handle_input_key<D: Device>(
    app: &mut App,
    vol: &mut FatxVolume<D>,
    key: Key,
    now: Stamp,
) -> (a: Action)
    requires
        old(vol).wf(),
    ensures
        final(vol).keeps(old(vol)),
        change_stored(*old(vol), final(app)@, *final(vol)),
        old(vol).reliable() || key != Key::Enter || !old(app)@.submits() ==> (
            final(app)@,
            final(vol)@,
            a@,
        ) == old(app)@.input_key(old(vol)@, key, now),
        (final(app)@, final(vol)@, a@) == old(app)@.input_key(old(vol)@, key, now) || a@
            == ActionView::Nothing && (AppView {
            input_mode: InputMode::Normal,
            ..old(app)@
        }).gave_up(final(app)@),
        old(app)@.input_mode == InputMode::DownloadPath ==> final(vol)@ == old(vol)@,
{
    match key {
        Key::Esc => {
            app.input_mode = InputMode::Normal;
            app.set_status("Cancelled.");
            Action::Nothing
        },
        Key::Enter => {
            let action = submit(app, vol, now);
            app.input_mode = InputMode::Normal;
            action
        },
        Key::Backspace => {
            let v = chars_of(app.input_buffer.as_str());
            if v.len() > 0 {
                let shorter = string_of(&v, 0, v.len() - 1);
                assert(shorter@ =~= v@.drop_last());
                app.input_buffer = shorter;
            }
            Action::Nothing
        },
        Key::Char(c) => {
            if app.input_mode == InputMode::ConfirmDelete {
                let mut s = String::new();
                s.push(c);
                assert(s@ =~= seq![c]);
                app.input_buffer = s;
            } else {
                app.input_buffer.push(c);
            }
            Action::Nothing
        },
        _ => Action::Nothing,
    }
}

/// Reports what came of writing a downloaded file to the local disk.
pub fn finish_download(
    app: &mut App,
    name: &str,
    shown_path: &str,
    parent: &str,
    len: u64,
    failure: Option<String>,
)
    ensures
        final(app)@ == old(app)@.saved(
            name@,
            shown_path@,
            parent@,
            len as nat,
            match failure {
                Some(words) => Some(words@),
                None => None,
            },
        ),
{
    match failure {
        None => {
            app.download_dir = parent.to_owned();
            let size = format_bytes(len);
            let mut s = text5("Downloaded '", name, "' → ", shown_path, " (");
            vstd::string::StringExecFns::append(&mut s, size.as_str());
            vstd::string::StringExecFns::append(&mut s, ")");
            app.set_status(s.as_str());
        },
        Some(words) => app.set_error(text2("Write error: ", words.as_str()).as_str()),
    }
}

/// Puts a file on the volume.
fn do_upload<D: Device>(
    app: &mut App,
    vol: &mut FatxVolume<D>,
    filename: String,
    parent: String,
    data: Vec<u8>,
    now: Stamp,
)
    requires
        old(vol).wf(),
    ensures
        final(vol).keeps(old(vol)),
        change_stored(*old(vol), final(app)@, *final(vol)),
        (final(app)@, final(vol)@) == old(app)@.loaded(
            old(vol)@,
            (FoundView::File { filename: filename@, parent: parent@, data: data@ }),
            now,
        ) || !old(vol).reliable() && (old(app)@.gave_up(final(app)@) || (AppView {
            download_dir: parent@,
            ..old(app)@
        }).gave_up(final(app)@)),
{
    let path = app.full_path(filename.as_str());
    match vol.create_file_at(path.as_str(), data.as_slice(), now) {
        Ok(_) => {
            let _ = vol.flush();
            app.download_dir = parent;
            refresh_entries(app, vol);
        },
        Err(e) => app.set_error(text2("Upload error: ", e.message().as_str()).as_str()),
    }
}

/// Puts what has been found on the local disk on the volume.
pub fn finish_upload<D: Device>(app: &mut App, vol: &mut FatxVolume<D>, found: Found, now: Stamp)
    requires
        old(vol).wf(),
    ensures
        final(vol).keeps(old(vol)),
        change_stored(*old(vol), final(app)@, *final(vol)),
        old(vol).reliable() || !(found is File) ==> (final(app)@, final(vol)@) == old(app)@.loaded(
            old(vol)@,
            found@,
            now,
        ),
        (final(app)@, final(vol)@) == old(app)@.loaded(old(vol)@, found@, now) || (AppView {
            download_dir: final(app)@.download_dir,
            ..old(app)@
        }).gave_up(final(app)@),
{
    match found {
        Found::Missing { path } => app.set_error(text2("File not found: ", path.as_str()).as_str()),
        Found::NoName => app.set_error("Invalid filename"),
        Found::Unreadable { words } => app.set_error(
            text2("Read local error: ", words.as_str()).as_str(),
        ),
        Found::File { filename, parent, data } => do_upload(app, vol, filename, parent, data, now),
    }
}

} // verus!
