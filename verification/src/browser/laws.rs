//! Laws of browsing.

use vstd::prelude::*;
use crate::browser::app::{AppView, Key};
use crate::disk::Disk;
use crate::path::name_start;

verus! {

/// A line is selected, and it is one of those shown.
pub open spec fn selection_valid(a: AppView) -> bool {
    a.selected matches Some(i) && i < a.entries.len()
}

/// Moving about in a listing never leaves it.
pub proof fn law_moving_stays_in_listing(a: AppView, d: Disk, key: Key)
    requires
        selection_valid(a),
        a.entries.len() <= usize::MAX,
        key == Key::Up || key == Key::Down || key == Key::Home || key == Key::End || key
            == Key::PageUp || key == Key::PageDown,
    ensures
        selection_valid(a.normal_key(d, key)),
        a.normal_key(d, key).entries == a.entries,
{
}

/// A listing that has been read anew has its first line selected, or none if it is empty.
pub proof fn law_refresh_selects_first(a: AppView, d: Disk)
    requires
        d.resolve(a.cwd) is Ok,
        d.entries(d.resolve(a.cwd)->Ok_0.first_cluster) is Ok,
    ensures
        ({
            let r = a.refreshed(d);
            r.selected == (if r.entries.len() > 0 {
                Some(0usize)
            } else {
                None
            })
        }),
{
}

proof fn lemma_start_of_name(s: Seq<char>, k: nat, n: nat)
    requires
        k <= n <= s.len(),
        k > 0 ==> s[k - 1] == '/',
        forall|i: int| k <= i < n ==> s[i] != '/',
    ensures
        name_start(s, n) == k,
    decreases n,
{
    if n > k {
        lemma_start_of_name(s, k, (n - 1) as nat);
    }
}

/// Going up undoes entering a directory.
pub proof fn law_up_undoes_enter(a: AppView, d: Disk, name: Seq<char>)
    requires
        name.len() > 0,
        !name.contains('/'),
        a.cwd.len() > 0,
    ensures
        (AppView { cwd: a.full_path(name), ..a }).go_up(d).cwd == a.cwd,
{
    reveal_strlit("/");
    let deeper = a.full_path(name);
    let root = "/"@;
    assert(root =~= seq!['/']);
    let k = if a.cwd == root {
        1nat
    } else {
        a.cwd.len() + 1
    };
    assert(deeper.len() == k + name.len());
    assert(deeper[k - 1] == '/');
    assert forall|i: int| k <= i < deeper.len() implies deeper[i] != '/' by {
        assert(deeper[i] == name[i - k]);
        assert(name.contains(name[i - k]));
    }
    lemma_start_of_name(deeper, k, deeper.len());
    assert(deeper != root);
    if a.cwd != root {
        assert(deeper.take(k - 1) =~= a.cwd);
    }
}

} // verus!
