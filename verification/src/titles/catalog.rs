//! The catalog of known titles, merged from one list for each console.

use vstd::prelude::*;
use std::collections::HashMap;

verus! {

/// The list or lists that a title stands in.
#[derive(Debug, Clone, Copy, PartialEq, Eq, Structural)]
pub enum Source {
    Xbox360,
    XboxOriginal,
    Both,
}

/// What the catalog knows of a title.
#[derive(Debug, Clone, Copy)]
pub struct TitleInfo<'a> {
    pub name: &'a str,
    pub source: Source,
}

/// A title with the name it has in a list.
pub struct ListedTitle {
    pub title_id: u32,
    pub name: String,
}

/// What a list says of a title: its last line on it counts.
pub open spec fn listed_name(list: Seq<ListedTitle>, title_id: u32) -> Option<Seq<char>>
    decreases list.len(),
{
    if list.len() == 0 {
        None
    } else if list.last().title_id == title_id {
        Some(list.last().name@)
    } else {
        listed_name(list.drop_last(), title_id)
    }
}

/// What the two lists together say of a title: the name in the list of the original console
/// counts where both have one.
pub open spec fn merged(
    xbox360: Seq<ListedTitle>,
    original: Seq<ListedTitle>,
    title_id: u32,
) -> Option<(Seq<char>, Source)> {
    match (listed_name(xbox360, title_id), listed_name(original, title_id)) {
        (None, None) => None,
        (Some(name), None) => Some((name, Source::Xbox360)),
        (None, Some(name)) => Some((name, Source::XboxOriginal)),
        (Some(_), Some(name)) => Some((name, Source::Both)),
    }
}

/// The titles of both consoles.
pub struct Catalog {
    xbox360: HashMap<u32, String>,
    original: HashMap<u32, String>,
}

/// The name that a map has for a title.
spec fn name_in(map: Map<u32, String>, title_id: u32) -> Option<Seq<char>> {
    if map.dom().contains(title_id) {
        Some(map[title_id]@)
    } else {
        None
    }
}

/// Puts the names of a list in a map.
fn index(list: &Vec<ListedTitle>) -> (map: HashMap<u32, String>)
    ensures
        forall|id: u32| #[trigger] name_in(map@, id) == listed_name(list@, id),
{
    let mut map: HashMap<u32, String> = HashMap::new();
    let mut i: usize = 0;
    assert(list@.take(0) =~= seq![]);
    while i < list.len()
        invariant
            i <= list.len(),
            forall|id: u32|
                #[trigger] name_in(map@, id) == listed_name(list@.take(i as int), id),
        decreases list.len() - i,
    {
        let ghost before = map@;
        assert(list@.take(i + 1).drop_last() =~= list@.take(i as int));
        let name = list[i].name.as_str().to_owned();
        map.insert(list[i].title_id, name);
        assert forall|id: u32| #[trigger] name_in(map@, id) == listed_name(
            list@.take(i + 1),
            id,
        ) by {
            assert(name_in(before, id) == listed_name(list@.take(i as int), id));
        }
        i = i + 1;
    }
    assert(list@.take(i as int) =~= list@);
    map
}

impl Catalog {
    /// What the catalog knows of a title.
    pub closed spec fn knows(&self, title_id: u32) -> Option<(Seq<char>, Source)> {
        match (name_in(self.xbox360@, title_id), name_in(self.original@, title_id)) {
            (None, None) => None,
            (Some(name), None) => Some((name, Source::Xbox360)),
            (None, Some(name)) => Some((name, Source::XboxOriginal)),
            (Some(_), Some(name)) => Some((name, Source::Both)),
        }
    }

    /// The catalog made of a list for each console.
    pub fn merge(xbox360: &Vec<ListedTitle>, original: &Vec<ListedTitle>) -> (c: Catalog)
        ensures
            forall|id: u32| #[trigger] c.knows(id) == merged(xbox360@, original@, id),
    {
        let a = index(xbox360);
        let b = index(original);
        let c = Catalog { xbox360: a, original: b };
        assert forall|id: u32| #[trigger] c.knows(id) == merged(xbox360@, original@, id) by {
            assert(name_in(a@, id) == listed_name(xbox360@, id));
            assert(name_in(b@, id) == listed_name(original@, id));
        }
        c
    }
}

/// What the catalog knows of a title; nothing for titles that are in neither list.
pub fn lookup<'a>(catalog: &'a Catalog, title_id: u32) -> (info: Option<TitleInfo<'a>>)
    ensures
        match (info, catalog.knows(title_id)) {
            (Some(t), Some(k)) => t.name@ == k.0 && t.source == k.1,
            (None, None) => true,
            _ => false,
        },
{
    match (catalog.xbox360.get(&title_id), catalog.original.get(&title_id)) {
        (None, None) => None,
        (Some(name), None) => Some(TitleInfo { name: name.as_str(), source: Source::Xbox360 }),
        (None, Some(name)) => Some(
            TitleInfo { name: name.as_str(), source: Source::XboxOriginal },
        ),
        (Some(_), Some(name)) => Some(TitleInfo { name: name.as_str(), source: Source::Both }),
    }
}

} // verus!
