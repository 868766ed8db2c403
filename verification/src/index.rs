//! The in-memory index: a concurrent map from key to the position of the
//! record that currently holds the key's value.  The map itself comes from
//! the `dashmap` crate; verified code sees it through the contracts below.

use vstd::prelude::*;

verus! {

/// Where one record lies: the segment's number and the character range
/// `[pos, pos + len)` inside that segment's data.
#[derive(Debug, Clone, Copy)]
pub struct CommandPos {
    pub walfile_num: u64,
    pub pos: u64,
    pub len: u64,
}

impl View for CommandPos {
    type V = (u64, u64, u64);

    open spec fn view(&self) -> (u64, u64, u64) {
        (self.walfile_num, self.pos, self.len)
    }
}

#[verifier::external_type_specification]
#[verifier::external_body]
#[verifier::reject_recursive_types(K)]
#[verifier::reject_recursive_types(V)]
#[verifier::reject_recursive_types(S)]
pub struct ExDashMap<K, V, S>(dashmap::DashMap<K, V, S>);

/// What the map holds, as a mathematical map from key characters to a
/// position triple.
pub uninterp spec fn dm_contents(
    m: &dashmap::DashMap<String, CommandPos>,
) -> Map<Seq<char>, (u64, u64, u64)>;

/// Relies on dashmap::DashMap::new: the fresh map is empty.
#[verifier::external_body]
pub fn dm_new() -> (res: dashmap::DashMap<String, CommandPos>)
    ensures
        dm_contents(&res) =~= Map::empty(),
{
    dashmap::DashMap::new()
}

/// Relies on dashmap::DashMap::insert: maps the key to the value and
/// returns the value the key held before, if any.
#[verifier::external_body]
pub fn dm_insert(
    m: &mut dashmap::DashMap<String, CommandPos>,
    key: String,
    value: CommandPos,
) -> (displaced: Option<CommandPos>)
    ensures
        dm_contents(final(m)) == dm_contents(old(m)).insert(key@, value@),
        match displaced {
            Some(d) => dm_contents(old(m)).contains_key(key@)
                && d@ == dm_contents(old(m))[key@],
            None => !dm_contents(old(m)).contains_key(key@),
        },
{
    m.insert(key, value)
}

/// Relies on dashmap::DashMap::remove: deletes the key's entry and returns
/// it, if it was there.
#[verifier::external_body]
pub fn dm_remove(
    m: &mut dashmap::DashMap<String, CommandPos>,
    key: &String,
) -> (removed: Option<CommandPos>)
    ensures
        dm_contents(final(m)) == dm_contents(old(m)).remove(key@),
        match removed {
            Some(d) => dm_contents(old(m)).contains_key(key@)
                && d@ == dm_contents(old(m))[key@],
            None => !dm_contents(old(m)).contains_key(key@),
        },
{
    m.remove(key).map(|kv| kv.1)
}

/// Relies on dashmap::DashMap::get: returns a copy of the key's entry,
/// if there is one.
#[verifier::external_body]
pub fn dm_get(
    m: &dashmap::DashMap<String, CommandPos>,
    key: &String,
) -> (found: Option<CommandPos>)
    ensures
        match found {
            Some(d) => dm_contents(m).contains_key(key@) && d@ == dm_contents(m)[key@],
            None => !dm_contents(m).contains_key(key@),
        },
{
    m.get(key).map(|r| *r.value())
}

/// Relies on dashmap::DashMap::iter: the iterator yields every entry of
/// the map exactly once, in no particular order.
#[verifier::external_body]
pub fn dm_entries(m: &dashmap::DashMap<String, CommandPos>) -> (pairs: Vec<(String, CommandPos)>)
    ensures
        forall|j1: int, j2: int| 0 <= j1 < j2 < pairs@.len()
            ==> #[trigger] pairs@[j1].0@ != #[trigger] pairs@[j2].0@,
        forall|j: int| 0 <= j < pairs@.len()
            ==> dm_contents(m).contains_key(#[trigger] pairs@[j].0@)
                && dm_contents(m)[pairs@[j].0@] == pairs@[j].1@,
        forall|k: Seq<char>| #[trigger] dm_contents(m).contains_key(k)
            ==> exists|j: int| 0 <= j < pairs@.len() && #[trigger] pairs@[j].0@ == k,
{
    m.iter().map(|r| (r.key().clone(), *r.value())).collect()
}

} // verus!
