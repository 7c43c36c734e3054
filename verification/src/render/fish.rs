//! The fish shell: each shortcut becomes an alias, written as for the
//! POSIX shells.

use crate::entries::{map_entries, map_pairs};
use crate::render::sh::{alias_script, alias_script_spec};
use indexmap::IndexMap;
use vstd::prelude::*;

verus! {

/// The alias lines of the shortcuts, in the map's order.
pub fn render(entries: &IndexMap<String, String>) -> (r: String)
    ensures
        r@ == alias_script_spec(map_entries(*entries)),
{
    let pairs = map_pairs(entries);
    alias_script(&pairs)
}

} // verus!
