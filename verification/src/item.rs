//! Item definitions.

use vstd::prelude::*;

use crate::modding::types::DefId;

verus! {

/// A kind of item that a mod defines: its name and the path of its sprite.
#[derive(Debug)]
pub struct ItemDef {
    pub name: String,
    pub sprite: String,
}

impl ItemDef {
    /// The definition read from a mod's file, registered under the id of the
    /// mod joined with the id in the file.
    pub fn from_raw(mod_id: &DefId, id: DefId, name: String, sprite: String) -> (r: (
        DefId,
        ItemDef,
    ))
        ensures
            r.0@ == mod_id@ + seq![':', ':'] + id@,
            r.1.name@ == name@,
            r.1.sprite@ == sprite@,
    {
        (mod_id.join(id), ItemDef { name, sprite })
    }
}

} // verus!
