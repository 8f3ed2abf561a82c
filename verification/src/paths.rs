//! Well-known file locations, computed as path strings from the application
//! root. Creating a directory that is missing, and resolving the root itself,
//! are the caller's concern: these functions only say exactly which path each
//! file lives at.

use vstd::prelude::*;

verus! {

/// The world directory that holds the game's persistent content.
pub fn get_world_dir(root: &str) -> (r: String)
    ensures
        r@ == root@ + "/../assets/world/"@,
{
    let s = String::from_str(root);
    s.concat("/../assets/world/")
}

/// The directory of the persisted adventure files.
pub fn get_adventures_dir(root: &str) -> (r: String)
    ensures
        r@ == root@ + "/../assets/world/adventures/"@,
{
    let s = String::from_str(root);
    s.concat("/../assets/world/adventures/")
}

/// The directory of the level resources, one file per level.
pub fn get_levels_dir(root: &str) -> (r: String)
    ensures
        r@ == root@ + "/../assets/world/levels/"@,
{
    let s = String::from_str(root);
    s.concat("/../assets/world/levels/")
}

/// Where the generated default adventure is written, overwriting what is
/// there.
pub fn default_adventure_file(root: &str) -> (r: String)
    ensures
        r@ == root@ + "/../assets/world/adventures/default.ron"@,
{
    let s = String::from_str(root);
    s.concat("/../assets/world/adventures/default.ron")
}

/// The directory of transient user data: settings, key bindings, cache and
/// save files. It may not exist the first time the game starts.
pub fn get_user_data_dir(root: &str) -> (r: String)
    ensures
        r@ == root@ + "/../.userdata/"@,
{
    let s = String::from_str(root);
    s.concat("/../.userdata/")
}

/// The user's cache file inside the user data directory.
pub fn get_user_cache_file(root: &str) -> (r: String)
    ensures
        r@ == root@ + "/../.userdata/cache.ron"@,
{
    let s = String::from_str(root);
    s.concat("/../.userdata/cache.ron")
}

/// The file that the level editor's auto save is stored in.
pub fn auto_save_file(root: &str) -> (r: String)
    ensures
        r@ == root@ + "/assets/levels/auto_save.ron"@,
{
    let s = String::from_str(root);
    s.concat("/assets/levels/auto_save.ron")
}

/// The file that the level of the given name is stored in, for the editor's
/// load and save.
pub fn level_file_path(root: &str, name: &str) -> (r: String)
    ensures
        r@ == root@ + "/assets/levels/"@ + name@ + ".ron"@,
{
    let s = String::from_str(root);
    let s = s.concat("/assets/levels/");
    let s = s.concat(name);
    s.concat(".ron")
}

} // verus!
