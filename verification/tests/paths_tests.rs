use adventure_graph::paths::auto_save_file;
use adventure_graph::paths::default_adventure_file;
use adventure_graph::paths::get_adventures_dir;
use adventure_graph::paths::get_levels_dir;
use adventure_graph::paths::get_user_cache_file;
use adventure_graph::paths::get_user_data_dir;
use adventure_graph::paths::get_world_dir;
use adventure_graph::paths::level_file_path;

#[test]
fn world_dir_sits_beside_the_application_root() {
    assert_eq!(get_world_dir("/game/bin"), "/game/bin/../assets/world/");
}

#[test]
fn adventures_and_levels_are_world_subdirectories() {
    assert_eq!(
        get_adventures_dir("/game/bin"),
        "/game/bin/../assets/world/adventures/"
    );
    assert_eq!(
        get_levels_dir("/game/bin"),
        "/game/bin/../assets/world/levels/"
    );
}

#[test]
fn the_default_adventure_has_a_fixed_file() {
    assert_eq!(
        default_adventure_file("/game/bin"),
        "/game/bin/../assets/world/adventures/default.ron"
    );
}

#[test]
fn user_data_locations() {
    assert_eq!(get_user_data_dir("/game/bin"), "/game/bin/../.userdata/");
    assert_eq!(
        get_user_cache_file("/game/bin"),
        "/game/bin/../.userdata/cache.ron"
    );
}

#[test]
fn editor_file_locations() {
    assert_eq!(
        auto_save_file("/game/bin"),
        "/game/bin/assets/levels/auto_save.ron"
    );
    assert_eq!(
        level_file_path("/game/bin", "forest"),
        "/game/bin/assets/levels/forest.ron"
    );
}
