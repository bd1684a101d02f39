use lazyinstall::install::store::{store_file, unique_folders};

#[test]
fn folders_are_kept_once_in_first_order() {
    let v: Vec<String> = ["/b", "/a", "/b", "/c", "/a"].iter().map(|s| s.to_string()).collect();
    assert_eq!(unique_folders(&v), vec!["/b", "/a", "/c"]);
    assert!(unique_folders(&vec![]).is_empty());
}

#[test]
fn the_store_lives_under_the_config_folder() {
    assert_eq!(store_file("/home/u/.config"), "/home/u/.config/lazyinstall/targets.json");
}
