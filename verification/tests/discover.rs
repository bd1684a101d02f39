use lazyinstall::install::discover::{
    derive_name, folder_display_name, has_sh_extension, join, select_scripts, sort_names,
    starts_with_update, stem_of, targets_in_folder, DiscoverError,
};

fn names(v: &[&str]) -> Vec<String> {
    v.iter().map(|s| s.to_string()).collect()
}

#[test]
fn it_should_discover_an_update_script_and_derive_its_name() {
    let targets = targets_in_folder("/tmp/box", &names(&["update-lazygit.sh"])).unwrap();
    assert_eq!(targets.len(), 1);
    assert_eq!(targets[0].name(), "lazygit");
    assert!(targets[0].script().ends_with("update-lazygit.sh"));
    assert_eq!(targets[0].script(), "/tmp/box/update-lazygit.sh");
    assert_eq!(targets[0].folder(), "/tmp/box");
}

#[test]
fn it_should_discover_one_target_per_update_script() {
    let targets = targets_in_folder(
        "/tmp/box",
        &names(&["update-lazygit.sh", "update-nvim.sh", "update-fzf.sh"]),
    )
    .unwrap();
    let names: Vec<&str> = targets.iter().map(|t| t.name()).collect();
    assert_eq!(names, ["fzf", "lazygit", "nvim"]);
}

#[test]
fn it_should_keep_only_update_scripts_when_some_are_present() {
    let targets =
        targets_in_folder("/tmp/box", &names(&["aaa-helper.sh", "update-tool.sh"])).unwrap();
    assert_eq!(targets.len(), 1);
    assert_eq!(targets[0].name(), "tool");
    assert!(targets[0].script().ends_with("update-tool.sh"));
}

#[test]
fn it_should_fall_back_to_the_first_shell_script_and_use_the_folder_name() {
    let targets =
        targets_in_folder("/tmp/box/mytool", &names(&["zz.sh", "install.sh", "notes.txt"])).unwrap();
    assert_eq!(targets.len(), 1);
    assert_eq!(targets[0].name(), "mytool");
    assert!(targets[0].script().ends_with("install.sh"));
}

#[test]
fn it_should_error_when_no_shell_script_is_present() {
    let r = targets_in_folder("/tmp/box", &names(&["README.md"]));
    assert_eq!(r, Err(DiscoverError::NoScript("/tmp/box".to_string())));
    assert_eq!(
        r.unwrap_err().message(),
        "no *.sh script found in /tmp/box"
    );
}

#[test]
fn error_messages_name_the_folder() {
    assert_eq!(
        DiscoverError::NotADirectory("/tmp/a.sh".to_string()).message(),
        "/tmp/a.sh is not a directory"
    );
    assert_eq!(
        DiscoverError::Unresolvable("/x".to_string(), "gone".to_string()).message(),
        "cannot resolve /x: gone"
    );
}

#[test]
fn only_names_with_a_sh_extension_count() {
    assert!(has_sh_extension("a.sh"));
    assert!(has_sh_extension("update-x.sh"));
    assert!(!has_sh_extension(".sh"));
    assert!(!has_sh_extension("sh"));
    assert!(!has_sh_extension("a.shx"));
    assert!(!has_sh_extension("a.bash"));
    assert!(starts_with_update("update-x.sh"));
    assert!(!starts_with_update("updatex.sh"));
    assert!(!starts_with_update("my-update-x.sh"));
}

#[test]
fn stems_and_names_follow_the_file_name_rules() {
    assert_eq!(stem_of("update-lazygit.sh"), "update-lazygit");
    assert_eq!(stem_of("archive.tar.gz"), "archive.tar");
    assert_eq!(stem_of(".bashrc"), ".bashrc");
    assert_eq!(stem_of("plain"), "plain");
    assert_eq!(stem_of(".."), "..");
    assert_eq!(derive_name("update-lazygit.sh", "/home/u/lazygitinstall"), "lazygit");
    assert_eq!(derive_name("update-.sh", "/home/u/tools"), "tools");
    assert_eq!(derive_name("install.sh", "/home/u/tools/"), "tools");
    assert_eq!(derive_name("install.sh", "/"), "?");
    assert_eq!(folder_display_name("/a/b//"), "b");
    assert_eq!(folder_display_name("relative"), "relative");
    assert_eq!(folder_display_name("/a/.."), "?");
    assert_eq!(
        derive_name("/home/user/lazygitinstall/update-lazygit.sh", "/home/user/lazygitinstall"),
        "lazygit"
    );
    assert_eq!(derive_name("/home/u/tools/update-foo.bar.sh", "/home/u/tools"), "foo.bar");
    assert_eq!(derive_name("/home/u/tools/update-.sh", "/home/u/tools"), "tools");
    assert_eq!(derive_name("/home/u/mytool/install.sh", "/home/u/mytool"), "mytool");
    assert_eq!(derive_name("/home/u/x/update-y.sh/.", "/home/u/x"), "y");
    assert_eq!(folder_display_name("/a/b/."), "b");
    assert_eq!(folder_display_name("/a/b/./"), "b");
    assert_eq!(folder_display_name("/."), "?");
    assert_eq!(folder_display_name("."), "?");
    assert_eq!(folder_display_name("/"), "?");
}

#[test]
fn paths_join_like_std() {
    assert_eq!(join("/a", "b"), "/a/b");
    assert_eq!(join("/a/", "b"), "/a/b");
    assert_eq!(join("", "b"), "b");
    assert_eq!(join("/a", "/etc"), "/etc");
    assert_eq!(join("/home/u", ""), "/home/u/");
    for (base, rest) in [("/a", "b"), ("/a/", "b"), ("x", "y/z"), ("/h", "")] {
        let std = std::path::Path::new(base).join(rest);
        assert_eq!(join(base, rest), std.to_str().unwrap());
    }
}

#[test]
fn names_sort_by_bytes() {
    let sorted = sort_names(&names(&["b", "a", "B", "é", "ab", "a"]));
    assert_eq!(sorted, names(&["B", "a", "a", "ab", "b", "é"]));
    assert_eq!(sort_names(&names(&[])), names(&[]));
}

#[test]
fn selection_prefers_update_scripts_then_the_first_script() {
    assert_eq!(
        select_scripts(&names(&["update-b.sh", "x.sh", "update-a.sh", "update-c.txt"])),
        names(&["update-a.sh", "update-b.sh"])
    );
    assert_eq!(
        select_scripts(&names(&["z.sh", "b.sh", "c.txt"])),
        names(&["b.sh"])
    );
    assert_eq!(select_scripts(&names(&["c.txt", ".sh"])), names(&[]));
}
