use fejdit::paths::{
    backup_name, join_path, locate_plan, pick_save_number, save_number_of, with_extension, LocateError, LocatePlan,
    OutputArgs, OutputError, WorldFiles,
};

#[test]
fn save_numbers_come_from_main_file_names() {
    assert_eq!(save_number_of("_main.1.fwl2"), Some(1));
    assert_eq!(save_number_of("_main.12.chunks"), Some(12));
    assert_eq!(save_number_of("_main..fwl2"), None);
    assert_eq!(save_number_of("main.1.fwl2"), None);
    assert_eq!(save_number_of("_main.99999999999.fwl2"), None);
}

#[test]
fn the_newest_complete_save_is_picked() {
    let names: Vec<String> = ["_main.1.fwl2", "_main.1.ok", "_main.2.fwl2", "0_0_0_1.chunk"]
        .iter()
        .map(|s| s.to_string())
        .collect();
    let pick = pick_save_number(&names).unwrap();
    assert_eq!(pick.number, 1);
    assert!(pick.incomplete_newest);
    let only_new: Vec<String> = vec!["_main.3.fwl2".to_string()];
    assert_eq!(pick_save_number(&only_new).unwrap().number, 3);
    assert!(pick_save_number(&vec!["Old.fwl".to_string()]).is_none());
}

#[test]
fn paths_join_with_one_separator() {
    assert_eq!(join_path("worlds", "a.fwl"), "worlds/a.fwl");
    assert_eq!(join_path("worlds/", "a.fwl"), "worlds/a.fwl");
    assert_eq!(join_path("", "a.fwl"), "a.fwl");
}

#[test]
fn backups_sit_beside_the_target() {
    assert_eq!(backup_name("worlds/Old.db", 1700000000), "worlds/Old.db.1700000000.fejdit-bak");
}

#[test]
fn chunked_world_files_are_named_by_save_number() {
    let w = WorldFiles::chunked("worlds/Midgard", "Midgard", 2);
    assert_eq!(w.fwl, "worlds/Midgard/_main.2.fwl2");
    assert_eq!(w.db, "worlds/Midgard/_main.2.db2");
    assert_eq!(w.chunks().as_deref(), Some("worlds/Midgard/_main.2.chunks"));
}

#[test]
fn writing_needs_a_destination() {
    let none = OutputArgs { output: None, in_place: false, no_backup: false };
    assert_eq!(none.validate(), Err(OutputError::NoDestination));
    let inplace = OutputArgs { output: None, in_place: true, no_backup: false };
    assert_eq!(inplace.validate(), Ok(()));
}

#[test]
fn backups_replace_the_last_real_component() {
    assert_eq!(backup_name("w/x/", 5), "w/x.5.fejdit-bak");
    assert_eq!(backup_name("w/x/.", 5), "w/x.5.fejdit-bak");
    assert_eq!(backup_name("Old.db", 7), "Old.db.7.fejdit-bak");
    assert_eq!(backup_name("/x", 7), "/x.7.fejdit-bak");
    assert_eq!(backup_name("a/..", 5), "a/../file.5.fejdit-bak");
    assert_eq!(backup_name("/", 5), "/file.5.fejdit-bak");
}

#[test]
fn the_pick_is_the_highest_complete_save_else_the_highest() {
    let names: Vec<String> = ["_main.4.fwl2", "_main.4.ok", "_main.9.fwl2", "_main.7.fwl2", "_main.7.ok", "_main.9.chunks"]
        .iter()
        .map(|s| s.to_string())
        .collect();
    let pick = pick_save_number(&names).unwrap();
    assert_eq!(pick.number, 7);
    assert!(pick.incomplete_newest);
    let complete: Vec<String> = ["_main.2.fwl2", "_main.2.ok"].iter().map(|s| s.to_string()).collect();
    let pick = pick_save_number(&complete).unwrap();
    assert_eq!(pick.number, 2);
    assert!(!pick.incomplete_newest);
    let no_ok: Vec<String> = ["_main.2.fwl2", "_main.5.fwl2", "_main.5.ok.tmp"].iter().map(|s| s.to_string()).collect();
    let pick = pick_save_number(&no_ok).unwrap();
    assert_eq!(pick.number, 5);
    assert!(pick.incomplete_newest);
}

#[test]
fn a_world_is_found_from_any_of_its_names() {
    assert_eq!(
        locate_plan("worlds/Midgard.fwl", false, false),
        Ok(LocatePlan::Pair { stem: "worlds/Midgard".to_string() })
    );
    assert_eq!(locate_plan("worlds/Midgard.DB", false, false), Ok(LocatePlan::Pair { stem: "worlds/Midgard".to_string() }));
    assert_eq!(locate_plan("worlds/Midgard", false, true), Ok(LocatePlan::Pair { stem: "worlds/Midgard".to_string() }));
    assert_eq!(locate_plan("worlds/Midgard", false, false), Err(LocateError::NoWorld));
    assert_eq!(
        locate_plan("worlds/Midgard", true, false),
        Ok(LocatePlan::Directory { dir: "worlds/Midgard".to_string(), save_number: None })
    );
    assert_eq!(
        locate_plan("worlds/Midgard/_main.3.fwl2", false, false),
        Ok(LocatePlan::Directory { dir: "worlds/Midgard".to_string(), save_number: Some(3) })
    );
    assert_eq!(
        locate_plan("0_0_0_1.chunk", false, false),
        Ok(LocatePlan::Directory { dir: ".".to_string(), save_number: None })
    );
    assert_eq!(with_extension("worlds/Midgard", "fwl"), "worlds/Midgard.fwl");
    assert_eq!(with_extension("worlds/Old.db", "fwl"), "worlds/Old.fwl");
    assert_eq!(with_extension(".hidden", "fwl"), ".hidden.fwl");
}
