use flosskeeper::app::FlossKeeperApp;
use flosskeeper::backup::restore_backup_text;
use flosskeeper::catalog::load_dmc_colors;
use flosskeeper::inventory::InventoryEntry;
use flosskeeper::reports::{load_status_message, reload_status_message};
use flosskeeper::paths::{
    default_collection_file, default_first_run_help_path, default_save_path, stash_path_config_file,
};

const CSV: &str = "DMC,Name,Hex\n310,Black,#000000\n666,Bright Red,#E31D42\n";

#[test]
fn save_path_prefers_appdata_then_xdg_then_home() {
    assert_eq!(
        default_save_path(Some("/win/appdata"), Some("/xdg"), Some("/home/u")),
        "/win/appdata/FlossKeeper/flosskeeper_collection.tsv"
    );
    assert_eq!(
        default_save_path(None, Some("/xdg"), Some("/home/u")),
        "/xdg/flosskeeper/flosskeeper_collection.tsv"
    );
    assert_eq!(
        default_save_path(None, None, Some("/home/u")),
        "/home/u/.config/flosskeeper/flosskeeper_collection.tsv"
    );
    assert_eq!(default_save_path(None, None, None), "flosskeeper_collection.tsv");
}

#[test]
fn sibling_files_replace_the_file_name() {
    let save = "/home/u/.config/flosskeeper/flosskeeper_collection.tsv";
    assert_eq!(
        default_first_run_help_path(save),
        "/home/u/.config/flosskeeper/first_run_help_dismissed.txt"
    );
    assert_eq!(stash_path_config_file(save), "/home/u/.config/flosskeeper/stash_path.txt");
    assert_eq!(stash_path_config_file("flosskeeper_collection.tsv"), "stash_path.txt");
}

#[test]
fn collection_file_lives_in_a_flosskeeper_folder() {
    assert_eq!(
        default_collection_file("/home/u/.config"),
        "/home/u/.config/flosskeeper/flosskeeper_collection.tsv"
    );
    assert_eq!(
        default_collection_file("/cfg/"),
        "/cfg/flosskeeper/flosskeeper_collection.tsv"
    );
}

#[test]
fn export_dir_is_the_save_folder_or_dot() {
    let app = FlossKeeperApp::new(load_dmc_colors(CSV), String::from("/data/fk/flosskeeper_collection.tsv"));
    assert_eq!(app.export_dir(), "/data/fk");
    let bare = FlossKeeperApp::new(load_dmc_colors(CSV), String::from("flosskeeper_collection.tsv"));
    assert_eq!(bare.export_dir(), "");
    let empty = FlossKeeperApp::new(load_dmc_colors(CSV), String::new());
    assert_eq!(empty.export_dir(), ".");
    let root = FlossKeeperApp::new(load_dmc_colors(CSV), String::from("/"));
    assert_eq!(root.export_dir(), ".");
}

#[test]
fn owned_units_fit_spots_an_overflowing_entry() {
    let mut app = FlossKeeperApp::new(load_dmc_colors(CSV), String::from("c.tsv"));
    assert!(app.owned_units_fit());
    app.store_entry("310", InventoryEntry { bobbins: u32::MAX, skeins: 0, notes: String::new() });
    assert!(app.owned_units_fit());
    app.store_entry("666", InventoryEntry { bobbins: u32::MAX, skeins: 1, notes: String::new() });
    assert!(!app.owned_units_fit());
}

#[test]
fn restore_reads_the_raw_collection_text() {
    assert_eq!(
        restore_backup_text("{\"app\": \"FlossKeeper\", \"backup_version\": 1, \"raw_tsv\": \"310\\t1\\t0\\t\\n\"}"),
        Ok("310\t1\t0\t\n".to_string())
    );
}

#[test]
fn restore_refuses_other_backups() {
    let refused = Err("This does not look like a FlossKeeper backup.".to_string());
    assert_eq!(restore_backup_text("{\"app\": \"Other\", \"raw_tsv\": \"x\"}"), refused);
    assert_eq!(restore_backup_text("{\"app\": 3, \"raw_tsv\": \"x\"}"), refused);
    assert_eq!(restore_backup_text("[1, 2]"), refused);
    assert_eq!(
        restore_backup_text("{\"app\": \"FlossKeeper\", \"raw_tsv\": 5}"),
        Err("Backup is missing raw_tsv data.".to_string())
    );
}

#[test]
fn restore_reports_text_that_is_not_json() {
    match restore_backup_text("not json") {
        Err(m) => {
            assert!(m.starts_with("Backup is not valid JSON: "));
            assert!(m.len() > "Backup is not valid JSON: ".len());
        }
        Ok(_) => panic!("text that is not JSON was restored"),
    }
}

#[test]
fn backup_json_holds_the_document_and_counts_rows() {
    let raw = "code\tbobbins\tskeins\tnotes\n310\t2\t1\tblack\n\nB5200\t0\t3\n";
    let (text, rows) =
        flosskeeper::backup::backup_json("2024-05-01T10:00:00+02:00", "/c/flosskeeper_collection.tsv", raw)
            .unwrap();
    assert_eq!(rows, 2);
    let doc: serde_json::Value = serde_json::from_str(&text).unwrap();
    assert_eq!(doc["app"], "FlossKeeper");
    assert_eq!(doc["backup_version"], 1);
    assert_eq!(doc["created_at"], "2024-05-01T10:00:00+02:00");
    assert_eq!(doc["collection_file"], "/c/flosskeeper_collection.tsv");
    assert_eq!(doc["format"], "raw_tsv_plus_parsed_rows");
    assert_eq!(doc["raw_tsv"], raw);
    assert_eq!(doc["rows"].as_array().unwrap().len(), 2);
    assert_eq!(doc["rows"][0]["code"], "310");
    assert_eq!(doc["rows"][0]["notes"], "black");
    assert_eq!(doc["rows"][1]["skeins"], "3");
    assert_eq!(doc["rows"][1]["notes"], "");
    assert!(text.starts_with("{\n  \"app\": \"FlossKeeper\",\n"));
}

#[test]
fn a_backup_restores_to_its_raw_text() {
    let raw = "310\t2\t1\tblack\n";
    let (text, _) = flosskeeper::backup::backup_json("t", "f", raw).unwrap();
    assert_eq!(restore_backup_text(&text), Ok(raw.to_string()));
}

#[test]
fn load_and_reload_status_lines() {
    assert_eq!(load_status_message(Ok(true)), "Loaded saved collection.");
    assert_eq!(
        load_status_message(Ok(false)),
        "No saved collection yet. Add bobbins/skeins, then click Save."
    );
    assert_eq!(load_status_message(Err("denied".to_string())), "Could not load collection: denied");
    assert_eq!(reload_status_message(Ok(true)), "Reloaded collection from file.");
    assert_eq!(reload_status_message(Ok(false)), "No collection file found yet.");
    assert_eq!(reload_status_message(Err("gone".to_string())), "Reload failed: gone");
}

#[test]
fn sibling_of_a_nested_file_keeps_its_folder() {
    assert_eq!(stash_path_config_file("/a/b/c.tsv"), "/a/b/stash_path.txt");
    assert_eq!(stash_path_config_file("/c.tsv"), "/stash_path.txt");
    assert_eq!(default_first_run_help_path("rel/x.tsv"), "rel/first_run_help_dismissed.txt");
    let app = FlossKeeperApp::new(load_dmc_colors(CSV), String::from("/c.tsv"));
    assert_eq!(app.export_dir(), "/");
}
