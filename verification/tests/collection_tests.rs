use flosskeeper::app::FlossKeeperApp;
use flosskeeper::catalog::load_dmc_colors;
use flosskeeper::inventory::InventoryEntry;

const CSV: &str = "DMC,Name,Hex\n310,Black,#000000\n666,Bright Red,#E31D42\nBlanc,White,#FCFBF8\nWhite,White,#FFFFFF\nB5200,Snow White,#FFFFFF\nEcru,Ecru,#F0EADA\n";

fn sample_app() -> FlossKeeperApp {
    let mut app = FlossKeeperApp::new(load_dmc_colors(CSV), String::from("flosskeeper_collection.tsv"));
    app.adjust_bobbins("310", 2);
    app.adjust_skeins("310", 1);
    app.adjust_skeins("White", 3);
    app.store_entry(
        "666",
        InventoryEntry { bobbins: 0, skeins: 0, notes: "for\tsanta\nhat".to_string() },
    );
    app
}

#[test]
fn collection_file_text_has_header_and_rows_in_catalogue_order() {
    let app = sample_app();
    assert_eq!(
        app.collection_file_text(),
        "# FlossKeeper collection v1\n# code\tbobbins\tskeins\tnotes\n310\t2\t1\t\n666\t0\t0\tfor santa hat\nBlanc\t0\t3\t\n"
    );
}

#[test]
fn saving_then_loading_gives_the_entries_back() {
    let app = sample_app();
    let text = app.collection_file_text();
    let mut other = FlossKeeperApp::new(load_dmc_colors(CSV), String::from("flosskeeper_collection.tsv"));
    other.dirty = true;
    other.load_collection(&text);
    assert!(!other.dirty);
    assert_eq!(other.inventory.len(), 3);
    let e = other.entry_for("310");
    assert_eq!((e.bobbins, e.skeins, e.notes.as_str()), (2, 1, ""));
    let e = other.entry_for("666");
    assert_eq!((e.bobbins, e.skeins, e.notes.as_str()), (0, 0, "for santa hat"));
    let e = other.entry_for("Blanc");
    assert_eq!((e.bobbins, e.skeins, e.notes.as_str()), (0, 3, ""));
    assert_eq!(other.collection_file_text(), text);
}

#[test]
fn loading_merges_white_into_blanc_and_notes() {
    let mut app = FlossKeeperApp::new(load_dmc_colors(CSV), String::from("flosskeeper_collection.tsv"));
    app.load_collection(
        "# comment\n310\t1\t0\tblack\r\nWhite\t2\t1\told\nBlanc\t1\tx\tnew\n\n   \n310\t1\t1\tblack\n  # not a comment\t1\n",
    );
    let e = app.entry_for("310");
    assert_eq!((e.bobbins, e.skeins, e.notes.as_str()), (2, 1, "black"));
    let e = app.entry_for("Blanc");
    assert_eq!((e.bobbins, e.skeins, e.notes.as_str()), (3, 1, "old | new"));
    let e = app.entry_for("# not a comment");
    assert_eq!((e.bobbins, e.skeins), (1, 0));
    assert_eq!(app.inventory.len(), 3);
    let (code, _) = app.inventory.at(0);
    assert_eq!(code, "310");
    let (code, _) = app.inventory.at(1);
    assert_eq!(code, "Blanc");
}

#[test]
fn loading_replaces_what_was_there() {
    let mut app = sample_app();
    app.load_collection("");
    assert_eq!(app.inventory.len(), 0);
    app.load_collection("666\t\t\t\n\t5\n");
    assert_eq!(app.inventory.len(), 1);
    assert!(app.entry_for("666").is_empty());
}

#[test]
fn loading_saturates_counts_and_ignores_bad_numbers() {
    let mut app = FlossKeeperApp::new(load_dmc_colors(CSV), String::from("flosskeeper_collection.tsv"));
    app.load_collection("310\t4294967295\t-1\n310\t5\t+7\n");
    let e = app.entry_for("310");
    assert_eq!((e.bobbins, e.skeins), (u32::MAX, 7));
}
