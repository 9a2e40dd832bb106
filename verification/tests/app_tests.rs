use flosskeeper::app::{FilterMode, FlossKeeperApp};
use flosskeeper::catalog::{load_dmc_colors, parse_hex_rgb};
use flosskeeper::reports::csv_escape;
use flosskeeper::inventory::InventoryEntry;

const CSV: &str = "DMC,Name,Hex\n310,Black,#000000\n666,Bright Red,#E31D42\nBlanc,White,#FCFBF8\nWhite,White,#FFFFFF\nB5200,Snow White,#FFFFFF\nEcru,Ecru,#F0EADA\n";

fn sample_app() -> FlossKeeperApp {
    let mut app = FlossKeeperApp::new(load_dmc_colors(CSV), String::from("flosskeeper_collection.tsv"));
    app.adjust_bobbins("310", 2);
    app.adjust_skeins("310", 1);
    app.adjust_skeins("White", 3);
    app.store_entry(
        "666",
        InventoryEntry { bobbins: 0, skeins: 0, notes: "for\tsanta\nhat".to_string() },
    );
    app
}

#[test]
fn filter_labels() {
    assert_eq!(FilterMode::All.label(), "All");
    assert_eq!(FilterMode::Owned.label(), "Owned only");
    assert_eq!(FilterMode::Missing.label(), "Missing only");
    assert_eq!(FilterMode::BobbinsOnly.label(), "Bobbins only");
    assert_eq!(FilterMode::SkeinsOnly.label(), "Skeins only");
    assert_eq!(FilterMode::LowStock.label(), "Low stock");
    assert_eq!(FilterMode::WithNotes.label(), "With notes");
}

#[test]
fn white_and_blanc_share_one_entry() {
    let app = sample_app();
    let w = app.entry_for("white");
    let b = app.entry_for("Blanc");
    assert_eq!((w.bobbins, w.skeins), (0, 3));
    assert_eq!((b.bobbins, b.skeins), (0, 3));
    assert_eq!(app.inventory.len(), 3);
}

#[test]
fn new_app_is_empty_and_clean() {
    let app = FlossKeeperApp::new(load_dmc_colors(CSV), String::from("flosskeeper_collection.tsv"));
    assert_eq!(app.inventory.len(), 0);
    assert!(!app.dirty);
    assert_eq!(app.filter_mode, FilterMode::All);
    assert_eq!(app.owned_color_count(), 0);
    assert_eq!(app.missing_color_count(), 5);
}

#[test]
fn adjusting_marks_dirty_and_drops_empty_entries() {
    let mut app = sample_app();
    assert!(app.dirty);
    app.adjust_skeins("Blanc", -3);
    assert_eq!(app.inventory.len(), 2);
    assert!(app.entry_for("Blanc").is_empty());
    app.adjust_bobbins("310", -100);
    assert_eq!(app.entry_for("310").bobbins, 0);
    assert_eq!(app.entry_for("310").skeins, 1);
}

#[test]
fn adjust_then_undo_restores_entry() {
    let mut app = sample_app();
    app.adjust_bobbins("310", 5);
    assert_eq!(app.entry_for("310").bobbins, 7);
    app.adjust_bobbins("310", -5);
    let e = app.entry_for("310");
    assert_eq!((e.bobbins, e.skeins, e.notes.as_str()), (2, 1, ""));
    app.adjust_skeins("Ecru", 1);
    app.adjust_skeins("Ecru", -1);
    assert!(app.entry_for("Ecru").is_empty());
    assert_eq!(app.inventory.len(), 3);
}

#[test]
fn cleanup_removes_only_empty_entries() {
    let mut app = sample_app();
    app.store_entry("Ecru", InventoryEntry { bobbins: 0, skeins: 0, notes: "  ".to_string() });
    assert_eq!(app.inventory.len(), 4);
    app.cleanup_entry_if_empty("ecru ");
    assert_eq!(app.inventory.len(), 4);
    app.cleanup_entry_if_empty("Ecru");
    assert_eq!(app.inventory.len(), 3);
    app.cleanup_entry_if_empty("310");
    assert_eq!(app.inventory.len(), 3);
}

#[test]
fn summary_counts() {
    let app = sample_app();
    assert_eq!(app.owned_color_count(), 2);
    assert_eq!(app.missing_color_count(), 3);
    assert_eq!(app.bobbins_only_count(), 0);
    assert_eq!(app.skeins_only_count(), 1);
    assert_eq!(app.both_count(), 1);
    assert_eq!(app.low_stock_count(), 0);
    assert_eq!(app.notes_count(), 1);
    assert_eq!(app.total_bobbins(), 2);
    assert_eq!(app.total_skeins(), 4);
    assert_eq!(app.total_units(), 6);
    assert!(app.totals_fit());
    assert_eq!(app.missing_colors_owned_count(), 2);
    assert_eq!(app.missing_colors_count(), 3);
}

#[test]
fn low_stock_counts_owned_colours_with_one_unit() {
    let mut app = FlossKeeperApp::new(load_dmc_colors(CSV), String::from("flosskeeper_collection.tsv"));
    app.adjust_bobbins("666", 1);
    app.adjust_skeins("Ecru", 2);
    assert_eq!(app.low_stock_count(), 1);
    assert_eq!(app.bobbins_only_count(), 1);
}

#[test]
fn totals_that_overflow_are_reported() {
    let mut app = FlossKeeperApp::new(load_dmc_colors(CSV), String::from("flosskeeper_collection.tsv"));
    app.adjust_bobbins("310", i32::MAX);
    app.adjust_bobbins("310", i32::MAX);
    app.adjust_bobbins("310", i32::MAX);
    assert_eq!(app.entry_for("310").bobbins, u32::MAX);
    app.adjust_skeins("666", 1);
    assert!(!app.totals_fit());
}

#[test]
fn missing_colours_tsv_lists_unowned_colours() {
    let app = sample_app();
    assert_eq!(
        app.missing_colors_tsv(),
        "Code\tName\tHex\n666\tBright Red\t#E31D42\nB5200\tSnow White\t#FFFFFF\nEcru\tEcru\t#F0EADA\n"
    );
}

#[test]
fn missing_colours_plain_text() {
    let app = sample_app();
    assert_eq!(
        app.missing_colors_plain_text(),
        "FlossKeeper Missing Colors Shopping List\n=======================================\n\nOwned colors: 2\nMissing colors: 3\nTotal DMC colors in app: 5\n\nMissing DMC Colors\n------------------\nDMC 666 - Bright Red\nDMC B5200 - Snow White\nDMC Ecru - Ecru\n"
    );
}

#[test]
fn missing_colours_plain_text_when_everything_is_owned() {
    let mut app = FlossKeeperApp::new(load_dmc_colors("h\n310,Black,#000000\n"), String::from("flosskeeper_collection.tsv"));
    app.adjust_bobbins("310", 1);
    assert_eq!(
        app.missing_colors_plain_text(),
        "FlossKeeper Missing Colors Shopping List\n=======================================\n\nOwned colors: 1\nMissing colors: 0\nTotal DMC colors in app: 1\n\nYou currently own every DMC color in the app list.\n"
    );
}

#[test]
fn missing_report_and_shopping_list() {
    let app = sample_app();
    let (report, n) = app.missing_report_text();
    assert_eq!(n, 3);
    assert_eq!(
        report,
        "# FlossKeeper missing colours report\n# Generated from your current collection\nDMC\tName\tHex\n666\tBright Red\t#E31D42\nB5200\tSnow White\t#FFFFFF\nEcru\tEcru\t#F0EADA\n"
    );
    let (list, n) = app.shopping_list_text();
    assert_eq!(n, 3);
    assert_eq!(
        list,
        "FlossKeeper Shopping List\n========================\n\nDMC   666  - Bright Red\nDMC B5200  - Snow White\nDMC  Ecru  - Ecru\n\nTotal missing colours: 3\n"
    );
}

#[test]
fn inventory_csv_lists_owned_colours_only() {
    let mut app = sample_app();
    app.store_entry("310", InventoryEntry { bobbins: 2, skeins: 1, notes: "dark, \"deep\"".to_string() });
    let (csv, n) = app.inventory_csv_text();
    assert_eq!(n, 2);
    assert_eq!(
        csv,
        "DMC,Name,Bobbins,Skeins,Total,Notes,Hex\n310,Black,2,1,3,\"dark, \"\"deep\"\"\",#000000\nBlanc,Blanc / White,0,3,3,,#FCFBF8\n"
    );
}

#[test]
fn visible_colours_follow_search_and_filter() {
    let mut app = sample_app();
    let all: Vec<String> = app.visible_colors().into_iter().map(|c| c.code).collect();
    assert_eq!(all, vec!["310", "666", "B5200", "Blanc", "Ecru"]);
    app.search = " BLACK ".to_string();
    let v: Vec<String> = app.visible_colors().into_iter().map(|c| c.code).collect();
    assert_eq!(v, vec!["310"]);
    app.search = "santa".to_string();
    let v: Vec<String> = app.visible_colors().into_iter().map(|c| c.code).collect();
    assert_eq!(v, vec!["666"]);
    app.search = String::new();
    app.filter_mode = FilterMode::Missing;
    let v: Vec<String> = app.visible_colors().into_iter().map(|c| c.code).collect();
    assert_eq!(v, vec!["666", "B5200", "Ecru"]);
    app.filter_mode = FilterMode::SkeinsOnly;
    let v: Vec<String> = app.visible_colors().into_iter().map(|c| c.code).collect();
    assert_eq!(v, vec!["Blanc"]);
    app.filter_mode = FilterMode::WithNotes;
    let v: Vec<String> = app.visible_colors().into_iter().map(|c| c.code).collect();
    assert_eq!(v, vec!["666"]);
}

#[test]
fn selected_colour_is_found_by_exact_code() {
    let mut app = sample_app();
    assert!(app.selected_color().is_none());
    app.selected_code = Some("B5200".to_string());
    assert_eq!(app.selected_color().unwrap().name, "Snow White");
    assert_eq!(app.selected_index(), Some(2));
    app.selected_code = Some("b5200".to_string());
    assert!(app.selected_color().is_none());
}

#[test]
fn find_color_by_code_accepts_numbers_case_and_white() {
    let app = sample_app();
    assert_eq!(app.find_color_by_code("0310").unwrap().code, "310");
    assert_eq!(app.find_color_by_code(" white ").unwrap().code, "Blanc");
    assert_eq!(app.find_color_by_code("ECRU").unwrap().code, "Ecru");
    assert_eq!(app.find_color_by_code("b5200").unwrap().code, "B5200");
    assert!(app.find_color_by_code("").is_none());
    assert!(app.find_color_by_code("   ").is_none());
    assert!(app.find_color_by_code("9999").is_none());
    assert_eq!(app.find_color_index("666"), Some(1));
}

#[test]
fn pattern_codes_are_sorted_and_unique() {
    let mut app = sample_app();
    app.pattern_input = "310, 666\nBlanc b5200 0310 xyz white".to_string();
    assert_eq!(app.pattern_required_codes(), vec!["310", "666", "B5200", "Blanc"]);
    app.pattern_input = "nothing here".to_string();
    assert!(app.pattern_required_codes().is_empty());
}

#[test]
fn planner_counts_add_up_to_the_required_codes() {
    let mut app = sample_app();
    app.pattern_input = "310, 666\nBlanc b5200 0310 xyz white".to_string();
    let codes = app.pattern_required_codes();
    let (owned, missing) = app.count_required(&codes);
    assert_eq!((owned, missing), (2, 2));
    assert_eq!(owned + missing, codes.len());
    let unknown = vec!["9999".to_string(), "310".to_string()];
    assert_eq!(app.count_required(&unknown), (1, 0));
}

#[test]
fn owned_and_missing_partition_the_catalogue() {
    let app = sample_app();
    assert_eq!(app.owned_color_count() + app.missing_color_count(), app.colors.len());
    assert_eq!(
        app.bobbins_only_count() + app.skeins_only_count() + app.both_count(),
        app.owned_color_count()
    );
}

#[test]
fn pattern_planner_report_text() {
    let mut app = sample_app();
    app.pattern_input = "310, 666\nBlanc b5200 0310 xyz white".to_string();
    assert_eq!(
        app.pattern_planner_report(),
        "FlossKeeper Pattern Planner Report\n==================================\n\nRequired colors: 4\nOwned colors: 2\nNeed to buy: 2\n\nNeed to Buy\n-----------\nDMC 666 - Bright Red\nDMC B5200 - Snow White\n\nFull Detail\n-----------\nDMC 310 - Black | OWNED | bobbins: 2 | skeins: 1\nDMC 666 - Bright Red | MISSING | bobbins: 0 | skeins: 0\nDMC B5200 - Snow White | MISSING | bobbins: 0 | skeins: 0\nDMC Blanc - Blanc / White | OWNED | bobbins: 0 | skeins: 3\n"
    );
    assert_eq!(
        app.pattern_need_to_buy_plain_text(),
        "DMC 666 - Bright Red\nDMC B5200 - Snow White\n"
    );
}

#[test]
fn pattern_planner_when_nothing_or_all_owned() {
    let mut app = sample_app();
    app.pattern_input = "".to_string();
    assert_eq!(
        app.pattern_planner_report(),
        "FlossKeeper Pattern Planner Report\n==================================\n\nRequired colors: 0\nOwned colors: 0\nNeed to buy: 0\n\nNo recognized DMC colors were entered.\n"
    );
    app.pattern_input = "310 blanc".to_string();
    assert_eq!(
        app.pattern_planner_report(),
        "FlossKeeper Pattern Planner Report\n==================================\n\nRequired colors: 2\nOwned colors: 2\nNeed to buy: 0\n\nNeed to Buy\n-----------\nNothing. You own every required color.\n\nFull Detail\n-----------\nDMC 310 - Black | OWNED | bobbins: 2 | skeins: 1\nDMC Blanc - Blanc / White | OWNED | bobbins: 0 | skeins: 3\n"
    );
    assert_eq!(app.pattern_need_to_buy_plain_text(), "Nothing to buy. You own every required color.");
}

#[test]
fn every_catalogue_code_is_found_by_itself() {
    let app = sample_app();
    for (i, color) in app.colors.iter().enumerate() {
        let found = app.find_color_index(&color.code);
        assert!(matches!(found, Some(j) if j <= i));
    }
}

#[test]
fn missing_colors_lists_the_unowned_in_order() {
    let app = sample_app();
    let codes: Vec<String> = app.missing_colors().into_iter().map(|c| c.code).collect();
    assert_eq!(codes, vec!["666", "B5200", "Ecru"]);
    assert_eq!(codes.len(), app.missing_color_count());
}

#[test]
fn blank_search_shows_as_many_as_the_filter_counts() {
    let mut app = sample_app();
    app.search = "   ".to_string();
    assert_eq!(app.visible_colors().len(), app.colors.len());
    app.filter_mode = FilterMode::Owned;
    assert_eq!(app.visible_colors().len(), app.owned_color_count());
    app.filter_mode = FilterMode::Missing;
    assert_eq!(app.visible_colors().len(), app.missing_color_count());
    app.filter_mode = FilterMode::WithNotes;
    assert_eq!(app.visible_colors().len(), app.notes_count());
}

#[test]
fn lookup_ignores_case_and_surrounding_blanks() {
    let app = sample_app();
    for code in ["b5200", "B5200", " \tb5200 ", "WHITE", "white", " Blanc\t", "ecru", "0310"] {
        let a = app.find_color_index(code);
        assert_eq!(a, app.find_color_index(&code.to_ascii_uppercase()));
        assert_eq!(a, app.find_color_index(&code.to_ascii_lowercase()));
        assert_eq!(a, app.find_color_index(&format!(" \t{code} ")));
        assert!(a.is_some());
    }
}

#[test]
fn hex_colours_read_back_as_their_bytes() {
    for (r, g, b) in [(0u8, 0u8, 0u8), (255, 255, 255), (0x1E, 0x90, 0xFF), (0xE3, 0x1D, 0x42)] {
        assert_eq!(parse_hex_rgb(&format!("#{:02X}{:02X}{:02X}", r, g, b)), Some([r, g, b]));
        assert_eq!(parse_hex_rgb(&format!("{:02x}{:02x}{:02x}", r, g, b)), Some([r, g, b]));
    }
}

#[test]
fn csv_fields_unquote_to_their_value() {
    for v in ["plain", "Red, dark", "say \"hi\"", "two\nlines", "", "\"", "cr\r"] {
        assert_eq!(unquote(&csv_escape(v)), v);
    }
    assert_eq!(csv_escape("Red, dark"), "\"Red, dark\"");
}

fn unquote(s: &str) -> String {
    if s.len() >= 2 && s.starts_with('"') && s.ends_with('"') {
        s[1..s.len() - 1].replace("\"\"", "\"")
    } else {
        s.to_string()
    }
}
