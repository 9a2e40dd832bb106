use flosskeeper::catalog::{
    canonical_code, catalog_would_panic, dmc_line_would_panic, hex_rgb_would_panic, load_dmc_colors,
    parse_dmc_line, parse_hex_rgb, smart_code_key,
};

const CSV: &str = "DMC,Name,Hex\n310,Black,#000000\n666,Bright Red,#E31D42\nBlanc,White,#FCFBF8\nWhite,White,#FFFFFF\nB5200,Snow White,#FFFFFF\nEcru,Ecru,#F0EADA\n";

#[test]
fn canonical_code_merges_white_into_blanc() {
    assert_eq!(canonical_code("White"), "Blanc");
    assert_eq!(canonical_code("  white "), "Blanc");
    assert_eq!(canonical_code("WHITE"), "Blanc");
    assert_eq!(canonical_code("Blanc"), "Blanc");
    assert_eq!(canonical_code("B5200"), "B5200");
    assert_eq!(canonical_code(" 310\t"), "310");
    assert_eq!(canonical_code(""), "");
}

#[test]
fn canonical_code_is_idempotent_on_examples() {
    for code in ["White", " 310 ", "B5200", "whitE", "Ecru"] {
        let once = canonical_code(code);
        assert_eq!(canonical_code(&once), once);
    }
}

#[test]
fn parse_hex_rgb_reads_six_hex_digits() {
    assert_eq!(parse_hex_rgb("#1E90FF"), Some([30, 144, 255]));
    assert_eq!(parse_hex_rgb("1e90ff"), Some([30, 144, 255]));
    assert_eq!(parse_hex_rgb("  ##FFFFFF "), Some([255, 255, 255]));
    assert_eq!(parse_hex_rgb("+F+F+F"), Some([15, 15, 15]));
    assert_eq!(parse_hex_rgb("#12345"), None);
    assert_eq!(parse_hex_rgb("GG0000"), None);
    assert_eq!(parse_hex_rgb("-10000"), None);
    assert_eq!(parse_hex_rgb(""), None);
    assert_eq!(parse_hex_rgb("\u{e9}1234"), None);
}

#[test]
fn hex_panic_inputs_are_recognised() {
    assert!(hex_rgb_would_panic("a\u{e9}123"));
    assert!(!hex_rgb_would_panic("\u{e9}1234"));
    assert!(!hex_rgb_would_panic("#FFFFFF"));
    assert!(hex_rgb_would_panic("\u{20ac}123"));
    assert!(dmc_line_would_panic("1,x,a\u{e9}123"));
    assert!(!dmc_line_would_panic("White,x,a\u{e9}123"));
    assert!(!catalog_would_panic(CSV));
    assert!(catalog_would_panic("h\n1,x,a\u{e9}123\n"));
}

#[test]
fn parse_dmc_line_reads_code_name_and_hex() {
    let c = parse_dmc_line("310,Black,#000000").unwrap();
    assert_eq!(c.code, "310");
    assert_eq!(c.name, "Black");
    assert_eq!(c.hex, "#000000");
    assert_eq!(c.rgb, [0, 0, 0]);

    let b = parse_dmc_line(" Blanc , White , #FCFBF8 ").unwrap();
    assert_eq!(b.code, "Blanc");
    assert_eq!(b.name, "Blanc / White");
    assert_eq!(b.rgb, [0xFC, 0xFB, 0xF8]);

    let s = parse_dmc_line("B5200,Snow White,\"#FFFFFF\"").unwrap();
    assert_eq!(s.code, "B5200");
    assert_eq!(s.hex, "#FFFFFF");

    let many = parse_dmc_line("7,a,b,c,#010203").unwrap();
    assert_eq!(many.name, "a,b,c");
    assert_eq!(many.rgb, [1, 2, 3]);
}

#[test]
fn parse_dmc_line_rejects_white_and_short_lines() {
    assert!(parse_dmc_line("White,White,#FFFFFF").is_none());
    assert!(parse_dmc_line("white,x,#FFFFFF").is_none());
    assert!(parse_dmc_line("310,Black").is_none());
    assert!(parse_dmc_line("no commas").is_none());
    assert!(parse_dmc_line("310,Black,#00000").is_none());
}

#[test]
fn smart_code_key_orders_numbers_first() {
    let (r, n, t) = smart_code_key("310");
    assert_eq!((r, n, t.as_str()), (0, 310, "310"));
    let (r, n, t) = smart_code_key("ECRU");
    assert_eq!((r, n, t.as_str()), (1, 0, "ecru"));
    let (r, n, t) = smart_code_key("+12");
    assert_eq!((r, n, t.as_str()), (0, 12, "+12"));
    let (r, n, t) = smart_code_key("99999999999");
    assert_eq!((r, n, t.as_str()), (1, 0, "99999999999"));
}

#[test]
fn load_dmc_colors_skips_header_white_and_sorts() {
    let colors = load_dmc_colors(CSV);
    let codes: Vec<&str> = colors.iter().map(|c| c.code.as_str()).collect();
    assert_eq!(codes, vec!["310", "666", "B5200", "Blanc", "Ecru"]);
    assert_eq!(colors[3].name, "Blanc / White");
}

#[test]
fn load_dmc_colors_sort_is_stable_and_numeric() {
    let csv = "h\nECRU,first,#000001\n 01 ,one,#000002\n\n300,three hundred,#000003\necru,second,#000004\n25,twenty five,#000005\n";
    let colors = load_dmc_colors(csv);
    let names: Vec<&str> = colors.iter().map(|c| c.name.as_str()).collect();
    assert_eq!(names, vec!["one", "twenty five", "three hundred", "first", "second"]);
}

#[test]
fn load_dmc_colors_of_empty_text_is_empty() {
    assert!(load_dmc_colors("").is_empty());
    assert!(load_dmc_colors("header only").is_empty());
}
