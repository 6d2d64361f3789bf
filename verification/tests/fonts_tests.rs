use blit::fonts::{
    base64_encode, dir_variant, eq_ignore_ascii_case, family_matches, fc_list_families,
    fc_match_entries, font_face_css, is_font_file, matched_variant, read_font_info,
    subfamily_to_weight_style, FontInfo, FontVariant,
};

#[test]
fn subfamily_parsing() {
    assert_eq!(subfamily_to_weight_style("Regular"), ("normal", "normal"));
    assert_eq!(subfamily_to_weight_style("Bold"), ("bold", "normal"));
    assert_eq!(subfamily_to_weight_style("Italic"), ("normal", "italic"));
    assert_eq!(subfamily_to_weight_style("Bold Italic"), ("bold", "italic"));
    assert_eq!(subfamily_to_weight_style("Bold Oblique"), ("bold", "italic"));
}

#[test]
fn heavy_and_black_are_bold() {
    assert_eq!(subfamily_to_weight_style("HEAVY"), ("bold", "normal"));
    assert_eq!(subfamily_to_weight_style("Black Oblique"), ("bold", "italic"));
}

#[test]
fn base64_known_values() {
    assert_eq!(base64_encode(b""), "");
    assert_eq!(base64_encode(b"f"), "Zg==");
    assert_eq!(base64_encode(b"fo"), "Zm8=");
    assert_eq!(base64_encode(b"foo"), "Zm9v");
    assert_eq!(base64_encode(b"foobar"), "Zm9vYmFy");
    assert_eq!(base64_encode(&[0xff, 0xfe]), "//4=");
}

fn utf16be(s: &str) -> Vec<u8> {
    s.encode_utf16().flat_map(|u| u.to_be_bytes()).collect()
}

/// A font file with one table, `name`, holding the given records
/// (platform, name id, text).
fn font_with_names(records: &[(u16, u16, &str)]) -> Vec<u8> {
    let mut strings: Vec<u8> = Vec::new();
    let mut recs: Vec<u8> = Vec::new();
    for (platform, id, text) in records {
        let bytes = if *platform == 3 { utf16be(text) } else { text.as_bytes().to_vec() };
        recs.extend_from_slice(&platform.to_be_bytes());
        recs.extend_from_slice(&[0, 1, 0, 0]);
        recs.extend_from_slice(&id.to_be_bytes());
        recs.extend_from_slice(&(bytes.len() as u16).to_be_bytes());
        recs.extend_from_slice(&(strings.len() as u16).to_be_bytes());
        strings.extend_from_slice(&bytes);
    }
    let count = records.len() as u16;
    let mut table: Vec<u8> = Vec::new();
    table.extend_from_slice(&[0, 0]);
    table.extend_from_slice(&count.to_be_bytes());
    table.extend_from_slice(&(6 + 12 * count).to_be_bytes());
    table.extend_from_slice(&recs);
    table.extend_from_slice(&strings);
    let mut data: Vec<u8> = vec![0, 1, 0, 0, 0, 1, 0, 0, 0, 0, 0, 0];
    data.extend_from_slice(b"name");
    data.extend_from_slice(&[0, 0, 0, 0]);
    data.extend_from_slice(&28u32.to_be_bytes());
    data.extend_from_slice(&(table.len() as u32).to_be_bytes());
    data.extend_from_slice(&table);
    data
}

#[test]
fn name_table_prefers_windows_and_typographic_names() {
    let data = font_with_names(&[
        (1, 1, "Mac Family"),
        (3, 1, "Win Family"),
        (3, 2, "Bold"),
        (3, 16, "Typo Family"),
    ]);
    let info = read_font_info(&data).unwrap();
    assert_eq!(info.family, "Typo Family");
    assert_eq!(info.subfamily, "Bold");
}

#[test]
fn name_table_defaults_and_failures() {
    let data = font_with_names(&[(1, 1, "  Plain  ")]);
    let info = read_font_info(&data).unwrap();
    assert_eq!(info.family, "Plain");
    assert_eq!(info.subfamily, "Regular");
    assert!(read_font_info(&font_with_names(&[(3, 2, "Bold")])).is_none());
    assert!(read_font_info(&[0u8; 11]).is_none());
    assert!(read_font_info(&font_with_names(&[(0, 1, "Unicode platform")])).is_none());
}

#[test]
fn ascii_case_insensitive_equality() {
    assert!(eq_ignore_ascii_case("DejaVu Sans", "dejavu SANS"));
    assert!(!eq_ignore_ascii_case("DejaVu", "DejaVu Sans"));
    assert!(!eq_ignore_ascii_case("É", "é"));
}

#[test]
fn family_match_ignores_case_and_spaces() {
    assert!(family_matches("Fira Code", "fira code"));
    assert!(family_matches("FiraCode", "Fira Code"));
    assert!(!family_matches("Fira Mono", "Fira Code"));
}

#[test]
fn font_file_extensions() {
    assert!(is_font_file("/usr/share/fonts/a.ttf"));
    assert!(is_font_file("b.woff2"));
    assert!(is_font_file("dir.d/c.otf"));
    assert!(!is_font_file("/x/.ttf"));
    assert!(!is_font_file("/x/readme"));
    assert!(!is_font_file("/x.ttf/readme"));
    assert!(!is_font_file("/x/a.TTF"));
}

#[test]
fn variants_from_found_files() {
    let info = FontInfo { family: "Fira Code".into(), subfamily: "Bold Italic".into() };
    let v = dir_variant("/f/FiraCode-BoldItalic.ttf", Some(info.clone()), "firacode").unwrap();
    assert_eq!(v.path, "/f/FiraCode-BoldItalic.ttf");
    assert_eq!(v.weight, "bold");
    assert_eq!(v.style, "italic");
    assert!(dir_variant("/f/x.ttf", Some(info.clone()), "Menlo").is_none());
    assert!(dir_variant("/f/x.ttf", None, "Fira Code").is_none());
    let m = matched_variant("/f/x.ttf", "Italic", Some(info.clone()), "FIRA CODE").unwrap();
    assert_eq!((m.weight.as_str(), m.style.as_str()), ("normal", "italic"));
    assert!(matched_variant("/f/x.ttf", "Italic", Some(info), "FiraCode").is_none());
}

#[test]
fn fc_match_output_pairs() {
    let text = "/a.ttf\nRegular\n /b.ttf \n Bold \n/a.ttf\nItalic\n\nOblique\n/c.ttf\n";
    let pairs = fc_match_entries(text);
    assert_eq!(
        pairs,
        vec![
            ("/a.ttf".to_string(), "Regular".to_string()),
            ("/b.ttf".to_string(), "Bold".to_string()),
        ]
    );
}

#[test]
fn fc_list_output_families() {
    let fams = fc_list_families("DejaVu Sans,DejaVu Sans Condensed\nNoto Sans\n , \nDejaVu Sans\n").unwrap();
    assert_eq!(fams, vec!["DejaVu Sans", "DejaVu Sans Condensed", "Noto Sans"]);
    assert!(fc_list_families("").is_none());
    assert!(fc_list_families(" , \n\n").is_none());
}

#[test]
fn font_face_rules() {
    assert!(font_face_css("X", &[]).is_none());
    let files = vec![
        (
            FontVariant { path: "/f/a.woff2".into(), weight: "bold".into(), style: "normal".into() },
            b"foo".to_vec(),
        ),
        (
            FontVariant { path: "/f/noext".into(), weight: "normal".into(), style: "italic".into() },
            b"f".to_vec(),
        ),
    ];
    let css = font_face_css("My Font", &files).unwrap();
    assert_eq!(
        css,
        "@font-face { font-family: 'My Font'; font-weight: bold; font-style: normal; src: url('data:font/woff2;base64,Zm9v'); }\n\
         @font-face { font-family: 'My Font'; font-weight: normal; font-style: italic; src: url('data:font/ttf;base64,Zg=='); }\n"
    );
}
