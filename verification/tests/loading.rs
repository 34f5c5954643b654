use game_releases::loader::{dataset_location, is_valid_key, load, LoadError};
use game_releases::table::{parse_table, read_rows};
use game_releases::records::{Dataset, ReleaseRecord};

fn table(rows: &[(&str, &str, &str)]) -> Dataset {
    Dataset::new(rows.iter().map(|row| ReleaseRecord::new(row.0, row.1, row.2)).collect())
}

#[test]
fn keys_hold_letters_digits_underscore_and_hyphen() {
    assert!(is_valid_key("XX"));
    assert!(is_valid_key("us"));
    assert!(is_valid_key("pt-BR"));
    assert!(is_valid_key("zone_51"));
    assert!(is_valid_key("0"));
    assert!(is_valid_key("-"));
}

#[test]
fn keys_hold_nothing_else() {
    assert!(!is_valid_key(""));
    assert!(!is_valid_key(".."));
    assert!(!is_valid_key("../secret"));
    assert!(!is_valid_key("a/b"));
    assert!(!is_valid_key("a\\b"));
    assert!(!is_valid_key("C:"));
    assert!(!is_valid_key("us.csv"));
    assert!(!is_valid_key("u s"));
    assert!(!is_valid_key("us\n"));
    assert!(!is_valid_key("españa"));
    assert!(!is_valid_key("XX\0"));
    assert!(!is_valid_key("@"));
    assert!(!is_valid_key("["));
    assert!(!is_valid_key("`"));
    assert!(!is_valid_key("{"));
    assert!(!is_valid_key("/"));
    assert!(!is_valid_key(":"));
}

#[test]
fn a_key_is_valid_exactly_when_all_its_characters_are_allowed() {
    for code in 0..=0x10FFFFu32 {
        if let Some(c) = char::from_u32(code) {
            let allowed = c.is_ascii_alphanumeric() || c == '_' || c == '-';
            assert_eq!(is_valid_key(&c.to_string()), allowed, "U+{code:04X}");
            assert_eq!(is_valid_key(&format!("a{c}b")), allowed, "U+{code:04X}");
        }
    }
}

#[test]
fn the_table_of_a_key_is_kept_under_its_name() {
    assert_eq!(dataset_location("XX"), Some("../export/XX.csv".to_string()));
    assert_eq!(dataset_location("pt-BR"), Some("../export/pt-BR.csv".to_string()));
}

#[test]
fn a_key_that_is_not_valid_has_no_place() {
    assert_eq!(dataset_location(""), None);
    assert_eq!(dataset_location("../../etc/passwd"), None);
    assert_eq!(dataset_location("XX/../YY"), None);
    assert_eq!(dataset_location("XX.csv"), None);
}

#[test]
fn parse_table_reads_the_rows_after_the_header() {
    let text = "Name;Release_Date;Steam_Link\n\
                Alpha;10 Mar, 2023;https://example.com/a\n\
                Beta;Coming soon;https://example.com/b\n";
    assert_eq!(
        parse_table(text),
        Ok(table(&[
            ("Alpha", "10 Mar, 2023", "https://example.com/a"),
            ("Beta", "Coming soon", "https://example.com/b"),
        ]))
    );
}

#[test]
fn parse_table_needs_no_newline_at_the_end() {
    let text = "Name;Release_Date;Steam_Link\nAlpha;10 Mar, 2023;link";
    assert_eq!(parse_table(text), Ok(table(&[("Alpha", "10 Mar, 2023", "link")])));
}

#[test]
fn parse_table_takes_carriage_returns_off_the_lines() {
    let text = "Name;Release_Date;Steam_Link\r\nAlpha;10 Mar, 2023;link\r\nBeta;;\r\n";
    assert_eq!(
        parse_table(text),
        Ok(table(&[("Alpha", "10 Mar, 2023", "link"), ("Beta", "", "")]))
    );
}

#[test]
fn parse_table_passes_over_empty_lines() {
    let text = "\n\r\nName;Release_Date;Steam_Link\n\nAlpha;10 Mar, 2023;link\n\r\n\n";
    assert_eq!(parse_table(text), Ok(table(&[("Alpha", "10 Mar, 2023", "link")])));
}

#[test]
fn parse_table_finds_the_columns_by_their_names() {
    let text = "Id;Steam_Link;Name;Price;Release_Date\n\
                7;link-a;Alpha;9.99;10 Mar, 2023\n\
                8;link-b;Beta;;22 Dec, 2022\n";
    assert_eq!(
        parse_table(text),
        Ok(table(&[("Alpha", "10 Mar, 2023", "link-a"), ("Beta", "22 Dec, 2022", "link-b")]))
    );
}

#[test]
fn parse_table_takes_the_first_of_two_columns_of_one_name() {
    let text = "Name;Name;Release_Date;Steam_Link\nfirst;second;10 Mar, 2023;link\n";
    assert_eq!(parse_table(text), Ok(table(&[("first", "10 Mar, 2023", "link")])));
}

#[test]
fn parse_table_keeps_the_spaces_of_the_fields() {
    let text = "Name;Release_Date;Steam_Link\n Alpha ; 10 Mar, 2023 ;\tlink\n";
    assert_eq!(parse_table(text), Ok(table(&[(" Alpha ", " 10 Mar, 2023 ", "\tlink")])));
}

#[test]
fn parse_table_reads_quoted_fields_without_their_quotes() {
    let text = "\"Name\";Release_Date;\"Steam_Link\"\n\"Alpha\";\"10 Mar, 2023\";\"link\"\n";
    assert_eq!(parse_table(text), Ok(table(&[("Alpha", "10 Mar, 2023", "link")])));
}

#[test]
fn a_quoted_field_may_hold_semicolons_line_breaks_and_doubled_quotes() {
    let text = "Name;Release_Date;Steam_Link\n\
                \"STEINS;GATE\";10 Mar, 2016;link-a\n\
                \"The \"\"Best\"\" Game\";22 Dec, 2022;link-b\n\
                \"Two\nLines\r\n\";01 Feb, 2020;\"\"\n";
    assert_eq!(
        parse_table(text),
        Ok(table(&[
            ("STEINS;GATE", "10 Mar, 2016", "link-a"),
            ("The \"Best\" Game", "22 Dec, 2022", "link-b"),
            ("Two\nLines\r\n", "01 Feb, 2020", ""),
        ]))
    );
}

#[test]
fn a_quote_inside_a_field_that_is_not_quoted_is_kept() {
    let text = "Name;Release_Date;Steam_Link\n5\" Disk;10 Mar, 2023;a\"b\"\n";
    assert_eq!(parse_table(text), Ok(table(&[("5\" Disk", "10 Mar, 2023", "a\"b\"")])));
}

fn rows(text: &str) -> Vec<Vec<String>> {
    read_rows(text)
        .iter()
        .map(|row| row.iter().map(|field| field.iter().collect()).collect())
        .collect()
}

#[test]
fn read_rows_gives_the_fields_of_each_line() {
    let none: Vec<Vec<String>> = vec![];
    assert_eq!(rows("a;b\nc;d\n"), vec![vec!["a", "b"], vec!["c", "d"]]);
    assert_eq!(rows("a;b\r\nc;d"), vec![vec!["a", "b"], vec!["c", "d"]]);
    assert_eq!(rows("a"), vec![vec!["a"]]);
    assert_eq!(rows(";"), vec![vec!["", ""]]);
    assert_eq!(rows("a;;b;\n"), vec![vec!["a", "", "b", ""]]);
    assert_eq!(rows(""), none);
    assert_eq!(rows("\n\r\n\n"), none);
    assert_eq!(rows("\r"), none);
    assert_eq!(rows("a\rb\r\n"), vec![vec!["a\rb"]]);
    assert_eq!(rows("a\r;b\n"), vec![vec!["a\r", "b"]]);
}

#[test]
fn read_rows_takes_the_quotes_off_quoted_fields() {
    assert_eq!(rows("\"\"\n"), vec![vec![""]]);
    assert_eq!(rows("\"\""), vec![vec![""]]);
    assert_eq!(rows("\"a;b\";c"), vec![vec!["a;b", "c"]]);
    assert_eq!(rows("\"a\r\"\r\n"), vec![vec!["a\r"]]);
    assert_eq!(rows("\"a\"b;c"), vec![vec!["ab", "c"]]);
    assert_eq!(rows("\"a\"\"b\""), vec![vec!["a\"b"]]);
    assert_eq!(rows("\"a\"\"\""), vec![vec!["a\""]]);
    assert_eq!(rows("\"never closed;\nstill inside"), vec![vec!["never closed;\nstill inside"]]);
    assert_eq!(rows("\""), vec![vec![""]]);
    assert_eq!(rows("x;\"y\"\n\"z\";w"), vec![vec!["x", "y"], vec!["z", "w"]]);
    assert_eq!(rows("a\"b;c\"d"), vec![vec!["a\"b", "c\"d"]]);
}

#[test]
fn a_text_without_quotes_holds_the_rows_of_its_lines() {
    let samples = ["", "a", "a;b", "a;b\n", "a;b\nc;d", "\n\na;b\n\n", "a;b\r\nc\r\n", ";",
        ";;\n;", "\r", "\r\n", "a\r", "a\r\r\n", "x;y\r;z\r\n",
        "Name;Release_Date;Steam_Link\nAlpha;10 Mar, 2023;l\r\n\r\n;;\n;\nlast", " ; \n\t"];
    for sample in samples {
        let expected: Vec<Vec<Vec<char>>> = sample
            .strip_prefix('\u{feff}')
            .unwrap_or(sample)
            .split('\n')
            .map(|line| line.strip_suffix('\r').unwrap_or(line))
            .filter(|line| !line.is_empty())
            .map(|line| line.split(';').map(|field| field.chars().collect()).collect())
            .collect();
        assert_eq!(read_rows(sample), expected, "{sample:?}");
    }
}

#[test]
fn a_byte_order_mark_at_the_start_is_passed_over() {
    let text = "\u{feff}Name;Release_Date;Steam_Link\nAlpha;10 Mar, 2023;link\n";
    assert_eq!(parse_table(text), Ok(table(&[("Alpha", "10 Mar, 2023", "link")])));
    assert_eq!(rows("\u{feff}a;b\n"), vec![vec!["a", "b"]]);
    assert_eq!(rows("\u{feff}\"a;b\""), vec![vec!["a;b"]]);
    assert_eq!(rows("\u{feff}"), Vec::<Vec<String>>::new());
    assert_eq!(rows("\u{feff}\u{feff}a"), vec![vec!["\u{feff}a"]]);
    assert_eq!(rows("a\n\u{feff}b"), vec![vec!["a"], vec!["\u{feff}b"]]);
}

#[test]
fn a_header_alone_is_a_table_without_rows() {
    assert_eq!(parse_table("Name;Release_Date;Steam_Link\n"), Ok(table(&[])));
    assert_eq!(parse_table("Name;Release_Date;Steam_Link"), Ok(table(&[])));
}

#[test]
fn a_text_without_rows_is_malformed() {
    assert_eq!(parse_table(""), Err(LoadError::Malformed));
    assert_eq!(parse_table("\n\n\r\n"), Err(LoadError::Malformed));
}

#[test]
fn a_header_that_lacks_a_column_is_malformed() {
    assert_eq!(parse_table("Name;Release_Date\nAlpha;10 Mar, 2023\n"), Err(LoadError::Malformed));
    assert_eq!(parse_table("Name;Steam_Link\nAlpha;link\n"), Err(LoadError::Malformed));
    assert_eq!(parse_table("Release_Date;Steam_Link\nx;link\n"), Err(LoadError::Malformed));
    assert_eq!(
        parse_table("name;release_date;steam_link\nAlpha;10 Mar, 2023;link\n"),
        Err(LoadError::Malformed)
    );
    assert_eq!(
        parse_table("Name,Release_Date,Steam_Link\nAlpha,10 Mar 2023,link\n"),
        Err(LoadError::Malformed)
    );
    assert_eq!(parse_table("just some text"), Err(LoadError::Malformed));
}

#[test]
fn a_row_with_more_fields_than_the_header_is_malformed() {
    assert_eq!(
        parse_table("Name;Release_Date;Steam_Link\nAlpha;10 Mar, 2023;link;more\n"),
        Err(LoadError::Malformed)
    );
    assert_eq!(
        parse_table("Name;Release_Date;Steam_Link\nAlpha;10 Mar, 2023;link\nSTEINS;GATE;x;y\n"),
        Err(LoadError::Malformed)
    );
    assert_eq!(
        parse_table("Name;Release_Date;Steam_Link\nAlpha;10 Mar, 2023;link;\n"),
        Err(LoadError::Malformed)
    );
}

#[test]
fn a_row_with_fewer_fields_than_the_header_lacks_the_others() {
    assert_eq!(
        parse_table("Name;Release_Date;Steam_Link\nAlpha;10 Mar, 2023\nBeta\n"),
        Ok(table(&[("Alpha", "10 Mar, 2023", ""), ("Beta", "", "")]))
    );
    assert_eq!(
        parse_table("Steam_Link;Name;Release_Date\nlink\n\"\"\n"),
        Ok(table(&[("", "", "link"), ("", "", "")]))
    );
}

#[test]
fn loading_a_country_without_a_table_gives_not_found() {
    assert_eq!(load("ZZ", None), Err(LoadError::NotFound));
}

#[test]
fn loading_under_a_key_that_is_not_valid_gives_not_found() {
    let text = "Name;Release_Date;Steam_Link\nAlpha;10 Mar, 2023;link\n";
    assert_eq!(load("../XX", Some(text)), Err(LoadError::NotFound));
    assert_eq!(load("", Some(text)), Err(LoadError::NotFound));
    assert_eq!(load("", None), Err(LoadError::NotFound));
}

#[test]
fn loading_a_stored_table_gives_its_rows() {
    let text = "Name;Release_Date;Steam_Link\nAlpha;10 Mar, 2023;link\n";
    assert_eq!(load("XX", Some(text)), Ok(table(&[("Alpha", "10 Mar, 2023", "link")])));
}

#[test]
fn loading_a_stored_text_that_is_no_table_gives_malformed() {
    assert_eq!(load("XX", Some("")), Err(LoadError::Malformed));
    assert_eq!(load("XX", Some("<html></html>")), Err(LoadError::Malformed));
}

#[test]
fn a_table_has_as_many_rows_as_lines_after_the_header() {
    let text = "Name;Release_Date;Steam_Link\na;b;c\nd;e;f\ng;h;i\n";
    assert_eq!(parse_table(text).unwrap().len(), 3);
    assert_eq!(parse_table("Name;Release_Date;Steam_Link").unwrap().len(), 0);
}
