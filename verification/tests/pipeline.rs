//! End-to-end tests of the document pipeline: real HTML bytes in, stored
//! results, scores and rankings out.
use std_score::store::{default_config, RosterStore};
use std_score::{RosterError, Warning};

/// A roster document as the score exports shape it: no doctype, so the
/// document parses in quirks mode and the table stays nested under the
/// third paragraph of the body.
fn roster_html(rows: &[(&str, &str)]) -> Vec<u8> {
    let mut body = String::new();
    body.push_str("<html><body><p>intro</p><p>legend</p><p><table>");
    body.push_str("<tr><th>Rank</th><th>Name</th><th>Score</th></tr>");
    for (i, (name, score)) in rows.iter().enumerate() {
        body.push_str(&format!(
            "<tr><td>{}</td><td>{}</td><td>{}</td></tr>",
            i + 1,
            name,
            score
        ));
    }
    body.push_str("</table></p></body></html>");
    body.into_bytes()
}

#[test]
fn scenario_midterm() {
    let mut store = RosterStore::new(default_config());
    let bytes = roster_html(&[("Alice", "90"), ("Bob", "80"), ("std", "95")]);
    let warnings = store.add_file("Midterm".to_string(), bytes).unwrap();
    assert!(warnings.is_empty());
    // the ignored baseline never influences the qualifying maximum
    let (alice_std, alice_raw) = store.std_raw_for("Midterm", "Alice").unwrap();
    assert_eq!(alice_std, 100_000_000);
    assert_eq!(alice_raw, 90_000_000);
    let (bob_std, bob_raw) = store.std_raw_for("Midterm", "Bob").unwrap();
    assert_eq!(bob_std, 88_888_888);
    assert_eq!(bob_raw, 80_000_000);
    // the ignored identity is gone entirely
    assert!(store.std_raw_for("Midterm", "std").is_none());
}

#[test]
fn scenario_final() {
    let mut store = RosterStore::new(default_config());
    let bytes = roster_html(&[("Alice", "70"), ("Carol", "70")]);
    store.add_file("Final".to_string(), bytes).unwrap();
    let (alice_std, _) = store.std_raw_for("Final", "Alice").unwrap();
    let (carol_std, _) = store.std_raw_for("Final", "Carol").unwrap();
    assert_eq!(alice_std, 100_000_000);
    assert_eq!(carol_std, 100_000_000);
}

#[test]
fn combined_ranking() {
    let mut store = RosterStore::new(default_config());
    store
        .add_file(
            "Midterm".to_string(),
            roster_html(&[("Alice", "90"), ("Bob", "80"), ("std", "95")]),
        )
        .unwrap();
    store
        .add_file(
            "Final".to_string(),
            roster_html(&[("Alice", "70"), ("Carol", "70")]),
        )
        .unwrap();
    let ranking = store.rankings();
    assert_eq!(ranking.len(), 3);
    // Alice and Carol tie at 100; the tie is broken by name ascending.
    assert_eq!(ranking[0].identity, "Alice");
    assert_eq!(ranking[0].avg_std_micros, 100_000_000);
    assert_eq!(ranking[1].identity, "Carol");
    assert_eq!(ranking[1].avg_std_micros, 100_000_000);
    assert_eq!(ranking[2].identity, "Bob");
    assert_eq!(ranking[2].avg_std_micros, 88_888_888);
    // an identity absent from a file has no data there, distinguishable
    // from a real zero
    assert!(store.std_raw_for("Final", "Bob").is_none());
    assert!(store.std_raw_for("Midterm", "Carol").is_none());
}

#[test]
fn average_ignores_file_order() {
    // the same two files in either insertion order give the same averages
    let a = roster_html(&[("Alice", "90"), ("Bob", "80")]);
    let b = roster_html(&[("Alice", "60"), ("Bob", "90")]);
    let mut s1 = RosterStore::new(default_config());
    s1.add_file("one".to_string(), a.clone()).unwrap();
    s1.add_file("two".to_string(), b.clone()).unwrap();
    let mut s2 = RosterStore::new(default_config());
    s2.add_file("two".to_string(), b).unwrap();
    s2.add_file("one".to_string(), a).unwrap();
    let r1 = s1.rankings();
    let r2 = s2.rankings();
    assert_eq!(r1.len(), r2.len());
    for (x, y) in r1.iter().zip(r2.iter()) {
        assert_eq!(x.identity, y.identity);
        assert_eq!(x.avg_std_micros, y.avg_std_micros);
    }
}

#[test]
fn readding_label_replaces_in_place() {
    let mut store = RosterStore::new(default_config());
    store
        .add_file("a.html".to_string(), roster_html(&[("Alice", "90")]))
        .unwrap();
    store
        .add_file("b.html".to_string(), roster_html(&[("Bob", "50")]))
        .unwrap();
    store
        .add_file("a.html".to_string(), roster_html(&[("Dora", "40")]))
        .unwrap();
    let labels = store.labels();
    assert_eq!(labels, vec!["a.html".to_string(), "b.html".to_string()]);
    assert_eq!(store.file_count(), 2);
    // the old result under the label is gone, the new one is there
    assert!(store.std_raw_for("a.html", "Alice").is_none());
    let (d_std, d_raw) = store.std_raw_for("a.html", "Dora").unwrap();
    assert_eq!(d_std, 100_000_000);
    assert_eq!(d_raw, 40_000_000);
    // the replaced identity also left the rankings
    assert!(store.rankings().iter().all(|e| e.identity != "Alice"));
}

#[test]
fn degenerate_zero_maximum() {
    let mut store = RosterStore::new(default_config());
    let warnings = store
        .add_file("zero.html".to_string(), roster_html(&[("Zed", "0"), ("std", "10")]))
        .unwrap();
    assert!(warnings.contains(&Warning::DegenerateMax));
    let (z_std, z_raw) = store.std_raw_for("zero.html", "Zed").unwrap();
    assert_eq!(z_std, 0);
    assert_eq!(z_raw, 0);
}

#[test]
fn alias_maps_short_code_to_display_name() {
    let mut store = RosterStore::new(default_config());
    store
        .add_file(
            "m.html".to_string(),
            roster_html(&[("CQYC-WHT", "90"), ("Alice", "100")]),
        )
        .unwrap();
    let ranking = store.rankings();
    assert!(ranking
        .iter()
        .any(|e| e.identity == "CQYC-\u{738b}\u{9e3f}\u{5929}"));
    assert!(ranking.iter().all(|e| e.identity != "CQYC-WHT"));
}

#[test]
fn name_inside_anchor_wins() {
    let html = "<html><body><p>a</p><p>b</p><p><table>\
        <tr><th>h</th><th>h</th><th>h</th></tr>\
        <tr><td>1</td><td><a href=\"#\">Alice</a> (link)</td><td>90</td></tr>\
        </table></p></body></html>";
    let mut store = RosterStore::new(default_config());
    store
        .add_file("x".to_string(), html.as_bytes().to_vec())
        .unwrap();
    let (std, _) = store.std_raw_for("x", "Alice").unwrap();
    assert_eq!(std, 100_000_000);
}

#[test]
fn short_and_nameless_rows_warn_and_skip() {
    let html = "<html><body><p>a</p><p>b</p><p><table>\
        <tr><th>h</th></tr>\
        <tr><td>1</td><td>Alice</td><td>80</td></tr>\
        <tr><td>2</td><td>only-two</td></tr>\
        <tr><td>3</td><td>   </td><td>70</td></tr>\
        </table></p></body></html>";
    let mut store = RosterStore::new(default_config());
    let warnings = store
        .add_file("w".to_string(), html.as_bytes().to_vec())
        .unwrap();
    let shorts = warnings
        .iter()
        .filter(|w| matches!(w, Warning::RowTooShort(_)))
        .count();
    let nameless = warnings
        .iter()
        .filter(|w| matches!(w, Warning::EmptyName(_)))
        .count();
    assert_eq!(shorts, 1);
    assert_eq!(nameless, 1);
    assert_eq!(store.rankings().len(), 1);
}

#[test]
fn invalid_utf8_is_an_encoding_error() {
    let mut store = RosterStore::new(default_config());
    let err = store
        .add_file("bad".to_string(), vec![0xff, 0xfe, 0x80])
        .unwrap_err();
    assert_eq!(err, RosterError::Encoding);
    assert_eq!(store.file_count(), 0);
}

#[test]
fn missing_table_is_a_structure_error() {
    let mut store = RosterStore::new(default_config());
    let err = store
        .add_file(
            "no-table".to_string(),
            b"<html><body><p>a</p></body></html>".to_vec(),
        )
        .unwrap_err();
    assert_eq!(err, RosterError::Structure);
}

#[test]
fn unparsable_score_is_a_parse_error() {
    let mut store = RosterStore::new(default_config());
    let err = store
        .add_file(
            "bad-score".to_string(),
            roster_html(&[("Alice", "ninety")]),
        )
        .unwrap_err();
    assert_eq!(err, RosterError::Parse);
    // the whole document is rejected
    assert_eq!(store.file_count(), 0);
}

#[test]
fn only_ignored_rows_is_an_empty_result() {
    let mut store = RosterStore::new(default_config());
    let err = store
        .add_file("only-std".to_string(), roster_html(&[("std", "95")]))
        .unwrap_err();
    assert_eq!(err, RosterError::EmptyResult);
}

#[test]
fn header_only_table_is_an_empty_result() {
    let mut store = RosterStore::new(default_config());
    let err = store
        .add_file("header-only".to_string(), roster_html(&[]))
        .unwrap_err();
    assert_eq!(err, RosterError::EmptyResult);
}

#[test]
fn clear_discards_everything() {
    let mut store = RosterStore::new(default_config());
    store
        .add_file("a".to_string(), roster_html(&[("Alice", "90")]))
        .unwrap();
    store.set_precision(4);
    store.clear();
    assert_eq!(store.file_count(), 0);
    assert_eq!(store.precision, 2);
    assert!(store.rankings().is_empty());
    assert!(store.labels().is_empty());
}

#[test]
fn duplicate_identities_use_the_first_entry() {
    let mut store = RosterStore::new(default_config());
    store
        .add_file(
            "dup".to_string(),
            roster_html(&[("Alice", "80"), ("Alice", "90")]),
        )
        .unwrap();
    // both rows count toward the qualifying maximum, but lookups and
    // averages read the first entry of the identity
    let (a_std, a_raw) = store.std_raw_for("dup", "Alice").unwrap();
    assert_eq!(a_raw, 80_000_000);
    assert_eq!(a_std, 88_888_888);
    let ranking = store.rankings();
    assert_eq!(ranking.len(), 1);
    assert_eq!(ranking[0].avg_std_micros, 88_888_888);
}

#[test]
fn spellings_reconcile_to_one_identity_across_files() {
    let mut store = RosterStore::new(default_config());
    store
        .add_file("one".to_string(), roster_html(&[("cqyc-wht", "50"), ("Ann", "100")]))
        .unwrap();
    store
        .add_file("two".to_string(), roster_html(&[("CQYC-WHT", "90"), ("Ann", "90")]))
        .unwrap();
    let ranking = store.rankings();
    // both spellings resolved to the same canonical identity
    assert_eq!(ranking.len(), 2);
    let wang = ranking
        .iter()
        .find(|e| e.identity == "CQYC-\u{738b}\u{9e3f}\u{5929}")
        .unwrap();
    // (50 and 100 standardized against the per-file maxima) / 2
    assert_eq!(wang.avg_std_micros, (50_000_000 + 100_000_000) / 2);
}

#[test]
fn ignore_set_matches_case_insensitively() {
    let mut store = RosterStore::new(default_config());
    store
        .add_file(
            "m".to_string(),
            roster_html(&[("Alice", "90"), ("STD", "95")]),
        )
        .unwrap();
    // the baseline row is excluded whatever its case, so it neither sets
    // the qualifying maximum nor appears anywhere
    let (a_std, _) = store.std_raw_for("m", "Alice").unwrap();
    assert_eq!(a_std, 100_000_000);
    assert!(store.std_raw_for("m", "STD").is_none());
    assert_eq!(store.rankings().len(), 1);
}

#[test]
fn labels_keep_insertion_order() {
    let mut store = RosterStore::new(default_config());
    for name in ["c.html", "a.html", "b.html"] {
        store
            .add_file(name.to_string(), roster_html(&[("Alice", "90")]))
            .unwrap();
    }
    assert_eq!(
        store.labels(),
        vec!["c.html".to_string(), "a.html".to_string(), "b.html".to_string()]
    );
}

#[test]
fn micro_units_round_to_expected_display_values() {
    // Bob's average of 88888888 micro-units displays as 88.89 at the
    // default precision of two decimals
    let micros: i128 = 88_888_888;
    let shown = format!("{:.2}", micros as f64 / 1_000_000.0);
    assert_eq!(shown, "88.89");
}

#[test]
fn first_table_locator_takes_any_table() {
    // the table is a direct child of the body, not under a paragraph, so
    // the default locator rejects the document while the first-table
    // strategy accepts it
    let html = "<html><body><table>\
        <tr><th>h</th><th>h</th><th>h</th></tr>\
        <tr><td>1</td><td>Alice</td><td>90</td></tr>\
        </table></body></html>";
    let mut strict = RosterStore::new(default_config());
    let err = strict
        .add_file("t".to_string(), html.as_bytes().to_vec())
        .unwrap_err();
    assert_eq!(err, RosterError::Structure);

    let mut cfg = default_config();
    cfg.locator = std_score::extract::TableLocator::FirstTable;
    let mut lenient = RosterStore::new(cfg);
    lenient
        .add_file("t".to_string(), html.as_bytes().to_vec())
        .unwrap();
    let (std, _) = lenient.std_raw_for("t", "Alice").unwrap();
    assert_eq!(std, 100_000_000);
}

#[test]
fn negative_scores_are_exact() {
    let mut store = RosterStore::new(default_config());
    store
        .add_file(
            "neg".to_string(),
            roster_html(&[("Alice", "-12.5"), ("Bob", "50")]),
        )
        .unwrap();
    let (a_std, a_raw) = store.std_raw_for("neg", "Alice").unwrap();
    assert_eq!(a_raw, -12_500_000);
    // -12.5 / 50 * 100 = -25 points
    assert_eq!(a_std, -25_000_000);
}
