use souvenir::analytics::{
    activation_months_of, batch_entries, batch_rollups, build_dashboard, group_batches, monthly_activity, top_entries,
    top_visited,
};
use souvenir::auth::AdminConfig;
use souvenir::calendar::trailing_month_labels;
use souvenir::export::{batch_export_filename, export_awaiting, export_batch};
use souvenir::model::{GenerateLoteRequest, Iman, LoginForm};
use souvenir::provisioning::{generate_lote, slug_of, strip_spaces};
use souvenir::resolution::{check_target_url, resolution_for, validate_target_url, ConfigError, Resolution};
use souvenir::store::{find_code, TagStore};
use souvenir::text::{contains_text, starts_with_text, text_less};

const MARCH_15_2024: i64 = 1710460800000;
const FEB_10_2024: i64 = 1707523200000;
const OCT_10_2023: i64 = 1696896000000;
const AUG_10_2023: i64 = 1691625600000;

fn tag(code: &str) -> Iman {
    Iman {
        id: None,
        codigo: code.to_string(),
        target_url: None,
        active: false,
        visitas: 0,
        activated_at: None,
        last_scan_at: None,
        exported: false,
        lote_nombre: None,
        lote_fecha: None,
    }
}

fn active_tag(code: &str, url: &str, activated_at: i64) -> Iman {
    let mut t = tag(code);
    t.active = true;
    t.target_url = Some(url.to_string());
    t.activated_at = Some(activated_at);
    t
}

fn visited_tag(code: &str, visits: u32) -> Iman {
    let mut t = tag(code);
    t.visitas = visits;
    t
}

fn batch_tag(code: &str, name: &str, stamp: i64, visits: u32) -> Iman {
    let mut t = tag(code);
    t.lote_nombre = Some(name.to_string());
    t.lote_fecha = Some(stamp);
    t.visitas = visits;
    t
}

#[test]
fn accepts_listed_https_urls() {
    assert_eq!(check_target_url("https://www.tiktok.com/@x"), Ok(()));
    assert_eq!(check_target_url("https://instagram.com/p/1"), Ok(()));
    assert_eq!(check_target_url("https://x.com/someone"), Ok(()));
    assert_eq!(check_target_url("https://m.youtube.com/@chan"), Ok(()));
}

#[test]
fn rejects_urls_without_https() {
    assert_eq!(check_target_url("http://instagram.com/p/1"), Err(ConfigError::InsecureScheme));
    assert_eq!(check_target_url("instagram.com/p/1"), Err(ConfigError::InsecureScheme));
    assert_eq!(check_target_url(""), Err(ConfigError::InsecureScheme));
    assert_eq!(validate_target_url("ftp://tiktok.com"), Err(ConfigError::InsecureScheme));
}

#[test]
fn rejects_unlisted_domains() {
    assert_eq!(check_target_url("https://example.org/page"), Err(ConfigError::DisallowedDomain));
    assert_eq!(check_target_url("https://"), Err(ConfigError::DisallowedDomain));
    assert_eq!(validate_target_url("  https://evil.test  "), Err(ConfigError::DisallowedDomain));
}

#[test]
fn validation_trims_the_input() {
    assert_eq!(validate_target_url(" https://tiktok.com/@a "), Ok("https://tiktok.com/@a".to_string()));
    assert_eq!(validate_target_url("\thttps://facebook.com/p\n"), Ok("https://facebook.com/p".to_string()));
}

#[test]
fn text_helpers() {
    assert!(starts_with_text("https://a", "https://"));
    assert!(!starts_with_text("http", "https://"));
    assert!(contains_text("abcdef", "cde"));
    assert!(!contains_text("abcdef", "ced"));
    assert!(contains_text("abc", ""));
    assert!(text_less("ABC-1", "ABC-2"));
    assert!(text_less("AB", "ABC"));
    assert!(!text_less("ABC", "ABC"));
    assert!(!text_less("b", "a"));
}

#[test]
fn generate_batch_of_five() {
    let request = GenerateLoteRequest { cantidad: 5, nombre_lote: "Demo".to_string() };
    let tags = generate_lote(&request, 1_700_123_456, MARCH_15_2024);
    assert_eq!(tags.len(), 5);
    let codes: Vec<&str> = tags.iter().map(|t| t.codigo.as_str()).collect();
    assert_eq!(
        codes,
        vec!["DEMO-123456-0001", "DEMO-123456-0002", "DEMO-123456-0003", "DEMO-123456-0004", "DEMO-123456-0005"]
    );
    for t in &tags {
        assert!(!t.active);
        assert_eq!(t.visitas, 0);
        assert_eq!(t.lote_fecha, Some(MARCH_15_2024));
        assert_eq!(t.lote_nombre.as_deref(), Some("Demo"));
        assert_eq!(t.target_url, None);
        assert_eq!(t.activated_at, None);
        assert_eq!(t.last_scan_at, None);
        assert!(!t.exported);
    }
}

#[test]
fn batch_name_slug_drops_spaces_and_upcases() {
    assert_eq!(strip_spaces("Huasteca Potosina 2"), "HuastecaPotosina2");
    assert_eq!(slug_of("Huasteca Potosina"), "HUASTECAPOTOSINA");
    let request = GenerateLoteRequest { cantidad: 1, nombre_lote: "mi lote".to_string() };
    let tags = generate_lote(&request, 42, 0);
    assert_eq!(tags[0].codigo, "MILOTE-42-0001");
}

#[test]
fn batch_of_zero_or_negative_count_is_empty() {
    let none = GenerateLoteRequest { cantidad: 0, nombre_lote: "X".to_string() };
    assert!(generate_lote(&none, 5, 0).is_empty());
    let negative = GenerateLoteRequest { cantidad: -3, nombre_lote: "X".to_string() };
    assert!(generate_lote(&negative, 5, 0).is_empty());
}

#[test]
fn sequence_numbers_grow_past_four_digits() {
    let request = GenerateLoteRequest { cantidad: 10000, nombre_lote: "B".to_string() };
    let tags = generate_lote(&request, 2_000_000, 0);
    assert_eq!(tags.len(), 10000);
    assert_eq!(tags[9].codigo, "B-0-0010");
    assert_eq!(tags[999].codigo, "B-0-1000");
    assert_eq!(tags[9999].codigo, "B-0-10000");
}

#[test]
fn export_unexported_twice_drains() {
    let mut configured = tag("C-1");
    configured.active = true;
    configured.target_url = Some("https://tiktok.com/@c".to_string());
    let mut already = tag("E-1");
    already.exported = true;
    let mut store = TagStore::from_tags(vec![tag("A-1"), configured, already, tag("A-2")]);
    let first = store.export_unexported("https://iman.mx");
    assert_eq!(
        first,
        Some("codigo,url_completa\nA-1,https://iman.mx/v/A-1\nA-2,https://iman.mx/v/A-2\n".to_string())
    );
    assert!(store.tags[0].exported);
    assert!(!store.tags[1].exported);
    assert!(store.tags[3].exported);
    assert_eq!(store.export_unexported("https://iman.mx"), None);
}

#[test]
fn export_of_empty_collection_reports_nothing() {
    let tags: Vec<Iman> = Vec::new();
    assert_eq!(export_awaiting(&tags, "http://localhost:3000"), None);
}

#[test]
fn batch_export_sorted_by_code_with_filters() {
    let tags = vec![
        batch_tag("L-9-0003", "Lote", 100, 0),
        batch_tag("L-9-0001", "Lote", 100, 4),
        batch_tag("L-9-0002", "Lote", 100, 0),
        batch_tag("O-1-0001", "Otro", 100, 0),
        batch_tag("L-8-0001", "Lote", 50, 0),
    ];
    let all = export_batch(&tags, "Lote", "all", Some(100), "http://h");
    assert_eq!(
        all,
        "codigo,url_completa\nL-9-0001,http://h/v/L-9-0001\nL-9-0002,http://h/v/L-9-0002\nL-9-0003,http://h/v/L-9-0003\n"
    );
    let available = export_batch(&tags, "Lote", "available", Some(100), "http://h");
    assert_eq!(
        available,
        "codigo,url_completa\nL-9-0002,http://h/v/L-9-0002\nL-9-0003,http://h/v/L-9-0003\n"
    );
    let every_date = export_batch(&tags, "Lote", "available", None, "http://h");
    assert_eq!(
        every_date,
        "codigo,url_completa\nL-8-0001,http://h/v/L-8-0001\nL-9-0002,http://h/v/L-9-0002\nL-9-0003,http://h/v/L-9-0003\n"
    );
    assert_eq!(export_batch(&tags, "Nada", "all", None, "http://h"), "codigo,url_completa\n");
    assert_eq!(batch_export_filename("Lote", "available"), "lote_Lote_available.csv");
}

#[test]
fn monthly_histogram_window() {
    let tags = vec![
        active_tag("A", "https://x.com/a", MARCH_15_2024),
        active_tag("B", "https://x.com/b", FEB_10_2024),
        active_tag("C", "https://x.com/c", OCT_10_2023),
        active_tag("D", "https://x.com/d", AUG_10_2023),
        tag("E"),
    ];
    let view = build_dashboard(&tags, MARCH_15_2024).unwrap();
    assert_eq!(view.activity.counts, vec![1, 0, 0, 0, 1, 1]);
    assert_eq!(view.activity.this_month, 1);
    assert_eq!(view.activity.last_month, 1);
    assert_eq!(view.month_labels, vec!["Oct", "Nov", "Dec", "Jan", "Feb", "Mar"]);
    assert_eq!(view.total, 5);
    assert_eq!(view.active, 4);
    assert_eq!(view.available, 1);
}

#[test]
fn last_month_wraps_over_new_year() {
    let tags = vec![
        active_tag("A", "https://x.com/a", 1701734400000),
        active_tag("B", "https://x.com/b", 1705708800000),
    ];
    let months = activation_months_of(&tags);
    assert_eq!(months, vec![Some((2023, 12)), Some((2024, 1))]);
    let activity = monthly_activity(&tags, &months, (2024, 1));
    assert_eq!(activity.this_month, 1);
    assert_eq!(activity.last_month, 1);
    assert_eq!(activity.counts, vec![0, 0, 0, 0, 1, 1]);
}

#[test]
fn inactive_tags_are_not_counted_as_activations() {
    let mut t = tag("A");
    t.activated_at = Some(MARCH_15_2024);
    let activity = monthly_activity(&vec![t], &vec![Some((2024, 3))], (2024, 3));
    assert_eq!(activity.this_month, 0);
    assert_eq!(activity.counts, vec![0, 0, 0, 0, 0, 0]);
}

#[test]
fn month_labels_cross_the_year() {
    assert_eq!(trailing_month_labels((2024, 2)), vec!["Sep", "Oct", "Nov", "Dec", "Jan", "Feb"]);
    assert_eq!(trailing_month_labels((2024, 12)), vec!["Jul", "Aug", "Sep", "Oct", "Nov", "Dec"]);
}

#[test]
fn activation_months_from_instants() {
    let mut never = tag("N");
    never.active = true;
    let tags = vec![
        active_tag("A", "https://x.com/a", MARCH_15_2024),
        active_tag("B", "https://x.com/b", 0),
        active_tag("C", "https://x.com/c", i64::MAX),
        never,
    ];
    assert_eq!(activation_months_of(&tags), vec![Some((2024, 3)), Some((1970, 1)), None, None]);
    let mut scanned = batch_tag("S-1", "S", MARCH_15_2024, 1);
    scanned.last_scan_at = Some(0);
    let entries = batch_entries(&vec![scanned]);
    assert_eq!(entries[0].created_at_iso, Some("2024-03-15T00:00:00+00:00".to_string()));
}

#[test]
fn top_ten_of_fifteen() {
    let tags: Vec<Iman> = (1..=15u32).map(|v| visited_tag(&format!("T{}", v), v * 3)).collect();
    let top = top_visited(&tags);
    assert_eq!(top, vec![14, 13, 12, 11, 10, 9, 8, 7, 6, 5]);
    assert!(!top.contains(&4));
    let entries = top_entries(&tags);
    assert_eq!(entries.len(), 10);
    assert_eq!(entries[0].codigo, "T15");
    assert_eq!(entries[0].visitas, 45);
    assert_eq!(entries[9].codigo, "T6");
    for w in entries.windows(2) {
        assert!(w[0].visitas > w[1].visitas);
    }
}

#[test]
fn top_ranking_skips_unvisited_and_keeps_order_on_ties() {
    let tags = vec![
        visited_tag("A", 0),
        visited_tag("B", 2),
        visited_tag("C", 5),
        visited_tag("D", 2),
        visited_tag("E", 0),
    ];
    assert_eq!(top_visited(&tags), vec![2, 1, 3]);
    let mut scanned = visited_tag("S", 1);
    scanned.last_scan_at = Some(MARCH_15_2024);
    let entries = top_entries(&vec![scanned]);
    assert_eq!(entries[0].last_scan_iso, Some("2024-03-15T00:00:00+00:00".to_string()));
}

#[test]
fn batches_grouped_and_newest_first() {
    let tags = vec![
        batch_tag("A-1", "Alfa", 100, 0),
        batch_tag("B-1", "Beta", 300, 2),
        batch_tag("A-2", "Alfa", 100, 1),
        batch_tag("A-3", "Alfa", 200, 0),
        tag("LOOSE"),
        batch_tag("B-2", "Beta", 300, 0),
    ];
    let groups = group_batches(&tags);
    assert_eq!(groups.len(), 3);
    assert_eq!((groups[0].nombre.as_str(), groups[0].created_at, groups[0].total, groups[0].asignados), ("Alfa", 100, 2, 1));
    let rollups = batch_rollups(&tags);
    let seen: Vec<(&str, i64, usize, usize)> =
        rollups.iter().map(|b| (b.nombre.as_str(), b.created_at, b.total, b.asignados)).collect();
    assert_eq!(seen, vec![("Beta", 300, 2, 1), ("Alfa", 200, 1, 0), ("Alfa", 100, 2, 1)]);
    let entries = batch_entries(&tags);
    assert_eq!(entries[0].created_at_iso, Some("1970-01-01T00:00:00.300+00:00".to_string()));
}

#[test]
fn batches_of_equal_instant_keep_first_seen_order() {
    let tags = vec![batch_tag("Z-1", "Zeta", 7, 0), batch_tag("A-1", "Alfa", 7, 0)];
    let names: Vec<String> = batch_rollups(&tags).into_iter().map(|b| b.nombre).collect();
    assert_eq!(names, vec!["Zeta".to_string(), "Alfa".to_string()]);
}

#[test]
fn resolution_outcomes() {
    assert!(matches!(resolution_for("X", None), Resolution::NotFound));
    let pending = tag("P-1");
    assert!(matches!(resolution_for("P-1", Some(pending)), Resolution::NeedsSetup(c) if c == "P-1"));
    let mut empty_url = tag("E-1");
    empty_url.active = true;
    empty_url.target_url = Some(String::new());
    assert!(matches!(resolution_for("E-1", Some(empty_url)), Resolution::NeedsSetup(_)));
    let live = active_tag("L-1", "https://x.com/l", 0);
    assert!(matches!(resolution_for("L-1", Some(live)), Resolution::Redirect(u) if u == "https://x.com/l"));
}

#[test]
fn scan_configure_scan_end_to_end() {
    let mut store = TagStore::from_tags(vec![tag("OTHER"), tag("DEMO-1")]);
    let first = store.resolve("DEMO-1", 1000);
    assert!(matches!(first, Resolution::NeedsSetup(ref c) if c == "DEMO-1"));
    assert_eq!(store.tags[1].visitas, 1);
    assert_eq!(store.tags[1].last_scan_at, Some(1000));
    assert_eq!(store.configure("DEMO-1", " https://tiktok.com/@a ", 2000), Ok(()));
    assert!(store.tags[1].active);
    assert_eq!(store.tags[1].target_url.as_deref(), Some("https://tiktok.com/@a"));
    assert_eq!(store.tags[1].activated_at, Some(2000));
    let second = store.resolve("DEMO-1", 3000);
    assert!(matches!(second, Resolution::Redirect(ref u) if u == "https://tiktok.com/@a"));
    assert_eq!(store.tags[1].visitas, 2);
    assert_eq!(store.tags[0].visitas, 0);
}

#[test]
fn unknown_code_is_not_found_and_changes_nothing() {
    let mut store = TagStore::from_tags(vec![tag("A")]);
    assert!(matches!(store.resolve("B", 5), Resolution::NotFound));
    assert_eq!(store.tags[0].visitas, 0);
    assert_eq!(store.tags[0].last_scan_at, None);
    assert_eq!(store.configure("B", "https://x.com/b", 5), Ok(()));
    assert!(!store.tags[0].active);
}

#[test]
fn rejected_configuration_changes_nothing() {
    let mut store = TagStore::from_tags(vec![tag("A")]);
    assert_eq!(store.configure("A", "http://x.com/b", 5), Err(ConfigError::InsecureScheme));
    assert!(!store.tags[0].active);
    assert_eq!(store.tags[0].target_url, None);
}

#[test]
fn every_resolution_is_counted() {
    let mut store = TagStore::from_tags(vec![tag("A"), tag("B")]);
    for k in 0..25 {
        store.resolve("B", k);
    }
    assert_eq!(store.tags[1].visitas, 25);
    assert_eq!(store.tags[1].last_scan_at, Some(24));
    assert_eq!(store.tags[0].visitas, 0);
}

#[test]
fn counter_stops_at_its_limit() {
    let mut store = TagStore::from_tags(vec![visited_tag("A", u32::MAX)]);
    store.resolve("A", 1);
    assert_eq!(store.tags[0].visitas, u32::MAX);
}

#[test]
fn lookup_finds_the_first_match() {
    let tags = vec![tag("A"), tag("B"), tag("B")];
    assert_eq!(find_code(&tags, "B"), Some(1));
    assert_eq!(find_code(&tags, "C"), None);
}

#[test]
fn inserted_batch_is_appended() {
    let mut store = TagStore::from_tags(vec![tag("A")]);
    let request = GenerateLoteRequest { cantidad: 2, nombre_lote: "Feria 24".to_string() };
    store.insert_batch(&request, 3_999_999, 77);
    assert_eq!(store.tags.len(), 3);
    assert_eq!(store.tags[0].codigo, "A");
    assert_eq!(store.tags[1].codigo, "FERIA24-999999-0001");
    assert_eq!(store.tags[2].codigo, "FERIA24-999999-0002");
}

#[test]
fn admin_settings_and_login() {
    let defaults = AdminConfig::from_settings(None, None);
    assert_eq!(defaults.password, "admin123");
    assert_eq!(defaults.base_url, "http://localhost:3000");
    let config = AdminConfig::from_settings(Some("s3cret".to_string()), Some("https://iman.mx".to_string()));
    assert!(config.accepts(&LoginForm { password: "s3cret".to_string() }));
    assert!(!config.accepts(&LoginForm { password: "admin123".to_string() }));
    assert_eq!(config.base_url, "https://iman.mx");
}

#[test]
fn dashboard_needs_a_representable_now() {
    assert!(build_dashboard(&Vec::new(), i64::MIN).is_none());
    let view = build_dashboard(&Vec::new(), MARCH_15_2024).unwrap();
    assert_eq!(view.total, 0);
    assert!(view.top.is_empty());
    assert!(view.batches.is_empty());
}

#[test]
fn reconfiguring_keeps_the_first_activation_instant() {
    let mut store = TagStore::from_tags(vec![tag("R-1")]);
    assert_eq!(store.configure("R-1", "https://instagram.com/a", 1000), Ok(()));
    assert_eq!(store.tags[0].activated_at, Some(1000));
    assert_eq!(store.configure("R-1", "https://youtube.com/b", 5000), Ok(()));
    assert_eq!(store.tags[0].activated_at, Some(1000));
    assert_eq!(store.tags[0].last_scan_at, Some(5000));
    assert_eq!(store.tags[0].target_url.as_deref(), Some("https://youtube.com/b"));
}

#[test]
fn validation_trims_unicode_whitespace() {
    assert_eq!(
        validate_target_url("\u{3000}\u{a0} https://x.com/u \u{2029}"),
        Ok("https://x.com/u".to_string())
    );
    assert_eq!(validate_target_url("\u{200b}https://x.com/u"), Err(ConfigError::InsecureScheme));
}

#[test]
fn top_ranking_lists_every_visited_tag_when_fewer_than_ten() {
    let tags = vec![visited_tag("A", 4), visited_tag("B", 0), visited_tag("C", 9), visited_tag("D", 4)];
    assert_eq!(top_visited(&tags), vec![2, 0, 3]);
}
