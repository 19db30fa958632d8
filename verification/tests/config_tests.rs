use pixel_text::config::{apply_config_update, set_config, Config, ConfigError, Rgba, UpdateValue};

#[test]
fn default_configuration() {
    let cfg = Config::default();
    assert_eq!(cfg.column_count, 1);
    assert_eq!(cfg.column_width, 80);
    assert_eq!(cfg.char_spacing, 1);
    assert_eq!(cfg.line_spacing, 1);
    assert_eq!(cfg.column_spacing, 4);
    assert_eq!(cfg.scaling, 1);
    assert_eq!(
        (cfg.margin_top, cfg.margin_right, cfg.margin_bottom, cfg.margin_left),
        (0, 0, 0, 0)
    );
    assert_eq!(cfg.fg_color, Rgba { r: 0, g: 0, b: 0, a: 255 });
    assert_eq!(cfg.bg_color, Rgba { r: 255, g: 255, b: 255, a: 0 });
}

#[test]
fn sets_numeric_fields() {
    let mut cfg = Config::default();
    set_config(&mut cfg, "{\"column_count\": 2, \"scaling\": 3}").unwrap();
    assert_eq!(cfg.column_count, 2);
    assert_eq!(cfg.scaling, 3);
    assert_eq!(cfg.column_width, 80);
}

#[test]
fn sets_single_margins() {
    let mut cfg = Config::default();
    set_config(&mut cfg, "{\"margins\": {\"top\": 3, \"left\": 7}}").unwrap();
    assert_eq!(cfg.margin_top, 3);
    assert_eq!(cfg.margin_left, 7);
    assert_eq!(cfg.margin_right, 0);
    assert_eq!(cfg.margin_bottom, 0);
}

#[test]
fn sets_colors_from_four_element_arrays() {
    let mut cfg = Config::default();
    set_config(&mut cfg, "{\"fg_color\": [1, 2, 3, 4], \"bg_color\": [9, 8, 7, 6]}").unwrap();
    assert_eq!(cfg.fg_color, Rgba { r: 1, g: 2, b: 3, a: 4 });
    assert_eq!(cfg.bg_color, Rgba { r: 9, g: 8, b: 7, a: 6 });
}

#[test]
fn rejects_unknown_keys() {
    let mut cfg = Config::default();
    let before = cfg;
    let err = set_config(&mut cfg, "{\"column_count\": 2, \"nope\": 1}").unwrap_err();
    assert!(matches!(&err, ConfigError::InvalidEntry { key } if key == "nope"));
    assert_eq!(cfg, before);
}

#[test]
fn rejects_wrongly_shaped_values() {
    let mut cfg = Config::default();
    let before = cfg;
    assert!(set_config(&mut cfg, "{\"column_count\": \"two\"}").is_err());
    assert!(set_config(&mut cfg, "{\"column_count\": -1}").is_err());
    assert!(set_config(&mut cfg, "{\"fg_color\": [1, 2, 3]}").is_err());
    assert!(set_config(&mut cfg, "{\"fg_color\": [1, 2, 3, 256]}").is_err());
    assert!(set_config(&mut cfg, "{\"margins\": 3}").is_err());
    assert!(set_config(&mut cfg, "{\"margins\": {\"top\": -1}}").is_err());
    assert_eq!(cfg, before);
}

#[test]
fn rejects_text_that_is_not_an_object() {
    let mut cfg = Config::default();
    let before = cfg;
    assert!(matches!(set_config(&mut cfg, "42"), Err(ConfigError::NotAnObject)));
    assert!(matches!(set_config(&mut cfg, "not json"), Err(ConfigError::Malformed)));
    assert_eq!(cfg, before);
}

#[test]
fn error_reports_the_offending_key() {
    let mut cfg = Config::default();
    let err = set_config(&mut cfg, "{\"colour\": 1}").unwrap_err();
    assert_eq!(err.key().map(|k| k.as_str()), Some("colour"));
    assert!(matches!(set_config(&mut cfg, "x"), Err(e) if e.key().is_none()));
}

#[test]
fn applies_a_prepared_document() {
    let cfg = Config::default();
    let doc = vec![
        ("column_width".to_string(), UpdateValue::Num(Some(12))),
        ("line_spacing".to_string(), UpdateValue::Num(Some(2))),
    ];
    let updated = apply_config_update(&cfg, &doc).unwrap();
    assert_eq!(updated.column_width, 12);
    assert_eq!(updated.line_spacing, 2);
    assert_eq!(updated.column_count, 1);
}

#[test]
fn prepared_document_rejects_out_of_range_numbers() {
    let cfg = Config::default();
    let doc = vec![("scaling".to_string(), UpdateValue::Num(Some(u64::MAX)))];
    assert!(apply_config_update(&cfg, &doc).is_err());
}
