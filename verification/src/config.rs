//! The layout configuration: the snapshot a render runs under, and the
//! merge-update that applies a parsed configuration document to it.

use vstd::prelude::*;

verus! {

/// One palette color with its opacity.
#[derive(Clone, Copy, PartialEq, Eq, Structural, Debug)]
pub struct Rgba {
    pub r: u8,
    pub g: u8,
    pub b: u8,
    pub a: u8,
}

/// The layout configuration a render runs under. A render reads one value of
/// this type throughout all its stages; updates produce a new value.
#[derive(Clone, Copy, PartialEq, Eq, Structural, Debug)]
pub struct Config {
    pub column_count: u32,
    pub column_width: u32,
    pub char_spacing: u32,
    pub line_spacing: u32,
    pub column_spacing: u32,
    pub scaling: u32,
    pub margin_top: u32,
    pub margin_right: u32,
    pub margin_bottom: u32,
    pub margin_left: u32,
    pub fg_color: Rgba,
    pub bg_color: Rgba,
}

/// The default configuration: one 80-character column, one-pixel gaps,
/// four pixels between columns, no margins, no scaling beyond 1:1,
/// opaque black ink on fully transparent white ground.
pub open spec fn default_config() -> Config {
    Config {
        column_count: 1,
        column_width: 80,
        char_spacing: 1,
        line_spacing: 1,
        column_spacing: 4,
        scaling: 1,
        margin_top: 0,
        margin_right: 0,
        margin_bottom: 0,
        margin_left: 0,
        fg_color: Rgba { r: 0, g: 0, b: 0, a: 255 },
        bg_color: Rgba { r: 255, g: 255, b: 255, a: 0 },
    }
}

/// One value of a parsed configuration document, as far as the update logic
/// reads it: a number (with its integer value when it has one), an array of
/// number-or-not elements, an object of key and number-or-not pairs, or any
/// other shape.
pub enum UpdateValue {
    Num(Option<u64>),
    Arr(Vec<Option<u64>>),
    Obj(Vec<(String, Option<u64>)>),
    Other,
}

/// Why a configuration update is refused.
#[derive(Debug)]
pub enum ConfigError {
    /// The update text is not valid JSON.
    Malformed,
    /// The top-level JSON value is not an object.
    NotAnObject,
    /// A key is unrecognized, or its value has the wrong shape or range;
    /// the whole update is rejected.
    InvalidEntry { key: String },
}

impl ConfigError {
    /// A human-readable description of the failure.
    pub fn message(&self) -> (m: &'static str) {
        match self {
            ConfigError::Malformed => "failed to parse config",
            ConfigError::NotAnObject => "config must be a JSON object",
            ConfigError::InvalidEntry { .. } => "invalid config key or value",
        }
    }

    /// The offending key, for updates refused because of one.
    pub fn key(&self) -> (k: Option<&String>)
        ensures
            match *self {
                ConfigError::InvalidEntry { .. } => k is Some,
                _ => k is None,
            },
    {
        match self {
            ConfigError::InvalidEntry { key } => Some(key),
            _ => None,
        }
    }
}

/// Whether an optional number is present and at most 255.
pub open spec fn small(o: Option<u64>) -> bool {
    match o {
        Some(n) => n <= 255,
        None => false,
    }
}

/// The number held by an optional number.
pub open spec fn val_of(o: Option<u64>) -> u64 {
    match o {
        Some(n) => n,
        None => 0,
    }
}

/// A four-element array of integers up to 255 makes a color; anything else
/// does not.
pub open spec fn color_of(items: Seq<Option<u64>>) -> Option<Rgba> {
    if items.len() == 4 && small(items[0]) && small(items[1]) && small(items[2]) && small(
        items[3],
    ) {
        Some(
            Rgba {
                r: val_of(items[0]) as u8,
                g: val_of(items[1]) as u8,
                b: val_of(items[2]) as u8,
                a: val_of(items[3]) as u8,
            },
        )
    } else {
        None
    }
}

/// Applies the entries of a `margins` object in order: the four recognized
/// sub-keys each set one margin and must be integers that fit; unrecognized
/// sub-keys are ignored.
pub open spec fn apply_margins(cfg: Config, entries: Seq<(String, Option<u64>)>) -> Option<Config>
    decreases entries.len(),
{
    if entries.len() == 0 {
        Some(cfg)
    } else {
        let k = entries[0].0@;
        let v = entries[0].1;
        let rest = entries.skip(1);
        if k == "top"@ || k == "right"@ || k == "bottom"@ || k == "left"@ {
            match v {
                Some(n) => if n <= u32::MAX {
                    let c2 = if k == "top"@ {
                        Config { margin_top: n as u32, ..cfg }
                    } else if k == "right"@ {
                        Config { margin_right: n as u32, ..cfg }
                    } else if k == "bottom"@ {
                        Config { margin_bottom: n as u32, ..cfg }
                    } else {
                        Config { margin_left: n as u32, ..cfg }
                    };
                    apply_margins(c2, rest)
                } else {
                    None
                },
                None => None,
            }
        } else {
            apply_margins(cfg, rest)
        }
    }
}

/// Whether a key names one of the plain numeric configuration fields.
pub open spec fn is_numeric_key(key: Seq<char>) -> bool {
    ||| key == "column_count"@
    ||| key == "column_width"@
    ||| key == "char_spacing"@
    ||| key == "line_spacing"@
    ||| key == "column_spacing"@
    ||| key == "scaling"@
}

/// The configuration with the named numeric field set.
pub open spec fn with_numeric(cfg: Config, key: Seq<char>, n: u32) -> Config {
    if key == "column_count"@ {
        Config { column_count: n, ..cfg }
    } else if key == "column_width"@ {
        Config { column_width: n, ..cfg }
    } else if key == "char_spacing"@ {
        Config { char_spacing: n, ..cfg }
    } else if key == "line_spacing"@ {
        Config { line_spacing: n, ..cfg }
    } else if key == "column_spacing"@ {
        Config { column_spacing: n, ..cfg }
    } else {
        Config { scaling: n, ..cfg }
    }
}

/// What one top-level entry does to the configuration: a recognized key
/// with a well-shaped value sets its field (or fields); anything else makes
/// the entry invalid.
pub open spec fn apply_entry(cfg: Config, key: Seq<char>, val: UpdateValue) -> Option<Config> {
    if is_numeric_key(key) {
        match val {
            UpdateValue::Num(Some(n)) => if n <= u32::MAX {
                Some(with_numeric(cfg, key, n as u32))
            } else {
                None
            },
            _ => None,
        }
    } else if key == "margins"@ {
        match val {
            UpdateValue::Obj(entries) => apply_margins(cfg, entries@),
            _ => None,
        }
    } else if key == "fg_color"@ {
        match val {
            UpdateValue::Arr(items) => match color_of(items@) {
                Some(c) => Some(Config { fg_color: c, ..cfg }),
                None => None,
            },
            _ => None,
        }
    } else if key == "bg_color"@ {
        match val {
            UpdateValue::Arr(items) => match color_of(items@) {
                Some(c) => Some(Config { bg_color: c, ..cfg }),
                None => None,
            },
            _ => None,
        }
    } else {
        None
    }
}

/// Applies a whole parsed configuration document, entry by entry in the
/// order the entries are handed over (for JSON input, the parsed map's
/// order): the updated configuration, or the first offending key.
pub open spec fn apply_update_spec(cfg: Config, doc: Seq<(String, UpdateValue)>) -> Result<
    Config,
    Seq<char>,
>
    decreases doc.len(),
{
    if doc.len() == 0 {
        Ok(cfg)
    } else {
        match apply_entry(cfg, doc[0].0@, doc[0].1) {
            Some(c2) => apply_update_spec(c2, doc.skip(1)),
            None => Err(doc[0].0@),
        }
    }
}

impl Default for Config {
    /// The default configuration value.
    fn default() -> (c: Config)
        ensures
            c == default_config(),
    {
        Config {
            column_count: 1,
            column_width: 80,
            char_spacing: 1,
            line_spacing: 1,
            column_spacing: 4,
            scaling: 1,
            margin_top: 0,
            margin_right: 0,
            margin_bottom: 0,
            margin_left: 0,
            fg_color: Rgba { r: 0, g: 0, b: 0, a: 255 },
            bg_color: Rgba { r: 255, g: 255, b: 255, a: 0 },
        }
    }
}

/// Relies on str's PartialEq: two string slices are equal exactly when
/// their character sequences are.
#[verifier::external_body]
fn str_eq(a: &str, b: &str) -> (r: bool)
    ensures
        r == (a@ == b@),
{
    a == b
}

/// Reads a four-element color array.
fn color_from_items(items: &Vec<Option<u64>>) -> (r: Option<Rgba>)
    ensures
        r == color_of(items@),
{
    if items.len() != 4 {
        return None;
    }
    let c0 = items[0];
    let c1 = items[1];
    let c2 = items[2];
    let c3 = items[3];
    match (c0, c1, c2, c3) {
        (Some(r0), Some(g0), Some(b0), Some(a0)) => {
            if r0 <= 255 && g0 <= 255 && b0 <= 255 && a0 <= 255 {
                Some(Rgba { r: r0 as u8, g: g0 as u8, b: b0 as u8, a: a0 as u8 })
            } else {
                None
            }
        },
        _ => None,
    }
}

/// Applies one top-level entry of a configuration document.
#[verifier::loop_isolation(false)]
fn apply_entry_exec(cfg: &Config, key: &String, val: &UpdateValue) -> (r: Option<Config>)
    ensures
        r == apply_entry(*cfg, key@, *val),
{
    let k = key.as_str();
    if str_eq(k, "column_count") || str_eq(k, "column_width") || str_eq(k, "char_spacing")
        || str_eq(k, "line_spacing") || str_eq(k, "column_spacing") || str_eq(k, "scaling") {
        match val {
            UpdateValue::Num(Some(n)) => {
                if *n <= u32::MAX as u64 {
                    let v32 = *n as u32;
                    if str_eq(k, "column_count") {
                        Some(Config { column_count: v32, ..*cfg })
                    } else if str_eq(k, "column_width") {
                        Some(Config { column_width: v32, ..*cfg })
                    } else if str_eq(k, "char_spacing") {
                        Some(Config { char_spacing: v32, ..*cfg })
                    } else if str_eq(k, "line_spacing") {
                        Some(Config { line_spacing: v32, ..*cfg })
                    } else if str_eq(k, "column_spacing") {
                        Some(Config { column_spacing: v32, ..*cfg })
                    } else {
                        Some(Config { scaling: v32, ..*cfg })
                    }
                } else {
                    None
                }
            },
            _ => None,
        }
    } else if str_eq(k, "margins") {
        match val {
            UpdateValue::Obj(entries) => {
                let mut cur = *cfg;
                let mut j: usize = 0;
                proof {
                    assert(entries@.skip(0) =~= entries@);
                }
                while j < entries.len()
                    invariant
                        j <= entries@.len(),
                        apply_margins(*cfg, entries@) == apply_margins(cur, entries@.skip(j as int)),
                    decreases entries@.len() - j,
                {
                    let mk = entries[j].0.as_str();
                    let mv = entries[j].1;
                    proof {
                        assert(entries@.skip(j as int)[0] == entries@[j as int]);
                        assert(entries@.skip(j as int).skip(1) =~= entries@.skip(j as int + 1));
                    }
                    if str_eq(mk, "top") || str_eq(mk, "right") || str_eq(mk, "bottom") || str_eq(
                        mk,
                        "left",
                    ) {
                        match mv {
                            Some(n) => {
                                if n <= u32::MAX as u64 {
                                    let v32 = n as u32;
                                    if str_eq(mk, "top") {
                                        cur = Config { margin_top: v32, ..cur };
                                    } else if str_eq(mk, "right") {
                                        cur = Config { margin_right: v32, ..cur };
                                    } else if str_eq(mk, "bottom") {
                                        cur = Config { margin_bottom: v32, ..cur };
                                    } else {
                                        cur = Config { margin_left: v32, ..cur };
                                    }
                                } else {
                                    return None;
                                }
                            },
                            None => {
                                return None;
                            },
                        }
                    }
                    j = j + 1;
                }
                proof {
                    assert(entries@.skip(entries@.len() as int) =~= Seq::<
                        (String, Option<u64>),
                    >::empty());
                }
                Some(cur)
            },
            _ => None,
        }
    } else if str_eq(k, "fg_color") {
        match val {
            UpdateValue::Arr(items) => match color_from_items(items) {
                Some(c) => Some(Config { fg_color: c, ..*cfg }),
                None => None,
            },
            _ => None,
        }
    } else if str_eq(k, "bg_color") {
        match val {
            UpdateValue::Arr(items) => match color_from_items(items) {
                Some(c) => Some(Config { bg_color: c, ..*cfg }),
                None => None,
            },
            _ => None,
        }
    } else {
        None
    }
}

/// Applies a parsed configuration document to a configuration value,
/// atomically: recognized keys set their fields, sub-keys of `margins` set
/// single margins, the color arrays set the palette entries; the first
/// unrecognized key or wrongly shaped value rejects the whole update.
#[verifier::loop_isolation(false)]
pub fn apply_config_update(cfg: &Config, doc: &Vec<(String, UpdateValue)>) -> (r: Result<
    Config,
    ConfigError,
>)
    ensures
        r is Ok <==> apply_update_spec(*cfg, doc@) is Ok,
        r matches Ok(c) ==> apply_update_spec(*cfg, doc@) == Ok::<Config, Seq<char>>(c),
        r matches Err(e) ==> (e matches ConfigError::InvalidEntry { key } && apply_update_spec(
            *cfg,
            doc@,
        ) == Err::<Config, Seq<char>>(key@)),
{
    let mut cur = *cfg;
    let mut i: usize = 0;
    proof {
        assert(doc@.skip(0) =~= doc@);
    }
    while i < doc.len()
        invariant
            i <= doc@.len(),
            apply_update_spec(*cfg, doc@) == apply_update_spec(cur, doc@.skip(i as int)),
        decreases doc@.len() - i,
    {
        proof {
            assert(doc@.skip(i as int)[0] == doc@[i as int]);
            assert(doc@.skip(i as int).skip(1) =~= doc@.skip(i as int + 1));
        }
        let entry = &doc[i];
        match apply_entry_exec(&cur, &entry.0, &entry.1) {
            Some(c2) => {
                cur = c2;
            },
            None => {
                let key = entry.0.clone();
                return Err(ConfigError::InvalidEntry { key });
            },
        }
        i = i + 1;
    }
    proof {
        assert(doc@.skip(doc@.len() as int) =~= Seq::<(String, UpdateValue)>::empty());
    }
    Ok(cur)
}

/// What configuration text parses to: not JSON at all, a JSON value that
/// is not an object, or the top-level object's entries, each value reduced
/// to what the update logic reads, in the order the parsed map hands them
/// over (sorted by key; a key given twice keeps its last value).
pub enum ParsedDoc {
    NotJson,
    NotAnObject,
    Doc(Seq<(String, UpdateValue)>),
}

/// The parse outcome for configuration text: it depends on the text alone.
pub uninterp spec fn doc_of(s: Seq<char>) -> ParsedDoc;

/// The parsed document a parser run hands over.
pub enum ParsedConfig {
    NotJson,
    NotAnObject,
    Doc(Vec<(String, UpdateValue)>),
}

/// Relies on serde_json::from_str and serde_json::Value: unparseable text
/// is reported as such, so is a top-level value that is no object; an
/// object's entries come in the map's order, each value reduced variant by
/// variant (Number::as_u64 for a number; for an array or an object, its
/// elements' as_u64 values, None standing for a non-number). The outcome
/// is a function of the text alone.
#[verifier::external_body]
fn parse_config_doc(s: &str) -> (r: ParsedConfig)
    ensures
        (r matches ParsedConfig::NotJson <==> doc_of(s@) matches ParsedDoc::NotJson),
        (r matches ParsedConfig::NotAnObject <==> doc_of(s@) matches ParsedDoc::NotAnObject),
        r matches ParsedConfig::Doc(d) ==> (doc_of(s@) matches ParsedDoc::Doc(sd) && d@ == sd),
{
    let m = match serde_json::from_str(s) {
        Err(_) => return ParsedConfig::NotJson,
        Ok(serde_json::Value::Object(m)) => m,
        Ok(_) => return ParsedConfig::NotAnObject,
    };
    ParsedConfig::Doc(m.into_iter().map(|(k, v)| (k, match v {
        serde_json::Value::Number(n) => UpdateValue::Num(n.as_u64()),
        serde_json::Value::Array(a) => UpdateValue::Arr(a.iter().map(|x| x.as_u64()).collect()),
        serde_json::Value::Object(o) => UpdateValue::Obj(o.into_iter().map(|(k2, x)| (k2, x.as_u64())).collect()),
        _ => UpdateValue::Other,
    })).collect())
}

/// Applies a JSON configuration document to the configuration: the text is
/// parsed, and the top-level object's entries are applied atomically, in
/// the order the parsed object hands them over. On any failure the
/// configuration is left unchanged and the error says what was wrong; a
/// successful update is exactly the application of the parsed document.
pub fn set_config(cfg: &mut Config, config_str: &str) -> (r: Result<(), ConfigError>)
    ensures
        r is Err ==> *final(cfg) == *old(cfg),
        r is Ok <==> (doc_of(config_str@) matches ParsedDoc::Doc(d) && apply_update_spec(
            *old(cfg),
            d,
        ) is Ok),
        r is Ok ==> (doc_of(config_str@) matches ParsedDoc::Doc(d) && apply_update_spec(
            *old(cfg),
            d,
        ) == Ok::<Config, Seq<char>>(*final(cfg))),
        r matches Err(e) ==> match e {
            ConfigError::Malformed => doc_of(config_str@) matches ParsedDoc::NotJson,
            ConfigError::NotAnObject => doc_of(config_str@) matches ParsedDoc::NotAnObject,
            ConfigError::InvalidEntry { key } => (doc_of(config_str@) matches ParsedDoc::Doc(d)
                && apply_update_spec(*old(cfg), d) == Err::<Config, Seq<char>>(key@)),
        },
{
    let doc = match parse_config_doc(config_str) {
        ParsedConfig::NotJson => {
            return Err(ConfigError::Malformed);
        },
        ParsedConfig::NotAnObject => {
            return Err(ConfigError::NotAnObject);
        },
        ParsedConfig::Doc(d) => d,
    };
    let base = *cfg;
    match apply_config_update(&base, &doc) {
        Ok(c2) => {
            *cfg = c2;
            Ok(())
        },
        Err(e) => Err(e),
    }
}

} // verus!
