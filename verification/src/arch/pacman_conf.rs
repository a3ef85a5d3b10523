//! Parse pacman.conf
use vstd::prelude::*;

verus! {

#[verifier::external_type_specification]
#[verifier::external_body]
pub struct ExIni(ini::Ini);

#[verifier::external_type_specification]
#[verifier::external_body]
pub struct ExProperties(ini::Properties);

#[verifier::external_type_specification]
#[verifier::external_body]
pub struct ExIniParseError(ini::ParseError);

/// What `ini::Ini::load_from_str` makes of a text: `None` where it fails,
/// else, for each section name (`None` for the general section), the
/// entries of the first section of that name.
pub uninterp spec fn ini_parse(text: Seq<char>) -> Option<Map<Option<Seq<char>>, Seq<(Seq<char>, Seq<char>)>>>;

/// What an `ini::Ini` holds: for each section name, the entries of the
/// first section of that name.
pub uninterp spec fn ini_sections(ini: ini::Ini) -> Map<Option<Seq<char>>, Seq<(Seq<char>, Seq<char>)>>;

/// What an `ini::Properties` holds: its entries, in order.
pub uninterp spec fn properties_entries(p: ini::Properties) -> Seq<(Seq<char>, Seq<char>)>;

/// The value of the first entry with key `key`.
pub open spec fn first_value(entries: Seq<(Seq<char>, Seq<char>)>, key: Seq<char>) -> Option<Seq<char>>
    decreases entries.len(),
{
    if entries.len() == 0 {
        None
    } else if entries[0].0 == key {
        Some(entries[0].1)
    } else {
        first_value(entries.drop_first(), key)
    }
}

/// Calls `ini::Ini::load_from_str`.
#[verifier::external_body]
fn load_ini(text: &str) -> (r: Result<ini::Ini, ini::ParseError>)
    ensures
        r is Ok <==> ini_parse(text@) is Some,
        r matches Ok(i) ==> ini_sections(i) == ini_parse(text@).unwrap(),
{
    ini::Ini::load_from_str(text)
}

/// Calls `ini::Ini::section`, which gives the first section with the given
/// name.
#[verifier::external_body]
fn ini_section<'a>(ini: &'a ini::Ini, name: &str) -> (r: Option<&'a ini::Properties>)
    ensures
        r is Some <==> ini_sections(*ini).contains_key(Some(name@)),
        r matches Some(p) ==> properties_entries(*p) == ini_sections(*ini)[Some(name@)],
{
    ini.section(Some(name))
}

/// Calls `ini::Properties::get`, which gives the value of the first entry
/// with the given key.
#[verifier::external_body]
fn properties_get<'a>(p: &'a ini::Properties, key: &str) -> (r: Option<&'a str>)
    ensures
        r matches Some(v) ==> first_value(properties_entries(*p), key@) == Some(v@),
        r is None ==> first_value(properties_entries(*p), key@) is None,
{
    p.get(key)
}

/// Errors when reading pacman.conf.
#[derive(Debug)]
pub enum ConfigError {
    /// The file is not a valid ini file.
    Parse(ini::ParseError),
    /// The file has no `[options]` section.
    NoOptions,
}

/// The database path used where pacman.conf sets none.
pub open spec fn default_db_path() -> Seq<char> {
    seq!['/', 'v', 'a', 'r', '/', 'l', 'i', 'b', '/', 'p', 'a', 'c', 'm', 'a', 'n', '/']
}

/// The characters of `options`.
pub open spec fn options_name() -> Seq<char> {
    seq!['o', 'p', 't', 'i', 'o', 'n', 's']
}

/// The characters of `DBPath`.
pub open spec fn db_path_key() -> Seq<char> {
    seq!['D', 'B', 'P', 'a', 't', 'h']
}

/// Pacman configuration (or at least the parts we care about)
#[derive(Debug)]
pub struct PacmanConfig {
    pub db_path: String,
}

impl PacmanConfig {
    /// Reads the configuration from the text of pacman.conf.
    pub fn new(file: &str) -> (r: Result<Self, ConfigError>)
        ensures
            match ini_parse(file@) {
                None => r matches Err(ConfigError::Parse(_)),
                Some(sections) => match PacmanConfig::spec_db_path(sections) {
                    None => r matches Err(ConfigError::NoOptions),
                    Some(p) => r matches Ok(c) && c.db_path@ == p,
                },
            },
    {
        let parser = match load_ini(file) {
            Ok(p) => p,
            Err(e) => {
                return Err(ConfigError::Parse(e));
            },
        };
        PacmanConfig::from_ini(&parser)
    }

    /// The database path that the given sections set: that of the
    /// `[options]` section, or the default where it sets none; `None` where
    /// there is no `[options]` section.
    pub open spec fn spec_db_path(sections: Map<Option<Seq<char>>, Seq<(Seq<char>, Seq<char>)>>) -> Option<Seq<char>> {
        if !sections.contains_key(Some(options_name())) {
            None
        } else {
            match first_value(sections[Some(options_name())], db_path_key()) {
                Some(p) => Some(p),
                None => Some(default_db_path()),
            }
        }
    }

    /// Reads the configuration from a parsed pacman.conf.
    pub fn from_ini(parser: &ini::Ini) -> (r: Result<Self, ConfigError>)
        ensures
            match PacmanConfig::spec_db_path(ini_sections(*parser)) {
                None => r matches Err(ConfigError::NoOptions),
                Some(p) => r matches Ok(c) && c.db_path@ == p,
            },
    {
        let section_name = crate::update::string_from_chars(vec!['o', 'p', 't', 'i', 'o', 'n', 's']);
        let key = crate::update::string_from_chars(vec!['D', 'B', 'P', 'a', 't', 'h']);
        assert(section_name@ =~= options_name());
        assert(key@ =~= db_path_key());
        let options = match ini_section(parser, section_name.as_str()) {
            Some(o) => o,
            None => {
                return Err(ConfigError::NoOptions);
            },
        };
        let db_path = match properties_get(options, key.as_str()) {
            Some(p) => p.to_owned(),
            None => {
                let d = crate::update::string_from_chars(
                    vec!['/', 'v', 'a', 'r', '/', 'l', 'i', 'b', '/', 'p', 'a', 'c', 'm', 'a', 'n', '/'],
                );
                assert(d@ =~= default_db_path());
                d
            },
        };
        Ok(Self { db_path })
    }
}

} // verus!
