//! Repository-level configuration stored in `rfd.toml`, and the names and
//! paths derived from it.
use vstd::prelude::*;

use crate::number::{decimal, decimal_chars, padded_decimal, parse_u32, parsed_u32, zero_pad};
use crate::text::{concat, str_eq, string_of};

verus! {

/// Repository-level configuration stored in `rfd.toml`.
#[derive(Debug, Clone)]
pub struct Config {
    pub rfd: RfdConfig,
    pub github: GithubConfig,
}

#[derive(Debug, Clone)]
pub struct RfdConfig {
    /// Default format for new RFDs: "md"
    pub default_format: String,
    /// Main branch name
    pub main_branch: String,
    /// Zero-pad width for RFD numbers
    pub pad_width: u32,
}

#[derive(Debug, Clone)]
pub struct GithubConfig {
    /// GitHub OAuth App or GitHub App client ID
    pub app_client_id: String,
    /// If set, enables PKCE web flow instead of device flow
    pub redirect_uri: Option<String>,
}

impl Default for RfdConfig {
    fn default() -> (r: Self)
        ensures
            r.default_format@ == "md"@,
            r.main_branch@ == "main"@,
            r.pad_width == 4,
    {
        RfdConfig { default_format: "md".to_owned(), main_branch: "main".to_owned(), pad_width: 4 }
    }
}

impl Default for GithubConfig {
    fn default() -> (r: Self)
        ensures
            r.app_client_id@ == Seq::<char>::empty(),
            r.redirect_uri is None,
    {
        GithubConfig { app_client_id: String::new(), redirect_uri: None }
    }
}

impl Default for Config {
    fn default() -> (r: Self)
        ensures
            r.rfd.default_format@ == "md"@,
            r.rfd.main_branch@ == "main"@,
            r.rfd.pad_width == 4,
            r.github.app_client_id@ == Seq::<char>::empty(),
            r.github.redirect_uri is None,
    {
        Config { rfd: RfdConfig::default(), github: GithubConfig::default() }
    }
}

/// `seg` appended to the path `base` as a further component, as
/// `Path::join` does for a relative component without separators: a `/`
/// goes between them unless `base` is empty or already ends with one.
pub open spec fn path_join(base: Seq<char>, seg: Seq<char>) -> Seq<char> {
    if base.len() == 0 || base.last() == '/' {
        base + seg
    } else {
        base + seq!['/'] + seg
    }
}

/// `seg` appended to the path `base` as a further component.
pub fn join_path(base: &str, seg: &str) -> (r: String)
    ensures
        r@ == path_join(base@, seg@),
{
    let b = crate::text::chars_of(base);
    if b.len() == 0 || b[b.len() - 1] == '/' {
        concat(base, seg)
    } else {
        let with_sep = concat(base, "/");
        assert("/"@ =~= seq!['/']) by {
            reveal_strlit("/");
        }
        let r = concat(with_sep.as_str(), seg);
        assert(r@ =~= base@ + seq!['/'] + seg@);
        r
    }
}

/// An RFD number as a padded decimal of width `w`.
pub open spec fn padded_number(num: u32, w: u32) -> Seq<char> {
    zero_pad(decimal(num as nat), w as nat)
}

impl Config {
    /// Pad an RFD number to the configured width.
    pub fn pad_number(&self, num: u32) -> (r: String)
        ensures
            r@ == padded_number(num, self.rfd.pad_width),
    {
        let v = padded_decimal(num as u64, self.rfd.pad_width as usize);
        string_of(&v)
    }

    /// Get the branch name for an RFD.
    pub fn branch_name(&self, num: u32) -> (r: String)
        ensures
            r@ == "rfd/"@ + padded_number(num, self.rfd.pad_width),
    {
        let p = self.pad_number(num);
        concat("rfd/", p.as_str())
    }

    /// Get the RFD directory path.
    pub fn rfd_dir(&self, repo_root: &str) -> (r: String)
        ensures
            r@ == path_join(repo_root@, "rfd"@),
    {
        join_path(repo_root, "rfd")
    }

    /// Get the path to a specific RFD directory.
    pub fn rfd_path(&self, repo_root: &str, num: u32) -> (r: String)
        ensures
            r@ == path_join(path_join(repo_root@, "rfd"@), padded_number(num, self.rfd.pad_width)),
    {
        let dir = join_path(repo_root, "rfd");
        let p = self.pad_number(num);
        join_path(dir.as_str(), p.as_str())
    }

    /// Get the templates directory path.
    pub fn templates_dir(&self, repo_root: &str) -> (r: String)
        ensures
            r@ == path_join(repo_root@, "templates"@),
    {
        join_path(repo_root, "templates")
    }

    /// Get the static files directory path.
    pub fn static_dir(&self, repo_root: &str) -> (r: String)
        ensures
            r@ == path_join(repo_root@, "static"@),
    {
        join_path(repo_root, "static")
    }

    /// Get the custom ref name for an RFD's metadata store.
    /// Returns e.g. `refs/rfd/0042`.
    pub fn ref_name(&self, num: u32) -> (r: String)
        ensures
            r@ == "refs/rfd/"@ + padded_number(num, self.rfd.pad_width),
    {
        let p = self.pad_number(num);
        concat("refs/rfd/", p.as_str())
    }
}

// ---------------------------------------------------------------------------
// Reading and setting keys
// ---------------------------------------------------------------------------

/// Why a configuration key could not be read or set.
#[derive(Debug, Clone)]
pub enum ConfigError {
    /// No such key.
    UnknownKey(String),
    /// `rfd.pad_width` takes a `u32`.
    InvalidNumber(String),
}

/// The value of a configuration key as the `config` command shows it.
pub open spec fn config_value(c: Config, key: Seq<char>) -> Option<Seq<char>> {
    if key == "rfd.default_format"@ {
        Some(c.rfd.default_format@)
    } else if key == "rfd.main_branch"@ {
        Some(c.rfd.main_branch@)
    } else if key == "rfd.pad_width"@ {
        Some(decimal(c.rfd.pad_width as nat))
    } else if key == "github.app_client_id"@ {
        Some(c.github.app_client_id@)
    } else if key == "github.redirect_uri"@ {
        Some(
            match c.github.redirect_uri {
                Some(u) => u@,
                None => seq![],
            },
        )
    } else {
        None
    }
}

/// `n` is `c` with key `key` set to `value` (`pad` the number it parses to).
pub open spec fn config_with(c: Config, n: Config, key: Seq<char>, value: Seq<char>, pad: u32) -> bool {
    &&& n.rfd.default_format@ == (if key == "rfd.default_format"@ {
        value
    } else {
        c.rfd.default_format@
    })
    &&& n.rfd.main_branch@ == (if key == "rfd.main_branch"@ {
        value
    } else {
        c.rfd.main_branch@
    })
    &&& n.rfd.pad_width == (if key == "rfd.pad_width"@ {
        pad
    } else {
        c.rfd.pad_width
    })
    &&& n.github.app_client_id@ == (if key == "github.app_client_id"@ {
        value
    } else {
        c.github.app_client_id@
    })
    &&& if key == "github.redirect_uri"@ {
        n.github.redirect_uri matches Some(u) && u@ == value
    } else {
        match c.github.redirect_uri {
            Some(u) => n.github.redirect_uri matches Some(x) && x@ == u@,
            None => n.github.redirect_uri is None,
        }
    }
}

/// The configuration keys are five distinct texts.
proof fn lemma_config_keys()
    ensures
        "rfd.default_format"@.len() == 18,
        "rfd.main_branch"@.len() == 15,
        "rfd.pad_width"@.len() == 13,
        "github.app_client_id"@.len() == 20,
        "github.redirect_uri"@.len() == 19,
{
    reveal_strlit("rfd.default_format");
    reveal_strlit("rfd.main_branch");
    reveal_strlit("rfd.pad_width");
    reveal_strlit("github.app_client_id");
    reveal_strlit("github.redirect_uri");
}

/// A copy of an optional string.
fn copy_opt(o: &Option<String>) -> (r: Option<String>)
    ensures
        match *o {
            Some(u) => r matches Some(x) && x@ == u@,
            None => r is None,
        },
{
    match o {
        Some(u) => Some(u.clone()),
        None => None,
    }
}

/// Show a specific configuration key.
pub fn config_get(config: &Config, key: &str) -> (r: Result<String, ConfigError>)
    ensures
        match config_value(*config, key@) {
            Some(v) => r matches Ok(s) && s@ == v,
            None => r matches Err(ConfigError::UnknownKey(k)) && k@ == key@,
        },
{
    proof {
        reveal_strlit("");
        lemma_config_keys();
    }
    if str_eq(key, "rfd.default_format") {
        Ok(config.rfd.default_format.clone())
    } else if str_eq(key, "rfd.main_branch") {
        Ok(config.rfd.main_branch.clone())
    } else if str_eq(key, "rfd.pad_width") {
        let d = decimal_chars(config.rfd.pad_width as u64);
        Ok(string_of(&d))
    } else if str_eq(key, "github.app_client_id") {
        Ok(config.github.app_client_id.clone())
    } else if str_eq(key, "github.redirect_uri") {
        match &config.github.redirect_uri {
            Some(u) => Ok(u.clone()),
            None => Ok(String::new()),
        }
    } else {
        Err(ConfigError::UnknownKey(key.to_owned()))
    }
}

/// Update a configuration key: the new configuration, or why it cannot be set.
pub fn config_set(config: &Config, key: &str, value: &str) -> (r: Result<Config, ConfigError>)
    ensures
        match r {
            Ok(n) => config_value(*config, key@) is Some && config_with(
                *config,
                n,
                key@,
                value@,
                if key@ == "rfd.pad_width"@ {
                    parsed_u32(value@).unwrap()
                } else {
                    config.rfd.pad_width
                },
            ),
            Err(ConfigError::UnknownKey(k)) => config_value(*config, key@) is None && k@ == key@,
            Err(ConfigError::InvalidNumber(v)) => key@ == "rfd.pad_width"@ && parsed_u32(value@) is None
                && v@ == value@,
        },
{
    proof {
        lemma_config_keys();
    }
    let mut n = Config {
        rfd: RfdConfig {
            default_format: config.rfd.default_format.clone(),
            main_branch: config.rfd.main_branch.clone(),
            pad_width: config.rfd.pad_width,
        },
        github: GithubConfig {
            app_client_id: config.github.app_client_id.clone(),
            redirect_uri: copy_opt(&config.github.redirect_uri),
        },
    };
    if str_eq(key, "rfd.default_format") {
        n.rfd.default_format = value.to_owned();
    } else if str_eq(key, "rfd.main_branch") {
        n.rfd.main_branch = value.to_owned();
    } else if str_eq(key, "rfd.pad_width") {
        match parse_u32(value) {
            Some(w) => n.rfd.pad_width = w,
            None => return Err(ConfigError::InvalidNumber(value.to_owned())),
        }
    } else if str_eq(key, "github.app_client_id") {
        n.github.app_client_id = value.to_owned();
    } else if str_eq(key, "github.redirect_uri") {
        n.github.redirect_uri = Some(value.to_owned());
    } else {
        return Err(ConfigError::UnknownKey(key.to_owned()));
    }
    Ok(n)
}

/// What the `config` command sets, it shows back: after setting a key to
/// a value, reading the key gives the value (for `rfd.pad_width`, the
/// number it parses to, written in decimal).
pub proof fn law_config_set_then_get(c: Config, n: Config, key: Seq<char>, value: Seq<char>, pad: u32)
    requires
        config_value(c, key) is Some,
        config_with(c, n, key, value, pad),
    ensures
        config_value(n, key) == Some(
            if key == "rfd.pad_width"@ {
                decimal(pad as nat)
            } else {
                value
            },
        ),
{
    lemma_config_keys();
}
} // verus!
