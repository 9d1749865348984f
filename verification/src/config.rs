//! The settings the service starts with, taken from its environment.
use vstd::prelude::*;

use crate::text::{chars_of, owned, string_of};

verus! {

/// The error of `url::Url::parse`.
#[verifier::external_type_specification]
#[verifier::external_body]
pub struct ExUrlParseError(url::ParseError);

/// The parts of a parsed URL that the settings look at.
pub struct UrlParts {
    pub scheme: String,
    pub host: Option<String>,
    pub username: String,
    pub password: Option<String>,
    pub path: String,
    pub query: Option<String>,
    pub fragment: Option<String>,
    /// The ASCII serialization of the URL's origin.
    pub origin: String,
}

/// The value of an optional string.
pub open spec fn opt_view(s: Option<String>) -> Option<Seq<char>> {
    match s {
        Some(x) => Some(x@),
        None => None,
    }
}

/// The value of [`UrlParts`].
pub type UrlPartsView = (Seq<char>, Option<Seq<char>>, Seq<char>, Option<Seq<char>>, Seq<char>, Option<Seq<char>>, Option<Seq<char>>, Seq<char>);

impl View for UrlParts {
    type V = UrlPartsView;

    open spec fn view(&self) -> UrlPartsView {
        (
            self.scheme@,
            opt_view(self.host),
            self.username@,
            opt_view(self.password),
            self.path@,
            opt_view(self.query),
            opt_view(self.fragment),
            self.origin@,
        )
    }
}

/// What `url::Url::parse` makes of a text, read back through `scheme`,
/// `host_str`, `username`, `password`, `path`, `query`, `fragment` and
/// `origin().ascii_serialization()`; none when it does not parse.
pub uninterp spec fn spec_url_parts(input: Seq<char>) -> Option<UrlPartsView>;

/// Parses a URL with `url::Url::parse` and reads its parts.
#[verifier::external_body]
fn parse_url(input: &str) -> (r: Result<UrlParts, url::ParseError>)
    ensures
        match r {
            Ok(p) => spec_url_parts(input@) == Some(p@),
            Err(_) => spec_url_parts(input@) is None,
        },
{
    let url = url::Url::parse(input)?;
    Ok(UrlParts {
        scheme: url.scheme().to_string(),
        host: url.host_str().map(|h| h.to_string()),
        username: url.username().to_string(),
        password: url.password().map(|p| p.to_string()),
        path: url.path().to_string(),
        query: url.query().map(|q| q.to_string()),
        fragment: url.fragment().map(|f| f.to_string()),
        origin: url.origin().ascii_serialization(),
    })
}

/// The settings of the service.
pub struct Config {
    pub database_url: String,
    pub admin_user: String,
    pub admin_pass: String,
    pub port: u16,
    pub scheduler_cron: String,
    pub public_base_url: String,
}

/// Why the settings are refused.
#[derive(Debug, Clone, Copy, PartialEq, Eq)]
pub enum ConfigError {
    AdminUserMissing,
    AdminPassMissing,
    AdminUserEmpty,
    AdminPassEmpty,
    BaseUrlInvalid,
    BaseUrlScheme,
    BaseUrlNotOrigin,
    DatabaseUrlMissing,
    PortInvalid,
}

/// The variables of the environment that the settings come from; `None`
/// where a variable is not set (or not Unicode).
pub struct EnvValues {
    pub admin_user: Option<String>,
    pub admin_pass: Option<String>,
    pub public_base_url: Option<String>,
    pub database_url: Option<String>,
    pub port: Option<String>,
    pub scheduler_cron: Option<String>,
}

/// The value of a decimal digit character.
pub open spec fn digit_value(c: char) -> int {
    (c as u32) - 48
}

/// A decimal digit.
pub open spec fn is_digit(c: char) -> bool {
    '0' <= c <= '9'
}

/// The number that decimal digits spell.
pub open spec fn digits_value(d: Seq<char>) -> int
    decreases d.len(),
{
    if d.len() == 0 {
        0
    } else {
        digits_value(d.drop_last()) * 10 + digit_value(d.last())
    }
}

/// The text after an optional leading `+`.
pub open spec fn unsigned_digits(s: Seq<char>) -> Seq<char> {
    if s.len() > 0 && s[0] == '+' {
        s.drop_first()
    } else {
        s
    }
}

/// Every character is a decimal digit.
pub open spec fn all_digits(d: Seq<char>) -> bool {
    forall|i: int| 0 <= i < d.len() ==> is_digit(#[trigger] d[i])
}

/// What `u16::from_str` accepts: an optional `+`, then one or more decimal
/// digits spelling a number that fits in 16 bits.
pub open spec fn parsed_u16(s: Seq<char>) -> Option<int> {
    let d = unsigned_digits(s);
    if d.len() == 0 {
        None
    } else if !all_digits(d) {
        None
    } else if digits_value(d) > 65535 {
        None
    } else {
        Some(digits_value(d))
    }
}

proof fn lemma_digits_grow(d: Seq<char>, k: int)
    requires
        0 <= k <= d.len(),
        forall|i: int| 0 <= i < d.len() ==> is_digit(#[trigger] d[i]),
    ensures
        digits_value(d.take(k)) <= digits_value(d),
        0 <= digits_value(d.take(k)),
    decreases d.len() - k,
{
    if k < d.len() {
        lemma_digits_grow(d, k + 1);
        assert(d.take(k + 1).drop_last() =~= d.take(k));
        assert(is_digit(d[k]));
    } else {
        assert(d.take(k) =~= d);
        lemma_digits_nonneg(d);
    }
}

proof fn lemma_digits_nonneg(d: Seq<char>)
    requires
        forall|i: int| 0 <= i < d.len() ==> is_digit(#[trigger] d[i]),
    ensures
        0 <= digits_value(d),
    decreases d.len(),
{
    if d.len() > 0 {
        lemma_digits_nonneg(d.drop_last());
        assert(is_digit(d[d.len() - 1]));
    }
}

/// Parses a port number as `str::parse::<u16>` does.
pub fn parse_port(s: &str) -> (r: Option<u16>)
    ensures
        match r {
            Some(p) => parsed_u16(s@) == Some(p as int),
            None => parsed_u16(s@) is None,
        },
{
    let v = chars_of(s);
    let start: usize = if v.len() > 0 && v[0] == '+' {
        1
    } else {
        0
    };
    let ghost d = unsigned_digits(s@);
    assert(d =~= v@.skip(start as int));
    if start == v.len() {
        return None;
    }
    let mut value: u32 = 0;
    let mut k: usize = start;
    let mut too_big = false;
    while k < v.len()
        invariant
            start <= k <= v.len(),
            v@ == s@,
            start < v.len(),
            d == v@.skip(start as int),
            d == unsigned_digits(s@),
            forall|i: int| start <= i < k ==> is_digit(#[trigger] v@[i]),
            !too_big ==> value as int == digits_value(d.take(k - start)),
            !too_big ==> value <= 65535,
            too_big ==> digits_value(d.take(k - start)) > 65535 || exists|i: int| 0 <= i < k - start && !is_digit(#[trigger] d[i]),
        decreases v.len() - k,
    {
        let c = v[k];
        if !('0' <= c && c <= '9') {
            assert(!is_digit(d[k - start]));
            return None;
        }
        proof {
            assert(d.take(k + 1 - start).drop_last() =~= d.take(k - start));
            assert(d.take(k + 1 - start).last() == c);
        }
        if !too_big {
            let digit = (c as u32) - 48;
            value = value * 10 + digit;
            if value > 65535 {
                too_big = true;
            }
        }
        k = k + 1;
    }
    assert(d.take(k - start) =~= d);
    assert forall|i: int| 0 <= i < d.len() implies is_digit(#[trigger] d[i]) by {
        assert(d[i] == v@[i + start]);
    }
    if too_big {
        proof {
            if digits_value(d) <= 65535 {
                assert(digits_value(d.take(k - start)) > 65535);
            }
        }
        return None;
    }
    Some(value as u16)
}

/// The settings that the environment gives, when `url` is what parsing
/// its public base URL gave, or the first thing wrong with it, in this
/// order: the admin user and password are set, then non-empty, the public
/// base URL parses, uses `http` or `https`, and has a host but no user,
/// password, path, query or fragment; the database URL is set; the port (by
/// default 3000) is a 16-bit number. The cron pattern defaults to
/// `0 0 23 * * *`, and the base URL is kept as the serialization of its
/// origin.
pub open spec fn config_given_url(
    admin_user: Option<Seq<char>>,
    admin_pass: Option<Seq<char>>,
    url: Option<UrlPartsView>,
    database_url: Option<Seq<char>>,
    port: Option<Seq<char>>,
    cron: Option<Seq<char>>,
) -> Result<(Seq<char>, Seq<char>, Seq<char>, int, Seq<char>, Seq<char>), ConfigError> {
    let port_text = match port {
        Some(p) => p,
        None => "3000"@,
    };
    if admin_user is None {
        Err(ConfigError::AdminUserMissing)
    } else if admin_pass is None {
        Err(ConfigError::AdminPassMissing)
    } else if admin_user->0.len() == 0 {
        Err(ConfigError::AdminUserEmpty)
    } else if admin_pass->0.len() == 0 {
        Err(ConfigError::AdminPassEmpty)
    } else {
        match url {
            None => Err(ConfigError::BaseUrlInvalid),
            Some(u) => if !(u.0 == "http"@ || u.0 == "https"@) {
                Err(ConfigError::BaseUrlScheme)
            } else if !(u.1 is Some && u.2.len() == 0 && u.3 is None && u.4 == "/"@ && u.5 is None
                && u.6 is None) {
                Err(ConfigError::BaseUrlNotOrigin)
            } else if database_url is None {
                Err(ConfigError::DatabaseUrlMissing)
            } else {
                match parsed_u16(port_text) {
                    None => Err(ConfigError::PortInvalid),
                    Some(p) => Ok(
                        (
                            database_url->0,
                            admin_user->0,
                            admin_pass->0,
                            p,
                            match cron {
                                Some(c) => c,
                                None => "0 0 23 * * *"@,
                            },
                            u.7,
                        ),
                    ),
                }
            },
        }
    }
}

/// The public base URL that the environment gives, by default
/// `https://fund.korucha.com`.
pub open spec fn base_url_text(base: Option<Seq<char>>) -> Seq<char> {
    match base {
        Some(b) => b,
        None => "https://fund.korucha.com"@,
    }
}

/// The settings that the environment gives, or the first thing wrong with
/// it (see [`config_given_url`]), the public base URL being parsed by
/// `url::Url::parse`.
pub open spec fn config_of(
    admin_user: Option<Seq<char>>,
    admin_pass: Option<Seq<char>>,
    base: Option<Seq<char>>,
    database_url: Option<Seq<char>>,
    port: Option<Seq<char>>,
    cron: Option<Seq<char>>,
) -> Result<(Seq<char>, Seq<char>, Seq<char>, int, Seq<char>, Seq<char>), ConfigError> {
    config_given_url(admin_user, admin_pass, spec_url_parts(base_url_text(base)), database_url, port, cron)
}

fn is_text(s: &String, lit: &str) -> (r: bool)
    ensures
        r == (s@ == lit@),
{
    let a = chars_of(s.as_str());
    let b = chars_of(lit);
    crate::text::same_chars(&a, &b)
}

/// The value of a parsed URL, if any.
pub open spec fn url_view(url: Option<UrlParts>) -> Option<UrlPartsView> {
    match url {
        Some(u) => Some(u@),
        None => None,
    }
}

/// Accepted settings keep what the environment sets: the database URL, the
/// admin user and password as given, the cron pattern when one is set (and
/// `0 0 23 * * *` only when none is), the port 3000 when none is set, and
/// the origin of the parsed base URL.
pub proof fn lemma_settings_follow_the_environment(
    admin_user: Option<Seq<char>>,
    admin_pass: Option<Seq<char>>,
    url: Option<UrlPartsView>,
    database_url: Option<Seq<char>>,
    port: Option<Seq<char>>,
    cron: Option<Seq<char>>,
)
    ensures
        config_given_url(admin_user, admin_pass, url, database_url, port, cron) matches Ok(t) ==> {
            &&& database_url == Some(t.0)
            &&& admin_user == Some(t.1)
            &&& admin_pass == Some(t.2)
            &&& (cron matches Some(c) ==> t.4 == c)
            &&& (cron is None ==> t.4 == seq!['0', ' ', '0', ' ', '2', '3', ' ', '*', ' ', '*', ' ', '*'])
            &&& (port is None ==> t.3 == 3000)
            &&& (url matches Some(u) && t.5 == u.7)
        },
{
    reveal_strlit("0 0 23 * * *");
    reveal_strlit("3000");
    let d = seq!['3', '0', '0', '0'];
    assert("3000"@ =~= d);
    assert(unsigned_digits(d) =~= d);
    assert(d.drop_last() =~= seq!['3', '0', '0']);
    assert(d.drop_last().drop_last() =~= seq!['3', '0']);
    assert(d.drop_last().drop_last().drop_last() =~= seq!['3']);
    assert(seq!['3'].drop_last() =~= Seq::<char>::empty());
    assert(('3' as u32) == 51 && ('0' as u32) == 48);
    assert(seq!['3'].last() == '3');
    assert(digits_value(Seq::<char>::empty()) == 0);
    assert(digits_value(seq!['3']) == 3);
    assert(seq!['3', '0'].last() == '0' && seq!['3', '0', '0'].last() == '0' && d.last() == '0');
    assert(digits_value(seq!['3', '0']) == 30);
    assert(digits_value(seq!['3', '0', '0']) == 300);
    assert(digits_value(d) == 3000);
    assert(all_digits(d));
    assert("0 0 23 * * *"@ =~= seq!['0', ' ', '0', ' ', '2', '3', ' ', '*', ' ', '*', ' ', '*']);
}

/// Reads the settings from the values of the environment.
pub fn config_from_env_values(env: &EnvValues) -> (r: Result<Config, ConfigError>)
    ensures
        r matches Ok(c) ==> {
            &&& env.database_url matches Some(d) && c.database_url@ == d@
            &&& env.admin_user matches Some(u) && c.admin_user@ == u@
            &&& env.admin_pass matches Some(p) && c.admin_pass@ == p@
            &&& (env.scheduler_cron matches Some(x) ==> c.scheduler_cron@ == x@)
            &&& (env.scheduler_cron is None ==> c.scheduler_cron@ == seq!['0', ' ', '0', ' ', '2', '3', ' ', '*', ' ', '*', ' ', '*'])
            &&& (env.port is None ==> c.port == 3000)
        },
        match r {
            Ok(c) => config_of(
                opt_view(env.admin_user),
                opt_view(env.admin_pass),
                opt_view(env.public_base_url),
                opt_view(env.database_url),
                opt_view(env.port),
                opt_view(env.scheduler_cron),
            ) == Ok::<(Seq<char>, Seq<char>, Seq<char>, int, Seq<char>, Seq<char>), ConfigError>(
                (c.database_url@, c.admin_user@, c.admin_pass@, c.port as int, c.scheduler_cron@, c.public_base_url@),
            ),
            Err(e) => config_of(
                opt_view(env.admin_user),
                opt_view(env.admin_pass),
                opt_view(env.public_base_url),
                opt_view(env.database_url),
                opt_view(env.port),
                opt_view(env.scheduler_cron),
            ) == Err::<(Seq<char>, Seq<char>, Seq<char>, int, Seq<char>, Seq<char>), ConfigError>(e),
        },
{
    let base = match &env.public_base_url {
        Some(b) => owned(b.as_str()),
        None => owned("https://fund.korucha.com"),
    };
    let url = match parse_url(base.as_str()) {
        Err(_) => None,
        Ok(p) => Some(p),
    };
    config_with_url(env, url)
}

/// Reads the settings from the values of the environment, `url` being what
/// parsing the public base URL gave (none when it did not parse).
pub fn config_with_url(env: &EnvValues, url: Option<UrlParts>) -> (r: Result<Config, ConfigError>)
    ensures
        r matches Ok(c) ==> {
            &&& env.database_url matches Some(d) && c.database_url@ == d@
            &&& env.admin_user matches Some(u) && c.admin_user@ == u@
            &&& env.admin_pass matches Some(p) && c.admin_pass@ == p@
            &&& (env.scheduler_cron matches Some(x) ==> c.scheduler_cron@ == x@)
            &&& (env.scheduler_cron is None ==> c.scheduler_cron@ == seq!['0', ' ', '0', ' ', '2', '3', ' ', '*', ' ', '*', ' ', '*'])
            &&& (env.port is None ==> c.port == 3000)
        },
        match r {
            Ok(c) => config_given_url(
                opt_view(env.admin_user),
                opt_view(env.admin_pass),
                match url {
                    Some(u) => Some(u@),
                    None => None,
                },
                opt_view(env.database_url),
                opt_view(env.port),
                opt_view(env.scheduler_cron),
            ) == Ok::<(Seq<char>, Seq<char>, Seq<char>, int, Seq<char>, Seq<char>), ConfigError>(
                (c.database_url@, c.admin_user@, c.admin_pass@, c.port as int, c.scheduler_cron@, c.public_base_url@),
            ),
            Err(e) => config_given_url(
                opt_view(env.admin_user),
                opt_view(env.admin_pass),
                match url {
                    Some(u) => Some(u@),
                    None => None,
                },
                opt_view(env.database_url),
                opt_view(env.port),
                opt_view(env.scheduler_cron),
            ) == Err::<(Seq<char>, Seq<char>, Seq<char>, int, Seq<char>, Seq<char>), ConfigError>(e),
        },
{
    proof {
        lemma_settings_follow_the_environment(
            opt_view(env.admin_user),
            opt_view(env.admin_pass),
            url_view(url),
            opt_view(env.database_url),
            opt_view(env.port),
            opt_view(env.scheduler_cron),
        );
    }
    let admin_user = match &env.admin_user {
        None => return Err(ConfigError::AdminUserMissing),
        Some(u) => u,
    };
    let admin_pass = match &env.admin_pass {
        None => return Err(ConfigError::AdminPassMissing),
        Some(p) => p,
    };
    if admin_user.as_str().is_empty() {
        return Err(ConfigError::AdminUserEmpty);
    }
    if admin_pass.as_str().is_empty() {
        return Err(ConfigError::AdminPassEmpty);
    }
    let parts = match url {
        None => return Err(ConfigError::BaseUrlInvalid),
        Some(p) => p,
    };
    if !is_text(&parts.scheme, "http") && !is_text(&parts.scheme, "https") {
        return Err(ConfigError::BaseUrlScheme);
    }
    if !(parts.host.is_some() && parts.username.as_str().is_empty() && parts.password.is_none()
        && is_text(&parts.path, "/") && parts.query.is_none() && parts.fragment.is_none()) {
        return Err(ConfigError::BaseUrlNotOrigin);
    }
    let database_url = match &env.database_url {
        None => return Err(ConfigError::DatabaseUrlMissing),
        Some(d) => owned(d.as_str()),
    };
    let port_text = match &env.port {
        Some(p) => owned(p.as_str()),
        None => owned("3000"),
    };
    let port = match parse_port(port_text.as_str()) {
        None => return Err(ConfigError::PortInvalid),
        Some(p) => p,
    };
    let scheduler_cron = match &env.scheduler_cron {
        Some(c) => owned(c.as_str()),
        None => owned("0 0 23 * * *"),
    };
    Ok(
        Config {
            database_url,
            admin_user: owned(admin_user.as_str()),
            admin_pass: owned(admin_pass.as_str()),
            port,
            scheduler_cron,
            public_base_url: parts.origin,
        },
    )
}

} // verus!
