//! The settings of the service.

use crate::codec::string_from_utf8;
use crate::layout::{decimal, decimal_digits, push_digits};
use vstd::prelude::*;
use vstd::string::StringExecFns;
use vstd::utf8::{encode_utf8, is_ascii_chars};

verus! {

/// Where the server listens.
#[derive(Debug, Clone)]
pub struct ServerConfig {
    pub host: String,
    pub port: u16,
}

/// Under which path the API is served.
#[derive(Debug, Clone)]
pub struct ApiConfig {
    pub base_path: String,
    pub version: String,
}

/// How much is logged, and in which form.
#[derive(Debug, Clone)]
pub struct LoggingConfig {
    pub level: String,
    pub format: String,
}

/// Whether and where the description of the API is served.
#[derive(Debug, Clone)]
pub struct SwaggerConfig {
    pub enabled: bool,
    pub path: String,
    pub title: String,
    pub description: String,
    pub version: String,
}

/// The target size of the pool, the size of one batch, and the place of the store.
#[derive(Debug, Clone)]
pub struct PetGeneratorConfig {
    pub pool_size: usize,
    pub batch_size: usize,
    pub db_path: String,
}

/// How many requests a client may make within one window.
#[derive(Debug, Clone)]
pub struct RateLimitConfig {
    pub max_requests_per_minute: u32,
    pub window_seconds: u64,
}

/// All the settings.
#[derive(Debug, Clone)]
pub struct AppConfig {
    pub server: ServerConfig,
    pub api: ApiConfig,
    pub logging: LoggingConfig,
    pub swagger: SwaggerConfig,
    pub pet_generator: PetGeneratorConfig,
    pub rate_limit: RateLimitConfig,
}

/// The decimal numeral of `n` as text.
pub open spec fn decimal_chars(n: nat) -> Seq<char> {
    Seq::new(decimal(n).len(), |i: int| decimal(n)[i] as char)
}

/// The decimal numeral of `n` as text.
pub fn decimal_text(n: u64) -> (text: String)
    ensures
        text@ == decimal_chars(n as nat),
{
    let mut bytes: Vec<u8> = Vec::new();
    push_digits(n, decimal_digits(n), &mut bytes);
    proof {
        let chars = decimal_chars(n as nat);
        assert(bytes@ =~= decimal(n as nat));
        crate::codec::lemma_digits_are_digits(n as nat, crate::layout::decimal_width(n as nat));
        assert forall|i: int| 0 <= i < chars.len() implies '\0' <= #[trigger] chars[i] <= '\u{7f}'
            && chars[i] as u8 == bytes@[i] by {
            let b = decimal(n as nat)[i];
            assert(crate::validation::is_digit(b));
            assert(b < 128);
            assert((b as char) as u8 == b);
        }
        assert(is_ascii_chars(chars));
        vstd::utf8::is_ascii_chars_encode_utf8(chars);
        assert(encode_utf8(chars) =~= bytes@);
        vstd::utf8::encode_utf8_valid_utf8(chars);
        vstd::utf8::encode_utf8_decode_utf8(chars);
    }
    match string_from_utf8(bytes) {
        Some(text) => text,
        None => String::new(),
    }
}

impl AppConfig {
    /// The address on which the server listens: the host, a colon, and the port.
    pub open spec fn spec_server_address(&self) -> Seq<char> {
        self.server.host@ + seq![':'] + decimal_chars(self.server.port as nat)
    }

    /// The path under which the API is served: the base path, a slash, and the version.
    pub open spec fn spec_api_base_url(&self) -> Seq<char> {
        self.api.base_path@ + seq!['/'] + self.api.version@
    }

    /// The address on which the server listens, as `host:port`.
    pub fn server_address(&self) -> (address: String)
        ensures
            address@ == self.spec_server_address(),
    {
        let mut s = self.server.host.clone();
        proof {
            reveal_strlit(":");
        }
        s.append(":");
        let port = decimal_text(self.server.port as u64);
        s.append(port.as_str());
        assert(":"@ =~= seq![':']);
        s
    }

    /// The path under which the API is served, as `base_path/version`.
    pub fn api_base_url(&self) -> (url: String)
        ensures
            url@ == self.spec_api_base_url(),
    {
        let mut s = self.api.base_path.clone();
        proof {
            reveal_strlit("/");
        }
        s.append("/");
        s.append(self.api.version.as_str());
        assert("/"@ =~= seq!['/']);
        s
    }
}

} // verus!
