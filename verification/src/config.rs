//! Settings of the agent: defaults, and overrides from the environment.
//!
//! The sampling temperature is a float and is kept by the application
//! around this library; everything else lives here.

use vstd::prelude::*;

verus! {

/// The agent's settings.
#[derive(Clone)]
pub struct Config {
    pub api_url: String,
    pub api_key: String,
    pub model: String,
    pub max_tokens: u32,
    pub system_prompt: String,
    pub retry_count: u32,
    pub retry_delay_secs: u32,
}

/// The API endpoint used unless configured otherwise.
pub fn default_api_url() -> (s: String)
    ensures
        s@ == "https://api.deepseek.com"@,
{
    "https://api.deepseek.com".to_owned()
}

/// No API key unless configured.
pub fn default_api_key() -> (s: String)
    ensures
        s@ == Seq::<char>::empty(),
{
    String::new()
}

/// The model used unless configured otherwise.
pub fn default_model() -> (s: String)
    ensures
        s@ == "deepseek-v4-flash"@,
{
    "deepseek-v4-flash".to_owned()
}

/// Token budget of a response unless configured otherwise.
pub fn default_max_tokens() -> (n: u32)
    ensures
        n == 4096,
{
    4096
}

/// The system prompt used unless configured otherwise.
pub fn default_system_prompt() -> (s: String)
    ensures
        s@ == "You are a helpful coding assistant. Answer concisely and accurately."@,
{
    "You are a helpful coding assistant. Answer concisely and accurately.".to_owned()
}

/// Retries of a failed API call unless configured otherwise.
pub fn default_retry_count() -> (n: u32)
    ensures
        n == 2,
{
    2
}

/// Base delay between retries, in seconds, unless configured otherwise.
pub fn default_retry_delay_secs() -> (n: u32)
    ensures
        n == 2,
{
    2
}

/// The configuration of the defaults.
pub open spec fn is_default_config(c: Config) -> bool {
    &&& c.api_url@ == "https://api.deepseek.com"@
    &&& c.api_key@ == Seq::<char>::empty()
    &&& c.model@ == "deepseek-v4-flash"@
    &&& c.max_tokens == 4096
    &&& c.system_prompt@ == "You are a helpful coding assistant. Answer concisely and accurately."@
    &&& c.retry_count == 2
    &&& c.retry_delay_secs == 2
}

impl Default for Config {
    fn default() -> (c: Self)
        ensures
            is_default_config(c),
    {
        Config {
            api_url: default_api_url(),
            api_key: default_api_key(),
            model: default_model(),
            max_tokens: default_max_tokens(),
            system_prompt: default_system_prompt(),
            retry_count: default_retry_count(),
            retry_delay_secs: default_retry_delay_secs(),
        }
    }
}

impl Config {
    /// `apply_env_overrides`: the values of `DEEPSEEK_API_KEY`,
    /// `DEEPSEEK_API_URL` and `DEEPSEEK_MODEL`, where set, replace the key,
    /// the URL and the model; everything else is kept.
    pub fn apply_env_overrides(
        config: Config,
        api_key: Option<String>,
        api_url: Option<String>,
        model: Option<String>,
    ) -> (c: Config)
        ensures
            c.api_key@ == (match api_key { Some(v) => v@, None => config.api_key@ }),
            c.api_url@ == (match api_url { Some(v) => v@, None => config.api_url@ }),
            c.model@ == (match model { Some(v) => v@, None => config.model@ }),
            c.max_tokens == config.max_tokens,
            c.system_prompt@ == config.system_prompt@,
            c.retry_count == config.retry_count,
            c.retry_delay_secs == config.retry_delay_secs,
    {
        let mut c = config;
        if let Some(v) = api_key {
            c.api_key = v;
        }
        if let Some(v) = api_url {
            c.api_url = v;
        }
        if let Some(v) = model {
            c.model = v;
        }
        c
    }
}

} // verus!
