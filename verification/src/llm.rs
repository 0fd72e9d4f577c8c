//! OpenAI-compatible chat client settings (DeepSeek by default) and the
//! handling of its answers.

use vstd::prelude::*;
use crate::text::{
    chars_of, chars_eq, push_all, push_str, string_of, strip_end, strip_end_vec, subvec, trim,
    trim_vec, Strip,
};
use crate::decimal::{nat_text, u64_text};

verus! {

pub open spec fn default_base_url() -> Seq<char> {
    "https://api.deepseek.com"@
}

pub open spec fn default_model() -> Seq<char> {
    "deepseek-chat"@
}

/// Where and how to call the model.
#[derive(Debug, Clone)]
pub struct LlmConfig {
    pub base_url: String,
    pub api_key: String,
    pub model: String,
}

/// Why a model call failed.
#[derive(Debug, Clone)]
pub enum LlmError {
    /// A setting is missing.
    NotConfigured(&'static str),
    /// The request did not complete.
    Http(String),
    /// The service answered with an error status.
    Api { status: u16, body: String },
    /// The answer could not be read.
    Parse(String),
}

/// The user-facing text of an error.
pub open spec fn llm_error_text(e: LlmError) -> Seq<char> {
    match e {
        LlmError::NotConfigured(what) => "请先在设置页配置 "@ + what@,
        LlmError::Http(m) => "请求失败: "@ + m@,
        LlmError::Api { status, body } => "接口返回错误 ("@ + nat_text(status as nat) + "): "@ + body@,
        LlmError::Parse(m) => "响应解析失败: "@ + m@,
    }
}

impl LlmError {
    /// The user-facing text: see `llm_error_text`.
    pub fn message(&self) -> (r: String)
        ensures
            r@ == llm_error_text(*self),
    {
        let mut v: Vec<char> = Vec::new();
        match self {
            LlmError::NotConfigured(what) => {
                push_str(&mut v, "请先在设置页配置 ");
                push_str(&mut v, what);
            },
            LlmError::Http(m) => {
                push_str(&mut v, "请求失败: ");
                push_str(&mut v, m.as_str());
            },
            LlmError::Api { status, body } => {
                push_str(&mut v, "接口返回错误 (");
                let d = u64_text(*status as u64);
                push_all(&mut v, &d);
                push_str(&mut v, "): ");
                push_str(&mut v, body.as_str());
            },
            LlmError::Parse(m) => {
                push_str(&mut v, "响应解析失败: ");
                push_str(&mut v, m.as_str());
            },
        }
        string_of(v.as_slice())
    }
}

/// The chat endpoint: the base URL without trailing `/`, then
/// `/chat/completions`.
pub open spec fn chat_url_spec(base_url: Seq<char>) -> Seq<char> {
    strip_end(base_url, Strip::Slash) + "/chat/completions"@
}

impl LlmConfig {
    /// The chat endpoint: see `chat_url_spec`.
    pub fn chat_url(&self) -> (r: String)
        ensures
            r@ == chat_url_spec(self.base_url@),
    {
        let b = chars_of(self.base_url.as_str());
        let mut v = strip_end_vec(&b, Strip::Slash);
        push_str(&mut v, "/chat/completions");
        string_of(v.as_slice())
    }
}

pub type SettingModel = (Seq<char>, Seq<char>);

pub open spec fn setting_models(rows: Seq<(String, String)>) -> Seq<SettingModel> {
    rows.map_values(|r: (String, String)| (r.0@, r.1@))
}

/// The value stored under `key` (the last row with that key wins), trimmed,
/// when it is not blank.
pub open spec fn setting_value(rows: Seq<SettingModel>, key: Seq<char>) -> Option<Seq<char>>
    decreases rows.len(),
{
    if rows.len() == 0 {
        None
    } else if rows.last().0 == key {
        if trim(rows.last().1).len() > 0 {
            Some(trim(rows.last().1))
        } else {
            None
        }
    } else {
        setting_value(rows.drop_last(), key)
    }
}

pub open spec fn config_view(c: LlmConfig) -> (Seq<char>, Seq<char>, Seq<char>) {
    (c.base_url@, c.api_key@, c.model@)
}

/// The configuration from the settings rows: base URL and model fall back
/// to the defaults; a missing API key is an error.
pub open spec fn config_from_settings_spec(rows: Seq<SettingModel>) -> Option<(Seq<char>, Seq<char>, Seq<char>)> {
    match setting_value(rows, "llm_api_key"@) {
        None => None,
        Some(key) => Some(
            (
                match setting_value(rows, "llm_base_url"@) {
                    Some(b) => b,
                    None => default_base_url(),
                },
                key,
                match setting_value(rows, "llm_model"@) {
                    Some(m) => m,
                    None => default_model(),
                },
            ),
        ),
    }
}

fn setting_value_exec(rows: &Vec<(String, String)>, key: &str) -> (r: Option<Vec<char>>)
    ensures
        match r {
            Some(v) => setting_value(setting_models(rows@), key@) == Some(v@),
            None => setting_value(setting_models(rows@), key@) is None,
        },
{
    let k = chars_of(key);
    let ghost rm = setting_models(rows@);
    let mut i: usize = rows.len();
    assert(rm.take(rows.len() as int) == rm);
    while i > 0
        invariant
            i <= rows.len(),
            rm == setting_models(rows@),
            k@ == key@,
            setting_value(rm, key@) == setting_value(rm.take(i as int), key@),
        decreases i,
    {
        assert(rm.take(i as int).drop_last() == rm.take(i - 1));
        assert(rm.take(i as int).last() == (rows@[i - 1].0@, rows@[i - 1].1@));
        let rk = chars_of(rows[i - 1].0.as_str());
        if chars_eq(&rk, &k) {
            let v = chars_of(rows[i - 1].1.as_str());
            let t = trim_vec(&v);
            if t.len() > 0 {
                return Some(t);
            } else {
                return None;
            }
        }
        i -= 1;
    }
    None
}

impl LlmConfig {
    /// Reads the model settings from `(key, value)` rows: see
    /// `config_from_settings_spec`; the error is `NotConfigured("LLM API Key")`.
    pub fn from_settings(rows: &Vec<(String, String)>) -> (r: Result<LlmConfig, LlmError>)
        ensures
            match r {
                Ok(c) => config_from_settings_spec(setting_models(rows@)) == Some(config_view(c)),
                Err(e) => config_from_settings_spec(setting_models(rows@)) is None && e
                    == LlmError::NotConfigured("LLM API Key"),
            },
    {
        let base_url = match setting_value_exec(rows, "llm_base_url") {
            Some(b) => string_of(b.as_slice()),
            None => {
                let v = chars_of("https://api.deepseek.com");
                string_of(v.as_slice())
            },
        };
        let api_key = match setting_value_exec(rows, "llm_api_key") {
            Some(k) => string_of(k.as_slice()),
            None => {
                return Err(LlmError::NotConfigured("LLM API Key"));
            },
        };
        let model = match setting_value_exec(rows, "llm_model") {
            Some(m) => string_of(m.as_slice()),
            None => {
                let v = chars_of("deepseek-chat");
                string_of(v.as_slice())
            },
        };
        Ok(LlmConfig { base_url, api_key, model })
    }
}

/// The configuration a connection test uses: each field trimmed, empty base
/// URL and model replaced by the defaults; an empty key is
/// `NotConfigured("API Key")`.
pub open spec fn probe_config_spec(base_url: Seq<char>, api_key: Seq<char>, model: Seq<char>) -> Option<(Seq<char>, Seq<char>, Seq<char>)> {
    if trim(api_key).len() == 0 {
        None
    } else {
        Some(
            (
                if trim(base_url).len() == 0 { default_base_url() } else { trim(base_url) },
                trim(api_key),
                if trim(model).len() == 0 { default_model() } else { trim(model) },
            ),
        )
    }
}

/// Builds the configuration of a connection test: see `probe_config_spec`.
pub fn probe_config(base_url: &str, api_key: &str, model: &str) -> (r: Result<LlmConfig, LlmError>)
    ensures
        match r {
            Ok(c) => probe_config_spec(base_url@, api_key@, model@) == Some(config_view(c)),
            Err(e) => probe_config_spec(base_url@, api_key@, model@) is None && e
                == LlmError::NotConfigured("API Key"),
        },
{
    let b0 = chars_of(base_url);
    let b = trim_vec(&b0);
    let k0 = chars_of(api_key);
    let k = trim_vec(&k0);
    let m0 = chars_of(model);
    let m = trim_vec(&m0);
    if k.len() == 0 {
        return Err(LlmError::NotConfigured("API Key"));
    }
    let base = if b.len() == 0 {
        chars_of("https://api.deepseek.com")
    } else {
        b
    };
    let md = if m.len() == 0 {
        chars_of("deepseek-chat")
    } else {
        m
    };
    Ok(
        LlmConfig {
            base_url: string_of(base.as_slice()),
            api_key: string_of(k.as_slice()),
            model: string_of(md.as_slice()),
        },
    )
}

/// The message after a successful connection test.
pub fn probe_success_message(model: &str) -> (r: String)
    ensures
        r@ == "连接成功（模型 "@ + model@ + " 可用）"@,
{
    let mut v: Vec<char> = Vec::new();
    push_str(&mut v, "连接成功（模型 ");
    push_str(&mut v, model);
    push_str(&mut v, " 可用）");
    string_of(v.as_slice())
}

/// A JSON-mode call rejected with status 400 is retried once in plain mode
/// (some reasoning models do not take `response_format`).
pub fn should_retry_plain(err: &LlmError, json_mode: bool) -> (r: bool)
    ensures
        r == (json_mode && match *err {
            LlmError::Api { status, .. } => status == 400,
            _ => false,
        }),
{
    json_mode && match err {
        LlmError::Api { status, .. } => *status == 400,
        _ => false,
    }
}

/// A status in `200..300`.
pub fn is_success_status(status: u16) -> (r: bool)
    ensures
        r == (200 <= status && status < 300),
{
    200 <= status && status < 300
}

/// The body kept in an error: its first 300 characters.
pub fn error_body(body: &str) -> (r: String)
    ensures
        r@ == if body@.len() <= 300 { body@ } else { body@.take(300) },
{
    let b = chars_of(body);
    let n = if b.len() <= 300 { b.len() } else { 300 };
    let t = subvec(&b, 0, n);
    string_of(t.as_slice())
}

/// The answer of a chat completion: the first choice's content, unless
/// there is none or it is blank, which is a `Parse` error.
pub fn first_choice_content(contents: Vec<String>) -> (r: Result<String, LlmError>)
    ensures
        match r {
            Ok(s) => contents@.len() > 0 && s@ == contents@[0]@ && trim(s@).len() > 0,
            Err(e) => (contents@.len() == 0 || trim(contents@[0]@).len() == 0) && (e matches LlmError::Parse(
                m,
            ) && m@ == "choices 为空或 content 为空"@),
        },
{
    if contents.len() > 0 {
        let c0 = chars_of(contents[0].as_str());
        let t = trim_vec(&c0);
        if t.len() > 0 {
            return Ok(contents[0].clone());
        }
    }
    let v = chars_of("choices 为空或 content 为空");
    Err(LlmError::Parse(string_of(v.as_slice())))
}

} // verus!
