use lyrebird::llm::{
    LlmConfig,
    error_body, first_choice_content, is_success_status, probe_config, probe_success_message,
    should_retry_plain, LlmError,
};
use lyrebird::media::{media_url, media_url_for, MediaPort};

fn row(k: &str, v: &str) -> (String, String) {
    (k.to_string(), v.to_string())
}

#[test]
fn llm_settings() {
    let cfg = LlmConfig::from_settings(&vec![row("llm_api_key", " sk-1 "), row("llm_model", "  ")]).unwrap();
    assert_eq!((cfg.base_url.as_str(), cfg.api_key.as_str(), cfg.model.as_str()), ("https://api.deepseek.com", "sk-1", "deepseek-chat"));
    assert_eq!(cfg.chat_url(), "https://api.deepseek.com/chat/completions");
    let cfg = LlmConfig::from_settings(&vec![
        row("llm_api_key", "a"),
        row("llm_base_url", "https://h/v1//"),
        row("llm_api_key", "b"),
    ])
    .unwrap();
    assert_eq!((cfg.api_key.as_str(), cfg.chat_url().as_str()), ("b", "https://h/v1/chat/completions"));
    let err = LlmConfig::from_settings(&vec![row("llm_api_key", "  ")]).unwrap_err();
    assert_eq!(err.message(), "请先在设置页配置 LLM API Key");
}

#[test]
fn llm_probe_and_answers() {
    assert_eq!(probe_config("", " k ", "").unwrap().model, "deepseek-chat");
    assert_eq!(probe_config("x", "  ", "m").unwrap_err().message(), "请先在设置页配置 API Key");
    assert_eq!(probe_success_message("m1"), "连接成功（模型 m1 可用）");
    let api400 = LlmError::Api { status: 400, body: "bad".into() };
    assert!(should_retry_plain(&api400, true));
    assert!(!should_retry_plain(&api400, false));
    assert!(!should_retry_plain(&LlmError::Http("x".into()), true));
    assert_eq!(api400.message(), "接口返回错误 (400): bad");
    assert!(is_success_status(204) && !is_success_status(300));
    assert_eq!(error_body(&"x".repeat(301)).len(), 300);
    assert_eq!(first_choice_content(vec!["hi".into()]).unwrap(), "hi");
    assert_eq!(first_choice_content(vec![" ".into()]).unwrap_err().message(), "响应解析失败: choices 为空或 content 为空");
    assert!(first_choice_content(vec![]).is_err());
}

#[test]
fn media_urls_encode_the_file_name() {
    let port = MediaPort(4242);
    assert_eq!(media_url(&port, "/media/dir/My Video.mp4").unwrap(), "http://127.0.0.1:4242/media/My%20Video.mp4");
    assert_eq!(media_url(&port, "/x/é.wav").unwrap(), "http://127.0.0.1:4242/media/%C3%A9.wav");
    assert_eq!(media_url(&port, "/x/..").unwrap_err(), "非法文件路径");
    assert_eq!(media_url_for(&port, None).unwrap_err(), "非法文件路径");
    assert_eq!(media_url_for(&port, Some("a-b_c.d".into())).unwrap(), "http://127.0.0.1:4242/media/a-b_c.d");
}

#[test]
fn media_url_of_a_plain_name_is_that_name() {
    let port = MediaPort(8080);
    assert_eq!(media_url(&port, "clip 1.mp4").unwrap(), "http://127.0.0.1:8080/media/clip%201.mp4");
    assert_eq!(media_url(&port, "/").unwrap_err(), "非法文件路径");
    assert_eq!(media_url(&port, "a/b/c.wav/.").unwrap(), "http://127.0.0.1:8080/media/c.wav");
}
