use vm_map::pdf::{
    api_endpoint, build_summary_request, check_api_key, get_api_key_status,
    handle_summary_response, parse_summary_response, plan_summary_request, process_pdf_content,
    summary_model, PdfContent, PdfError,
};

#[test]
fn test_api_key_loading() {
    assert!(
        check_api_key("sk-test-key"),
        "API key deveria estar configurada"
    );
}

#[test]
fn empty_key_is_not_configured() {
    assert!(!check_api_key(""));
}

#[test]
fn key_status_masks_the_key() {
    assert_eq!(
        get_api_key_status("sk-12345-rest"),
        "API key configurada: sk-12345..."
    );
    assert_eq!(get_api_key_status("abc"), "API key configurada: abc...");
    assert_eq!(get_api_key_status(""), "API key nao encontrada ou vazia");
}

#[test]
fn content_size_counts_bytes() {
    let c = PdfContent::new("héllo".to_string(), "f.pdf".to_string());
    assert_eq!(c.size, 6);
    assert_eq!(c.text, "héllo");
    assert_eq!(c.filename, "f.pdf");
}

#[test]
fn process_pdf_content_wraps() {
    let c = process_pdf_content("body".to_string(), "n.pdf".to_string());
    assert_eq!(c.size, 4);
    assert_eq!(c.filename, "n.pdf");
}

#[test]
fn summary_shows_name_size_and_text() {
    let c = PdfContent::new("abc".to_string(), "doc.pdf".to_string());
    assert_eq!(
        c.get_summary(),
        "Arquivo: doc.pdf\nTamanho: 3 bytes\n\nConteudo:\nabc\n"
    );
}

#[test]
fn limited_text_collapses_whitespace() {
    let c = PdfContent::new("  a   b\t c \n".to_string(), "f".to_string());
    assert_eq!(c.get_limited_text(), "a b c");
}

#[test]
fn limited_text_caps_at_five_hundred_words() {
    let mut text = String::new();
    for i in 0..600 {
        text.push_str(&format!("w{} ", i));
    }
    let c = PdfContent::new(text, "f".to_string());
    let limited = c.get_limited_text();
    assert_eq!(limited.split_whitespace().count(), 500);
    assert!(limited.starts_with("w0 w1 "));
    assert!(limited.ends_with("w499"));
}

#[test]
fn blank_text_never_reaches_the_summarizer() {
    // The request body stands for the one call to the collaborator: a blank
    // document yields no body, so zero calls can be made with one.
    let r = plan_summary_request(" \t \n", "sk-key");
    assert!(matches!(r, Err(PdfError::NoExtractableText)));
    let r2 = plan_summary_request("", "sk-key");
    assert!(matches!(r2, Err(PdfError::NoExtractableText)));
}

#[test]
fn missing_key_is_its_own_failure() {
    let r = plan_summary_request("some text", "");
    assert!(matches!(r, Err(PdfError::MissingApiKey)));
}

#[test]
fn request_body_exact_text() {
    let body = plan_summary_request("hello world", "sk-key").expect("text and key are present");
    assert_eq!(
        body,
        "{\"model\":\"gpt-4o-mini\",\"messages\":[{\"role\":\"user\",\"content\":\
         \"Resuma o seguinte texto em portugues, mantendo os pontos principais: hello world\"}],\
         \"max_tokens\":200}"
    );
    assert_eq!(build_summary_request("hello world"), body);
}

#[test]
fn fixed_service_parameters() {
    assert_eq!(summary_model(), "gpt-4o-mini");
    assert_eq!(api_endpoint(), "https://api.openai.com/v1/chat/completions");
}

#[test]
fn response_first_choice_is_used() {
    let body = "{\n  \"id\": \"x\",\n  \"object\": \"chat.completion\",\n  \"choices\": [\n    \
                {\"index\": 0, \"message\": {\"role\": \"assistant\", \"content\": \"Resumo aqui\"}, \
                \"finish_reason\": \"stop\"},\n    \
                {\"index\": 1, \"message\": {\"role\": \"assistant\", \"content\": \"Outro\"}, \
                \"finish_reason\": \"stop\"}\n  ],\n  \
                \"usage\": {\"prompt_tokens\": 1, \"completion_tokens\": 2, \"total_tokens\": 3}\n}";
    assert_eq!(parse_summary_response(body).unwrap(), "Resumo aqui");
}

#[test]
fn response_tolerates_fractional_numbers() {
    let body = "{\"created\": 1700000000, \"temperature\": 0.7, \"logprob\": -1.5e-2, \
                \"choices\":[{\"index\":0,\"message\":{\"content\":\"Resumo aqui\"}}]}";
    assert_eq!(parse_summary_response(body).unwrap(), "Resumo aqui");
}

#[test]
fn response_empty_choices_is_empty_result() {
    let body = "{\"choices\":[]}";
    assert!(matches!(
        parse_summary_response(body),
        Err(PdfError::EmptyResult)
    ));
}

#[test]
fn response_garbage_is_malformed() {
    assert!(matches!(
        parse_summary_response("not json"),
        Err(PdfError::MalformedResponse)
    ));
    assert!(matches!(
        parse_summary_response("{\"choices\":7}"),
        Err(PdfError::MalformedResponse)
    ));
    assert!(matches!(
        parse_summary_response("{\"choices\":[{\"message\":{}}]}"),
        Err(PdfError::MalformedResponse)
    ));
}

#[test]
fn http_failure_carries_status_and_body() {
    match handle_summary_response(false, 429, "rate limited", "f.pdf") {
        Err(PdfError::HttpFailure(status, body)) => {
            assert_eq!(status, 429);
            assert_eq!(body, "rate limited");
        }
        _ => panic!("a non-success status must fail with HttpFailure"),
    }
}

#[test]
fn success_response_is_titled() {
    let body = "{\"choices\":[{\"message\":{\"content\":\"Resumo aqui\"}}]}";
    assert_eq!(
        handle_summary_response(true, 200, body, "f.pdf").unwrap(),
        "Resumo do arquivo f.pdf:\n\nResumo aqui"
    );
}

#[test]
fn error_messages_name_the_cause() {
    assert_eq!(
        PdfError::NoExtractableText.message(),
        "O PDF nao contem texto extraivel ou esta protegido/nao textual."
    );
    assert_eq!(
        PdfError::EmptyResult.message(),
        "Nenhum resumo foi gerado pela API."
    );
    assert_eq!(
        PdfError::ExtractionFailed("boom".to_string()).message(),
        "Erro ao extrair texto do PDF: boom"
    );
}
