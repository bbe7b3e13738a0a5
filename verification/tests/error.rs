use redis_game::error::{
    error_page, Error, PanicHandler, WithStatusCode, BAD_REQUEST, INTERNAL_SERVER_ERROR, PAGE_HEAD,
    PAGE_TAIL, UNKNOWN_PANIC,
};

#[test]
fn the_page_wraps_the_report() {
    assert_eq!(
        error_page("boom"),
        "<!DOCTYPE html><html><head><meta charset=\"utf8\"></head><body><pre><code>boom</code></pre></body></html>"
    );
    assert_eq!(error_page(""), format!("{}{}", PAGE_HEAD, PAGE_TAIL));
}

#[test]
fn escape_codes_become_markup() {
    let error = Error(INTERNAL_SERVER_ERROR, "<h1> \x1b[1mHello \x1b[31mworld! </h1>".to_string());
    let page = error.to_html().unwrap();
    let body =
        "&lt;h1&gt; <b>Hello <span style='color:var(--red,#a00)'>world! &lt;/h1&gt;</span></b>";
    assert_eq!(page, format!("{}{}{}", PAGE_HEAD, body, PAGE_TAIL));
    assert_eq!(error.status(), 500);
}

#[test]
fn plain_text_is_escaped_for_html() {
    let error = Error(BAD_REQUEST, "a < b & c".to_string());
    assert_eq!(
        error.to_html(),
        Some(format!("{}a &lt; b &amp; c{}", PAGE_HEAD, PAGE_TAIL))
    );
    assert_eq!(error.status(), 400);
}

#[test]
fn a_code_that_cannot_be_converted_gives_no_page() {
    let error = Error(INTERNAL_SERVER_ERROR, "\x1b[38;5mx".to_string());
    assert_eq!(error.to_html(), None);
}

#[test]
fn with_status_code_keeps_success_and_tags_failure() {
    let ok: Result<u8, String> = Ok(7);
    assert_eq!(ok.with_status_code(BAD_REQUEST), Ok(7));
    let failed: Result<u8, String> = Err("Failed to mget keys".to_string());
    assert_eq!(
        failed.with_status_code(INTERNAL_SERVER_ERROR),
        Err(Error(500, "Failed to mget keys".to_string()))
    );
}

#[test]
fn a_panic_is_a_server_failure() {
    let mut handler = PanicHandler;
    assert_eq!(
        handler.response_for_panic(Some("index out of bounds")),
        Error(500, "index out of bounds".to_string())
    );
    assert_eq!(handler.response_for_panic(None), Error(500, UNKNOWN_PANIC.to_string()));
    assert_eq!(
        UNKNOWN_PANIC,
        "Service panicked but `CatchPanic` was unable to downcast the panic info"
    );
}
