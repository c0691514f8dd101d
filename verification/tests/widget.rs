use llama_switcher::widget::{lists_switcher, request_error};

#[test]
fn tasklist_output_names_the_switcher() {
    assert!(lists_switcher("\"LLAMA-SWITCHER.EXE\",\"1234\",\"Console\",\"1\",\"12,345 K\"\r\n"));
    assert!(!lists_switcher("INFO: No tasks are running which match the specified criteria.\r\n"));
}

#[test]
fn request_errors_name_the_status_or_a_missing_app() {
    assert_eq!(request_error(Some(401), "bad token"), "Llama Switcher returned HTTP 401: bad token");
    assert_eq!(
        request_error(None, "ignored"),
        "Llama Switcher is not running. Start the main app to enable live telemetry."
    );
}
