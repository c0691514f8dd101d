use llama_switcher::throughput::{gen_eval_texts, leading_number_text, metric_value_text};

fn parse_prometheus_metric(body: &str, name: &str) -> Option<f64> {
    metric_value_text(body, name)?.parse::<f64>().ok()
}

fn parse_gen_eval_line(line: &str) -> Option<(f64, f64)> {
    let (ms, tokens) = gen_eval_texts(line)?;
    Some((tokens.parse::<f64>().ok()?, ms.parse::<f64>().ok()?))
}

#[test]
fn parses_prometheus_generation_counters() {
    let body = "# HELP llamacpp:tokens_predicted_total ...\n\
        llamacpp:prompt_tokens_total 2.67172e+06\n\
        llamacpp:tokens_predicted_total 373356\n\
        llamacpp:tokens_predicted_seconds_total 2872.4\n\
        llamacpp:predicted_tokens_seconds 129.981\n";
    let tokens = parse_prometheus_metric(body, "llamacpp:tokens_predicted_total").unwrap();
    let seconds = parse_prometheus_metric(body, "llamacpp:tokens_predicted_seconds_total").unwrap();
    assert_eq!(tokens, 373356.0);
    assert!((seconds - 2872.4).abs() < 1e-6);
    let prompt = parse_prometheus_metric(body, "llamacpp:prompt_tokens_total").unwrap();
    assert!((prompt - 2_671_720.0).abs() < 1.0);
    assert!(((tokens / seconds) - 129.98).abs() < 0.1);
    assert!(parse_prometheus_metric(body, "llamacpp:does_not_exist").is_none());
}

#[test]
fn parses_generation_eval_lines_from_log() {
    let gen = "1.53.184.575 I slot print_timing: id  0 | task 205 |        eval time =    1919.06 ms /    74 tokens (   25.93 ms per token,    38.56 tokens per second)";
    assert_eq!(parse_gen_eval_line(gen), Some((74.0, 1919.06)));
    let prompt = "1.37.109.438 I slot print_timing: id  0 | task 144 | prompt eval time =    7083.14 ms /  8535 tokens (    0.83 ms per token,  1204.97 tokens per second)";
    assert!(parse_gen_eval_line(prompt).is_none());
    assert!(parse_gen_eval_line("... |       total time =    8582.90 ms /  8597 tokens").is_none());
    assert!(parse_gen_eval_line("... | n_decoded =    100, tg = 111.10 t/s").is_none());
    let (t1, m1) = parse_gen_eval_line(gen).unwrap();
    let (t2, m2) =
        parse_gen_eval_line("eval time = 1499.76 ms / 62 tokens ( 24.19 ms per token, 41.34 tokens per second)")
            .unwrap();
    let avg = (t1 + t2) / ((m1 + m2) / 1000.0);
    assert!((avg - 39.78).abs() < 0.1);
}

#[test]
fn metric_line_without_value_ends_the_search() {
    assert_eq!(metric_value_text("a 1\nb\nb 2\n", "b"), None);
    assert_eq!(metric_value_text("  # b 9\n  b   7  \n", "b").as_deref(), Some("7"));
}

#[test]
fn leading_number_skips_whitespace_and_stops_at_other_characters() {
    assert_eq!(leading_number_text("   1919.06 ms"), "1919.06");
    assert_eq!(leading_number_text("x12"), "");
    assert_eq!(leading_number_text("\t74 tokens"), "74");
}

#[test]
fn eval_line_texts_are_located() {
    let (ms, tokens) = gen_eval_texts("eval time = 12.5 ms / 3 tokens").unwrap();
    assert_eq!(ms, "12.5");
    assert_eq!(tokens, "3");
    assert!(gen_eval_texts("eval time = 12.5 ms").is_none());
}
