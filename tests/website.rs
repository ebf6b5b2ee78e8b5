use gorilla::website::{extract_words, just_body_html_content, words_from_text};

#[test]
fn basic_scrape() {
    let html = "<!doctype html><html><head></head></body> \
    <div> <h1>Example Domain</h1> \
    <p>This domain is for use in illustrative examples in documents. You may use this \
    domain in literature without prior coordination or asking for permission.</p> \
    </div> \
    </body> \
    </html>";
    let content = just_body_html_content(html);

    assert!(content.contains("domain"));
}

#[test]
fn ignore_script_tag() {
    let html = "<!doctype html><html><head></head></body><script>Some javascript</script> \
    <div> <h1>Example Domain</h1> \
    <p>This domain is for use in illustrative examples in documents. You may use this \
    domain in literature without prior coordination or asking for permission.</p> \
    </div> \
    </body> \
    </html>";
    let content = just_body_html_content(html);

    assert!(content.contains("domain"));
    assert!(!content.contains("javascript"));
}

#[test]
fn ignore_mulitple_script_tags() {
    let html = "<!doctype html><html><head></head></body><script>Some javascript</script> \
    <div> <h1>Example Domain</h1> \
    <p>This domain is for use in illustrative examples in documents. You may use this \
    domain in literature without prior coordination or asking for permission.</p> \
    </div> \
    <script>second script</script> \
    </body> \
    </html>";
    let content = just_body_html_content(html);

    assert!(content.contains("domain"));
    assert!(!content.contains("javascript"));
    assert!(!content.contains("second"));
}

#[test]
fn words_are_long_alphabetic_distinct_and_sorted() {
    let words = words_from_text("Zebra apple, Apple! tiny\tbanana42 café éclair 12345");
    assert_eq!(words, vec!["apple", "banana", "café", "zebra", "éclair"]);
    assert!(words_from_text("").is_empty());
    assert!(words_from_text("  \n ").is_empty());
}

#[test]
fn short_words_by_bytes() {
    assert_eq!(words_from_text("café cafés"), vec!["café", "cafés"]);
    assert!(words_from_text("abcd").is_empty());
}

#[test]
fn extract_words_from_page() {
    let html = "<html><body><p>Hello WORLD hello</p><script>ignored scripting</script></body></html>";
    assert_eq!(extract_words(html), vec!["hello", "world"]);
}

#[test]
fn page_without_body_is_kept() {
    let content = just_body_html_content("plain words");
    assert!(content.contains("plain words"));
}

#[test]
fn scripts_are_cut_in_turn() {
    let scripts = vec![String::from("<script>a</script>"), String::from("xx")];
    let out = gorilla::website::strip_scripts(String::from("1<script>a</script>2xx3xx"), &scripts);
    assert_eq!(out, "123");
}
