use merlion_node_exporter_rs::encoding::CONTENT_TYPE;
use merlion_node_exporter_rs::server::{build_landing, reply_to_scrape};

#[test]
fn a_scrape_is_answered_with_the_metrics() {
    let reply = reply_to_scrape(Some("a 1\n".into()));
    assert_eq!(reply.status, 200);
    assert_eq!(reply.content_type, Some(CONTENT_TYPE));
    assert_eq!(reply.body, "a 1\n");
}

#[test]
fn a_scrape_that_broke_down_is_an_internal_error() {
    let reply = reply_to_scrape(None);
    assert_eq!(reply.status, 500);
    assert_eq!(reply.content_type, None);
    assert_eq!(reply.body, "internal error");
}

#[test]
fn the_landing_page_links_to_the_metrics() {
    assert_eq!(
        build_landing("/metrics"),
        "<html>\n<head><title>Merlion Node Exporter</title></head>\n<body>\n<h1>Merlion Node Exporter</h1>\n<p><a href=\"/metrics\">Metrics</a></p>\n</body>\n</html>\n"
    );
}
