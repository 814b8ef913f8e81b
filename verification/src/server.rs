//! What the HTTP server answers.

use vstd::prelude::*;

use crate::encoding;

verus! {

/// The status of a scrape that was answered.
pub const OK: u16 = 200;

/// The status of a scrape that broke down.
pub const INTERNAL_SERVER_ERROR: u16 = 500;

/// An answer.
pub struct Reply {
    pub status: u16,
    /// The content type, where it is not the server's own for plain text.
    pub content_type: Option<&'static str>,
    pub body: String,
}

/// What a [`Reply`] says.
#[verifier::ext_equal]
pub struct ReplyView {
    pub status: u16,
    pub content_type: Option<Seq<char>>,
    pub body: Seq<char>,
}

impl View for Reply {
    type V = ReplyView;

    open spec fn view(&self) -> ReplyView {
        ReplyView {
            status: self.status,
            content_type: match self.content_type {
                Some(t) => Some(t@),
                None => None,
            },
            body: self.body@,
        }
    }
}

/// The answer to a scrape: the metrics, or an internal error where gathering
/// them broke down.
pub open spec fn metrics_reply(metrics: Option<Seq<char>>) -> ReplyView {
    match metrics {
        Some(body) => ReplyView {
            status: OK,
            content_type: Some(encoding::CONTENT_TYPE@),
            body,
        },
        None => ReplyView {
            status: INTERNAL_SERVER_ERROR,
            content_type: None,
            body: "internal error"@,
        },
    }
}

/// Answers a scrape. `metrics` is the encoded text, or `None` where gathering
/// it broke down.
pub fn reply_to_scrape(metrics: Option<String>) -> (r: Reply)
    ensures
        r@ == metrics_reply(
            match metrics {
                Some(body) => Some(body@),
                None => None,
            },
        ),
{
    match metrics {
        Some(body) => Reply { status: OK, content_type: Some(encoding::CONTENT_TYPE), body },
        None => Reply {
            status: INTERNAL_SERVER_ERROR,
            content_type: None,
            body: "internal error".to_owned(),
        },
    }
}

/// The landing page, with a link to the metrics.
pub open spec fn landing(telemetry_path: Seq<char>) -> Seq<char> {
    "<html>\n<head><title>Merlion Node Exporter</title></head>\n<body>\n<h1>Merlion Node Exporter</h1>\n<p><a href=\""@
        + telemetry_path + "\">Metrics</a></p>\n</body>\n</html>\n"@
}

pub fn build_landing(telemetry_path: &str) -> (r: String)
    ensures
        r@ == landing(telemetry_path@),
{
    let mut page =
        "<html>\n<head><title>Merlion Node Exporter</title></head>\n<body>\n<h1>Merlion Node Exporter</h1>\n<p><a href=\"".to_owned();
    page.push_str(telemetry_path);
    page.push_str("\">Metrics</a></p>\n</body>\n</html>\n");
    page
}

/// A scrape that was gathered is answered with its text, unchanged and as the
/// exposition format, and with success; one that broke down with an error that
/// tells nothing of it.
pub proof fn scrapes_are_answered(body: Seq<char>)
    ensures
        metrics_reply(Some(body)).status == 200,
        metrics_reply(Some(body)).body == body,
        metrics_reply(Some(body)).content_type == Some(
            "text/plain; version=0.0.4; charset=utf-8"@,
        ),
        metrics_reply(None).status == 500,
        metrics_reply(None).body == "internal error"@,
        metrics_reply(None).content_type is None,
{
}

/// The landing page links to the path of the metrics, whatever it is.
pub proof fn the_landing_page_links_to_the_metrics(path: Seq<char>) -> (r: (Seq<char>, Seq<char>))
    ensures
        landing(path) == r.0 + "<a href=\""@ + path + "\">"@ + r.1,
{
    reveal_strlit("<a href=\"");
    reveal_strlit("\">");
    reveal_strlit(
        "<html>\n<head><title>Merlion Node Exporter</title></head>\n<body>\n<h1>Merlion Node Exporter</h1>\n<p><a href=\"",
    );
    reveal_strlit("\">Metrics</a></p>\n</body>\n</html>\n");
    let head =
        "<html>\n<head><title>Merlion Node Exporter</title></head>\n<body>\n<h1>Merlion Node Exporter</h1>\n<p><a href=\""@;
    let tail = "\">Metrics</a></p>\n</body>\n</html>\n"@;
    let before = head.take(head.len() - 9);
    let after = tail.skip(2);
    assert(head =~= before + "<a href=\""@);
    assert(tail =~= "\">"@ + after);
    assert(landing(path) =~= before + "<a href=\""@ + path + "\">"@ + after);
    (before, after)
}

} // verus!
