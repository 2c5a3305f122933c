//! HTML fragments for error pages, threads and replies. Every piece of
//! user text passes through the escape function; the output is pinned to
//! an exact concatenation of the template and the escaped parts.

use crate::records::MediaKind;
use crate::records::Reply;
use crate::records::Thread;
use crate::records::ThreadView;
use crate::records::wf_media;
use crate::text::dec_chars;
use crate::text::u64_to_string;
use vstd::prelude::*;
use vstd::string::StringExecFns;

verus! {

/// Whether escaping substitutes `c`: exactly the six HTML-significant
/// characters are replaced.
pub open spec fn is_escaped_char(c: char) -> bool {
    c == '&' || c == '<' || c == '>' || c == '"' || c == '\'' || c == '/'
}

/// How one character reads once escaped: each of the six HTML-significant
/// characters becomes its fixed entity, every other character stands as
/// it is.
pub open spec fn escape_char(c: char) -> Seq<char> {
    if c == '&' {
        "&amp;"@
    } else if c == '<' {
        "&lt;"@
    } else if c == '>' {
        "&gt;"@
    } else if c == '"' {
        "&quot;"@
    } else if c == '\'' {
        "&#x27;"@
    } else if c == '/' {
        "&#x2F;"@
    } else {
        seq![c]
    }
}

/// The escaped form of a text: each character escaped in place.
pub open spec fn escaped_of(s: Seq<char>) -> Seq<char>
    decreases s.len(),
{
    if s.len() == 0 {
        Seq::<char>::empty()
    } else {
        escape_char(s[0]) + escaped_of(s.drop_first())
    }
}

/// Relies on `html_escape::encode_safe`: it substitutes exactly the six
/// characters of [`is_escaped_char`] by their fixed entities and keeps
/// every other character as it is.
#[verifier::external_body]
fn encode_safe_string(input: &str) -> (r: String)
    ensures
        r@ == escaped_of(input@),
{
    html_escape::encode_safe(input).to_string()
}

/// Escapes the HTML-significant characters of `input`.
pub fn escape_html(input: &str) -> (r: String)
    ensures
        r@ == escaped_of(input@),
{
    encode_safe_string(input)
}

/// The error page shown for a refused or failed request.
pub open spec fn spec_error_page(title: Seq<char>, message: Seq<char>) -> Seq<char> {
    "<!DOCTYPE html>\n<html lang=\"en\">\n<head>\n    <meta charset=\"UTF-8\">\n    <title>Error - "@
        + escaped_of(title)
        + "</title>\n    <link rel=\"stylesheet\" href=\"/static/style.css\">\n</head>\n<body>\n    <div class=\"error-container\">\n        <h1>"@
        + escaped_of(title) + "</h1>\n        <p>"@ + escaped_of(message)
        + "</p>\n        <a href=\"/\">Back to Home</a>\n    </div>\n</body>\n</html>"@
}

/// Renders the error page for `title` and `message`, both escaped.
pub fn render_error_page(title: &str, message: &str) -> (r: String)
    ensures
        r@ == spec_error_page(title@, message@),
{
    let mut s = String::new();
    s.append(
        "<!DOCTYPE html>\n<html lang=\"en\">\n<head>\n    <meta charset=\"UTF-8\">\n    <title>Error - ",
    );
    let et = escape_html(title);
    s.append(et.as_str());
    s.append(
        "</title>\n    <link rel=\"stylesheet\" href=\"/static/style.css\">\n</head>\n<body>\n    <div class=\"error-container\">\n        <h1>",
    );
    s.append(et.as_str());
    s.append("</h1>\n        <p>");
    let em = escape_html(message);
    s.append(em.as_str());
    s.append("</p>\n        <a href=\"/\">Back to Home</a>\n    </div>\n</body>\n</html>");
    proof {
        assert(s@ =~= spec_error_page(title@, message@));
    }
    s
}

/// The HTML for a thread's attachment: an image tag, a video player, or
/// nothing.
pub open spec fn spec_media_html(t: ThreadView) -> Seq<char> {
    match t.media_kind {
        Some(MediaKind::Image) => "<div class=\"post-media\">\n    <img src=\""@ + escaped_of(
            t.media_url->0,
        ) + "\" alt=\"Thread Image\" class=\"toggle-image\">\n</div>"@,
        Some(MediaKind::Video) => "<div class=\"post-media\">\n    <video controls class=\"video-player\">\n        <source src=\""@
            + escaped_of(t.media_url->0)
            + "\" type=\"video/mp4\">\n        Your browser does not support the video tag.\n    </video>\n</div>"@,
        None => Seq::<char>::empty(),
    }
}

/// One thread on the board index: its attachment, escaped title, a reply
/// link to its page, and its escaped message.
pub open spec fn spec_thread_html(t: ThreadView) -> Seq<char> {
    "<div class=\"post thread-post\">\n    "@ + spec_media_html(t)
        + "\n    <div class=\"post-content\">\n        <div class=\"post-header\">\n            <span class=\"title\">"@
        + escaped_of(t.title) + "</span>\n            <a href=\"/thread/"@ + dec_chars(
        t.id as nat,
    ) + "\" class=\"reply-link\">Reply</a>\n        </div>\n        <div class=\"message\">"@
        + escaped_of(t.message) + "</div>\n    </div>\n</div>"@
}

/// The HTML for `thread`'s attachment, if it has one.
fn render_media(thread: &Thread) -> (r: String)
    requires
        wf_media(thread@),
    ensures
        r@ == spec_media_html(thread@),
{
    let mut s = String::new();
    match &thread.media_kind {
        None => {
            proof {
                assert(s@ =~= spec_media_html(thread@));
            }
        },
        Some(k) => {
            let url = match &thread.media_url {
                Some(u) => u,
                None => {
                    proof {
                        assert(false);
                    }
                    return s;
                },
            };
            let eu = escape_html(url.as_str());
            match k {
                MediaKind::Image => {
                    s.append("<div class=\"post-media\">\n    <img src=\"");
                    s.append(eu.as_str());
                    s.append("\" alt=\"Thread Image\" class=\"toggle-image\">\n</div>");
                },
                MediaKind::Video => {
                    s.append(
                        "<div class=\"post-media\">\n    <video controls class=\"video-player\">\n        <source src=\"",
                    );
                    s.append(eu.as_str());
                    s.append(
                        "\" type=\"video/mp4\">\n        Your browser does not support the video tag.\n    </video>\n</div>",
                    );
                },
            }
            proof {
                assert(s@ =~= spec_media_html(thread@));
            }
        },
    }
    s
}

/// Renders one thread for the board index.
pub fn render_thread(thread: &Thread) -> (r: String)
    requires
        wf_media(thread@),
    ensures
        r@ == spec_thread_html(thread@),
{
    let mut s = String::new();
    s.append("<div class=\"post thread-post\">\n    ");
    let media = render_media(thread);
    s.append(media.as_str());
    s.append(
        "\n    <div class=\"post-content\">\n        <div class=\"post-header\">\n            <span class=\"title\">",
    );
    let et = escape_html(thread.title.as_str());
    s.append(et.as_str());
    s.append("</span>\n            <a href=\"/thread/");
    let id = u64_to_string(thread.id);
    s.append(id.as_str());
    s.append("\" class=\"reply-link\">Reply</a>\n        </div>\n        <div class=\"message\">");
    let em = escape_html(thread.message.as_str());
    s.append(em.as_str());
    s.append("</div>\n    </div>\n</div>");
    proof {
        assert(s@ =~= spec_thread_html(thread@));
    }
    s
}

/// One reply on a thread page: its number and its escaped message.
pub open spec fn spec_reply_html(id: u64, message: Seq<char>) -> Seq<char> {
    "<div class=\"post reply-post\">\n    <div class=\"post-content\">\n        <div class=\"post-header\">\n            <span class=\"title\">Reply "@
        + dec_chars(id as nat)
        + "</span>\n        </div>\n        <div class=\"message\">"@ + escaped_of(message)
        + "</div>\n    </div>\n</div>"@
}

/// Renders one reply for a thread page.
pub fn render_reply(reply: &Reply) -> (r: String)
    ensures
        r@ == spec_reply_html(reply@.id, reply@.message),
{
    let mut s = String::new();
    s.append(
        "<div class=\"post reply-post\">\n    <div class=\"post-content\">\n        <div class=\"post-header\">\n            <span class=\"title\">Reply ",
    );
    let id = u64_to_string(reply.id);
    s.append(id.as_str());
    s.append("</span>\n        </div>\n        <div class=\"message\">");
    let em = escape_html(reply.message.as_str());
    s.append(em.as_str());
    s.append("</div>\n    </div>\n</div>");
    proof {
        assert(s@ =~= spec_reply_html(reply@.id, reply@.message));
    }
    s
}

/// The entity literals, spelled out for the proofs below.
proof fn lemma_entity_chars()
    ensures
        "&amp;"@ =~= seq!['&', 'a', 'm', 'p', ';'],
        "&lt;"@ =~= seq!['&', 'l', 't', ';'],
        "&gt;"@ =~= seq!['&', 'g', 't', ';'],
        "&quot;"@ =~= seq!['&', 'q', 'u', 'o', 't', ';'],
        "&#x27;"@ =~= seq!['&', '#', 'x', '2', '7', ';'],
        "&#x2F;"@ =~= seq!['&', '#', 'x', '2', 'F', ';'],
{
    reveal_strlit("&amp;");
    reveal_strlit("&lt;");
    reveal_strlit("&gt;");
    reveal_strlit("&quot;");
    reveal_strlit("&#x27;");
    reveal_strlit("&#x2F;");
}

/// No raw markup character survives escaping: whatever the input, the
/// escaped text holds no `<`, `>`, `"` or `'`.
pub proof fn lemma_escaped_no_markup(s: Seq<char>)
    ensures
        forall|i: int|
            0 <= i < escaped_of(s).len() ==> !(#[trigger] escaped_of(s)[i] == '<'
                || escaped_of(s)[i] == '>' || escaped_of(s)[i] == '"' || escaped_of(s)[i]
                == '\''),
    decreases s.len(),
{
    lemma_entity_chars();
    if s.len() > 0 {
        lemma_escaped_no_markup(s.drop_first());
        let head = escape_char(s[0]);
        let tail = escaped_of(s.drop_first());
        assert forall|i: int|
            0 <= i < escaped_of(s).len() implies !(#[trigger] escaped_of(s)[i] == '<'
            || escaped_of(s)[i] == '>' || escaped_of(s)[i] == '"' || escaped_of(s)[i]
            == '\'') by {
            if i < head.len() {
                assert(escaped_of(s)[i] == head[i]);
            } else {
                assert(escaped_of(s)[i] == tail[i - head.len()]);
            }
        }
    }
}

/// Escaping loses nothing: two texts with the same escaped form are the
/// same text, so the escaped form determines the input exactly.
pub proof fn lemma_escaped_injective(a: Seq<char>, b: Seq<char>)
    requires
        escaped_of(a) == escaped_of(b),
    ensures
        a == b,
    decreases a.len(),
{
    lemma_entity_chars();
    if a.len() == 0 && b.len() == 0 {
        assert(a =~= b);
    } else if a.len() == 0 {
        assert(escaped_of(b).len() >= escape_char(b[0]).len());
    } else if b.len() == 0 {
        assert(escaped_of(a).len() >= escape_char(a[0]).len());
    } else {
        let ea = escape_char(a[0]);
        let eb = escape_char(b[0]);
        let w = escaped_of(a);
        assert(w == ea + escaped_of(a.drop_first()));
        assert(w == eb + escaped_of(b.drop_first()));
        assert(w[0] == ea[0]);
        assert(w[0] == eb[0]);
        if is_escaped_char(a[0]) && is_escaped_char(b[0]) {
            assert(w[1] == ea[1]);
            assert(w[1] == eb[1]);
            if ea[1] == '#' && eb[1] == '#' {
                assert(w[4] == ea[4]);
                assert(w[4] == eb[4]);
            }
            assert(a[0] == b[0]);
        } else if is_escaped_char(a[0]) {
            assert(eb =~= seq![b[0]]);
            assert(ea[0] == '&' && b[0] != '&');
        } else if is_escaped_char(b[0]) {
            assert(ea =~= seq![a[0]]);
            assert(eb[0] == '&' && a[0] != '&');
        } else {
            assert(ea =~= seq![a[0]]);
            assert(eb =~= seq![b[0]]);
        }
        assert(a[0] == b[0]);
        assert(ea == eb);
        assert(escaped_of(a.drop_first()) =~= escaped_of(b.drop_first())) by {
            let ta = escaped_of(a.drop_first());
            let tb = escaped_of(b.drop_first());
            assert(ta.len() == tb.len());
            assert forall|i: int| 0 <= i < ta.len() implies ta[i] == tb[i] by {
                assert(ta[i] == w[ea.len() + i]);
                assert(tb[i] == w[eb.len() + i]);
            }
        }
        lemma_escaped_injective(a.drop_first(), b.drop_first());
        assert(a =~= seq![a[0]] + a.drop_first());
        assert(b =~= seq![b[0]] + b.drop_first());
    }
}

} // verus!
