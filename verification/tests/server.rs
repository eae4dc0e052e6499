use grafdag::server::{
    embed_document, first_port, port_range_end, port_step, route, BindResult, Method, PortStep, Route,
};

fn asset(path: &str) -> Route {
    let t = if path.ends_with(".js") {
        "text/javascript"
    } else if path.ends_with(".css") {
        "text/css"
    } else {
        "application/octet-stream"
    };
    return Route::Asset { path: path.to_string(), content_type: t.to_string() };
}

#[test]
fn routes() {
    assert_eq!(route(Method::Get, "/"), Route::Page);
    assert_eq!(route(Method::Get, "/index.html"), Route::Page);
    assert_eq!(route(Method::Get, "/api/doc"), Route::ReadDoc);
    assert_eq!(route(Method::Post, "/api/doc"), Route::SaveDoc);
    assert_eq!(route(Method::Post, "/"), asset(""));
    assert_eq!(route(Method::Get, "/app.js"), asset("app.js"));
    assert_eq!(route(Method::Get, "//x/y.css"), asset("x/y.css"));
    assert_eq!(route(Method::Other, "/api/doc"), asset("api/doc"));
    assert_eq!(route(Method::Get, "/api/docs"), asset("api/docs"));
}

#[test]
fn page_embeds_escaped_document() {
    let page = "<script>let doc = <!--GRAFDAG_DOC-->;</script>";
    let json = r#"{"nodes":[{"id":"a","text":"</script><b>é"}]}"#;
    let out = embed_document(page, json);
    assert_eq!(out, r#"<script>let doc = {"nodes":[{"id":"a","text":"<\/script><b>é"}]};</script>"#);
    assert_eq!(out.matches("</").count(), 1);
    // Pages without the marker come back unchanged.
    assert_eq!(embed_document("<p>hi</p>", json), "<p>hi</p>");
    // Every marker is filled.
    assert_eq!(embed_document("<!--GRAFDAG_DOC--><!--GRAFDAG_DOC-->", "1"), "11");
    assert_eq!(embed_document("a<</", "x"), "a<</");
}

#[test]
fn escaping_matches_std_replace() {
    for json in ["", "<", "</", "<</", "<//>", "a</b</c", "x<\\/y"] {
        let page = "<!--GRAFDAG_DOC-->";
        assert_eq!(embed_document(page, json), json.replace("</", "<\\/"));
        assert!(!embed_document(page, json).contains("</"));
    }
}

#[test]
fn asset_media_types() {
    let ty = |p: &str| match route(Method::Get, p) {
        Route::Asset { content_type, .. } => content_type,
        _ => panic!("not an asset"),
    };
    assert_eq!(ty("/style.css"), "text/css");
    assert_eq!(ty("/a/b/index.HTML"), "text/html");
    assert_eq!(ty("/data.json"), "application/json");
    assert_eq!(ty("/image.png"), "image/png");
    assert_eq!(ty("/README"), "application/octet-stream");
    assert_eq!(ty("/archive.unknownext"), "application/octet-stream");
}

#[test]
fn port_retry() {
    assert_eq!(port_range_end(5870), 5970);
    assert_eq!(port_range_end(65500), 65535);
    assert_eq!(first_port(5870), Some(5870));
    assert_eq!(first_port(65535), None);
    assert_eq!(port_step(5870, 5870, BindResult::Bound), PortStep::Listen);
    assert_eq!(port_step(5870, 5870, BindResult::InUse), PortStep::Next(5871));
    assert_eq!(port_step(5870, 5968, BindResult::InUse), PortStep::Next(5969));
    assert_eq!(port_step(5870, 5969, BindResult::InUse), PortStep::NoFreePort);
    assert_eq!(port_step(5870, 5900, BindResult::Failed), PortStep::Fail);
    assert_eq!(port_step(65534, 65534, BindResult::InUse), PortStep::NoFreePort);
    // Following the steps while every port is taken tries exactly the range.
    let mut tried = 0;
    let mut next = first_port(100);
    while let Some(p) = next {
        tried += 1;
        next = match port_step(100, p, BindResult::InUse) {
            PortStep::Next(q) => Some(q),
            _ => None,
        };
    }
    assert_eq!(tried, 100);
}
