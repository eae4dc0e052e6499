//! What the document server decides: which resource a request asks for,
//! and how the document is embedded in the page it serves.
use vstd::prelude::*;

verus! {

/// The characters of `s`, in order.
pub(crate) fn chars_of(s: &str) -> (r: Vec<char>)
    ensures
        r@ == s@,
{
    let mut r: Vec<char> = Vec::new();
    for c in it: s.chars()
        invariant
            r@ == it.seq().take(it.index() as int),
            it.seq() == s@,
    {
        r.push(c);
    }
    r
}


/// `String::push`: appends `c` at the end of `s`.
#[verifier::external_body]
fn push_char(s: &mut String, c: char)
    ensures
        final(s)@ == old(s)@.push(c),
{
    s.push(c);
}

/// The string of the characters `cs`.
pub(crate) fn string_of(cs: &Vec<char>) -> (r: String)
    ensures
        r@ == cs@,
{
    let mut r = String::new();
    for i in 0..cs.len()
        invariant
            r@ == cs@.take(i as int),
    {
        push_char(&mut r, cs[i]);
        assert(cs@.take(i + 1) =~= cs@.take(i as int).push(cs@[i as int]));
    }
    assert(cs@.take(cs@.len() as int) =~= cs@);
    r
}

/// `s` with every occurrence of `pat` replaced by `rep`, scanning from the
/// start and not looking into replacements.
pub open spec fn replaced(s: Seq<char>, pat: Seq<char>, rep: Seq<char>) -> Seq<char>
    decreases s.len(),
{
    if pat.len() == 0 || s.len() < pat.len() {
        s
    } else if s.take(pat.len() as int) == pat {
        rep + replaced(s.skip(pat.len() as int), pat, rep)
    } else {
        seq![s[0]] + replaced(s.skip(1), pat, rep)
    }
}

/// Whether `pat` occurs in `s` at position `i`.
pub(crate) fn matches_at(s: &Vec<char>, i: usize, pat: &Vec<char>) -> (r: bool)
    requires
        i <= s@.len(),
    ensures
        r == (s@.len() - i >= pat@.len() && s@.skip(i as int).take(pat@.len() as int) == pat@),
{
    if s.len() - i < pat.len() {
        return false;
    }
    for j in 0..pat.len()
        invariant
            i <= s@.len(),
            i + pat.len() <= s.len(),
            forall|k: int| 0 <= k < j ==> s@[i + k] == pat@[k],
    {
        if s[i + j] != pat[j] {
            assert(s@.skip(i as int).take(pat@.len() as int)[j as int] != pat@[j as int]);
            return false;
        }
    }
    assert(s@.skip(i as int).take(pat@.len() as int) =~= pat@);
    true
}

/// `s` with every occurrence of `pat` replaced by `rep`.
fn replace_all(s: &str, pat: &str, rep: &str) -> (r: String)
    requires
        pat@.len() > 0,
    ensures
        r@ == replaced(s@, pat@, rep@),
{
    let sc = chars_of(s);
    let pc = chars_of(pat);
    let rc = chars_of(rep);
    let mut out: Vec<char> = Vec::new();
    let mut i: usize = 0;
    assert(sc@.skip(0) =~= sc@);
    assert(out@ + replaced(sc@, pc@, rc@) =~= replaced(sc@, pc@, rc@));
    while i < sc.len()
        invariant
            sc@ == s@,
            pc@ == pat@,
            rc@ == rep@,
            pc@.len() > 0,
            i <= sc@.len(),
            out@ + replaced(sc@.skip(i as int), pc@, rc@) == replaced(sc@, pc@, rc@),
        decreases sc@.len() - i,
    {
        let ghost rest = sc@.skip(i as int);
        if matches_at(&sc, i, &pc) {
            let ghost o0 = out@;
            for j in 0..rc.len()
                invariant
                    out@ == o0 + rc@.take(j as int),
            {
                out.push(rc[j]);
                assert(rc@.take(j + 1) =~= rc@.take(j as int).push(rc@[j as int]));
            }
            assert(rc@.take(rc@.len() as int) =~= rc@);
            assert(rest.skip(pc@.len() as int) =~= sc@.skip(i + pc@.len()));
            assert(o0 + (rc@ + replaced(sc@.skip(i + pc@.len()), pc@, rc@)) =~= out@ + replaced(
                sc@.skip(i + pc@.len()),
                pc@,
                rc@,
            ));
            i = i + pc.len();
        } else {
            let ghost o0 = out@;
            out.push(sc[i]);
            assert(rest[0] == sc@[i as int]);
            assert(rest.skip(1) =~= sc@.skip(i + 1));
            proof {
                if rest.len() < pc@.len() {
                    assert(rest =~= seq![rest[0]] + rest.skip(1));
                    assert(replaced(rest.skip(1), pc@, rc@) == rest.skip(1));
                }
            }
            assert(o0 + (seq![sc@[i as int]] + replaced(sc@.skip(i + 1), pc@, rc@)) =~= out@ + replaced(
                sc@.skip(i + 1),
                pc@,
                rc@,
            ));
            i = i + 1;
        }
    }
    assert(sc@.skip(i as int) =~= Seq::<char>::empty());
    assert(out@ + Seq::<char>::empty() =~= out@);
    string_of(&out)
}


/// The request methods the server tells apart.
#[derive(Clone, Copy, Debug, PartialEq, Eq, Structural)]
pub enum Method {
    Get,
    Post,
    Other,
}

/// What a request asks for.
#[derive(Debug, PartialEq)]
pub enum Route {
    /// The editor page with the document embedded.
    Page,
    /// The document as JSON.
    ReadDoc,
    /// Replace the saved document with the request body.
    SaveDoc,
    /// A bundled static file, by its path without leading slashes, with the
    /// content type it is served as.
    Asset { path: String, content_type: String },
}

/// The media type `mime_guess` gives a path: the one registered for its
/// extension.
pub uninterp spec fn mime_of(path: Seq<char>) -> Seq<char>;

/// `mime_guess::from_path(path).first_or_octet_stream()`, as text: the first
/// media type registered for the path's extension (looked up from the path
/// alone, without touching the disk), or `application/octet-stream` when
/// there is none. Which type each extension has is named, not described; a
/// path without a dot has no extension.
#[verifier::external_body]
fn guess_media_type(path: &str) -> (r: String)
    ensures
        r@ == mime_of(path@),
        !path@.contains('.') ==> r@ == "application/octet-stream"@,
{
    mime_guess::from_path(path).first_or_octet_stream().to_string()
}

/// `s` without its leading slashes.
pub open spec fn trim_slashes(s: Seq<char>) -> Seq<char>
    decreases s.len(),
{
    if s.len() > 0 && s[0] == '/' {
        trim_slashes(s.skip(1))
    } else {
        s
    }
}

fn same_chars(a: &Vec<char>, b: &Vec<char>) -> (r: bool)
    ensures
        r == (a@ == b@),
{
    if a.len() != b.len() {
        return false;
    }
    for i in 0..a.len()
        invariant
            a@.len() == b@.len(),
            forall|k: int| 0 <= k < i ==> a@[k] == b@[k],
    {
        if a[i] != b[i] {
            return false;
        }
    }
    assert(a@ =~= b@);
    true
}

/// The resource a request with `method` for `path` asks for: the page at
/// `/` and `/index.html`, the document at `/api/doc` (read with GET, saved
/// with POST), and otherwise a bundled file, served as the media type its
/// path suggests.
pub fn route(method: Method, path: &str) -> (r: Route)
    ensures
        ({
            let page = method == Method::Get && (path@ == "/"@ || path@ == "/index.html"@);
            let read = method == Method::Get && path@ == "/api/doc"@;
            let save = method == Method::Post && path@ == "/api/doc"@;
            match r {
                Route::Page => page,
                Route::ReadDoc => read,
                Route::SaveDoc => save,
                Route::Asset { path: p, content_type: t } => !page && !read && !save && p@ == trim_slashes(path@)
                    && t@ == mime_of(trim_slashes(path@)),
            }
        }),
{
    let pc = chars_of(path);
    let is_doc = same_chars(&pc, &chars_of("/api/doc"));
    match method {
        Method::Get => {
            if same_chars(&pc, &chars_of("/")) || same_chars(&pc, &chars_of("/index.html")) {
                return Route::Page;
            }
            if is_doc {
                return Route::ReadDoc;
            }
        },
        Method::Post => {
            if is_doc {
                return Route::SaveDoc;
            }
        },
        Method::Other => {},
    }
    let mut i: usize = 0;
    assert(pc@.skip(0) =~= pc@);
    while i < pc.len() && pc[i] == '/'
        invariant
            i <= pc@.len(),
            trim_slashes(pc@.skip(i as int)) == trim_slashes(pc@),
        decreases pc@.len() - i,
    {
        assert(pc@.skip(i as int).skip(1) =~= pc@.skip(i + 1));
        i = i + 1;
    }
    let mut rest: Vec<char> = Vec::new();
    for j in i..pc.len()
        invariant
            i <= pc@.len(),
            rest@ == pc@.subrange(i as int, j as int),
    {
        rest.push(pc[j]);
        assert(pc@.subrange(i as int, j + 1) =~= pc@.subrange(i as int, j as int).push(pc@[j as int]));
    }
    assert(pc@.skip(i as int) =~= pc@.subrange(i as int, pc@.len() as int));
    let p = string_of(&rest);
    let t = guess_media_type(p.as_str());
    Route::Asset { path: p, content_type: t }
}

/// How many ports are tried, from the base port on.
pub const PORT_ATTEMPTS: u16 = 100;

/// One past the last port tried from `base`: `PORT_ATTEMPTS` ports on,
/// stopping at the highest port number.
pub open spec fn port_end(base: u16) -> int {
    if base + PORT_ATTEMPTS > u16::MAX {
        u16::MAX as int
    } else {
        base + PORT_ATTEMPTS
    }
}

/// One past the last port tried from `base`.
pub fn port_range_end(base: u16) -> (r: u16)
    ensures
        r == port_end(base),
{
    base.saturating_add(PORT_ATTEMPTS)
}

/// How binding to a port went.
#[derive(Clone, Copy, Debug, PartialEq, Eq, Structural)]
pub enum BindResult {
    Bound,
    InUse,
    Failed,
}

/// What to do after trying a port.
#[derive(Clone, Copy, Debug, PartialEq, Eq, Structural)]
pub enum PortStep {
    /// Serve on the port just bound.
    Listen,
    /// The port is taken: try this one next.
    Next(u16),
    /// Every port in the range is taken.
    NoFreePort,
    /// Binding failed for another reason: give up.
    Fail,
}

/// The first port to try from `base`, if the range is not empty.
pub fn first_port(base: u16) -> (r: Option<u16>)
    ensures
        r == if base < port_end(base) {
            Some(base)
        } else {
            None
        },
{
    if base < port_range_end(base) {
        Some(base)
    } else {
        None
    }
}

/// What follows trying `port`, in the range from `base`: serve on it when
/// bound, give up on an error other than the port being taken, and
/// otherwise go on to the next port while there is one.
pub fn port_step(base: u16, port: u16, bound: BindResult) -> (r: PortStep)
    requires
        base <= port < port_end(base),
    ensures
        r == match bound {
            BindResult::Bound => PortStep::Listen,
            BindResult::Failed => PortStep::Fail,
            BindResult::InUse => if port + 1 < port_end(base) {
                PortStep::Next((port + 1) as u16)
            } else {
                PortStep::NoFreePort
            },
        },
{
    match bound {
        BindResult::Bound => PortStep::Listen,
        BindResult::Failed => PortStep::Fail,
        BindResult::InUse => {
            if port + 1 < port_range_end(base) {
                PortStep::Next(port + 1)
            } else {
                PortStep::NoFreePort
            }
        },
    }
}

/// Where the page template takes the document.
pub open spec fn doc_marker() -> Seq<char> {
    "<!--GRAFDAG_DOC-->"@
}

/// The document's JSON made safe to stand inside a script element: every
/// `</` becomes `<\/`, which reads the same as JSON.
pub open spec fn escaped_json(json: Seq<char>) -> Seq<char> {
    replaced(json, "</"@, "<\\/"@)
}

/// The editor page: the template with the escaped document put where the
/// marker stands.
pub fn embed_document(page: &str, json: &str) -> (r: String)
    ensures
        r@ == replaced(page@, doc_marker(), escaped_json(json@)),
{
    proof {
        reveal_strlit("</");
        reveal_strlit("<!--GRAFDAG_DOC-->");
    }
    let escaped = replace_all(json, "</", "<\\/");
    replace_all(page, "<!--GRAFDAG_DOC-->", escaped.as_str())
}

/// `t` holds no `<` directly followed by `/`.
pub open spec fn no_close_tag(t: Seq<char>) -> bool {
    forall|i: int| 0 <= i < t.len() - 1 ==> !(#[trigger] t[i] == '<' && t[i + 1] == '/')
}

proof fn lemma_escaped_first(s: Seq<char>)
    requires
        s.len() > 0,
    ensures
        escaped_json(s).len() > 0,
        escaped_json(s)[0] == s[0],
    decreases s.len(),
{
    reveal_strlit("</");
    reveal_strlit("<\\/");
    if s.len() >= 2 && s.take(2) == "</"@ {
        assert(s[0] == s.take(2)[0]);
    }
}

/// Escaped JSON never holds `</`, so it cannot end the script element it
/// is embedded in.
pub proof fn lemma_escaped_json_safe(json: Seq<char>)
    ensures
        no_close_tag(escaped_json(json)),
    decreases json.len(),
{
    reveal_strlit("</");
    reveal_strlit("<\\/");
    let pat = "</"@;
    let rep = "<\\/"@;
    let e = escaped_json(json);
    if json.len() < 2 {
        assert(e == json);
        if json.len() == 1 {
            assert forall|i: int| 0 <= i < e.len() - 1 implies !(#[trigger] e[i] == '<' && e[i + 1] == '/') by {}
        }
    } else if json.take(2) == pat {
        let rest = json.skip(2);
        lemma_escaped_json_safe(rest);
        let er = escaped_json(rest);
        assert(e == rep + er);
        if rest.len() > 0 {
            lemma_escaped_first(rest);
        }
        assert forall|i: int| 0 <= i < e.len() - 1 implies !(#[trigger] e[i] == '<' && e[i + 1] == '/') by {
            if i >= 3 {
                assert(e[i] == er[i - 3] && e[i + 1] == er[i - 2]);
            }
        }
    } else {
        let rest = json.skip(1);
        lemma_escaped_json_safe(rest);
        let er = escaped_json(rest);
        assert(e == seq![json[0]] + er);
        lemma_escaped_first(rest);
        assert(er[0] == json[1]);
        if json[0] == '<' {
            assert(pat =~= seq!['<', '/']);
            assert(json.take(2) =~= seq![json[0], json[1]]);
            assert(json[1] != '/');
        }
        assert forall|i: int| 0 <= i < e.len() - 1 implies !(#[trigger] e[i] == '<' && e[i + 1] == '/') by {
            if i >= 1 {
                assert(e[i] == er[i - 1] && e[i + 1] == er[i]);
            }
        }
    }
}

} // verus!
