//! The markdown front end of the rendering pipeline.
//!
//! A markdown file is rendered to HTML by pulldown-cmark behind two trusted
//! wrappers, each naming its result as a function of the text alone; what the
//! pipeline then does with the events — deciding which links are internal,
//! collecting the referenced assets, ordering and deduplicating them, and
//! resolving them to [`SrcPath`] identities — is verified here.

use vstd::prelude::*;
use vstd::string::StrSliceExecFns;
use vstd::string::StringExecFns;

use crate::path::{filename_start, has_filename, soft_canon_spec, soft_cannonicalize, SrcPath};

verus! {

/// A markdown text.
#[derive(Debug)]
pub struct Md(String);

impl Md {
    /// The markdown text itself.
    pub closed spec fn text_spec(&self) -> Seq<char> {
        self.0@
    }

    /// Wraps markdown text.
    pub fn new(text: String) -> (r: Md)
        ensures
            r.text_spec() == text@,
    {
        Md(text)
    }

    /// The markdown text, as a string slice.
    pub fn as_text(&self) -> (r: &str)
        ensures
            r@ == self.text_spec(),
    {
        self.0.as_str()
    }
}

/// A markdown file: its text and the source path it was read from.
#[derive(Debug)]
pub struct MdFile {
    content: Md,
    src_path: SrcPath,
}

impl MdFile {
    /// The file's markdown text.
    pub closed spec fn content_spec(&self) -> Seq<char> {
        self.content.text_spec()
    }

    /// The file's source path.
    pub closed spec fn src_spec(&self) -> SrcPath {
        self.src_path
    }

    /// Builds a markdown file from its text and its path. The path must hold
    /// a file name: it must not be empty or end in a slash.
    pub fn new_from_str(content: &str, filename: String) -> (r: MdFile)
        requires
            filename_start(filename@) < filename@.len(),
        ensures
            r.content_spec() == content@,
            r.src_spec().wf(),
            r.src_spec().path_spec() == filename@,
    {
        MdFile { content: Md(content.to_owned()), src_path: SrcPath::new(filename) }
    }
}

/// One link-bearing markdown event: an image, or a link with its destination.
#[derive(Debug, PartialEq, Eq)]
pub enum LinkEvent {
    /// An image with its destination URL: always a tracked asset.
    Image { dest: String },
    /// A link with its destination URL: a tracked asset only when internal.
    Link { dest: String },
}

/// The plain shape of a link event: whether it is an image, and where it
/// points.
pub open spec fn event_view(e: LinkEvent) -> (bool, Seq<char>) {
    match e {
        LinkEvent::Image { dest } => (true, dest@),
        LinkEvent::Link { dest } => (false, dest@),
    }
}

/// The HTML rendering of a markdown text, with all markdown extensions
/// enabled: a function of the text alone.
pub uninterp spec fn html_of(s: Seq<char>) -> Seq<char>;

/// The image and link start events of a markdown text, in document order,
/// each as (is-image, destination): a function of the text alone. Links and
/// images inside raw HTML blocks are not seen.
pub uninterp spec fn events_of(s: Seq<char>) -> Seq<(bool, Seq<char>)>;

/// The SHA-256 digest of a markdown text: a function of the text alone.
pub uninterp spec fn sha256_of(s: Seq<char>) -> Seq<u8>;

/// Relies on pulldown_cmark's `Parser::new_ext` and `html::push_html`: the
/// HTML they produce for a text, with `Options::all()`, depends on the text
/// alone.
#[verifier::external_body]
fn render_html(md: &str) -> (r: String)
    ensures
        r@ == html_of(md@),
{
    let parser = pulldown_cmark::Parser::new_ext(md, pulldown_cmark::Options::all());
    let mut html = String::new();
    pulldown_cmark::html::push_html(&mut html, parser);
    html
}

/// Relies on pulldown_cmark's `Parser::new_ext`: the event stream it produces
/// for a text, with `Options::all()`, depends on the text alone; this keeps
/// the `Image` and `Link` start events, in order, moving out each
/// destination.
#[verifier::external_body]
fn scan_events(md: &str) -> (r: Vec<LinkEvent>)
    ensures
        r@.map_values(|e: LinkEvent| event_view(e)) == events_of(md@),
{
    let parser = pulldown_cmark::Parser::new_ext(md, pulldown_cmark::Options::all());
    let mut out: Vec<LinkEvent> = Vec::new();
    for event in parser {
        match event {
            pulldown_cmark::Event::Start(pulldown_cmark::Tag::Image { dest_url, .. }) => {
                out.push(LinkEvent::Image { dest: dest_url.to_string() });
            },
            pulldown_cmark::Event::Start(pulldown_cmark::Tag::Link { dest_url, .. }) => {
                out.push(LinkEvent::Link { dest: dest_url.to_string() });
            },
            _ => {},
        }
    }
    out
}

/// Relies on sha2's `Sha256`: the digest depends on the text's bytes alone,
/// and is 32 bytes long.
#[verifier::external_body]
fn sha256_digest(md: &str) -> (r: Vec<u8>)
    ensures
        r@ == sha256_of(md@),
        r@.len() == 32,
{
    <sha2::Sha256 as sha2::Digest>::digest(md.as_bytes()).to_vec()
}

/// An ASCII letter, as a URI scheme is made of.
pub open spec fn is_scheme_char(c: char) -> bool {
    ||| 'a' <= c <= 'z'
    ||| 'A' <= c <= 'Z'
}

/// The link starts with a URI scheme: one or more ASCII letters, then `:`.
pub open spec fn has_scheme(s: Seq<char>) -> bool {
    exists|j: int|
        1 <= j < s.len() && s[j] == ':' && (forall|t: int|
            0 <= t < j ==> is_scheme_char(#[trigger] s[t]))
}

/// The link leaves the scheme to the context: `//host/...`.
pub open spec fn is_protocol_relative(s: Seq<char>) -> bool {
    s.len() >= 2 && s[0] == '/' && s[1] == '/'
}

/// The link stays on this site: it carries neither a URI scheme nor a
/// protocol-relative prefix.
pub open spec fn is_internal_spec(s: Seq<char>) -> bool {
    !has_scheme(s) && !is_protocol_relative(s)
}

/// Checks whether a link is an internal link (within this site) or an
/// external one: external links start with a URI scheme, such as `https:`,
/// or with `//`.
#[verifier::loop_isolation(false)]
pub fn is_internal_link(link: &str) -> (r: bool)
    ensures
        r == is_internal_spec(link@),
{
    let n = link.unicode_len();
    if n >= 2 && link.get_char(0) == '/' && link.get_char(1) == '/' {
        return false;
    }
    let mut i: usize = 0;
    while i < n
        invariant
            0 <= i <= n,
            forall|t: int| 0 <= t < i ==> is_scheme_char(#[trigger] link@[t]),
        decreases n - i,
    {
        let c = link.get_char(i);
        let alpha = ('a' <= c && c <= 'z') || ('A' <= c && c <= 'Z');
        if !alpha {
            if c == ':' && i >= 1 {
                proof {
                    assert(has_scheme(link@));
                }
                return false;
            }
            proof {
                assert(!has_scheme(link@)) by {
                    if has_scheme(link@) {
                        let j = choose|j: int|
                            1 <= j < link@.len() && link@[j] == ':' && (forall|t: int|
                                0 <= t < j ==> is_scheme_char(#[trigger] link@[t]));
                        if j < i {
                            assert(is_scheme_char(link@[j]));
                        } else if j == i {
                        } else {
                            assert(is_scheme_char(link@[i as int]));
                        }
                    }
                }
            }
            return true;
        }
        i += 1;
    }
    proof {
        assert(!has_scheme(link@)) by {
            if has_scheme(link@) {
                let j = choose|j: int|
                    1 <= j < link@.len() && link@[j] == ':' && (forall|t: int|
                        0 <= t < j ==> is_scheme_char(#[trigger] link@[t]));
                assert(is_scheme_char(link@[j]));
            }
        }
    }
    true
}

/// The destinations a markdown text tracks as assets, in document order:
/// every image, and every internal link.
pub open spec fn tracked_assets(evs: Seq<(bool, Seq<char>)>) -> Seq<Seq<char>>
    decreases evs.len(),
{
    if evs.len() == 0 {
        Seq::empty()
    } else {
        let rest = tracked_assets(evs.drop_last());
        let e = evs.last();
        if e.0 || is_internal_spec(e.1) {
            rest.push(e.1)
        } else {
            rest
        }
    }
}

/// Strict lexicographic order on text, by character code. On UTF-8 text this
/// agrees with byte order.
pub open spec fn str_lt(a: Seq<char>, b: Seq<char>) -> bool
    decreases a.len(),
{
    if b.len() == 0 {
        false
    } else if a.len() == 0 {
        true
    } else if a[0] < b[0] {
        true
    } else if a[0] > b[0] {
        false
    } else {
        str_lt(a.drop_first(), b.drop_first())
    }
}

/// The order is total: two texts are equal or one precedes the other.
pub proof fn lemma_str_lt_total(a: Seq<char>, b: Seq<char>)
    ensures
        a == b || str_lt(a, b) || str_lt(b, a),
    decreases a.len(),
{
    if a.len() > 0 && b.len() > 0 && a[0] == b[0] {
        lemma_str_lt_total(a.drop_first(), b.drop_first());
        if a.drop_first() == b.drop_first() {
            assert(a =~= seq![a[0]] + a.drop_first());
            assert(b =~= seq![b[0]] + b.drop_first());
        }
    } else if a.len() == 0 && b.len() == 0 {
        assert(a =~= b);
    }
}

/// The order is transitive.
pub proof fn lemma_str_lt_trans(a: Seq<char>, b: Seq<char>, c: Seq<char>)
    requires
        str_lt(a, b),
        str_lt(b, c),
    ensures
        str_lt(a, c),
    decreases a.len(),
{
    if a.len() > 0 && b.len() > 0 && c.len() > 0 && a[0] == b[0] && b[0] == c[0] {
        lemma_str_lt_trans(a.drop_first(), b.drop_first(), c.drop_first());
    }
}

/// The views of a list of strings.
pub open spec fn views_of(v: Seq<String>) -> Seq<Seq<char>> {
    v.map_values(|s: String| s@)
}

/// Strictly ascending text: sorted, with no duplicates.
pub open spec fn sorted_nodup(vs: Seq<Seq<char>>) -> bool {
    forall|i: int, j: int| 0 <= i < j < vs.len() ==> str_lt(vs[i], vs[j])
}

/// The order is irreflexive: no text precedes itself.
pub proof fn lemma_str_lt_irrefl(a: Seq<char>)
    ensures
        !str_lt(a, a),
    decreases a.len(),
{
    if a.len() > 0 {
        lemma_str_lt_irrefl(a.drop_first());
    }
}

/// A strictly ascending list is determined by what it holds: two such lists
/// with the same members are one list. So a contract that asks for a sorted,
/// duplicate-free list with a given membership — as [`md_to_chonk`] does for
/// its assets — pins the list completely.
pub proof fn lemma_sorted_nodup_unique(a: Seq<Seq<char>>, b: Seq<Seq<char>>)
    requires
        sorted_nodup(a),
        sorted_nodup(b),
        forall|y: Seq<char>| a.contains(y) <==> b.contains(y),
    ensures
        a == b,
    decreases a.len(),
{
    if a.len() == 0 {
        if b.len() > 0 {
            assert(b.contains(b[0]));
        }
        assert(a =~= b);
    } else if b.len() == 0 {
        assert(a.contains(a[0]));
    } else {
        // both heads are the least member, so they are equal
        assert(a.contains(a[0]) && b.contains(b[0]));
        let ia = choose|t: int| 0 <= t < a.len() && a[t] == b[0];
        let ib = choose|t: int| 0 <= t < b.len() && b[t] == a[0];
        if ia > 0 && ib > 0 {
            lemma_str_lt_trans(a[0], a[ia], b[ib]);
            lemma_str_lt_irrefl(a[0]);
        } else if ia > 0 {
            lemma_str_lt_irrefl(a[0]);
        } else if ib > 0 {
            lemma_str_lt_irrefl(b[0]);
        }
        assert(a[0] == b[0]);
        // the tails hold the same members: the head never recurs
        assert forall|y: Seq<char>|
            a.drop_first().contains(y) <==> b.drop_first().contains(y) by {
            if a.drop_first().contains(y) {
                let t = choose|t: int| 0 <= t < a.drop_first().len() && a.drop_first()[t] == y;
                assert(a[t + 1] == y);
                assert(a.contains(y));
                let u = choose|u: int| 0 <= u < b.len() && b[u] == y;
                if u == 0 {
                    assert(y == a[0]);
                    lemma_str_lt_irrefl(a[0]);
                }
                assert(b.drop_first()[u - 1] == y);
            }
            if b.drop_first().contains(y) {
                let t = choose|t: int| 0 <= t < b.drop_first().len() && b.drop_first()[t] == y;
                assert(b[t + 1] == y);
                assert(b.contains(y));
                let u = choose|u: int| 0 <= u < a.len() && a[u] == y;
                if u == 0 {
                    assert(y == b[0]);
                    lemma_str_lt_irrefl(b[0]);
                }
                assert(a.drop_first()[u - 1] == y);
            }
        }
        lemma_sorted_nodup_unique(a.drop_first(), b.drop_first());
        assert(a =~= seq![a[0]] + a.drop_first());
        assert(b =~= seq![b[0]] + b.drop_first());
    }
}

/// Compares two strings in the lexicographic order.
#[verifier::loop_isolation(false)]
fn str_lt_exec(a: &String, b: &String) -> (r: bool)
    ensures
        r == str_lt(a@, b@),
{
    let an = a.as_str().unicode_len();
    let bn = b.as_str().unicode_len();
    let mut i: usize = 0;
    proof {
        assert(a@.skip(0) =~= a@);
        assert(b@.skip(0) =~= b@);
    }
    while i < an && i < bn
        invariant
            0 <= i <= an,
            0 <= i <= bn,
            str_lt(a@, b@) == str_lt(a@.skip(i as int), b@.skip(i as int)),
        decreases an - i,
    {
        let ca = a.as_str().get_char(i);
        let cb = b.as_str().get_char(i);
        proof {
            assert(a@.skip(i as int)[0] == a@[i as int]);
            assert(b@.skip(i as int)[0] == b@[i as int]);
        }
        if ca < cb {
            return true;
        }
        if ca > cb {
            return false;
        }
        proof {
            assert(a@.skip(i as int).drop_first() =~= a@.skip(i + 1));
            assert(b@.skip(i as int).drop_first() =~= b@.skip(i + 1));
        }
        i += 1;
    }
    proof {
        if i >= an {
            assert(a@.skip(i as int).len() == 0);
        } else {
            assert(b@.skip(i as int).len() == 0);
            assert(a@.skip(i as int).len() > 0);
        }
    }
    i == an && i < bn
}

/// Inserts a string into a strictly ascending list, keeping it strictly
/// ascending: the string finds its place, and a string already present is
/// dropped.
#[verifier::loop_isolation(false)]
fn insert_sorted(out: &mut Vec<String>, x: String)
    requires
        sorted_nodup(views_of(old(out)@)),
    ensures
        sorted_nodup(views_of(final(out)@)),
        forall|y: Seq<char>|
            views_of(final(out)@).contains(y) <==> views_of(old(out)@).contains(y) || y == x@,
{
    let ghost m = |s: String| s@;
    let mut j: usize = 0;
    while j < out.len() && str_lt_exec(&out[j], &x)
        invariant
            0 <= j <= out@.len(),
            forall|t: int| 0 <= t < j ==> str_lt(views_of(out@)[t], x@),
            out@ == old(out)@,
        decreases out@.len() - j,
    {
        j += 1;
    }
    if j < out.len() && out[j].eq(&x) {
        // already present: dropped, the list keeps one copy
        proof {
            assert(views_of(out@)[j as int] == x@);
            assert(views_of(out@).contains(x@));
        }
    } else {
        proof {
            if j < out@.len() {
                lemma_str_lt_total(views_of(out@)[j as int], x@);
                assert(str_lt(x@, views_of(out@)[j as int]));
            }
        }
        let ghost pre = out@;
        out.insert(j, x);
        proof {
            let vs = views_of(out@);
            let ps = views_of(pre);
            assert(vs =~= ps.insert(j as int, x@)) by {
                assert(out@ == pre.insert(j as int, x));
                assert forall|t: int| 0 <= t < vs.len() implies vs[t] == ps.insert(j as int, x@)[t]
                    by {
                    if t < j {
                        assert(out@[t] == pre[t]);
                    } else if t == j {
                        assert(out@[t] == x);
                    } else {
                        assert(out@[t] == pre[t - 1]);
                    }
                }
            }
            assert(sorted_nodup(vs)) by {
                assert forall|t1: int, t2: int| 0 <= t1 < t2 < vs.len() implies str_lt(
                    vs[t1],
                    vs[t2],
                ) by {
                    if t2 < j {
                        assert(vs[t1] == ps[t1] && vs[t2] == ps[t2]);
                    } else if t1 < j && t2 == j {
                        assert(vs[t1] == ps[t1]);
                    } else if t1 < j && t2 > j {
                        assert(vs[t1] == ps[t1] && vs[t2] == ps[t2 - 1]);
                        if t2 - 1 == j {
                            assert(str_lt(ps[t1], x@));
                            assert(str_lt(x@, ps[j as int]));
                            lemma_str_lt_trans(ps[t1], x@, ps[j as int]);
                        }
                    } else if t1 == j {
                        assert(vs[t2] == ps[t2 - 1]);
                        assert(str_lt(x@, ps[j as int]));
                        if t2 - 1 > j {
                            lemma_str_lt_trans(x@, ps[j as int], ps[t2 - 1]);
                        }
                    } else {
                        assert(vs[t1] == ps[t1 - 1] && vs[t2] == ps[t2 - 1]);
                    }
                }
            }
            assert forall|y: Seq<char>| vs.contains(y) <==> ps.contains(y) || y == x@ by {
                if vs.contains(y) {
                    let t = choose|t: int| 0 <= t < vs.len() && vs[t] == y;
                    if t < j {
                        assert(ps[t] == y);
                    } else if t > j {
                        assert(ps[t - 1] == y);
                    }
                }
                if ps.contains(y) {
                    let t = choose|t: int| 0 <= t < ps.len() && ps[t] == y;
                    if t < j {
                        assert(vs[t] == y);
                    } else {
                        assert(vs[t + 1] == y);
                    }
                }
                if y == x@ {
                    assert(vs[j as int] == y);
                }
            }
        }
    }
}

/// Collects the tracked assets of an event stream — every image, every
/// internal link — into a strictly ascending, duplicate-free list.
#[verifier::loop_isolation(false)]
fn collect_assets(events: &Vec<LinkEvent>) -> (assets: Vec<String>)
    ensures
        sorted_nodup(views_of(assets@)),
        forall|y: Seq<char>|
            views_of(assets@).contains(y) <==> tracked_assets(
                events@.map_values(|e: LinkEvent| event_view(e)),
            ).contains(y),
{
    let ghost evs = events@.map_values(|e: LinkEvent| event_view(e));
    let mut out: Vec<String> = Vec::new();
    let mut i: usize = 0;
    proof {
        assert(evs.subrange(0, 0) =~= Seq::<(bool, Seq<char>)>::empty());
        assert(views_of(out@) =~= Seq::<Seq<char>>::empty());
    }
    while i < events.len()
        invariant
            0 <= i <= events@.len(),
            evs == events@.map_values(|e: LinkEvent| event_view(e)),
            sorted_nodup(views_of(out@)),
            forall|y: Seq<char>|
                views_of(out@).contains(y) <==> tracked_assets(evs.subrange(0, i as int)).contains(
                    y,
                ),
        decreases events@.len() - i,
    {
        proof {
            assert(evs.subrange(0, i + 1).drop_last() =~= evs.subrange(0, i as int));
            assert(evs.subrange(0, i + 1).last() == event_view(events@[i as int]));
        }
        let tracked_dest: Option<String> = match &events[i] {
            LinkEvent::Image { dest } => Some(dest.clone()),
            LinkEvent::Link { dest } => {
                if is_internal_link(dest.as_str()) {
                    Some(dest.clone())
                } else {
                    None
                }
            },
        };
        match tracked_dest {
            Some(dest) => {
                insert_sorted(&mut out, dest);
            },
            None => {},
        }
        proof {
            let prev = tracked_assets(evs.subrange(0, i as int));
            let cur = tracked_assets(evs.subrange(0, i + 1));
            assert forall|y: Seq<char>| cur.contains(y) implies views_of(out@).contains(y) by {
                let t = choose|t: int| 0 <= t < cur.len() && cur[t] == y;
                if t < prev.len() {
                    assert(prev[t] == y);
                }
            }
            assert forall|y: Seq<char>| views_of(out@).contains(y) implies cur.contains(y) by {
                if prev.contains(y) {
                    let t = choose|t: int| 0 <= t < prev.len() && prev[t] == y;
                    assert(cur[t] == y);
                } else {
                    assert(cur[cur.len() - 1] == y);
                }
            }
        }
        i += 1;
    }
    proof {
        assert(evs.subrange(0, evs.len() as int) =~= evs);
    }
    out
}

/// A rendered markdown file: its HTML, the assets it references — sorted and
/// deduplicated — and the source path it came from.
#[derive(Debug)]
pub struct Chonk {
    html: String,
    assets: Vec<String>,
    og_srcpath: SrcPath,
}

impl Chonk {
    /// The rendered HTML.
    pub closed spec fn html_spec(&self) -> Seq<char> {
        self.html@
    }

    /// The referenced assets, each once, in ascending order.
    pub closed spec fn assets_spec(&self) -> Seq<Seq<char>> {
        views_of(self.assets@)
    }

    /// The source path of the markdown file this was rendered from.
    pub closed spec fn src_spec(&self) -> SrcPath {
        self.og_srcpath
    }

    /// The rendered HTML.
    pub fn html(&self) -> (r: &String)
        ensures
            r@ == self.html_spec(),
    {
        &self.html
    }

    /// The referenced assets, each once, in ascending order.
    pub fn assets(&self) -> (r: &Vec<String>)
        ensures
            views_of(r@) == self.assets_spec(),
    {
        &self.assets
    }

    /// The source path of the markdown file this was rendered from.
    pub fn source(&self) -> (r: &SrcPath)
        ensures
            *r == self.src_spec(),
    {
        &self.og_srcpath
    }
}

/// Renders a markdown file: the HTML that pulldown-cmark produces for its
/// text, and the tracked assets — every image destination and every internal
/// link destination — sorted and deduplicated.
pub fn md_to_chonk(md_file: MdFile) -> (r: Chonk)
    ensures
        r.html_spec() == html_of(md_file.content_spec()),
        sorted_nodup(r.assets_spec()),
        forall|y: Seq<char>|
            r.assets_spec().contains(y) <==> tracked_assets(
                events_of(md_file.content_spec()),
            ).contains(y),
        r.src_spec() == md_file.src_spec(),
{
    let html = render_html(md_file.content.as_text());
    let events = scan_events(md_file.content.as_text());
    let assets = collect_assets(&events);
    Chonk { html, assets, og_srcpath: md_file.src_path }
}

/// The lowercase form of an ASCII byte: the letters `A` to `Z` (values 65 to
/// 90) move down by 32, everything else stays.
pub open spec fn lower_byte(b: u8) -> u8 {
    if 65 <= b <= 90 {
        (b + 32) as u8
    } else {
        b
    }
}

/// Maps a byte string to its ASCII-lowercase form.
#[verifier::loop_isolation(false)]
fn ascii_lower_bytes(v: &Vec<u8>) -> (r: Vec<u8>)
    ensures
        r@ == v@.map_values(|b: u8| lower_byte(b)),
{
    let mut out: Vec<u8> = Vec::new();
    let mut i: usize = 0;
    proof {
        assert(out@ =~= v@.map_values(|b: u8| lower_byte(b)).subrange(0, 0));
    }
    while i < v.len()
        invariant
            0 <= i <= v@.len(),
            out@ == v@.map_values(|b: u8| lower_byte(b)).subrange(0, i as int),
        decreases v@.len() - i,
    {
        let b = v[i];
        let lowered: u8 = if 65 <= b && b <= 90 {
            b + 32
        } else {
            b
        };
        out.push(lowered);
        proof {
            assert(out@ =~= v@.map_values(|b: u8| lower_byte(b)).subrange(0, i + 1));
        }
        i += 1;
    }
    proof {
        assert(v@.map_values(|b: u8| lower_byte(b)).subrange(0, v@.len() as int) =~= v@.map_values(
            |b: u8| lower_byte(b),
        ));
    }
    out
}

/// The identity of a parsed markdown text: its SHA-256 digest, with the
/// digest's bytes passed through ASCII lowercasing.
#[derive(Debug, Clone, PartialEq, Eq, Hash)]
pub struct ParsedMdHash(Vec<u8>);

impl ParsedMdHash {
    /// The digest bytes.
    pub closed spec fn bytes_spec(&self) -> Seq<u8> {
        self.0@
    }

    /// The digest bytes.
    pub fn bytes(&self) -> (r: &Vec<u8>)
        ensures
            r@ == self.bytes_spec(),
    {
        &self.0
    }
}

/// Hashes a markdown text into its cache identity: the SHA-256 digest of the
/// text, its bytes ASCII-lowercased.
pub fn hash_md(md: &Md) -> (r: ParsedMdHash)
    ensures
        r.bytes_spec() == sha256_of(md.text_spec()).map_values(|b: u8| lower_byte(b)),
        r.bytes_spec().len() == 32,
{
    let digest = sha256_digest(md.as_text());
    ParsedMdHash(ascii_lower_bytes(&digest))
}

/// The diagnostics accumulated while processing files: one message per error,
/// in the order they were reported.
#[derive(Debug)]
pub struct Diagnostic {
    entries: Vec<String>,
}

impl Diagnostic {
    /// The accumulated messages, in report order.
    pub closed spec fn entries_spec(&self) -> Seq<Seq<char>> {
        views_of(self.entries@)
    }

    /// An empty accumulator.
    pub fn new() -> (r: Diagnostic)
        ensures
            r.entries_spec() == Seq::<Seq<char>>::empty(),
    {
        let d = Diagnostic { entries: Vec::new() };
        proof {
            assert(d.entries_spec() =~= Seq::<Seq<char>>::empty());
        }
        d
    }

    /// Accumulates one error against one file, formatted as
    /// `Error in file <name>: <error>` with a trailing line break.
    pub fn push_error(&mut self, filename: &str, error: &str)
        ensures
            final(self).entries_spec() == old(self).entries_spec().push(
                "Error in file "@ + filename@ + ": "@ + error@ + "\n"@,
            ),
    {
        let mut msg = String::from_str("Error in file ");
        msg.append(filename);
        msg.append(": ");
        msg.append(error);
        msg.append("\n");
        let ghost pre = self.entries@;
        self.entries.push(msg);
        proof {
            assert(final(self).entries_spec() =~= views_of(pre).push(
                "Error in file "@ + filename@ + ": "@ + error@ + "\n"@,
            ));
        }
    }

    /// The accumulated messages.
    pub fn entries(&self) -> (r: &Vec<String>)
        ensures
            views_of(r@) == self.entries_spec(),
    {
        &self.entries
    }
}

/// A markdown file rendered with its assets resolved to source-path
/// identities: the HTML, one `SrcPath` per tracked asset in document order,
/// and the source path of the file itself.
#[derive(Debug)]
pub struct Rendered {
    html: String,
    assets: Vec<SrcPath>,
    og_srcpath: SrcPath,
}

impl Rendered {
    /// The rendered HTML.
    pub closed spec fn html_spec(&self) -> Seq<char> {
        self.html@
    }

    /// The resolved asset paths, in document order.
    pub closed spec fn assets_spec(&self) -> Seq<SrcPath> {
        self.assets@
    }

    /// The source path of the markdown file.
    pub closed spec fn src_spec(&self) -> SrcPath {
        self.og_srcpath
    }

    /// The rendered HTML.
    pub fn html(&self) -> (r: &String)
        ensures
            r@ == self.html_spec(),
    {
        &self.html
    }

    /// The resolved asset paths, in document order.
    pub fn assets(&self) -> (r: &Vec<SrcPath>)
        ensures
            r@ == self.assets_spec(),
    {
        &self.assets
    }

    /// The source path of the markdown file this was rendered from.
    pub fn source(&self) -> (r: &SrcPath)
        ensures
            *r == self.src_spec(),
    {
        &self.og_srcpath
    }
}

/// An asset reference that names no file: its canonical form is empty or ends
/// in a slash, so no source-path identity exists for it.
#[derive(Debug, PartialEq, Eq)]
pub enum AssetError {
    /// The offending destination, as written in the markdown.
    NoFileName { asset: String },
}

/// Renders a markdown file and resolves every tracked asset — every image,
/// every internal link, in document order and with repetitions — to its
/// source-path identity under the given working directory. Fails, naming the
/// asset, where an asset's canonical path keeps no file name; nothing is
/// resolved against the file system.
#[verifier::loop_isolation(false)]
pub fn md_to_html(md_file: MdFile, pwd: &str) -> (r: Result<Rendered, AssetError>)
    ensures
        match r {
            Ok(c) => {
                let tracked_list = tracked_assets(events_of(md_file.content_spec()));
                &&& c.html_spec() == html_of(md_file.content_spec())
                &&& c.src_spec() == md_file.src_spec()
                &&& c.assets_spec().len() == tracked_list.len()
                &&& forall|i: int|
                    0 <= i < tracked_list.len() ==> (#[trigger] c.assets_spec()[i]).wf()
                        && c.assets_spec()[i].path_spec() == soft_canon_spec(
                        tracked_list[i],
                        pwd@,
                    )
            },
            Err(e) => {
                let tracked_list = tracked_assets(events_of(md_file.content_spec()));
                match e {
                    AssetError::NoFileName { asset } => {
                        &&& tracked_list.contains(asset@)
                        &&& filename_start(soft_canon_spec(asset@, pwd@)) >= soft_canon_spec(
                            asset@,
                            pwd@,
                        ).len()
                    },
                }
            },
        },
{
    let html = render_html(md_file.content.as_text());
    let events = scan_events(md_file.content.as_text());
    let ghost evs = events@.map_values(|e: LinkEvent| event_view(e));
    let mut assets: Vec<SrcPath> = Vec::new();
    let mut i: usize = 0;
    proof {
        assert(evs.subrange(0, 0) =~= Seq::<(bool, Seq<char>)>::empty());
    }
    while i < events.len()
        invariant
            0 <= i <= events@.len(),
            evs == events@.map_values(|e: LinkEvent| event_view(e)),
            assets@.len() == tracked_assets(evs.subrange(0, i as int)).len(),
            forall|t: int|
                0 <= t < assets@.len() ==> (#[trigger] assets@[t]).wf() && assets@[t].path_spec()
                    == soft_canon_spec(tracked_assets(evs.subrange(0, i as int))[t], pwd@),
        decreases events@.len() - i,
    {
        proof {
            assert(evs.subrange(0, i + 1).drop_last() =~= evs.subrange(0, i as int));
            assert(evs.subrange(0, i + 1).last() == event_view(events@[i as int]));
        }
        let tracked_dest: Option<&String> = match &events[i] {
            LinkEvent::Image { dest } => Some(dest),
            LinkEvent::Link { dest } => {
                if is_internal_link(dest.as_str()) {
                    Some(dest)
                } else {
                    None
                }
            },
        };
        match tracked_dest {
            Some(dest) => {
                let canonical = soft_cannonicalize(dest.as_str(), pwd);
                if !has_filename(canonical.as_str()) {
                    proof {
                        let cur = tracked_assets(evs.subrange(0, i + 1));
                        assert(cur.last() == dest@);
                        assert(tracked_assets(evs).contains(dest@)) by {
                            lemma_tracked_prefix(evs, i + 1, dest@);
                        }
                    }
                    return Err(AssetError::NoFileName { asset: dest.clone() });
                }
                let sp = SrcPath::new(canonical);
                assets.push(sp);
                proof {
                    let prev = tracked_assets(evs.subrange(0, i as int));
                    let cur = tracked_assets(evs.subrange(0, i + 1));
                    assert(cur == prev.push(dest@));
                    assert forall|t: int| 0 <= t < assets@.len() implies (
                    #[trigger] assets@[t]).wf() && assets@[t].path_spec() == soft_canon_spec(
                        cur[t],
                        pwd@,
                    ) by {
                        if t < prev.len() {
                            assert(cur[t] == prev[t]);
                        }
                    }
                }
            },
            None => {},
        }
        i += 1;
    }
    proof {
        assert(evs.subrange(0, evs.len() as int) =~= evs);
    }
    Ok(Rendered { html, assets, og_srcpath: md_file.src_path })
}

/// What a prefix of the event stream tracks, the whole stream tracks.
proof fn lemma_tracked_prefix(evs: Seq<(bool, Seq<char>)>, i: int, y: Seq<char>)
    requires
        0 <= i <= evs.len(),
        tracked_assets(evs.subrange(0, i)).contains(y),
    ensures
        tracked_assets(evs).contains(y),
    decreases evs.len() - i,
{
    if i < evs.len() {
        assert(evs.subrange(0, i + 1).drop_last() =~= evs.subrange(0, i));
        let prev = tracked_assets(evs.subrange(0, i));
        let cur = tracked_assets(evs.subrange(0, i + 1));
        let t = choose|t: int| 0 <= t < prev.len() && prev[t] == y;
        assert(cur[t] == y);
        assert(cur.contains(y));
        lemma_tracked_prefix(evs, i + 1, y);
    } else {
        assert(evs.subrange(0, i) =~= evs);
    }
}

} // verus!
