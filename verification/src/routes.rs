use vstd::prelude::*;
use crate::text::{chars_of, string_of};

verus! {

/// The request methods that the API tells apart.
#[derive(Debug, Clone, Copy, PartialEq, Eq)]
pub enum HttpMethod {
    Get,
    Post,
    Delete,
    Other,
}

/// Where a request goes.
#[derive(Debug, PartialEq, Eq)]
pub enum Route {
    /// `GET /health`: an empty 200 reply.
    Health,
    /// `POST /api/shorten`: make a short link.
    Shorten,
    /// `GET /api/...`: look up the link with this id.
    Lookup(String),
    /// `DELETE /api/...`: remove the link with this id.
    Remove(String),
    /// Anything else: a 404 reply.
    NotFound,
}

/// A route, with its id as characters.
pub enum RouteView {
    Health,
    Shorten,
    Lookup(Seq<char>),
    Remove(Seq<char>),
    NotFound,
}

impl View for Route {
    type V = RouteView;

    open spec fn view(&self) -> RouteView {
        match self {
            Route::Health => RouteView::Health,
            Route::Shorten => RouteView::Shorten,
            Route::Lookup(id) => RouteView::Lookup(id@),
            Route::Remove(id) => RouteView::Remove(id@),
            Route::NotFound => RouteView::NotFound,
        }
    }
}

/// The parts of `s` between slashes, as `str::split('/')` gives them: one
/// more part than there are slashes.
pub open spec fn split_slash(s: Seq<char>) -> Seq<Seq<char>>
    decreases s.len(),
{
    if s.len() == 0 {
        seq![Seq::<char>::empty()]
    } else {
        let p = split_slash(s.drop_last());
        if s.last() == '/' {
            p.push(Seq::<char>::empty())
        } else {
            p.update(p.len() - 1, p.last().push(s.last()))
        }
    }
}

/// The id in a path: its fourth part, if it has one.
pub open spec fn id_of_path(path: Seq<char>) -> Option<Seq<char>> {
    let parts = split_slash(path);
    if parts.len() >= 4 {
        Some(parts[3])
    } else {
        None
    }
}

/// The health check's path.
pub open spec fn health_path() -> Seq<char> {
    seq!['/', 'h', 'e', 'a', 'l', 't', 'h']
}

/// The path that makes short links.
pub open spec fn shorten_path() -> Seq<char> {
    seq!['/', 'a', 'p', 'i', '/', 's', 'h', 'o', 'r', 't', 'e', 'n']
}

/// The prefix of the link paths.
pub open spec fn api_prefix() -> Seq<char> {
    seq!['/', 'a', 'p', 'i', '/']
}

/// `p` starts with `pre`.
pub open spec fn starts_with(p: Seq<char>, pre: Seq<char>) -> bool {
    pre.len() <= p.len() && p.subrange(0, pre.len() as int) == pre
}

/// Where a request with this method and path goes.
pub open spec fn route_of(method: HttpMethod, path: Seq<char>) -> RouteView {
    match method {
        HttpMethod::Get => if path == health_path() {
            RouteView::Health
        } else if starts_with(path, api_prefix()) {
            match id_of_path(path) {
                Some(id) => RouteView::Lookup(id),
                None => RouteView::NotFound,
            }
        } else {
            RouteView::NotFound
        },
        HttpMethod::Post => if path == shorten_path() {
            RouteView::Shorten
        } else {
            RouteView::NotFound
        },
        HttpMethod::Delete => if starts_with(path, api_prefix()) {
            match id_of_path(path) {
                Some(id) => RouteView::Remove(id),
                None => RouteView::NotFound,
            }
        } else {
            RouteView::NotFound
        },
        HttpMethod::Other => RouteView::NotFound,
    }
}

proof fn lemma_split_nonempty(s: Seq<char>)
    ensures
        split_slash(s).len() >= 1,
    decreases s.len(),
{
    if s.len() > 0 {
        lemma_split_nonempty(s.drop_last());
    }
}

/// `s` holds no slash.
pub open spec fn no_slash(s: Seq<char>) -> bool {
    forall|i: int| 0 <= i < s.len() ==> s[i] != '/'
}

/// Text with no slash only lengthens the last part.
proof fn lemma_split_plain(p: Seq<char>, q: Seq<char>)
    requires
        no_slash(q),
    ensures
        split_slash(p + q) == split_slash(p).update(split_slash(p).len() - 1, split_slash(p).last() + q),
    decreases q.len(),
{
    lemma_split_nonempty(p);
    let sp = split_slash(p);
    if q.len() == 0 {
        assert(p + q =~= p);
        assert(sp.last() + q =~= sp.last());
        assert(sp.update(sp.len() - 1, sp.last()) =~= sp);
    } else {
        let q1 = q.drop_last();
        lemma_split_plain(p, q1);
        assert((p + q).drop_last() =~= p + q1);
        assert((p + q).last() == q.last());
        assert(sp.last() + q1 + seq![q.last()] =~= sp.last() + q);
        assert((sp.last() + q1).push(q.last()) =~= sp.last() + q);
        assert(split_slash(p + q) =~= sp.update(sp.len() - 1, sp.last() + q));
    }
}

/// A slash starts a new, empty part.
proof fn lemma_split_slash_end(p: Seq<char>)
    ensures
        split_slash(p + seq!['/']) == split_slash(p).push(Seq::<char>::empty()),
{
    assert((p + seq!['/']).drop_last() =~= p);
}

/// What follows never changes the parts before the last one.
proof fn lemma_split_prefix(p: Seq<char>, q: Seq<char>)
    ensures
        split_slash(p + q).len() >= split_slash(p).len(),
        forall|k: int| 0 <= k < split_slash(p).len() - 1 ==> #[trigger] split_slash(p + q)[k] == split_slash(p)[k],
    decreases q.len(),
{
    lemma_split_nonempty(p);
    if q.len() == 0 {
        assert(p + q =~= p);
    } else {
        let q1 = q.drop_last();
        lemma_split_prefix(p, q1);
        lemma_split_nonempty(p + q1);
        assert((p + q).drop_last() =~= p + q1);
    }
}

/// The id of a path is the whole text between its third slash and the next
/// slash or the end, whatever the parts before it and whatever follows.
pub proof fn lemma_id_is_fourth_part(a: Seq<char>, b: Seq<char>, c: Seq<char>, id: Seq<char>, rest: Seq<char>)
    requires
        no_slash(a),
        no_slash(b),
        no_slash(c),
        no_slash(id),
        rest.len() == 0 || rest[0] == '/',
    ensures
        id_of_path(a + seq!['/'] + b + seq!['/'] + c + seq!['/'] + id + rest) == Some(id),
{
    let e = Seq::<char>::empty();
    let x1 = a + seq!['/'];
    let x2 = x1 + b + seq!['/'];
    let x3 = x2 + c + seq!['/'];
    let x4 = x3 + id;
    lemma_split_plain(e, a);
    assert(e + a =~= a);
    assert(split_slash(a) =~= seq![a]);
    lemma_split_slash_end(a);
    lemma_split_plain(x1, b);
    lemma_split_slash_end(x1 + b);
    lemma_split_plain(x2, c);
    lemma_split_slash_end(x2 + c);
    lemma_split_plain(x3, id);
    assert(split_slash(x1) =~= seq![a, e]);
    assert(e + b =~= b);
    assert(split_slash(x2) =~= seq![a, b, e]);
    assert(e + c =~= c);
    assert(split_slash(x3) =~= seq![a, b, c, e]);
    assert(e + id =~= id);
    assert(split_slash(x4) =~= seq![a, b, c, id]);
    assert(a + seq!['/'] + b + seq!['/'] + c + seq!['/'] + id + rest =~= x4 + rest);
    if rest.len() == 0 {
        assert(x4 + rest =~= x4);
    } else {
        let r1 = rest.subrange(1, rest.len() as int);
        lemma_split_slash_end(x4);
        lemma_split_prefix(x4 + seq!['/'], r1);
        assert(x4 + rest =~= (x4 + seq!['/']) + r1);
    }
}

/// A path with fewer than three slashes has no id.
pub proof fn lemma_no_id_under_three_slashes(a: Seq<char>, b: Seq<char>, c: Seq<char>)
    requires
        no_slash(a),
        no_slash(b),
        no_slash(c),
    ensures
        id_of_path(a) is None,
        id_of_path(a + seq!['/'] + b) is None,
        id_of_path(a + seq!['/'] + b + seq!['/'] + c) is None,
{
    let e = Seq::<char>::empty();
    let x1 = a + seq!['/'];
    let x2 = x1 + b + seq!['/'];
    lemma_split_plain(e, a);
    assert(e + a =~= a);
    lemma_split_slash_end(a);
    lemma_split_plain(x1, b);
    lemma_split_slash_end(x1 + b);
    lemma_split_plain(x2, c);
    assert(split_slash(a).len() == 1);
    assert(split_slash(x1 + b).len() == 2);
    assert(split_slash(x2 + c).len() == 3);
}

/// Whether `v` starts with `pre`.
fn has_prefix(v: &[char], pre: &[char]) -> (r: bool)
    ensures
        r == starts_with(v@, pre@),
{
    if pre.len() > v.len() {
        return false;
    }
    let mut i: usize = 0;
    while i < pre.len()
        invariant
            pre@.len() <= v@.len(),
            i <= pre@.len(),
            forall|k: int| 0 <= k < i ==> v@[k] == pre@[k],
        decreases pre@.len() - i,
    {
        if v[i] != pre[i] {
            assert(v@.subrange(0, pre@.len() as int)[i as int] != pre@[i as int]);
            return false;
        }
        i = i + 1;
    }
    assert(v@.subrange(0, pre@.len() as int) =~= pre@);
    true
}

/// Whether `v` is `w`.
fn same_chars(v: &[char], w: &[char]) -> (r: bool)
    ensures
        r == (v@ == w@),
{
    let r = v.len() == w.len() && has_prefix(v, w);
    proof {
        if v@.len() == w@.len() {
            assert(v@ =~= v@.subrange(0, w@.len() as int));
        }
    }
    r
}

/// The id in a request path: the part after its third slash, up to the next
/// slash; none where the path has fewer than three slashes.
pub fn get_id_from_path(path: &str) -> (r: Option<String>)
    ensures
        match r {
            Some(id) => id_of_path(path@) == Some(id@),
            None => id_of_path(path@) is None,
        },
{
    let cs = chars_of(path);
    let ghost s = path@;
    let mut seg: Vec<char> = Vec::new();
    let mut count: usize = 0;
    let mut i: usize = 0;
    proof {
        assert(s.subrange(0, 0) =~= Seq::<char>::empty());
    }
    while i < cs.len()
        invariant
            cs@ == s,
            i <= s.len(),
            count <= i,
            split_slash(s.subrange(0, i as int)).len() == count + 1,
            count >= 3 ==> seg@ == split_slash(s.subrange(0, i as int))[3],
            count < 3 ==> seg@ == Seq::<char>::empty(),
        decreases s.len() - i,
    {
        let c = cs[i];
        let ghost pre = s.subrange(0, i as int);
        let ghost pre1 = s.subrange(0, i + 1);
        proof {
            assert(pre1.drop_last() =~= pre);
            assert(pre1.last() == c);
            lemma_split_nonempty(pre);
        }
        if c == '/' {
            count = count + 1;
        } else if count == 3 {
            seg.push(c);
        }
        i = i + 1;
    }
    proof {
        assert(s.subrange(0, s.len() as int) =~= s);
    }
    if count >= 3 {
        Some(string_of(seg.as_slice()))
    } else {
        None
    }
}

/// Where a request goes, by its method and path.
pub fn route(method: HttpMethod, path: &str) -> (r: Route)
    ensures
        r@ == route_of(method, path@),
{
    let cs = chars_of(path);
    let health = ['/', 'h', 'e', 'a', 'l', 't', 'h'];
    let shorten = ['/', 'a', 'p', 'i', '/', 's', 'h', 'o', 'r', 't', 'e', 'n'];
    let api = ['/', 'a', 'p', 'i', '/'];
    assert(health@ == health_path());
    assert(shorten@ == shorten_path());
    assert(api@ == api_prefix());
    match method {
        HttpMethod::Get => {
            if same_chars(cs.as_slice(), &health) {
                Route::Health
            } else if has_prefix(cs.as_slice(), &api) {
                match get_id_from_path(path) {
                    Some(id) => Route::Lookup(id),
                    None => Route::NotFound,
                }
            } else {
                Route::NotFound
            }
        },
        HttpMethod::Post => {
            if same_chars(cs.as_slice(), &shorten) {
                Route::Shorten
            } else {
                Route::NotFound
            }
        },
        HttpMethod::Delete => {
            if has_prefix(cs.as_slice(), &api) {
                match get_id_from_path(path) {
                    Some(id) => Route::Remove(id),
                    None => Route::NotFound,
                }
            } else {
                Route::NotFound
            }
        },
        HttpMethod::Other => Route::NotFound,
    }
}

/// A fixed reply: its HTTP status and JSON body.
#[derive(Debug, Clone, Copy, PartialEq, Eq)]
pub struct Reply {
    pub status: u16,
    pub body: &'static str,
}

/// The reply to the health check: 200 and an empty body.
pub fn response_empty_ok() -> (r: Reply)
    ensures
        r.status == 200,
        r.body@ == ""@,
{
    Reply { status: 200, body: "" }
}

/// The reply to a request that no route takes: 404 and a JSON error.
pub fn response_not_found() -> (r: Reply)
    ensures
        r.status == 404,
        r.body@ == "{\"error\":\"Not Found\"}"@,
{
    Reply { status: 404, body: "{\"error\":\"Not Found\"}" }
}

} // verus!
