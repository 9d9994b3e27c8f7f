use vstd::prelude::*;

use crate::request::HttpRequest;
use crate::strmap::StrMap;
use crate::text::{lemma_split_nonempty, same_text, split_on, split_on_char, views};

verus! {

/// The longest pattern a route takes, so that its score fits in an `i32`.
pub const MAX_PATTERN_LEN: usize = 1_000_000_000;

/// Relies on `str::to_uppercase`: the result depends on the characters alone.
pub uninterp spec fn upper_of(s: Seq<char>) -> Seq<char>;

/// Relies on `str::to_uppercase`, which maps each character to its upper case.
#[verifier::external_body]
fn to_upper(s: &str) -> (r: String)
    ensures
        r@ == upper_of(s@),
{
    s.to_uppercase()
}

/// A segment written `{name}` captures the path segment in its place.
pub open spec fn is_capture(seg: Seq<char>) -> bool {
    seg.len() >= 2 && seg[0] == '{' && seg.last() == '}'
}

/// The name of a capture segment, without its braces.
pub open spec fn capture_name(seg: Seq<char>) -> Seq<char> {
    seg.subrange(1, seg.len() - 1)
}

/// A capture counts 1, another non-empty segment 2, an empty one 0.
pub open spec fn segment_score(seg: Seq<char>) -> int {
    if is_capture(seg) {
        1
    } else if seg.len() > 0 {
        2
    } else {
        0
    }
}

pub open spec fn segments_score(segs: Seq<Seq<char>>) -> int
    decreases segs.len(),
{
    if segs.len() == 0 {
        0
    } else {
        segments_score(segs.drop_last()) + segment_score(segs.last())
    }
}

/// The specificity of a pattern: the scores of its `/`-separated segments, summed.
pub open spec fn score_of(pattern: Seq<char>) -> int {
    segments_score(split_on(pattern, '/'))
}

/// Each segment of the pattern is a capture or equals the path segment in
/// its place, and there are as many of each.
pub open spec fn segments_match(p: Seq<Seq<char>>, q: Seq<Seq<char>>) -> bool {
    p.len() == q.len() && forall|i: int| 0 <= i < p.len() ==> is_capture(#[trigger] p[i]) || p[i] == q[i]
}

/// The path segments bound by the captures of the pattern, by name; a later
/// capture of the same name wins.
pub open spec fn captures(p: Seq<Seq<char>>, q: Seq<Seq<char>>) -> Map<Seq<char>, Seq<char>>
    decreases p.len(),
{
    if p.len() == 0 || q.len() == 0 {
        Map::empty()
    } else {
        let m = captures(p.drop_last(), q.drop_last());
        if is_capture(p.last()) {
            m.insert(capture_name(p.last()), q.last())
        } else {
            m
        }
    }
}

pub open spec fn pattern_matches(pattern: Seq<char>, path: Seq<char>) -> bool {
    segments_match(split_on(pattern, '/'), split_on(path, '/'))
}

pub open spec fn path_params_of(pattern: Seq<char>, path: Seq<char>) -> Map<Seq<char>, Seq<char>> {
    captures(split_on(pattern, '/'), split_on(path, '/'))
}

pub proof fn lemma_split_len(s: Seq<char>, sep: char)
    ensures
        split_on(s, sep).len() <= s.len() + 1,
    decreases s.len(),
{
    if s.len() > 0 {
        lemma_split_len(s.drop_last(), sep);
        lemma_split_nonempty(s.drop_last(), sep);
    }
}

proof fn lemma_segments_score_bound(segs: Seq<Seq<char>>)
    ensures
        0 <= segments_score(segs) <= 2 * segs.len(),
    decreases segs.len(),
{
    if segs.len() > 0 {
        lemma_segments_score_bound(segs.drop_last());
    }
}

fn is_capture_exec(seg: &str) -> (r: bool)
    ensures
        r == is_capture(seg@),
{
    let n = seg.unicode_len();
    n >= 2 && seg.get_char(0) == '{' && seg.get_char(n - 1) == '}'
}

/// One registered route: the method it answers (`*` for any), its pattern
/// and its handler.
pub struct Route<H> {
    pub method: String,
    pub pattern: String,
    pub handler: H,
}

impl<H> Route<H> {
    /// A route for `method`, upper-cased, and `pattern`.
    pub fn new(method: &str, pattern: &str, handler: H) -> (r: Self)
        ensures
            r.method@ == upper_of(method@),
            r.pattern@ == pattern@,
            r.handler == handler,
    {
        Route { method: to_upper(method), pattern: pattern.to_string(), handler }
    }

    /// The specificity score of the pattern.
    pub fn specific_score(&self) -> (r: i32)
        requires
            self.pattern@.len() < MAX_PATTERN_LEN,
        ensures
            r as int == score_of(self.pattern@),
    {
        let segs = split_on_char(self.pattern.as_str(), '/');
        let ghost ss = views(segs@);
        proof {
            lemma_split_len(self.pattern@, '/');
        }
        let mut score: i32 = 0;
        let mut i: usize = 0;
        while i < segs.len()
            invariant
                ss == views(segs@),
                ss == split_on(self.pattern@, '/'),
                segs@.len() <= MAX_PATTERN_LEN + 1,
                i <= segs@.len(),
                score as int == segments_score(ss.take(i as int)),
                0 <= score <= 2 * i,
            decreases segs@.len() - i,
        {
            let seg = segs[i].as_str();
            proof {
                assert(ss.take(i + 1).drop_last() =~= ss.take(i as int));
                assert(ss.take(i + 1).last() == seg@);
            }
            if is_capture_exec(seg) {
                score = score + 1;
            } else if seg.unicode_len() > 0 {
                score = score + 2;
            }
            i = i + 1;
        }
        assert(ss.take(segs@.len() as int) =~= ss);
        score
    }
}

/// What a successful match hands to a handler: the path parameters, keyed
/// by the bare capture name (`message` for `{message}`), the query
/// parameters of the request, and the request itself.
pub struct RouteMatch<'a> {
    pub path_params: StrMap,
    pub query_params: StrMap,
    pub request: &'a HttpRequest,
}

pub open spec fn wildcard() -> Seq<char> {
    seq!['*']
}

/// The route answers the method (or any method) and its pattern matches the path.
pub open spec fn accepts<H>(route: Route<H>, method: Seq<char>, path: Seq<char>) -> bool {
    (route.method@ == method || route.method@ == wildcard()) && pattern_matches(route.pattern@, path)
}

/// The index of the first route at or after `i` that accepts the method
/// and path, or the number of routes.
pub open spec fn first_accepting<H>(routes: Seq<Route<H>>, method: Seq<char>, path: Seq<char>, i: int) -> int
    decreases routes.len() - i,
{
    if i < 0 || i >= routes.len() {
        routes.len() as int
    } else if accepts(routes[i], method, path) {
        i
    } else {
        first_accepting(routes, method, path, i + 1)
    }
}

pub proof fn lemma_first_accepting<H>(routes: Seq<Route<H>>, method: Seq<char>, path: Seq<char>, i: int)
    requires
        0 <= i <= routes.len(),
    ensures
        i <= first_accepting(routes, method, path, i) <= routes.len(),
        first_accepting(routes, method, path, i) < routes.len() ==> accepts(
            routes[first_accepting(routes, method, path, i)],
            method,
            path,
        ),
        forall|j: int|
            i <= j < first_accepting(routes, method, path, i) ==> !accepts(
                #[trigger] routes[j],
                method,
                path,
            ),
    decreases routes.len() - i,
{
    if i < routes.len() && !accepts(routes[i], method, path) {
        lemma_first_accepting(routes, method, path, i + 1);
    }
}

/// The index at which a route of score `s` joins routes sorted by
/// descending score: after every route that scores at least `s`.
pub open spec fn insert_position<H>(routes: Seq<Route<H>>, s: int, i: int) -> int
    decreases routes.len() - i,
{
    if i < 0 || i >= routes.len() {
        routes.len() as int
    } else if score_of(routes[i].pattern@) < s {
        i
    } else {
        insert_position(routes, s, i + 1)
    }
}

/// Routes in descending order of score, each with a pattern short enough.
pub open spec fn sorted_routes<H>(routes: Seq<Route<H>>) -> bool {
    &&& forall|i: int| 0 <= i < routes.len() ==> (#[trigger] routes[i]).pattern@.len() < MAX_PATTERN_LEN
    &&& forall|i: int, j: int|
        0 <= i < j < routes.len() ==> score_of((#[trigger] routes[i]).pattern@) >= score_of(
            (#[trigger] routes[j]).pattern@,
        )
}

/// A table of routes, tried most specific first.
pub struct Router<H> {
    routes: Vec<Route<H>>,
}

impl<H> Router<H> {
    /// The routes, in the order they are tried.
    pub closed spec fn routes(&self) -> Seq<Route<H>> {
        self.routes@
    }

    /// The table is sorted by descending score, ties in order of registration.
    pub open spec fn wf(&self) -> bool {
        sorted_routes(self.routes())
    }

    pub fn new() -> (r: Self)
        ensures
            r.wf(),
            r.routes().len() == 0,
    {
        Router { routes: Vec::new() }
    }

    /// Registers a route for `GET`.
    pub fn get(self, pattern: &str, handler: H) -> (r: Self)
        requires
            self.wf(),
            pattern@.len() < MAX_PATTERN_LEN,
        ensures
            r.wf(),
            r.routes() == self.routes().insert(
                insert_position(self.routes(), score_of(pattern@), 0),
                r.routes()[insert_position(self.routes(), score_of(pattern@), 0)],
            ),
            r.routes()[insert_position(self.routes(), score_of(pattern@), 0)].method@ == upper_of("GET"@),
            r.routes()[insert_position(self.routes(), score_of(pattern@), 0)].pattern@ == pattern@,
            r.routes()[insert_position(self.routes(), score_of(pattern@), 0)].handler == handler,
    {
        self.route("GET", pattern, handler)
    }

    /// Registers a route for `POST`.
    pub fn post(self, pattern: &str, handler: H) -> (r: Self)
        requires
            self.wf(),
            pattern@.len() < MAX_PATTERN_LEN,
        ensures
            r.wf(),
            r.routes() == self.routes().insert(
                insert_position(self.routes(), score_of(pattern@), 0),
                r.routes()[insert_position(self.routes(), score_of(pattern@), 0)],
            ),
            r.routes()[insert_position(self.routes(), score_of(pattern@), 0)].method@ == upper_of("POST"@),
            r.routes()[insert_position(self.routes(), score_of(pattern@), 0)].pattern@ == pattern@,
            r.routes()[insert_position(self.routes(), score_of(pattern@), 0)].handler == handler,
    {
        self.route("POST", pattern, handler)
    }

    /// Registers a route for `method` (upper-cased; `*` answers any method).
    /// The table stays sorted by descending score, and the new route comes
    /// after every route that scores as much, as a stable sort would put it.
    pub fn route(self, method: &str, pattern: &str, handler: H) -> (r: Self)
        requires
            self.wf(),
            pattern@.len() < MAX_PATTERN_LEN,
        ensures
            r.wf(),
            r.routes() == self.routes().insert(
                insert_position(self.routes(), score_of(pattern@), 0),
                r.routes()[insert_position(self.routes(), score_of(pattern@), 0)],
            ),
            r.routes()[insert_position(self.routes(), score_of(pattern@), 0)].method@ == upper_of(method@),
            r.routes()[insert_position(self.routes(), score_of(pattern@), 0)].pattern@ == pattern@,
            r.routes()[insert_position(self.routes(), score_of(pattern@), 0)].handler == handler,
    {
        let mut routes = self.routes;
        let new_route = Route::new(method, pattern, handler);
        let s = new_route.specific_score();
        let ghost old_routes = routes@;
        let mut i: usize = 0;
        while i < routes.len() && routes[i].specific_score() >= s
            invariant
                routes@ == old_routes,
                sorted_routes(old_routes),
                i <= routes@.len(),
                insert_position(old_routes, s as int, i as int) == insert_position(old_routes, s as int, 0),
                forall|j: int| 0 <= j < i ==> score_of((#[trigger] old_routes[j]).pattern@) >= s,
            decreases routes@.len() - i,
        {
            i = i + 1;
        }
        proof {
            assert(insert_position(old_routes, s as int, i as int) == i);
            assert forall|j: int| i <= j < old_routes.len() implies score_of(
                (#[trigger] old_routes[j]).pattern@,
            ) < s by {
                assert(score_of(old_routes[i as int].pattern@) < s);
                if j > i {
                    assert(score_of(old_routes[i as int].pattern@) >= score_of(old_routes[j].pattern@));
                }
            }
        }
        routes.insert(i, new_route);
        proof {
            let nr = routes@;
            assert forall|a: int, b: int| 0 <= a < b < nr.len() implies score_of(
                (#[trigger] nr[a]).pattern@,
            ) >= score_of((#[trigger] nr[b]).pattern@) by {
                if a < i && b < i {
                    assert(nr[a] == old_routes[a] && nr[b] == old_routes[b]);
                } else if a < i && b == i {
                } else if a < i {
                    assert(nr[a] == old_routes[a] && nr[b] == old_routes[b - 1]);
                } else if a == i {
                    assert(nr[b] == old_routes[b - 1]);
                } else {
                    assert(nr[a] == old_routes[a - 1] && nr[b] == old_routes[b - 1]);
                }
            }
            assert forall|a: int| 0 <= a < nr.len() implies (#[trigger] nr[a]).pattern@.len()
                < MAX_PATTERN_LEN by {
                if a < i {
                    assert(nr[a] == old_routes[a]);
                } else if a > i {
                    assert(nr[a] == old_routes[a - 1]);
                }
            }
        }
        Router { routes }
    }

    /// Matches a path against a pattern, segment by segment: both are split
    /// on `/` and must have as many segments; a `{name}` segment binds the
    /// path segment to `name`, any other must equal it.
    pub fn match_pattern<'a>(&self, pattern: &str, request: &'a HttpRequest) -> (r: Option<RouteMatch<'a>>)
        ensures
            match r {
                Some(m) => {
                    &&& pattern_matches(pattern@, request.path@)
                    &&& m.path_params@ == path_params_of(pattern@, request.path@)
                    &&& m.query_params@ == request.query_params@
                    &&& m.request == request
                },
                None => !pattern_matches(pattern@, request.path@),
            },
    {
        let pp = split_on_char(pattern, '/');
        let qq = split_on_char(request.path.as_str(), '/');
        let ghost p = views(pp@);
        let ghost q = views(qq@);
        if pp.len() != qq.len() {
            return None;
        }
        let mut params = StrMap::new();
        let mut i: usize = 0;
        while i < pp.len()
            invariant
                p == views(pp@),
                q == views(qq@),
                p == split_on(pattern@, '/'),
                q == split_on(request.path@, '/'),
                pp@.len() == qq@.len(),
                i <= pp@.len(),
                forall|j: int| 0 <= j < i ==> is_capture(#[trigger] p[j]) || p[j] == q[j],
                params@ == captures(p.take(i as int), q.take(i as int)),
            decreases pp@.len() - i,
        {
            let seg = pp[i].as_str();
            let part = qq[i].as_str();
            proof {
                assert(p.take(i + 1).drop_last() =~= p.take(i as int));
                assert(q.take(i + 1).drop_last() =~= q.take(i as int));
                assert(p.take(i + 1).last() == seg@);
                assert(q.take(i + 1).last() == part@);
            }
            if is_capture_exec(seg) {
                let n = seg.unicode_len();
                let name = seg.substring_char(1, n - 1).to_string();
                params.insert(name, qq[i].clone());
            } else if !same_text(seg, part) {
                assert(!segments_match(p, q));
                return None;
            }
            i = i + 1;
        }
        assert(p.take(pp@.len() as int) =~= p);
        assert(q.take(pp@.len() as int) =~= q);
        Some(RouteMatch { path_params: params, query_params: request.query_params.duplicate(), request })
    }

    /// Selects the route for a request: the first, in table order, whose
    /// method is the request's or `*` and whose pattern matches the path.
    /// Gives its handler and the match to hand it; `None` when no route matches.
    pub fn handle<'a>(&'a self, request: &'a HttpRequest) -> (r: Option<(&'a H, RouteMatch<'a>)>)
        ensures
            match r {
                Some((h, m)) => {
                    let k = first_accepting(self.routes(), request.method@, request.path@, 0);
                    &&& k < self.routes().len()
                    &&& *h == self.routes()[k].handler
                    &&& m.path_params@ == path_params_of(self.routes()[k].pattern@, request.path@)
                    &&& m.query_params@ == request.query_params@
                    &&& m.request == request
                },
                None => first_accepting(self.routes(), request.method@, request.path@, 0)
                    == self.routes().len(),
            },
    {
        let star = "*";
        proof {
            reveal_strlit("*");
            assert(star@ =~= wildcard());
        }
        let ghost rs = self.routes();
        let mut i: usize = 0;
        while i < self.routes.len()
            invariant
                rs == self.routes(),
                rs.len() == self.routes@.len(),
                i <= rs.len(),
                star@ == wildcard(),
                first_accepting(rs, request.method@, request.path@, i as int) == first_accepting(
                    rs,
                    request.method@,
                    request.path@,
                    0,
                ),
            decreases rs.len() - i,
        {
            let route = &self.routes[i];
            let m = route.method.as_str();
            if same_text(m, request.method.as_str()) || same_text(m, star) {
                match self.match_pattern(route.pattern.as_str(), request) {
                    Some(found) => {
                        return Some((&route.handler, found));
                    },
                    None => {},
                }
            }
            i = i + 1;
        }
        None
    }
}


/// In a sorted table the route a request is dispatched to scores at least
/// as much as any other route that accepts it: a more specific route is
/// always tried first.
pub proof fn lemma_dispatch_most_specific<H>(router: &Router<H>, method: Seq<char>, path: Seq<char>, j: int)
    requires
        router.wf(),
        0 <= j < router.routes().len(),
        accepts(router.routes()[j], method, path),
    ensures
        first_accepting(router.routes(), method, path, 0) <= j,
        score_of(router.routes()[first_accepting(router.routes(), method, path, 0)].pattern@)
            >= score_of(router.routes()[j].pattern@),
{
    let rs = router.routes();
    lemma_first_accepting(rs, method, path, 0);
    let k = first_accepting(rs, method, path, 0);
    if k > j {
        assert(!accepts(rs[j], method, path));
    }
    if k < j {
        assert(score_of(rs[k].pattern@) >= score_of(rs[j].pattern@));
    }
}

} // verus!
