//! DID URLs: a DID, its method parameters, and a path with a query and a fragment.
use vstd::prelude::*;
use vstd::string::{StrSliceExecFns, StringExecFns};
use crate::did::{
    did_encoding, did_head_ok, did_part, did_wf, ids_end, lemma_did_head_of_encoding,
    lemma_did_part_wf, match_did_head, method_end, DidView,
};
use crate::error::{Component, Error, Stage};
use crate::grammar::{
    chars_of, check_units, keeps, lemma_scan_bounds, lemma_scan_stops, lemma_split_len,
    lemma_units_chars, lemma_units_shift, opt_view, push_char, scan, units_in,
    scan_exec, split, split_range, units, views, CharClass, Region,
};
use crate::params::{
    decode_params, lemma_params_chars, lemma_params_first, lemma_params_seq_round_trip,
    lemma_parse_pieces_wf, lemma_query_round_trip, params_encoding, params_wf, parse_pieces_exec, ParamView,
};
use crate::utils::{empty_to_none, nonempty};
use crate::DecentralizedIdentifer;
use crate::DecentralizedIdentiferParams;

verus! {

/// The path part of a DID URL as a mathematical value.
pub struct PathView {
    pub path: Option<Seq<char>>,
    pub params: Seq<ParamView>,
    pub fragment: Option<Seq<char>>,
}

/// A DID URL as a mathematical value.
pub struct UrlView {
    pub did: DidView,
    pub params: Seq<ParamView>,
    pub path: PathView,
}

/// An optional path, the parameters of the query, and an optional fragment.
#[derive(Clone, Debug)]
pub struct DecentralizedIdentiferPath {
    path: Option<String>,
    params: DecentralizedIdentiferParams,
    fragment: Option<String>,
}

/// A DID with method parameters (`;`) and a path part.
#[derive(Clone, Debug)]
pub struct DecentralizedIdentiferUrl {
    did: DecentralizedIdentifer,
    params: DecentralizedIdentiferParams,
    path: DecentralizedIdentiferPath,
}

impl View for DecentralizedIdentiferPath {
    type V = PathView;

    closed spec fn view(&self) -> PathView {
        PathView { path: opt_view(self.path), params: self.params@, fragment: opt_view(self.fragment) }
    }
}

impl View for DecentralizedIdentiferUrl {
    type V = UrlView;

    closed spec fn view(&self) -> UrlView {
        UrlView { did: self.did@, params: self.params@, path: self.path@ }
    }
}

/// `path-abempty`, not empty: `/` first, then path characters and escapes.
pub open spec fn path_text_ok(p: Seq<char>) -> bool {
    p.len() > 0 && p[0] == '/' && units(CharClass::Path, p)
}

/// A non-empty fragment of query characters and escapes.
pub open spec fn fragment_text_ok(f: Seq<char>) -> bool {
    f.len() > 0 && units(CharClass::Query, f)
}

pub open spec fn path_wf(p: PathView) -> bool {
    &&& (p.path is None || path_text_ok(p.path->Some_0))
    &&& params_wf(p.params)
    &&& (p.fragment is None || fragment_text_ok(p.fragment->Some_0))
}

pub open spec fn url_wf(u: UrlView) -> bool {
    did_wf(u.did) && params_wf(u.params) && path_wf(u.path)
}

pub open spec fn empty_path() -> PathView {
    PathView { path: None, params: Seq::empty(), fragment: None }
}

/// `?` and the query parameters joined with `&`, where there are any.
pub open spec fn query_encoding(q: Seq<ParamView>) -> Seq<char> {
    if q.len() == 0 {
        Seq::empty()
    } else {
        seq!['?'] + params_encoding(q, '&').drop_first()
    }
}

pub open spec fn path_encoding(p: PathView) -> Seq<char> {
    (match p.path {
        Some(t) => t,
        None => Seq::empty(),
    }) + query_encoding(p.params) + match p.fragment {
        Some(f) => seq!['#'] + f,
        None => Seq::empty(),
    }
}

/// The canonical text of a DID URL.
pub open spec fn url_encoding(u: UrlView) -> Seq<char> {
    did_encoding(u.did) + params_encoding(u.params, ';') + path_encoding(u.path)
}

/// Where the method parameters end: at the first `/`, `?` or `#` after the DID.
pub open spec fn params_end(s: Seq<char>) -> int {
    scan(s, ids_end(s), Region::Params)
}

/// Where the path ends: at the first `?` or `#` after it.
pub open spec fn path_end(s: Seq<char>) -> int {
    scan(s, params_end(s), Region::Path)
}

/// Where the query ends: at the first `#` after it.
pub open spec fn query_end(s: Seq<char>) -> int {
    scan(s, path_end(s), Region::Query)
}

/// The query, after its `?`.
pub open spec fn query_text(s: Seq<char>) -> Seq<char> {
    s.subrange(path_end(s) + 1, query_end(s))
}

/// The fragment, after its `#`.
pub open spec fn fragment_text(s: Seq<char>) -> Seq<char> {
    s.subrange(query_end(s) + 1, s.len() as int)
}

/// `*( ";" param )`: each `;` followed by one parameter.
pub open spec fn method_params_ok(r: Seq<char>) -> bool {
    let ps = split(r, ';');
    &&& ps[0].len() == 0
    &&& forall|k: int| 1 <= k < ps.len() ==> (#[trigger] ps[k]).len() > 0
    &&& decode_params(r, ';') is Ok
}

/// `s` matches the DID URL grammar, the parameters of its query aside.
pub open spec fn url_shape_ok(s: Seq<char>) -> bool {
    &&& did_head_ok(s)
    &&& method_params_ok(s.subrange(ids_end(s), params_end(s)))
    &&& units(CharClass::Path, s.subrange(params_end(s), path_end(s)))
    &&& (query_end(s) == path_end(s) || units(CharClass::Query, query_text(s)))
    &&& (query_end(s) == s.len() || units(CharClass::Query, fragment_text(s)))
}

/// The parameters of the query of `s`: none where it has no query.
pub open spec fn url_query(s: Seq<char>) -> Result<Seq<ParamView>, Seq<char>> {
    if query_end(s) == path_end(s) {
        Ok(Seq::empty())
    } else {
        decode_params(query_text(s), '&')
    }
}

/// `s` is a DID URL.
pub open spec fn url_text_ok(s: Seq<char>) -> bool {
    url_shape_ok(s) && url_query(s) is Ok
}

/// The DID URL that `s` denotes; empty path, query and fragment are absent.
pub open spec fn url_of_text(s: Seq<char>) -> UrlView {
    UrlView {
        did: did_part(s),
        params: decode_params(s.subrange(ids_end(s), params_end(s)), ';')->Ok_0,
        path: PathView {
            path: if params_end(s) < path_end(s) {
                Some(s.subrange(params_end(s), path_end(s)))
            } else {
                None
            },
            params: url_query(s)->Ok_0,
            fragment: if query_end(s) + 1 < s.len() {
                Some(fragment_text(s))
            } else {
                None
            },
        },
    }
}

/// The text of `o`, or empty text.
pub open spec fn text_or_empty(o: Option<Seq<char>>) -> Seq<char> {
    match o {
        Some(t) => t,
        None => Seq::empty(),
    }
}

/// The DID URL that well-formed text denotes is well formed.
pub proof fn lemma_url_of_text_wf(s: Seq<char>)
    requires
        url_text_ok(s),
    ensures
        url_wf(url_of_text(s)),
{
    let u = url_of_text(s);
    lemma_did_part_wf(s);
    lemma_scan_bounds(s, 4, Region::Method);
    lemma_scan_bounds(s, method_end(s) + 1, Region::Ids);
    lemma_scan_bounds(s, ids_end(s), Region::Params);
    lemma_scan_bounds(s, params_end(s), Region::Path);
    lemma_scan_bounds(s, path_end(s), Region::Query);
    lemma_parse_pieces_wf(split(s.subrange(ids_end(s), params_end(s)), ';'));
    if query_end(s) != path_end(s) {
        lemma_parse_pieces_wf(split(query_text(s), '&'));
    } else {
        assert(url_query(s)->Ok_0 =~= Seq::<ParamView>::empty());
    }
    if params_end(s) < path_end(s) {
        let p = s.subrange(params_end(s), path_end(s));
        assert(p[0] == s[params_end(s)]);
    }
}

/// Decoding the encoding of a well-formed DID URL gives it back, for every
/// DID URL but those whose DID has a single empty segment.
pub proof fn lemma_url_round_trip(u: DecentralizedIdentiferUrl)
    requires
        url_wf(u@),
        u@.did.identifiers != seq![Seq::<char>::empty()],
    ensures
        url_text_ok(url_encoding(u@)),
        url_of_text(url_encoding(u@)) == u@,
{
    lemma_url_view_round_trip(u@);
}

/// Encoding is idempotent through decoding: the text of a well-formed DID URL
/// decodes, and the result encodes to the same text.
pub proof fn lemma_url_encoding_stable(u: DecentralizedIdentiferUrl)
    requires
        url_wf(u@),
    ensures
        url_text_ok(url_encoding(u@)),
        url_encoding(url_of_text(url_encoding(u@))) == url_encoding(u@),
{
    if u@.did.identifiers == seq![Seq::<char>::empty()] {
        let d = DidView { method: u@.did.method, identifiers: Seq::empty() };
        let w = UrlView { did: d, ..u@ };
        assert(did_encoding(d) =~= did_encoding(u@.did));
        assert(url_encoding(w) == url_encoding(u@));
        lemma_url_view_round_trip(w);
    } else {
        lemma_url_view_round_trip(u@);
    }
}

#[verifier::rlimit(100)]
#[verifier::spinoff_prover]
proof fn lemma_url_view_round_trip(u: UrlView)
    requires
        url_wf(u),
        u.did.identifiers != seq![Seq::<char>::empty()],
    ensures
        url_text_ok(url_encoding(u)),
        url_of_text(url_encoding(u)) == u,
{
    let dd = did_encoding(u.did);
    let pp = params_encoding(u.params, ';');
    let tt = text_or_empty(u.path.path);
    let q = u.path.params;
    let qq = query_encoding(q);
    let ff: Seq<char> = match u.path.fragment {
        Some(f) => seq!['#'] + f,
        None => Seq::empty(),
    };
    let rest = pp + tt + qq + ff;
    let s = url_encoding(u);
    assert(s =~= dd + rest);
    let a = dd.len() as int;
    let b = a + pp.len();
    let c = b + tt.len();
    let d = c + qq.len();
    let n = d + ff.len();
    assert(s.len() == n);
    assert(forall|k: int| a <= k < b ==> s[k] == pp[k - a]);
    assert(forall|k: int| b <= k < c ==> s[k] == tt[k - b]);
    assert(forall|k: int| c <= k < d ==> s[k] == qq[k - c]);
    assert(forall|k: int| d <= k < n ==> s[k] == ff[k - d]);
    // first characters of the parts
    if u.params.len() > 0 {
        lemma_params_first(u.params, ';');
    } else {
        assert(pp.len() == 0);
    }
    if u.path.path is Some {
        assert(tt.len() > 0 && tt[0] == '/');
    }
    let qe = params_encoding(q, '&');
    if q.len() > 0 {
        lemma_params_first(q, '&');
        assert(qq[0] == '?');
        assert(qq =~= seq!['?'] + qe.drop_first());
    } else {
        assert(qq.len() == 0);
    }
    if u.path.fragment is Some {
        assert(ff[0] == '#');
    } else {
        assert(ff.len() == 0);
    }
    // the DID
    if rest.len() > 0 {
        if pp.len() > 0 {
            assert(rest[0] == pp[0]);
        } else if tt.len() > 0 {
            assert(rest[0] == tt[0]);
        } else if qq.len() > 0 {
            assert(rest[0] == qq[0]);
        } else {
            assert(rest[0] == ff[0]);
        }
    }
    lemma_did_head_of_encoding(u.did, rest);
    assert(ids_end(s) == a);
    // the method parameters
    lemma_params_chars(u.params, ';');
    assert forall|k: int| a <= k < b implies keeps(Region::Params, #[trigger] s[k]) by {
        assert(s[k] == pp[k - a]);
    }
    if b < n {
        if tt.len() > 0 {
            assert(s[b] == tt[0]);
        } else if qq.len() > 0 {
            assert(s[b] == qq[0]);
        } else {
            assert(s[b] == ff[0]);
        }
    }
    lemma_scan_stops(s, a, b, Region::Params);
    assert(params_end(s) == b);
    assert(s.subrange(a, b) =~= pp);
    lemma_params_seq_round_trip(u.params, ';');
    // the path
    if u.path.path is Some {
        lemma_units_chars(CharClass::Path, tt, 0, tt.len() as int);
    }
    assert forall|k: int| b <= k < c implies keeps(Region::Path, #[trigger] s[k]) by {
        assert(s[k] == tt[k - b]);
    }
    if c < n {
        if qq.len() > 0 {
            assert(s[c] == qq[0]);
        } else {
            assert(s[c] == ff[0]);
        }
    }
    lemma_scan_stops(s, b, c, Region::Path);
    assert(path_end(s) == c);
    assert(s.subrange(b, c) =~= tt);
    if u.path.path is None {
        assert(units_in(CharClass::Path, tt, 0, 0));
    }
    // the query
    if q.len() > 0 {
        lemma_params_chars(q, '&');
        lemma_query_round_trip(q);
        assert forall|k: int| c <= k < d implies keeps(Region::Query, #[trigger] s[k]) by {
            assert(s[k] == qq[k - c]);
            if k > c {
                assert(qq[k - c] == qe[k - c]);
            }
        }
        assert(query_text(s) =~= qe.drop_first()) by {
            lemma_scan_stops(s, c, d, Region::Query);
        }
    }
    if d < n {
        assert(s[d] == '#');
    }
    lemma_scan_stops(s, c, d, Region::Query);
    assert(query_end(s) == d);
    if q.len() == 0 {
        assert(url_query(s) == Ok::<Seq<ParamView>, Seq<char>>(Seq::empty()));
        assert(q =~= Seq::<ParamView>::empty());
    }
    // the fragment
    if u.path.fragment is Some {
        assert(fragment_text(s) =~= u.path.fragment->Some_0);
    }
    assert(url_shape_ok(s));
    assert(url_of_text(s).did == u.did);
    assert(url_of_text(s).params == u.params);
    assert(url_of_text(s).path == u.path);
}

/// Checks `v[a..b]` against `cls`, as a statement on that part of `v`.
fn check_part(cls: CharClass, v: &Vec<char>, a: usize, b: usize) -> (r: bool)
    requires
        a <= b <= v.len(),
    ensures
        r == units(cls, v@.subrange(a as int, b as int)),
{
    proof {
        lemma_units_shift(cls, v@, a as int, a as int, b as int);
    }
    check_units(cls, v, a, b)
}

fn malformed_url(input: &str) -> (e: Error)
    ensures
        e matches Error::MalformedInput(st, t) && st == Stage::DidUrl && t@ == input@,
{
    Error::MalformedInput(Stage::DidUrl, input.to_owned())
}

impl Default for DecentralizedIdentiferPath {
    fn default() -> (r: Self)
        ensures
            r@ == empty_path(),
    {
        DecentralizedIdentiferPath::new()
    }
}

impl DecentralizedIdentiferPath {
    /// No path, no query parameters, no fragment.
    pub fn new() -> (r: Self)
        ensures
            r@ == empty_path(),
    {
        DecentralizedIdentiferPath {
            path: None,
            params: DecentralizedIdentiferParams::new(),
            fragment: None,
        }
    }

    /// Sets the path; `Some("")` clears it. A path other than `/` followed by
    /// path characters is refused and leaves this unchanged.
    pub fn set_path(&mut self, path: Option<String>) -> (r: Result<(), Error>)
        ensures
            r is Ok <==> (opt_view(path) is None || opt_view(path)->Some_0.len() == 0
                || path_text_ok(opt_view(path)->Some_0)),
            r is Ok ==> final(self)@ == (PathView { path: nonempty(opt_view(path)), ..old(self)@ }),
            r is Err ==> final(self)@ == old(self)@ && r->Err_0 == Error::InvalidComponent(
                Component::Path,
            ),
    {
        match &path {
            Some(p) => {
                let v = chars_of(p.as_str());
                if v.len() > 0 && (v[0] != '/' || !check_part(CharClass::Path, &v, 0, v.len())) {
                    proof {
                        assert(v@.subrange(0, v.len() as int) =~= v@);
                    }
                    return Err(Error::InvalidComponent(Component::Path));
                }
                proof {
                    assert(v@.subrange(0, v.len() as int) =~= v@);
                }
            },
            None => {},
        }
        self.path = empty_to_none(path);
        Ok(())
    }

    /// Sets the parameters of the query.
    pub fn set_params(&mut self, params: DecentralizedIdentiferParams)
        ensures
            final(self)@ == (PathView { params: params@, ..old(self)@ }),
    {
        self.params = params;
    }

    /// Sets the fragment; `Some("")` clears it. A fragment of other than query
    /// characters is refused and leaves this unchanged.
    pub fn set_fragment(&mut self, fragment: Option<String>) -> (r: Result<(), Error>)
        ensures
            r is Ok <==> (opt_view(fragment) is None || units(
                CharClass::Query,
                opt_view(fragment)->Some_0,
            )),
            r is Ok ==> final(self)@ == (PathView {
                fragment: nonempty(opt_view(fragment)),
                ..old(self)@
            }),
            r is Err ==> final(self)@ == old(self)@ && r->Err_0 == Error::InvalidComponent(
                Component::Fragment,
            ),
    {
        match &fragment {
            Some(f) => {
                let v = chars_of(f.as_str());
                proof {
                    assert(v@.subrange(0, v.len() as int) =~= v@);
                }
                if !check_part(CharClass::Query, &v, 0, v.len()) {
                    return Err(Error::InvalidComponent(Component::Fragment));
                }
            },
            None => {},
        }
        self.fragment = empty_to_none(fragment);
        Ok(())
    }

    pub fn path(&self) -> (r: Option<&str>)
        ensures
            r is Some <==> self@.path is Some,
            r is Some ==> r->Some_0@ == self@.path->Some_0,
    {
        match &self.path {
            Some(p) => Some(p.as_str()),
            None => None,
        }
    }

    pub fn params(&self) -> (r: &DecentralizedIdentiferParams)
        ensures
            r@ == self@.params,
    {
        &self.params
    }

    pub fn fragment(&self) -> (r: Option<&str>)
        ensures
            r is Some <==> self@.fragment is Some,
            r is Some ==> r->Some_0@ == self@.fragment->Some_0,
    {
        match &self.fragment {
            Some(f) => Some(f.as_str()),
            None => None,
        }
    }

    /// The path, `?` and the query joined with `&` where there are query
    /// parameters, and `#` and the fragment where there is one.
    pub fn encode(&self) -> (r: String)
        ensures
            r@ == path_encoding(self@),
    {
        let mut r = String::new();
        match &self.path {
            Some(p) => r.append(p.as_str()),
            None => {},
        }
        let ghost head = r@;
        if self.params.len() > 0 {
            push_char(&mut r, '?');
            let q = self.params.encode('&');
            let n = q.as_str().unicode_len();
            proof {
                assert(params_encoding(self@.params, '&').len() > 0);
            }
            r.append(q.as_str().substring_char(1, n));
            proof {
                assert(q@.subrange(1, n as int) =~= q@.drop_first());
            }
        }
        proof {
            assert(r@ =~= head + query_encoding(self@.params));
        }
        match &self.fragment {
            Some(f) => {
                push_char(&mut r, '#');
                r.append(f.as_str());
            },
            None => {},
        }
        proof {
            assert(r@ =~= path_encoding(self@));
        }
        r
    }
}

impl DecentralizedIdentiferUrl {
    /// The DID with no method parameters and an empty path part.
    pub fn new(did: DecentralizedIdentifer) -> (r: Self)
        ensures
            r@ == (UrlView { did: did@, params: Seq::empty(), path: empty_path() }),
    {
        DecentralizedIdentiferUrl {
            did,
            params: DecentralizedIdentiferParams::new(),
            path: DecentralizedIdentiferPath::new(),
        }
    }

    /// Sets the method parameters.
    pub fn set_params(&mut self, params: DecentralizedIdentiferParams)
        ensures
            final(self)@ == (UrlView { params: params@, ..old(self)@ }),
    {
        self.params = params;
    }

    /// Sets the path part.
    pub fn set_path(&mut self, path: DecentralizedIdentiferPath)
        ensures
            final(self)@ == (UrlView { path: path@, ..old(self)@ }),
    {
        self.path = path;
    }

    pub fn did(&self) -> (r: &DecentralizedIdentifer)
        ensures
            r@ == self@.did,
    {
        &self.did
    }

    pub fn params(&self) -> (r: &DecentralizedIdentiferParams)
        ensures
            r@ == self@.params,
    {
        &self.params
    }

    pub fn path(&self) -> (r: &DecentralizedIdentiferPath)
        ensures
            r@ == self@.path,
    {
        &self.path
    }

    /// Decodes a DID URL; the text must match the grammar entirely. A query
    /// piece that is not a parameter is reported on its own.
    #[verifier::loop_isolation(false)]
    pub fn decode(input: &str) -> (r: Result<Self, Error>)
        ensures
            r is Ok <==> url_text_ok(input@),
            r is Ok ==> r->Ok_0@ == url_of_text(input@) && url_wf(r->Ok_0@),
            !url_shape_ok(input@) ==> (r matches Err(Error::MalformedInput(st, t)) && st
                == Stage::DidUrl && t@ == input@),
            url_shape_ok(input@) && url_query(input@) is Err ==> (r matches Err(
                Error::MalformedInput(st, t),
            ) && st == Stage::Param && t@ == url_query(input@)->Err_0),
    {
        let v = chars_of(input);
        let ghost s = input@;
        let (me, ie) = match match_did_head(&v) {
            Some(x) => x,
            None => {
                return Err(malformed_url(input));
            },
        };
        proof {
            lemma_scan_bounds(s, me + 1, Region::Ids);
        }
        let pe = scan_exec(&v, ie, Region::Params);
        let he = scan_exec(&v, pe, Region::Path);
        let qe = scan_exec(&v, he, Region::Query);
        proof {
            lemma_scan_bounds(s, pe as int, Region::Path);
            lemma_scan_bounds(s, he as int, Region::Query);
        }
        let pieces = split_range(&v, ie, pe, ';');
        proof {
            lemma_split_len(s.subrange(ie as int, pe as int), ';');
        }
        proof {
            assert(views(pieces@)[0] == pieces@[0]@);
        }
        if !pieces[0].as_str().is_empty() {
            return Err(malformed_url(input));
        }
        let mut k: usize = 1;
        while k < pieces.len()
            invariant
                1 <= k <= pieces.len(),
                forall|j: int| 1 <= j < k ==> (#[trigger] views(pieces@)[j]).len() > 0,
            decreases pieces.len() - k,
        {
            proof {
                assert(views(pieces@)[k as int] == pieces@[k as int]@);
            }
            if pieces[k].as_str().is_empty() {
                return Err(malformed_url(input));
            }
            k = k + 1;
        }
        let params = match parse_pieces_exec(&pieces) {
            Ok(p) => p,
            Err(_) => {
                return Err(malformed_url(input));
            },
        };
        if !check_part(CharClass::Path, &v, pe, he) {
            return Err(malformed_url(input));
        }
        if qe > he && !check_part(CharClass::Query, &v, he + 1, qe) {
            return Err(malformed_url(input));
        }
        if qe < v.len() && !check_part(CharClass::Query, &v, qe + 1, v.len()) {
            return Err(malformed_url(input));
        }
        assert(url_shape_ok(s));
        let did = DecentralizedIdentifer::from_captures(input, &v, me, ie);
        let mut path = DecentralizedIdentiferPath::new();
        if pe < he {
            path.path = Some(input.substring_char(pe, he).to_owned());
        }
        if qe > he {
            let q = split_range(&v, he + 1, qe, '&');
            match parse_pieces_exec(&q) {
                Ok(p) => {
                    path.params = p;
                },
                Err(e) => {
                    return Err(e);
                },
            }
        }
        if qe < v.len() && v.len() - qe > 1 {
            path.fragment = Some(input.substring_char(qe + 1, v.len()).to_owned());
        }
        let r = DecentralizedIdentiferUrl { did, params, path };
        assert(r@.path == url_of_text(s).path);
        proof {
            lemma_url_of_text_wf(s);
        }
        Ok(r)
    }

    /// The canonical text: the DID, each method parameter after `;`, then the
    /// path part.
    pub fn encode(&self) -> (r: String)
        ensures
            r@ == url_encoding(self@),
    {
        let mut r = self.did.encode();
        let p = self.params.encode(';');
        r.append(p.as_str());
        let t = self.path.encode();
        r.append(t.as_str());
        proof {
            assert(r@ =~= url_encoding(self@));
        }
        r
    }
}

} // verus!
