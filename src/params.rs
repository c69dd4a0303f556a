//! Parameters: ordered `name[=value]` pairs, used with `;` after the DID and
//! with `&` in the query of a DID URL.
use vstd::prelude::*;
use vstd::string::{StrSliceExecFns, StringExecFns};
use crate::error::{Component, Error, Stage};
use crate::grammar::{
    chars_of, check_units, in_class, is_hex_digit, is_param_char, keeps, lemma_scan_bounds,
    lemma_scan_stops, lemma_split_append, lemma_split_single, lemma_units_chars, lemma_units_concat,
    lemma_units_shift, push_char, units_in, opt_view, scan, scan_exec,
    split, split_range, units, views, CharClass, Region,
};

verus! {

/// A parameter as a mathematical value: its name and its value, if any.
pub type ParamView = (Seq<char>, Option<Seq<char>>);

/// `name[=value]`; an empty value is no value.
#[derive(Clone, Debug)]
pub struct DecentralizedIdentiferParam(String, Option<String>);

/// An ordered list of parameters; order and duplicates are kept.
#[derive(Clone, Debug)]
pub struct DecentralizedIdentiferParams(Vec<DecentralizedIdentiferParam>);

impl View for DecentralizedIdentiferParam {
    type V = ParamView;

    closed spec fn view(&self) -> ParamView {
        (self.0@, opt_view(self.1))
    }
}

impl View for DecentralizedIdentiferParams {
    type V = Seq<ParamView>;

    closed spec fn view(&self) -> Seq<ParamView> {
        self.0@.map_values(|p: DecentralizedIdentiferParam| p@)
    }
}

/// A name of one or more parameter characters, and no value or a non-empty one.
pub open spec fn param_wf(p: ParamView) -> bool {
    &&& p.0.len() > 0
    &&& units(CharClass::Param, p.0)
    &&& match p.1 {
        Some(v) => v.len() > 0 && units(CharClass::Param, v),
        None => true,
    }
}

pub open spec fn params_wf(ps: Seq<ParamView>) -> bool {
    forall|k: int| 0 <= k < ps.len() ==> param_wf(#[trigger] ps[k])
}

/// Where the name of the parameter text `p` ends: at its first `=`, or at its end.
pub open spec fn name_end(p: Seq<char>) -> int {
    scan(p, 0, Region::Name)
}

/// `p` is `name` or `name=value`, the name non-empty, both of parameter characters.
pub open spec fn param_ok(p: Seq<char>) -> bool {
    let k = name_end(p);
    &&& k > 0
    &&& units(CharClass::Param, p.subrange(0, k))
    &&& (k == p.len() || units(CharClass::Param, p.subrange(k + 1, p.len() as int)))
}

/// The parameter that the text `p` denotes.
pub open spec fn param_of(p: Seq<char>) -> ParamView {
    let k = name_end(p);
    (p.subrange(0, k), if k + 1 < p.len() {
        Some(p.subrange(k + 1, p.len() as int))
    } else {
        None
    })
}

/// The parameters of the pieces, empty pieces skipped; the first piece that is
/// not a parameter is the error.
pub open spec fn parse_pieces(ps: Seq<Seq<char>>) -> Result<Seq<ParamView>, Seq<char>>
    decreases ps.len(),
{
    if ps.len() == 0 {
        Ok(Seq::empty())
    } else {
        match parse_pieces(ps.drop_last()) {
            Err(e) => Err(e),
            Ok(v) => {
                let p = ps.last();
                if p.len() == 0 {
                    Ok(v)
                } else if param_ok(p) {
                    Ok(v.push(param_of(p)))
                } else {
                    Err(p)
                }
            },
        }
    }
}

/// The parameters of `t`, separated by `sep`.
pub open spec fn decode_params(t: Seq<char>, sep: char) -> Result<Seq<ParamView>, Seq<char>> {
    parse_pieces(split(t, sep))
}

/// `name` or `name=value`.
pub open spec fn param_encoding(p: ParamView) -> Seq<char> {
    p.0 + match p.1 {
        Some(v) => seq!['='] + v,
        None => Seq::empty(),
    }
}

/// Each parameter preceded by `sep`.
pub open spec fn params_encoding(ps: Seq<ParamView>, sep: char) -> Seq<char>
    decreases ps.len(),
{
    if ps.len() == 0 {
        Seq::empty()
    } else {
        params_encoding(ps.drop_last(), sep) + seq![sep] + param_encoding(ps.last())
    }
}

/// Once a prefix of the pieces fails, the whole fails with the same piece.
pub proof fn lemma_parse_pieces_err(ps: Seq<Seq<char>>, k: int)
    requires
        0 <= k <= ps.len(),
        parse_pieces(ps.take(k)) is Err,
    ensures
        parse_pieces(ps) == parse_pieces(ps.take(k)),
    decreases ps.len() - k,
{
    if k == ps.len() {
        assert(ps.take(k) =~= ps);
    } else {
        let init = ps.drop_last();
        assert(init.take(k) =~= ps.take(k));
        lemma_parse_pieces_err(init, k);
    }
}

/// The text of a well-formed parameter holds neither separator, and decodes to it.
pub proof fn lemma_param_text(p: ParamView, sep: char)
    requires
        param_wf(p),
        sep == ';' || sep == '&',
    ensures
        !param_encoding(p).contains(sep),
        param_encoding(p).len() > 0,
        param_ok(param_encoding(p)),
        param_of(param_encoding(p)) == p,
{
    let x = param_encoding(p);
    let n = p.0;
    lemma_units_chars(CharClass::Param, n, 0, n.len() as int);
    assert forall|i: int| 0 <= i < n.len() implies keeps(Region::Name, #[trigger] x[i]) by {
        assert(x[i] == n[i]);
    }
    match p.1 {
        Some(v) => {
            lemma_units_chars(CharClass::Param, v, 0, v.len() as int);
            assert(x[n.len() as int] == '=');
            lemma_scan_stops(x, 0, n.len() as int, Region::Name);
            assert(x.subrange(n.len() + 1 as int, x.len() as int) =~= v);
            assert forall|i: int| 0 <= i < x.len() implies #[trigger] x[i] != sep by {
                if i > n.len() {
                    assert(x[i] == v[i - n.len() - 1]);
                }
            }
        },
        None => {
            assert(x =~= n);
            lemma_scan_stops(x, 0, n.len() as int, Region::Name);
        },
    }
    assert(x.subrange(0, n.len() as int) =~= n);
    assert(param_of(x).0 == n);
}

/// Decoding the encoding of well-formed parameters gives them back, in order,
/// for either separator.
pub proof fn lemma_params_round_trip(ps: DecentralizedIdentiferParams, sep: char)
    requires
        params_wf(ps@),
        sep == ';' || sep == '&',
    ensures
        decode_params(params_encoding(ps@, sep), sep) == Ok::<Seq<ParamView>, Seq<char>>(ps@),
{
    lemma_params_seq_round_trip(ps@, sep);
}

pub proof fn lemma_params_seq_round_trip(ps: Seq<ParamView>, sep: char)
    requires
        params_wf(ps),
        sep == ';' || sep == '&',
    ensures
        decode_params(params_encoding(ps, sep), sep) == Ok::<Seq<ParamView>, Seq<char>>(ps),
        split(params_encoding(ps, sep), sep).len() == ps.len() + 1,
        split(params_encoding(ps, sep), sep)[0].len() == 0,
        forall|k: int|
            1 <= k < split(params_encoding(ps, sep), sep).len() ==> (#[trigger] split(
                params_encoding(ps, sep),
                sep,
            )[k]).len() > 0,
    decreases ps.len(),
{
    if ps.len() == 0 {
        let pieces = split(Seq::<char>::empty(), sep);
        assert(pieces == seq![Seq::<char>::empty()]);
        assert(pieces.drop_last() =~= Seq::<Seq<char>>::empty());
        assert(parse_pieces(pieces.drop_last()) == Ok::<Seq<ParamView>, Seq<char>>(Seq::empty()));
        assert(pieces.last().len() == 0);
        assert(ps =~= Seq::<ParamView>::empty());
    } else {
        let init = ps.drop_last();
        assert forall|k: int| 0 <= k < init.len() implies param_wf(#[trigger] init[k]) by {
            assert(init[k] == ps[k]);
        }
        lemma_params_seq_round_trip(init, sep);
        assert(param_wf(ps[ps.len() - 1]));
        lemma_param_text(ps.last(), sep);
        let x = param_encoding(ps.last());
        lemma_split_append(params_encoding(init, sep), x, sep);
        let pieces = split(params_encoding(init, sep), sep).push(x);
        assert(params_encoding(ps, sep) == params_encoding(init, sep) + seq![sep] + x);
        assert(pieces.drop_last() =~= split(params_encoding(init, sep), sep));
        assert(pieces.last() == x);
        assert(parse_pieces(pieces.drop_last()) == Ok::<Seq<ParamView>, Seq<char>>(init));
        assert(parse_pieces(pieces) == Ok::<Seq<ParamView>, Seq<char>>(init.push(param_of(x))));
        assert(init.push(ps.last()) =~= ps);
    }
}

/// Every character of an encoding of well-formed parameters is the separator,
/// `=`, a parameter character, or part of an escape.
pub proof fn lemma_params_chars(ps: Seq<ParamView>, sep: char)
    requires
        params_wf(ps),
    ensures
        forall|i: int|
            0 <= i < params_encoding(ps, sep).len() ==> {
                let c = #[trigger] params_encoding(ps, sep)[i];
                c == sep || c == '=' || is_param_char(c) || c == '%' || is_hex_digit(c)
            },
    decreases ps.len(),
{
    if ps.len() > 0 {
        let init = ps.drop_last();
        assert forall|k: int| 0 <= k < init.len() implies param_wf(#[trigger] init[k]) by {
            assert(init[k] == ps[k]);
        }
        lemma_params_chars(init, sep);
        let p = ps.last();
        assert(param_wf(ps[ps.len() - 1]));
        lemma_units_chars(CharClass::Param, p.0, 0, p.0.len() as int);
        let x = param_encoding(p);
        match p.1 {
            Some(v) => {
                lemma_units_chars(CharClass::Param, v, 0, v.len() as int);
            },
            None => {},
        }
        let a = params_encoding(init, sep);
        let e = params_encoding(ps, sep);
        assert forall|i: int| 0 <= i < e.len() implies {
            let c = #[trigger] e[i];
            c == sep || c == '=' || is_param_char(c) || c == '%' || is_hex_digit(c)
        } by {
            if i < a.len() {
                assert(e[i] == a[i]);
            } else if i == a.len() {
                assert(e[i] == sep);
            } else {
                let j = i - a.len() - 1;
                assert(e[i] == x[j]);
                if j < p.0.len() {
                    assert(x[j] == p.0[j]);
                } else if j > p.0.len() {
                    assert(x[j] == p.1->Some_0[j - p.0.len() - 1]);
                }
            }
        }
    }
}

/// The query form: the parameters joined with `&`, which decodes back to them.
pub proof fn lemma_query_round_trip(ps: Seq<ParamView>)
    requires
        params_wf(ps),
        ps.len() > 0,
    ensures
        decode_params(params_encoding(ps, '&').drop_first(), '&') == Ok::<
            Seq<ParamView>,
            Seq<char>,
        >(ps),
        units(CharClass::Query, params_encoding(ps, '&').drop_first()),
    decreases ps.len(),
{
    let init = ps.drop_last();
    assert forall|k: int| 0 <= k < init.len() implies param_wf(#[trigger] init[k]) by {
        assert(init[k] == ps[k]);
    }
    assert(param_wf(ps[ps.len() - 1]));
    let p = ps.last();
    lemma_param_text(p, '&');
    let x = param_encoding(p);
    lemma_param_query_units(p);
    let e = params_encoding(ps, '&');
    let a = params_encoding(init, '&');
    assert(e == a + seq!['&'] + x);
    if ps.len() == 1 {
        assert(a.len() == 0);
        assert(e.drop_first() =~= x);
        lemma_split_single(x, '&');
        let pieces = seq![x];
        assert(pieces.drop_last() =~= Seq::<Seq<char>>::empty());
        assert(parse_pieces(pieces.drop_last()) == Ok::<Seq<ParamView>, Seq<char>>(Seq::empty()));
        assert(Seq::<ParamView>::empty().push(p) =~= ps);
    } else {
        lemma_query_round_trip(init);
        assert(a.len() > 0);
        assert(e.drop_first() =~= a.drop_first() + seq!['&'] + x);
        lemma_split_append(a.drop_first(), x, '&');
        let pieces = split(a.drop_first(), '&').push(x);
        assert(pieces.drop_last() =~= split(a.drop_first(), '&'));
        assert(pieces.last() == x);
        assert(init.push(p) =~= ps);
        let amp: Seq<char> = seq!['&'];
        assert(units(CharClass::Query, amp)) by {
            assert(in_class(CharClass::Query, amp[0]));
            assert(units_in(CharClass::Query, amp, 1, 1));
        }
        lemma_units_concat(CharClass::Query, a.drop_first(), amp, 0);
        lemma_units_concat(CharClass::Query, a.drop_first() + amp, x, 0);
    }
}

/// A well-formed parameter's text is also text of the query class.
pub proof fn lemma_param_query_units(p: ParamView)
    requires
        param_wf(p),
    ensures
        units(CharClass::Query, param_encoding(p)),
{
    lemma_param_units_widen(p.0, 0);
    match p.1 {
        Some(v) => {
            lemma_param_units_widen(v, 0);
            let eq: Seq<char> = seq!['='];
            assert(units(CharClass::Query, eq)) by {
                assert(in_class(CharClass::Query, eq[0]));
                assert(units_in(CharClass::Query, eq, 1, 1));
            }
            lemma_units_concat(CharClass::Query, eq, v, 0);
            lemma_units_concat(CharClass::Query, p.0, eq + v, 0);
            assert(param_encoding(p) =~= p.0 + (eq + v));
        },
        None => {
            assert(param_encoding(p) =~= p.0);
        },
    }
}

/// Parameter characters are query characters.
pub proof fn lemma_param_units_widen(s: Seq<char>, i: int)
    requires
        0 <= i <= s.len(),
        units_in(CharClass::Param, s, i, s.len() as int),
    ensures
        units_in(CharClass::Query, s, i, s.len() as int),
    decreases s.len() - i,
{
    if i < s.len() {
        if s[i] == '%' {
            lemma_param_units_widen(s, i + 3);
        } else {
            lemma_param_units_widen(s, i + 1);
        }
    }
}

/// A non-empty encoding starts with the separator.
pub proof fn lemma_params_first(ps: Seq<ParamView>, sep: char)
    requires
        ps.len() > 0,
    ensures
        params_encoding(ps, sep).len() > 0,
        params_encoding(ps, sep)[0] == sep,
    decreases ps.len(),
{
    let init = ps.drop_last();
    let a = params_encoding(init, sep);
    let e = params_encoding(ps, sep);
    assert(e == a + seq![sep] + param_encoding(ps.last()));
    if init.len() > 0 {
        lemma_params_first(init, sep);
        assert(e[0] == a[0]);
    } else {
        assert(a.len() == 0);
        assert(e[0] == sep);
    }
}

/// What decoding gives is well formed.
pub proof fn lemma_parse_pieces_wf(ps: Seq<Seq<char>>)
    requires
        parse_pieces(ps) is Ok,
    ensures
        params_wf(parse_pieces(ps)->Ok_0),
    decreases ps.len(),
{
    if ps.len() > 0 {
        lemma_parse_pieces_wf(ps.drop_last());
        let p = ps.last();
        if p.len() > 0 {
            let k = name_end(p);
            lemma_scan_bounds(p, 0, Region::Name);
            let v = parse_pieces(ps.drop_last())->Ok_0;
            assert(param_wf(param_of(p)));
            assert forall|j: int| 0 <= j < v.push(param_of(p)).len() implies param_wf(
                #[trigger] v.push(param_of(p))[j],
            ) by {
                if j < v.len() {
                    assert(v.push(param_of(p))[j] == v[j]);
                }
            }
        }
    }
}

/// Checks `v[a..b]` as a run of parameter characters and escapes.
fn check_param_units(v: &Vec<char>, a: usize, b: usize) -> (r: bool)
    requires
        a <= b <= v.len(),
    ensures
        r == units(CharClass::Param, v@.subrange(a as int, b as int)),
{
    proof {
        lemma_units_shift(CharClass::Param, v@, a as int, a as int, b as int);
        assert(v@.subrange(a as int, b as int).len() == b - a);
    }
    check_units(CharClass::Param, v, a, b)
}

impl DecentralizedIdentiferParam {
    /// A parameter of the given name and value; an empty value is no value.
    pub fn new(name: &str, value: Option<&str>) -> (r: Result<Self, Error>)
        ensures
            r is Ok <==> (name@.len() > 0 && units(CharClass::Param, name@) && match value {
                Some(v) => units(CharClass::Param, v@),
                None => true,
            }),
            r is Ok ==> r->Ok_0@ == (name@, match value {
                Some(v) => if v@.len() > 0 {
                    Some(v@)
                } else {
                    None
                },
                None => None,
            }),
            r is Err ==> r->Err_0 == Error::InvalidComponent(
                if name@.len() > 0 && units(CharClass::Param, name@) {
                    Component::ParamValue
                } else {
                    Component::ParamName
                },
            ),
    {
        let n = chars_of(name);
        proof {
            assert(n@.subrange(0, n@.len() as int) =~= n@);
        }
        if n.len() == 0 || !check_param_units(&n, 0, n.len()) {
            return Err(Error::InvalidComponent(Component::ParamName));
        }
        match value {
            Some(v) => {
                let w = chars_of(v);
                proof {
                    assert(w@.subrange(0, w@.len() as int) =~= w@);
                }
                if !check_param_units(&w, 0, w.len()) {
                    return Err(Error::InvalidComponent(Component::ParamValue));
                }
                if w.len() == 0 {
                    Ok(DecentralizedIdentiferParam(name.to_owned(), None))
                } else {
                    Ok(DecentralizedIdentiferParam(name.to_owned(), Some(v.to_owned())))
                }
            },
            None => Ok(DecentralizedIdentiferParam(name.to_owned(), None)),
        }
    }

    /// Decodes `name` or `name=value`; the text must match entirely.
    pub fn decode(input: &str) -> (r: Result<Self, Error>)
        ensures
            r is Ok <==> param_ok(input@),
            r is Ok ==> r->Ok_0@ == param_of(input@),
            r is Err ==> (r->Err_0 matches Error::MalformedInput(st, t) && st == Stage::Param
                && t@ == input@),
    {
        let v = chars_of(input);
        let k = scan_exec(&v, 0, Region::Name);
        if k == 0 || !check_param_units(&v, 0, k) {
            return Err(Error::MalformedInput(Stage::Param, input.to_owned()));
        }
        if k < v.len() && !check_param_units(&v, k + 1, v.len()) {
            return Err(Error::MalformedInput(Stage::Param, input.to_owned()));
        }
        let name = input.substring_char(0, k).to_owned();
        if k < v.len() && v.len() - k > 1 {
            let value = input.substring_char(k + 1, v.len()).to_owned();
            Ok(DecentralizedIdentiferParam(name, Some(value)))
        } else {
            Ok(DecentralizedIdentiferParam(name, None))
        }
    }

    pub fn name(&self) -> (r: &str)
        ensures
            r@ == self@.0,
    {
        self.0.as_str()
    }

    pub fn value(&self) -> (r: Option<&str>)
        ensures
            r is Some <==> self@.1 is Some,
            r is Some ==> r->Some_0@ == self@.1->Some_0,
    {
        match &self.1 {
            Some(v) => Some(v.as_str()),
            None => None,
        }
    }

    /// `name`, or `name=value`.
    pub fn encode(&self) -> (r: String)
        ensures
            r@ == param_encoding(self@),
    {
        let mut r = self.0.clone();
        match &self.1 {
            Some(v) => {
                push_char(&mut r, '=');
                r.append(v.as_str());
                proof {
                    assert(r@ =~= param_encoding(self@));
                }
            },
            None => {
                proof {
                    assert(r@ =~= param_encoding(self@));
                }
            },
        }
        r
    }
}

/// The parameters of the pieces, empty pieces skipped.
pub(crate) fn parse_pieces_exec(pieces: &Vec<String>) -> (r: Result<DecentralizedIdentiferParams, Error>)
    ensures
        r is Ok <==> parse_pieces(views(pieces@)) is Ok,
        r is Ok ==> r->Ok_0@ == parse_pieces(views(pieces@))->Ok_0,
        r is Err ==> (r->Err_0 matches Error::MalformedInput(st, t) && st == Stage::Param && t@
            == parse_pieces(views(pieces@))->Err_0),
{
    let ghost ps = views(pieces@);
    let mut acc = DecentralizedIdentiferParams(Vec::new());
    let mut k: usize = 0;
    proof {
        assert(ps.take(0) =~= Seq::<Seq<char>>::empty());
        assert(acc@ =~= Seq::<ParamView>::empty());
    }
    while k < pieces.len()
        invariant
            k <= pieces.len(),
            ps == views(pieces@),
            parse_pieces(ps.take(k as int)) == Ok::<Seq<ParamView>, Seq<char>>(acc@),
        decreases pieces.len() - k,
    {
        let piece = pieces[k].as_str();
        proof {
            assert(ps.take(k + 1).drop_last() =~= ps.take(k as int));
            assert(ps.take(k + 1).last() == piece@);
        }
        if !piece.is_empty() {
            match DecentralizedIdentiferParam::decode(piece) {
                Ok(p) => {
                    acc.push(p);
                },
                Err(e) => {
                    proof {
                        lemma_parse_pieces_err(ps, k + 1);
                    }
                    return Err(e);
                },
            }
        }
        k = k + 1;
    }
    proof {
        assert(ps.take(k as int) =~= ps);
    }
    Ok(acc)
}

impl Default for DecentralizedIdentiferParams {
    fn default() -> (r: Self)
        ensures
            r@ == Seq::<ParamView>::empty(),
    {
        DecentralizedIdentiferParams::new()
    }
}

impl DecentralizedIdentiferParams {
    /// No parameters.
    pub fn new() -> (r: Self)
        ensures
            r@ == Seq::<ParamView>::empty(),
    {
        let r = DecentralizedIdentiferParams(Vec::new());
        proof {
            assert(r@ =~= Seq::<ParamView>::empty());
        }
        r
    }

    pub fn len(&self) -> (r: usize)
        ensures
            r == self@.len(),
    {
        self.0.len()
    }

    pub fn get(&self, i: usize) -> (r: &DecentralizedIdentiferParam)
        requires
            i < self@.len(),
        ensures
            r@ == self@[i as int],
    {
        &self.0[i]
    }

    /// Adds a parameter at the end.
    pub fn push(&mut self, p: DecentralizedIdentiferParam)
        ensures
            final(self)@ == old(self)@.push(p@),
    {
        let ghost before = self@;
        self.0.push(p);
        proof {
            assert(self@ =~= before.push(p@));
        }
    }

    /// Decodes parameters separated by `separator`. Empty pieces (a leading,
    /// trailing or doubled separator) give no parameter; the first piece that is
    /// not a parameter is the error.
    pub fn decode(input: &str, separator: char) -> (r: Result<Self, Error>)
        ensures
            r is Ok <==> decode_params(input@, separator) is Ok,
            r is Ok ==> r->Ok_0@ == decode_params(input@, separator)->Ok_0,
            r is Err ==> (r->Err_0 matches Error::MalformedInput(st, t) && st == Stage::Param
                && t@ == decode_params(input@, separator)->Err_0),
    {
        let v = chars_of(input);
        let pieces = split_range(&v, 0, v.len(), separator);
        proof {
            assert(input@.subrange(0, v.len() as int) =~= input@);
        }
        parse_pieces_exec(&pieces)
    }

    /// Each parameter preceded by `separator`.
    pub fn encode(&self, separator: char) -> (r: String)
        ensures
            r@ == params_encoding(self@, separator),
    {
        let mut r = String::new();
        let mut k: usize = 0;
        proof {
            assert(self@.take(0) =~= Seq::<ParamView>::empty());
        }
        while k < self.0.len()
            invariant
                k <= self.0.len(),
                self@.len() == self.0.len(),
                r@ == params_encoding(self@.take(k as int), separator),
            decreases self.0.len() - k,
        {
            let ghost before = r@;
            push_char(&mut r, separator);
            let p = self.0[k].encode();
            r.append(p.as_str());
            proof {
                let t = self@.take(k + 1);
                assert(t.drop_last() =~= self@.take(k as int));
                assert(t.last() == self.0@[k as int]@);
                assert(r@ =~= params_encoding(t, separator));
            }
            k = k + 1;
        }
        proof {
            assert(self@.take(k as int) =~= self@);
        }
        r
    }
}

} // verus!
