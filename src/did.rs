//! The DID itself: a method and an ordered list of identifier segments.
use vstd::prelude::*;
use vstd::string::StringExecFns;
use crate::error::{Component, Error, Stage};
use crate::grammar::{
    char_is_id, chars_of, is_id_char, is_method_char, join, keeps, lemma_scan_bounds, lemma_scan_stops, lemma_split_chars, lemma_split_join, scan, scan_exec, split,
    split_range, views, Region,
};

verus! {

/// A DID as a mathematical value.
pub struct DidView {
    pub method: Seq<char>,
    pub identifiers: Seq<Seq<char>>,
}

/// `did:method:id1:id2...`
#[derive(Clone, Debug)]
pub struct DecentralizedIdentifer {
    method: String,
    identifiers: Vec<String>,
}

impl View for DecentralizedIdentifer {
    type V = DidView;

    closed spec fn view(&self) -> DidView {
        DidView { method: self.method@, identifiers: views(self.identifiers@) }
    }
}

pub open spec fn did_prefix() -> Seq<char> {
    seq!['d', 'i', 'd', ':']
}

/// `method-name = 1*method-char`
pub open spec fn method_ok(m: Seq<char>) -> bool {
    m.len() > 0 && forall|i: int| 0 <= i < m.len() ==> is_method_char(#[trigger] m[i])
}

/// `*idchar`
pub open spec fn segment_ok(s: Seq<char>) -> bool {
    forall|i: int| 0 <= i < s.len() ==> is_id_char(#[trigger] s[i])
}

/// A DID whose method and segments are drawn from their character sets.
pub open spec fn did_wf(d: DidView) -> bool {
    method_ok(d.method) && forall|k: int|
        0 <= k < d.identifiers.len() ==> segment_ok(#[trigger] d.identifiers[k])
}

/// The canonical text of a DID: `"did:" + method + ":" + join(identifiers, ":")`.
pub open spec fn did_encoding(d: DidView) -> Seq<char> {
    did_prefix() + d.method + seq![':'] + join(d.identifiers, ':')
}

/// Where the method of `s` ends.
pub open spec fn method_end(s: Seq<char>) -> int {
    scan(s, 4, Region::Method)
}

/// Where the identifier segments of `s` end.
pub open spec fn ids_end(s: Seq<char>) -> int {
    scan(s, method_end(s) + 1, Region::Ids)
}

/// `s` starts with `did:`, a method and a colon.
pub open spec fn did_head_ok(s: Seq<char>) -> bool {
    &&& s.len() >= 4
    &&& s.subrange(0, 4) == did_prefix()
    &&& method_end(s) > 4
    &&& method_end(s) < s.len()
    &&& s[method_end(s)] == ':'
}

/// The segments of the text after the method's colon: none for empty text.
pub open spec fn ids_of(t: Seq<char>) -> Seq<Seq<char>> {
    if t.len() == 0 {
        Seq::empty()
    } else {
        split(t, ':')
    }
}

/// The DID at the head of `s`.
pub open spec fn did_part(s: Seq<char>) -> DidView {
    DidView {
        method: s.subrange(4, method_end(s)),
        identifiers: ids_of(s.subrange(method_end(s) + 1, ids_end(s))),
    }
}

/// `s` is `did:` method `:` ids and nothing more.
pub open spec fn did_text_ok(s: Seq<char>) -> bool {
    did_head_ok(s) && ids_end(s) == s.len()
}

/// `ids` with every segment equal to `x` taken out, the others kept in order.
pub open spec fn without(ids: Seq<Seq<char>>, x: Seq<char>) -> Seq<Seq<char>>
    decreases ids.len(),
{
    if ids.len() == 0 {
        ids
    } else if ids.last() == x {
        without(ids.drop_last(), x)
    } else {
        without(ids.drop_last(), x).push(ids.last())
    }
}

/// Every character of joined segments is an identifier character or the colon.
pub proof fn lemma_join_chars(ps: Seq<Seq<char>>)
    requires
        forall|k: int| 0 <= k < ps.len() ==> segment_ok(#[trigger] ps[k]),
    ensures
        forall|i: int|
            0 <= i < join(ps, ':').len() ==> keeps(Region::Ids, #[trigger] join(ps, ':')[i]),
    decreases ps.len(),
{
    if ps.len() == 1 {
        assert(segment_ok(ps[0]));
    } else if ps.len() > 1 {
        let init = ps.drop_last();
        assert forall|k: int| 0 <= k < init.len() implies segment_ok(#[trigger] init[k]) by {
            assert(init[k] == ps[k]);
        }
        lemma_join_chars(init);
        assert(segment_ok(ps[ps.len() - 1]));
        let j = join(ps, ':');
        let a = join(init, ':');
        assert forall|i: int| 0 <= i < j.len() implies keeps(Region::Ids, #[trigger] j[i]) by {
            if i < a.len() {
                assert(j[i] == a[i]);
            } else if i == a.len() {
                assert(j[i] == ':');
            } else {
                assert(j[i] == ps.last()[i - a.len() - 1]);
            }
        }
    }
}

/// The DID at the head of `did_encoding(d) + rest` is `d`, when `rest` does not
/// continue the identifier segments and `d` is not the single empty segment.
pub proof fn lemma_did_head_of_encoding(d: DidView, rest: Seq<char>)
    requires
        did_wf(d),
        d.identifiers != seq![Seq::<char>::empty()],
        rest.len() == 0 || !keeps(Region::Ids, rest[0]),
    ensures
        did_head_ok(did_encoding(d) + rest),
        method_end(did_encoding(d) + rest) == 4 + d.method.len(),
        ids_end(did_encoding(d) + rest) == did_encoding(d).len(),
        did_part(did_encoding(d) + rest) == d,
{
    let m = d.method;
    let ids = d.identifiers;
    let j = join(ids, ':');
    let e = did_encoding(d);
    let s = e + rest;
    let me: int = 4 + m.len() as int;
    assert(s.subrange(0, 4) =~= did_prefix());
    assert forall|k: int| 4 <= k < me implies keeps(Region::Method, #[trigger] s[k]) by {
        assert(s[k] == m[k - 4]);
    }
    assert(s[me] == ':');
    lemma_scan_stops(s, 4, me, Region::Method);
    lemma_join_chars(ids);
    assert forall|k: int| me + 1 <= k < e.len() implies keeps(Region::Ids, #[trigger] s[k]) by {
        assert(s[k] == j[k - me - 1]);
    }
    if rest.len() > 0 {
        assert(s[e.len() as int] == rest[0]);
    }
    lemma_scan_stops(s, me + 1, e.len() as int, Region::Ids);
    assert(s.subrange(4, me) =~= m);
    assert(s.subrange(me + 1, e.len() as int) =~= j);
    if ids.len() > 0 {
        if ids.len() == 1 {
            if ids[0].len() == 0 {
                assert(ids[0] =~= Seq::<char>::empty());
                assert(ids =~= seq![Seq::<char>::empty()]);
            }
            assert(j.len() > 0);
        } else {
            assert(j.len() > 0);
        }
        assert forall|k: int| 0 <= k < ids.len() implies !(#[trigger] ids[k]).contains(':') by {
            assert(segment_ok(ids[k]));
            if ids[k].contains(':') {
                let i = choose|i: int| 0 <= i < ids[k].len() && ids[k][i] == ':';
                assert(is_id_char(ids[k][i]));
            }
        }
        lemma_split_join(ids, ':');
    } else {
        assert(j.len() == 0);
    }
    assert(ids_of(j) == ids);
    assert(did_part(s).method == m);
    assert(did_part(s).identifiers == ids);
}

/// Decoding the encoding of a well-formed DID gives the DID back, for every DID
/// but the one whose segments are a single empty one (it encodes as the DID
/// without segments).
pub proof fn lemma_did_round_trip(d: DecentralizedIdentifer)
    requires
        did_wf(d@),
        d@.identifiers != seq![Seq::<char>::empty()],
    ensures
        did_text_ok(did_encoding(d@)),
        did_part(did_encoding(d@)) == d@,
{
    lemma_did_head_of_encoding(d@, Seq::empty());
    assert(did_encoding(d@) + Seq::<char>::empty() =~= did_encoding(d@));
}

/// Encoding is idempotent through decoding: the text of a well-formed DID
/// decodes, and the result encodes to the same text.
pub proof fn lemma_did_encoding_stable(d: DecentralizedIdentifer)
    requires
        did_wf(d@),
    ensures
        did_text_ok(did_encoding(d@)),
        did_encoding(did_part(did_encoding(d@))) == did_encoding(d@),
{
    if d@.identifiers == seq![Seq::<char>::empty()] {
        let e = DidView { method: d@.method, identifiers: Seq::empty() };
        lemma_did_head_of_encoding(e, Seq::empty());
        assert(did_encoding(e) + Seq::<char>::empty() =~= did_encoding(e));
        assert(did_encoding(e) =~= did_encoding(d@));
    } else {
        lemma_did_round_trip(d);
    }
}

/// The DID at the head of well-formed text is well formed.
pub proof fn lemma_did_part_wf(s: Seq<char>)
    requires
        did_head_ok(s),
    ensures
        did_wf(did_part(s)),
{
    let me = method_end(s);
    lemma_scan_bounds(s, 4, Region::Method);
    lemma_scan_bounds(s, me + 1, Region::Ids);
    let m = s.subrange(4, me);
    assert forall|i: int| 0 <= i < m.len() implies is_method_char(#[trigger] m[i]) by {
        assert(m[i] == s[i + 4]);
    }
    let t = s.subrange(me + 1, ids_end(s));
    lemma_split_chars(t, ':');
    let ids = did_part(s).identifiers;
    assert forall|k: int| 0 <= k < ids.len() implies segment_ok(#[trigger] ids[k]) by {
        assert(t.len() > 0);
        assert forall|i: int| 0 <= i < ids[k].len() implies is_id_char(#[trigger] ids[k][i]) by {
            let c = split(t, ':')[k][i];
            assert(t.contains(c));
            let j = choose|j: int| 0 <= j < t.len() && t[j] == c;
            assert(t[j] == s[me + 1 + j]);
        }
    }
}

/// The method of `s` and the end of its segments, where `s` has a DID head.
pub fn match_did_head(v: &Vec<char>) -> (r: Option<(usize, usize)>)
    ensures
        r is Some <==> did_head_ok(v@),
        r is Some ==> r->Some_0.0 == method_end(v@) && r->Some_0.1 == ids_end(v@),
{
    if v.len() < 4 || v[0] != 'd' || v[1] != 'i' || v[2] != 'd' || v[3] != ':' {
        proof {
            if v.len() >= 4 {
                assert(v@.subrange(0, 4)[0] == v@[0]);
                assert(v@.subrange(0, 4)[1] == v@[1]);
                assert(v@.subrange(0, 4)[2] == v@[2]);
                assert(v@.subrange(0, 4)[3] == v@[3]);
            }
        }
        return None;
    }
    proof {
        assert(v@.subrange(0, 4) =~= did_prefix());
    }
    let me = scan_exec(v, 4, Region::Method);
    if me == 4 || me >= v.len() || v[me] != ':' {
        return None;
    }
    let ie = scan_exec(v, me + 1, Region::Ids);
    Some((me, ie))
}

impl DecentralizedIdentifer {
    /// A DID of the given method, with no identifier segments.
    pub fn new(method: &str) -> (r: Result<Self, Error>)
        ensures
            r is Ok <==> method_ok(method@),
            r is Ok ==> r->Ok_0@ == (DidView { method: method@, identifiers: Seq::empty() }),
            r is Err ==> r->Err_0 == Error::InvalidComponent(Component::Method),
    {
        let v = chars_of(method);
        if v.len() == 0 {
            return Err(Error::InvalidComponent(Component::Method));
        }
        let e = scan_exec(&v, 0, Region::Method);
        proof {
            lemma_scan_bounds(v@, 0, Region::Method);
        }
        if e < v.len() {
            return Err(Error::InvalidComponent(Component::Method));
        }
        let r = DecentralizedIdentifer { method: method.to_owned(), identifiers: Vec::new() };
        proof {
            assert(views(r.identifiers@) =~= Seq::empty());
        }
        Ok(r)
    }

    pub fn method(&self) -> (r: &str)
        ensures
            r@ == self@.method,
    {
        self.method.as_str()
    }

    pub fn identifiers(&self) -> (r: &[String])
        ensures
            views(r@) == self@.identifiers,
    {
        self.identifiers.as_slice()
    }

    /// This DID with one more identifier segment at the end.
    pub fn add_identifier(self, identifier: &str) -> (r: Result<Self, Error>)
        ensures
            r is Ok <==> segment_ok(identifier@),
            r is Ok ==> r->Ok_0@ == (DidView {
                method: self@.method,
                identifiers: self@.identifiers.push(identifier@),
            }),
            r is Err ==> r->Err_0 == Error::InvalidComponent(Component::Identifier),
    {
        let v = chars_of(identifier);
        let mut k: usize = 0;
        while k < v.len()
            invariant
                k <= v.len(),
                v@ == identifier@,
                forall|i: int| 0 <= i < k ==> is_id_char(#[trigger] v@[i]),
            decreases v.len() - k,
        {
            if !char_is_id(v[k]) {
                return Err(Error::InvalidComponent(Component::Identifier));
            }
            k = k + 1;
        }
        let mut r = self;
        let ghost before = r.identifiers@;
        r.identifiers.push(identifier.to_owned());
        proof {
            assert(views(r.identifiers@) =~= views(before).push(identifier@));
        }
        Ok(r)
    }

    /// This DID with every segment equal to `identifier` taken out.
    pub fn remove_identifier(self, identifier: &str) -> (r: Self)
        ensures
            r@ == (DidView {
                method: self@.method,
                identifiers: without(self@.identifiers, identifier@),
            }),
    {
        let target = identifier.to_owned();
        let mut kept: Vec<String> = Vec::new();
        let mut k: usize = 0;
        while k < self.identifiers.len()
            invariant
                k <= self.identifiers.len(),
                target@ == identifier@,
                views(kept@) == without(views(self.identifiers@).take(k as int), identifier@),
            decreases self.identifiers.len() - k,
        {
            let ghost ids = views(self.identifiers@);
            let ghost before = views(kept@);
            proof {
                assert(ids.take(k + 1).drop_last() =~= ids.take(k as int));
                assert(ids.take(k + 1).last() == self.identifiers@[k as int]@);
            }
            if self.identifiers[k] != target {
                kept.push(self.identifiers[k].clone());
                proof {
                    assert(views(kept@) =~= before.push(self.identifiers@[k as int]@));
                }
            }
            k = k + 1;
        }
        proof {
            assert(views(self.identifiers@).take(k as int) =~= views(self.identifiers@));
        }
        DecentralizedIdentifer { method: self.method, identifiers: kept }
    }

    /// The canonical text: `did:method:` followed by the segments joined with `:`.
    pub fn encode(&self) -> (r: String)
        ensures
            r@ == did_encoding(self@),
    {
        let mut r = String::from_str("did:");
        proof {
            reveal_strlit("did:");
            assert(r@ =~= did_prefix());
        }
        r.append(self.method.as_str());
        r.append(":");
        proof {
            reveal_strlit(":");
        }
        let ghost head = r@;
        let ghost ids = views(self.identifiers@);
        let mut k: usize = 0;
        proof {
            assert(ids.take(0) =~= Seq::<Seq<char>>::empty());
            assert(r@ =~= head + join(ids.take(0), ':'));
        }
        while k < self.identifiers.len()
            invariant
                k <= self.identifiers.len(),
                ids == views(self.identifiers@),
                r@ == head + join(ids.take(k as int), ':'),
            decreases self.identifiers.len() - k,
        {
            let ghost before = r@;
            if k > 0 {
                r.append(":");
            }
            r.append(self.identifiers[k].as_str());
            proof {
                let t = ids.take(k + 1);
                assert(t.drop_last() =~= ids.take(k as int));
                assert(t.last() == self.identifiers@[k as int]@);
                if k == 0 {
                    assert(join(t, ':') == t[0]);
                    assert(r@ =~= head + join(t, ':'));
                } else {
                    reveal_strlit(":");
                    assert(join(t, ':') == join(ids.take(k as int), ':') + seq![':'] + t.last());
                    assert(r@ =~= head + join(t, ':'));
                }
            }
            k = k + 1;
        }
        proof {
            assert(ids.take(k as int) =~= ids);
            assert(r@ =~= did_encoding(self@));
        }
        r
    }

    /// The DID whose method is `s[4..me]` and whose segments are those of `s[me+1..ie]`.
    pub(crate) fn from_captures(s: &str, v: &Vec<char>, me: usize, ie: usize) -> (r: Self)
        requires
            v@ == s@,
            4 <= me,
            me + 1 <= ie <= v.len(),
        ensures
            r@ == (DidView {
                method: s@.subrange(4, me as int),
                identifiers: ids_of(s@.subrange(me + 1, ie as int)),
            }),
    {
        let method = s.substring_char(4, me).to_owned();
        if me + 1 == ie {
            let r = DecentralizedIdentifer { method, identifiers: Vec::new() };
            proof {
                assert(views(r.identifiers@) =~= Seq::empty());
            }
            r
        } else {
            let identifiers = split_range(v, me + 1, ie, ':');
            DecentralizedIdentifer { method, identifiers }
        }
    }

    /// Decodes `did:method:ids`; the text must match entirely.
    pub fn decode(input: &str) -> (r: Result<Self, Error>)
        ensures
            r is Ok <==> did_text_ok(input@),
            r is Ok ==> r->Ok_0@ == did_part(input@) && did_wf(r->Ok_0@),
            r is Err ==> (r->Err_0 matches Error::MalformedInput(st, t) && st == Stage::Did
                && t@ == input@),
    {
        let v = chars_of(input);
        match match_did_head(&v) {
            Some((me, ie)) => {
                if ie == v.len() {
                    proof {
                        lemma_scan_bounds(v@, me + 1, Region::Ids);
                        lemma_did_part_wf(v@);
                    }
                    Ok(DecentralizedIdentifer::from_captures(input, &v, me, ie))
                } else {
                    Err(Error::MalformedInput(Stage::Did, input.to_owned()))
                }
            },
            None => Err(Error::MalformedInput(Stage::Did, input.to_owned())),
        }
    }
}

} // verus!
